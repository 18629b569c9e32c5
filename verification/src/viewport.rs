//! Fitting the visible rows into a bounded viewport: choose the window of
//! flattened rows to draw so that the selected row is always inside it, and
//! persist its start as the new scroll offset.
use crate::flatten::{flatten, flatten_item, flatten_items, rows_model, Flattened, RowModel, TreeItem};
use crate::tree_state::TreeState;
use vstd::prelude::*;

verus! {

// ---------------------------------------------------------------------------
// Height sums, exact and capped.
// ---------------------------------------------------------------------------

/// Sum of the row heights over `[lo, hi)`.
pub open spec fn heights_sum(rows: Seq<RowModel>, lo: int, hi: int) -> int
    decreases hi - lo,
{
    if lo >= hi {
        0
    } else {
        heights_sum(rows, lo, hi - 1) + rows[hi - 1].height
    }
}

/// A height capped at one more than the viewport height: everything taller
/// behaves alike, which keeps running sums small.
pub open spec fn cmin(h: nat, avail: int) -> int {
    if h > avail + 1 {
        avail + 1
    } else {
        h as int
    }
}

/// Sum of the capped row heights over `[lo, hi)`.
pub open spec fn capped_sum(rows: Seq<RowModel>, lo: int, hi: int, avail: int) -> int
    decreases hi - lo,
{
    if lo >= hi {
        0
    } else {
        capped_sum(rows, lo, hi - 1, avail) + cmin(rows[hi - 1].height, avail)
    }
}

/// Height sums are monotone in the right bound and nonnegative.
pub proof fn lemma_heights_sum_mono(rows: Seq<RowModel>, lo: int, h1: int, h2: int)
    requires
        lo <= h1 <= h2,
    ensures
        0 <= heights_sum(rows, lo, h1) <= heights_sum(rows, lo, h2),
    decreases h2 - lo,
{
    if h1 < h2 {
        lemma_heights_sum_mono(rows, lo, h1, h2 - 1);
    } else if h1 > lo {
        lemma_heights_sum_mono(rows, lo, lo, h1 - 1);
    }
}

/// Capped sums are nonnegative.
pub proof fn lemma_capped_sum_nonneg(rows: Seq<RowModel>, lo: int, hi: int, avail: int)
    requires
        avail >= 0,
    ensures
        capped_sum(rows, lo, hi, avail) >= 0,
    decreases hi - lo,
{
    if lo < hi {
        lemma_capped_sum_nonneg(rows, lo, hi - 1, avail);
    }
}

/// A capped sum splits at its first element.
pub proof fn lemma_capped_sum_head(rows: Seq<RowModel>, lo: int, hi: int, avail: int)
    requires
        lo < hi,
    ensures
        capped_sum(rows, lo, hi, avail) == cmin(rows[lo].height, avail) + capped_sum(
            rows,
            lo + 1,
            hi,
            avail,
        ),
    decreases hi - lo,
{
    if lo + 1 < hi {
        lemma_capped_sum_head(rows, lo, hi - 1, avail);
    } else {
        assert(capped_sum(rows, lo, lo, avail) == 0);
        assert(capped_sum(rows, lo + 1, hi, avail) == 0);
    }
}

/// The capped sum answers "does it fit?" exactly as the real sum does, and
/// the two agree whenever the window fits.
pub proof fn lemma_capped_sum_exact(rows: Seq<RowModel>, lo: int, hi: int, avail: int)
    requires
        avail >= 0,
    ensures
        capped_sum(rows, lo, hi, avail) <= avail ==> capped_sum(rows, lo, hi, avail)
            == heights_sum(rows, lo, hi),
        capped_sum(rows, lo, hi, avail) <= avail <==> heights_sum(rows, lo, hi) <= avail,
    decreases hi - lo,
{
    if lo < hi {
        lemma_capped_sum_exact(rows, lo, hi - 1, avail);
        lemma_capped_sum_nonneg(rows, lo, hi - 1, avail);
        lemma_heights_sum_mono(rows, lo, lo, hi - 1);
    }
}

// ---------------------------------------------------------------------------
// The window.
// ---------------------------------------------------------------------------

/// Largest end of a window starting at `start` that still fits, grown
/// greedily from `e`.
pub open spec fn greedy_end(rows: Seq<RowModel>, start: int, e: int, avail: int) -> int
    decreases rows.len() - e,
{
    if e < rows.len() && capped_sum(rows, start, e + 1, avail) <= avail {
        greedy_end(rows, start, e + 1, avail)
    } else {
        e
    }
}

/// Earliest window start in `[s, sel]` from which the rows up to and
/// including `sel` fit (`sel` itself when none does).
pub open spec fn min_window_start(rows: Seq<RowModel>, s: int, sel: int, avail: int) -> int
    decreases sel - s,
{
    if s >= sel {
        sel
    } else if capped_sum(rows, s, sel + 1, avail) <= avail {
        s
    } else {
        min_window_start(rows, s + 1, sel, avail)
    }
}

/// The drawn window `[start, end)`: start from the smaller of the previous
/// offset and the selected index and fill greedily; when the selection
/// falls outside, grow to it from the bottom and shrink from the top just
/// until the window fits again (a single over-tall row stays alone).
pub open spec fn window_spec(rows: Seq<RowModel>, sel: int, offset: int, avail: int) -> (int, int) {
    let s0 = if offset < sel {
        offset
    } else {
        sel
    };
    let e0 = greedy_end(rows, s0, s0, avail);
    if sel < e0 {
        (s0, e0)
    } else {
        (min_window_start(rows, s0, sel, avail), sel + 1)
    }
}

/// A scan that already failed below `start` locates the same minimum.
proof fn lemma_min_start_locate(rows: Seq<RowModel>, s0: int, start: int, sel: int, avail: int)
    requires
        s0 <= start <= sel,
        forall|s2: int| s0 <= s2 < start ==> #[trigger] capped_sum(rows, s2, sel + 1, avail) > avail,
        capped_sum(rows, start, sel + 1, avail) <= avail || start == sel,
    ensures
        min_window_start(rows, s0, sel, avail) == start,
    decreases start - s0,
{
    if s0 < start {
        lemma_min_start_locate(rows, s0 + 1, start, sel, avail);
    }
}

/// The capped height of row `i`, executably.
fn min_h(rows: &Vec<Flattened>, i: usize, avail: usize) -> (r: usize)
    requires
        i < rows@.len(),
        avail <= 65535,
    ensures
        r as int == cmin(rows_model(rows@)[i as int].height, avail as int),
        r <= avail + 1,
{
    let h = rows[i].height;
    if h > avail {
        avail + 1
    } else {
        h
    }
}

/// Compute the window `[start, end)` of `rows` to draw in a viewport of
/// height `avail`, containing the row at `sel`; see [`window_spec`].
pub fn compute_window(rows: &Vec<Flattened>, sel: usize, offset: usize, avail: usize) -> (r: (
    usize,
    usize,
))
    requires
        sel < rows@.len(),
        1 <= avail <= 65535,
    ensures
        (r.0 as int, r.1 as int) == window_spec(
            rows_model(rows@),
            sel as int,
            offset as int,
            avail as int,
        ),
        r.0 <= sel < r.1 <= rows@.len(),
        r.1 - r.0 >= 2 ==> heights_sum(rows_model(rows@), r.0 as int, r.1 as int) <= avail,
{
    let ghost rm = rows_model(rows@);
    let ghost av = avail as int;
    let total = rows.len();
    assert(total as int == rows@.len());
    let s0: usize = if offset < sel {
        offset
    } else {
        sel
    };
    let mut end: usize = s0;
    let mut acc: usize = 0;
    while end < rows.len() && min_h(rows, end, avail) <= avail - acc
        invariant
            rm == rows_model(rows@),
            av == avail as int,
            1 <= avail <= 65535,
            sel < rows@.len(),
            s0 <= end <= rows@.len(),
            acc as int == capped_sum(rm, s0 as int, end as int, av),
            acc <= avail,
            greedy_end(rm, s0 as int, end as int, av) == greedy_end(rm, s0 as int, s0 as int, av),
        decreases rows@.len() - end,
    {
        let h = min_h(rows, end, avail);
        acc = acc + h;
        end = end + 1;
    }
    proof {
        if end < rows@.len() {
            assert(capped_sum(rm, s0 as int, end + 1, av) > av);
        }
        assert(greedy_end(rm, s0 as int, end as int, av) == end);
    }
    if sel < end {
        proof {
            lemma_capped_sum_exact(rm, s0 as int, end as int, av);
        }
        return (s0, end);
    }
    let mut start: usize = s0;
    while sel >= end
        invariant
            rm == rows_model(rows@),
            av == avail as int,
            1 <= avail <= 65535,
            sel < rows@.len() <= usize::MAX,
            s0 <= start <= sel,
            start <= end <= sel + 1,
            acc as int == capped_sum(rm, start as int, end as int, av),
            acc <= avail || end - start == 1,
            forall|s2: int|
                s0 <= s2 < start ==> #[trigger] capped_sum(rm, s2, end as int, av) > av,
        decreases sel + 1 - end,
    {
        let h = min_h(rows, end, avail);
        proof {
            if end - start == 1 {
                assert(capped_sum(rm, start as int, end as int, av) == capped_sum(
                    rm,
                    start as int,
                    end - 1,
                    av,
                ) + cmin(rm[end - 1].height, av));
            }
            assert(acc <= avail + 1);
        }
        acc = acc + h;
        end = end + 1;
        proof {
            assert forall|s2: int| s0 <= s2 < start implies #[trigger] capped_sum(
                rm,
                s2,
                end as int,
                av,
            ) > av by {
                assert(capped_sum(rm, s2, end as int, av) == capped_sum(rm, s2, end - 1, av)
                    + cmin(rm[end - 1].height, av));
            }
        }
        while acc > avail && start + 1 < end
            invariant
                rm == rows_model(rows@),
                av == avail as int,
                1 <= avail <= 65535,
                sel < rows@.len(),
                s0 <= start,
                start < end <= sel + 1,
                start <= sel,
                acc as int == capped_sum(rm, start as int, end as int, av),
                acc <= 2 * avail + 2,
                forall|s2: int|
                    s0 <= s2 < start ==> capped_sum(rm, s2, end as int, av) > av,
            decreases end - start,
        {
            let hs = min_h(rows, start, avail);
            proof {
                lemma_capped_sum_head(rm, start as int, end as int, av);
                lemma_capped_sum_nonneg(rm, start as int + 1, end as int, av);
            }
            acc = acc - hs;
            start = start + 1;
        }
    }
    proof {
        assert(end == sel + 1);
        if acc <= avail {
            lemma_min_start_locate(rm, s0 as int, start as int, sel as int, av);
        } else {
            assert(start + 1 == end);
            assert(start == sel);
            lemma_min_start_locate(rm, s0 as int, start as int, sel as int, av);
        }
        lemma_capped_sum_exact(rm, start as int, end as int, av);
    }
    (start, end)
}

// ---------------------------------------------------------------------------
// The rows a render draws.
// ---------------------------------------------------------------------------

/// The marker drawn before a row: the entry has no children, or its
/// children are shown, or they are hidden.
#[derive(Debug, PartialEq, Eq, Structural, Clone, Copy)]
pub enum Glyph {
    Leaf,
    Open,
    Closed,
}

/// One drawing command: put `label` at row-unit `y` of the viewport,
/// indented by `depth` levels, preceded by `glyph`, highlighted when
/// `selected`; the row spans `height` row units.
#[derive(Debug)]
pub struct RowCmd {
    pub y: u16,
    pub depth: usize,
    pub glyph: Glyph,
    pub label: String,
    pub height: usize,
    pub selected: bool,
}

/// What the `k`-th drawn command must hold for the window starting at
/// `start`.
pub open spec fn row_cmd_ok(
    rows: Seq<RowModel>,
    opened: Set<Seq<usize>>,
    sel_path: Seq<usize>,
    start: int,
    k: int,
    cmd: RowCmd,
) -> bool {
    let row = rows[start + k];
    &&& cmd.y as int == heights_sum(rows, start, start + k)
    &&& row.id.len() > 0
    &&& cmd.depth as nat == row.id.len() - 1
    &&& cmd.label@ == row.label
    &&& cmd.height as nat == row.height
    &&& cmd.selected == (sel_path.len() > 0 && row.id == sel_path)
    &&& cmd.glyph == (if row.child_count == 0 {
        Glyph::Leaf
    } else if opened.contains(row.id) {
        Glyph::Open
    } else {
        Glyph::Closed
    })
}

/// Every row a tree item yields carries a path at least as long as its own.
pub proof fn lemma_flatten_item_ids(item: TreeItem, opened: Set<Seq<usize>>, path: Seq<usize>)
    ensures
        forall|k: int|
            0 <= k < flatten_item(item, opened, path).len() ==> (#[trigger] flatten_item(
                item,
                opened,
                path,
            )[k]).id.len() >= path.len(),
    decreases item,
{
    let rows = flatten_item(item, opened, path);
    if opened.contains(path) {
        lemma_flatten_items_ids(item.children@, opened, path, 0);
        let tail = flatten_items(item.children@, opened, path, 0);
        assert forall|k: int| 0 <= k < rows.len() implies (#[trigger] rows[k]).id.len()
            >= path.len() by {
            if k > 0 {
                assert(rows[k] == tail[k - 1]);
            }
        }
    } else {
        assert(rows.len() == 1);
    }
}

/// Every row of a run of items carries a path longer than the prefix.
pub proof fn lemma_flatten_items_ids(
    items: Seq<TreeItem>,
    opened: Set<Seq<usize>>,
    prefix: Seq<usize>,
    i: int,
)
    ensures
        forall|k: int|
            0 <= k < flatten_items(items, opened, prefix, i).len() ==> (#[trigger] flatten_items(
                items,
                opened,
                prefix,
                i,
            )[k]).id.len() > prefix.len(),
    decreases items, items.len() - i,
{
    if 0 <= i < items.len() {
        lemma_flatten_item_ids(items[i], opened, prefix.push(i as usize));
        lemma_flatten_items_ids(items, opened, prefix, i + 1);
        let rows = flatten_items(items, opened, prefix, i);
        let head = flatten_item(items[i], opened, prefix.push(i as usize));
        let tail = flatten_items(items, opened, prefix, i + 1);
        assert forall|k: int| 0 <= k < rows.len() implies (#[trigger] rows[k]).id.len()
            > prefix.len() by {
            if k < head.len() {
                assert(rows[k] == head[k]);
                assert(head[k].id.len() >= prefix.push(i as usize).len());
            } else {
                assert(rows[k] == tail[k - head.len()]);
            }
        }
    }
}

/// Index of the selected path in the row list: the first row carrying it,
/// and 0 when there is no selection or it is not visible.
pub open spec fn locate_from(rows: Seq<RowModel>, sel: Seq<usize>, i: int) -> int
    decreases rows.len() - i,
{
    if i < 0 || i >= rows.len() {
        0
    } else if rows[i].id == sel {
        i
    } else {
        locate_from(rows, sel, i + 1)
    }
}

/// Index of the selection among the rows; 0 for an empty selection.
pub open spec fn locate_row(rows: Seq<RowModel>, sel: Seq<usize>) -> int {
    if sel.len() == 0 {
        0
    } else {
        locate_from(rows, sel, 0)
    }
}

/// Find the flattened index of the selected path.
fn locate_selected(rows: &Vec<Flattened>, sel: &Vec<usize>) -> (r: usize)
    requires
        rows@.len() > 0,
    ensures
        r as int == locate_row(rows_model(rows@), sel@),
        r < rows@.len(),
{
    let ghost rm = rows_model(rows@);
    if sel.len() == 0 {
        return 0;
    }
    let mut i: usize = 0;
    while i < rows.len()
        invariant
            i <= rows@.len(),
            rm == rows_model(rows@),
            sel@.len() > 0,
            rows@.len() > 0,
            locate_from(rm, sel@, 0) == locate_from(rm, sel@, i as int),
        decreases rows@.len() - i,
    {
        if &rows[i].identifier == sel {
            assert(rm[i as int].id == sel@);
            assert(locate_from(rm, sel@, i as int) == i);
            return i;
        }
        assert(rm[i as int].id == rows@[i as int].identifier@);
        i = i + 1;
    }
    0
}

impl TreeState {
    /// Compute the rows one render draws: flatten the visible items, place
    /// the window so the selected row is inside it (see [`window_spec`]),
    /// persist the window start as the new scroll offset, and emit one
    /// command per drawn row. An empty forest or a zero-height viewport
    /// draws nothing and leaves the offset alone.
    pub fn render_rows(&mut self, items: &Vec<TreeItem>, height: u16) -> (r: Vec<RowCmd>)
        requires
            old(self).inv(),
        ensures
            final(self).inv(),
            final(self).opened_set() == old(self).opened_set(),
            final(self).spec_selected() == old(self).spec_selected(),
            ({
                let rows = flatten_items(
                    items@,
                    old(self).opened_set(),
                    Seq::<usize>::empty(),
                    0,
                );
                if rows.len() == 0 || height == 0 {
                    r@.len() == 0 && final(self).spec_offset() == old(self).spec_offset()
                } else {
                    let sel = locate_row(rows, old(self).spec_selected());
                    let w = window_spec(rows, sel, old(self).spec_offset() as int, height as int);
                    &&& final(self).spec_offset() == w.0
                    &&& w.0 <= sel < w.1 <= rows.len()
                    &&& r@.len() == w.1 - w.0
                    &&& forall|k: int|
                        0 <= k < r@.len() ==> row_cmd_ok(
                            rows,
                            old(self).opened_set(),
                            old(self).spec_selected(),
                            w.0,
                            k,
                            #[trigger] r@[k],
                        )
                }
            }),
    {
        let opened_list = self.get_all_opened();
        let visible = flatten(&opened_list, items);
        let ghost rm = rows_model(visible@);
        let ghost oset = old(self).opened_set();
        let ghost selp = old(self).spec_selected();
        if visible.len() == 0 || height == 0 {
            return Vec::new();
        }
        proof {
            lemma_flatten_items_ids(items@, oset, Seq::<usize>::empty(), 0);
        }
        let sel_idx = locate_selected(&visible, self.selected());
        let avail: usize = height as usize;
        let window = compute_window(&visible, sel_idx, self.get_offset(), avail);
        let start = window.0;
        let end = window.1;
        self.set_offset(start);
        let mut cmds: Vec<RowCmd> = Vec::new();
        let mut k: usize = start;
        let mut y: u16 = 0;
        while k < end
            invariant
                self.inv(),
                self.opened_set() == oset,
                self.spec_selected() == selp,
                rm == rows_model(visible@),
                start <= k <= end <= visible@.len(),
                1 <= avail <= 65535,
                end - start >= 2 ==> heights_sum(rm, start as int, end as int) <= avail,
                forall|m: int| 0 <= m < rm.len() ==> (#[trigger] rm[m]).id.len() > 0,
                k == end || y as int == heights_sum(rm, start as int, k as int),
                cmds@.len() == k - start,
                forall|m: int|
                    0 <= m < cmds@.len() ==> row_cmd_ok(rm, oset, selp, start as int, m, #[trigger] cmds@[m]),
            decreases end - k,
        {
            let row = &visible[k];
            assert(rm[k as int] == visible@[k as int]@);
            let depth = row.identifier.len() - 1;
            let glyph = if row.child_count == 0 {
                Glyph::Leaf
            } else if self.is_open(&row.identifier) {
                Glyph::Open
            } else {
                Glyph::Closed
            };
            let selv = self.selected();
            let is_sel = selv.len() > 0 && (&row.identifier == selv);
            proof {
                if selp.len() > 0 && rm[k as int].id == selp {
                    assert(row.identifier@ == selp);
                }
            }
            let cmd = RowCmd {
                y,
                depth,
                glyph,
                label: row.label.clone(),
                height: row.height,
                selected: is_sel,
            };
            proof {
                let row_m = rm[k as int];
                assert(cmd.y as int == heights_sum(rm, start as int, k as int));
                assert(row_m.id.len() > 0);
                assert(cmd.depth as nat == row_m.id.len() - 1);
                assert(cmd.label@ == row_m.label);
                assert(cmd.height as nat == row_m.height);
                if is_sel {
                    assert(row.identifier@ =~= selv@);
                }
                assert(cmd.selected == (selp.len() > 0 && row_m.id == selp));
                assert(cmd.glyph == (if row_m.child_count == 0 {
                    Glyph::Leaf
                } else if oset.contains(row_m.id) {
                    Glyph::Open
                } else {
                    Glyph::Closed
                }));
                assert(row_cmd_ok(rm, oset, selp, start as int, k - start, cmd));
            }
            cmds.push(cmd);
            if k + 1 < end {
                proof {
                    lemma_heights_sum_mono(rm, start as int, k + 1, end as int);
                    assert(heights_sum(rm, start as int, k + 1) == heights_sum(
                        rm,
                        start as int,
                        k as int,
                    ) + rm[k as int].height);
                    lemma_heights_sum_mono(rm, start as int, start as int, k as int);
                }
                assert(row.height <= 65535);
                y = y + (row.height as u16);
            }
            k = k + 1;
        }
        cmds
    }
}

} // verus!
