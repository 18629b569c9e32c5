//! Navigation state over any tree shape: which paths are expanded, which
//! entry is selected, and the scroll offset of the viewport.
//!
//! The state machine only reads the tree through [`TreeView::num_children`],
//! so it works over the outline itself and over any tree-shaped fixture.
use vstd::prelude::*;

verus! {

/// A path of zero-based child indices from the forest root.
pub type TreeIdentifierVec = Vec<usize>;

/// Read-only shape oracle: how many children live at a path. The spec
/// function gives the count every contract speaks of; `num_children`
/// returns exactly it.
pub trait TreeView {
    spec fn spec_num_children(&self, path: Seq<usize>) -> nat;

    /// A bound on the tree's depth: at or below no path of at least this
    /// length does any entry have children. It keeps every descent finite.
    spec fn spec_depth_limit(&self) -> nat;

    proof fn depth_limit_is_bound(&self, path: Seq<usize>)
        ensures
            path.len() >= self.spec_depth_limit() ==> self.spec_num_children(path) == 0,
    ;

    fn num_children(&self, index: &Vec<usize>) -> (n: usize)
        ensures
            n as nat == self.spec_num_children(index@),
    ;
}

/// Whether every index of `path` addresses an existing child under `tree`.
pub open spec fn sel_path_ok<T: TreeView>(tree: &T, path: Seq<usize>) -> bool {
    forall|i: int|
        0 <= i < path.len() ==> (path[i] as nat) < tree.spec_num_children(#[trigger] path.take(i))
}

/// The set of paths a list of path vectors holds.
pub open spec fn paths_set(list: Seq<TreeIdentifierVec>) -> Set<Seq<usize>> {
    Set::new(|p: Seq<usize>| exists|k: int| 0 <= k < list.len() && list[k]@ == p)
}

/// Selection, expanded paths, and scroll offset.
#[derive(Debug)]
pub struct TreeState {
    offset: usize,
    opened: Vec<TreeIdentifierVec>,
    selected: TreeIdentifierVec,
}

impl TreeState {
    /// The scroll offset the last render persisted.
    pub closed spec fn spec_offset(&self) -> nat {
        self.offset as nat
    }

    /// The set of expanded paths.
    pub closed spec fn opened_set(&self) -> Set<Seq<usize>> {
        paths_set(self.opened@)
    }

    /// The selected path (empty: no selection).
    pub closed spec fn spec_selected(&self) -> Seq<usize> {
        self.selected@
    }

    /// A path is shown expanded when it is the (always expanded) root or a
    /// member of the expanded set.
    pub open spec fn spec_is_open(&self, path: Seq<usize>) -> bool {
        path.len() == 0 || self.opened_set().contains(path)
    }

    /// Internal well-formedness: the expanded list holds no duplicates and
    /// never the empty path.
    pub closed spec fn inv(&self) -> bool {
        &&& forall|k1: int, k2: int|
            0 <= k1 < k2 < self.opened@.len() ==> self.opened@[k1]@ != self.opened@[k2]@
        &&& forall|k: int| 0 <= k < self.opened@.len() ==> self.opened@[k]@.len() > 0
    }
}

impl Default for TreeState {
    /// Fresh state: nothing expanded, nothing selected, offset zero.
    fn default() -> (r: Self)
        ensures
            r.inv(),
            r.spec_offset() == 0,
            r.opened_set() == Set::<Seq<usize>>::empty(),
            r.spec_selected() == Seq::<usize>::empty(),
    {
        let r = TreeState { offset: 0, opened: Vec::new(), selected: Vec::new() };
        proof {
            assert(r.opened_set() =~= Set::<Seq<usize>>::empty());
        }
        r
    }
}

/// Whether some element of `list` holds the same path as `p`.
pub(crate) fn list_contains_path(list: &Vec<TreeIdentifierVec>, p: &Vec<usize>) -> (r: bool)
    ensures
        r == paths_set(list@).contains(p@),
{
    let mut k: usize = 0;
    while k < list.len()
        invariant
            k <= list@.len(),
            forall|m: int| 0 <= m < k ==> list@[m]@ != p@,
        decreases list@.len() - k,
    {
        if &list[k] == p {
            assert(list@[k as int]@ == p@);
            return true;
        }
        k = k + 1;
    }
    false
}

impl TreeState {
    /// The scroll offset persisted by the last render.
    #[must_use]
    pub fn get_offset(&self) -> (r: usize)
        ensures
            r as nat == self.spec_offset(),
    {
        self.offset
    }

    /// Every expanded path, in no particular order.
    #[must_use]
    pub fn get_all_opened(&self) -> (r: Vec<TreeIdentifierVec>)
        ensures
            paths_set(r@) == self.opened_set(),
    {
        let mut r: Vec<TreeIdentifierVec> = Vec::new();
        let mut k: usize = 0;
        while k < self.opened.len()
            invariant
                k <= self.opened@.len(),
                r@.len() == k,
                forall|m: int| 0 <= m < k ==> r@[m]@ == self.opened@[m]@,
            decreases self.opened@.len() - k,
        {
            r.push(self.opened[k].clone());
            k = k + 1;
        }
        proof {
            assert forall|p: Seq<usize>| self.opened_set().contains(p) implies paths_set(
                r@,
            ).contains(p) by {
                let k2 = choose|k2: int|
                    0 <= k2 < self.opened@.len() && self.opened@[k2]@ == p;
                assert(r@[k2]@ == p);
            }
            assert forall|p: Seq<usize>| paths_set(r@).contains(p) implies self.opened_set().contains(
                p,
            ) by {
                let k2 = choose|k2: int| 0 <= k2 < r@.len() && r@[k2]@ == p;
                assert(self.opened@[k2]@ == p);
            }
            assert(paths_set(r@) =~= self.opened_set());
        }
        r
    }

    /// Persist the scroll offset a render settled on.
    pub(crate) fn set_offset(&mut self, offset: usize)
        ensures
            final(self).spec_offset() == offset as nat,
            final(self).opened_set() == old(self).opened_set(),
            final(self).spec_selected() == old(self).spec_selected(),
            old(self).inv() ==> final(self).inv(),
    {
        self.offset = offset;
    }

    /// Whether `identifier` is shown expanded (the empty path, the implicit
    /// root, always is).
    #[must_use]
    pub fn is_open(&self, identifier: &Vec<usize>) -> (r: bool)
        ensures
            r == self.spec_is_open(identifier@),
    {
        if identifier.len() == 0 {
            true
        } else {
            list_contains_path(&self.opened, identifier)
        }
    }

    /// The selected path (empty: no selection).
    #[must_use]
    pub fn selected(&self) -> (r: &Vec<usize>)
        ensures
            r@ == self.spec_selected(),
    {
        &self.selected
    }

    /// Select `identifier`.
    pub fn select(&mut self, identifier: Vec<usize>)
        ensures
            final(self).spec_selected() == identifier@,
            final(self).opened_set() == old(self).opened_set(),
            final(self).spec_offset() == old(self).spec_offset(),
            old(self).inv() ==> final(self).inv(),
    {
        self.selected = identifier;
    }

    /// Expand `identifier`. Returns whether the set grew; the empty path is
    /// refused (the root is always expanded).
    pub fn open(&mut self, identifier: &Vec<usize>) -> (r: bool)
        requires
            old(self).inv(),
        ensures
            final(self).inv(),
            final(self).spec_selected() == old(self).spec_selected(),
            final(self).spec_offset() == old(self).spec_offset(),
            identifier@.len() == 0 ==> final(self).opened_set() == old(self).opened_set() && r
                == false,
            identifier@.len() > 0 ==> final(self).opened_set() == old(self).opened_set().insert(
                identifier@,
            ) && r == !old(self).opened_set().contains(identifier@),
    {
        if identifier.len() == 0 {
            return false;
        }
        if list_contains_path(&self.opened, identifier) {
            proof {
                assert(old(self).opened_set().contains(identifier@));
                assert(final(self).opened_set() =~= old(self).opened_set().insert(identifier@));
            }
            false
        } else {
            let ghost before = self.opened@;
            self.opened.push(identifier.clone());
            proof {
                assert(self.opened@[before.len() as int]@ == identifier@);
                assert forall|p: Seq<usize>| self.opened_set().contains(p) implies old(self).opened_set().insert(identifier@).contains(p) by {
                    let k = choose|k: int| 0 <= k < self.opened@.len() && self.opened@[k]@ == p;
                    if k < before.len() {
                        assert(before[k]@ == p);
                    }
                }
                assert forall|p: Seq<usize>| old(self).opened_set().insert(identifier@).contains(
                    p,
                ) implies self.opened_set().contains(p) by {
                    if p == identifier@ {
                        assert(self.opened@[before.len() as int]@ == p);
                    } else {
                        let k = choose|k: int| 0 <= k < before.len() && before[k]@ == p;
                        assert(self.opened@[k]@ == p);
                    }
                }
                assert(self.opened_set() =~= old(self).opened_set().insert(identifier@));
            }
            true
        }
    }

    /// Collapse `identifier`. Returns whether it had been expanded.
    pub fn close(&mut self, identifier: &Vec<usize>) -> (r: bool)
        requires
            old(self).inv(),
        ensures
            final(self).inv(),
            final(self).spec_selected() == old(self).spec_selected(),
            final(self).spec_offset() == old(self).spec_offset(),
            final(self).opened_set() == old(self).opened_set().remove(identifier@),
            r == old(self).opened_set().contains(identifier@),
    {
        let mut k: usize = 0;
        while k < self.opened.len()
            invariant
                old(self).inv(),
                k <= self.opened@.len(),
                self.opened@ == old(self).opened@,
                self.selected@ == old(self).selected@,
                self.offset == old(self).offset,
                forall|m: int| 0 <= m < k ==> old(self).opened@[m]@ != identifier@,
            decreases self.opened@.len() - k,
        {
            if &self.opened[k] == identifier {
                assert(old(self).opened@[k as int]@ == identifier@);
                self.opened.remove(k);
                proof {
                    assert forall|p: Seq<usize>| self.opened_set().contains(p) implies old(self).opened_set().remove(identifier@).contains(p) by {
                        let m = choose|m: int| 0 <= m < self.opened@.len() && self.opened@[m]@ == p;
                        if m < k {
                            assert(old(self).opened@[m]@ == p);
                        } else {
                            assert(old(self).opened@[m + 1]@ == p);
                        }
                    }
                    assert forall|p: Seq<usize>| old(self).opened_set().remove(identifier@).contains(p) implies self.opened_set().contains(p) by {
                        let m = choose|m: int| 0 <= m < old(self).opened@.len() && old(self).opened@[m]@ == p;
                        if m < k {
                            assert(self.opened@[m]@ == p);
                        } else {
                            assert(m != k);
                            assert(self.opened@[m - 1]@ == p);
                        }
                    }
                    assert(self.opened_set() =~= old(self).opened_set().remove(identifier@));
                }
                return true;
            }
            k = k + 1;
        }
        proof {
            assert(!old(self).opened_set().contains(identifier@));
            assert(self.opened_set() =~= old(self).opened_set().remove(identifier@));
        }
        false
    }

    /// Collapse `identifier` if expanded, else expand it (the empty path
    /// stays refused by both halves).
    pub fn toggle(&mut self, identifier: &Vec<usize>)
        requires
            old(self).inv(),
        ensures
            final(self).inv(),
            final(self).spec_selected() == old(self).spec_selected(),
            final(self).spec_offset() == old(self).spec_offset(),
            old(self).opened_set().contains(identifier@) ==> final(self).opened_set() == old(self).opened_set().remove(identifier@),
            !old(self).opened_set().contains(identifier@) && identifier@.len() > 0 ==> final(self).opened_set() == old(self).opened_set().insert(identifier@),
            !old(self).opened_set().contains(identifier@) && identifier@.len() == 0 ==> final(self).opened_set() == old(self).opened_set(),
    {
        if !self.close(identifier) {
            self.open(identifier);
        } else {
            proof {
                assert(final(self).opened_set() =~= old(self).opened_set().remove(identifier@));
            }
        }
    }

    /// Toggle the selected path.
    pub fn toggle_selected(&mut self)
        requires
            old(self).inv(),
        ensures
            final(self).inv(),
            final(self).spec_selected() == old(self).spec_selected(),
            final(self).spec_offset() == old(self).spec_offset(),
            old(self).opened_set().contains(old(self).spec_selected()) ==> final(self).opened_set() == old(self).opened_set().remove(old(self).spec_selected()),
            !old(self).opened_set().contains(old(self).spec_selected()) && old(self).spec_selected().len() > 0 ==> final(self).opened_set() == old(self).opened_set().insert(old(self).spec_selected()),
            !old(self).opened_set().contains(old(self).spec_selected()) && old(self).spec_selected().len() == 0 ==> final(self).opened_set() == old(self).opened_set(),
    {
        let selected = self.selected.clone();
        proof {
            assert(selected@ =~= old(self).spec_selected());
        }
        self.toggle(&selected);
    }

    /// Collapse everything.
    pub fn close_all(&mut self)
        ensures
            final(self).inv(),
            final(self).spec_selected() == old(self).spec_selected(),
            final(self).spec_offset() == old(self).spec_offset(),
            final(self).opened_set() == Set::<Seq<usize>>::empty(),
    {
        self.opened.clear();
        proof {
            assert(self.opened_set() =~= Set::<Seq<usize>>::empty());
        }
    }
}

/// `q` is where descending "last child while expanded" from `base` lands:
/// `q` extends `base`, every step takes the last child of an expanded node
/// with children, and `q` itself cannot be descended further.
pub open spec fn last_descendant_from<T: TreeView>(
    tree: &T,
    opened: Set<Seq<usize>>,
    base: Seq<usize>,
    q: Seq<usize>,
) -> bool {
    &&& base.is_prefix_of(q)
    &&& (forall|i: int|
        base.len() <= i < q.len() ==> {
            let r = #[trigger] q.take(i);
            &&& (r.len() == 0 || opened.contains(r))
            &&& tree.spec_num_children(r) > 0
            &&& (q[i] as nat) + 1 == tree.spec_num_children(r)
        })
    &&& !((q.len() == 0 || opened.contains(q)) && tree.spec_num_children(q) > 0)
}

/// The deepest level `j <= len` at which the selection `p` has a next
/// sibling (0 when none has one): the largest `j` with
/// `p[j-1] + 1 < num_children(p[..j-1])`.
pub open spec fn sib_anchor<T: TreeView>(tree: &T, p: Seq<usize>, j: int) -> int
    decreases j,
{
    if j <= 0 {
        0
    } else if (p[j - 1] as nat) + 1 < tree.spec_num_children(p.take(j - 1)) {
        j
    } else {
        sib_anchor(tree, p, j - 1)
    }
}

/// Where moving down from selection `p` lands: no selection selects the
/// first entry (if any); an expanded entry with children yields its first
/// child; otherwise the next sibling of the deepest ancestor that has one;
/// and when none has one, the selection stays.
pub open spec fn next_selection<T: TreeView>(
    tree: &T,
    opened: Set<Seq<usize>>,
    p: Seq<usize>,
) -> Seq<usize> {
    if p.len() == 0 {
        if tree.spec_num_children(Seq::empty()) > 0 {
            seq![0usize]
        } else {
            Seq::empty()
        }
    } else if opened.contains(p) && tree.spec_num_children(p) > 0 {
        p.push(0usize)
    } else {
        let a = sib_anchor(tree, p, p.len() as int);
        if a == 0 {
            p
        } else {
            p.take(a - 1).push((p[a - 1] + 1) as usize)
        }
    }
}

/// Copy the first `n` elements of `s` into a fresh vector.
pub(crate) fn vec_prefix(s: &Vec<usize>, n: usize) -> (r: Vec<usize>)
    requires
        n <= s@.len(),
    ensures
        r@ == s@.take(n as int),
{
    let mut r: Vec<usize> = Vec::new();
    let mut j: usize = 0;
    while j < n
        invariant
            j <= n <= s@.len(),
            r@ == s@.take(j as int),
        decreases n - j,
    {
        r.push(s[j]);
        assert(s@.take(j + 1) =~= s@.take(j as int).push(s@[j as int]));
        j = j + 1;
    }
    r
}

impl TreeState {
    /// Select the first top-level entry, or nothing when the tree is empty.
    pub fn select_first<T: TreeView>(&mut self, tree: &T)
        ensures
            final(self).opened_set() == old(self).opened_set(),
            final(self).spec_offset() == old(self).spec_offset(),
            old(self).inv() ==> final(self).inv(),
            final(self).spec_selected() == (if tree.spec_num_children(Seq::<usize>::empty()) > 0 {
                seq![0usize]
            } else {
                Seq::<usize>::empty()
            }),
    {
        let root: Vec<usize> = Vec::new();
        let mut sel: Vec<usize> = Vec::new();
        if tree.num_children(&root) > 0 {
            sel.push(0);
            assert(sel@ =~= seq![0usize]);
        } else {
            assert(sel@ =~= Seq::<usize>::empty());
        }
        self.selected = sel;
    }

    /// Select the last visible entry: descend into the last child while the
    /// current entry is expanded and has children.
    pub fn select_last<T: TreeView>(&mut self, tree: &T)
        requires
            old(self).inv(),
        ensures
            final(self).inv(),
            final(self).opened_set() == old(self).opened_set(),
            final(self).spec_offset() == old(self).spec_offset(),
            last_descendant_from(
                tree,
                old(self).opened_set(),
                Seq::<usize>::empty(),
                final(self).spec_selected(),
            ),
    {
        let mut index: Vec<usize> = Vec::new();
        self.descend_last(tree, &mut index);
        self.selected = index;
    }

    /// Extend `index` by last children while it is expanded and has any.
    fn descend_last<T: TreeView>(&self, tree: &T, index: &mut Vec<usize>)
        requires
            self.inv(),
        ensures
            last_descendant_from(tree, self.opened_set(), old(index)@, final(index)@),
    {
        let ghost base = old(index)@;
        while self.is_open(index) && tree.num_children(index) > 0
            invariant
                self.inv(),
                base.is_prefix_of(index@),
                forall|i: int|
                    base.len() <= i < index@.len() ==> {
                        let r = #[trigger] index@.take(i);
                        &&& (r.len() == 0 || self.opened_set().contains(r))
                        &&& tree.spec_num_children(r) > 0
                        &&& (index@[i] as nat) + 1 == tree.spec_num_children(r)
                    },
            decreases tree.spec_depth_limit() - index@.len(),
        {
            proof {
                tree.depth_limit_is_bound(index@);
            }
            let nc = tree.num_children(index);
            assert(nc > 0);
            let ghost before = index@;
            index.push(nc - 1);
            proof {
                assert(before =~= index@.take(before.len() as int));
                assert forall|i: int|
                    base.len() <= i < index@.len() implies {
                        let r = #[trigger] index@.take(i);
                        &&& (r.len() == 0 || self.opened_set().contains(r))
                        &&& tree.spec_num_children(r) > 0
                        &&& (index@[i] as nat) + 1 == tree.spec_num_children(r)
                    } by {
                    assert(index@.take(i) =~= before.take(i));
                    if i < before.len() {
                        assert(index@[i] == before[i]);
                    }
                }
            }
        }
    }

    /// Move the selection up: from a first child to its parent, otherwise
    /// to the deepest visible entry of the previous sibling's subtree.
    pub fn key_up<T: TreeView>(&mut self, tree: &T)
        requires
            old(self).inv(),
        ensures
            final(self).inv(),
            final(self).opened_set() == old(self).opened_set(),
            final(self).spec_offset() == old(self).spec_offset(),
            ({
                let p = old(self).spec_selected();
                if p.len() == 0 {
                    final(self).spec_selected() == p
                } else if p.last() == 0 {
                    final(self).spec_selected() == p.drop_last()
                } else {
                    last_descendant_from(
                        tree,
                        old(self).opened_set(),
                        p.update(p.len() - 1, (p.last() - 1) as usize),
                        final(self).spec_selected(),
                    )
                }
            }),
    {
        if self.selected.len() == 0 {
            return;
        }
        let last_at = self.selected.len() - 1;
        let last = self.selected[last_at];
        if last == 0 {
            self.selected.pop();
            return;
        }
        let mut index = vec_prefix(&self.selected, last_at);
        index.push(last - 1);
        proof {
            assert(index@ =~= old(self).spec_selected().update(
                old(self).spec_selected().len() - 1,
                (last - 1) as usize,
            ));
        }
        self.descend_last(tree, &mut index);
        self.selected = index;
    }

    /// Move the selection down; see [`next_selection`].
    pub fn key_down<T: TreeView>(&mut self, tree: &T)
        requires
            old(self).inv(),
        ensures
            final(self).inv(),
            final(self).opened_set() == old(self).opened_set(),
            final(self).spec_offset() == old(self).spec_offset(),
            final(self).spec_selected() == next_selection(
                tree,
                old(self).opened_set(),
                old(self).spec_selected(),
            ),
    {
        let ghost p = old(self).spec_selected();
        if self.selected.len() == 0 {
            self.select_first(tree);
            return;
        }
        let open = list_contains_path(&self.opened, &self.selected);
        let nc = tree.num_children(&self.selected);
        if open && nc > 0 {
            self.selected.push(0);
            return;
        }
        let mut j: usize = self.selected.len();
        while j >= 1
            invariant
                old(self).inv(),
                j <= p.len(),
                self.opened@ == old(self).opened@,
                self.selected@ == old(self).selected@,
                self.offset == old(self).offset,
                p == old(self).spec_selected(),
                p.len() > 0,
                !(old(self).opened_set().contains(p) && tree.spec_num_children(p) > 0),
                sib_anchor(tree, p, p.len() as int) == sib_anchor(tree, p, j as int),
            decreases j,
        {
            let father = vec_prefix(&self.selected, j - 1);
            let last = self.selected[j - 1];
            let ncf = tree.num_children(&father);
            if ncf > 0 && last < ncf - 1 {
                assert(sib_anchor(tree, p, j as int) == j);
                let mut ns = father;
                ns.push(last + 1);
                proof {
                    assert(ns@ =~= p.take(j - 1).push((p[j - 1] + 1) as usize));
                }
                self.selected = ns;
                return;
            }
            assert(sib_anchor(tree, p, j as int) == sib_anchor(tree, p, j - 1));
            j = j - 1;
        }
        assert(sib_anchor(tree, p, p.len() as int) == 0);
    }

    /// Move the selection left: collapse the selected entry if expanded;
    /// otherwise move to its parent — unless that would empty the
    /// selection, which is refused.
    pub fn key_left(&mut self)
        requires
            old(self).inv(),
        ensures
            final(self).inv(),
            final(self).spec_offset() == old(self).spec_offset(),
            ({
                let p = old(self).spec_selected();
                if old(self).opened_set().contains(p) {
                    final(self).opened_set() == old(self).opened_set().remove(p) && final(self).spec_selected() == p
                } else if p.len() >= 2 {
                    final(self).opened_set() == old(self).opened_set() && final(self).spec_selected() == p.drop_last()
                } else {
                    final(self).opened_set() == old(self).opened_set() && final(self).spec_selected() == p
                }
            }),
    {
        let selected = self.selected.clone();
        proof {
            assert(selected@ =~= old(self).spec_selected());
        }
        if !self.close(&selected) {
            proof {
                assert(old(self).opened_set().remove(selected@) =~= old(self).opened_set());
            }
            if self.selected.len() >= 2 {
                self.selected.pop();
            }
        }
    }

    /// Move the selection right: expand the selected entry; nothing happens
    /// when it has no children or is already expanded.
    pub fn key_right<T: TreeView>(&mut self, tree: &T)
        requires
            old(self).inv(),
        ensures
            final(self).inv(),
            final(self).spec_selected() == old(self).spec_selected(),
            final(self).spec_offset() == old(self).spec_offset(),
            ({
                let p = old(self).spec_selected();
                if p.len() > 0 && tree.spec_num_children(p) > 0 {
                    final(self).opened_set() == old(self).opened_set().insert(p)
                } else {
                    final(self).opened_set() == old(self).opened_set()
                }
            }),
    {
        let nc = tree.num_children(&self.selected);
        if nc > 0 {
            let selected = self.selected.clone();
            proof {
                assert(selected@ =~= old(self).spec_selected());
            }
            self.open(&selected);
        }
    }
}

// ---------------------------------------------------------------------------
// Moving down and moving up are inverses.
// ---------------------------------------------------------------------------

/// Two equal-based last-descendants agree on every common prefix length.
proof fn lemma_ld_take_eq<T: TreeView>(
    tree: &T,
    opened: Set<Seq<usize>>,
    base: Seq<usize>,
    q1: Seq<usize>,
    q2: Seq<usize>,
    i: int,
)
    requires
        last_descendant_from(tree, opened, base, q1),
        last_descendant_from(tree, opened, base, q2),
        base.len() <= i <= q1.len(),
        i <= q2.len(),
    ensures
        q1.take(i) == q2.take(i),
    decreases i,
{
    if i == base.len() {
        assert(q1.take(i) =~= base);
        assert(q2.take(i) =~= base);
    } else {
        lemma_ld_take_eq(tree, opened, base, q1, q2, i - 1);
        assert((q1[i - 1] as nat) + 1 == tree.spec_num_children(q1.take(i - 1)));
        assert((q2[i - 1] as nat) + 1 == tree.spec_num_children(q2.take(i - 1)));
        assert(q1.take(i) =~= q1.take(i - 1).push(q1[i - 1]));
        assert(q2.take(i) =~= q2.take(i - 1).push(q2[i - 1]));
    }
}

/// Descending by last children from a base lands in exactly one place.
pub proof fn lemma_last_descendant_unique<T: TreeView>(
    tree: &T,
    opened: Set<Seq<usize>>,
    base: Seq<usize>,
    q1: Seq<usize>,
    q2: Seq<usize>,
)
    requires
        last_descendant_from(tree, opened, base, q1),
        last_descendant_from(tree, opened, base, q2),
    ensures
        q1 == q2,
{
    if q1.len() <= q2.len() {
        lemma_ld_take_eq(tree, opened, base, q1, q2, q1.len() as int);
        assert(q1.take(q1.len() as int) =~= q1);
        if q1.len() < q2.len() {
            let i = q1.len() as int;
            assert((q2.take(i).len() == 0 || opened.contains(q2.take(i)))
                && tree.spec_num_children(q2.take(i)) > 0);
            assert(false);
        }
        assert(q1 =~= q2.take(q2.len() as int));
        assert(q2.take(q2.len() as int) =~= q2);
    } else {
        lemma_ld_take_eq(tree, opened, base, q2, q1, q2.len() as int);
        assert(q2.take(q2.len() as int) =~= q2);
        let i = q2.len() as int;
        assert((q1.take(i).len() == 0 || opened.contains(q1.take(i)))
            && tree.spec_num_children(q1.take(i)) > 0);
        assert(false);
    }
}

/// The sibling anchor lies in `[0, j]`, carries its defining property when
/// positive, and no deeper level than it has a next sibling.
proof fn lemma_sib_anchor_props<T: TreeView>(tree: &T, p: Seq<usize>, j: int)
    requires
        0 <= j,
    ensures
        0 <= sib_anchor(tree, p, j) <= j,
        sib_anchor(tree, p, j) > 0 ==> (p[sib_anchor(tree, p, j) - 1] as nat) + 1
            < tree.spec_num_children(p.take(sib_anchor(tree, p, j) - 1)),
        forall|m: int|
            sib_anchor(tree, p, j) <= m < j ==> !((p[m] as nat) + 1 < tree.spec_num_children(
                #[trigger] p.take(m),
            )),
    decreases j,
{
    if j > 0 && !((p[j - 1] as nat) + 1 < tree.spec_num_children(p.take(j - 1))) {
        lemma_sib_anchor_props(tree, p, j - 1);
    }
}

/// Moving down and moving up are exact inverses: when the selection `p` is
/// valid and visible (every proper ancestor expanded) and moving down
/// changes it to `q`, then any outcome `r` of moving up from `q` — with the
/// same shape and expanded set — is `p` again.
pub proof fn lemma_move_down_up_inverse<T: TreeView>(
    tree: &T,
    opened: Set<Seq<usize>>,
    p: Seq<usize>,
    q: Seq<usize>,
    r: Seq<usize>,
)
    requires
        sel_path_ok(tree, p),
        forall|i: int| 0 <= i < p.len() ==> tree.spec_num_children(#[trigger] p.take(i)) <= usize::MAX,
        forall|i: int| 0 < i < p.len() ==> opened.contains(#[trigger] p.take(i)),
        q == next_selection(tree, opened, p),
        q != p,
        ({
            if q.len() == 0 {
                r == q
            } else if q.last() == 0 {
                r == q.drop_last()
            } else {
                last_descendant_from(
                    tree,
                    opened,
                    q.update(q.len() - 1, (q.last() - 1) as usize),
                    r,
                )
            }
        }),
    ensures
        r == p,
{
    if p.len() == 0 {
        assert(p =~= Seq::<usize>::empty());
        if tree.spec_num_children(Seq::empty()) == 0 {
            assert(q == p);
        }
        assert(q =~= seq![0usize]);
        assert(q.last() == 0);
        assert(r =~= p);
    } else if opened.contains(p) && tree.spec_num_children(p) > 0 {
        assert(q =~= p.push(0usize));
        assert(q.last() == 0);
        assert(r =~= q.drop_last());
        assert(q.drop_last() =~= p);
    } else {
        let a = sib_anchor(tree, p, p.len() as int);
        lemma_sib_anchor_props(tree, p, p.len() as int);
        assert(a != 0);
        assert(q == p.take(a - 1).push((p[a - 1] + 1) as usize));
        assert(q.len() == a);
        assert(tree.spec_num_children(p.take(a - 1)) <= usize::MAX);
        assert((p[a - 1] as nat) + 1 <= usize::MAX);
        assert(q.last() == p[a - 1] + 1);
        let base = q.update(q.len() - 1, (q.last() - 1) as usize);
        assert(base =~= p.take(a));
        // `p` itself is a last-descendant from `p.take(a)`.
        assert forall|i: int|
            base.len() <= i < p.len() implies {
                let t = #[trigger] p.take(i);
                &&& (t.len() == 0 || opened.contains(t))
                &&& tree.spec_num_children(t) > 0
                &&& (p[i] as nat) + 1 == tree.spec_num_children(t)
            } by {
            assert((p[i] as nat) < tree.spec_num_children(p.take(i)));
            assert(!((p[i] as nat) + 1 < tree.spec_num_children(p.take(i))));
        }
        assert(base.is_prefix_of(p)) by {
            assert(p.take(a).is_prefix_of(p));
        }
        assert(last_descendant_from(tree, opened, base, p));
        lemma_last_descendant_unique(tree, opened, base, r, p);
    }
}

} // verus!
