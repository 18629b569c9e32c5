//! Flattening a tree of items into the list of visible rows: a depth-first
//! pre-order walk that descends only into expanded nodes.
use crate::tree_state::{paths_set, TreeIdentifierVec};
use vstd::prelude::*;

verus! {

/// One item of a renderable tree: a label, the number of screen rows the
/// label occupies, and the child items.
#[derive(Debug)]
pub struct TreeItem {
    pub label: String,
    pub height: usize,
    pub children: Vec<TreeItem>,
}

/// Model of one visible row: the path that reaches it, its label, its
/// height in row units, and how many children it has.
pub struct RowModel {
    pub id: Seq<usize>,
    pub label: Seq<char>,
    pub height: nat,
    pub child_count: nat,
}

/// One visible row: the path of the item, its label, its height, and its
/// child count (for the leaf / open / closed distinction).
#[derive(Debug)]
pub struct Flattened {
    pub identifier: TreeIdentifierVec,
    pub label: String,
    pub height: usize,
    pub child_count: usize,
}

impl View for Flattened {
    type V = RowModel;

    open spec fn view(&self) -> RowModel {
        RowModel {
            id: self.identifier@,
            label: self.label@,
            height: self.height as nat,
            child_count: self.child_count as nat,
        }
    }
}

impl Flattened {
    /// Depth of the row: zero for a top-level entry.
    #[must_use]
    pub fn depth(&self) -> (r: usize)
        requires
            self.identifier@.len() > 0,
        ensures
            r as nat == self.identifier@.len() - 1,
    {
        self.identifier.len() - 1
    }
}

/// The rows of one item under `path`: the item itself, then — only when
/// `path` is expanded — the rows of its children.
pub open spec fn flatten_item(item: TreeItem, opened: Set<Seq<usize>>, path: Seq<usize>) -> Seq<
    RowModel,
>
    decreases item,
{
    seq![
        RowModel {
            id: path,
            label: item.label@,
            height: item.height as nat,
            child_count: item.children@.len(),
        },
    ] + if opened.contains(path) {
        flatten_items(item.children@, opened, path, 0)
    } else {
        Seq::empty()
    }
}

/// The rows of the items `items[i..]`, each under `prefix` extended by its
/// index.
pub open spec fn flatten_items(
    items: Seq<TreeItem>,
    opened: Set<Seq<usize>>,
    prefix: Seq<usize>,
    i: int,
) -> Seq<RowModel>
    decreases items, items.len() - i,
{
    if i < 0 || i >= items.len() {
        Seq::empty()
    } else {
        flatten_item(items[i], opened, prefix.push(i as usize)) + flatten_items(
            items,
            opened,
            prefix,
            i + 1,
        )
    }
}

/// The models of a list of rows, element by element.
pub open spec fn rows_model(s: Seq<Flattened>) -> Seq<RowModel> {
    Seq::new(s.len(), |i: int| s[i]@)
}

impl TreeItem {
    /// A childless item of height one.
    #[must_use]
    pub fn new_leaf(text: String) -> (r: Self)
        ensures
            r.label@ == text@,
            r.height == 1,
            r.children@ == Seq::<TreeItem>::empty(),
    {
        TreeItem { label: text, height: 1, children: Vec::new() }
    }

    /// An item of height one with the given children.
    #[must_use]
    pub fn new(text: String, children: Vec<TreeItem>) -> (r: Self)
        ensures
            r.label@ == text@,
            r.height == 1,
            r.children@ == children@,
    {
        TreeItem { label: text, height: 1, children }
    }

    /// The child items.
    #[must_use]
    pub fn children(&self) -> (r: &Vec<TreeItem>)
        ensures
            r@ == self.children@,
    {
        &self.children
    }

    /// The child at `index`, if any.
    #[must_use]
    pub fn child(&self, index: usize) -> (r: Option<&TreeItem>)
        ensures
            match r {
                Some(c) => index < self.children@.len() && *c == self.children@[index as int],
                None => index >= self.children@.len(),
            },
    {
        if index < self.children.len() {
            Some(&self.children[index])
        } else {
            None
        }
    }

    /// The number of screen rows the item occupies.
    #[must_use]
    pub fn height(&self) -> (r: usize)
        ensures
            r == self.height,
    {
        self.height
    }

    /// Append one more child.
    pub fn add_child(&mut self, child: TreeItem)
        ensures
            final(self).label@ == old(self).label@,
            final(self).height == old(self).height,
            final(self).children@ == old(self).children@.push(child),
    {
        self.children.push(child);
    }
}

/// Number of newline characters in a label.
pub open spec fn newline_count(s: Seq<char>) -> nat
    decreases s.len(),
{
    if s.len() == 0 {
        0
    } else if s.last() == '\n' {
        newline_count(s.drop_last()) + 1
    } else {
        newline_count(s.drop_last())
    }
}

/// Number of screen rows a label occupies: one more than its newlines,
/// capped at the machine's limit.
pub open spec fn label_height(s: Seq<char>) -> nat {
    if newline_count(s) + 1 <= usize::MAX {
        newline_count(s) + 1
    } else {
        usize::MAX as nat
    }
}

/// Whether a tree item mirrors an outline entry: same label, the height
/// the label occupies, and children that mirror the entry's children.
pub open spec fn item_matches_entry(item: TreeItem, e: crate::nav::EntryModel) -> bool
    decreases item,
{
    &&& item.label@ == e.label
    &&& item.height as nat == label_height(e.label)
    &&& items_match_entries(item.children@, e.children, 0)
}

/// Whether the items from `i` on mirror the entries from `i` on, with the
/// two lists of equal length.
pub open spec fn items_match_entries(
    items: Seq<TreeItem>,
    es: Seq<crate::nav::EntryModel>,
    i: int,
) -> bool
    decreases items, items.len() - i,
{
    if items.len() != es.len() {
        false
    } else if i < 0 || i >= items.len() {
        true
    } else {
        item_matches_entry(items[i], es[i]) && items_match_entries(items, es, i + 1)
    }
}

/// Pointwise mirroring of equal-length lists gives the whole relation.
proof fn lemma_items_match_pointwise(
    items: Seq<TreeItem>,
    es: Seq<crate::nav::EntryModel>,
    i: int,
)
    requires
        items.len() == es.len(),
        0 <= i <= items.len(),
        forall|m: int| i <= m < items.len() ==> item_matches_entry(#[trigger] items[m], es[m]),
    ensures
        items_match_entries(items, es, i),
    decreases items.len() - i,
{
    if i < items.len() {
        lemma_items_match_pointwise(items, es, i + 1);
    }
}

/// The number of screen rows the label `s` occupies.
fn count_label_height(s: &String) -> (r: usize)
    ensures
        r as nat == label_height(s@),
{
    let slice = s.as_str();
    let len = slice.unicode_len();
    let mut count: usize = 0;
    let mut i: usize = 0;
    while i < len
        invariant
            i <= len,
            len == slice@.len(),
            slice@ == s@,
            count <= i,
            count as nat == newline_count(s@.take(i as int)),
        decreases len - i,
    {
        let c = slice.get_char(i);
        proof {
            assert(s@.take(i + 1).drop_last() =~= s@.take(i as int));
            assert(s@.take(i + 1).last() == s@[i as int]);
        }
        if c == '\n' {
            count = count + 1;
        }
        i = i + 1;
    }
    assert(s@.take(len as int) =~= s@);
    if count < usize::MAX {
        count + 1
    } else {
        count
    }
}

impl crate::nav::NavNode {
    /// The renderable item mirroring this entry: its label (occupying one
    /// row per line) and its children, recursively.
    pub fn to_tree_item(&self) -> (r: TreeItem)
        ensures
            item_matches_entry(r, crate::nav::node_model(*self)),
        decreases *self,
    {
        proof {
            crate::nav::lemma_forest_model(self.children@);
        }
        let mut children: Vec<TreeItem> = Vec::new();
        let mut i: usize = 0;
        while i < self.children.len()
            invariant
                i <= self.children@.len(),
                children@.len() == i,
                forall|m: int|
                    0 <= m < self.children@.len() ==> crate::nav::forest_model(self.children@)[m]
                        == crate::nav::node_model(#[trigger] self.children@[m]),
                forall|m: int|
                    0 <= m < i ==> item_matches_entry(
                        #[trigger] children@[m],
                        crate::nav::node_model(self.children@[m]),
                    ),
            decreases self.children@.len() - i,
        {
            let child = self.children[i].to_tree_item();
            children.push(child);
            i = i + 1;
        }
        let height = count_label_height(&self.string);
        let r = TreeItem { label: self.string.clone(), height, children };
        proof {
            lemma_items_match_pointwise(
                r.children@,
                crate::nav::node_model(*self).children,
                0,
            );
        }
        r
    }
}

impl crate::nav::Nav {
    /// The renderable items mirroring the whole outline, one per top-level
    /// entry.
    pub fn to_tree_items(&self) -> (r: Vec<TreeItem>)
        ensures
            items_match_entries(r@, self@, 0),
    {
        proof {
            crate::nav::lemma_forest_model(self.nodes@);
        }
        let mut items: Vec<TreeItem> = Vec::new();
        let mut i: usize = 0;
        while i < self.nodes.len()
            invariant
                i <= self.nodes@.len(),
                items@.len() == i,
                forall|m: int|
                    0 <= m < self.nodes@.len() ==> crate::nav::forest_model(self.nodes@)[m]
                        == crate::nav::node_model(#[trigger] self.nodes@[m]),
                forall|m: int|
                    0 <= m < i ==> item_matches_entry(
                        #[trigger] items@[m],
                        crate::nav::node_model(self.nodes@[m]),
                    ),
            decreases self.nodes@.len() - i,
        {
            let item = self.nodes[i].to_tree_item();
            items.push(item);
            i = i + 1;
        }
        proof {
            lemma_items_match_pointwise(items@, self@, 0);
        }
        items
    }
}

/// Append the rows of `items[i..]` under `prefix` to `out`.
fn flatten_into(
    opened: &Vec<TreeIdentifierVec>,
    items: &Vec<TreeItem>,
    prefix: &Vec<usize>,
    out: &mut Vec<Flattened>,
)
    ensures
        rows_model(final(out)@) == rows_model(old(out)@) + flatten_items(
            items@,
            paths_set(opened@),
            prefix@,
            0,
        ),
    decreases items@,
{
    let ghost oset = paths_set(opened@);
    let mut i: usize = 0;
    while i < items.len()
        invariant
            i <= items@.len(),
            oset == paths_set(opened@),
            rows_model(old(out)@) + flatten_items(items@, oset, prefix@, 0) == rows_model(out@)
                + flatten_items(items@, oset, prefix@, i as int),
        decreases items@.len() - i,
    {
        let item = &items[i];
        let mut child_id = prefix.clone();
        child_id.push(i);
        proof {
            assert(child_id@ =~= prefix@.push(i));
        }
        let ghost before = out@;
        let open_here = crate::tree_state::list_contains_path(opened, &child_id);
        let row = Flattened {
            identifier: child_id.clone(),
            label: item.label.clone(),
            height: item.height,
            child_count: item.children.len(),
        };
        let ghost row_m = row@;
        out.push(row);
        proof {
            assert(rows_model(out@) =~= rows_model(before).push(row_m));
        }
        if open_here {
            flatten_into(opened, &item.children, &child_id, out);
            proof {
                assert(flatten_item(items@[i as int], oset, prefix@.push(i as usize)) =~= seq![
                    row_m,
                ] + flatten_items(items@[i as int].children@, oset, prefix@.push(i as usize), 0));
                assert(rows_model(out@) =~= rows_model(before) + flatten_item(
                    items@[i as int],
                    oset,
                    prefix@.push(i as usize),
                ));
                assert(rows_model(before) + flatten_item(
                    items@[i as int],
                    oset,
                    prefix@.push(i as usize),
                ) + flatten_items(items@, oset, prefix@, i + 1) =~= rows_model(before) + (
                flatten_item(items@[i as int], oset, prefix@.push(i as usize)) + flatten_items(
                    items@,
                    oset,
                    prefix@,
                    i + 1,
                )));
            }
        } else {
            proof {
                assert(flatten_item(items@[i as int], oset, prefix@.push(i as usize)) =~= seq![
                    row_m,
                ]);
                assert(rows_model(out@) =~= rows_model(before) + flatten_item(
                    items@[i as int],
                    oset,
                    prefix@.push(i as usize),
                ));
                assert(rows_model(before) + flatten_item(
                    items@[i as int],
                    oset,
                    prefix@.push(i as usize),
                ) + flatten_items(items@, oset, prefix@, i + 1) =~= rows_model(before) + (
                flatten_item(items@[i as int], oset, prefix@.push(i as usize)) + flatten_items(
                    items@,
                    oset,
                    prefix@,
                    i + 1,
                )));
            }
        }
        i = i + 1;
    }
    proof {
        assert(flatten_items(items@, oset, prefix@, items@.len() as int) =~= Seq::<
            RowModel,
        >::empty());
        assert(rows_model(out@) + Seq::<RowModel>::empty() =~= rows_model(out@));
        assert(rows_model(old(out)@) + flatten_items(items@, oset, prefix@, 0) =~= rows_model(
            out@,
        ));
    }
}

/// The flat list of visible rows: every item whose ancestors are all in
/// `opened`, in depth-first pre-order.
#[must_use]
pub fn flatten(opened: &Vec<TreeIdentifierVec>, items: &Vec<TreeItem>) -> (r: Vec<Flattened>)
    ensures
        rows_model(r@) == flatten_items(items@, paths_set(opened@), Seq::<usize>::empty(), 0),
{
    let prefix: Vec<usize> = Vec::new();
    let mut out: Vec<Flattened> = Vec::new();
    proof {
        assert(rows_model(Seq::<Flattened>::empty()) =~= Seq::<RowModel>::empty());
    }
    flatten_into(opened, items, &prefix, &mut out);
    proof {
        assert(Seq::<RowModel>::empty() + flatten_items(
            items@,
            paths_set(opened@),
            Seq::<usize>::empty(),
            0,
        ) =~= flatten_items(items@, paths_set(opened@), Seq::<usize>::empty(), 0));
    }
    out
}

} // verus!
