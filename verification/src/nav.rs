//! The outline tree: entries with a label, a link target and ordered
//! children, addressed by paths of zero-based child indices.
//!
//! Every mutating operation resolves its path against the current shape and
//! fails with [`InvalidPath`] when an index is out of bounds (or a parent is
//! required but the path is empty); on failure the tree is unchanged.
use crate::text::{
    all_digits, chars_to_string, dec_rep, digits_val, is_digit, parse_u32_digits, push_dec,
    str_chars, trim_bounds, trimmed,
};
use vstd::prelude::*;

verus! {

/// Target of one outline entry: either a page position or a named target
/// inside the document.
#[derive(Debug, PartialEq, Eq, Clone)]
pub enum BookmarkLink {
    PageNumber(u32),
    PageLink(String),
}

/// One outline entry: a label, a link target, and ordered children.
#[derive(Debug, PartialEq)]
pub struct NavNode {
    pub string: String,
    pub link: BookmarkLink,
    pub children: Vec<NavNode>,
}

/// The whole outline: a forest of entries under an implicit root.
#[derive(Debug, PartialEq)]
pub struct Nav {
    pub nodes: Vec<NavNode>,
}

/// Path resolution failure: some index was out of bounds for the current
/// shape, or the operation needed a parent but the path was empty.
#[derive(Debug, PartialEq, Eq, Structural, Clone, Copy)]
pub struct InvalidPath;

// ---------------------------------------------------------------------------
// Mathematical model: entries with sequences in place of vectors and strings.
// ---------------------------------------------------------------------------

/// Model of a [`BookmarkLink`].
pub enum LinkModel {
    Page(u32),
    Name(Seq<char>),
}

/// Model of a [`NavNode`]: the label as a character sequence and the
/// children as a sequence of models.
pub struct EntryModel {
    pub label: Seq<char>,
    pub link: LinkModel,
    pub children: Seq<EntryModel>,
}

impl View for BookmarkLink {
    type V = LinkModel;

    open spec fn view(&self) -> LinkModel {
        match self {
            BookmarkLink::PageNumber(n) => LinkModel::Page(*n),
            BookmarkLink::PageLink(s) => LinkModel::Name(s@),
        }
    }
}

/// Model of a single node.
pub open spec fn node_model(n: NavNode) -> EntryModel
    decreases n,
{
    EntryModel { label: n.string@, link: n.link@, children: forest_model(n.children@) }
}

/// Model of a forest of nodes, element by element.
pub open spec fn forest_model(s: Seq<NavNode>) -> Seq<EntryModel>
    decreases s,
{
    if s.len() == 0 {
        Seq::empty()
    } else {
        seq![node_model(s[0])] + forest_model(s.drop_first())
    }
}

impl View for NavNode {
    type V = EntryModel;

    open spec fn view(&self) -> EntryModel {
        node_model(*self)
    }
}

impl View for Nav {
    type V = Seq<EntryModel>;

    open spec fn view(&self) -> Seq<EntryModel> {
        forest_model(self.nodes@)
    }
}

/// The model of a forest keeps its length and maps each node to its model.
pub broadcast proof fn lemma_forest_model(s: Seq<NavNode>)
    ensures
        #[trigger] forest_model(s).len() == s.len(),
        forall|i: int| 0 <= i < s.len() ==> forest_model(s)[i] == node_model(s[i]),
    decreases s.len(),
{
    if s.len() > 0 {
        lemma_forest_model(s.drop_first());
        assert forall|i: int| 0 <= i < s.len() implies forest_model(s)[i] == node_model(s[i]) by {
            if i > 0 {
                assert(s.drop_first()[i - 1] == s[i]);
            }
        }
    }
}

/// Updating one node of a forest updates the same slot of its model.
pub proof fn lemma_forest_model_update(s: Seq<NavNode>, i: int, n: NavNode)
    requires
        0 <= i < s.len(),
    ensures
        forest_model(s.update(i, n)) == forest_model(s).update(i, node_model(n)),
{
    broadcast use lemma_forest_model;

    assert(forest_model(s.update(i, n)) =~= forest_model(s).update(i, node_model(n)));
}

/// Appending a node to a forest appends its model to the model forest.
pub proof fn lemma_forest_model_push(s: Seq<NavNode>, n: NavNode)
    ensures
        forest_model(s.push(n)) == forest_model(s).push(node_model(n)),
{
    broadcast use lemma_forest_model;

    assert(forest_model(s.push(n)) =~= forest_model(s).push(node_model(n)));
}

// ---------------------------------------------------------------------------
// Shape queries over the model.
// ---------------------------------------------------------------------------

/// Number of children at `path` (the number of top-level entries when `path`
/// is empty); 0 when the path does not resolve.
pub open spec fn child_count_at(forest: Seq<EntryModel>, path: Seq<usize>) -> nat
    decreases path.len(),
{
    if path.len() == 0 {
        forest.len()
    } else if (path[0] as int) < forest.len() {
        child_count_at(forest[path[0] as int].children, path.drop_first())
    } else {
        0
    }
}

/// Whether `path` resolves against the forest (the empty path always does:
/// it denotes the implicit root).
pub open spec fn path_ok(forest: Seq<EntryModel>, path: Seq<usize>) -> bool
    decreases path.len(),
{
    path.len() == 0 || ((path[0] as int) < forest.len() && path_ok(
        forest[path[0] as int].children,
        path.drop_first(),
    ))
}

/// The entry a nonempty, resolving path denotes.
pub open spec fn entry_at(forest: Seq<EntryModel>, path: Seq<usize>) -> EntryModel
    recommends
        path.len() > 0,
        path_ok(forest, path),
    decreases path.len(),
{
    if path.len() <= 1 {
        forest[path[0] as int]
    } else {
        entry_at(forest[path[0] as int].children, path.drop_first())
    }
}

/// A fresh default entry: empty label, page 0, no children.
pub open spec fn empty_entry() -> EntryModel {
    EntryModel { label: Seq::empty(), link: LinkModel::Page(0u32), children: Seq::empty() }
}

// ---------------------------------------------------------------------------
// Structural edits over the model.
// ---------------------------------------------------------------------------

/// The forest with a fresh entry inserted as the first child of the entry at
/// `path` (as the first top-level entry when `path` is empty).
pub open spec fn with_first_child(forest: Seq<EntryModel>, path: Seq<usize>) -> Seq<EntryModel>
    recommends
        path_ok(forest, path),
    decreases path.len(),
{
    if path.len() == 0 {
        seq![empty_entry()] + forest
    } else {
        let i = path[0] as int;
        forest.update(
            i,
            EntryModel { children: with_first_child(forest[i].children, path.drop_first()), ..forest[i] },
        )
    }
}

/// The forest with a fresh entry inserted immediately after the entry at
/// `path`, at the same depth. Meaningful only for nonempty resolving paths.
pub open spec fn with_sibling_below(forest: Seq<EntryModel>, path: Seq<usize>) -> Seq<EntryModel>
    recommends
        path.len() > 0,
        path_ok(forest, path),
    decreases path.len(),
{
    let i = path[0] as int;
    if path.len() <= 1 {
        forest.insert(i + 1, empty_entry())
    } else {
        forest.update(
            i,
            EntryModel {
                children: with_sibling_below(forest[i].children, path.drop_first()),
                ..forest[i]
            },
        )
    }
}

/// The forest with the entry at `path` (and its whole subtree) removed.
/// Meaningful only for nonempty resolving paths.
pub open spec fn without_entry(forest: Seq<EntryModel>, path: Seq<usize>) -> Seq<EntryModel>
    recommends
        path.len() > 0,
        path_ok(forest, path),
    decreases path.len(),
{
    let i = path[0] as int;
    if path.len() <= 1 {
        forest.remove(i)
    } else {
        forest.update(
            i,
            EntryModel { children: without_entry(forest[i].children, path.drop_first()), ..forest[i] },
        )
    }
}

/// The forest with the entry at `path` carrying a new label.
pub open spec fn with_label(forest: Seq<EntryModel>, path: Seq<usize>, label: Seq<char>) -> Seq<
    EntryModel,
>
    recommends
        path.len() > 0,
        path_ok(forest, path),
    decreases path.len(),
{
    let i = path[0] as int;
    if path.len() <= 1 {
        forest.update(i, EntryModel { label, ..forest[i] })
    } else {
        forest.update(
            i,
            EntryModel { children: with_label(forest[i].children, path.drop_first(), label), ..forest[i] },
        )
    }
}

/// The forest with the entry at `path` carrying a new link target.
pub open spec fn with_link(forest: Seq<EntryModel>, path: Seq<usize>, link: LinkModel) -> Seq<
    EntryModel,
>
    recommends
        path.len() > 0,
        path_ok(forest, path),
    decreases path.len(),
{
    let i = path[0] as int;
    if path.len() <= 1 {
        forest.update(i, EntryModel { link, ..forest[i] })
    } else {
        forest.update(
            i,
            EntryModel { children: with_link(forest[i].children, path.drop_first(), link), ..forest[i] },
        )
    }
}

// ---------------------------------------------------------------------------
// The exchange text an outline prints to.
// ---------------------------------------------------------------------------

/// How one character is written inside a quoted label: only `"` gains a
/// backslash, everything else is written as it is.
pub open spec fn esc_char(c: char) -> Seq<char> {
    if c == '"' {
        seq!['\\', '"']
    } else {
        seq![c]
    }
}

/// A label as written inside its quotes.
pub open spec fn escaped(s: Seq<char>) -> Seq<char>
    decreases s.len(),
{
    if s.len() == 0 {
        Seq::empty()
    } else {
        escaped(s.drop_last()) + esc_char(s.last())
    }
}

/// `n` space characters.
pub open spec fn spaces(n: nat) -> Seq<char>
    decreases n,
{
    if n == 0 {
        Seq::empty()
    } else {
        spaces((n - 1) as nat).push(' ')
    }
}

/// A run of `n` spaces has length `n`.
pub proof fn lemma_spaces_len(n: nat)
    ensures
        spaces(n).len() == n,
    decreases n,
{
    if n > 0 {
        lemma_spaces_len((n - 1) as nat);
    }
}

/// The text of a link target after its `#`: the decimal page number, or the
/// target name as it is.
pub open spec fn link_model_text(l: LinkModel) -> Seq<char> {
    match l {
        LinkModel::Page(n) => dec_rep(n as nat),
        LinkModel::Name(s) => s,
    }
}

/// The opening word of the exchange text.
pub open spec fn header_text() -> Seq<char> {
    seq!['(', 'b', 'o', 'o', 'k', 'm', 'a', 'r', 'k', 's']
}

/// One entry at `depth`: indentation, `("label" "#target"`, the children
/// each on their own line one level deeper, and a closing ` )`.
pub open spec fn entry_text(e: EntryModel, depth: nat) -> Seq<char>
    decreases e,
{
    spaces(depth) + seq!['(', '"'] + escaped(e.label) + seq!['"', ' ', '"', '#']
        + link_model_text(e.link) + seq!['"'] + children_text(e.children, depth + 1) + seq![
        ' ',
        ')',
    ]
}

/// A run of sibling entries, each preceded by a newline.
pub open spec fn children_text(cs: Seq<EntryModel>, depth: nat) -> Seq<char>
    decreases cs,
{
    if cs.len() == 0 {
        Seq::empty()
    } else {
        children_text(cs.drop_last(), depth) + seq!['\n'] + entry_text(cs.last(), depth)
    }
}

/// The whole outline: header, the top-level entries at depth one, and the
/// closing ` )` with a final newline.
pub open spec fn outline_text(forest: Seq<EntryModel>) -> Seq<char> {
    header_text() + children_text(forest, 1) + seq![' ', ')', '\n']
}

// ---------------------------------------------------------------------------
// Executable operations.
// ---------------------------------------------------------------------------

impl Default for NavNode {
    /// A fresh entry: empty label, page 0, no children.
    fn default() -> (r: Self)
        ensures
            node_model(r) == empty_entry(),
    {
        let r = NavNode {
            string: String::new(),
            link: BookmarkLink::PageNumber(0),
            children: Vec::new(),
        };
        proof {
            assert(node_model(r) =~= empty_entry());
        }
        r
    }
}

/// Inserting a node in a forest inserts its model in the model forest.
pub proof fn lemma_forest_model_insert(s: Seq<NavNode>, i: int, n: NavNode)
    requires
        0 <= i <= s.len(),
    ensures
        forest_model(s.insert(i, n)) == forest_model(s).insert(i, node_model(n)),
{
    broadcast use lemma_forest_model;

    assert(forest_model(s.insert(i, n)) =~= forest_model(s).insert(i, node_model(n)));
}

/// Removing a node from a forest removes its model from the model forest.
pub proof fn lemma_forest_model_remove(s: Seq<NavNode>, i: int)
    requires
        0 <= i < s.len(),
    ensures
        forest_model(s.remove(i)) == forest_model(s).remove(i),
{
    broadcast use lemma_forest_model;

    assert(forest_model(s.remove(i)) =~= forest_model(s).remove(i));
}

/// Child count of the (sub)forest `nodes` at the path suffix `path[i..]`.
fn forest_child_count(nodes: &Vec<NavNode>, path: &Vec<usize>, i: usize) -> (n: usize)
    requires
        i <= path@.len(),
    ensures
        n as nat == child_count_at(forest_model(nodes@), path@.skip(i as int)),
    decreases path@.len() - i,
{
    broadcast use lemma_forest_model;

    if i == path.len() {
        assert(path@.skip(i as int).len() == 0);
        nodes.len()
    } else {
        let idx = path[i];
        assert(path@.skip(i as int)[0] == path@[i as int]);
        if idx < nodes.len() {
            assert(path@.skip(i as int).drop_first() =~= path@.skip(i as int + 1));
            forest_child_count(&nodes[idx].children, path, i + 1)
        } else {
            0
        }
    }
}

/// Whether the path suffix `path[i..]` resolves in `nodes`.
fn forest_path_ok(nodes: &Vec<NavNode>, path: &Vec<usize>, i: usize) -> (r: bool)
    requires
        i <= path@.len(),
    ensures
        r == path_ok(forest_model(nodes@), path@.skip(i as int)),
    decreases path@.len() - i,
{
    broadcast use lemma_forest_model;

    if i == path.len() {
        assert(path@.skip(i as int).len() == 0);
        true
    } else {
        let idx = path[i];
        assert(path@.skip(i as int)[0] == path@[i as int]);
        if idx < nodes.len() {
            assert(path@.skip(i as int).drop_first() =~= path@.skip(i as int + 1));
            forest_path_ok(&nodes[idx].children, path, i + 1)
        } else {
            false
        }
    }
}

/// Resolve the path suffix `path[i..]` (nonempty) to a node reference.
fn forest_get<'a>(nodes: &'a Vec<NavNode>, path: &Vec<usize>, i: usize) -> (r: Option<
    &'a NavNode,
>)
    requires
        i < path@.len(),
    ensures
        match r {
            Some(n) => path_ok(forest_model(nodes@), path@.skip(i as int)) && node_model(*n)
                == entry_at(forest_model(nodes@), path@.skip(i as int)),
            None => !path_ok(forest_model(nodes@), path@.skip(i as int)),
        },
    decreases path@.len() - i,
{
    proof {
        lemma_forest_model(nodes@);
    }
    let plen = path.len();
    let idx = path[i];
    assert(path@.skip(i as int)[0] == path@[i as int]);
    if idx >= nodes.len() {
        return None;
    }
    assert(path@.skip(i as int).drop_first() =~= path@.skip(i as int + 1));
    if i + 1 == plen {
        assert(path@.skip(i as int + 1).len() == 0);
        assert(path_ok(forest_model(nodes@)[idx as int].children, path@.skip(i as int + 1)));
        Some(&nodes[idx])
    } else {
        forest_get(&nodes[idx].children, path, i + 1)
    }
}

/// Insert a fresh entry as first child at the path suffix `path[i..]`.
fn forest_insert_first(nodes: &mut Vec<NavNode>, path: &Vec<usize>, i: usize) -> (r: bool)
    requires
        i <= path@.len(),
    ensures
        r == path_ok(forest_model(old(nodes)@), path@.skip(i as int)),
        r ==> forest_model(final(nodes)@) == with_first_child(
            forest_model(old(nodes)@),
            path@.skip(i as int),
        ),
        !r ==> forest_model(final(nodes)@) == forest_model(old(nodes)@),
    decreases path@.len() - i,
{
    proof {
        lemma_forest_model(nodes@);
    }
    if i == path.len() {
        assert(path@.skip(i as int).len() == 0);
        let ghost before = nodes@;
        nodes.insert(0, NavNode::default());
        proof {
            lemma_forest_model_insert(before, 0, nodes@[0]);
            assert(forest_model(nodes@) =~= seq![empty_entry()] + forest_model(before));
        }
        true
    } else {
        let idx = path[i];
        assert(path@.skip(i as int)[0] == path@[i as int]);
        if idx >= nodes.len() {
            return false;
        }
        assert(path@.skip(i as int).drop_first() =~= path@.skip(i as int + 1));
        let ghost before = nodes@;
        let child = &mut nodes[idx];
        let ghost child_before = *child;
        let ok = forest_insert_first(&mut child.children, path, i + 1);
        proof {
            lemma_forest_model_update(before, idx as int, *final(child));
            if ok {
                assert(node_model(*final(child)) == EntryModel {
                    children: with_first_child(
                        forest_model(before)[idx as int].children,
                        path@.skip(i as int + 1),
                    ),
                    ..forest_model(before)[idx as int]
                });
            } else {
                assert(node_model(*final(child)) == forest_model(before)[idx as int]);
                assert(forest_model(before).update(idx as int, forest_model(before)[idx as int])
                    =~= forest_model(before));
            }
        }
        ok
    }
}

/// Insert a fresh entry right below the entry at the nonempty path suffix
/// `path[i..]`, at the same depth.
fn forest_insert_below(nodes: &mut Vec<NavNode>, path: &Vec<usize>, i: usize) -> (r: bool)
    requires
        i < path@.len(),
    ensures
        r == path_ok(forest_model(old(nodes)@), path@.skip(i as int)),
        r ==> forest_model(final(nodes)@) == with_sibling_below(
            forest_model(old(nodes)@),
            path@.skip(i as int),
        ),
        !r ==> forest_model(final(nodes)@) == forest_model(old(nodes)@),
    decreases path@.len() - i,
{
    proof {
        lemma_forest_model(nodes@);
    }
    let plen = path.len();
    let idx = path[i];
    assert(path@.skip(i as int)[0] == path@[i as int]);
    if idx >= nodes.len() {
        return false;
    }
    assert(path@.skip(i as int).drop_first() =~= path@.skip(i as int + 1));
    if i + 1 == plen {
        assert(path@.skip(i as int + 1).len() == 0);
        assert(path_ok(forest_model(nodes@)[idx as int].children, path@.skip(i as int + 1)));
        let ghost before = nodes@;
        nodes.insert(idx + 1, NavNode::default());
        proof {
            lemma_forest_model_insert(before, idx as int + 1, nodes@[idx as int + 1]);
        }
        true
    } else {
        let ghost before = nodes@;
        let child = &mut nodes[idx];
        let ghost child_before = *child;
        let ok = forest_insert_below(&mut child.children, path, i + 1);
        proof {
            lemma_forest_model_update(before, idx as int, *final(child));
            if ok {
                assert(node_model(*final(child)) == EntryModel {
                    children: with_sibling_below(
                        forest_model(before)[idx as int].children,
                        path@.skip(i as int + 1),
                    ),
                    ..forest_model(before)[idx as int]
                });
            } else {
                assert(node_model(*final(child)) == forest_model(before)[idx as int]);
                assert(forest_model(before).update(idx as int, forest_model(before)[idx as int])
                    =~= forest_model(before));
            }
        }
        ok
    }
}

/// Remove the entry (and subtree) at the nonempty path suffix `path[i..]`.
fn forest_remove(nodes: &mut Vec<NavNode>, path: &Vec<usize>, i: usize) -> (r: bool)
    requires
        i < path@.len(),
    ensures
        r == path_ok(forest_model(old(nodes)@), path@.skip(i as int)),
        r ==> forest_model(final(nodes)@) == without_entry(
            forest_model(old(nodes)@),
            path@.skip(i as int),
        ),
        !r ==> forest_model(final(nodes)@) == forest_model(old(nodes)@),
    decreases path@.len() - i,
{
    proof {
        lemma_forest_model(nodes@);
    }
    let plen = path.len();
    let idx = path[i];
    assert(path@.skip(i as int)[0] == path@[i as int]);
    if idx >= nodes.len() {
        return false;
    }
    assert(path@.skip(i as int).drop_first() =~= path@.skip(i as int + 1));
    if i + 1 == plen {
        assert(path@.skip(i as int + 1).len() == 0);
        assert(path_ok(forest_model(nodes@)[idx as int].children, path@.skip(i as int + 1)));
        let ghost before = nodes@;
        nodes.remove(idx);
        proof {
            lemma_forest_model_remove(before, idx as int);
        }
        true
    } else {
        let ghost before = nodes@;
        let child = &mut nodes[idx];
        let ghost child_before = *child;
        let ok = forest_remove(&mut child.children, path, i + 1);
        proof {
            lemma_forest_model_update(before, idx as int, *final(child));
            if ok {
                assert(node_model(*final(child)) == EntryModel {
                    children: without_entry(
                        forest_model(before)[idx as int].children,
                        path@.skip(i as int + 1),
                    ),
                    ..forest_model(before)[idx as int]
                });
            } else {
                assert(node_model(*final(child)) == forest_model(before)[idx as int]);
                assert(forest_model(before).update(idx as int, forest_model(before)[idx as int])
                    =~= forest_model(before));
            }
        }
        ok
    }
}

/// Replace the label of the entry at the nonempty path suffix `path[i..]`.
fn forest_set_label(nodes: &mut Vec<NavNode>, path: &Vec<usize>, i: usize, label: String) -> (r:
    bool)
    requires
        i < path@.len(),
    ensures
        r == path_ok(forest_model(old(nodes)@), path@.skip(i as int)),
        r ==> forest_model(final(nodes)@) == with_label(
            forest_model(old(nodes)@),
            path@.skip(i as int),
            label@,
        ),
        !r ==> forest_model(final(nodes)@) == forest_model(old(nodes)@),
    decreases path@.len() - i,
{
    proof {
        lemma_forest_model(nodes@);
    }
    let plen = path.len();
    let idx = path[i];
    assert(path@.skip(i as int)[0] == path@[i as int]);
    if idx >= nodes.len() {
        return false;
    }
    assert(path@.skip(i as int).drop_first() =~= path@.skip(i as int + 1));
    let ghost before = nodes@;
    let child = &mut nodes[idx];
    let ghost child_before = *child;
    if i + 1 == plen {
        assert(path@.skip(i as int + 1).len() == 0);
        assert(path_ok(forest_model(before)[idx as int].children, path@.skip(i as int + 1)));
        child.string = label;
        proof {
            lemma_forest_model_update(before, idx as int, *final(child));
            assert(node_model(*final(child)) == EntryModel {
                label: label@,
                ..forest_model(before)[idx as int]
            });
        }
        true
    } else {
        let ok = forest_set_label(&mut child.children, path, i + 1, label);
        proof {
            lemma_forest_model_update(before, idx as int, *final(child));
            if ok {
                assert(node_model(*final(child)) == EntryModel {
                    children: with_label(
                        forest_model(before)[idx as int].children,
                        path@.skip(i as int + 1),
                        label@,
                    ),
                    ..forest_model(before)[idx as int]
                });
            } else {
                assert(node_model(*final(child)) == forest_model(before)[idx as int]);
                assert(forest_model(before).update(idx as int, forest_model(before)[idx as int])
                    =~= forest_model(before));
            }
        }
        ok
    }
}

/// Replace the link target of the entry at the nonempty path suffix
/// `path[i..]`.
fn forest_set_link(nodes: &mut Vec<NavNode>, path: &Vec<usize>, i: usize, link: BookmarkLink) -> (r:
    bool)
    requires
        i < path@.len(),
    ensures
        r == path_ok(forest_model(old(nodes)@), path@.skip(i as int)),
        r ==> forest_model(final(nodes)@) == with_link(
            forest_model(old(nodes)@),
            path@.skip(i as int),
            link@,
        ),
        !r ==> forest_model(final(nodes)@) == forest_model(old(nodes)@),
    decreases path@.len() - i,
{
    proof {
        lemma_forest_model(nodes@);
    }
    let plen = path.len();
    let idx = path[i];
    assert(path@.skip(i as int)[0] == path@[i as int]);
    if idx >= nodes.len() {
        return false;
    }
    assert(path@.skip(i as int).drop_first() =~= path@.skip(i as int + 1));
    let ghost before = nodes@;
    let child = &mut nodes[idx];
    let ghost child_before = *child;
    if i + 1 == plen {
        assert(path@.skip(i as int + 1).len() == 0);
        assert(path_ok(forest_model(before)[idx as int].children, path@.skip(i as int + 1)));
        let ghost link_model = link@;
        child.link = link;
        proof {
            lemma_forest_model_update(before, idx as int, *final(child));
            assert(node_model(*final(child)) == EntryModel {
                link: link_model,
                ..forest_model(before)[idx as int]
            });
        }
        true
    } else {
        let ok = forest_set_link(&mut child.children, path, i + 1, link);
        proof {
            lemma_forest_model_update(before, idx as int, *final(child));
            if ok {
                assert(node_model(*final(child)) == EntryModel {
                    children: with_link(
                        forest_model(before)[idx as int].children,
                        path@.skip(i as int + 1),
                        link@,
                    ),
                    ..forest_model(before)[idx as int]
                });
            } else {
                assert(node_model(*final(child)) == forest_model(before)[idx as int]);
                assert(forest_model(before).update(idx as int, forest_model(before)[idx as int])
                    =~= forest_model(before));
            }
        }
        ok
    }
}

impl Nav {
    /// Insert a fresh default entry as the first child of the entry at
    /// `index` (as the new first top-level entry when `index` is empty).
    pub fn new_first_child(&mut self, index: &Vec<usize>) -> (r: Result<(), InvalidPath>)
        ensures
            match r {
                Ok(()) => path_ok(old(self)@, index@) && final(self)@ == with_first_child(
                    old(self)@,
                    index@,
                ),
                Err(_) => !path_ok(old(self)@, index@) && final(self)@ == old(self)@,
            },
    {
        proof {
            assert(index@.skip(0) =~= index@);
        }
        if forest_insert_first(&mut self.nodes, index, 0) {
            Ok(())
        } else {
            Err(InvalidPath)
        }
    }

    /// Insert a fresh default entry immediately after the entry at `index`,
    /// at the same depth. The path must be nonempty and resolve.
    pub fn new_sibling_below(&mut self, index: &Vec<usize>) -> (r: Result<(), InvalidPath>)
        ensures
            match r {
                Ok(()) => index@.len() > 0 && path_ok(old(self)@, index@) && final(self)@
                    == with_sibling_below(old(self)@, index@),
                Err(_) => (index@.len() == 0 || !path_ok(old(self)@, index@)) && final(self)@
                    == old(self)@,
            },
    {
        if index.len() == 0 {
            return Err(InvalidPath);
        }
        proof {
            assert(index@.skip(0) =~= index@);
        }
        if forest_insert_below(&mut self.nodes, index, 0) {
            Ok(())
        } else {
            Err(InvalidPath)
        }
    }

    /// Remove the entry at `index` together with its whole subtree. The path
    /// must be nonempty and resolve. Selection repair is the caller's
    /// policy; see [`crate::edit::delete_selected`].
    pub fn delete_entry(&mut self, index: &Vec<usize>) -> (r: Result<(), InvalidPath>)
        ensures
            match r {
                Ok(()) => index@.len() > 0 && path_ok(old(self)@, index@) && final(self)@
                    == without_entry(old(self)@, index@),
                Err(_) => (index@.len() == 0 || !path_ok(old(self)@, index@)) && final(self)@
                    == old(self)@,
            },
    {
        if index.len() == 0 {
            return Err(InvalidPath);
        }
        proof {
            assert(index@.skip(0) =~= index@);
        }
        if forest_remove(&mut self.nodes, index, 0) {
            Ok(())
        } else {
            Err(InvalidPath)
        }
    }

    /// Replace the label of the entry at `index`.
    pub fn set_label(&mut self, index: &Vec<usize>, label: String) -> (r: Result<(), InvalidPath>)
        ensures
            match r {
                Ok(()) => index@.len() > 0 && path_ok(old(self)@, index@) && final(self)@
                    == with_label(old(self)@, index@, label@),
                Err(_) => (index@.len() == 0 || !path_ok(old(self)@, index@)) && final(self)@
                    == old(self)@,
            },
    {
        if index.len() == 0 {
            return Err(InvalidPath);
        }
        proof {
            assert(index@.skip(0) =~= index@);
        }
        if forest_set_label(&mut self.nodes, index, 0, label) {
            Ok(())
        } else {
            Err(InvalidPath)
        }
    }

    /// Replace the link target of the entry at `index`.
    pub fn set_link(&mut self, index: &Vec<usize>, link: BookmarkLink) -> (r: Result<
        (),
        InvalidPath,
    >)
        ensures
            match r {
                Ok(()) => index@.len() > 0 && path_ok(old(self)@, index@) && final(self)@
                    == with_link(old(self)@, index@, link@),
                Err(_) => (index@.len() == 0 || !path_ok(old(self)@, index@)) && final(self)@
                    == old(self)@,
            },
    {
        if index.len() == 0 {
            return Err(InvalidPath);
        }
        proof {
            assert(index@.skip(0) =~= index@);
        }
        if forest_set_link(&mut self.nodes, index, 0, link) {
            Ok(())
        } else {
            Err(InvalidPath)
        }
    }

    /// Whether `index` resolves against the current shape.
    pub fn path_exists(&self, index: &Vec<usize>) -> (r: bool)
        ensures
            r == path_ok(self@, index@),
    {
        let r = forest_path_ok(&self.nodes, index, 0);
        proof {
            assert(index@.skip(0) =~= index@);
        }
        r
    }

    /// Resolve a nonempty path to the entry it denotes.
    pub fn get_node(&self, index: &Vec<usize>) -> (r: Result<&NavNode, InvalidPath>)
        ensures
            match r {
                Ok(n) => index@.len() > 0 && path_ok(self@, index@) && node_model(*n) == entry_at(
                    self@,
                    index@,
                ),
                Err(_) => index@.len() == 0 || !path_ok(self@, index@),
            },
    {
        if index.len() == 0 {
            return Err(InvalidPath);
        }
        proof {
            assert(index@.skip(0) =~= index@);
        }
        match forest_get(&self.nodes, index, 0) {
            Some(n) => Ok(n),
            None => Err(InvalidPath),
        }
    }
}

/// Append every character of `src` to `buf`.
fn push_all(buf: &mut Vec<char>, src: &Vec<char>) -> (u: ())
    ensures
        final(buf)@ == old(buf)@ + src@,
{
    let mut i: usize = 0;
    while i < src.len()
        invariant
            i <= src@.len(),
            buf@ == old(buf)@ + src@.take(i as int),
        decreases src@.len() - i,
    {
        buf.push(src[i]);
        assert(src@.take(i + 1) =~= src@.take(i as int).push(src@[i as int]));
        i = i + 1;
    }
    assert(old(buf)@ + src@.take(src@.len() as int) =~= old(buf)@ + src@);
}

/// Append every character of the string `s` to `buf`.
pub(crate) fn push_str_chars(buf: &mut Vec<char>, s: &str) -> (u: ())
    ensures
        final(buf)@ == old(buf)@ + s@,
{
    let cs = str_chars(s);
    push_all(buf, &cs);
}

/// Append the label `s` to `buf` in its quoted form: each `"` is preceded
/// by a backslash, everything else is copied as it is.
fn push_escaped(buf: &mut Vec<char>, s: &String) -> (u: ())
    ensures
        final(buf)@ == old(buf)@ + escaped(s@),
{
    let slice = s.as_str();
    let len = slice.unicode_len();
    let mut i: usize = 0;
    while i < len
        invariant
            i <= len,
            len == slice@.len(),
            slice@ == s@,
            buf@ == old(buf)@ + escaped(s@.take(i as int)),
        decreases len - i,
    {
        let c = slice.get_char(i);
        if c == '"' {
            buf.push('\\');
            buf.push('"');
        } else {
            buf.push(c);
        }
        proof {
            assert(s@.take(i + 1).drop_last() =~= s@.take(i as int));
            assert(s@.take(i + 1).last() == s@[i as int]);
            assert(buf@ =~= old(buf)@ + escaped(s@.take(i + 1)));
        }
        i = i + 1;
    }
    assert(s@.take(len as int) =~= s@);
}

/// Append the text of a link target (what follows the `#`) to `buf`.
pub(crate) fn push_link(buf: &mut Vec<char>, link: &BookmarkLink) -> (u: ())
    ensures
        final(buf)@ == old(buf)@ + link_model_text(link@),
{
    match link {
        BookmarkLink::PageNumber(n) => push_dec(buf, *n),
        BookmarkLink::PageLink(s) => push_str_chars(buf, s.as_str()),
    }
}

/// Append the exchange text of one entry at the depth given by the length
/// of `indent` (a run of that many spaces).
fn push_entry_text(buf: &mut Vec<char>, node: &NavNode, pad: &Vec<char>) -> (u: ())
    requires
        pad@ == spaces(pad@.len()),
    ensures
        final(buf)@ == old(buf)@ + entry_text(node_model(*node), pad@.len()),
    decreases *node,
{
    let ghost b0 = buf@;
    let ghost model = node_model(*node);
    let ghost depth = pad@.len();
    push_all(buf, pad);
    buf.push('(');
    buf.push('"');
    push_escaped(buf, &node.string);
    buf.push('"');
    buf.push(' ');
    buf.push('"');
    buf.push('#');
    push_link(buf, &node.link);
    buf.push('"');
    let ghost head = spaces(depth) + seq!['(', '"'] + escaped(model.label) + seq!['"', ' ', '"', '#']
        + link_model_text(model.link) + seq!['"'];
    assert(buf@ =~= b0 + head);
    let mut child_pad: Vec<char> = Vec::new();
    push_all(&mut child_pad, pad);
    child_pad.push(' ');
    assert(child_pad@ =~= spaces(depth + 1));
    let ghost children = model.children;
    proof {
        lemma_spaces_len(depth + 1);
        lemma_forest_model(node.children@);
        assert(children_text(children.take(0int), depth + 1) =~= Seq::<char>::empty());
        assert(buf@ =~= b0 + head + children_text(children.take(0int), depth + 1));
    }
    let mut i: usize = 0;
    while i < node.children.len()
        invariant
            i <= node.children@.len(),
            child_pad@ == spaces(depth + 1),
            children == forest_model(node.children@),
            forest_model(node.children@).len() == node.children@.len(),
            forall|j: int|
                0 <= j < node.children@.len() ==> forest_model(node.children@)[j] == node_model(
                    node.children@[j],
                ),
            buf@ == b0 + head + children_text(children.take(i as int), depth + 1),
        decreases node.children@.len() - i,
    {
        proof {
            lemma_spaces_len(depth + 1);
        }
        buf.push('\n');
        push_entry_text(buf, &node.children[i], &child_pad);
        proof {
            assert(children.take(i + 1).drop_last() =~= children.take(i as int));
            assert(children.take(i + 1).last() == children[i as int]);
            assert(buf@ =~= b0 + head + children_text(children.take(i + 1), depth + 1));
        }
        i = i + 1;
    }
    assert(children.take(children.len() as int) =~= children);
    buf.push(' ');
    buf.push(')');
    assert(buf@ =~= b0 + entry_text(model, depth));
}

/// A label written with its quotes' escapes: `"` becomes `\"`, everything
/// else is kept as it is.
pub fn escape_characters(input: String) -> (r: String)
    ensures
        r@ == escaped(input@),
{
    let mut buf: Vec<char> = Vec::new();
    push_escaped(&mut buf, &input);
    chars_to_string(&buf)
}

/// The link target a free-form text line denotes: a page number when the
/// whitespace-trimmed text is a decimal number (an optional leading `+`
/// included) that fits, otherwise a named target holding the text itself.
pub open spec fn link_of_text(s: Seq<char>) -> LinkModel {
    let t = trimmed(s);
    let core = if t.len() > 0 && t[0] == '+' {
        t.drop_first()
    } else {
        t
    };
    if core.len() > 0 && all_digits(core) && digits_val(core) <= u32::MAX {
        LinkModel::Page(digits_val(core) as u32)
    } else {
        LinkModel::Name(s)
    }
}

impl BookmarkLink {
    /// Read a link target from a free-form text line; see [`link_of_text`].
    pub fn from_string(input: &str) -> (r: Self)
        ensures
            r@ == link_of_text(input@),
    {
        let cs = str_chars(input);
        proof {
            assert(cs@.subrange(0, cs@.len() as int) =~= cs@);
        }
        let (lo, hi) = trim_bounds(&cs, 0, cs.len());
        let ghost t = trimmed(input@);
        let core_lo = if hi > lo && cs[lo] == '+' {
            proof {
                assert(t.drop_first() =~= cs@.subrange(lo as int + 1, hi as int));
            }
            lo + 1
        } else {
            lo
        };
        let ghost core = cs@.subrange(core_lo as int, hi as int);
        let mut all: bool = core_lo < hi;
        let mut i: usize = core_lo;
        while i < hi
            invariant
                core_lo <= i <= hi <= cs@.len(),
                core == cs@.subrange(core_lo as int, hi as int),
                all == (core_lo < hi && forall|j: int|
                    0 <= j < i - core_lo ==> crate::text::is_digit_char(#[trigger] core[j])),
            decreases hi - i,
        {
            if !is_digit(cs[i]) {
                all = false;
            }
            assert(core[i - core_lo] == cs@[i as int]);
            i = i + 1;
        }
        if all {
            assert(all_digits(core));
            match parse_u32_digits(&cs, core_lo, hi) {
                Some(v) => BookmarkLink::PageNumber(v),
                None => BookmarkLink::PageLink(String::from_str(input)),
            }
        } else {
            assert(core.len() == 0 || !all_digits(core));
            BookmarkLink::PageLink(String::from_str(input))
        }
    }

    /// The text of this link target as written after the `#`.
    pub fn to_text(&self) -> (r: String)
        ensures
            r@ == link_model_text(self@),
    {
        let mut buf: Vec<char> = Vec::new();
        push_link(&mut buf, self);
        chars_to_string(&buf)
    }
}

impl Nav {
    /// Print the whole outline in the exchange format.
    pub fn to_djvu(&self) -> (r: String)
        ensures
            r@ == outline_text(self@),
    {
        let mut buf: Vec<char> = Vec::new();
        buf.push('(');
        buf.push('b');
        buf.push('o');
        buf.push('o');
        buf.push('k');
        buf.push('m');
        buf.push('a');
        buf.push('r');
        buf.push('k');
        buf.push('s');
        assert(buf@ =~= header_text());
        let mut pad: Vec<char> = Vec::new();
        pad.push(' ');
        assert(spaces(0) =~= Seq::<char>::empty());
        assert(pad@ =~= spaces(1));
        let ghost forest = self@;
        proof {
            lemma_forest_model(self.nodes@);
            assert(children_text(forest.take(0int), 1) =~= Seq::<char>::empty());
            assert(buf@ =~= header_text() + children_text(forest.take(0int), 1));
        }
        let mut i: usize = 0;
        while i < self.nodes.len()
            invariant
                i <= self.nodes@.len(),
                pad@ == spaces(1),
                forest == forest_model(self.nodes@),
                forest_model(self.nodes@).len() == self.nodes@.len(),
                forall|j: int|
                    0 <= j < self.nodes@.len() ==> forest_model(self.nodes@)[j] == node_model(
                        self.nodes@[j],
                    ),
                buf@ == header_text() + children_text(forest.take(i as int), 1),
            decreases self.nodes@.len() - i,
        {
            proof {
                lemma_spaces_len(1);
            }
            buf.push('\n');
            push_entry_text(&mut buf, &self.nodes[i], &pad);
            proof {
                assert(forest.take(i + 1).drop_last() =~= forest.take(i as int));
                assert(forest.take(i + 1).last() == forest[i as int]);
                assert(buf@ =~= header_text() + children_text(forest.take(i + 1), 1));
            }
            i = i + 1;
        }
        assert(forest.take(forest.len() as int) =~= forest);
        buf.push(' ');
        buf.push(')');
        buf.push('\n');
        assert(buf@ =~= outline_text(forest));
        chars_to_string(&buf)
    }
}

/// Height of one entry: one more than the height of its forest of children.
pub open spec fn entry_height(e: EntryModel) -> nat
    decreases e,
{
    1 + forest_height(e.children)
}

/// Height of a forest: zero when empty, else the tallest entry's height.
pub open spec fn forest_height(forest: Seq<EntryModel>) -> nat
    decreases forest,
{
    if forest.len() == 0 {
        0
    } else if entry_height(forest[0]) >= forest_height(forest.drop_first()) {
        entry_height(forest[0])
    } else {
        forest_height(forest.drop_first())
    }
}

/// No entry of a forest is taller than the forest.
pub proof fn lemma_forest_height_bound(forest: Seq<EntryModel>, i: int)
    requires
        0 <= i < forest.len(),
    ensures
        entry_height(forest[i]) <= forest_height(forest),
    decreases forest.len(),
{
    if i > 0 {
        lemma_forest_height_bound(forest.drop_first(), i - 1);
        assert(forest.drop_first()[i - 1] == forest[i]);
    }
}

/// At or beyond the forest's height, every path has zero children.
pub proof fn lemma_height_limits_paths(forest: Seq<EntryModel>, path: Seq<usize>)
    ensures
        path.len() >= forest_height(forest) ==> child_count_at(forest, path) == 0,
    decreases path.len(),
{
    if path.len() >= forest_height(forest) {
        if path.len() == 0 {
            if forest.len() > 0 {
                lemma_forest_height_bound(forest, 0);
            }
        } else if (path[0] as int) < forest.len() {
            lemma_forest_height_bound(forest, path[0] as int);
            lemma_height_limits_paths(forest[path[0] as int].children, path.drop_first());
        }
    }
}

impl crate::tree_state::TreeView for Nav {
    /// The child count of the entry at `path`; the top-level count at the
    /// empty path; zero where the path does not resolve.
    open spec fn spec_num_children(&self, path: Seq<usize>) -> nat {
        child_count_at(self@, path)
    }

    open spec fn spec_depth_limit(&self) -> nat {
        forest_height(self@)
    }

    proof fn depth_limit_is_bound(&self, path: Seq<usize>) {
        lemma_height_limits_paths(self@, path);
    }

    fn num_children(&self, index: &Vec<usize>) -> (n: usize) {
        let n = forest_child_count(&self.nodes, index, 0);
        proof {
            assert(index@.skip(0) =~= index@);
        }
        n
    }
}

} // verus!
