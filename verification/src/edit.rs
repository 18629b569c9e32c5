//! Editing policies that couple the outline tree with the navigation
//! state: the selection-repair rule applied before a delete, and the
//! two-line text exchanged with an external line editor for one entry.
use crate::nav::{
    child_count_at, link_model_text, link_of_text, path_ok, push_link, push_str_chars, with_label,
    with_link, without_entry, BookmarkLink, InvalidPath, Nav, NavNode,
};
use crate::text::chars_to_string;
use crate::tree_state::{vec_prefix, TreeState, TreeView};
use vstd::prelude::*;

verus! {

/// Where the selection must move before the entry at `p` is deleted: to
/// the parent when the entry is the only child at index zero, to the
/// previous sibling when it is the last of several, and nowhere otherwise
/// (the old index then denotes the entry sliding into the freed slot).
pub open spec fn repaired_selection(forest: Seq<crate::nav::EntryModel>, p: Seq<usize>) -> Seq<
    usize,
> {
    let parent = p.drop_last();
    let cnt = child_count_at(forest, parent);
    if p.last() == 0 && cnt == 1 {
        parent
    } else if (p.last() as nat) + 1 == cnt {
        parent.push((p.last() - 1) as usize)
    } else {
        p
    }
}

/// Delete the selected entry and repair the selection first, by the rule
/// of [`repaired_selection`]. An empty selection does nothing; a selection
/// that does not resolve fails and changes nothing.
pub fn delete_selected(nav: &mut Nav, state: &mut TreeState) -> (r: Result<(), InvalidPath>)
    requires
        old(state).inv(),
    ensures
        final(state).inv(),
        final(state).opened_set() == old(state).opened_set(),
        final(state).spec_offset() == old(state).spec_offset(),
        ({
            let p = old(state).spec_selected();
            if p.len() == 0 {
                r is Ok && final(nav)@ == old(nav)@ && final(state).spec_selected() == p
            } else if path_ok(old(nav)@, p) {
                r is Ok && final(nav)@ == without_entry(old(nav)@, p) && final(state).spec_selected() == repaired_selection(old(nav)@, p)
            } else {
                r is Err && final(nav)@ == old(nav)@ && final(state).spec_selected() == p
            }
        }),
{
    let selected = state.selected().clone();
    proof {
        assert(selected@ =~= old(state).spec_selected());
    }
    if selected.len() == 0 {
        return Ok(());
    }
    if !nav.path_exists(&selected) {
        return Err(InvalidPath);
    }
    let last = selected[selected.len() - 1];
    let father = vec_prefix(&selected, selected.len() - 1);
    proof {
        assert(father@ =~= selected@.drop_last());
    }
    let cnt = nav.num_children(&father);
    if last == 0 && cnt == 1 {
        state.select(father);
    } else if cnt > 0 && last == cnt - 1 {
        let mut ns = father;
        ns.push(last - 1);
        proof {
            assert(ns@ =~= selected@.drop_last().push((selected@.last() - 1) as usize));
        }
        state.select(ns);
    }
    nav.delete_entry(&selected)
}

/// Replacing a label leaves the shape alone, so the path still resolves.
proof fn lemma_with_label_keeps_path(
    forest: Seq<crate::nav::EntryModel>,
    p: Seq<usize>,
    label: Seq<char>,
)
    requires
        p.len() > 0,
        path_ok(forest, p),
    ensures
        path_ok(with_label(forest, p, label), p),
    decreases p.len(),
{
    if p.len() > 1 {
        lemma_with_label_keeps_path(forest[p[0] as int].children, p.drop_first(), label);
    }
}

/// The two-line text handed to an external line editor for one entry: the
/// label, then the link target's text.
pub fn entry_edit_text(node: &NavNode) -> (r: String)
    ensures
        r@ == node.string@ + seq!['\n'] + link_model_text(node.link@),
{
    let mut buf: Vec<char> = Vec::new();
    push_str_chars(&mut buf, node.string.as_str());
    buf.push('\n');
    push_link(&mut buf, &node.link);
    proof {
        assert(buf@ =~= node.string@ + seq!['\n'] + link_model_text(node.link@));
    }
    chars_to_string(&buf)
}

/// Apply an edited two-line text back to the entry at `index`: the first
/// line becomes the label; the second becomes the link target, read as a
/// page number when its whitespace-trimmed text is fully numeric.
pub fn apply_entry_edit(nav: &mut Nav, index: &Vec<usize>, label: &str, link_line: &str) -> (r:
    Result<(), InvalidPath>)
    ensures
        match r {
            Ok(()) => index@.len() > 0 && path_ok(old(nav)@, index@) && final(nav)@ == with_link(
                with_label(old(nav)@, index@, label@),
                index@,
                link_of_text(link_line@),
            ),
            Err(_) => (index@.len() == 0 || !path_ok(old(nav)@, index@)) && final(nav)@ == old(nav)@,
        },
{
    let text = String::from_str(label);
    match nav.set_label(index, text) {
        Err(e) => Err(e),
        Ok(()) => {
            proof {
                lemma_with_label_keeps_path(old(nav)@, index@, label@);
            }
            let link = BookmarkLink::from_string(link_line);
            match nav.set_link(index, link) {
                Err(e) => Err(e),
                Ok(()) => Ok(()),
            }
        },
    }
}

} // verus!
