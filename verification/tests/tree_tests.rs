use nav_edit::edit::{apply_entry_edit, delete_selected, entry_edit_text};
use nav_edit::nav::{BookmarkLink, InvalidPath, Nav, NavNode};
use nav_edit::tree_state::{TreeState, TreeView};

fn leaf(label: &str, page: u32) -> NavNode {
    NavNode {
        string: String::from(label),
        link: BookmarkLink::PageNumber(page),
        children: vec![],
    }
}

fn three_tops() -> Nav {
    Nav {
        nodes: vec![leaf("X", 1), leaf("Y", 2), leaf("Z", 3)],
    }
}

#[test]
fn insert_sibling_then_delete_repairs_paths() {
    // Inserting below the first of [X, Y, Z] gives [X, new, Y, Z].
    let mut nav = three_tops();
    nav.new_sibling_below(&vec![0]).unwrap();
    let labels: Vec<&str> = nav.nodes.iter().map(|n| n.string.as_str()).collect();
    assert_eq!(labels, vec!["X", "", "Y", "Z"]);

    // Back on [X, Y, Z]: deleting selected [1] (Y, not the last sibling)
    // keeps the selection at [1], which now denotes Z.
    let mut nav = three_tops();
    let mut state = TreeState::default();
    state.select(vec![1]);
    delete_selected(&mut nav, &mut state).unwrap();
    assert_eq!(state.selected(), &vec![1]);
    let labels: Vec<&str> = nav.nodes.iter().map(|n| n.string.as_str()).collect();
    assert_eq!(labels, vec!["X", "Z"]);
}

#[test]
fn delete_only_child_selects_parent() {
    let mut nav = Nav {
        nodes: vec![NavNode {
            string: String::from("top"),
            link: BookmarkLink::PageNumber(1),
            children: vec![leaf("only", 2)],
        }],
    };
    let mut state = TreeState::default();
    state.select(vec![0, 0]);
    delete_selected(&mut nav, &mut state).unwrap();
    assert_eq!(state.selected(), &vec![0]);
    assert!(nav.nodes[0].children.is_empty());
}

#[test]
fn delete_last_sibling_selects_previous() {
    let mut nav = three_tops();
    let mut state = TreeState::default();
    state.select(vec![2]);
    delete_selected(&mut nav, &mut state).unwrap();
    assert_eq!(state.selected(), &vec![1]);
    let labels: Vec<&str> = nav.nodes.iter().map(|n| n.string.as_str()).collect();
    assert_eq!(labels, vec!["X", "Y"]);
}

#[test]
fn delete_with_empty_selection_does_nothing() {
    let mut nav = three_tops();
    let mut state = TreeState::default();
    delete_selected(&mut nav, &mut state).unwrap();
    assert_eq!(nav.nodes.len(), 3);
}

#[test]
fn delete_invalid_selection_fails() {
    let mut nav = three_tops();
    let mut state = TreeState::default();
    state.select(vec![7]);
    assert_eq!(delete_selected(&mut nav, &mut state), Err(InvalidPath));
    assert_eq!(nav.nodes.len(), 3);
}

#[test]
fn new_first_child_at_root_and_below() {
    let mut nav = three_tops();
    nav.new_first_child(&vec![]).unwrap();
    assert_eq!(nav.nodes.len(), 4);
    assert_eq!(nav.nodes[0].string, "");
    nav.new_first_child(&vec![1]).unwrap();
    assert_eq!(nav.nodes[1].children.len(), 1);
    assert_eq!(nav.nodes[1].children[0].link, BookmarkLink::PageNumber(0));
}

#[test]
fn mutations_reject_bad_paths() {
    let mut nav = three_tops();
    assert_eq!(nav.new_first_child(&vec![3]), Err(InvalidPath));
    assert_eq!(nav.new_sibling_below(&vec![]), Err(InvalidPath));
    assert_eq!(nav.new_sibling_below(&vec![0, 0]), Err(InvalidPath));
    assert_eq!(nav.delete_entry(&vec![]), Err(InvalidPath));
    assert_eq!(nav.delete_entry(&vec![5]), Err(InvalidPath));
    assert_eq!(nav.set_label(&vec![9], String::from("x")), Err(InvalidPath));
    assert_eq!(
        nav.set_link(&vec![], BookmarkLink::PageNumber(1)),
        Err(InvalidPath)
    );
    assert_eq!(nav.nodes.len(), 3);
}

#[test]
fn get_node_resolves_deep_paths() {
    let nav = Nav {
        nodes: vec![NavNode {
            string: String::from("top"),
            link: BookmarkLink::PageNumber(1),
            children: vec![leaf("a", 2), leaf("b", 3)],
        }],
    };
    assert_eq!(nav.get_node(&vec![0, 1]).unwrap().string, "b");
    assert!(nav.get_node(&vec![]).is_err());
    assert!(nav.get_node(&vec![0, 2]).is_err());
    assert_eq!(nav.num_children(&vec![]), 1);
    assert_eq!(nav.num_children(&vec![0]), 2);
    assert_eq!(nav.num_children(&vec![0, 1]), 0);
    assert!(nav.path_exists(&vec![0, 1]));
    assert!(!nav.path_exists(&vec![1]));
}

#[test]
fn edit_hand_off_round_trip() {
    let node = leaf("Chapter", 12);
    assert_eq!(entry_edit_text(&node), "Chapter\n12");
    let named = NavNode {
        string: String::from("See also"),
        link: BookmarkLink::PageLink(String::from("page08.djvu")),
        children: vec![],
    };
    assert_eq!(entry_edit_text(&named), "See also\npage08.djvu");

    let mut nav = three_tops();
    apply_entry_edit(&mut nav, &vec![1], "Renamed", " 44 ").unwrap();
    assert_eq!(nav.nodes[1].string, "Renamed");
    assert_eq!(nav.nodes[1].link, BookmarkLink::PageNumber(44));
    apply_entry_edit(&mut nav, &vec![1], "Named", "intro.djvu").unwrap();
    assert_eq!(nav.nodes[1].link, BookmarkLink::PageLink(String::from("intro.djvu")));
    assert!(apply_entry_edit(&mut nav, &vec![9], "x", "1").is_err());
}

#[test]
fn default_node_is_empty_page_zero() {
    let node = NavNode::default();
    assert_eq!(node.string, "");
    assert_eq!(node.link, BookmarkLink::PageNumber(0));
    assert!(node.children.is_empty());
}
