use nav_edit::nav::{BookmarkLink, Nav, NavNode};
use nav_edit::tree_state::TreeState;

fn leaf(label: &str, page: u32) -> NavNode {
    NavNode {
        string: String::from(label),
        link: BookmarkLink::PageNumber(page),
        children: vec![],
    }
}

/// Two top-level entries; the first has two children, the second one.
fn fixture() -> Nav {
    Nav {
        nodes: vec![
            NavNode {
                string: String::from("A"),
                link: BookmarkLink::PageNumber(1),
                children: vec![leaf("A0", 2), leaf("A1", 3)],
            },
            NavNode {
                string: String::from("B"),
                link: BookmarkLink::PageNumber(4),
                children: vec![leaf("B0", 5)],
            },
        ],
    }
}

#[test]
fn select_first_respects_empty_tree() {
    let empty = Nav { nodes: vec![] };
    let mut state = TreeState::default();
    state.select_first(&empty);
    assert!(state.selected().is_empty());
    state.select_first(&fixture());
    assert_eq!(state.selected(), &vec![0]);
}

#[test]
fn select_last_descends_expanded_subtrees() {
    let nav = fixture();
    let mut state = TreeState::default();
    state.select_last(&nav);
    assert_eq!(state.selected(), &vec![1]);
    state.open(&vec![1]);
    state.select_last(&nav);
    assert_eq!(state.selected(), &vec![1, 0]);
}

#[test]
fn key_down_walks_preorder() {
    let nav = fixture();
    let mut state = TreeState::default();
    state.open(&vec![0]);
    state.key_down(&nav);
    assert_eq!(state.selected(), &vec![0]);
    state.key_down(&nav);
    assert_eq!(state.selected(), &vec![0, 0]);
    state.key_down(&nav);
    assert_eq!(state.selected(), &vec![0, 1]);
    state.key_down(&nav);
    assert_eq!(state.selected(), &vec![1]);
    state.key_down(&nav);
    assert_eq!(state.selected(), &vec![1]);
}

#[test]
fn key_up_walks_preorder_back() {
    let nav = fixture();
    let mut state = TreeState::default();
    state.open(&vec![0]);
    state.select(vec![1]);
    state.key_up(&nav);
    assert_eq!(state.selected(), &vec![0, 1]);
    state.key_up(&nav);
    assert_eq!(state.selected(), &vec![0, 0]);
    state.key_up(&nav);
    assert_eq!(state.selected(), &vec![0]);
    state.key_up(&nav);
    assert!(state.selected().is_empty());
}

#[test]
fn move_down_then_up_restores_selection() {
    let nav = fixture();
    // For each visible position with both subtrees expanded, moving down
    // and then up comes back, as long as the selection moved at all.
    for start in [vec![0], vec![0, 0], vec![0, 1], vec![1]] {
        let mut state = TreeState::default();
        state.open(&vec![0]);
        state.open(&vec![1]);
        state.select(start.clone());
        state.key_down(&nav);
        if state.selected() != &start {
            state.key_up(&nav);
            assert_eq!(state.selected(), &start);
        }
    }
}

#[test]
fn key_left_collapses_then_moves_to_parent() {
    let nav = fixture();
    let mut state = TreeState::default();
    state.open(&vec![0]);
    state.select(vec![0, 1]);
    state.key_left();
    assert_eq!(state.selected(), &vec![0]);
    assert!(state.is_open(&vec![0]));
    state.key_left();
    assert!(!state.is_open(&vec![0]));
    assert_eq!(state.selected(), &vec![0]);
    // A collapsed top-level entry stays selected: the selection never empties.
    state.key_left();
    assert_eq!(state.selected(), &vec![0]);
    let _ = nav;
}

#[test]
fn key_right_expands_only_entries_with_children() {
    let nav = fixture();
    let mut state = TreeState::default();
    state.select(vec![1]);
    state.key_right(&nav);
    assert!(state.is_open(&vec![1]));
    state.select(vec![1, 0]);
    state.key_right(&nav);
    assert!(!state.is_open(&vec![1, 0]));
}

#[test]
fn open_close_toggle_track_the_set() {
    let mut state = TreeState::default();
    assert!(!state.open(&vec![]));
    assert!(state.open(&vec![0]));
    assert!(!state.open(&vec![0]));
    assert!(state.is_open(&vec![0]));
    assert!(state.is_open(&vec![]));
    assert!(!state.is_open(&vec![1]));
    assert!(state.close(&vec![0]));
    assert!(!state.close(&vec![0]));
    state.toggle(&vec![2]);
    assert!(state.is_open(&vec![2]));
    state.toggle(&vec![2]);
    assert!(!state.is_open(&vec![2]));
    state.select(vec![3]);
    state.toggle_selected();
    assert!(state.is_open(&vec![3]));
    state.open(&vec![4]);
    state.close_all();
    assert!(state.get_all_opened().is_empty());
}

#[test]
fn get_all_opened_returns_every_expanded_path() {
    let mut state = TreeState::default();
    state.open(&vec![0]);
    state.open(&vec![0, 1]);
    let mut opened = state.get_all_opened();
    opened.sort();
    assert_eq!(opened, vec![vec![0], vec![0, 1]]);
    assert_eq!(state.get_offset(), 0);
}
