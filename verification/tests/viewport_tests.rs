use nav_edit::flatten::{flatten, TreeItem};
use nav_edit::nav::{BookmarkLink, Nav, NavNode};
use nav_edit::tree_state::TreeState;
use nav_edit::viewport::{compute_window, Glyph};

fn item(label: &str, children: Vec<TreeItem>) -> TreeItem {
    TreeItem::new(String::from(label), children)
}

fn tall(label: &str, height: usize) -> TreeItem {
    TreeItem {
        label: String::from(label),
        height,
        children: vec![],
    }
}

#[test]
fn flatten_descends_only_into_opened() {
    let items = vec![
        item("a", vec![item("a0", vec![]), item("a1", vec![item("a1x", vec![])])]),
        item("b", vec![]),
    ];
    let rows = flatten(&vec![], &items);
    let ids: Vec<&Vec<usize>> = rows.iter().map(|r| &r.identifier).collect();
    assert_eq!(ids, vec![&vec![0], &vec![1]]);

    let rows = flatten(&vec![vec![0]], &items);
    let ids: Vec<&Vec<usize>> = rows.iter().map(|r| &r.identifier).collect();
    assert_eq!(ids, vec![&vec![0], &vec![0, 0], &vec![0, 1], &vec![1]]);
    assert_eq!(rows[0].depth(), 0);
    assert_eq!(rows[1].depth(), 1);
    assert_eq!(rows[1].label, "a0");
    assert_eq!(rows[2].child_count, 1);
}

#[test]
fn window_keeps_selection_visible() {
    // Five rows of height one in a viewport of three.
    let rows = flatten(
        &vec![],
        &vec![
            item("r0", vec![]),
            item("r1", vec![]),
            item("r2", vec![]),
            item("r3", vec![]),
            item("r4", vec![]),
        ],
    );
    // Selection inside the filled window: nothing moves.
    assert_eq!(compute_window(&rows, 1, 0, 3), (0, 3));
    // Selection below the window: grow to it, shrink from the top.
    assert_eq!(compute_window(&rows, 4, 0, 3), (2, 5));
    // Selection above the previous offset: the window starts at it.
    assert_eq!(compute_window(&rows, 0, 2, 3), (0, 3));
    let (start, end) = compute_window(&rows, 3, 1, 3);
    assert!(start <= 3 && 3 < end);
}

#[test]
fn window_handles_variable_heights() {
    let rows = flatten(
        &vec![],
        &vec![tall("big", 2), tall("small", 1), tall("wide", 2), tall("last", 1)],
    );
    // Heights 2+1 fill a viewport of 3.
    assert_eq!(compute_window(&rows, 0, 0, 3), (0, 2));
    // Selecting the third row pushes the first out.
    assert_eq!(compute_window(&rows, 2, 0, 3), (1, 3));
}

#[test]
fn single_row_taller_than_area_is_still_shown() {
    let rows = flatten(&vec![], &vec![tall("huge", 9), tall("next", 1)]);
    let (start, end) = compute_window(&rows, 0, 0, 4);
    assert_eq!((start, end), (0, 1));
    let (start, end) = compute_window(&rows, 1, 0, 4);
    assert!(start <= 1 && 1 < end);
}

#[test]
fn render_rows_persists_offset_and_marks_rows() {
    let nav = Nav {
        nodes: vec![
            NavNode {
                string: String::from("A"),
                link: BookmarkLink::PageNumber(1),
                children: vec![NavNode {
                    string: String::from("A0"),
                    link: BookmarkLink::PageNumber(2),
                    children: vec![],
                }],
            },
            NavNode {
                string: String::from("B"),
                link: BookmarkLink::PageNumber(3),
                children: vec![],
            },
        ],
    };
    let items = nav.to_tree_items();
    let mut state = TreeState::default();
    state.open(&vec![0]);
    state.select(vec![0, 0]);
    let cmds = state.render_rows(&items, 10);
    assert_eq!(cmds.len(), 3);
    assert_eq!(state.get_offset(), 0);
    assert_eq!(cmds[0].label, "A");
    assert_eq!(cmds[0].glyph, Glyph::Open);
    assert_eq!(cmds[0].depth, 0);
    assert!(!cmds[0].selected);
    assert_eq!(cmds[1].label, "A0");
    assert_eq!(cmds[1].glyph, Glyph::Leaf);
    assert_eq!(cmds[1].depth, 1);
    assert!(cmds[1].selected);
    assert_eq!(cmds[1].y, 1);
    assert_eq!(cmds[2].label, "B");
    assert_eq!(cmds[2].y, 2);
}

#[test]
fn render_rows_scrolls_to_the_selection() {
    let items: Vec<TreeItem> = (0..6).map(|i| item(&format!("row{i}"), vec![])).collect();
    let mut state = TreeState::default();
    state.select(vec![5]);
    let cmds = state.render_rows(&items, 2);
    // The selected row's flattened index lies in
    // [offset, offset + rows drawn).
    let offset = state.get_offset();
    assert!(offset <= 5 && 5 < offset + cmds.len());
    assert_eq!(cmds.len(), 2);
    assert_eq!(offset, 4);
    assert!(cmds[1].selected);
}

#[test]
fn render_rows_draws_nothing_without_rows_or_height() {
    let mut state = TreeState::default();
    let none: Vec<TreeItem> = vec![];
    assert!(state.render_rows(&none, 5).is_empty());
    let some = vec![item("a", vec![])];
    assert!(state.render_rows(&some, 0).is_empty());
    assert_eq!(state.get_offset(), 0);
}

#[test]
fn closed_subtree_shows_closed_glyph() {
    let items = vec![item("top", vec![item("kid", vec![])])];
    let mut state = TreeState::default();
    let cmds = state.render_rows(&items, 5);
    assert_eq!(cmds.len(), 1);
    assert_eq!(cmds[0].glyph, Glyph::Closed);
}

#[test]
fn tree_items_mirror_the_outline() {
    let node = NavNode {
        string: String::from("two\nlines"),
        link: BookmarkLink::PageNumber(1),
        children: vec![NavNode {
            string: String::from("kid"),
            link: BookmarkLink::PageNumber(2),
            children: vec![],
        }],
    };
    let it = node.to_tree_item();
    assert_eq!(it.label, "two\nlines");
    assert_eq!(it.height(), 2);
    assert_eq!(it.children().len(), 1);
    assert_eq!(it.child(0).unwrap().label, "kid");
    assert!(it.child(1).is_none());
    let mut it2 = TreeItem::new_leaf(String::from("leaf"));
    assert_eq!(it2.height(), 1);
    it2.add_child(TreeItem::new_leaf(String::from("late")));
    assert_eq!(it2.children().len(), 1);
}
