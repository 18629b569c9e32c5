use nav_edit::nav::{escape_characters, BookmarkLink, Nav, NavNode};
use nav_edit::parser::{parse_bookmark_link, parse_djvu_nav, parse_quoted_string};

fn leaf(label: &str, page: u32) -> NavNode {
    NavNode {
        string: String::from(label),
        link: BookmarkLink::PageNumber(page),
        children: vec![],
    }
}

#[test]
fn round_trip_quoted_label() {
    let outline = Nav {
        nodes: vec![leaf("A \"quoted\" name", 3)],
    };
    let text = outline.to_djvu();
    assert_eq!(text, "(bookmarks\n (\"A \\\"quoted\\\" name\" \"#3\" ) )\n");
    let reparsed = parse_djvu_nav(&text).unwrap();
    assert_eq!(reparsed, outline);
}

#[test]
fn round_trip_nested() {
    let outline = Nav {
        nodes: vec![
            NavNode {
                string: String::from("One"),
                link: BookmarkLink::PageNumber(1),
                children: vec![leaf("One.One", 2), leaf("One.Two", 4)],
            },
            NavNode {
                string: String::from("Two"),
                link: BookmarkLink::PageLink(String::from("page0008.djvu")),
                children: vec![],
            },
        ],
    };
    let text = outline.to_djvu();
    let reparsed = parse_djvu_nav(&text).unwrap();
    assert_eq!(reparsed, outline);
}

#[test]
fn escape_leniency_drops_unknown_escape() {
    let (name, _) = parse_quoted_string("\"a\\qb\"").unwrap();
    assert_eq!(name, "ab");
}

#[test]
fn escape_decodes_named_characters() {
    let (name, _) = parse_quoted_string("\"a\\nb\\tc\\rd\\\\e\\\"f\"").unwrap();
    assert_eq!(name, "a\nb\tc\rd\\e\"f");
}

#[test]
fn empty_document_identity() {
    let parsed = parse_djvu_nav("").unwrap();
    assert_eq!(parsed.nodes.len(), 0);
    let text = parsed.to_djvu();
    assert_eq!(text, "(bookmarks )\n");
    let reparsed = parse_djvu_nav(&text).unwrap();
    assert_eq!(reparsed.nodes.len(), 0);
}

#[test]
fn reference_disambiguation() {
    let (link, _) = parse_bookmark_link("\"#756\"").unwrap();
    assert_eq!(link, BookmarkLink::PageNumber(756));
    let (link, _) = parse_bookmark_link("\"#page0008.djvu\"").unwrap();
    assert_eq!(link, BookmarkLink::PageLink(String::from("page0008.djvu")));
}

#[test]
fn reference_overflow_is_a_name() {
    let (link, _) = parse_bookmark_link("\"#99999999999\"").unwrap();
    assert_eq!(link, BookmarkLink::PageLink(String::from("99999999999")));
    let (link, _) = parse_bookmark_link("\"#4294967295\"").unwrap();
    assert_eq!(link, BookmarkLink::PageNumber(u32::MAX));
    let (link, _) = parse_bookmark_link("\"#4294967296\"").unwrap();
    assert_eq!(link, BookmarkLink::PageLink(String::from("4294967296")));
}

#[test]
fn reference_without_hash_is_malformed() {
    assert!(parse_bookmark_link("\"756\"").is_none());
}

#[test]
fn malformed_outline_errors() {
    assert!(parse_djvu_nav("(bookmarks").is_err());
    assert!(parse_djvu_nav("(bookmark x)").is_err());
    assert!(parse_djvu_nav("(bookmarks (\"a\" \"#1\" )").is_err());
    assert!(parse_djvu_nav("(bookmarks (\"a\" ) )").is_err());
    assert!(parse_djvu_nav("(bookmarks (\"unterminated ) )").is_err());
}

#[test]
fn trailing_text_is_ignored() {
    let parsed = parse_djvu_nav("(bookmarks (\"a\" \"#1\" ) )\ntrailing words").unwrap();
    assert_eq!(parsed.nodes.len(), 1);
    assert_eq!(parsed.nodes[0].string, "a");
}

#[test]
fn from_string_parses_numbers_and_names() {
    assert_eq!(BookmarkLink::from_string("756"), BookmarkLink::PageNumber(756));
    assert_eq!(BookmarkLink::from_string("  42\n"), BookmarkLink::PageNumber(42));
    assert_eq!(BookmarkLink::from_string("+7"), BookmarkLink::PageNumber(7));
    assert_eq!(
        BookmarkLink::from_string("page0008.djvu"),
        BookmarkLink::PageLink(String::from("page0008.djvu"))
    );
    assert_eq!(
        BookmarkLink::from_string("12a"),
        BookmarkLink::PageLink(String::from("12a"))
    );
    assert_eq!(
        BookmarkLink::from_string(" 99999999999 "),
        BookmarkLink::PageLink(String::from(" 99999999999 "))
    );
    assert_eq!(BookmarkLink::from_string(""), BookmarkLink::PageLink(String::new()));
}

#[test]
fn link_to_text_round_trips() {
    assert_eq!(BookmarkLink::PageNumber(756).to_text(), "756");
    assert_eq!(BookmarkLink::PageNumber(0).to_text(), "0");
    assert_eq!(
        BookmarkLink::PageLink(String::from("page0008.djvu")).to_text(),
        "page0008.djvu"
    );
}

#[test]
fn escape_characters_only_quotes() {
    assert_eq!(escape_characters(String::from("a\"b\\c")), "a\\\"b\\c");
    assert_eq!(escape_characters(String::new()), "");
}

#[test]
fn print_indents_children() {
    let outline = Nav {
        nodes: vec![NavNode {
            string: String::from("top"),
            link: BookmarkLink::PageNumber(1),
            children: vec![leaf("kid", 2)],
        }],
    };
    assert_eq!(
        outline.to_djvu(),
        "(bookmarks\n (\"top\" \"#1\"\n  (\"kid\" \"#2\" ) ) )\n"
    );
}
