use nav_edit::nav::{BookmarkLink, NavNode};
use nav_edit::parser::{parse_bookmark_link, parse_nav_node, parse_page_num, parse_quoted_string};

fn chars(s: &str) -> usize {
    s.chars().count()
}

#[test]
fn parser_page_number() {
    let input = "#756";
    let (value, used) = parse_page_num(input).unwrap();
    assert_eq!(value, 756);
    assert_eq!(used, chars(input));
}

#[test]
fn parser_bookmark_link_parser_number() {
    let input = "\"#756\"";
    let (link, used) = parse_bookmark_link(input).unwrap();
    assert_eq!(link, BookmarkLink::PageNumber(756));
    assert_eq!(used, chars(input));
}

#[test]
fn parser_bookmark_link_parser_link() {
    let input = "\"#page0008.djvu\"";
    let (link, used) = parse_bookmark_link(input).unwrap();
    assert_eq!(link, BookmarkLink::PageLink(String::from("page0008.djvu")));
    assert_eq!(used, chars(input));
}

#[test]
fn parser_bookmark_name_parser() {
    let input = "\"test test\"";
    let (name, used) = parse_quoted_string(input).unwrap();
    assert_eq!(name, String::from("test test"));
    assert_eq!(used, chars(input));
}

#[test]
fn quoted_string() {
    let input = r##""test\\n\\n\\n\"hh\" jlkj""##;
    let (name, used) = parse_quoted_string(input).unwrap();
    assert_eq!(name, String::from(r##"test\n\n\n"hh" jlkj"##));
    assert_eq!(used, chars(input));
}

#[test]
fn parser_nav_node_parser1() {
    let input = "(\"TOC\" \"#3\")";
    let (node, used) = parse_nav_node(input).unwrap();
    assert_eq!(
        node,
        NavNode {
            string: "TOC".to_string(),
            link: BookmarkLink::PageNumber(3),
            children: vec![],
        }
    );
    assert_eq!(used, chars(input));
}

#[test]
fn parser_nav_node_parser2() {
    let input = "(\"Chapter 2 - Blabla\" \"#15\"
        (\"Subchapter 2.1 - Blabla\" \"#17\"
            (\"Subchapter 2.1.1 - Blabla\" \"#20\")
        )
    )";
    let (node, used) = parse_nav_node(input).unwrap();
    assert_eq!(
        node,
        NavNode {
            string: "Chapter 2 - Blabla".to_string(),
            link: BookmarkLink::PageNumber(15),
            children: vec![NavNode {
                string: "Subchapter 2.1 - Blabla".to_string(),
                link: BookmarkLink::PageNumber(17),
                children: vec![NavNode {
                    string: "Subchapter 2.1.1 - Blabla".to_string(),
                    link: BookmarkLink::PageNumber(20),
                    children: vec![],
                }],
            }],
        }
    );
    assert_eq!(used, chars(input));
}

#[test]
fn parser_nav_node_parser3() {
    let input = r##"("Introduction"
   "#21"
   ("Historical Skentch"
    "#21" )
   ("Bombellis test"
    "#23" )
   ("Some terminology and notation"
    "#26" )
   ("Practice"
    "#27" )
   ("Equivalence of Symbolic and geometric arithmetic"
    "#28" ) )"##;
    let (node, used) = parse_nav_node(input).unwrap();
    assert_eq!(
        node,
        NavNode {
            string: "Introduction".to_string(),
            link: BookmarkLink::PageNumber(21),
            children: vec![
                NavNode {
                    string: "Historical Skentch".to_string(),
                    link: BookmarkLink::PageNumber(21),
                    children: vec![],
                },
                NavNode {
                    string: "Bombellis test".to_string(),
                    link: BookmarkLink::PageNumber(23),
                    children: vec![],
                },
                NavNode {
                    string: "Some terminology and notation".to_string(),
                    link: BookmarkLink::PageNumber(26),
                    children: vec![],
                },
                NavNode {
                    string: "Practice".to_string(),
                    link: BookmarkLink::PageNumber(27),
                    children: vec![],
                },
                NavNode {
                    string: "Equivalence of Symbolic and geometric arithmetic".to_string(),
                    link: BookmarkLink::PageNumber(28),
                    children: vec![],
                },
            ],
        }
    );
    assert_eq!(used, chars(input));
}

#[test]
fn parser_nav_node_parser4() {
    let input = "(\"Chapter 2 - \\\"Blabla\\\"\" \"#15\"
        (\"Subchapter 2.1 - Blabla\" \"#17\"
            (\"Subchapter 2.1.1 - Blabla\" \"#20\")
        )
    )";
    let (node, used) = parse_nav_node(input).unwrap();
    assert_eq!(
        node,
        NavNode {
            string: "Chapter 2 - \"Blabla\"".to_string(),
            link: BookmarkLink::PageNumber(15),
            children: vec![NavNode {
                string: "Subchapter 2.1 - Blabla".to_string(),
                link: BookmarkLink::PageNumber(17),
                children: vec![NavNode {
                    string: "Subchapter 2.1.1 - Blabla".to_string(),
                    link: BookmarkLink::PageNumber(20),
                    children: vec![],
                }],
            }],
        }
    );
    assert_eq!(used, chars(input));
}

#[test]
fn nav_node_utf8() {
    let input = "(\"4.2 CONVEXITY\u{2014}ALGEBRAIC\" \"#90\" )";
    let (node, used) = parse_nav_node(input).unwrap();
    assert_eq!(
        node,
        NavNode {
            string: "4.2 CONVEXITY\u{2014}ALGEBRAIC".to_string(),
            link: BookmarkLink::PageNumber(90),
            children: vec![],
        }
    );
    assert_eq!(used, chars(input));
}

#[test]
fn djvu_bookmark_link_parser_number() {
    let input = "\"#756\"";
    let (link, used) = parse_bookmark_link(input).unwrap();
    assert_eq!(link, BookmarkLink::PageNumber(756));
    assert_eq!(used, chars(input));
}

#[test]
fn djvu_bookmark_link_parser_link() {
    let input = "\"#page0008.djvu\"";
    let (link, used) = parse_bookmark_link(input).unwrap();
    assert_eq!(link, BookmarkLink::PageLink(String::from("page0008.djvu")));
    assert_eq!(used, chars(input));
}

#[test]
fn djvu_bookmark_name_parser() {
    let input = "\"test test\"";
    let (name, used) = parse_quoted_string(input).unwrap();
    assert_eq!(name, String::from("test test"));
    assert_eq!(used, chars(input));
}

#[test]
fn djvu_nav_node_parser1() {
    let input = "(\"TOC\" \"#3\")";
    let (node, used) = parse_nav_node(input).unwrap();
    assert_eq!(node.string, "TOC");
    assert_eq!(node.link, BookmarkLink::PageNumber(3));
    assert!(node.children.is_empty());
    assert_eq!(used, chars(input));
}

#[test]
fn djvu_nav_node_parser2() {
    let input = "(\"Chapter 2 - Blabla\" \"#15\"
        (\"Subchapter 2.1 - Blabla\" \"#17\"
            (\"Subchapter 2.1.1 - Blabla\" \"#20\")
        )
    )";
    let (node, used) = parse_nav_node(input).unwrap();
    assert_eq!(node.string, "Chapter 2 - Blabla");
    assert_eq!(node.link, BookmarkLink::PageNumber(15));
    assert_eq!(node.children.len(), 1);
    assert_eq!(node.children[0].string, "Subchapter 2.1 - Blabla");
    assert_eq!(node.children[0].link, BookmarkLink::PageNumber(17));
    assert_eq!(node.children[0].children.len(), 1);
    assert_eq!(node.children[0].children[0].string, "Subchapter 2.1.1 - Blabla");
    assert_eq!(node.children[0].children[0].link, BookmarkLink::PageNumber(20));
    assert_eq!(used, chars(input));
}

#[test]
fn djvu_nav_node_parser3() {
    let input = r##"("Introduction"
   "#21"
   ("Historical Skentch"
    "#21" )
   ("Bombellis test"
    "#23" )
   ("Some terminology and notation"
    "#26" )
   ("Practice"
    "#27" )
   ("Equivalence of Symbolic and geometric arithmetic"
    "#28" ) )"##;
    let (node, used) = parse_nav_node(input).unwrap();
    assert_eq!(node.string, "Introduction");
    assert_eq!(node.link, BookmarkLink::PageNumber(21));
    let names: Vec<&str> = node.children.iter().map(|c| c.string.as_str()).collect();
    assert_eq!(
        names,
        vec![
            "Historical Skentch",
            "Bombellis test",
            "Some terminology and notation",
            "Practice",
            "Equivalence of Symbolic and geometric arithmetic",
        ]
    );
    let pages: Vec<u32> = node
        .children
        .iter()
        .map(|c| match c.link {
            BookmarkLink::PageNumber(n) => n,
            BookmarkLink::PageLink(_) => panic!("expected a page number"),
        })
        .collect();
    assert_eq!(pages, vec![21, 23, 26, 27, 28]);
    assert_eq!(used, chars(input));
}

#[test]
fn djvu_nav_node_parser4() {
    let input = "(\"Chapter 2 - \\\"Blabla\\\"\" \"#15\"
        (\"Subchapter 2.1 - Blabla\" \"#17\"
            (\"Subchapter 2.1.1 - Blabla\" \"#20\")
        )
    )";
    let (node, used) = parse_nav_node(input).unwrap();
    assert_eq!(node.string, "Chapter 2 - \"Blabla\"");
    assert_eq!(node.link, BookmarkLink::PageNumber(15));
    assert_eq!(node.children[0].children[0].link, BookmarkLink::PageNumber(20));
    assert_eq!(used, chars(input));
}

#[test]
fn page_num_scans_the_digit_prefix() {
    assert_eq!(parse_page_num("#12x"), Some((12, 3)));
    assert_eq!(parse_page_num("#"), None);
    assert_eq!(parse_page_num("756"), None);
    assert_eq!(parse_page_num("#99999999999"), None);
}
