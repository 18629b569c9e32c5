//! Reading the exchange text back into an outline.
//!
//! The grammar: the empty text is an empty outline; otherwise the text opens
//! with `(bookmarks`, holds a run of entries, and closes with `)`. An entry
//! is `(`, a quoted label, a quoted reference, a run of child entries, and
//! `)`. Whitespace between tokens is insignificant; what follows the final
//! `)` is ignored. Inside quotes, `\"`, `\\`, `\n`, `\t` and `\r` decode to
//! the named character and any other escaped character is dropped together
//! with its backslash. A reference is `#` followed by either a page number
//! (all digits, fitting the page type) or a target name.
//!
//! The grammar is stated by spec functions over a character sequence and a
//! position; the executable parser returns exactly what they describe.
use crate::nav::{
    forest_model, lemma_forest_model_push, node_model, BookmarkLink, EntryModel, LinkModel, Nav,
    NavNode,
};
use crate::text::{
    all_digits, chars_to_string, digits_val, is_digit, is_digit_char, is_space, is_space_char,
    parse_u32_digits, str_chars,
};
use vstd::prelude::*;

verus! {

/// Parse failure: the text does not follow the exchange grammar.
#[derive(Debug, PartialEq, Eq)]
pub struct MalformedOutline {
    pub description: String,
}

// ---------------------------------------------------------------------------
// The grammar, as spec functions over a position in the text.
// ---------------------------------------------------------------------------

/// First position at or after `i` holding a non-whitespace character (the
/// length of `s` when all the rest is whitespace).
pub open spec fn ws_end(s: Seq<char>, i: int) -> int
    decreases s.len() - i,
{
    if 0 <= i < s.len() && is_space_char(s[i]) {
        ws_end(s, i + 1)
    } else {
        i
    }
}

/// Skipping whitespace stays inside `[i, s.len()]`.
pub proof fn lemma_ws_end_bounds(s: Seq<char>, i: int)
    requires
        0 <= i <= s.len(),
    ensures
        i <= ws_end(s, i) <= s.len(),
    decreases s.len() - i,
{
    if i < s.len() && is_space_char(s[i]) {
        lemma_ws_end_bounds(s, i + 1);
    }
}

/// First position at or after `i` holding a non-digit character.
pub open spec fn digits_end(s: Seq<char>, i: int) -> int
    decreases s.len() - i,
{
    if 0 <= i < s.len() && is_digit_char(s[i]) {
        digits_end(s, i + 1)
    } else {
        i
    }
}

/// Scanning digits stays inside `[i, s.len()]`, and every character passed
/// over is a digit.
pub proof fn lemma_digits_end_bounds(s: Seq<char>, i: int)
    requires
        0 <= i <= s.len(),
    ensures
        i <= digits_end(s, i) <= s.len(),
        all_digits(s.subrange(i, digits_end(s, i))),
    decreases s.len() - i,
{
    if i < s.len() && is_digit_char(s[i]) {
        lemma_digits_end_bounds(s, i + 1);
        assert forall|j: int| 0 <= j < digits_end(s, i) - i implies is_digit_char(
            #[trigger] s.subrange(i, digits_end(s, i))[j],
        ) by {
            if j > 0 {
                assert(s.subrange(i + 1, digits_end(s, i + 1))[j - 1] == s.subrange(
                    i,
                    digits_end(s, i),
                )[j]);
            }
        }
    }
}

/// What one escaped character decodes to: the quote, backslash, newline,
/// tab or carriage return it names, and nothing at all for any other
/// character (the lenient dropping the format's producer relies on).
pub open spec fn esc_decode(c: char) -> Seq<char> {
    if c == '"' {
        seq!['"']
    } else if c == '\\' {
        seq!['\\']
    } else if c == 'n' {
        seq!['\n']
    } else if c == 't' {
        seq!['\t']
    } else if c == 'r' {
        seq!['\r']
    } else {
        Seq::empty()
    }
}

/// Scan a quoted body from `i` (just after the opening quote) up to its
/// closing quote: the decoded text and the position of the closing quote,
/// or `None` when the text ends first.
pub open spec fn scan_quoted(s: Seq<char>, i: int) -> Option<(Seq<char>, int)>
    decreases s.len() - i,
{
    if i < 0 || i >= s.len() {
        None
    } else if s[i] == '"' {
        Some((Seq::empty(), i))
    } else if s[i] == '\\' {
        if i + 1 >= s.len() {
            None
        } else {
            match scan_quoted(s, i + 2) {
                None => None,
                Some((rest, end)) => Some((esc_decode(s[i + 1]) + rest, end)),
            }
        }
    } else {
        match scan_quoted(s, i + 1) {
            None => None,
            Some((rest, end)) => Some((seq![s[i]] + rest, end)),
        }
    }
}

/// A successful quoted-body scan ends on a quote inside the text, after the
/// start.
pub proof fn lemma_scan_quoted_bounds(s: Seq<char>, i: int)
    requires
        scan_quoted(s, i) is Some,
    ensures
        i <= scan_quoted(s, i)->Some_0.1 < s.len(),
        s[scan_quoted(s, i)->Some_0.1] == '"',
    decreases s.len() - i,
{
    if 0 <= i < s.len() && s[i] != '"' {
        if s[i] == '\\' {
            lemma_scan_quoted_bounds(s, i + 2);
        } else {
            lemma_scan_quoted_bounds(s, i + 1);
        }
    }
}

/// A quoted token at `i`: opening quote, body, closing quote. Yields the
/// decoded body and the position just past the closing quote.
pub open spec fn sp_quoted(s: Seq<char>, i: int) -> Option<(Seq<char>, int)> {
    if 0 <= i < s.len() && s[i] == '"' {
        match scan_quoted(s, i + 1) {
            None => None,
            Some((body, close)) => Some((body, close + 1)),
        }
    } else {
        None
    }
}

/// A successful quoted token moves the position forward, at most to the end.
pub proof fn lemma_sp_quoted_bounds(s: Seq<char>, i: int)
    requires
        sp_quoted(s, i) is Some,
    ensures
        i + 2 <= sp_quoted(s, i)->Some_0.1 <= s.len(),
{
    lemma_scan_quoted_bounds(s, i + 1);
}

/// The link a decoded reference body denotes: it must open with `#`; the
/// rest is a page number when it is all digits (at least one) and fits,
/// else a target name.
pub open spec fn link_of_ref(q: Seq<char>) -> Option<LinkModel> {
    if q.len() > 0 && q[0] == '#' {
        let rest = q.drop_first();
        if rest.len() > 0 && all_digits(rest) && digits_val(rest) <= u32::MAX {
            Some(LinkModel::Page(digits_val(rest) as u32))
        } else {
            Some(LinkModel::Name(rest))
        }
    } else {
        None
    }
}

/// One entry at `i`: `(`, quoted label, quoted reference, child entries,
/// `)`. Yields the entry and the position just past its closing `)`.
pub open spec fn sp_entry(s: Seq<char>, i: int) -> Option<(EntryModel, int)>
    decreases s.len() - i, 0int,
        when 0 <= i <= s.len()
    via sp_entry_decreases
{
    if i >= s.len() || s[i] != '(' {
        None
    } else {
        match sp_quoted(s, ws_end(s, i + 1)) {
            None => None,
            Some((label, j)) => match sp_quoted(s, ws_end(s, j)) {
                None => None,
                Some((refq, k)) => match link_of_ref(refq) {
                    None => None,
                    Some(link) => match sp_entries(s, k) {
                        None => None,
                        Some((children, m)) => {
                            let close = ws_end(s, m);
                            if close < s.len() && s[close] == ')' {
                                Some((EntryModel { label, link, children }, close + 1))
                            } else {
                                None
                            }
                        },
                    },
                },
            },
        }
    }
}

/// A run of entries from `i`, each preceded by insignificant whitespace;
/// ends (successfully) just before the first position where no `(` follows
/// the whitespace. Yields the entries and that position.
pub open spec fn sp_entries(s: Seq<char>, i: int) -> Option<(Seq<EntryModel>, int)>
    decreases s.len() - i, 1int,
        when 0 <= i <= s.len()
    via sp_entries_decreases
{
    let j = ws_end(s, i);
    if j < s.len() && s[j] == '(' {
        match sp_entry(s, j) {
            None => None,
            Some((e, k)) => {
                if j < k <= s.len() {
                    match sp_entries(s, k) {
                        None => None,
                        Some((rest, end)) => Some((seq![e] + rest, end)),
                    }
                } else {
                    None
                }
            },
        }
    } else {
        Some((Seq::empty(), i))
    }
}

#[via_fn]
proof fn sp_entry_decreases(s: Seq<char>, i: int) {
    if 0 <= i <= s.len() && i < s.len() && s[i] == '(' {
        lemma_ws_end_bounds(s, i + 1);
        if sp_quoted(s, ws_end(s, i + 1)) is Some {
            lemma_sp_quoted_bounds(s, ws_end(s, i + 1));
            let j = sp_quoted(s, ws_end(s, i + 1))->Some_0.1;
            lemma_ws_end_bounds(s, j);
            if sp_quoted(s, ws_end(s, j)) is Some {
                lemma_sp_quoted_bounds(s, ws_end(s, j));
            }
        }
    }
}

#[via_fn]
proof fn sp_entries_decreases(s: Seq<char>, i: int) {
    if 0 <= i <= s.len() {
        lemma_ws_end_bounds(s, i);
    }
}

/// The whole text: empty means an empty outline; otherwise `(bookmarks`,
/// the top-level entries, and a closing `)`. Whatever follows is ignored.
pub open spec fn sp_outline(s: Seq<char>) -> Option<Seq<EntryModel>> {
    if s.len() == 0 {
        Some(Seq::empty())
    } else if s.len() >= 10 && s.subrange(0, 10) == crate::nav::header_text() {
        match sp_entries(s, 10) {
            None => None,
            Some((entries, i)) => {
                let close = ws_end(s, i);
                if close < s.len() && s[close] == ')' {
                    Some(entries)
                } else {
                    None
                }
            },
        }
    } else {
        None
    }
}

// ---------------------------------------------------------------------------
// The executable parser, function by function equal to the grammar above.
// ---------------------------------------------------------------------------

/// First position at or after `i` with a non-whitespace character.
fn skip_ws(s: &Vec<char>, i: usize) -> (r: usize)
    requires
        i <= s@.len(),
    ensures
        i <= r <= s@.len(),
        r as int == ws_end(s@, i as int),
{
    let mut j: usize = i;
    while j < s.len() && is_space(s[j])
        invariant
            i <= j <= s@.len(),
            ws_end(s@, i as int) == ws_end(s@, j as int),
        decreases s@.len() - j,
    {
        j = j + 1;
    }
    j
}

/// Copy `s[lo..hi]` into a fresh vector.
fn vec_char_range(s: &Vec<char>, lo: usize, hi: usize) -> (r: Vec<char>)
    requires
        lo <= hi <= s@.len(),
    ensures
        r@ == s@.subrange(lo as int, hi as int),
{
    let mut r: Vec<char> = Vec::new();
    let mut j: usize = lo;
    while j < hi
        invariant
            lo <= j <= hi <= s@.len(),
            r@ == s@.subrange(lo as int, j as int),
        decreases hi - j,
    {
        r.push(s[j]);
        assert(s@.subrange(lo as int, j + 1) =~= s@.subrange(lo as int, j as int).push(
            s@[j as int],
        ));
        j = j + 1;
    }
    r
}

/// Scan a quoted body from `i` (just after the opening quote): the decoded
/// text and the position of the closing quote.
fn scan_quoted_chars(s: &Vec<char>, i: usize) -> (r: Option<(Vec<char>, usize)>)
    requires
        i <= s@.len(),
    ensures
        match r {
            Some(p) => scan_quoted(s@, i as int) == Some((p.0@, p.1 as int)) && i <= p.1
                < s@.len(),
            None => scan_quoted(s@, i as int) is None,
        },
{
    let mut acc: Vec<char> = Vec::new();
    let mut cur: usize = i;
    loop
        invariant
            i <= cur <= s@.len(),
            (match scan_quoted(s@, cur as int) {
                Some((rest, end)) => scan_quoted(s@, i as int) == Some((acc@ + rest, end)),
                None => scan_quoted(s@, i as int) is None,
            }),
        decreases s@.len() - cur,
    {
        if cur >= s.len() {
            return None;
        }
        let c = s[cur];
        if c == '"' {
            assert(acc@ + Seq::<char>::empty() =~= acc@);
            return Some((acc, cur));
        } else if c == '\\' {
            if cur + 1 >= s.len() {
                return None;
            }
            let e = s[cur + 1];
            let ghost acc0 = acc@;
            if e == '"' {
                acc.push('"');
            } else if e == '\\' {
                acc.push('\\');
            } else if e == 'n' {
                acc.push('\n');
            } else if e == 't' {
                acc.push('\t');
            } else if e == 'r' {
                acc.push('\r');
            }
            proof {
                assert(acc@ =~= acc0 + esc_decode(e));
                if scan_quoted(s@, cur + 2) is Some {
                    let (rest, end) = scan_quoted(s@, cur + 2)->Some_0;
                    assert(acc0 + (esc_decode(e) + rest) =~= (acc0 + esc_decode(e)) + rest);
                }
            }
            cur = cur + 2;
        } else {
            let ghost acc0 = acc@;
            acc.push(c);
            proof {
                assert(acc@ =~= acc0 + seq![c]);
                if scan_quoted(s@, cur + 1) is Some {
                    let (rest, end) = scan_quoted(s@, cur + 1)->Some_0;
                    assert(acc0 + (seq![c] + rest) =~= (acc0 + seq![c]) + rest);
                }
            }
            cur = cur + 1;
        }
    }
}

/// A quoted token: opening quote, decoded body, closing quote. Yields the
/// body and the position just past the closing quote.
fn parse_quoted(s: &Vec<char>, i: usize) -> (r: Option<(Vec<char>, usize)>)
    requires
        i <= s@.len(),
    ensures
        match r {
            Some(p) => sp_quoted(s@, i as int) == Some((p.0@, p.1 as int)) && i + 2 <= p.1
                <= s@.len(),
            None => sp_quoted(s@, i as int) is None,
        },
{
    if i >= s.len() {
        return None;
    }
    if s[i] != '"' {
        return None;
    }
    match scan_quoted_chars(s, i + 1) {
        None => None,
        Some(p) => Some((p.0, p.1 + 1)),
    }
}

/// The link a decoded reference body denotes; see [`link_of_ref`].
fn link_from_ref(q: &Vec<char>) -> (r: Option<BookmarkLink>)
    ensures
        match r {
            Some(l) => link_of_ref(q@) == Some(l@),
            None => link_of_ref(q@) is None,
        },
{
    if q.len() == 0 {
        return None;
    }
    if q[0] != '#' {
        return None;
    }
    let len = q.len();
    assert(q@.drop_first() =~= q@.subrange(1, len as int));
    let mut all: bool = len > 1;
    let mut j: usize = 1;
    while j < len
        invariant
            1 <= j <= len,
            len == q@.len(),
            all == (len > 1 && forall|m: int|
                1 <= m < j ==> is_digit_char(#[trigger] q@[m])),
        decreases len - j,
    {
        if !is_digit(q[j]) {
            all = false;
        }
        j = j + 1;
    }
    let ghost rest = q@.drop_first();
    if all {
        assert(all_digits(rest));
        match parse_u32_digits(q, 1, len) {
            Some(v) => Some(BookmarkLink::PageNumber(v)),
            None => {
                let name = vec_char_range(q, 1, len);
                Some(BookmarkLink::PageLink(chars_to_string(&name)))
            },
        }
    } else {
        proof {
            if q@.len() > 1 {
                let m = choose|m: int| 1 <= m < q@.len() && !is_digit_char(q@[m]);
                assert(rest[m - 1] == q@[m]);
                assert(!all_digits(rest));
            }
        }
        let name = vec_char_range(q, 1, len);
        Some(BookmarkLink::PageLink(chars_to_string(&name)))
    }
}

/// One entry at `i`; yields the entry and the position just past its
/// closing `)`.
fn parse_entry_at(s: &Vec<char>, i: usize) -> (r: Option<(NavNode, usize)>)
    requires
        i <= s@.len(),
    ensures
        match r {
            Some(p) => sp_entry(s@, i as int) == Some((node_model(p.0), p.1 as int)) && i < p.1
                <= s@.len(),
            None => sp_entry(s@, i as int) is None,
        },
    decreases s@.len() - i, 0int,
{
    if i >= s.len() {
        return None;
    }
    if s[i] != '(' {
        return None;
    }
    let j0 = skip_ws(s, i + 1);
    let lab = match parse_quoted(s, j0) {
        None => {
            return None;
        },
        Some(x) => x,
    };
    let j1 = skip_ws(s, lab.1);
    let refq = match parse_quoted(s, j1) {
        None => {
            return None;
        },
        Some(x) => x,
    };
    let link = match link_from_ref(&refq.0) {
        None => {
            return None;
        },
        Some(l) => l,
    };
    let kids = match parse_entries_at(s, refq.1) {
        None => {
            return None;
        },
        Some(x) => x,
    };
    let close = skip_ws(s, kids.1);
    if close < s.len() {
        let c = s[close];
        if c == ')' {
            let node = NavNode { string: chars_to_string(&lab.0), link, children: kids.0 };
            proof {
                assert(node_model(node) == EntryModel {
                    label: lab.0@,
                    link: node.link@,
                    children: forest_model(kids.0@),
                });
            }
            return Some((node, close + 1));
        }
    }
    None
}

/// A run of entries from `i`; yields the entries and the position just
/// before whatever follows them.
fn parse_entries_at(s: &Vec<char>, i: usize) -> (r: Option<(Vec<NavNode>, usize)>)
    requires
        i <= s@.len(),
    ensures
        match r {
            Some(p) => sp_entries(s@, i as int) == Some((forest_model(p.0@), p.1 as int)) && i
                <= p.1 <= s@.len(),
            None => sp_entries(s@, i as int) is None,
        },
    decreases s@.len() - i, 1int,
{
    let mut nodes: Vec<NavNode> = Vec::new();
    let mut cur: usize = i;
    proof {
        assert(forest_model(nodes@) =~= Seq::<EntryModel>::empty());
    }
    loop
        invariant
            i <= cur <= s@.len(),
            (match sp_entries(s@, cur as int) {
                Some((rest, end)) => sp_entries(s@, i as int) == Some((
                    forest_model(nodes@) + rest,
                    end,
                )),
                None => sp_entries(s@, i as int) is None,
            }),
        decreases s@.len() - cur,
    {
        let j = skip_ws(s, cur);
        let mut open = false;
        if j < s.len() {
            if s[j] == '(' {
                open = true;
            }
        }
        if open {
            match parse_entry_at(s, j) {
                None => {
                    return None;
                },
                Some(p) => {
                    proof {
                        lemma_forest_model_push(nodes@, p.0);
                        if sp_entries(s@, p.1 as int) is Some {
                            let (rest2, end) = sp_entries(s@, p.1 as int)->Some_0;
                            assert(forest_model(nodes@) + (seq![node_model(p.0)] + rest2) =~= (
                            forest_model(nodes@).push(node_model(p.0))) + rest2);
                        }
                    }
                    nodes.push(p.0);
                    cur = p.1;
                },
            }
        } else {
            proof {
                assert(forest_model(nodes@) + Seq::<EntryModel>::empty() =~= forest_model(
                    nodes@,
                ));
            }
            return Some((nodes, cur));
        }
    }
}

/// Read a whole outline from the exchange text; see [`sp_outline`] for the
/// grammar. Text after the closing `)` is ignored, as the producing utility
/// pads its output.
pub fn parse_djvu_nav(input: &str) -> (r: Result<Nav, MalformedOutline>)
    ensures
        match r {
            Ok(nav) => sp_outline(input@) == Some(nav@),
            Err(_) => sp_outline(input@) is None,
        },
{
    let cs = str_chars(input);
    if cs.len() == 0 {
        let nav = Nav { nodes: Vec::new() };
        proof {
            assert(nav@ =~= Seq::<EntryModel>::empty());
        }
        return Ok(nav);
    }
    if cs.len() < 10 {
        return Err(malformed("the text does not open with the bookmarks word"));
    }
    let header_ok = cs[0] == '(' && cs[1] == 'b' && cs[2] == 'o' && cs[3] == 'o' && cs[4] == 'k'
        && cs[5] == 'm' && cs[6] == 'a' && cs[7] == 'r' && cs[8] == 'k' && cs[9] == 's';
    if !header_ok {
        proof {
            assert(input@.subrange(0, 10) != crate::nav::header_text()) by {
                if input@.subrange(0, 10) == crate::nav::header_text() {
                    assert(input@[0] == '(' && input@[1] == 'b' && input@[2] == 'o' && input@[3]
                        == 'o' && input@[4] == 'k' && input@[5] == 'm' && input@[6] == 'a'
                        && input@[7] == 'r' && input@[8] == 'k' && input@[9] == 's') by {
                        assert forall|m: int| 0 <= m < 10 implies input@[m] == crate::nav::header_text()[m] by {
                            assert(input@.subrange(0, 10)[m] == input@[m]);
                        }
                    }
                }
            }
        }
        return Err(malformed("the text does not open with the bookmarks word"));
    }
    proof {
        assert(input@.subrange(0, 10) =~= crate::nav::header_text());
    }
    let parsed = match parse_entries_at(&cs, 10) {
        None => {
            return Err(malformed("an entry of the outline is malformed"));
        },
        Some(p) => p,
    };
    let close = skip_ws(&cs, parsed.1);
    if close < cs.len() {
        let c = cs[close];
        if c == ')' {
            let nav = Nav { nodes: parsed.0 };
            return Ok(nav);
        }
    }
    Err(malformed("the outline is not closed by a parenthesis"))
}

/// The one parse error, carrying a short description for a human reader.
fn malformed(description: &str) -> MalformedOutline {
    MalformedOutline { description: String::from_str(description) }
}

// ---------------------------------------------------------------------------
// Entry points over `&str`, one per token of the grammar. Each returns the
// parsed value and the number of characters consumed.
// ---------------------------------------------------------------------------

/// A bare page-number token: `#` followed by a digit run that fits the page
/// type. Yields the number and the end of the digit run.
pub open spec fn sp_page_num(s: Seq<char>) -> Option<(u32, int)> {
    if s.len() > 0 && s[0] == '#' {
        let e = digits_end(s, 1);
        if e > 1 && digits_val(s.subrange(1, e)) <= u32::MAX {
            Some((digits_val(s.subrange(1, e)) as u32, e))
        } else {
            None
        }
    } else {
        None
    }
}

/// A quoted reference token and the link it denotes.
pub open spec fn sp_link(s: Seq<char>, i: int) -> Option<(LinkModel, int)> {
    match sp_quoted(s, i) {
        None => None,
        Some((q, e)) => match link_of_ref(q) {
            None => None,
            Some(l) => Some((l, e)),
        },
    }
}

/// Read a page-number token such as `#756` from the start of `input`.
pub fn parse_page_num(input: &str) -> (r: Option<(u32, usize)>)
    ensures
        match r {
            Some(p) => sp_page_num(input@) == Some((p.0, p.1 as int)),
            None => sp_page_num(input@) is None,
        },
{
    let cs = str_chars(input);
    if cs.len() == 0 {
        return None;
    }
    if cs[0] != '#' {
        return None;
    }
    let len = cs.len();
    let mut e: usize = 1;
    while e < len && is_digit(cs[e])
        invariant
            1 <= e <= len,
            len == cs@.len(),
            digits_end(cs@, 1) == digits_end(cs@, e as int),
        decreases len - e,
    {
        e = e + 1;
    }
    proof {
        lemma_digits_end_bounds(cs@, 1);
    }
    if e == 1 {
        return None;
    }
    match parse_u32_digits(&cs, 1, e) {
        Some(v) => Some((v, e)),
        None => None,
    }
}

/// Read a quoted, escape-decoded string token from the start of `input`.
pub fn parse_quoted_string(input: &str) -> (r: Option<(String, usize)>)
    ensures
        match r {
            Some(p) => sp_quoted(input@, 0) == Some((p.0@, p.1 as int)),
            None => sp_quoted(input@, 0) is None,
        },
{
    let cs = str_chars(input);
    match parse_quoted(&cs, 0) {
        None => None,
        Some(p) => Some((chars_to_string(&p.0), p.1)),
    }
}

/// Read a quoted reference token such as `"#756"` or `"#name"` from the
/// start of `input` and the link target it denotes.
pub fn parse_bookmark_link(input: &str) -> (r: Option<(BookmarkLink, usize)>)
    ensures
        match r {
            Some(p) => sp_link(input@, 0) == Some((p.0@, p.1 as int)),
            None => sp_link(input@, 0) is None,
        },
{
    let cs = str_chars(input);
    match parse_quoted(&cs, 0) {
        None => None,
        Some(p) => match link_from_ref(&p.0) {
            None => None,
            Some(l) => Some((l, p.1)),
        },
    }
}

/// Read one entry from the start of `input`.
pub fn parse_nav_node(input: &str) -> (r: Option<(NavNode, usize)>)
    ensures
        match r {
            Some(p) => sp_entry(input@, 0) == Some((node_model(p.0), p.1 as int)),
            None => sp_entry(input@, 0) is None,
        },
{
    let cs = str_chars(input);
    parse_entry_at(&cs, 0)
}

} // verus!
