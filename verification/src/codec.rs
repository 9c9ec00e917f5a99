//! The wire codec: requests arrive as JSON text and replies leave as JSON
//! payloads or plain status strings.
//!
//! The wire shape is a single JSON object with up to three members, in any
//! order, none repeated: `"action"` (a string, required, one of the five
//! recognized tags), `"id"` (an unsigned integer) and `"book"` (an object
//! with exactly the members `"title"`, `"author"` and `"year"`). Strings
//! accept the eight single-character escapes; numbers are plain digit runs
//! that must fit the target integer width. Text that does not fit this
//! shape, or whose action tag is unrecognized, decodes to `InvalidJson`;
//! well-formed text whose action lacks a field it needs decodes to
//! `InvalidRequest`.

use vstd::prelude::*;
use vstd::string::StrSliceExecFns;
use vstd::string::StringExecFns;

use crate::book::{Book, BookFields, BookFieldsView, BookView};
use crate::store::book_views;

verus! {

/// Why a message could not be served; each value has a fixed reply text.
#[derive(Clone, Copy, Debug, PartialEq, Eq, Structural)]
pub enum WebSocketError {
    InvalidRequest,
    BookNotFound,
    InvalidJson,
}

/// One decoded client request.
#[derive(Debug, PartialEq, Eq)]
pub enum Request {
    GetAll,
    GetOne { id: usize },
    Add { book: BookFields },
    Update { id: usize, book: BookFields },
    Delete { id: usize },
}

/// Mathematical image of a request.
pub enum RequestView {
    GetAll,
    GetOne { id: int },
    Add { book: BookFieldsView },
    Update { id: int, book: BookFieldsView },
    Delete { id: int },
}

impl View for Request {
    type V = RequestView;

    open spec fn view(&self) -> RequestView {
        match self {
            Request::GetAll => RequestView::GetAll,
            Request::GetOne { id } => RequestView::GetOne { id: *id as int },
            Request::Add { book } => RequestView::Add { book: book@ },
            Request::Update { id, book } => RequestView::Update { id: *id as int, book: book@ },
            Request::Delete { id } => RequestView::Delete { id: *id as int },
        }
    }
}

// ---------------------------------------------------------------------------
// The wire grammar, as spec-level recursive descent over the character
// sequence. Each parser returns the parsed value and the index of the first
// character it did not consume, or nothing when the text does not match.
// ---------------------------------------------------------------------------

/// The whitespace the grammar allows between tokens.
pub open spec fn is_json_ws(c: char) -> bool {
    c == ' ' || c == '\t' || c == '\n' || c == '\r'
}

/// The first index at or after `i` that does not hold whitespace.
pub open spec fn skip_ws(s: Seq<char>, i: int) -> int
    decreases s.len() - i,
{
    if 0 <= i < s.len() && is_json_ws(s[i]) {
        skip_ws(s, i + 1)
    } else {
        i
    }
}

pub proof fn lemma_skip_ws_bounds(s: Seq<char>, i: int)
    requires
        0 <= i <= s.len(),
    ensures
        i <= skip_ws(s, i) <= s.len(),
    decreases s.len() - i,
{
    if i < s.len() && is_json_ws(s[i]) {
        lemma_skip_ws_bounds(s, i + 1);
    }
}

/// What a backslash escape stands for, if it is recognized.
pub open spec fn unescape(c: char) -> Option<char> {
    if c == '"' {
        Some('"')
    } else if c == '\\' {
        Some('\\')
    } else if c == '/' {
        Some('/')
    } else if c == 'n' {
        Some('\n')
    } else if c == 't' {
        Some('\t')
    } else if c == 'r' {
        Some('\r')
    } else if c == 'b' {
        Some('\u{0008}')
    } else if c == 'f' {
        Some('\u{000C}')
    } else {
        None
    }
}

/// The remainder of a string literal, starting just inside the opening
/// quote: everything up to the closing quote, escapes resolved.
pub open spec fn parse_string_body(s: Seq<char>, i: int) -> Option<(Seq<char>, int)>
    decreases s.len() - i,
{
    if i < 0 || i >= s.len() {
        None
    } else if s[i] == '"' {
        Some((Seq::empty(), i + 1))
    } else if s[i] == '\\' {
        if i + 1 < s.len() && unescape(s[i + 1]) is Some {
            match parse_string_body(s, i + 2) {
                Some((t, j)) => Some((seq![unescape(s[i + 1])->0] + t, j)),
                None => None,
            }
        } else {
            None
        }
    } else {
        match parse_string_body(s, i + 1) {
            Some((t, j)) => Some((seq![s[i]] + t, j)),
            None => None,
        }
    }
}

/// A complete string literal at `i`, quotes included.
pub open spec fn parse_string(s: Seq<char>, i: int) -> Option<(Seq<char>, int)> {
    if 0 <= i < s.len() && s[i] == '"' {
        parse_string_body(s, i + 1)
    } else {
        None
    }
}

pub proof fn lemma_parse_string_body_bounds(s: Seq<char>, i: int)
    requires
        parse_string_body(s, i) is Some,
    ensures
        i < (parse_string_body(s, i)->0).1 <= s.len(),
    decreases s.len() - i,
{
    if s[i] == '"' {
    } else if s[i] == '\\' {
        lemma_parse_string_body_bounds(s, i + 2);
    } else {
        lemma_parse_string_body_bounds(s, i + 1);
    }
}

pub proof fn lemma_parse_string_bounds(s: Seq<char>, i: int)
    requires
        parse_string(s, i) is Some,
    ensures
        i < (parse_string(s, i)->0).1 <= s.len(),
{
    lemma_parse_string_body_bounds(s, i + 1);
}

pub open spec fn is_digit(c: char) -> bool {
    ('0' as u32) <= (c as u32) <= ('9' as u32)
}

pub open spec fn digit_val(c: char) -> int {
    (c as u32) as int - ('0' as u32) as int
}

/// Consumes the digit run starting at `i`, folding it onto `acc` in base
/// ten; returns the folded value and the first unconsumed index.
pub open spec fn parse_digits(s: Seq<char>, i: int, acc: int) -> (int, int)
    decreases s.len() - i,
{
    if 0 <= i < s.len() && is_digit(s[i]) {
        parse_digits(s, i + 1, acc * 10 + digit_val(s[i]))
    } else {
        (acc, i)
    }
}

/// An unbounded unsigned integer literal: one or more digits.
pub open spec fn parse_uint(s: Seq<char>, i: int) -> Option<(int, int)> {
    if 0 <= i < s.len() && is_digit(s[i]) {
        Some(parse_digits(s, i, 0))
    } else {
        None
    }
}

pub proof fn lemma_parse_digits_bounds(s: Seq<char>, i: int, acc: int)
    requires
        0 <= i <= s.len(),
        acc >= 0,
    ensures
        i <= parse_digits(s, i, acc).1 <= s.len(),
        parse_digits(s, i, acc).0 >= acc,
    decreases s.len() - i,
{
    if i < s.len() && is_digit(s[i]) {
        assert(acc * 10 >= acc) by (nonlinear_arith)
            requires
                acc >= 0,
        ;
        lemma_parse_digits_bounds(s, i + 1, acc * 10 + digit_val(s[i]));
    }
}

pub proof fn lemma_parse_uint_bounds(s: Seq<char>, i: int)
    requires
        0 <= i <= s.len(),
        parse_uint(s, i) is Some,
    ensures
        i < (parse_uint(s, i)->0).1 <= s.len(),
{
    lemma_parse_digits_bounds(s, i + 1, digit_val(s[i]));
}

// ---------------------------------------------------------------------------
// The book payload: an object with exactly the members title, author, year.
// ---------------------------------------------------------------------------

/// The members of a book payload seen so far while walking the object.
pub struct BookPartial {
    pub title: Option<Seq<char>>,
    pub author: Option<Seq<char>>,
    pub year: Option<int>,
}

pub open spec fn book_partial_empty() -> BookPartial {
    BookPartial { title: None, author: None, year: None }
}

/// One `key: value` member of a book payload, with the value starting at
/// `i`; rejects unknown and repeated keys and out-of-range years.
pub open spec fn book_member(acc: BookPartial, key: Seq<char>, s: Seq<char>, i: int) -> Option<
    (BookPartial, int),
> {
    if key == "title"@ {
        if acc.title is Some {
            None
        } else {
            match parse_string(s, i) {
                Some((v, j)) => Some((BookPartial { title: Some(v), ..acc }, j)),
                None => None,
            }
        }
    } else if key == "author"@ {
        if acc.author is Some {
            None
        } else {
            match parse_string(s, i) {
                Some((v, j)) => Some((BookPartial { author: Some(v), ..acc }, j)),
                None => None,
            }
        }
    } else if key == "year"@ {
        if acc.year is Some {
            None
        } else {
            match parse_uint(s, i) {
                Some((v, j)) => if v <= u32::MAX as int {
                    Some((BookPartial { year: Some(v), ..acc }, j))
                } else {
                    None
                },
                None => None,
            }
        }
    } else {
        None
    }
}

pub proof fn lemma_book_member_bounds(acc: BookPartial, key: Seq<char>, s: Seq<char>, i: int)
    requires
        0 <= i <= s.len(),
        book_member(acc, key, s, i) is Some,
    ensures
        i < (book_member(acc, key, s, i)->0).1 <= s.len(),
{
    if key == "title"@ || key == "author"@ {
        lemma_parse_string_bounds(s, i);
    } else if key == "year"@ {
        lemma_parse_uint_bounds(s, i);
    }
}

/// The member list of a book payload, starting at a key, up to and
/// including the closing brace.
pub open spec fn parse_book_members(s: Seq<char>, i: int, acc: BookPartial) -> Option<
    (BookPartial, int),
>
    decreases s.len() - i,
{
    if i < 0 || i > s.len() {
        None
    } else {
        match parse_string(s, i) {
            None => None,
            Some((key, j)) => {
                let j1 = skip_ws(s, j);
                if !(j1 < s.len() && s[j1] == ':') {
                    None
                } else {
                    let j2 = skip_ws(s, j1 + 1);
                    match book_member(acc, key, s, j2) {
                        None => None,
                        Some((acc2, j3)) => {
                            let j4 = skip_ws(s, j3);
                            if j4 < s.len() && s[j4] == ',' {
                                proof {
                                    lemma_parse_string_bounds(s, i);
                                    lemma_skip_ws_bounds(s, j);
                                    lemma_skip_ws_bounds(s, j1 + 1);
                                    lemma_book_member_bounds(acc, key, s, j2);
                                    lemma_skip_ws_bounds(s, j3);
                                    lemma_skip_ws_bounds(s, j4 + 1);
                                }
                                parse_book_members(s, skip_ws(s, j4 + 1), acc2)
                            } else if j4 < s.len() && s[j4] == '}' {
                                Some((acc2, j4 + 1))
                            } else {
                                None
                            }
                        },
                    }
                }
            },
        }
    }
}

pub proof fn lemma_parse_book_members_bounds(s: Seq<char>, i: int, acc: BookPartial)
    requires
        parse_book_members(s, i, acc) is Some,
    ensures
        i < (parse_book_members(s, i, acc)->0).1 <= s.len(),
    decreases s.len() - i,
{
    let (key, j) = parse_string(s, i)->0;
    lemma_parse_string_bounds(s, i);
    let j1 = skip_ws(s, j);
    lemma_skip_ws_bounds(s, j);
    let j2 = skip_ws(s, j1 + 1);
    lemma_skip_ws_bounds(s, j1 + 1);
    let (acc2, j3) = book_member(acc, key, s, j2)->0;
    lemma_book_member_bounds(acc, key, s, j2);
    let j4 = skip_ws(s, j3);
    lemma_skip_ws_bounds(s, j3);
    if j4 < s.len() && s[j4] == ',' {
        lemma_skip_ws_bounds(s, j4 + 1);
        lemma_parse_book_members_bounds(s, skip_ws(s, j4 + 1), acc2);
    }
}

/// A whole book payload at `i`: a brace-delimited object that must supply
/// title, author and year exactly once each.
pub open spec fn parse_book(s: Seq<char>, i: int) -> Option<(BookFieldsView, int)> {
    if 0 <= i < s.len() && s[i] == '{' {
        match parse_book_members(s, skip_ws(s, i + 1), book_partial_empty()) {
            Some((acc, k)) => match (acc.title, acc.author, acc.year) {
                (Some(t), Some(a), Some(y)) => Some(
                    (BookFieldsView { title: t, author: a, year: y }, k),
                ),
                _ => None,
            },
            None => None,
        }
    } else {
        None
    }
}

pub proof fn lemma_parse_book_bounds(s: Seq<char>, i: int)
    requires
        0 <= i <= s.len(),
        parse_book(s, i) is Some,
    ensures
        i < (parse_book(s, i)->0).1 <= s.len(),
{
    lemma_skip_ws_bounds(s, i + 1);
    lemma_parse_book_members_bounds(s, skip_ws(s, i + 1), book_partial_empty());
}

// ---------------------------------------------------------------------------
// The top-level message object.
// ---------------------------------------------------------------------------

/// The members of a message seen so far while walking the object.
pub struct MsgPartial {
    pub action: Option<Seq<char>>,
    pub id: Option<int>,
    pub book: Option<BookFieldsView>,
}

pub open spec fn msg_partial_empty() -> MsgPartial {
    MsgPartial { action: None, id: None, book: None }
}

/// One `key: value` member of a message, with the value starting at `i`;
/// rejects unknown and repeated keys and ids beyond the machine range.
pub open spec fn msg_member(acc: MsgPartial, key: Seq<char>, s: Seq<char>, i: int) -> Option<
    (MsgPartial, int),
> {
    if key == "action"@ {
        if acc.action is Some {
            None
        } else {
            match parse_string(s, i) {
                Some((v, j)) => Some((MsgPartial { action: Some(v), ..acc }, j)),
                None => None,
            }
        }
    } else if key == "id"@ {
        if acc.id is Some {
            None
        } else {
            match parse_uint(s, i) {
                Some((v, j)) => if v <= usize::MAX as int {
                    Some((MsgPartial { id: Some(v), ..acc }, j))
                } else {
                    None
                },
                None => None,
            }
        }
    } else if key == "book"@ {
        if acc.book is Some {
            None
        } else {
            match parse_book(s, i) {
                Some((v, j)) => Some((MsgPartial { book: Some(v), ..acc }, j)),
                None => None,
            }
        }
    } else {
        None
    }
}

pub proof fn lemma_msg_member_bounds(acc: MsgPartial, key: Seq<char>, s: Seq<char>, i: int)
    requires
        0 <= i <= s.len(),
        msg_member(acc, key, s, i) is Some,
    ensures
        i < (msg_member(acc, key, s, i)->0).1 <= s.len(),
{
    if key == "action"@ {
        lemma_parse_string_bounds(s, i);
    } else if key == "id"@ {
        lemma_parse_uint_bounds(s, i);
    } else if key == "book"@ {
        lemma_parse_book_bounds(s, i);
    }
}

/// The member list of a message, starting at a key, up to and including
/// the closing brace.
pub open spec fn parse_msg_members(s: Seq<char>, i: int, acc: MsgPartial) -> Option<
    (MsgPartial, int),
>
    decreases s.len() - i,
{
    if i < 0 || i > s.len() {
        None
    } else {
        match parse_string(s, i) {
            None => None,
            Some((key, j)) => {
                let j1 = skip_ws(s, j);
                if !(j1 < s.len() && s[j1] == ':') {
                    None
                } else {
                    let j2 = skip_ws(s, j1 + 1);
                    match msg_member(acc, key, s, j2) {
                        None => None,
                        Some((acc2, j3)) => {
                            let j4 = skip_ws(s, j3);
                            if j4 < s.len() && s[j4] == ',' {
                                proof {
                                    lemma_parse_string_bounds(s, i);
                                    lemma_skip_ws_bounds(s, j);
                                    lemma_skip_ws_bounds(s, j1 + 1);
                                    lemma_msg_member_bounds(acc, key, s, j2);
                                    lemma_skip_ws_bounds(s, j3);
                                    lemma_skip_ws_bounds(s, j4 + 1);
                                }
                                parse_msg_members(s, skip_ws(s, j4 + 1), acc2)
                            } else if j4 < s.len() && s[j4] == '}' {
                                Some((acc2, j4 + 1))
                            } else {
                                None
                            }
                        },
                    }
                }
            },
        }
    }
}

pub proof fn lemma_parse_msg_members_bounds(s: Seq<char>, i: int, acc: MsgPartial)
    requires
        parse_msg_members(s, i, acc) is Some,
    ensures
        i < (parse_msg_members(s, i, acc)->0).1 <= s.len(),
    decreases s.len() - i,
{
    let (key, j) = parse_string(s, i)->0;
    lemma_parse_string_bounds(s, i);
    let j1 = skip_ws(s, j);
    lemma_skip_ws_bounds(s, j);
    let j2 = skip_ws(s, j1 + 1);
    lemma_skip_ws_bounds(s, j1 + 1);
    let (acc2, j3) = msg_member(acc, key, s, j2)->0;
    lemma_msg_member_bounds(acc, key, s, j2);
    let j4 = skip_ws(s, j3);
    lemma_skip_ws_bounds(s, j3);
    if j4 < s.len() && s[j4] == ',' {
        lemma_skip_ws_bounds(s, j4 + 1);
        lemma_parse_msg_members_bounds(s, skip_ws(s, j4 + 1), acc2);
    }
}

/// A whole inbound message: one object, nothing but whitespace around it.
pub open spec fn parse_msg(s: Seq<char>) -> Option<MsgPartial> {
    let i = skip_ws(s, 0);
    if i < s.len() && s[i] == '{' {
        match parse_msg_members(s, skip_ws(s, i + 1), msg_partial_empty()) {
            Some((acc, k)) => if skip_ws(s, k) == s.len() {
                Some(acc)
            } else {
                None
            },
            None => None,
        }
    } else {
        None
    }
}

/// What decoding an inbound text yields: a request, or the error whose
/// text is sent back. Malformed text and unrecognized action tags give
/// `InvalidJson`; a recognized action missing a field it needs gives
/// `InvalidRequest`.
pub open spec fn spec_decode(s: Seq<char>) -> Result<RequestView, WebSocketError> {
    match parse_msg(s) {
        None => Err(WebSocketError::InvalidJson),
        Some(m) => match m.action {
            None => Err(WebSocketError::InvalidJson),
            Some(a) => if a == "get_books"@ {
                Ok(RequestView::GetAll)
            } else if a == "get_book"@ {
                match m.id {
                    Some(id) => Ok(RequestView::GetOne { id }),
                    None => Err(WebSocketError::InvalidRequest),
                }
            } else if a == "add_book"@ {
                match m.book {
                    Some(b) => Ok(RequestView::Add { book: b }),
                    None => Err(WebSocketError::InvalidRequest),
                }
            } else if a == "update_book"@ {
                match (m.id, m.book) {
                    (Some(id), Some(b)) => Ok(RequestView::Update { id, book: b }),
                    _ => Err(WebSocketError::InvalidRequest),
                }
            } else if a == "delete_book"@ {
                match m.id {
                    Some(id) => Ok(RequestView::Delete { id }),
                    None => Err(WebSocketError::InvalidRequest),
                }
            } else {
                Err(WebSocketError::InvalidJson)
            },
        },
    }
}

// ---------------------------------------------------------------------------
// The executable decoder, proved to compute exactly what the grammar says.
// ---------------------------------------------------------------------------

/// Character-for-character equality of two text slices.
fn str_eq(a: &str, b: &str) -> (r: bool)
    ensures
        r == (a@ == b@),
{
    let na = a.unicode_len();
    let nb = b.unicode_len();
    if na != nb {
        return false;
    }
    let mut i: usize = 0;
    while i < na
        invariant
            na == a@.len(),
            nb == b@.len(),
            na == nb,
            i <= na,
            forall|j: int| 0 <= j < i ==> a@[j] == b@[j],
        decreases na - i,
    {
        if a.get_char(i) != b.get_char(i) {
            return false;
        }
        i = i + 1;
    }
    proof {
        assert(a@ =~= b@);
    }
    true
}

/// Whether `c` is whitespace the grammar skips.
fn is_ws_exec(c: char) -> (r: bool)
    ensures
        r == is_json_ws(c),
{
    c == ' ' || c == '\t' || c == '\n' || c == '\r'
}

/// The first index at or after `i` holding a non-whitespace character.
fn skip_ws_exec(s: &str, i: usize, n: usize) -> (r: usize)
    requires
        n == s@.len(),
        i <= n,
    ensures
        r as int == skip_ws(s@, i as int),
        i <= r <= n,
{
    let mut k: usize = i;
    loop
        invariant
            n == s@.len(),
            i <= k <= n,
            skip_ws(s@, i as int) == skip_ws(s@, k as int),
        ensures
            i <= k <= n,
            skip_ws(s@, i as int) == skip_ws(s@, k as int),
            k == n || !is_json_ws(s@[k as int]),
        decreases n - k,
    {
        if k >= n {
            break ;
        }
        let c = s.get_char(k);
        if !is_ws_exec(c) {
            break ;
        }
        k = k + 1;
    }
    k
}

/// The character an escape stands for, as a one-character text.
fn unescape_lit(c: char) -> (r: Option<&'static str>)
    ensures
        match unescape(c) {
            Some(u) => r matches Some(l) && l@ == seq![u],
            None => r is None,
        },
{
    if c == '"' {
        proof {
            reveal_strlit("\"");
        }
        Some("\"")
    } else if c == '\\' {
        proof {
            reveal_strlit("\\");
        }
        Some("\\")
    } else if c == '/' {
        proof {
            reveal_strlit("/");
        }
        Some("/")
    } else if c == 'n' {
        proof {
            reveal_strlit("\n");
        }
        Some("\n")
    } else if c == 't' {
        proof {
            reveal_strlit("\t");
        }
        Some("\t")
    } else if c == 'r' {
        proof {
            reveal_strlit("\r");
        }
        Some("\r")
    } else if c == 'b' {
        proof {
            reveal_strlit("\u{0008}");
        }
        Some("\u{0008}")
    } else if c == 'f' {
        proof {
            reveal_strlit("\u{000C}");
        }
        Some("\u{000C}")
    } else {
        None
    }
}

/// A string literal at `i`, returning its unescaped contents.
fn parse_string_exec(s: &str, i: usize, n: usize) -> (r: Option<(String, usize)>)
    requires
        n == s@.len(),
        i <= n,
    ensures
        match parse_string(s@, i as int) {
            Some((t, j)) => r matches Some(p) && p.0@ == t && p.1 as int == j,
            None => r is None,
        },
{
    if i >= n {
        return None;
    }
    let c0 = s.get_char(i);
    if c0 != '"' {
        return None;
    }
    let mut buf = String::new();
    let mut k: usize = i + 1;
    loop
        invariant
            n == s@.len(),
            i + 1 <= k <= n,
            s@[i as int] == '"',
            match parse_string_body(s@, k as int) {
                Some((t, j)) => parse_string_body(s@, i + 1) matches Some(q) && q.0 == buf@ + t
                    && q.1 == j,
                None => parse_string_body(s@, i + 1) is None,
            },
        decreases n - k,
    {
        if k >= n {
            return None;
        }
        let c = s.get_char(k);
        if c == '"' {
            proof {
                assert(parse_string_body(s@, k as int) == Some::<(Seq<char>, int)>(
                    (Seq::empty(), k + 1),
                ));
                assert(buf@ + Seq::<char>::empty() =~= buf@);
            }
            return Some((buf, k + 1));
        } else if c == '\\' {
            if k + 1 >= n {
                return None;
            }
            let e = s.get_char(k + 1);
            match unescape_lit(e) {
                None => {
                    return None;
                },
                Some(l) => {
                    let ghost b0 = buf@;
                    let ghost u = unescape(s@[k + 1])->0;
                    buf.append(l);
                    proof {
                        if parse_string_body(s@, k + 2) is Some {
                            let (t, j) = parse_string_body(s@, k + 2)->0;
                            assert(parse_string_body(s@, k as int) == Some::<(Seq<char>, int)>(
                                (seq![u] + t, j),
                            ));
                            assert(b0 + (seq![u] + t) =~= (b0 + seq![u]) + t);
                            assert(buf@ =~= b0 + seq![u]);
                        }
                    }
                    k = k + 2;
                },
            }
        } else {
            let ghost b0 = buf@;
            let piece = s.substring_char(k, k + 1);
            buf.append(piece);
            proof {
                assert(piece@ =~= seq![s@[k as int]]);
                if parse_string_body(s@, k + 1) is Some {
                    let (t, j) = parse_string_body(s@, k + 1)->0;
                    assert(parse_string_body(s@, k as int) == Some::<(Seq<char>, int)>(
                        (seq![s@[k as int]] + t, j),
                    ));
                    assert(b0 + (seq![s@[k as int]] + t) =~= (b0 + seq![s@[k as int]]) + t);
                    assert(buf@ =~= b0 + seq![s@[k as int]]);
                }
            }
            k = k + 1;
        }
    }
}

/// A digit run at `i`, rejected when its value does not fit the machine
/// integer range.
fn parse_usize_exec(s: &str, i: usize, n: usize) -> (r: Option<(usize, usize)>)
    requires
        n == s@.len(),
        i <= n,
    ensures
        match parse_uint(s@, i as int) {
            Some((v, j)) => if v <= usize::MAX as int {
                r matches Some(p) && p.0 as int == v && p.1 as int == j
            } else {
                r is None
            },
            None => r is None,
        },
{
    if i >= n {
        return None;
    }
    let c0 = s.get_char(i);
    let u0 = c0 as u32;
    if !(48 <= u0 && u0 <= 57) {
        return None;
    }
    let mut acc: u128 = 0;
    let ghost mut g: int = 0int;
    let mut big: bool = false;
    let mut k: usize = i;
    loop
        invariant
            n == s@.len(),
            i <= k <= n,
            is_digit(s@[i as int]),
            parse_digits(s@, i as int, 0) == parse_digits(s@, k as int, g),
            g >= 0,
            !big ==> acc as int == g && g <= usize::MAX as int,
            big ==> g > usize::MAX as int,
        ensures
            parse_digits(s@, i as int, 0) == (g, k as int),
            g >= 0,
            !big ==> acc as int == g && g <= usize::MAX as int,
            big ==> g > usize::MAX as int,
            k <= n,
        decreases n - k,
    {
        if k >= n {
            break ;
        }
        let c = s.get_char(k);
        let u = c as u32;
        if !(48 <= u && u <= 57) {
            break ;
        }
        let d = (u - 48) as u128;
        let ghost g0 = g;
        proof {
            g = g * 10 + digit_val(s@[k as int]);
            if big {
                assert(g0 * 10 >= g0) by (nonlinear_arith)
                    requires
                        g0 >= 0,
                ;
            }
        }
        if !big {
            let newacc = acc * 10 + d;
            if newacc > (usize::MAX as u128) {
                big = true;
            } else {
                acc = newacc;
            }
        }
        k = k + 1;
    }
    if big {
        None
    } else {
        Some((acc as usize, k))
    }
}

/// The members of a book payload gathered so far by the decoder.
struct BookDraft {
    title: Option<String>,
    author: Option<String>,
    year: Option<u32>,
}

impl View for BookDraft {
    type V = BookPartial;

    closed spec fn view(&self) -> BookPartial {
        BookPartial {
            title: match self.title {
                Some(ref t) => Some(t@),
                None => None,
            },
            author: match self.author {
                Some(ref a) => Some(a@),
                None => None,
            },
            year: match self.year {
                Some(y) => Some(y as int),
                None => None,
            },
        }
    }
}

/// One `key: value` member of a book payload.
fn book_member_exec(key: &String, s: &str, i: usize, n: usize, acc: BookDraft) -> (r: Option<
    (BookDraft, usize),
>)
    requires
        n == s@.len(),
        i <= n,
    ensures
        match book_member(acc@, key@, s@, i as int) {
            Some((a2, j)) => r matches Some(p) && p.0@ == a2 && p.1 as int == j,
            None => r is None,
        },
{
    if str_eq(key.as_str(), "title") {
        if acc.title.is_some() {
            return None;
        }
        match parse_string_exec(s, i, n) {
            Some((v, j)) => Some((BookDraft { title: Some(v), ..acc }, j)),
            None => None,
        }
    } else if str_eq(key.as_str(), "author") {
        if acc.author.is_some() {
            return None;
        }
        match parse_string_exec(s, i, n) {
            Some((v, j)) => Some((BookDraft { author: Some(v), ..acc }, j)),
            None => None,
        }
    } else if str_eq(key.as_str(), "year") {
        if acc.year.is_some() {
            return None;
        }
        match parse_usize_exec(s, i, n) {
            Some((v, j)) => {
                if v > (u32::MAX as usize) {
                    return None;
                }
                Some((BookDraft { year: Some(v as u32), ..acc }, j))
            },
            None => None,
        }
    } else {
        None
    }
}

/// The member list of a book payload, from its first key through the
/// closing brace.
fn parse_book_members_exec(s: &str, i: usize, n: usize, acc: BookDraft) -> (r: Option<
    (BookDraft, usize),
>)
    requires
        n == s@.len(),
        i <= n,
    ensures
        match parse_book_members(s@, i as int, acc@) {
            Some((a2, j)) => r matches Some(p) && p.0@ == a2 && p.1 as int == j,
            None => r is None,
        },
    decreases n - i,
{
    match parse_string_exec(s, i, n) {
        None => None,
        Some((key, j)) => {
            proof {
                lemma_parse_string_bounds(s@, i as int);
            }
            let j1 = skip_ws_exec(s, j, n);
            if j1 >= n {
                return None;
            }
            let c = s.get_char(j1);
            if c != ':' {
                return None;
            }
            let j2 = skip_ws_exec(s, j1 + 1, n);
            let ghost acc0 = acc@;
            match book_member_exec(&key, s, j2, n, acc) {
                None => None,
                Some((acc2, j3)) => {
                    proof {
                        lemma_book_member_bounds(acc0, key@, s@, j2 as int);
                    }
                    let j4 = skip_ws_exec(s, j3, n);
                    if j4 < n {
                        let c2 = s.get_char(j4);
                        if c2 == ',' {
                            let j5 = skip_ws_exec(s, j4 + 1, n);
                            parse_book_members_exec(s, j5, n, acc2)
                        } else if c2 == '}' {
                            Some((acc2, j4 + 1))
                        } else {
                            None
                        }
                    } else {
                        None
                    }
                },
            }
        },
    }
}

/// A whole book payload at `i`.
fn parse_book_exec(s: &str, i: usize, n: usize) -> (r: Option<(BookFields, usize)>)
    requires
        n == s@.len(),
        i <= n,
    ensures
        match parse_book(s@, i as int) {
            Some((b, j)) => r matches Some(p) && p.0@ == b && p.1 as int == j,
            None => r is None,
        },
{
    if i >= n {
        return None;
    }
    let c0 = s.get_char(i);
    if c0 != '{' {
        return None;
    }
    let j = skip_ws_exec(s, i + 1, n);
    let draft = BookDraft { title: None, author: None, year: None };
    match parse_book_members_exec(s, j, n, draft) {
        None => None,
        Some((acc, k)) => match (acc.title, acc.author, acc.year) {
            (Some(t), Some(a), Some(y)) => Some(
                (BookFields { title: t, author: a, year: y }, k),
            ),
            _ => None,
        },
    }
}

/// The members of a message gathered so far by the decoder.
struct MsgDraft {
    action: Option<String>,
    id: Option<usize>,
    book: Option<BookFields>,
}

impl View for MsgDraft {
    type V = MsgPartial;

    closed spec fn view(&self) -> MsgPartial {
        MsgPartial {
            action: match self.action {
                Some(ref a) => Some(a@),
                None => None,
            },
            id: match self.id {
                Some(id) => Some(id as int),
                None => None,
            },
            book: match self.book {
                Some(ref b) => Some(b@),
                None => None,
            },
        }
    }
}

/// One `key: value` member of a message.
fn msg_member_exec(key: &String, s: &str, i: usize, n: usize, acc: MsgDraft) -> (r: Option<
    (MsgDraft, usize),
>)
    requires
        n == s@.len(),
        i <= n,
    ensures
        match msg_member(acc@, key@, s@, i as int) {
            Some((a2, j)) => r matches Some(p) && p.0@ == a2 && p.1 as int == j,
            None => r is None,
        },
{
    if str_eq(key.as_str(), "action") {
        if acc.action.is_some() {
            return None;
        }
        match parse_string_exec(s, i, n) {
            Some((v, j)) => Some((MsgDraft { action: Some(v), ..acc }, j)),
            None => None,
        }
    } else if str_eq(key.as_str(), "id") {
        if acc.id.is_some() {
            return None;
        }
        match parse_usize_exec(s, i, n) {
            Some((v, j)) => Some((MsgDraft { id: Some(v), ..acc }, j)),
            None => None,
        }
    } else if str_eq(key.as_str(), "book") {
        if acc.book.is_some() {
            return None;
        }
        match parse_book_exec(s, i, n) {
            Some((v, j)) => Some((MsgDraft { book: Some(v), ..acc }, j)),
            None => None,
        }
    } else {
        None
    }
}

/// The member list of a message, from its first key through the closing
/// brace.
fn parse_msg_members_exec(s: &str, i: usize, n: usize, acc: MsgDraft) -> (r: Option<
    (MsgDraft, usize),
>)
    requires
        n == s@.len(),
        i <= n,
    ensures
        match parse_msg_members(s@, i as int, acc@) {
            Some((a2, j)) => r matches Some(p) && p.0@ == a2 && p.1 as int == j,
            None => r is None,
        },
    decreases n - i,
{
    match parse_string_exec(s, i, n) {
        None => None,
        Some((key, j)) => {
            proof {
                lemma_parse_string_bounds(s@, i as int);
            }
            let j1 = skip_ws_exec(s, j, n);
            if j1 >= n {
                return None;
            }
            let c = s.get_char(j1);
            if c != ':' {
                return None;
            }
            let j2 = skip_ws_exec(s, j1 + 1, n);
            let ghost acc0 = acc@;
            match msg_member_exec(&key, s, j2, n, acc) {
                None => None,
                Some((acc2, j3)) => {
                    proof {
                        lemma_msg_member_bounds(acc0, key@, s@, j2 as int);
                    }
                    let j4 = skip_ws_exec(s, j3, n);
                    if j4 < n {
                        let c2 = s.get_char(j4);
                        if c2 == ',' {
                            let j5 = skip_ws_exec(s, j4 + 1, n);
                            parse_msg_members_exec(s, j5, n, acc2)
                        } else if c2 == '}' {
                            Some((acc2, j4 + 1))
                        } else {
                            None
                        }
                    } else {
                        None
                    }
                },
            }
        },
    }
}

/// Decodes one inbound text into a request, or into the error whose text
/// is sent straight back.
pub fn decode(text: &str) -> (r: Result<Request, WebSocketError>)
    ensures
        match r {
            Ok(q) => spec_decode(text@) == Ok::<RequestView, WebSocketError>(q@),
            Err(e) => spec_decode(text@) == Err::<RequestView, WebSocketError>(e),
        },
{
    let n = text.unicode_len();
    let i = skip_ws_exec(text, 0, n);
    if i >= n {
        return Err(WebSocketError::InvalidJson);
    }
    let c0 = text.get_char(i);
    if c0 != '{' {
        return Err(WebSocketError::InvalidJson);
    }
    let j = skip_ws_exec(text, i + 1, n);
    let draft = MsgDraft { action: None, id: None, book: None };
    match parse_msg_members_exec(text, j, n, draft) {
        None => Err(WebSocketError::InvalidJson),
        Some((m, k)) => {
            proof {
                lemma_parse_msg_members_bounds(text@, j as int, MsgPartial { action: None, id: None, book: None });
            }
            let e = skip_ws_exec(text, k, n);
            if e != n {
                return Err(WebSocketError::InvalidJson);
            }
            match m.action {
                None => Err(WebSocketError::InvalidJson),
                Some(a) => {
                    if str_eq(a.as_str(), "get_books") {
                        Ok(Request::GetAll)
                    } else if str_eq(a.as_str(), "get_book") {
                        match m.id {
                            Some(id) => Ok(Request::GetOne { id }),
                            None => Err(WebSocketError::InvalidRequest),
                        }
                    } else if str_eq(a.as_str(), "add_book") {
                        match m.book {
                            Some(book) => Ok(Request::Add { book }),
                            None => Err(WebSocketError::InvalidRequest),
                        }
                    } else if str_eq(a.as_str(), "update_book") {
                        match (m.id, m.book) {
                            (Some(id), Some(book)) => Ok(Request::Update { id, book }),
                            _ => Err(WebSocketError::InvalidRequest),
                        }
                    } else if str_eq(a.as_str(), "delete_book") {
                        match m.id {
                            Some(id) => Ok(Request::Delete { id }),
                            None => Err(WebSocketError::InvalidRequest),
                        }
                    } else {
                        Err(WebSocketError::InvalidJson)
                    }
                },
            }
        },
    }
}

// ---------------------------------------------------------------------------
// The outbound side: items and item lists as JSON text, errors and statuses
// as plain text.
// ---------------------------------------------------------------------------

/// The character for one decimal digit.
pub open spec fn digit_char(d: int) -> char {
    if d == 0 {
        '0'
    } else if d == 1 {
        '1'
    } else if d == 2 {
        '2'
    } else if d == 3 {
        '3'
    } else if d == 4 {
        '4'
    } else if d == 5 {
        '5'
    } else if d == 6 {
        '6'
    } else if d == 7 {
        '7'
    } else if d == 8 {
        '8'
    } else {
        '9'
    }
}

/// The decimal text of a nonnegative integer, most significant digit first.
pub open spec fn uint_chars(n: int) -> Seq<char>
    decreases n,
{
    if n < 10 {
        seq![digit_char(n)]
    } else {
        uint_chars(n / 10) + seq![digit_char(n % 10)]
    }
}

/// How one character appears inside an encoded string literal: quote,
/// backslash and the common control characters leave as escapes.
pub open spec fn escape_char(c: char) -> Seq<char> {
    if c == '"' {
        seq!['\\', '"']
    } else if c == '\\' {
        seq!['\\', '\\']
    } else if c == '\n' {
        seq!['\\', 'n']
    } else if c == '\t' {
        seq!['\\', 't']
    } else if c == '\r' {
        seq!['\\', 'r']
    } else if c == '\u{0008}' {
        seq!['\\', 'b']
    } else if c == '\u{000C}' {
        seq!['\\', 'f']
    } else {
        seq![c]
    }
}

/// The body of an encoded string literal.
pub open spec fn escape_string(s: Seq<char>) -> Seq<char>
    decreases s.len(),
{
    if s.len() == 0 {
        Seq::empty()
    } else {
        escape_char(s[0]) + escape_string(s.drop_first())
    }
}

pub proof fn lemma_escape_string_append(a: Seq<char>, b: Seq<char>)
    ensures
        escape_string(a + b) == escape_string(a) + escape_string(b),
    decreases a.len(),
{
    if a.len() == 0 {
        assert(a + b =~= b);
        assert(escape_string(a) + escape_string(b) =~= escape_string(b));
    } else {
        assert((a + b).len() > 0);
        assert((a + b)[0] == a[0]);
        assert((a + b).drop_first() =~= a.drop_first() + b);
        lemma_escape_string_append(a.drop_first(), b);
        assert(escape_char(a[0]) + (escape_string(a.drop_first()) + escape_string(b)) =~= (
        escape_char(a[0]) + escape_string(a.drop_first())) + escape_string(b));
    }
}

/// A complete encoded string literal, quotes included.
pub open spec fn json_string(s: Seq<char>) -> Seq<char> {
    seq!['"'] + escape_string(s) + seq!['"']
}

/// The JSON text of one item.
pub open spec fn book_json(b: BookView) -> Seq<char> {
    "{\"id\":"@ + uint_chars(b.id) + ",\"title\":"@ + json_string(b.title) + ",\"author\":"@
        + json_string(b.author) + ",\"year\":"@ + uint_chars(b.year) + "}"@
}

/// Every item after the first, each preceded by a comma.
pub open spec fn rest_items(s: Seq<BookView>) -> Seq<char>
    decreases s.len(),
{
    if s.len() == 0 {
        Seq::empty()
    } else {
        ","@ + book_json(s[0]) + rest_items(s.drop_first())
    }
}

pub proof fn lemma_rest_items_append(a: Seq<BookView>, b: Seq<BookView>)
    ensures
        rest_items(a + b) == rest_items(a) + rest_items(b),
    decreases a.len(),
{
    if a.len() == 0 {
        assert(a + b =~= b);
        assert(rest_items(a) + rest_items(b) =~= rest_items(b));
    } else {
        assert((a + b)[0] == a[0]);
        assert((a + b).drop_first() =~= a.drop_first() + b);
        lemma_rest_items_append(a.drop_first(), b);
        assert((","@ + book_json(a[0])) + (rest_items(a.drop_first()) + rest_items(b)) =~= ((","@
            + book_json(a[0])) + rest_items(a.drop_first())) + rest_items(b));
        assert(","@ + book_json(a[0]) + (rest_items(a.drop_first()) + rest_items(b)) =~= (","@
            + book_json(a[0])) + (rest_items(a.drop_first()) + rest_items(b)));
    }
}

/// The JSON text of a whole item list.
pub open spec fn books_json(s: Seq<BookView>) -> Seq<char> {
    if s.len() == 0 {
        "[]"@
    } else {
        "["@ + book_json(s[0]) + rest_items(s.drop_first()) + "]"@
    }
}

/// The fixed reply text of each error.
pub open spec fn error_text(e: WebSocketError) -> Seq<char> {
    match e {
        WebSocketError::InvalidRequest => "Invalid request"@,
        WebSocketError::BookNotFound => "Book not found"@,
        WebSocketError::InvalidJson => "Invalid JSON request"@,
    }
}

impl WebSocketError {
    /// The reply text sent back for this error.
    pub fn message(&self) -> (r: &'static str)
        ensures
            r@ == error_text(*self),
    {
        match self {
            WebSocketError::InvalidRequest => "Invalid request",
            WebSocketError::BookNotFound => "Book not found",
            WebSocketError::InvalidJson => "Invalid JSON request",
        }
    }
}

/// The text of one decimal digit.
fn digit_str(d: u64) -> (r: &'static str)
    requires
        d < 10,
    ensures
        r@ == seq![digit_char(d as int)],
{
    if d == 0 {
        proof {
            reveal_strlit("0");
        }
        "0"
    } else if d == 1 {
        proof {
            reveal_strlit("1");
        }
        "1"
    } else if d == 2 {
        proof {
            reveal_strlit("2");
        }
        "2"
    } else if d == 3 {
        proof {
            reveal_strlit("3");
        }
        "3"
    } else if d == 4 {
        proof {
            reveal_strlit("4");
        }
        "4"
    } else if d == 5 {
        proof {
            reveal_strlit("5");
        }
        "5"
    } else if d == 6 {
        proof {
            reveal_strlit("6");
        }
        "6"
    } else if d == 7 {
        proof {
            reveal_strlit("7");
        }
        "7"
    } else if d == 8 {
        proof {
            reveal_strlit("8");
        }
        "8"
    } else {
        proof {
            reveal_strlit("9");
        }
        "9"
    }
}

/// The decimal text of an unsigned integer.
fn encode_u64(x: u64) -> (r: String)
    ensures
        r@ == uint_chars(x as int),
    decreases x,
{
    if x < 10 {
        String::from_str(digit_str(x))
    } else {
        let mut r = encode_u64(x / 10);
        r.append(digit_str(x % 10));
        r
    }
}

/// Appends the encoded string literal of `v` onto `buf`.
fn append_json_string(buf: &mut String, v: &str)
    ensures
        final(buf)@ == old(buf)@ + json_string(v@),
{
    let ghost b0 = buf@;
    proof {
        reveal_strlit("\"");
    }
    buf.append("\"");
    let n = v.unicode_len();
    let mut i: usize = 0;
    while i < n
        invariant
            n == v@.len(),
            i <= n,
            buf@ == b0 + seq!['"'] + escape_string(v@.take(i as int)),
        decreases n - i,
    {
        let ghost bprev = buf@;
        let c = v.get_char(i);
        if c == '"' {
            proof {
                reveal_strlit("\\\"");
            }
            buf.append("\\\"");
            proof {
                assert(buf@ =~= bprev + escape_char(c));
            }
        } else if c == '\\' {
            proof {
                reveal_strlit("\\\\");
            }
            buf.append("\\\\");
            proof {
                assert(buf@ =~= bprev + escape_char(c));
            }
        } else if c == '\n' {
            proof {
                reveal_strlit("\\n");
            }
            buf.append("\\n");
            proof {
                assert(buf@ =~= bprev + escape_char(c));
            }
        } else if c == '\t' {
            proof {
                reveal_strlit("\\t");
            }
            buf.append("\\t");
            proof {
                assert(buf@ =~= bprev + escape_char(c));
            }
        } else if c == '\r' {
            proof {
                reveal_strlit("\\r");
            }
            buf.append("\\r");
            proof {
                assert(buf@ =~= bprev + escape_char(c));
            }
        } else if c == '\u{0008}' {
            proof {
                reveal_strlit("\\b");
            }
            buf.append("\\b");
            proof {
                assert(buf@ =~= bprev + escape_char(c));
            }
        } else if c == '\u{000C}' {
            proof {
                reveal_strlit("\\f");
            }
            buf.append("\\f");
            proof {
                assert(buf@ =~= bprev + escape_char(c));
            }
        } else {
            let piece = v.substring_char(i, i + 1);
            buf.append(piece);
            proof {
                assert(piece@ =~= seq![v@[i as int]]);
                assert(buf@ =~= bprev + escape_char(c));
            }
        }
        proof {
            assert(v@.take(i + 1) =~= v@.take(i as int) + seq![v@[i as int]]);
            lemma_escape_string_append(v@.take(i as int), seq![v@[i as int]]);
            assert(seq![v@[i as int]].drop_first() =~= Seq::<char>::empty());
            assert(escape_string(Seq::<char>::empty()) == Seq::<char>::empty());
            assert(escape_char(v@[i as int]) + Seq::<char>::empty() =~= escape_char(v@[i as int]));
            assert(escape_string(seq![v@[i as int]]) =~= escape_char(v@[i as int]));
            assert(buf@ =~= b0 + seq!['"'] + escape_string(v@.take(i + 1)));
        }
        i = i + 1;
    }
    proof {
        assert(v@.take(n as int) =~= v@);
        reveal_strlit("\"");
    }
    buf.append("\"");
    proof {
        assert(buf@ =~= b0 + json_string(v@));
    }
}

/// The JSON text of one item.
pub fn encode_book(b: &Book) -> (r: String)
    ensures
        r@ == book_json(b@),
{
    proof {
        reveal_strlit("{\"id\":");
        reveal_strlit(",\"title\":");
        reveal_strlit(",\"author\":");
        reveal_strlit(",\"year\":");
        reveal_strlit("}");
    }
    let mut r = String::from_str("{\"id\":");
    let idtext = encode_u64(b.id as u64);
    r.append(idtext.as_str());
    r.append(",\"title\":");
    append_json_string(&mut r, b.title.as_str());
    r.append(",\"author\":");
    append_json_string(&mut r, b.author.as_str());
    r.append(",\"year\":");
    let yeartext = encode_u64(b.year as u64);
    r.append(yeartext.as_str());
    r.append("}");
    proof {
        assert(r@ =~= book_json(b@));
    }
    r
}

/// The JSON text of a whole item list, in the order given.
pub fn encode_books(v: &Vec<Book>) -> (r: String)
    ensures
        r@ == books_json(book_views(v@)),
{
    let ghost s = book_views(v@);
    proof {
        assert(s.len() == v@.len());
    }
    if v.len() == 0 {
        proof {
            reveal_strlit("[]");
        }
        return String::from_str("[]");
    }
    proof {
        reveal_strlit("[");
        reveal_strlit(",");
        reveal_strlit("]");
        assert(s[0] == v@[0]@);
    }
    let mut r = String::from_str("[");
    let first = encode_book(&v[0]);
    r.append(first.as_str());
    proof {
        assert(s.subrange(1, 1) =~= Seq::<BookView>::empty());
        assert(r@ =~= "["@ + book_json(s[0]) + rest_items(s.subrange(1, 1)));
    }
    let mut i: usize = 1;
    while i < v.len()
        invariant
            1 <= i <= v.len(),
            s == book_views(v@),
            s.len() == v@.len(),
            r@ == "["@ + book_json(s[0]) + rest_items(s.subrange(1, i as int)),
        decreases v.len() - i,
    {
        proof {
            reveal_strlit(",");
        }
        r.append(",");
        let bs = encode_book(&v[i]);
        r.append(bs.as_str());
        proof {
            assert(s[i as int] == v@[i as int]@);
            assert(s.subrange(1, i + 1) =~= s.subrange(1, i as int) + seq![s[i as int]]);
            lemma_rest_items_append(s.subrange(1, i as int), seq![s[i as int]]);
            assert(seq![s[i as int]].drop_first() =~= Seq::<BookView>::empty());
            assert(rest_items(Seq::<BookView>::empty()) == Seq::<char>::empty());
            assert((","@ + book_json(s[i as int])) + Seq::<char>::empty() =~= ","@ + book_json(
                s[i as int],
            ));
            assert(rest_items(seq![s[i as int]]) =~= ","@ + book_json(s[i as int]));
            assert(r@ =~= "["@ + book_json(s[0]) + rest_items(s.subrange(1, i + 1)));
        }
        i = i + 1;
    }
    proof {
        reveal_strlit("]");
    }
    r.append("]");
    proof {
        assert(s.subrange(1, s.len() as int) =~= s.drop_first());
        assert(r@ =~= books_json(s));
    }
    r
}

} // verus!
