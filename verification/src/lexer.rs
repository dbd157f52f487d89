//! The scanner: turns the raw document text into a flat token stream.
//!
//! At every position a fixed, priority-ordered list of recognizers is tried
//! and the first match wins: comment, quoted string, closing-tag start,
//! opening-tag start, self-closing marker, closing marker, whitespace,
//! newline, attribute key, text.  Tag names and attribute keys are not ended
//! by a fixed delimiter but by a lookahead: the scan stops where another
//! recognizer would match.
//!
//! The spec functions below state this grammar over `Seq<char>`; every
//! executable recognizer is proved to return exactly what its spec function
//! says.

use vstd::prelude::*;
use vstd::string::StrSliceExecFns;

use crate::token::Config;
use crate::token::LexError;
use crate::token::Tok;
use crate::token::Token;

verus! {

// ---------------------------------------------------------------------------
// Character-level predicates
// ---------------------------------------------------------------------------

/// `<!--` stands at position `i`.
pub open spec fn cmt_open_at(s: Seq<char>, i: int) -> bool {
    &&& i + 4 <= s.len()
    &&& s[i] == '<'
    &&& s[i + 1] == '!'
    &&& s[i + 2] == '-'
    &&& s[i + 3] == '-'
}

/// `-->` stands at position `i`.
pub open spec fn cmt_close_at(s: Seq<char>, i: int) -> bool {
    &&& i + 3 <= s.len()
    &&& s[i] == '-'
    &&& s[i + 1] == '-'
    &&& s[i + 2] == '>'
}

/// The first position `j >= i` where `-->` stands, if any.
pub open spec fn find_cmt_close(s: Seq<char>, i: int) -> Option<int>
    decreases s.len() - i,
{
    if i + 3 > s.len() {
        None
    } else if cmt_close_at(s, i) {
        Some(i)
    } else {
        find_cmt_close(s, i + 1)
    }
}

/// The first position `j >= i` holding the character `c`, if any.
pub open spec fn find_char(s: Seq<char>, c: char, i: int) -> Option<int>
    decreases s.len() - i,
{
    if i >= s.len() {
        None
    } else if s[i] == c {
        Some(i)
    } else {
        find_char(s, c, i + 1)
    }
}

// ---------------------------------------------------------------------------
// Which recognizer matches at a position
// ---------------------------------------------------------------------------

/// The comment recognizer matches: `<!--` here and `-->` somewhere after it.
pub open spec fn comment_matches(s: Seq<char>, i: int) -> bool {
    cmt_open_at(s, i) && find_cmt_close(s, i + 4) is Some
}

/// The quoted-string recognizer matches: `"` here and a second `"` after it.
pub open spec fn string_matches(s: Seq<char>, i: int) -> bool {
    i < s.len() && s[i] == '"' && find_char(s, '"', i + 1) is Some
}

/// The opening-tag recognizer matches: any suffix beginning with `<`.
pub open spec fn open_start_matches(s: Seq<char>, i: int) -> bool {
    i < s.len() && s[i] == '<'
}

/// The closing-tag recognizer matches: a suffix beginning with `</`.
pub open spec fn close_start_matches(s: Seq<char>, i: int) -> bool {
    i + 2 <= s.len() && s[i] == '<' && s[i + 1] == '/'
}

/// The self-closing marker `/>` stands at position `i`.
pub open spec fn self_closing_matches(s: Seq<char>, i: int) -> bool {
    i + 2 <= s.len() && s[i] == '/' && s[i + 1] == '>'
}

/// The closing marker `>` stands at position `i`.
pub open spec fn closing_matches(s: Seq<char>, i: int) -> bool {
    i < s.len() && s[i] == '>'
}

/// A single space or tab stands at position `i`.
pub open spec fn whitespace_matches(s: Seq<char>, i: int) -> bool {
    i < s.len() && (s[i] == ' ' || s[i] == '\t')
}

/// A single newline stands at position `i`.
pub open spec fn newline_matches(s: Seq<char>, i: int) -> bool {
    i < s.len() && s[i] == '\n'
}

// ---------------------------------------------------------------------------
// Lookahead-terminated scans
// ---------------------------------------------------------------------------

/// A tag name is ended by whatever the self-closing, closing, comment,
/// whitespace or newline recognizer would accept.
pub open spec fn name_boundary(s: Seq<char>, i: int) -> bool {
    ||| self_closing_matches(s, i)
    ||| closing_matches(s, i)
    ||| comment_matches(s, i)
    ||| whitespace_matches(s, i)
    ||| newline_matches(s, i)
}

/// The first position `>= i` where a tag name ends (the end of input if no
/// boundary follows).
pub open spec fn name_end(s: Seq<char>, i: int) -> int
    decreases s.len() - i,
{
    if i >= s.len() {
        s.len() as int
    } else if name_boundary(s, i) {
        i
    } else {
        name_end(s, i + 1)
    }
}

/// The attribute-key scan bails out where one of these recognizers would
/// match before an `=` is reached.
pub open spec fn key_stop(s: Seq<char>, i: int) -> bool {
    ||| open_start_matches(s, i)
    ||| close_start_matches(s, i)
    ||| self_closing_matches(s, i)
    ||| closing_matches(s, i)
    ||| comment_matches(s, i)
    ||| string_matches(s, i)
}

/// The position of the `=` ending an attribute key scanned from `i`, or
/// `None` if a stopping recognizer or the end of input comes first.
pub open spec fn key_end(s: Seq<char>, i: int) -> Option<int>
    decreases s.len() - i,
{
    if i >= s.len() {
        None
    } else if key_stop(s, i) {
        None
    } else if s[i] == '=' {
        Some(i)
    } else {
        key_end(s, i + 1)
    }
}

/// Text runs up to the next position where one of these recognizers would
/// match.
pub open spec fn text_stop(s: Seq<char>, i: int) -> bool {
    ||| open_start_matches(s, i)
    ||| close_start_matches(s, i)
    ||| self_closing_matches(s, i)
    ||| closing_matches(s, i)
    ||| comment_matches(s, i)
}

/// The first position `>= i` where a text run ends, or `None` if no stopping
/// recognizer follows before the end of input (text must be delimited; bare
/// trailing text is a lexical error).
pub open spec fn text_end(s: Seq<char>, i: int) -> Option<int>
    decreases s.len() - i,
{
    if i >= s.len() {
        None
    } else if text_stop(s, i) {
        Some(i)
    } else {
        text_end(s, i + 1)
    }
}

// ---------------------------------------------------------------------------
// One recognizer each: what token it yields and where scanning resumes
// ---------------------------------------------------------------------------

pub open spec fn spec_comment(s: Seq<char>, i: int) -> Option<(Tok, int)> {
    if cmt_open_at(s, i) {
        match find_cmt_close(s, i + 4) {
            Some(j) => Some((Tok::Comment(s.subrange(i + 4, j)), j + 3)),
            None => None,
        }
    } else {
        None
    }
}

pub open spec fn spec_string(s: Seq<char>, i: int) -> Option<(Tok, int)> {
    if i < s.len() && s[i] == '"' {
        match find_char(s, '"', i + 1) {
            Some(j) => Some((Tok::StringLiteral(s.subrange(i + 1, j)), j + 1)),
            None => None,
        }
    } else {
        None
    }
}

pub open spec fn spec_close_start(s: Seq<char>, i: int) -> Option<(Tok, int)> {
    if close_start_matches(s, i) {
        Some((Tok::TagCloseStart(s.subrange(i + 2, name_end(s, i + 2))), name_end(s, i + 2)))
    } else {
        None
    }
}

pub open spec fn spec_open_start(s: Seq<char>, i: int) -> Option<(Tok, int)> {
    if open_start_matches(s, i) {
        Some((Tok::TagOpenStart(s.subrange(i + 1, name_end(s, i + 1))), name_end(s, i + 1)))
    } else {
        None
    }
}

pub open spec fn spec_self_closing(s: Seq<char>, i: int) -> Option<(Tok, int)> {
    if self_closing_matches(s, i) {
        Some((Tok::TagSelfClosing, i + 2))
    } else {
        None
    }
}

pub open spec fn spec_closing(s: Seq<char>, i: int) -> Option<(Tok, int)> {
    if closing_matches(s, i) {
        Some((Tok::TagClosing, i + 1))
    } else {
        None
    }
}

pub open spec fn spec_whitespace(s: Seq<char>, i: int) -> Option<(Tok, int)> {
    if whitespace_matches(s, i) {
        Some((Tok::Whitespace, i + 1))
    } else {
        None
    }
}

pub open spec fn spec_newline(s: Seq<char>, i: int) -> Option<(Tok, int)> {
    if newline_matches(s, i) {
        Some((Tok::Newline, i + 1))
    } else {
        None
    }
}

pub open spec fn spec_key(s: Seq<char>, i: int) -> Option<(Tok, int)> {
    match key_end(s, i) {
        Some(j) => Some((Tok::Key(s.subrange(i, j)), j + 1)),
        None => None,
    }
}

pub open spec fn spec_text(s: Seq<char>, i: int) -> Option<(Tok, int)> {
    match text_end(s, i) {
        Some(j) => Some((Tok::Text(s.subrange(i, j)), j)),
        None => None,
    }
}

/// The scanner's single step: the first recognizer, in priority order, that
/// matches at position `i`, together with the position where scanning
/// resumes.
pub open spec fn spec_token(s: Seq<char>, i: int) -> Option<(Tok, int)> {
    if spec_comment(s, i) is Some {
        spec_comment(s, i)
    } else if spec_string(s, i) is Some {
        spec_string(s, i)
    } else if spec_close_start(s, i) is Some {
        spec_close_start(s, i)
    } else if spec_open_start(s, i) is Some {
        spec_open_start(s, i)
    } else if spec_self_closing(s, i) is Some {
        spec_self_closing(s, i)
    } else if spec_closing(s, i) is Some {
        spec_closing(s, i)
    } else if spec_whitespace(s, i) is Some {
        spec_whitespace(s, i)
    } else if spec_newline(s, i) is Some {
        spec_newline(s, i)
    } else if spec_key(s, i) is Some {
        spec_key(s, i)
    } else {
        spec_text(s, i)
    }
}

// ---------------------------------------------------------------------------
// Bounds of the scanning functions
// ---------------------------------------------------------------------------

pub proof fn lemma_find_cmt_close(s: Seq<char>, i: int)
    ensures
        match find_cmt_close(s, i) {
            Some(j) => i <= j && j + 3 <= s.len() && cmt_close_at(s, j),
            None => true,
        },
    decreases s.len() - i,
{
    if i + 3 > s.len() {
    } else if cmt_close_at(s, i) {
    } else {
        lemma_find_cmt_close(s, i + 1);
    }
}

pub proof fn lemma_find_char(s: Seq<char>, c: char, i: int)
    ensures
        match find_char(s, c, i) {
            Some(j) => i <= j && j < s.len() && s[j] == c,
            None => true,
        },
    decreases s.len() - i,
{
    if i >= s.len() {
    } else if s[i] == c {
    } else {
        lemma_find_char(s, c, i + 1);
    }
}

pub proof fn lemma_name_end(s: Seq<char>, i: int)
    requires
        i <= s.len(),
    ensures
        i <= name_end(s, i) <= s.len(),
    decreases s.len() - i,
{
    if i >= s.len() {
    } else if name_boundary(s, i) {
    } else {
        lemma_name_end(s, i + 1);
    }
}

pub proof fn lemma_key_end(s: Seq<char>, i: int)
    ensures
        match key_end(s, i) {
            Some(j) => i <= j && j < s.len() && s[j] == '=',
            None => true,
        },
    decreases s.len() - i,
{
    if i >= s.len() {
    } else if key_stop(s, i) {
    } else if s[i] == '=' {
    } else {
        lemma_key_end(s, i + 1);
    }
}

pub proof fn lemma_text_end(s: Seq<char>, i: int)
    ensures
        match text_end(s, i) {
            Some(j) => i <= j && j < s.len() && text_stop(s, j),
            None => true,
        },
    decreases s.len() - i,
{
    if i >= s.len() {
    } else if text_stop(s, i) {
    } else {
        lemma_text_end(s, i + 1);
    }
}

/// A matched token always consumes at least one character and never runs
/// past the end of the input.
pub proof fn lemma_token_advances(s: Seq<char>, i: int)
    ensures
        match spec_token(s, i) {
            Some((t, j)) => i < j && j <= s.len(),
            None => true,
        },
{
    lemma_find_cmt_close(s, i + 4);
    lemma_find_char(s, '"', i + 1);
    lemma_key_end(s, i);
    if close_start_matches(s, i) {
        lemma_name_end(s, i + 2);
    }
    if open_start_matches(s, i) {
        lemma_name_end(s, i + 1);
    }
    if spec_token(s, i) is Some && spec_token(s, i) == spec_text(s, i) && spec_comment(s, i)
        is None && spec_string(s, i) is None && spec_close_start(s, i) is None && spec_open_start(
        s,
        i,
    ) is None && spec_self_closing(s, i) is None && spec_closing(s, i) is None {
        // none of the stopping recognizers matches at `i` itself, so the text
        // run is nonempty
        assert(!text_stop(s, i));
        lemma_text_end(s, i + 1);
    }
}

// ---------------------------------------------------------------------------
// The whole input
// ---------------------------------------------------------------------------

/// The token stream of the whole input from position `i` on, or `None` where
/// the scanner gets stuck.
pub open spec fn spec_tokens(s: Seq<char>, i: int) -> Option<Seq<Tok>>
    decreases s.len() - i,
    via spec_tokens_dec
{
    if i >= s.len() {
        Some(Seq::empty())
    } else {
        match spec_token(s, i) {
            None => None,
            Some((t, j)) => match spec_tokens(s, j) {
                None => None,
                Some(rest) => Some(seq![t] + rest),
            },
        }
    }
}

#[via_fn]
proof fn spec_tokens_dec(s: Seq<char>, i: int) {
    lemma_token_advances(s, i);
}

/// The position at which the scanner gets stuck (the end of input if it does
/// not).
pub open spec fn stuck_at(s: Seq<char>, i: int) -> int
    decreases s.len() - i,
    via stuck_at_dec
{
    if i >= s.len() {
        i
    } else {
        match spec_token(s, i) {
            None => i,
            Some((t, j)) => stuck_at(s, j),
        }
    }
}

#[via_fn]
proof fn stuck_at_dec(s: Seq<char>, i: int) {
    lemma_token_advances(s, i);
}

// ---------------------------------------------------------------------------
// Executable recognizers
// ---------------------------------------------------------------------------

/// The exec result of a recognizer agrees with its spec function.
pub open spec fn tok_eq(r: Option<(Token, usize)>, m: Option<(Tok, int)>) -> bool {
    match (r, m) {
        (Some((t, p)), Some((tk, q))) => t@ == tk && p as int == q,
        (None, None) => true,
        _ => false,
    }
}

/// The first position `>= from` where `-->` stands in `file`, if any.
fn find_marker(file: &str, from: usize) -> (r: Option<usize>)
    requires
        from <= file@.len(),
    ensures
        match r {
            Some(j) => find_cmt_close(file@, from as int) == Some(j as int) && from <= j,
            None => find_cmt_close(file@, from as int) is None,
        },
{
    let n: usize = file.unicode_len();
    let mut i: usize = from;
    while n - i >= 3
        invariant
            from <= i <= n,
            n == file@.len(),
            find_cmt_close(file@, from as int) == find_cmt_close(file@, i as int),
        decreases n - i,
    {
        if file.get_char(i) == '-' && file.get_char(i + 1) == '-' && file.get_char(i + 2) == '>' {
            return Some(i);
        }
        i = i + 1;
    }
    None
}

/// The first position `>= from` holding `c` in `file`, if any.
fn find_char_from(file: &str, c: char, from: usize) -> (r: Option<usize>)
    requires
        from <= file@.len(),
    ensures
        match r {
            Some(j) => find_char(file@, c, from as int) == Some(j as int) && from <= j && j
                < file@.len(),
            None => find_char(file@, c, from as int) is None,
        },
{
    let n: usize = file.unicode_len();
    let mut i: usize = from;
    while i < n
        invariant
            from <= i <= n,
            n == file@.len(),
            find_char(file@, c, from as int) == find_char(file@, c, i as int),
        decreases n - i,
    {
        if file.get_char(i) == c {
            return Some(i);
        }
        i = i + 1;
    }
    None
}

fn lex_comment(file: &str, pos: usize) -> (r: Option<(Token, usize)>)
    requires
        pos <= file@.len(),
    ensures
        tok_eq(r, spec_comment(file@, pos as int)),
{
    let n: usize = file.unicode_len();
    if n - pos >= 4 && file.get_char(pos) == '<' && file.get_char(pos + 1) == '!' && file.get_char(
        pos + 2,
    ) == '-' && file.get_char(pos + 3) == '-' {
        match find_marker(file, pos + 4) {
            Some(j) => {
                proof {
                    lemma_find_cmt_close(file@, pos + 4 as int);
                }
                let contents = file.substring_char(pos + 4, j).to_owned();
                Some((Token::Comment(contents), j + 3))
            },
            None => None,
        }
    } else {
        None
    }
}

fn lex_string(file: &str, pos: usize) -> (r: Option<(Token, usize)>)
    requires
        pos <= file@.len(),
    ensures
        tok_eq(r, spec_string(file@, pos as int)),
{
    let n: usize = file.unicode_len();
    if pos < n && file.get_char(pos) == '"' {
        match find_char_from(file, '"', pos + 1) {
            Some(j) => {
                let contents = file.substring_char(pos + 1, j).to_owned();
                Some((Token::StringLiteral(contents), j + 1))
            },
            None => None,
        }
    } else {
        None
    }
}

/// Does the comment recognizer match at `pos`?
fn comment_would_match(file: &str, pos: usize) -> (r: bool)
    requires
        pos <= file@.len(),
    ensures
        r == comment_matches(file@, pos as int),
{
    let n: usize = file.unicode_len();
    if n - pos >= 4 && file.get_char(pos) == '<' && file.get_char(pos + 1) == '!' && file.get_char(
        pos + 2,
    ) == '-' && file.get_char(pos + 3) == '-' {
        find_marker(file, pos + 4).is_some()
    } else {
        false
    }
}

/// Does one of the recognizers that end a tag name match at `pos`?
fn is_name_boundary(file: &str, pos: usize) -> (r: bool)
    requires
        pos <= file@.len(),
    ensures
        r == name_boundary(file@, pos as int),
{
    let n: usize = file.unicode_len();
    if n - pos >= 2 && file.get_char(pos) == '/' && file.get_char(pos + 1) == '>' {
        return true;
    }
    if pos < n && file.get_char(pos) == '>' {
        return true;
    }
    if comment_would_match(file, pos) {
        return true;
    }
    if pos < n && (file.get_char(pos) == ' ' || file.get_char(pos) == '\t') {
        return true;
    }
    if pos < n && file.get_char(pos) == '\n' {
        return true;
    }
    false
}

/// The lookahead-terminated tag-name scan shared by the opening-tag and
/// closing-tag recognizers: the name runs from `pos + offset` to the first
/// name boundary.
fn lex_tag_open(file: &str, pos: usize, offset: usize) -> (r: (String, usize))
    requires
        pos + offset <= file@.len(),
    ensures
        r.1 as int == name_end(file@, pos + offset as int),
        pos + offset <= r.1 <= file@.len(),
        r.0@ == file@.subrange(pos + offset as int, r.1 as int),
{
    let n: usize = file.unicode_len();
    let start: usize = pos + offset;
    let mut i: usize = start;
    while i < n && !is_name_boundary(file, i)
        invariant
            start <= i <= n,
            n == file@.len(),
            name_end(file@, start as int) == name_end(file@, i as int),
        decreases n - i,
    {
        i = i + 1;
    }
    let name = file.substring_char(start, i).to_owned();
    (name, i)
}

fn lex_tag_open_start(file: &str, pos: usize) -> (r: Option<(Token, usize)>)
    requires
        pos <= file@.len(),
    ensures
        tok_eq(r, spec_open_start(file@, pos as int)),
{
    let n: usize = file.unicode_len();
    if pos < n && file.get_char(pos) == '<' {
        let (name, e) = lex_tag_open(file, pos, 1);
        Some((Token::TagOpenStart(name), e))
    } else {
        None
    }
}

fn lex_tag_close_start(file: &str, pos: usize) -> (r: Option<(Token, usize)>)
    requires
        pos <= file@.len(),
    ensures
        tok_eq(r, spec_close_start(file@, pos as int)),
{
    let n: usize = file.unicode_len();
    if n - pos >= 2 && file.get_char(pos) == '<' && file.get_char(pos + 1) == '/' {
        let (name, e) = lex_tag_open(file, pos, 2);
        Some((Token::TagCloseStart(name), e))
    } else {
        None
    }
}

fn lex_tag_self_closing(file: &str, pos: usize) -> (r: Option<(Token, usize)>)
    requires
        pos <= file@.len(),
    ensures
        tok_eq(r, spec_self_closing(file@, pos as int)),
{
    let n: usize = file.unicode_len();
    if n - pos >= 2 && file.get_char(pos) == '/' && file.get_char(pos + 1) == '>' {
        Some((Token::TagSelfClosing, pos + 2))
    } else {
        None
    }
}

fn lex_tag_closing(file: &str, pos: usize) -> (r: Option<(Token, usize)>)
    requires
        pos <= file@.len(),
    ensures
        tok_eq(r, spec_closing(file@, pos as int)),
{
    let n: usize = file.unicode_len();
    if pos < n && file.get_char(pos) == '>' {
        Some((Token::TagClosing, pos + 1))
    } else {
        None
    }
}

fn lex_whitespace(file: &str, pos: usize) -> (r: Option<(Token, usize)>)
    requires
        pos <= file@.len(),
    ensures
        tok_eq(r, spec_whitespace(file@, pos as int)),
{
    let n: usize = file.unicode_len();
    if pos < n && (file.get_char(pos) == ' ' || file.get_char(pos) == '\t') {
        Some((Token::Whitespace, pos + 1))
    } else {
        None
    }
}

fn lex_newline(file: &str, pos: usize) -> (r: Option<(Token, usize)>)
    requires
        pos <= file@.len(),
    ensures
        tok_eq(r, spec_newline(file@, pos as int)),
{
    let n: usize = file.unicode_len();
    if pos < n && file.get_char(pos) == '\n' {
        Some((Token::Newline, pos + 1))
    } else {
        None
    }
}

/// Does one of the recognizers that end an attribute-key scan match at `pos`?
fn is_key_stop(file: &str, pos: usize) -> (r: bool)
    requires
        pos <= file@.len(),
    ensures
        r == key_stop(file@, pos as int),
{
    let n: usize = file.unicode_len();
    if pos < n && file.get_char(pos) == '<' {
        return true;
    }
    if n - pos >= 2 && file.get_char(pos) == '/' && file.get_char(pos + 1) == '>' {
        return true;
    }
    if pos < n && file.get_char(pos) == '>' {
        return true;
    }
    if comment_would_match(file, pos) {
        return true;
    }
    if pos < n && file.get_char(pos) == '"' {
        if find_char_from(file, '"', pos + 1).is_some() {
            return true;
        }
    }
    proof {
        // a closing-tag start begins with `<`, which was already tested
        assert(!close_start_matches(file@, pos as int));
    }
    false
}

fn lex_key(file: &str, pos: usize) -> (r: Option<(Token, usize)>)
    requires
        pos <= file@.len(),
    ensures
        tok_eq(r, spec_key(file@, pos as int)),
{
    let n: usize = file.unicode_len();
    let mut i: usize = pos;
    loop
        invariant
            pos <= i <= n,
            n == file@.len(),
            key_end(file@, pos as int) == key_end(file@, i as int),
        decreases n - i,
    {
        if i >= n {
            return None;
        }
        if is_key_stop(file, i) {
            return None;
        }
        if file.get_char(i) == '=' {
            let name = file.substring_char(pos, i).to_owned();
            return Some((Token::Key(name), i + 1));
        }
        i = i + 1;
    }
}

/// Does one of the recognizers that end a text run match at `pos`?
fn is_text_stop(file: &str, pos: usize) -> (r: bool)
    requires
        pos <= file@.len(),
    ensures
        r == text_stop(file@, pos as int),
{
    let n: usize = file.unicode_len();
    if pos < n && file.get_char(pos) == '<' {
        return true;
    }
    if n - pos >= 2 && file.get_char(pos) == '/' && file.get_char(pos + 1) == '>' {
        return true;
    }
    if pos < n && file.get_char(pos) == '>' {
        return true;
    }
    if comment_would_match(file, pos) {
        return true;
    }
    proof {
        assert(!close_start_matches(file@, pos as int));
    }
    false
}

fn lex_text(file: &str, pos: usize) -> (r: Option<(Token, usize)>)
    requires
        pos <= file@.len(),
    ensures
        tok_eq(r, spec_text(file@, pos as int)),
{
    let n: usize = file.unicode_len();
    let mut i: usize = pos;
    loop
        invariant
            pos <= i <= n,
            n == file@.len(),
            text_end(file@, pos as int) == text_end(file@, i as int),
        decreases n - i,
    {
        if i >= n {
            return None;
        }
        if is_text_stop(file, i) {
            let contents = file.substring_char(pos, i).to_owned();
            return Some((Token::Text(contents), i));
        }
        i = i + 1;
    }
}

/// One scanner step at `pos`: the recognizers in priority order.
fn lex_token_at(file: &str, pos: usize) -> (r: Option<(Token, usize)>)
    requires
        pos <= file@.len(),
    ensures
        tok_eq(r, spec_token(file@, pos as int)),
{
    let r = lex_comment(file, pos);
    if r.is_some() {
        return r;
    }
    let r = lex_string(file, pos);
    if r.is_some() {
        return r;
    }
    let r = lex_tag_close_start(file, pos);
    if r.is_some() {
        return r;
    }
    let r = lex_tag_open_start(file, pos);
    if r.is_some() {
        return r;
    }
    let r = lex_tag_self_closing(file, pos);
    if r.is_some() {
        return r;
    }
    let r = lex_tag_closing(file, pos);
    if r.is_some() {
        return r;
    }
    let r = lex_whitespace(file, pos);
    if r.is_some() {
        return r;
    }
    let r = lex_newline(file, pos);
    if r.is_some() {
        return r;
    }
    let r = lex_key(file, pos);
    if r.is_some() {
        return r;
    }
    lex_text(file, pos)
}

/// Scan a single token from the front of `file`.
///
/// Returns the token and the unconsumed remainder, or the remainder itself
/// as a lexical error where no recognizer matches.
pub fn lex_token(file: String) -> (r: Result<(Token, String), LexError>)
    ensures
        match r {
            Ok((t, rem)) => {
                &&& spec_token(file@, 0) matches Some((tk, p)) && t@ == tk && rem@
                    == file@.subrange(p, file@.len() as int)
            },
            Err(LexError::UnexpectedString(u)) => {
                &&& spec_token(file@, 0) is None
                &&& u@ == file@
            },
        },
{
    let s = file.as_str();
    match lex_token_at(s, 0) {
        Some((t, p)) => {
            proof {
                lemma_token_advances(file@, 0);
            }
            let rem = s.substring_char(p, s.unicode_len()).to_owned();
            Ok((t, rem))
        },
        None => Err(LexError::UnexpectedString(file)),
    }
}

/// Scan the whole input into a token stream.
///
/// Succeeds exactly where `spec_tokens` is defined on the input, and then
/// returns exactly the tokens that `spec_tokens` names; fails with the
/// unconsumed remainder where the scanner gets stuck.
pub fn lex_tokens(file: String, config: Config) -> (r: Result<Vec<Token>, LexError>)
    ensures
        match r {
            Ok(ts) => spec_tokens(file@, 0) == Some(ts.deep_view()),
            Err(LexError::UnexpectedString(u)) => {
                &&& spec_tokens(file@, 0) is None
                &&& u@ == file@.subrange(stuck_at(file@, 0), file@.len() as int)
            },
        },
{
    let s = file.as_str();
    let n: usize = s.unicode_len();
    let mut tokens: Vec<Token> = Vec::new();
    let mut pos: usize = 0;
    while pos < n
        invariant
            0 <= pos <= n,
            n == file@.len(),
            s@ == file@,
            match spec_tokens(file@, pos as int) {
                Some(rest) => spec_tokens(file@, 0) == Some(tokens.deep_view() + rest),
                None => spec_tokens(file@, 0) is None,
            },
            stuck_at(file@, 0) == stuck_at(file@, pos as int),
        decreases n - pos,
    {
        match lex_token_at(s, pos) {
            Some((t, p)) => {
                proof {
                    lemma_token_advances(file@, pos as int);
                }
                let ghost old_tokens = tokens.deep_view();
                tokens.push(t);
                proof {
                    assert(tokens.deep_view() =~= old_tokens.push(t@));
                    if spec_tokens(file@, p as int) is Some {
                        let rest = spec_tokens(file@, p as int)->Some_0;
                        assert(old_tokens + (seq![t@] + rest) =~= tokens.deep_view() + rest);
                    }
                }
                pos = p;
            },
            None => {
                let u = s.substring_char(pos, n).to_owned();
                return Err(LexError::UnexpectedString(u));
            },
        }
    }
    proof {
        assert(spec_tokens(file@, pos as int) == Some(Seq::<Tok>::empty()));
        assert(tokens.deep_view() + Seq::<Tok>::empty() =~= tokens.deep_view());
    }
    Ok(tokens)
}

} // verus!
