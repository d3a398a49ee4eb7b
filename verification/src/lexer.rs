//! The tokenizer: source text to tokens.
//!
//! Scanning goes left to right. Whitespace and commas between tokens are
//! skipped. The token that begins at a place is, in this order of
//! preference: the splice-unquote marker `~@`; one of the characters
//! ``[ ] { } ( ) ' ` ~ ^ @``; a string; a comment, from `;` up to the end
//! of the line; or the longest run of characters that are neither
//! whitespace nor one of ``[ ] { } ( ) ' " ` , ;``.
//!
//! A string begins with a double quote and goes up to and including the
//! next double quote. On the way a backslash takes the character after it
//! along, so that this character does not end the string. A string that
//! finds no closing quote ends with the text, or before a backslash that a
//! line feed or nothing follows.
//!
//! Comments are dropped, the other tokens are kept in order.

use crate::text::{from_chars, to_chars};
use vstd::prelude::*;

verus! {

/// Whether `c` is a whitespace character: one that has the Unicode property
/// White_Space.
pub open spec fn is_space(c: char) -> bool {
    ||| '\u{9}' <= c <= '\u{d}'
    ||| c == ' '
    ||| c == '\u{85}'
    ||| c == '\u{a0}'
    ||| c == '\u{1680}'
    ||| '\u{2000}' <= c <= '\u{200a}'
    ||| c == '\u{2028}'
    ||| c == '\u{2029}'
    ||| c == '\u{202f}'
    ||| c == '\u{205f}'
    ||| c == '\u{3000}'
}

/// Whether `c` separates tokens: whitespace or a comma.
pub open spec fn is_blank(c: char) -> bool {
    is_space(c) || c == ','
}

/// Whether `c` alone is a token.
pub open spec fn is_special(c: char) -> bool {
    ||| c == '['
    ||| c == ']'
    ||| c == '{'
    ||| c == '}'
    ||| c == '('
    ||| c == ')'
    ||| c == '\''
    ||| c == '`'
    ||| c == '~'
    ||| c == '^'
    ||| c == '@'
}

/// Whether `c` can stand inside a plain token.
pub open spec fn is_plain(c: char) -> bool {
    &&& !is_space(c)
    &&& c != '['
    &&& c != ']'
    &&& c != '{'
    &&& c != '}'
    &&& c != '('
    &&& c != ')'
    &&& c != '\''
    &&& c != '"'
    &&& c != '`'
    &&& c != ','
    &&& c != ';'
}

/// The first place at or after `i` that holds no separator.
pub open spec fn blank_end(s: Seq<char>, i: int) -> int
    decreases s.len() - i,
{
    if 0 <= i < s.len() && is_blank(s[i]) {
        blank_end(s, i + 1)
    } else {
        i
    }
}

/// The end of the run of plain characters that starts at `i`.
pub open spec fn plain_end(s: Seq<char>, i: int) -> int
    decreases s.len() - i,
{
    if 0 <= i < s.len() && is_plain(s[i]) {
        plain_end(s, i + 1)
    } else {
        i
    }
}

/// The end of the line that holds `i`: the place of the next line feed, or
/// the end of the text.
pub open spec fn line_end(s: Seq<char>, i: int) -> int
    decreases s.len() - i,
{
    if 0 <= i < s.len() && s[i] != '\n' {
        line_end(s, i + 1)
    } else {
        i
    }
}

/// The end of the inside of a string whose inside starts at `i`: the place
/// of the closing quote if there is one. A backslash takes the character
/// after it along, unless that is a line feed or the text ends there: then
/// the string stops before the backslash.
pub open spec fn string_body_end(s: Seq<char>, i: int) -> int
    decreases s.len() - i,
{
    if 0 <= i < s.len() {
        if s[i] == '"' {
            i
        } else if s[i] == '\\' {
            if i + 1 < s.len() && s[i + 1] != '\n' {
                string_body_end(s, i + 2)
            } else {
                i
            }
        } else {
            string_body_end(s, i + 1)
        }
    } else {
        i
    }
}

/// The end of the token that starts at `i`, a place that holds no
/// separator.
pub open spec fn token_end(s: Seq<char>, i: int) -> int {
    if s[i] == '~' && i + 1 < s.len() && s[i + 1] == '@' {
        i + 2
    } else if is_special(s[i]) {
        i + 1
    } else if s[i] == '"' {
        let j = string_body_end(s, i + 1);
        if j < s.len() && s[j] == '"' {
            j + 1
        } else {
            j
        }
    } else if s[i] == ';' {
        line_end(s, i + 1)
    } else {
        plain_end(s, i + 1)
    }
}

/// The tokens of `s` from place `i` on.
pub open spec fn tokens_from(s: Seq<char>, i: int) -> Seq<Seq<char>>
    decreases s.len() - i,
{
    let start = blank_end(s, i);
    let end = token_end(s, start);
    if 0 <= i <= start < end <= s.len() {
        if s[start] == ';' {
            tokens_from(s, end)
        } else {
            seq![s.subrange(start, end)] + tokens_from(s, end)
        }
    } else {
        Seq::empty()
    }
}

/// The tokens of `s`.
pub open spec fn tokens_of(s: Seq<char>) -> Seq<Seq<char>> {
    tokens_from(s, 0)
}

/// The texts of a sequence of strings.
pub open spec fn texts(tokens: Seq<String>) -> Seq<Seq<char>> {
    Seq::new(tokens.len(), |i: int| tokens[i]@)
}

pub proof fn lemma_blank_end(s: Seq<char>, i: int)
    requires
        0 <= i <= s.len(),
    ensures
        i <= blank_end(s, i) <= s.len(),
        blank_end(s, i) < s.len() ==> !is_blank(s[blank_end(s, i)]),
        forall|k: int| i <= k < blank_end(s, i) ==> is_blank(#[trigger] s[k]),
    decreases s.len() - i,
{
    if i < s.len() && is_blank(s[i]) {
        lemma_blank_end(s, i + 1);
    }
}

pub proof fn lemma_plain_end(s: Seq<char>, i: int)
    requires
        0 <= i <= s.len(),
    ensures
        i <= plain_end(s, i) <= s.len(),
        plain_end(s, i) < s.len() ==> !is_plain(s[plain_end(s, i)]),
        forall|k: int| i <= k < plain_end(s, i) ==> is_plain(#[trigger] s[k]),
    decreases s.len() - i,
{
    if i < s.len() && is_plain(s[i]) {
        lemma_plain_end(s, i + 1);
    }
}

pub proof fn lemma_line_end(s: Seq<char>, i: int)
    requires
        0 <= i <= s.len(),
    ensures
        i <= line_end(s, i) <= s.len(),
        line_end(s, i) < s.len() ==> s[line_end(s, i)] == '\n',
        forall|k: int| i <= k < line_end(s, i) ==> #[trigger] s[k] != '\n',
    decreases s.len() - i,
{
    if i < s.len() && s[i] != '\n' {
        lemma_line_end(s, i + 1);
    }
}

pub proof fn lemma_string_body_end(s: Seq<char>, i: int)
    requires
        0 <= i <= s.len(),
    ensures
        i <= string_body_end(s, i) <= s.len(),
    decreases s.len() - i,
{
    if i < s.len() {
        if s[i] == '"' {
        } else if s[i] == '\\' {
            if i + 1 < s.len() && s[i + 1] != '\n' {
                lemma_string_body_end(s, i + 2);
            }
        } else {
            lemma_string_body_end(s, i + 1);
        }
    }
}

/// A token is never empty and ends within the text.
pub proof fn lemma_token_end(s: Seq<char>, i: int)
    requires
        0 <= i < s.len(),
    ensures
        i < token_end(s, i) <= s.len(),
{
    lemma_string_body_end(s, i + 1);
    lemma_line_end(s, i + 1);
    lemma_plain_end(s, i + 1);
}

/// No token is empty, and none is a comment.
pub proof fn lemma_tokens_hold_no_comment(s: Seq<char>, i: int)
    requires
        0 <= i <= s.len(),
    ensures
        forall|k: int|
            0 <= k < tokens_from(s, i).len() ==> (#[trigger] tokens_from(s, i)[k]).len() > 0
                && tokens_from(s, i)[k][0] != ';',
    decreases s.len() - i,
{
    lemma_blank_end(s, i);
    let start = blank_end(s, i);
    if start < s.len() {
        lemma_token_end(s, start);
        let end = token_end(s, start);
        lemma_tokens_hold_no_comment(s, end);
        let rest = tokens_from(s, end);
        if s[start] != ';' {
            let first = s.subrange(start, end);
            assert(first[0] == s[start]);
            assert forall|k: int| 0 <= k < tokens_from(s, i).len() implies (
            #[trigger] tokens_from(s, i)[k]).len() > 0 && tokens_from(s, i)[k][0] != ';' by {
                if k > 0 {
                    assert(tokens_from(s, i)[k] == rest[k - 1]);
                }
            }
        }
    }
}

fn is_space_char(c: char) -> (r: bool)
    ensures
        r == is_space(c),
{
    ('\u{9}' <= c && c <= '\u{d}') || c == ' ' || c == '\u{85}' || c == '\u{a0}' || c
        == '\u{1680}' || ('\u{2000}' <= c && c <= '\u{200a}') || c == '\u{2028}' || c
        == '\u{2029}' || c == '\u{202f}' || c == '\u{205f}' || c == '\u{3000}'
}

fn is_blank_char(c: char) -> (r: bool)
    ensures
        r == is_blank(c),
{
    is_space_char(c) || c == ','
}

fn is_special_char(c: char) -> (r: bool)
    ensures
        r == is_special(c),
{
    c == '[' || c == ']' || c == '{' || c == '}' || c == '(' || c == ')' || c == '\'' || c == '`'
        || c == '~' || c == '^' || c == '@'
}

fn is_plain_char(c: char) -> (r: bool)
    ensures
        r == is_plain(c),
{
    !is_space_char(c) && c != '[' && c != ']' && c != '{' && c != '}' && c != '(' && c != ')' && c
        != '\'' && c != '"' && c != '`' && c != ',' && c != ';'
}

fn scan_blank(chars: &Vec<char>, i: usize) -> (end: usize)
    requires
        i <= chars.len(),
    ensures
        end == blank_end(chars@, i as int),
        i <= end <= chars.len(),
{
    let mut k: usize = i;
    while k < chars.len() && is_blank_char(chars[k])
        invariant
            i <= k <= chars.len(),
            blank_end(chars@, k as int) == blank_end(chars@, i as int),
        decreases chars.len() - k,
    {
        k += 1;
    }
    k
}

fn scan_plain(chars: &Vec<char>, i: usize) -> (end: usize)
    requires
        i <= chars.len(),
    ensures
        end == plain_end(chars@, i as int),
        i <= end <= chars.len(),
{
    let mut k: usize = i;
    while k < chars.len() && is_plain_char(chars[k])
        invariant
            i <= k <= chars.len(),
            plain_end(chars@, k as int) == plain_end(chars@, i as int),
        decreases chars.len() - k,
    {
        k += 1;
    }
    k
}

fn scan_line(chars: &Vec<char>, i: usize) -> (end: usize)
    requires
        i <= chars.len(),
    ensures
        end == line_end(chars@, i as int),
        i <= end <= chars.len(),
{
    let mut k: usize = i;
    while k < chars.len() && chars[k] != '\n'
        invariant
            i <= k <= chars.len(),
            line_end(chars@, k as int) == line_end(chars@, i as int),
        decreases chars.len() - k,
    {
        k += 1;
    }
    k
}

fn scan_string_body(chars: &Vec<char>, i: usize) -> (end: usize)
    requires
        i <= chars.len(),
    ensures
        end == string_body_end(chars@, i as int),
        i <= end <= chars.len(),
{
    let n = chars.len();
    let mut k: usize = i;
    while k < n
        invariant
            i <= k <= n,
            n == chars.len(),
            string_body_end(chars@, k as int) == string_body_end(chars@, i as int),
        ensures
            i <= k <= n,
            k == string_body_end(chars@, i as int),
        decreases n - k,
    {
        let c = chars[k];
        if c == '"' {
            break;
        } else if c == '\\' {
            if k + 1 < n && chars[k + 1] != '\n' {
                k += 2;
            } else {
                break;
            }
        } else {
            k += 1;
        }
    }
    k
}

fn scan_token(chars: &Vec<char>, i: usize) -> (end: usize)
    requires
        i < chars.len(),
    ensures
        end == token_end(chars@, i as int),
        i < end <= chars.len(),
{
    proof {
        lemma_token_end(chars@, i as int);
    }
    let n = chars.len();
    let c = chars[i];
    if c == '~' && i + 1 < n && chars[i + 1] == '@' {
        i + 2
    } else if is_special_char(c) {
        i + 1
    } else if c == '"' {
        let j = scan_string_body(chars, i + 1);
        if j < n && chars[j] == '"' {
            j + 1
        } else {
            j
        }
    } else if c == ';' {
        scan_line(chars, i + 1)
    } else {
        scan_plain(chars, i + 1)
    }
}

/// The tokens of `s`, in order, without the comments.
pub fn tokenize(s: &String) -> (tokens: Vec<String>)
    ensures
        texts(tokens@) == tokens_of(s@),
        forall|k: int|
            0 <= k < tokens.len() ==> (#[trigger] tokens[k])@.len() > 0 && tokens[k]@[0] != ';',
{
    let chars = to_chars(s.as_str());
    let n = chars.len();
    let mut tokens: Vec<String> = Vec::new();
    let mut i: usize = 0;
    while i < n
        invariant
            i <= n,
            n == chars.len(),
            texts(tokens@) + tokens_from(chars@, i as int) == tokens_of(chars@),
        decreases n - i,
    {
        let ghost before = texts(tokens@);
        let start = scan_blank(&chars, i);
        if start >= n {
            assert(tokens_from(chars@, i as int) =~= Seq::empty());
            assert(tokens_from(chars@, n as int) =~= Seq::empty());
            i = n;
        } else {
            let end = scan_token(&chars, start);
            if chars[start] != ';' {
                let token = from_chars(&chars, start, end);
                tokens.push(token);
                assert(texts(tokens@) =~= before + seq![chars@.subrange(start as int, end as int)]);
            }
            assert(texts(tokens@) + tokens_from(chars@, end as int) =~= before + tokens_from(
                chars@,
                i as int,
            ));
            i = end;
        }
    }
    proof {
        assert(tokens_from(chars@, n as int) =~= Seq::empty());
        assert(texts(tokens@) =~= tokens_of(s@));
        lemma_tokens_hold_no_comment(s@, 0);
        assert forall|k: int| 0 <= k < tokens.len() implies (#[trigger] tokens[k])@.len() > 0
            && tokens[k]@[0] != ';' by {
            assert(texts(tokens@)[k] == tokens[k]@);
        }
    }
    tokens
}

} // verus!
