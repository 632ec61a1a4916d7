use vstd::prelude::*;

verus! {

/// The classes a path string's characters fall into: an identifier run, a
/// bare digit run, the three punctuation marks, end of input, or anything
/// else.
#[derive(Debug, Clone, Copy, PartialEq, Eq, Structural)]
pub enum TokenKind {
    Ident,
    Index,
    Dot,
    LeftBracket,
    RightBracket,
    Undefined,
    Eof,
}

pub open spec fn is_digit(c: char) -> bool {
    '0' <= c && c <= '9'
}

pub open spec fn is_ident_start(c: char) -> bool {
    ('a' <= c && c <= 'z') || ('A' <= c && c <= 'Z') || c == '_'
}

pub open spec fn is_ident_char(c: char) -> bool {
    is_ident_start(c) || is_digit(c)
}

/// Length of the identifier run at the front of `s`.
pub open spec fn ident_run(s: Seq<char>) -> nat
    decreases s.len(),
{
    if s.len() > 0 && is_ident_char(s[0]) {
        (1 + ident_run(s.drop_first())) as nat
    } else {
        0
    }
}

/// Length of the digit run at the front of `s`.
pub open spec fn digit_run(s: Seq<char>) -> nat
    decreases s.len(),
{
    if s.len() > 0 && is_digit(s[0]) {
        (1 + digit_run(s.drop_first())) as nat
    } else {
        0
    }
}

/// The kind and length of the token at the front of `s`.  An identifier
/// run may not lead with a digit; a digit run is its own token.
pub open spec fn spec_token(s: Seq<char>) -> (TokenKind, nat) {
    if s.len() == 0 {
        (TokenKind::Eof, 0)
    } else if is_ident_start(s[0]) {
        (TokenKind::Ident, ident_run(s))
    } else if is_digit(s[0]) {
        (TokenKind::Index, digit_run(s))
    } else if s[0] == '.' {
        (TokenKind::Dot, 1)
    } else if s[0] == '[' {
        (TokenKind::LeftBracket, 1)
    } else if s[0] == ']' {
        (TokenKind::RightBracket, 1)
    } else {
        (TokenKind::Undefined, 1)
    }
}

pub proof fn lemma_ident_run_bound(s: Seq<char>)
    ensures
        ident_run(s) <= s.len(),
    decreases s.len(),
{
    if s.len() > 0 && is_ident_char(s[0]) {
        lemma_ident_run_bound(s.drop_first());
    }
}

pub proof fn lemma_digit_run_bound(s: Seq<char>)
    ensures
        digit_run(s) <= s.len(),
    decreases s.len(),
{
    if s.len() > 0 && is_digit(s[0]) {
        lemma_digit_run_bound(s.drop_first());
    }
}

/// Every character inside a run satisfies its class, and the run stops at
/// the first character that does not.
pub proof fn lemma_ident_run_chars(s: Seq<char>)
    ensures
        forall|i: int| 0 <= i < ident_run(s) ==> is_ident_char(#[trigger] s[i]),
        ident_run(s) < s.len() ==> !is_ident_char(s[ident_run(s) as int]),
    decreases s.len(),
{
    lemma_ident_run_bound(s);
    if s.len() > 0 && is_ident_char(s[0]) {
        lemma_ident_run_chars(s.drop_first());
        assert forall|i: int| 0 <= i < ident_run(s) implies is_ident_char(#[trigger] s[i]) by {
            if i > 0 {
                assert(is_ident_char(s.drop_first()[i - 1]));
            }
        }
        if ident_run(s) < s.len() {
            assert(!is_ident_char(s.drop_first()[ident_run(s) as int - 1]));
        }
    }
}

pub proof fn lemma_digit_run_chars(s: Seq<char>)
    ensures
        forall|i: int| 0 <= i < digit_run(s) ==> is_digit(#[trigger] s[i]),
        digit_run(s) < s.len() ==> !is_digit(s[digit_run(s) as int]),
    decreases s.len(),
{
    lemma_digit_run_bound(s);
    if s.len() > 0 && is_digit(s[0]) {
        lemma_digit_run_chars(s.drop_first());
        assert forall|i: int| 0 <= i < digit_run(s) implies is_digit(#[trigger] s[i]) by {
            if i > 0 {
                assert(is_digit(s.drop_first()[i - 1]));
            }
        }
        if digit_run(s) < s.len() {
            assert(!is_digit(s.drop_first()[digit_run(s) as int - 1]));
        }
    }
}

pub fn digit_char_exec(c: char) -> (r: bool)
    ensures
        r == is_digit(c),
{
    '0' <= c && c <= '9'
}

pub fn ident_start_char(c: char) -> (r: bool)
    ensures
        r == is_ident_start(c),
{
    ('a' <= c && c <= 'z') || ('A' <= c && c <= 'Z') || c == '_'
}

pub fn ident_char(c: char) -> (r: bool)
    ensures
        r == is_ident_char(c),
{
    ident_start_char(c) || digit_char_exec(c)
}

/// End position of the identifier run starting at `p`.
pub fn scan_ident_run(chars: &Vec<char>, p: usize) -> (r: usize)
    requires
        p <= chars@.len(),
    ensures
        p <= r <= chars@.len(),
        r - p == ident_run(chars@.skip(p as int)),
{
    let mut r = p;
    proof {
        lemma_ident_run_bound(chars@.skip(p as int));
    }
    while r < chars.len() && ident_char(chars[r])
        invariant
            p <= r <= chars@.len(),
            ident_run(chars@.skip(p as int)) == (r - p) + ident_run(chars@.skip(r as int)),
        decreases chars@.len() - r,
    {
        proof {
            assert(chars@.skip(r as int).drop_first() =~= chars@.skip(r as int + 1));
            lemma_ident_run_bound(chars@.skip(r as int + 1));
        }
        r = r + 1;
    }
    r
}

/// End position of the digit run starting at `p`.
pub fn scan_digit_run(chars: &Vec<char>, p: usize) -> (r: usize)
    requires
        p <= chars@.len(),
    ensures
        p <= r <= chars@.len(),
        r - p == digit_run(chars@.skip(p as int)),
{
    let mut r = p;
    proof {
        lemma_digit_run_bound(chars@.skip(p as int));
    }
    while r < chars.len() && digit_char_exec(chars[r])
        invariant
            p <= r <= chars@.len(),
            digit_run(chars@.skip(p as int)) == (r - p) + digit_run(chars@.skip(r as int)),
        decreases chars@.len() - r,
    {
        proof {
            assert(chars@.skip(r as int).drop_first() =~= chars@.skip(r as int + 1));
            lemma_digit_run_bound(chars@.skip(r as int + 1));
        }
        r = r + 1;
    }
    r
}

/// The kind and length of the token starting at `p`.
pub fn token_at(chars: &Vec<char>, p: usize) -> (r: (TokenKind, usize))
    requires
        p <= chars@.len(),
    ensures
        r.0 == spec_token(chars@.skip(p as int)).0,
        r.1 == spec_token(chars@.skip(p as int)).1,
        p + r.1 <= chars@.len(),
{
    let ghost s = chars@.skip(p as int);
    if p == chars.len() {
        (TokenKind::Eof, 0)
    } else {
        let c = chars[p];
        proof {
            assert(s[0] == chars@[p as int]);
        }
        if ident_start_char(c) {
            let e = scan_ident_run(chars, p);
            (TokenKind::Ident, e - p)
        } else if digit_char_exec(c) {
            let e = scan_digit_run(chars, p);
            (TokenKind::Index, e - p)
        } else if c == '.' {
            (TokenKind::Dot, 1)
        } else if c == '[' {
            (TokenKind::LeftBracket, 1)
        } else if c == ']' {
            (TokenKind::RightBracket, 1)
        } else {
            (TokenKind::Undefined, 1)
        }
    }
}

} // verus!
