use vstd::prelude::*;

use crate::field_name::FieldName;
use crate::field_name::FieldNames;
use crate::field_name::PathComp;
use crate::field_name::comps_of;
use crate::field_name::dec_uint;
use crate::field_name::digit_char;
use crate::field_name::render_comp;
use crate::field_name::spec_render;
use crate::lexer::TokenKind;
use crate::lexer::digit_run;
use crate::lexer::ident_run;
use crate::lexer::is_digit;
use crate::lexer::is_ident_char;
use crate::lexer::is_ident_start;
use crate::lexer::lemma_digit_run_bound;
use crate::lexer::lemma_digit_run_chars;
use crate::lexer::lemma_ident_run_bound;
use crate::lexer::lemma_ident_run_chars;
use crate::lexer::spec_token;
use crate::lexer::token_at;

verus! {

/// What taking the next component from the front of a path string yields:
/// one component and the number of characters consumed (its own text plus
/// the separating dot, when one follows), clean end of input, or a syntax
/// error.
pub enum NextName {
    Item(PathComp, nat),
    Finished,
    Fail,
}

/// The numeric value of one decimal digit character.
pub open spec fn digit_val(c: char) -> int {
    c as int - '0' as int
}

/// The numeric value of a digit string, most significant digit first.
pub open spec fn dec_val(digs: Seq<char>) -> int
    decreases digs.len(),
{
    if digs.len() == 0 {
        0
    } else {
        dec_val(digs.drop_last()) * 10 + digit_val(digs.last())
    }
}

/// Consuming the separating dot after a component: no dot consumes
/// nothing; a dot at the very end or directly before `[` is a syntax
/// error; otherwise one character is consumed.
pub open spec fn spec_eat_dot(s: Seq<char>) -> Option<nat> {
    if s.len() > 0 && s[0] == '.' {
        if s.len() == 1 {
            Option::None
        } else if s[1] == '[' {
            Option::None
        } else {
            Option::Some(1 as nat)
        }
    } else {
        Option::Some(0 as nat)
    }
}

/// What may follow a numeric component or a closing bracket: a dot, an
/// opening bracket, or the end of the string.
pub open spec fn spec_follow_ok(s: Seq<char>) -> bool {
    s.len() == 0 || s[0] == '.' || s[0] == '['
}

/// The bracket group at the front of `s` (which starts with `[`): digits
/// then `]` yield a sequence index, an identifier then `]` yields a named
/// enum-payload field; anything else is a syntax error.
pub open spec fn spec_bracket(s: Seq<char>) -> NextName {
    let t = s.skip(1);
    let (k, l) = spec_token(t);
    if k == TokenKind::Index {
        if spec_token(t.skip(l as int)).0 != TokenKind::RightBracket {
            NextName::Fail
        } else if dec_val(t.take(l as int)) > usize::MAX as int {
            NextName::Fail
        } else if !spec_follow_ok(t.skip(l as int + 1)) {
            NextName::Fail
        } else {
            match spec_eat_dot(t.skip(l as int + 1)) {
                Option::Some(d) => NextName::Item(
                    PathComp::Array(dec_val(t.take(l as int))),
                    (2 + l + d) as nat,
                ),
                Option::None => NextName::Fail,
            }
        }
    } else if k == TokenKind::Ident {
        if spec_token(t.skip(l as int)).0 != TokenKind::RightBracket {
            NextName::Fail
        } else if !spec_follow_ok(t.skip(l as int + 1)) {
            NextName::Fail
        } else {
            match spec_eat_dot(t.skip(l as int + 1)) {
                Option::Some(d) => NextName::Item(
                    PathComp::StructVariant(t.take(l as int)),
                    (2 + l + d) as nat,
                ),
                Option::None => NextName::Fail,
            }
        }
    } else {
        NextName::Fail
    }
}

/// Taking the next component from the front of a path string.
pub open spec fn spec_next_name(s: Seq<char>) -> NextName {
    let (k, l) = spec_token(s);
    if k == TokenKind::Eof {
        NextName::Finished
    } else if k == TokenKind::Ident {
        match spec_eat_dot(s.skip(l as int)) {
            Option::Some(d) => NextName::Item(PathComp::Literal(s.take(l as int)), (l + d) as nat),
            Option::None => NextName::Fail,
        }
    } else if k == TokenKind::Index {
        if dec_val(s.take(l as int)) > u8::MAX as int {
            NextName::Fail
        } else if !spec_follow_ok(s.skip(l as int)) {
            NextName::Fail
        } else {
            match spec_eat_dot(s.skip(l as int)) {
                Option::Some(d) => NextName::Item(
                    PathComp::Tuple(dec_val(s.take(l as int))),
                    (l + d) as nat,
                ),
                Option::None => NextName::Fail,
            }
        }
    } else if k == TokenKind::LeftBracket {
        spec_bracket(s)
    } else {
        NextName::Fail
    }
}

/// A taken component consumes at least one and at most all characters.
pub proof fn lemma_next_name_bounds(s: Seq<char>)
    ensures
        spec_next_name(s) matches NextName::Item(_, k) ==> 1 <= k <= s.len(),
{
    let (kind, l) = spec_token(s);
    if kind == TokenKind::Ident {
        lemma_ident_run_bound(s);
    } else if kind == TokenKind::Index {
        lemma_digit_run_bound(s);
    } else if kind == TokenKind::LeftBracket {
        let t = s.skip(1);
        let (k2, l2) = spec_token(t);
        if k2 == TokenKind::Index {
            lemma_digit_run_bound(t);
            if spec_token(t.skip(l2 as int)).0 == TokenKind::RightBracket {
                assert(t.skip(l2 as int).len() > 0);
            }
        } else if k2 == TokenKind::Ident {
            lemma_ident_run_bound(t);
            if spec_token(t.skip(l2 as int)).0 == TokenKind::RightBracket {
                assert(t.skip(l2 as int).len() > 0);
            }
        }
    }
}

/// The components of a whole path string, or `None` on a syntax error.
pub open spec fn spec_parse(s: Seq<char>) -> Option<Seq<PathComp>>
    decreases s.len(),
{
    match spec_next_name(s) {
        NextName::Finished => Option::Some(Seq::empty()),
        NextName::Fail => Option::None,
        NextName::Item(c, k) => {
            if 1 <= k <= s.len() {
                match spec_parse(s.skip(k as int)) {
                    Option::Some(rest) => Option::Some(seq![c] + rest),
                    Option::None => Option::None,
                }
            } else {
                Option::None
            }
        },
    }
}

} // verus!

verus! {

/// One step of the positional fold behind `dec_val`.
proof fn lemma_dec_val_step(s: Seq<char>, i: int)
    requires
        0 <= i < s.len(),
    ensures
        dec_val(s.take(i + 1)) == dec_val(s.take(i)) * 10 + digit_val(s[i]),
{
    assert(s.take(i + 1).drop_last() =~= s.take(i));
}

proof fn lemma_dec_val_nonneg(s: Seq<char>)
    requires
        forall|i: int| 0 <= i < s.len() ==> is_digit(#[trigger] s[i]),
    ensures
        dec_val(s) >= 0,
    decreases s.len(),
{
    if s.len() > 0 {
        assert(forall|i: int|
            0 <= i < s.drop_last().len() ==> is_digit(#[trigger] s.drop_last()[i]));
        lemma_dec_val_nonneg(s.drop_last());
    }
}

/// Once a digit prefix exceeds a bound, the whole digit string does.
proof fn lemma_dec_val_grows(s: Seq<char>, i: int, bound: int)
    requires
        forall|k: int| 0 <= k < s.len() ==> is_digit(#[trigger] s[k]),
        0 <= i <= s.len(),
        bound >= 0,
        dec_val(s.take(i)) > bound,
    ensures
        dec_val(s) > bound,
    decreases s.len() - i,
{
    if i == s.len() {
        assert(s.take(i) =~= s);
    } else {
        lemma_dec_val_step(s, i);
        assert(forall|k: int| 0 <= k < s.take(i).len() ==> is_digit(#[trigger] s.take(i)[k]));
        lemma_dec_val_nonneg(s.take(i));
        assert(dec_val(s.take(i + 1)) > bound) by {
            let x = dec_val(s.take(i));
            assert(x >= 1);
            assert(x * 10 >= x) by (nonlinear_arith)
                requires
                    x >= 1,
            ;
            assert(digit_val(s[i]) >= 0);
        }
        lemma_dec_val_grows(s, i + 1, bound);
    }
}

/// Parses the digit run `chars[from..to]` as a `u8`; `None` when the
/// value does not fit.
fn parse_digits_u8(chars: &Vec<char>, from: usize, to: usize) -> (r: Option<u8>)
    requires
        from <= to <= chars@.len(),
        forall|i: int| from <= i < to ==> is_digit(#[trigger] chars@[i]),
    ensures
        match r {
            Option::Some(v) => v as int == dec_val(chars@.subrange(from as int, to as int)),
            Option::None => dec_val(chars@.subrange(from as int, to as int)) > u8::MAX as int,
        },
{
    let ghost digs = chars@.subrange(from as int, to as int);
    proof {
        assert(forall|i: int| 0 <= i < digs.len() ==> is_digit(#[trigger] digs[i]));
    }
    let mut acc: u32 = 0;
    let mut i = from;
    proof {
        assert(digs.take(0) =~= Seq::<char>::empty());
    }
    while i < to
        invariant
            from <= i <= to <= chars@.len(),
            digs == chars@.subrange(from as int, to as int),
            forall|k: int| 0 <= k < digs.len() ==> is_digit(#[trigger] digs[k]),
            acc <= u8::MAX,
            acc as int == dec_val(digs.take(i - from)),
        decreases to - i,
    {
        let c = chars[i];
        proof {
            assert(digs[i - from] == chars@[i as int]);
        }
        let d: u32 = (c as u32) - ('0' as u32);
        let next: u32 = acc * 10 + d;
        proof {
            lemma_dec_val_step(digs, i - from);
            assert(digit_val(c) == d);
        }
        if next > 255 {
            proof {
                lemma_dec_val_grows(digs, i - from + 1, u8::MAX as int);
            }
            return None;
        }
        acc = next;
        i = i + 1;
    }
    proof {
        assert(digs.take(to - from) =~= digs);
    }
    Some(acc as u8)
}

/// Parses the digit run `chars[from..to]` as a `usize`; `None` when the
/// value does not fit.
fn parse_digits_usize(chars: &Vec<char>, from: usize, to: usize) -> (r: Option<usize>)
    requires
        from <= to <= chars@.len(),
        forall|i: int| from <= i < to ==> is_digit(#[trigger] chars@[i]),
    ensures
        match r {
            Option::Some(v) => v as int == dec_val(chars@.subrange(from as int, to as int)),
            Option::None => dec_val(chars@.subrange(from as int, to as int)) > usize::MAX as int,
        },
{
    let ghost digs = chars@.subrange(from as int, to as int);
    proof {
        assert(forall|i: int| 0 <= i < digs.len() ==> is_digit(#[trigger] digs[i]));
    }
    let mut acc: u128 = 0;
    let mut i = from;
    proof {
        assert(digs.take(0) =~= Seq::<char>::empty());
    }
    while i < to
        invariant
            from <= i <= to <= chars@.len(),
            digs == chars@.subrange(from as int, to as int),
            forall|k: int| 0 <= k < digs.len() ==> is_digit(#[trigger] digs[k]),
            acc <= usize::MAX as u128,
            acc as int == dec_val(digs.take(i - from)),
        decreases to - i,
    {
        let c = chars[i];
        proof {
            assert(digs[i - from] == chars@[i as int]);
        }
        let d: u128 = (c as u128) - ('0' as u128);
        let next: u128 = acc * 10 + d;
        proof {
            lemma_dec_val_step(digs, i - from);
            assert(digit_val(c) == d);
        }
        if next > (usize::MAX as u128) {
            proof {
                lemma_dec_val_grows(digs, i - from + 1, usize::MAX as int);
            }
            return None;
        }
        acc = next;
        i = i + 1;
    }
    proof {
        assert(digs.take(to - from) =~= digs);
    }
    Some(acc as usize)
}

/// The characters of a string, in order.
pub fn str_to_chars(s: &str) -> (r: Vec<char>)
    ensures
        r@ == s@,
{
    let n = s.unicode_len();
    let mut v: Vec<char> = Vec::new();
    let mut i: usize = 0;
    proof {
        assert(v@ =~= s@.subrange(0, 0));
    }
    while i < n
        invariant
            i <= n,
            n == s@.len(),
            v@ == s@.subrange(0, i as int),
        decreases n - i,
    {
        let c = s.get_char(i);
        v.push(c);
        proof {
            assert(v@ =~= s@.subrange(0, i as int + 1));
        }
        i = i + 1;
    }
    proof {
        assert(v@ =~= s@);
    }
    v
}

/// The single-pass descent over one path string: a cursor over the
/// characters plus the source for extracting names.
pub struct Parser {
    pub source: String,
    pub chars: Vec<char>,
    pub pos: usize,
}

impl Parser {
    /// The cursor stays inside the character sequence of the source.
    pub open spec fn wf(self) -> bool {
        self.chars@ == self.source@ && self.pos <= self.chars@.len()
    }

    /// The characters not yet consumed.
    pub open spec fn remaining(self) -> Seq<char> {
        self.chars@.skip(self.pos as int)
    }

    pub fn new(source: &str) -> (r: Self)
        ensures
            r.wf(),
            r.remaining() == source@,
    {
        let chars = str_to_chars(source);
        let r = Parser { source: source.to_owned(), chars, pos: 0 };
        proof {
            assert(r.remaining() =~= source@);
        }
        r
    }

    /// Consumes the separating dot, when one follows; a dot at the end of
    /// the string or directly before `[` is a syntax error.
    fn eat_dot(&mut self) -> (r: Result<(), String>)
        requires
            old(self).wf(),
        ensures
            final(self).wf(),
            final(self).chars@ == old(self).chars@,
            final(self).source@ == old(self).source@,
            match r {
                Result::Ok(_) => spec_eat_dot(old(self).remaining()) matches Option::Some(d)
                    && final(self).remaining() == old(self).remaining().skip(d as int),
                Result::Err(_) => spec_eat_dot(old(self).remaining()) is None,
            },
    {
        let ghost rem = self.remaining();
        let n = self.chars.len();
        let (kind, _l) = token_at(&self.chars, self.pos);
        if kind == TokenKind::Dot {
            let (kind2, _l2) = token_at(&self.chars, self.pos + 1);
            proof {
                assert(self.chars@.skip(self.pos as int + 1) =~= rem.skip(1));
                if rem.len() > 1 {
                    assert(rem.skip(1)[0] == rem[1]);
                }
            }
            if kind2 == TokenKind::Eof {
                return Err("`.` should not be end".to_owned());
            }
            if kind2 == TokenKind::LeftBracket {
                return Err("after `.` should not be `[`".to_owned());
            }
            self.pos = self.pos + 1;
            Ok(())
        } else {
            proof {
                assert(rem.skip(0) =~= rem);
            }
            Ok(())
        }
    }

    /// Whether the next token may follow a numeric component or a closing
    /// bracket: a dot, an opening bracket, or the end.
    fn follow_ok(&self) -> (r: bool)
        requires
            self.wf(),
        ensures
            r == spec_follow_ok(self.remaining()),
    {
        let (kind, _l) = token_at(&self.chars, self.pos);
        kind == TokenKind::Dot || kind == TokenKind::LeftBracket || kind == TokenKind::Eof
    }

    /// Parses a bracket group `[0]` or `[abc]`, with what must follow it.
    fn parse_bracket(&mut self) -> (r: Result<FieldName, String>)
        requires
            old(self).wf(),
            old(self).remaining().len() > 0,
            old(self).remaining()[0] == '[',
        ensures
            final(self).wf(),
            match r {
                Result::Ok(f) => spec_bracket(old(self).remaining()) matches NextName::Item(c, k)
                    && c == f@ && final(self).remaining() == old(self).remaining().skip(k as int),
                Result::Err(_) => spec_bracket(old(self).remaining()) is Fail,
            },
    {
        let ghost rem = self.remaining();
        let ghost t = rem.skip(1);
        let n = self.chars.len();
        let start = self.pos + 1;
        let (kind, l) = token_at(&self.chars, start);
        proof {
            assert(self.chars@.skip(start as int) =~= t);
        }
        if kind == TokenKind::Index {
            let (kind2, _l2) = token_at(&self.chars, start + l);
            proof {
                assert(self.chars@.skip(start as int + l as int) =~= t.skip(l as int));
            }
            if !(kind2 == TokenKind::RightBracket) {
                return Err("bracket syntax error".to_owned());
            }
            proof {
                lemma_digit_run_chars(t);
                assert(forall|i: int|
                    start <= i < start + l ==> is_digit(#[trigger] self.chars@[i])) by {
                    assert(forall|i: int| 0 <= i < l ==> is_digit(#[trigger] t[i]));
                    assert(forall|i: int|
                        start <= i < start + l ==> self.chars@[i] == t[i - start]);
                }
                assert(self.chars@.subrange(start as int, start as int + l as int) =~= t.take(
                    l as int,
                ));
            }
            match parse_digits_usize(&self.chars, start, start + l) {
                None => Err("tuple index is not u8 type".to_owned()),
                Some(v) => {
                    self.pos = start + l + 1;
                    proof {
                        assert(self.remaining() =~= t.skip(l as int + 1));
                    }
                    if !self.follow_ok() {
                        return Err("after `]` should be `.` or `[` or eof".to_owned());
                    }
                    let ghost mid = self.remaining();
                    match self.eat_dot() {
                        Ok(_) => {
                            proof {
                                let d = spec_eat_dot(mid)->0;
                                assert(self.remaining() =~= rem.skip(2 + l + d));
                            }
                            Ok(FieldName::Array(v))
                        },
                        Err(e) => Err(e),
                    }
                },
            }
        } else if kind == TokenKind::Ident {
            let (kind2, _l2) = token_at(&self.chars, start + l);
            proof {
                assert(self.chars@.skip(start as int + l as int) =~= t.skip(l as int));
            }
            if !(kind2 == TokenKind::RightBracket) {
                return Err("bracket syntax error".to_owned());
            }
            let name = self.source.as_str().substring_char(start, start + l).to_owned();
            proof {
                assert(self.source@.subrange(start as int, start as int + l as int) =~= t.take(
                    l as int,
                ));
            }
            self.pos = start + l + 1;
            proof {
                assert(self.remaining() =~= t.skip(l as int + 1));
            }
            if !self.follow_ok() {
                return Err("after `]` should be `.` or `[` or eof".to_owned());
            }
            let ghost mid = self.remaining();
            match self.eat_dot() {
                Ok(_) => {
                    proof {
                        let d = spec_eat_dot(mid)->0;
                        assert(self.remaining() =~= rem.skip(2 + l + d));
                    }
                    Ok(FieldName::StructVariant(name))
                },
                Err(e) => Err(e),
            }
        } else {
            Err("Syntax error".to_owned())
        }
    }

    /// Takes the next component off the front of the path string:
    /// `Ok(Some(..))` with the component, `Ok(None)` at a clean end, or a
    /// descriptive syntax error.
    pub fn next_name(&mut self) -> (r: Result<Option<FieldName>, String>)
        requires
            old(self).wf(),
        ensures
            final(self).wf(),
            match r {
                Result::Ok(Option::Some(f)) => spec_next_name(old(self).remaining())
                    matches NextName::Item(c, k) && c == f@ && final(self).remaining()
                    == old(self).remaining().skip(k as int),
                Result::Ok(Option::None) => spec_next_name(old(self).remaining())
                    is Finished && final(self).remaining() == old(self).remaining(),
                Result::Err(_) => spec_next_name(old(self).remaining()) is Fail,
            },
    {
        let ghost rem = self.remaining();
        let n = self.chars.len();
        let (kind, l) = token_at(&self.chars, self.pos);
        if kind == TokenKind::Eof {
            Ok(None)
        } else if kind == TokenKind::Dot {
            Err("`.` should not be start".to_owned())
        } else if kind == TokenKind::RightBracket {
            Err("`]` should to stay behind `[`".to_owned())
        } else if kind == TokenKind::Undefined {
            Err("undefined char".to_owned())
        } else if kind == TokenKind::Ident {
            let name = self.source.as_str().substring_char(self.pos, self.pos + l).to_owned();
            proof {
                assert(self.source@.subrange(self.pos as int, self.pos as int + l as int)
                    =~= rem.take(l as int));
            }
            self.pos = self.pos + l;
            proof {
                assert(self.remaining() =~= rem.skip(l as int));
            }
            let ghost mid = self.remaining();
            match self.eat_dot() {
                Ok(_) => {
                    proof {
                        let d = spec_eat_dot(mid)->0;
                        assert(self.remaining() =~= rem.skip(l as int + d));
                    }
                    Ok(Some(FieldName::Literal(name)))
                },
                Err(e) => Err(e),
            }
        } else if kind == TokenKind::Index {
            proof {
                lemma_digit_run_chars(rem);
                assert(forall|i: int|
                    self.pos <= i < self.pos + l ==> is_digit(#[trigger] self.chars@[i])) by {
                    assert(forall|i: int| 0 <= i < l ==> is_digit(#[trigger] rem[i]));
                    assert(forall|i: int|
                        self.pos <= i < self.pos + l ==> self.chars@[i] == rem[i - self.pos]);
                }
                assert(self.chars@.subrange(self.pos as int, self.pos as int + l as int)
                    =~= rem.take(l as int));
            }
            match parse_digits_u8(&self.chars, self.pos, self.pos + l) {
                None => Err("tuple index is not u8 type".to_owned()),
                Some(v) => {
                    self.pos = self.pos + l;
                    proof {
                        assert(self.remaining() =~= rem.skip(l as int));
                    }
                    if !self.follow_ok() {
                        return Err("after tuple index should be `.` or `[` or eof".to_owned());
                    }
                    let ghost mid = self.remaining();
                    match self.eat_dot() {
                        Ok(_) => {
                            proof {
                                let d = spec_eat_dot(mid)->0;
                                assert(self.remaining() =~= rem.skip(l as int + d));
                            }
                            Ok(Some(FieldName::Tuple(v)))
                        },
                        Err(e) => Err(e),
                    }
                },
            }
        } else {
            proof {
                assert(kind == TokenKind::LeftBracket);
                assert(rem[0] == '[');
            }
            match self.parse_bracket() {
                Ok(f) => Ok(Some(f)),
                Err(e) => Err(e),
            }
        }
    }
}

/// Parses a whole path string into its ordered components; the entire
/// string is rejected on the first syntax error.
pub fn parse(source: &str) -> (r: Result<Vec<FieldName>, String>)
    ensures
        match r {
            Result::Ok(v) => spec_parse(source@) == Option::Some(comps_of(v@)),
            Result::Err(_) => spec_parse(source@) is None,
        },
{
    let mut parser = Parser::new(source);
    let mut vec: Vec<FieldName> = Vec::new();
    proof {
        assert(comps_of(vec@) =~= Seq::<PathComp>::empty());
    }
    loop
        invariant
            parser.wf(),
            forall|rest: Seq<PathComp>|
                spec_parse(parser.remaining()) == Option::Some(rest) ==> spec_parse(source@)
                    == Option::Some(comps_of(vec@) + rest),
            spec_parse(parser.remaining()) is None ==> spec_parse(source@) is None,
        decreases parser.remaining().len(),
    {
        let ghost rem = parser.remaining();
        let ghost vec0 = vec@;
        match parser.next_name() {
            Ok(Some(name)) => {
                proof {
                    lemma_next_name_bounds(rem);
                }
                vec.push(name);
                proof {
                    assert(comps_of(vec@) =~= comps_of(vec0).push(name@));
                    let k = parser.remaining().len();
                    assert forall|rest: Seq<PathComp>|
                        spec_parse(parser.remaining()) == Option::Some(rest) implies spec_parse(
                        source@,
                    ) == Option::Some(comps_of(vec@) + rest) by {
                        assert(spec_parse(rem) == Option::Some(seq![name@] + rest));
                        assert(comps_of(vec0) + (seq![name@] + rest) =~= comps_of(vec@) + rest);
                    }
                    if spec_parse(parser.remaining()) is None {
                        assert(spec_parse(rem) is None);
                    }
                }
            },
            Ok(None) => {
                proof {
                    assert(spec_parse(rem) == Option::Some(Seq::<PathComp>::empty()));
                    assert(comps_of(vec@) + Seq::<PathComp>::empty() =~= comps_of(vec@));
                }
                return Ok(vec);
            },
            Err(e) => {
                proof {
                    assert(spec_parse(rem) is None);
                }
                return Err(e);
            },
        }
    }
}

/// A configuration key split into its field path and its rule name.
#[derive(Debug, Clone, PartialEq, Eq, Hash)]
pub struct MessageKey {
    pub fields: FieldNames,
    pub rule: String,
}

impl MessageKey {
    pub fn new(fields: FieldNames, rule: &str) -> (r: Self)
        ensures
            r.fields@ == fields@,
            r.rule@ == rule@,
    {
        Self { fields, rule: rule.to_owned() }
    }
}

/// Position of the last dot of `s`, if any.
pub open spec fn last_dot(s: Seq<char>) -> Option<int>
    decreases s.len(),
{
    if s.len() == 0 {
        Option::None
    } else if s.last() == '.' {
        Option::Some(s.len() - 1)
    } else {
        last_dot(s.drop_last())
    }
}

/// Splits a combined `field-path.rule-name` key on its last dot; a key
/// with no dot is rejected.
pub fn parse_message(source: &str) -> (r: Result<MessageKey, String>)
    ensures
        match r {
            Result::Ok(mk) => last_dot(source@) matches Option::Some(j) && mk.fields@
                == source@.take(j) && mk.rule@ == source@.skip(j + 1),
            Result::Err(_) => last_dot(source@) is None,
        },
{
    let n = source.unicode_len();
    let mut i: usize = n;
    proof {
        assert(source@.take(n as int) =~= source@);
    }
    while i > 0
        invariant
            i <= n,
            n == source@.len(),
            last_dot(source@) == last_dot(source@.take(i as int)),
        decreases i,
    {
        let c = source.get_char(i - 1);
        proof {
            assert(source@.take(i as int).last() == source@[i as int - 1]);
            assert(source@.take(i as int).drop_last() =~= source@.take(i as int - 1));
        }
        if c == '.' {
            let fields_str = source.substring_char(0, i - 1).to_owned();
            let rule = source.substring_char(i, n);
            proof {
                assert(source@.subrange(0, i as int - 1) =~= source@.take(i as int - 1));
                assert(source@.subrange(i as int, n as int) =~= source@.skip(i as int));
            }
            return Ok(MessageKey::new(FieldNames::new(fields_str), rule));
        }
        i = i - 1;
    }
    proof {
        assert(source@.take(0) =~= Seq::<char>::empty());
    }
    Err("not found message".to_owned())
}

} // verus!

verus! {

/// A component that renders and re-parses: names are nonempty identifiers
/// and indices fit the width they are parsed at.
pub open spec fn wf_comp(c: PathComp) -> bool {
    match c {
        PathComp::Literal(s) => s.len() > 0 && is_ident_start(s[0]) && (forall|i: int|
            0 <= i < s.len() ==> is_ident_char(#[trigger] s[i])),
        PathComp::Tuple(n) => 0 <= n <= u8::MAX as int,
        PathComp::Array(n) => 0 <= n <= usize::MAX as int,
        PathComp::StructVariant(s) => s.len() > 0 && is_ident_start(s[0]) && (forall|i: int|
            0 <= i < s.len() ==> is_ident_char(#[trigger] s[i])),
    }
}

pub open spec fn wf_comps(cs: Seq<PathComp>) -> bool {
    forall|i: int| 0 <= i < cs.len() ==> wf_comp(#[trigger] cs[i])
}

/// An identifier run over a concatenation covers exactly the identifier
/// prefix.
proof fn lemma_ident_run_concat(a: Seq<char>, b: Seq<char>)
    requires
        forall|i: int| 0 <= i < a.len() ==> is_ident_char(#[trigger] a[i]),
        b.len() > 0 ==> !is_ident_char(b[0]),
    ensures
        ident_run(a + b) == a.len(),
    decreases a.len(),
{
    if a.len() == 0 {
        assert(a + b =~= b);
    } else {
        assert((a + b)[0] == a[0]);
        assert((a + b).drop_first() =~= a.drop_first() + b);
        assert(forall|i: int|
            0 <= i < a.drop_first().len() ==> is_ident_char(#[trigger] a.drop_first()[i]));
        lemma_ident_run_concat(a.drop_first(), b);
    }
}

/// A digit run over a concatenation covers exactly the digit prefix.
proof fn lemma_digit_run_concat(a: Seq<char>, b: Seq<char>)
    requires
        forall|i: int| 0 <= i < a.len() ==> is_digit(#[trigger] a[i]),
        b.len() > 0 ==> !is_digit(b[0]),
    ensures
        digit_run(a + b) == a.len(),
    decreases a.len(),
{
    if a.len() == 0 {
        assert(a + b =~= b);
    } else {
        assert((a + b)[0] == a[0]);
        assert((a + b).drop_first() =~= a.drop_first() + b);
        assert(forall|i: int|
            0 <= i < a.drop_first().len() ==> is_digit(#[trigger] a.drop_first()[i]));
        lemma_digit_run_concat(a.drop_first(), b);
    }
}

/// The decimal rendering is a nonempty string of digits.
proof fn lemma_dec_uint_digits(n: int)
    requires
        n >= 0,
    ensures
        dec_uint(n).len() >= 1,
        forall|i: int| 0 <= i < dec_uint(n).len() ==> is_digit(#[trigger] dec_uint(n)[i]),
    decreases n,
{
    if n < 10 {
        assert(is_digit(digit_char(n)));
    } else {
        lemma_dec_uint_digits(n / 10);
        assert(is_digit(digit_char(n % 10)));
        assert(forall|i: int|
            0 <= i < dec_uint(n).len() - 1 ==> dec_uint(n)[i] == dec_uint(n / 10)[i]);
    }
}

/// Rendering then evaluating a decimal gives the number back.
#[verifier::rlimit(50)]
proof fn lemma_dec_val_uint(n: int)
    requires
        n >= 0,
    ensures
        dec_val(dec_uint(n)) == n,
    decreases n,
{
    lemma_digit_char_val(n % 10);
    if n < 10 {
        assert(n % 10 == n);
        assert(dec_uint(n) == seq![digit_char(n)]);
        assert(dec_uint(n).drop_last() =~= Seq::<char>::empty());
        assert(dec_uint(n).last() == digit_char(n));
        assert(dec_val(Seq::<char>::empty()) == 0);
        assert(dec_val(dec_uint(n)) == 0 * 10 + digit_val(digit_char(n)));
    } else {
        lemma_dec_val_uint(n / 10);
        assert(dec_uint(n) == dec_uint(n / 10).push(digit_char(n % 10)));
        assert(dec_uint(n).drop_last() =~= dec_uint(n / 10));
        assert(dec_uint(n).last() == digit_char(n % 10));
        assert(dec_val(dec_uint(n)) == dec_val(dec_uint(n / 10)) * 10 + digit_val(
            digit_char(n % 10),
        ));
        assert((n / 10) * 10 + n % 10 == n);
    }
}

/// Each digit character evaluates back to its digit.
proof fn lemma_digit_char_val(d: int)
    requires
        0 <= d <= 9,
    ensures
        digit_val(digit_char(d)) == d,
{
    assert(digit_val('0') == 0);
    assert(digit_val('1') == 1);
    assert(digit_val('2') == 2);
    assert(digit_val('3') == 3);
    assert(digit_val('4') == 4);
    assert(digit_val('5') == 5);
    assert(digit_val('6') == 6);
    assert(digit_val('7') == 7);
    assert(digit_val('8') == 8);
    assert(digit_val('9') == 9);
}

/// What stands between one component and the rest of the rendering: it
/// may always follow a numeric component or a bracket, eating the dot
/// succeeds, and what remains afterwards is the rest rendered afresh.
proof fn lemma_junction_dotted(rest: Seq<PathComp>, base: Seq<char>)
    requires
        rest.len() > 0,
        wf_comps(rest),
        spec_render(rest, false) =~= seq!['.'] + base,
        spec_render(rest, true) =~= base,
        base.len() > 0,
        base[0] != '[',
    ensures
        spec_follow_ok(spec_render(rest, false)),
        spec_render(rest, false)[0] == '.',
        spec_eat_dot(spec_render(rest, false)) == Option::Some(1 as nat),
        spec_render(rest, false).skip(1) == spec_render(rest, true),
{
    let j = spec_render(rest, false);
    assert(j[0] == '.');
    assert(j.len() > 1 && j[1] == base[0]);
    assert(j.skip(1) =~= base);
}

/// What stands between one component and the rest of the rendering: it
/// may always follow a numeric component or a bracket, eating the dot
/// succeeds, and what remains afterwards is the rest rendered afresh.
proof fn lemma_junction(rest: Seq<PathComp>)
    requires
        wf_comps(rest),
    ensures
        spec_follow_ok(spec_render(rest, false)),
        spec_render(rest, false).len() > 0 ==> (spec_render(rest, false)[0] == '.' || spec_render(
            rest,
            false,
        )[0] == '['),
        spec_eat_dot(spec_render(rest, false)) matches Option::Some(d) && spec_render(
            rest,
            false,
        ).skip(d as int) == spec_render(rest, true),
{
    let j = spec_render(rest, false);
    if rest.len() == 0 {
        assert(j.skip(0) =~= j);
    } else {
        let c = rest[0];
        let rest1 = rest.drop_first();
        assert(wf_comp(c));
        match c {
            PathComp::Literal(s) => {
                let base = s + spec_render(rest1, false);
                assert(j =~= seq!['.'] + base);
                assert(spec_render(rest, true) =~= base);
                assert(base[0] == s[0]);
                assert(is_ident_start(s[0]));
                lemma_junction_dotted(rest, base);
            },
            PathComp::Tuple(n) => {
                lemma_dec_uint_digits(n);
                let base = dec_uint(n) + spec_render(rest1, false);
                assert(j =~= seq!['.'] + base);
                assert(spec_render(rest, true) =~= base);
                assert(base[0] == dec_uint(n)[0]);
                assert(is_digit(dec_uint(n)[0]));
                lemma_junction_dotted(rest, base);
            },
            PathComp::Array(n) => {
                lemma_dec_uint_digits(n);
                assert(render_comp(c, false).len() > 0);
                assert(render_comp(c, false)[0] == '[');
                assert(j[0] == '[');
                assert(spec_render(rest, true) =~= j);
                assert(j.skip(0) =~= j);
            },
            PathComp::StructVariant(s) => {
                assert(render_comp(c, false).len() > 0);
                assert(render_comp(c, false)[0] == '[');
                assert(j[0] == '[');
                assert(spec_render(rest, true) =~= j);
                assert(j.skip(0) =~= j);
            },
        }
    }
}

/// Taking one component off a rendered sequence: the named and
/// positional cases.
#[verifier::spinoff_prover]
proof fn lemma_next_name_render_plain(comps: Seq<PathComp>)
    requires
        wf_comps(comps),
        comps.len() > 0,
        comps[0] is Literal || comps[0] is Tuple,
    ensures
        spec_next_name(spec_render(comps, true)) matches NextName::Item(c, k) && c == comps[0]
            && spec_render(comps, true).skip(k as int) == spec_render(comps.drop_first(), true),
{
    let s = spec_render(comps, true);
    let c = comps[0];
    let rest = comps.drop_first();
    let j = spec_render(rest, false);
    assert(wf_comp(c));
    assert(wf_comps(rest));
    lemma_junction(rest);
    let d = spec_eat_dot(j)->0;
    match c {
        PathComp::Literal(name) => {
            assert(s =~= name + j);
            lemma_ident_run_concat(name, j);
            assert(s[0] == name[0]);
            assert(is_ident_start(s[0]));
            let l = name.len();
            assert(spec_token(s) == (TokenKind::Ident, l as nat));
            assert(s.take(l as int) =~= name);
            assert(s.skip(l as int) =~= j);
            assert(s.skip(l as int + d) =~= j.skip(d as int));
        },
        PathComp::Tuple(n) => {
            lemma_dec_uint_digits(n);
            lemma_dec_val_uint(n);
            assert(s =~= dec_uint(n) + j);
            lemma_digit_run_concat(dec_uint(n), j);
            assert(s[0] == dec_uint(n)[0]);
            assert(is_digit(s[0]));
            assert(!is_ident_start(s[0]));
            let l = dec_uint(n).len();
            assert(spec_token(s) == (TokenKind::Index, l as nat));
            assert(s.take(l as int) =~= dec_uint(n));
            assert(s.skip(l as int) =~= j);
            assert(s.skip(l as int + d) =~= j.skip(d as int));
        },
        _ => {},
    }
}

/// Taking one component off a rendered sequence: the bracketed cases.
#[verifier::spinoff_prover]
#[verifier::rlimit(80)]
proof fn lemma_next_name_render_bracket(comps: Seq<PathComp>)
    requires
        wf_comps(comps),
        comps.len() > 0,
        comps[0] is Array || comps[0] is StructVariant,
    ensures
        spec_next_name(spec_render(comps, true)) matches NextName::Item(c, k) && c == comps[0]
            && spec_render(comps, true).skip(k as int) == spec_render(comps.drop_first(), true),
{
    let s = spec_render(comps, true);
    let c = comps[0];
    let rest = comps.drop_first();
    let j = spec_render(rest, false);
    assert(wf_comp(c));
    assert(wf_comps(rest));
    lemma_junction(rest);
    let d = spec_eat_dot(j)->0;
    match c {
        PathComp::Array(n) => {
            lemma_dec_uint_digits(n);
            lemma_dec_val_uint(n);
            let ds = dec_uint(n);
            let l = ds.len();
            assert(s =~= seq!['['] + ds + seq![']'] + j);
            assert(s[0] == '[');
            assert(!is_ident_start('[') && !is_digit('[') && '[' != '.' && '[' != ']');
            assert(spec_token(s).0 == TokenKind::LeftBracket);
            let t = s.skip(1);
            assert(t =~= ds + (seq![']'] + j));
            assert((seq![']'] + j)[0] == ']');
            assert(!is_digit(']'));
            lemma_digit_run_concat(ds, seq![']'] + j);
            assert(t[0] == ds[0]);
            assert(is_digit(t[0]) && !is_ident_start(t[0]));
            assert(spec_token(t) == (TokenKind::Index, l as nat));
            assert(t.skip(l as int) =~= seq![']'] + j);
            assert(t.skip(l as int)[0] == ']');
            assert(spec_token(t.skip(l as int)).0 == TokenKind::RightBracket);
            assert(t.take(l as int) =~= ds);
            assert(t.skip(l as int + 1) =~= j);
            assert(s.skip(2 + l as int + d as int) =~= j.skip(d as int));
        },
        PathComp::StructVariant(name) => {
            let l = name.len();
            assert(s =~= seq!['['] + name + seq![']'] + j);
            assert(s[0] == '[');
            assert(spec_token(s).0 == TokenKind::LeftBracket);
            let t = s.skip(1);
            assert(t =~= name + (seq![']'] + j));
            assert((seq![']'] + j)[0] == ']');
            assert(!is_ident_char(']'));
            lemma_ident_run_concat(name, seq![']'] + j);
            assert(t[0] == name[0]);
            assert(is_ident_start(t[0]));
            assert(spec_token(t) == (TokenKind::Ident, l as nat));
            assert(t.skip(l as int) =~= seq![']'] + j);
            assert(t.skip(l as int)[0] == ']');
            assert(spec_token(t.skip(l as int)).0 == TokenKind::RightBracket);
            assert(t.take(l as int) =~= name);
            assert(t.skip(l as int + 1) =~= j);
            assert(s.skip(2 + l as int + d as int) =~= j.skip(d as int));
        },
        _ => {},
    }
}

/// Taking one component off a rendered sequence gives that component and
/// leaves the rest rendered afresh.
proof fn lemma_next_name_render(comps: Seq<PathComp>)
    requires
        wf_comps(comps),
        comps.len() > 0,
    ensures
        spec_next_name(spec_render(comps, true)) matches NextName::Item(c, k) && c == comps[0]
            && spec_render(comps, true).skip(k as int) == spec_render(comps.drop_first(), true),
{
    if comps[0] is Literal || comps[0] is Tuple {
        lemma_next_name_render_plain(comps);
    } else {
        lemma_next_name_render_bracket(comps);
    }
}

/// Rendering a well-formed component sequence to its canonical string and
/// parsing that string back yields the identical sequence.
pub proof fn lemma_path_round_trip(comps: Seq<PathComp>)
    requires
        wf_comps(comps),
    ensures
        spec_parse(spec_render(comps, true)) == Option::Some(comps),
    decreases comps.len(),
{
    let s = spec_render(comps, true);
    if comps.len() == 0 {
        assert(spec_token(s).0 == TokenKind::Eof);
        assert(spec_parse(s) == Option::Some(Seq::<PathComp>::empty()));
        assert(Seq::<PathComp>::empty() =~= comps);
    } else {
        let rest = comps.drop_first();
        assert(wf_comps(rest));
        lemma_next_name_render(comps);
        lemma_next_name_bounds(s);
        lemma_path_round_trip(rest);
        let k = match spec_next_name(s) {
            NextName::Item(_, kk) => kk,
            _ => 0,
        };
        assert(s.skip(k as int) == spec_render(rest, true));
        assert(spec_parse(s) == Option::Some(seq![comps[0]] + rest));
        assert(seq![comps[0]] + rest =~= comps);
    }
}

} // verus!

verus! {

/// Every component the parser takes off a string is well formed.
proof fn lemma_next_name_wf(s: Seq<char>)
    ensures
        spec_next_name(s) matches NextName::Item(c, _k) ==> wf_comp(c),
{
    let (kind, l) = spec_token(s);
    if kind == TokenKind::Ident {
        lemma_ident_run_bound(s);
        lemma_ident_run_chars(s);
        assert forall|i: int| 0 <= i < s.take(l as int).len() implies is_ident_char(
            #[trigger] s.take(l as int)[i],
        ) by {
            assert(is_ident_char(s[i]));
        }
        assert(l > 0 && s.take(l as int)[0] == s[0]);
    } else if kind == TokenKind::Index {
        lemma_digit_run_bound(s);
        lemma_digit_run_chars(s);
        assert forall|i: int| 0 <= i < s.take(l as int).len() implies is_digit(
            #[trigger] s.take(l as int)[i],
        ) by {
            assert(is_digit(s[i]));
        }
        lemma_dec_val_nonneg(s.take(l as int));
    } else if kind == TokenKind::LeftBracket {
        let t = s.skip(1);
        let (k2, l2) = spec_token(t);
        if k2 == TokenKind::Index {
            lemma_digit_run_bound(t);
            lemma_digit_run_chars(t);
            assert forall|i: int| 0 <= i < t.take(l2 as int).len() implies is_digit(
                #[trigger] t.take(l2 as int)[i],
            ) by {
                assert(is_digit(t[i]));
            }
            lemma_dec_val_nonneg(t.take(l2 as int));
        } else if k2 == TokenKind::Ident {
            lemma_ident_run_bound(t);
            lemma_ident_run_chars(t);
            assert forall|i: int| 0 <= i < t.take(l2 as int).len() implies is_ident_char(
                #[trigger] t.take(l2 as int)[i],
            ) by {
                assert(is_ident_char(t[i]));
            }
            assert(l2 > 0 && t.take(l2 as int)[0] == t[0]);
        }
    }
}

/// Everything the parser accepts is well formed.
proof fn lemma_parse_wf(s: Seq<char>)
    ensures
        spec_parse(s) matches Option::Some(cs) ==> wf_comps(cs),
    decreases s.len(),
{
    match spec_next_name(s) {
        NextName::Finished => {},
        NextName::Fail => {},
        NextName::Item(c, k) => {
            lemma_next_name_bounds(s);
            lemma_next_name_wf(s);
            lemma_parse_wf(s.skip(k as int));
            if spec_parse(s) is Some {
                let cs = spec_parse(s)->0;
                let rest = spec_parse(s.skip(k as int))->0;
                assert forall|i: int| 0 <= i < cs.len() implies wf_comp(#[trigger] cs[i]) by {
                    if i > 0 {
                        assert(cs[i] == rest[i - 1]);
                    }
                }
            }
        },
    }
}

/// Path round trip: any component sequence the parser can produce,
/// rendered to its canonical string form and parsed again, comes back
/// identical.
pub proof fn lemma_parser_round_trip(s: Seq<char>, cs: Seq<PathComp>)
    requires
        spec_parse(s) == Option::Some(cs),
    ensures
        spec_parse(spec_render(cs, true)) == Option::Some(cs),
{
    lemma_parse_wf(s);
    lemma_path_round_trip(cs);
}

} // verus!
