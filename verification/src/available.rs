use vstd::prelude::*;

use crate::message::email_text;
use crate::message::required_text;
use crate::message::start_with_text;
use crate::message::Message;
use crate::message::MessageKindV;
use crate::message::MessageV;
use crate::rule::RuleShortcut;
use crate::value::Value;
use crate::value::ValueV;

verus! {

/// Whether `p` is a prefix of `s`.
pub open spec fn spec_starts_with(s: Seq<char>, p: Seq<char>) -> bool {
    p.len() <= s.len() && s.take(p.len() as int) == p
}

/// Whether `p` is a prefix of `s`.
pub fn str_starts_with(s: &str, p: &str) -> (r: bool)
    ensures
        r == spec_starts_with(s@, p@),
{
    let sn = s.unicode_len();
    let pn = p.unicode_len();
    if pn > sn {
        return false;
    }
    let mut i: usize = 0;
    while i < pn
        invariant
            i <= pn <= sn,
            sn == s@.len(),
            pn == p@.len(),
            forall|j: int| 0 <= j < i ==> s@[j] == p@[j],
        decreases pn - i,
    {
        if s.get_char(i) != p.get_char(i) {
            proof {
                assert(s@.take(pn as int)[i as int] != p@[i as int]);
            }
            return false;
        }
        i = i + 1;
    }
    proof {
        assert(s@.take(pn as int) =~= p@);
    }
    true
}

/// Number of `@` characters in `s`.
pub open spec fn num_ats(s: Seq<char>) -> nat
    decreases s.len(),
{
    if s.len() == 0 {
        0
    } else {
        num_ats(s.drop_last()) + if s.last() == '@' {
            1 as nat
        } else {
            0 as nat
        }
    }
}

/// The shape this library accepts as an email address: exactly one `@`,
/// neither at the very start nor at the very end.
pub open spec fn spec_email_ok(s: Seq<char>) -> bool {
    s.len() >= 3 && num_ats(s) == 1 && s[0] != '@' && s[s.len() - 1] != '@'
}

/// Whether a string has the accepted email shape.
pub fn validate_email(s: &str) -> (r: bool)
    ensures
        r == spec_email_ok(s@),
{
    let n = s.unicode_len();
    if n < 3 {
        return false;
    }
    let mut count: usize = 0;
    let mut i: usize = 0;
    proof {
        assert(s@.take(0) =~= Seq::<char>::empty());
    }
    while i < n
        invariant
            i <= n,
            n == s@.len(),
            count <= i,
            count == num_ats(s@.take(i as int)),
        decreases n - i,
    {
        let c = s.get_char(i);
        proof {
            assert(s@.take(i as int + 1).drop_last() =~= s@.take(i as int));
            assert(s@.take(i as int + 1).last() == s@[i as int]);
        }
        if c == '@' {
            count = count + 1;
        }
        i = i + 1;
    }
    proof {
        assert(s@.take(n as int) =~= s@);
    }
    if count != 1 {
        return false;
    }
    let first = s.get_char(0);
    let last = s.get_char(n - 1);
    first != '@' && last != '@'
}

/// Value can not be empty: an empty string, sequence or map fails; every
/// other value passes.  The value is never rewritten.
#[derive(Clone, Copy, Debug)]
pub struct Required;

impl RuleShortcut for Required {
    open spec fn spec_name(&self) -> Seq<char> {
        "required"@
    }

    open spec fn spec_message(&self) -> MessageV {
        MessageV { kind: MessageKindV::Required, content: required_text() }
    }

    open spec fn spec_check(&self, v: ValueV) -> (ValueV, bool) {
        (
            v,
            match v {
                ValueV::String(s) => s.len() > 0,
                ValueV::Array(items) => items.len() > 0,
                ValueV::Mapping(pairs) => pairs.len() > 0,
                _ => true,
            },
        )
    }

    fn name(&self) -> (r: &'static str) {
        "required"
    }

    fn message(&self) -> (m: Message) {
        Message::required()
    }

    fn call(&self, value: &mut Value) -> (r: bool) {
        match &*value {
            Value::String(s) => !s.as_str().is_empty(),
            Value::Array(items) => {
                proof {
                    crate::value::lemma_values_view(items@);
                }
                items.len() > 0
            },
            Value::Mapping(pairs) => {
                proof {
                    crate::value::lemma_pairs_view(pairs@);
                }
                pairs.len() > 0
            },
            _ => true,
        }
    }
}

/// Require a string value to start with the given prefix; every other
/// value fails.  The value is never rewritten.
#[derive(Clone, Copy, Debug)]
pub struct StartWith<T>(pub T);

impl<T> StartWith<T> {
    /// The same rule borrowing its parameter.
    pub fn as_ref(&self) -> (r: StartWith<&T>) {
        let StartWith(t) = self;
        StartWith(t)
    }

    /// The same rule borrowing its parameter mutably.
    pub fn as_mut(&mut self) -> (r: StartWith<&mut T>) {
        let StartWith(t) = self;
        StartWith(t)
    }
}

impl<T: Copy> StartWith<&T> {
    /// The same rule owning a copy of its parameter.
    pub fn copied(self) -> (r: StartWith<T>)
        ensures
            r.0 == *self.0,
    {
        StartWith(*self.0)
    }
}

impl<T: Clone> StartWith<&T> {
    /// The same rule owning a clone of its parameter.
    pub fn cloned(self) -> (r: StartWith<T>) {
        StartWith(self.0.clone())
    }
}

impl<T: Copy> StartWith<&mut T> {
    /// The same rule owning a copy of its parameter.
    pub fn copied(self) -> (r: StartWith<T>)
        ensures
            r.0 == *old(self.0),
    {
        StartWith(*self.0)
    }
}

impl<T: Clone> StartWith<&mut T> {
    /// The same rule owning a clone of its parameter.
    pub fn cloned(self) -> (r: StartWith<T>) {
        StartWith(self.0.clone())
    }
}

impl RuleShortcut for StartWith<&'static str> {
    open spec fn spec_name(&self) -> Seq<char> {
        "start_with"@
    }

    open spec fn spec_message(&self) -> MessageV {
        MessageV { kind: MessageKindV::StartWith(self.0@), content: start_with_text(self.0@) }
    }

    open spec fn spec_check(&self, v: ValueV) -> (ValueV, bool) {
        (
            v,
            match v {
                ValueV::String(s) => spec_starts_with(s, self.0@),
                _ => false,
            },
        )
    }

    fn name(&self) -> (r: &'static str) {
        "start_with"
    }

    fn message(&self) -> (m: Message) {
        Message::start_with(self.0)
    }

    fn call(&self, value: &mut Value) -> (r: bool) {
        match &*value {
            Value::String(s) => str_starts_with(s.as_str(), self.0),
            _ => false,
        }
    }
}

/// Value must have the accepted email shape; supported only for string
/// values, every other value fails.  The value is never rewritten.
#[derive(Clone, Copy, Debug)]
pub struct Email;

impl RuleShortcut for Email {
    open spec fn spec_name(&self) -> Seq<char> {
        "email"@
    }

    open spec fn spec_message(&self) -> MessageV {
        MessageV { kind: MessageKindV::Email, content: email_text() }
    }

    open spec fn spec_check(&self, v: ValueV) -> (ValueV, bool) {
        (
            v,
            match v {
                ValueV::String(s) => spec_email_ok(s),
                _ => false,
            },
        )
    }

    fn name(&self) -> (r: &'static str) {
        "email"
    }

    fn message(&self) -> (m: Message) {
        Message::email()
    }

    fn call(&self, value: &mut Value) -> (r: bool) {
        match &*value {
            Value::String(s) => validate_email(s.as_str()),
            _ => false,
        }
    }
}

/// Reverses an existing rule's verdict, keeping its name, its message and
/// its rewriting of the value.
#[derive(Clone, Copy, Debug)]
pub struct Not<T>(pub T);

impl<T: Copy> Not<&T> {
    /// The same rule owning a copy of its inner rule.
    pub fn copied(self) -> (r: Not<T>)
        ensures
            r.0 == *self.0,
    {
        Not(*self.0)
    }
}

impl<T: Clone> Not<&T> {
    /// The same rule owning a clone of its inner rule.
    pub fn cloned(self) -> (r: Not<T>) {
        Not(self.0.clone())
    }
}

impl<T: Copy> Not<&mut T> {
    /// The same rule owning a copy of its inner rule.
    pub fn copied(self) -> (r: Not<T>)
        ensures
            r.0 == *old(self.0),
    {
        Not(*self.0)
    }
}

impl<T: Clone> Not<&mut T> {
    /// The same rule owning a clone of its inner rule.
    pub fn cloned(self) -> (r: Not<T>) {
        Not(self.0.clone())
    }
}

impl<T: RuleShortcut> RuleShortcut for Not<T> {
    open spec fn spec_name(&self) -> Seq<char> {
        self.0.spec_name()
    }

    open spec fn spec_message(&self) -> MessageV {
        self.0.spec_message()
    }

    open spec fn spec_check(&self, v: ValueV) -> (ValueV, bool) {
        let (v2, ok) = self.0.spec_check(v);
        (v2, !ok)
    }

    fn name(&self) -> (r: &'static str) {
        self.0.name()
    }

    fn message(&self) -> (m: Message) {
        self.0.message()
    }

    fn call(&self, value: &mut Value) -> (r: bool) {
        !self.0.call(value)
    }
}

/// Leading whitespace of a character sequence removed.
pub open spec fn spec_trim_start(s: Seq<char>) -> Seq<char>
    decreases s.len(),
{
    if s.len() > 0 && is_space(s[0]) {
        spec_trim_start(s.drop_first())
    } else {
        s
    }
}

/// Trailing whitespace of a character sequence removed.
pub open spec fn spec_trim_end(s: Seq<char>) -> Seq<char>
    decreases s.len(),
{
    if s.len() > 0 && is_space(s.last()) {
        spec_trim_end(s.drop_last())
    } else {
        s
    }
}

/// The whitespace this library trims.
pub open spec fn is_space(c: char) -> bool {
    c == ' ' || c == '\t' || c == '\n' || c == '\r'
}

/// Both ends trimmed.
pub open spec fn spec_trim(s: Seq<char>) -> Seq<char> {
    spec_trim_end(spec_trim_start(s))
}

fn space_char(c: char) -> (r: bool)
    ensures
        r == is_space(c),
{
    c == ' ' || c == '\t' || c == '\n' || c == '\r'
}

proof fn lemma_trim_start_skip(s: Seq<char>, i: int)
    requires
        0 <= i <= s.len(),
        forall|j: int| 0 <= j < i ==> is_space(#[trigger] s[j]),
    ensures
        spec_trim_start(s) == spec_trim_start(s.skip(i)),
    decreases i,
{
    if i > 0 {
        assert(is_space(s[0]));
        assert(s.drop_first() =~= s.skip(1));
        lemma_trim_start_skip(s, i - 1);
        assert(s.skip(i - 1).drop_first() =~= s.skip(i));
        assert(spec_trim_start(s.skip(i - 1)) == spec_trim_start(s.skip(i)));
    } else {
        assert(s.skip(0) =~= s);
    }
}

proof fn lemma_trim_end_take(s: Seq<char>, i: int)
    requires
        0 <= i <= s.len(),
        forall|j: int| i <= j < s.len() ==> is_space(#[trigger] s[j]),
    ensures
        spec_trim_end(s) == spec_trim_end(s.take(i)),
    decreases s.len() - i,
{
    if i < s.len() {
        assert(is_space(s.last()));
        assert(s.drop_last() =~= s.take(s.len() - 1));
        lemma_trim_end_take(s.take(s.len() - 1), i);
        assert(s.take(s.len() - 1).take(i) =~= s.take(i));
    } else {
        assert(s.take(i) =~= s);
    }
}

/// Whitespace at both ends of a string removed.
pub fn str_trim(s: &str) -> (r: String)
    ensures
        r@ == spec_trim(s@),
{
    let n = s.unicode_len();
    let mut start: usize = 0;
    while start < n && space_char(s.get_char(start))
        invariant
            start <= n,
            n == s@.len(),
            forall|j: int| 0 <= j < start ==> is_space(#[trigger] s@[j]),
        decreases n - start,
    {
        start = start + 1;
    }
    proof {
        lemma_trim_start_skip(s@, start as int);
        if start < n {
            assert(!is_space(s@.skip(start as int)[0]));
        }
        assert(spec_trim_start(s@) == s@.skip(start as int));
    }
    let mut end: usize = n;
    while end > start && space_char(s.get_char(end - 1))
        invariant
            start <= end <= n,
            n == s@.len(),
            forall|j: int| end <= j < n ==> is_space(#[trigger] s@[j]),
        decreases end,
    {
        end = end - 1;
    }
    proof {
        let mid = s@.skip(start as int);
        assert(forall|j: int|
            end - start <= j < mid.len() ==> is_space(#[trigger] mid[j]));
        lemma_trim_end_take(mid, end - start);
        if end > start {
            assert(mid.take(end - start).last() == s@[end as int - 1]);
            assert(!is_space(mid.take(end - start).last()));
        }
        assert(spec_trim_end(mid) == mid.take(end - start));
        assert(mid.take(end - start) =~= s@.subrange(start as int, end as int));
    }
    s.substring_char(start, end).to_owned()
}

/// Rewrites a string value by removing whitespace at both ends; it never
/// fails, and leaves every other value unchanged.
#[derive(Clone, Copy, Debug)]
pub struct Trim;

impl RuleShortcut for Trim {
    open spec fn spec_name(&self) -> Seq<char> {
        "trim"@
    }

    open spec fn spec_message(&self) -> MessageV {
        MessageV { kind: MessageKindV::Fallback("trim never fails"@), content: "trim never fails"@ }
    }

    open spec fn spec_check(&self, v: ValueV) -> (ValueV, bool) {
        (
            match v {
                ValueV::String(s) => ValueV::String(spec_trim(s)),
                _ => v,
            },
            true,
        )
    }

    fn name(&self) -> (r: &'static str) {
        "trim"
    }

    fn message(&self) -> (m: Message) {
        Message::fallback("trim never fails")
    }

    fn call(&self, value: &mut Value) -> (r: bool) {
        let trimmed = match &*value {
            Value::String(s) => Some(str_trim(s.as_str())),
            _ => None,
        };
        match trimmed {
            Some(t) => {
                *value = Value::String(t);
            },
            None => {},
        }
        true
    }
}

} // verus!
