use vstd::prelude::*;

use crate::boxed::ErasedRule;
use crate::lexer::ident_char;
use crate::lexer::ident_start_char;
use crate::lexer::is_ident_char;
use crate::lexer::is_ident_start;
use crate::message::Message;
use crate::message::MessageV;
use crate::rule::FnRule;
use crate::rule::Rule;
use crate::value::Value;
use crate::value_map::ValueMap;
use crate::value_map::ValueMapV;

verus! {

/// The views of collected `(rule name, message)` failures.
pub open spec fn msgs_view(ms: Seq<(&'static str, Message)>) -> Seq<(Seq<char>, MessageV)> {
    ms.map_values(|p: (&'static str, Message)| (p.0@, p.1@))
}

/// One run of a rule chain against a context: every rule runs in append
/// order on the state its predecessors left, failures are collected in
/// that order with the failing rule's name, and in bail mode the chain
/// stops at the first failure, which is then the only one reported.
pub open spec fn chain_admits(
    rules: Seq<ErasedRule>,
    bail: bool,
    pre: ValueMapV,
    post: ValueMapV,
    msgs: Seq<(Seq<char>, MessageV)>,
) -> bool
    decreases rules.len(),
{
    if rules.len() == 0 {
        post == pre && msgs == Seq::<(Seq<char>, MessageV)>::empty()
    } else {
        exists|mid: ValueMapV, out: Option<MessageV>|
            #![auto]
            rules[0].admits(pre, mid, out) && match out {
                Option::None => chain_admits(rules.drop_first(), bail, mid, post, msgs),
                Option::Some(m) => msgs.len() >= 1 && msgs[0] == (rules[0].spec_name(), m) && if bail {
                    post == mid && msgs.len() == 1
                } else {
                    chain_admits(rules.drop_first(), bail, mid, post, msgs.drop_first())
                },
            }
    }
}

/// An ordered chain of erased rules for one field, with an optional
/// stop-at-first-failure mode.
pub struct RuleList {
    pub list: Vec<ErasedRule>,
    pub is_bail: bool,
}

/// A rule name the configuration check accepts: a nonempty string whose
/// first character is a letter or an underscore and whose remainder is
/// letters, digits and underscores.
pub open spec fn valid_rule_name(s: Seq<char>) -> bool {
    s.len() > 0 && is_ident_start(s[0]) && forall|i: int|
        0 <= i < s.len() ==> is_ident_char(#[trigger] s[i])
}

/// Whether a rule name string is accepted by the name-validity check.
pub fn is_valid_name_str(s: &str) -> (r: bool)
    ensures
        r == valid_rule_name(s@),
{
    let n = s.unicode_len();
    if n == 0 {
        return false;
    }
    if !ident_start_char(s.get_char(0)) {
        return false;
    }
    let mut i: usize = 1;
    while i < n
        invariant
            1 <= i <= n,
            n == s@.len(),
            is_ident_start(s@[0]),
            forall|j: int| 0 <= j < i ==> is_ident_char(#[trigger] s@[j]),
        decreases n - i,
    {
        if !ident_char(s.get_char(i)) {
            return false;
        }
        i = i + 1;
    }
    true
}

impl Default for RuleList {
    /// The empty chain, without bail mode.
    fn default() -> (r: Self)
        ensures
            r.list@ == Seq::<ErasedRule>::empty(),
            !r.is_bail,
    {
        Self { list: Vec::new(), is_bail: false }
    }
}

impl RuleList {
    /// Appends one rule at the end of the chain.
    pub fn and<R: Rule>(self, other: R) -> (r: Self)
        ensures
            r.list@.len() == self.list@.len() + 1,
            r.list@.drop_last() == self.list@,
            r.list@.last().spec_name() == other.spec_name(),
            forall|pre: ValueMapV, post: ValueMapV, out: Option<MessageV>|
                #[trigger] r.list@.last().admits(pre, post, out) == other.admits(pre, post, out),
            r.is_bail == self.is_bail,
    {
        let mut list = self.list;
        list.push(ErasedRule::new(other));
        proof {
            assert(list@.drop_last() =~= self.list@);
        }
        Self { list, is_bail: self.is_bail }
    }

    /// Appends a closure rule at the end of the chain.
    pub fn custom<F: Fn(Value) -> (Value, Result<(), Message>) + 'static>(self, f: F) -> (r: Self)
        requires
            forall|v: Value| #[trigger] call_requires(f, (v,)),
        ensures
            r.list@.len() == self.list@.len() + 1,
            r.list@.drop_last() == self.list@,
            r.list@.last().spec_name() == "custom"@,
            forall|pre: ValueMapV, post: ValueMapV, out: Option<MessageV>|
                #[trigger] r.list@.last().admits(pre, post, out) == crate::rule::fn_rule_admits(
                    f,
                    pre,
                    post,
                    out,
                ),
            r.is_bail == self.is_bail,
    {
        let rule = FnRule::new(f);
        let mut list = self.list;
        list.push(ErasedRule::new(rule));
        proof {
            assert(list@.drop_last() =~= self.list@);
        }
        Self { list, is_bail: self.is_bail }
    }

    /// Sets stop-at-first-failure mode.
    pub fn bail(self) -> (r: Self)
        ensures
            r.list@ == self.list@,
            r.is_bail,
    {
        Self { list: self.list, is_bail: true }
    }

    /// Runs every rule of the chain in append order against the same
    /// context, collecting `(rule name, message)` for each failure; in
    /// bail mode the chain stops after the first failure.
    pub fn call(&self, data: &mut ValueMap) -> (msgs: Vec<(&'static str, Message)>)
        ensures
            chain_admits(self.list@, self.is_bail, old(data)@, final(data)@, msgs_view(msgs@)),
    {
        let mut msgs: Vec<(&'static str, Message)> = Vec::new();
        let mut i: usize = 0;
        proof {
            assert(self.list@.skip(0) =~= self.list@);
            assert(msgs_view(msgs@) =~= Seq::<(Seq<char>, MessageV)>::empty());
        }
        while i < self.list.len()
            invariant
                i <= self.list@.len(),
                forall|post: ValueMapV, suf: Seq<(Seq<char>, MessageV)>|
                    chain_admits(self.list@.skip(i as int), self.is_bail, data@, post, suf)
                        ==> chain_admits(self.list@, self.is_bail, old(data)@, post, msgs_view(msgs@) + suf),
            decreases self.list@.len() - i,
        {
            let ghost rest = self.list@.skip(i as int);
            let ghost st0 = data@;
            let ghost acc0 = msgs_view(msgs@);
            let out = self.list[i].call(data);
            proof {
                assert(rest[0] == self.list@[i as int]);
                assert(rest.drop_first() =~= self.list@.skip(i as int + 1));
            }
            match out {
                Ok(_) => {
                    proof {
                        assert forall|post: ValueMapV, suf: Seq<(Seq<char>, MessageV)>|
                            chain_admits(
                                self.list@.skip(i as int + 1),
                                self.is_bail,
                                data@,
                                post,
                                suf,
                            ) implies chain_admits(
                            self.list@,
                            self.is_bail,
                            old(data)@,
                            post,
                            msgs_view(msgs@) + suf,
                        ) by {
                            assert(chain_admits(rest, self.is_bail, st0, post, suf));
                        }
                    }
                },
                Err(m) => {
                    let name = self.list[i].name();
                    if self.is_bail {
                        proof {
                            assert(chain_admits(
                                rest,
                                self.is_bail,
                                st0,
                                data@,
                                seq![(name@, m@)],
                            ));
                            assert(chain_admits(
                                self.list@,
                                self.is_bail,
                                old(data)@,
                                data@,
                                acc0 + seq![(name@, m@)],
                            ));
                        }
                        let ghost mv = m@;
                        msgs.push((name, m));
                        proof {
                            assert(msgs_view(msgs@) =~= acc0 + seq![(name@, mv)]);
                            assert(chain_admits(
                                self.list@,
                                self.is_bail,
                                old(data)@,
                                data@,
                                msgs_view(msgs@),
                            ));
                        }
                        return msgs;
                    }
                    let ghost mv = m@;
                    msgs.push((name, m));
                    proof {
                        assert(msgs_view(msgs@) =~= acc0 + seq![(name@, mv)]);
                        assert forall|post: ValueMapV, suf: Seq<(Seq<char>, MessageV)>|
                            chain_admits(
                                self.list@.skip(i as int + 1),
                                self.is_bail,
                                data@,
                                post,
                                suf,
                            ) implies chain_admits(
                            self.list@,
                            self.is_bail,
                            old(data)@,
                            post,
                            msgs_view(msgs@) + suf,
                        ) by {
                            let withm = seq![(rest[0].spec_name(), mv)] + suf;
                            assert(withm.drop_first() =~= suf);
                            assert(chain_admits(rest, self.is_bail, st0, post, withm));
                            assert(acc0 + withm =~= msgs_view(msgs@) + suf);
                        }
                    }
                },
            }
            i = i + 1;
        }
        proof {
            assert(self.list@.skip(self.list@.len() as int) =~= Seq::<ErasedRule>::empty());
            assert(chain_admits(
                self.list@.skip(self.list@.len() as int),
                self.is_bail,
                data@,
                data@,
                Seq::<(Seq<char>, MessageV)>::empty(),
            ));
            assert(msgs_view(msgs@) + Seq::<(Seq<char>, MessageV)>::empty() =~= msgs_view(msgs@));
        }
        msgs
    }

    /// Whether some rule of the chain bears the given name.
    pub fn contains(&self, rule: &str) -> (r: bool)
        ensures
            r == exists|i: int|
                0 <= i < self.list@.len() && (#[trigger] self.list@[i]).spec_name() == rule@,
    {
        let mut i: usize = 0;
        let rule_string = rule.to_owned();
        while i < self.list.len()
            invariant
                i <= self.list@.len(),
                rule_string@ == rule@,
                forall|j: int| 0 <= j < i ==> (#[trigger] self.list@[j]).spec_name() != rule@,
            decreases self.list@.len() - i,
        {
            let name = self.list[i].name();
            if name.to_owned().eq(&rule_string) {
                return true;
            }
            i = i + 1;
        }
        false
    }

    /// Whether every rule name of the chain is accepted by the
    /// name-validity check.
    pub fn valid_name(&self) -> (r: bool)
        ensures
            r == forall|i: int|
                0 <= i < self.list@.len() ==> valid_rule_name(
                    (#[trigger] self.list@[i]).spec_name(),
                ),
    {
        let mut i: usize = 0;
        while i < self.list.len()
            invariant
                i <= self.list@.len(),
                forall|j: int|
                    0 <= j < i ==> valid_rule_name((#[trigger] self.list@[j]).spec_name()),
            decreases self.list@.len() - i,
        {
            let name = self.list[i].name();
            if !is_valid_name_str(name) {
                return false;
            }
            i = i + 1;
        }
        true
    }
}

/// Anything that can stand where a chain of rules is expected: a chain
/// itself, or one rule alone.
pub trait IntoRuleList: Sized {
    /// Whether `r` is the chain this value stands for.
    spec fn list_rep(&self, r: RuleList) -> bool;

    /// The chain this value stands for.
    fn into_list(self) -> (r: RuleList)
        ensures
            self.list_rep(r),
    ;
}

impl IntoRuleList for RuleList {
    open spec fn list_rep(&self, r: RuleList) -> bool {
        r.list@ == self.list@ && r.is_bail == self.is_bail
    }

    fn into_list(self) -> RuleList {
        self
    }
}

/// Starts a chain from a closure rule alone.
pub fn custom<F: Fn(Value) -> (Value, Result<(), Message>) + 'static>(f: F) -> (r: RuleList)
    requires
        forall|v: Value| #[trigger] call_requires(f, (v,)),
    ensures
        r.list@.len() == 1,
        r.list@[0].spec_name() == "custom"@,
        forall|pre: ValueMapV, post: ValueMapV, out: Option<MessageV>|
            #[trigger] r.list@[0].admits(pre, post, out) == crate::rule::fn_rule_admits(
                f,
                pre,
                post,
                out,
            ),
        !r.is_bail,
{
    RuleList::default().custom(f)
}

/// Rule composition helpers: `a.and(b)` starts a chain of two, and
/// `a.custom(f)` chains a closure rule after `a`.
pub trait RuleExt: Rule + Sized {
    /// A chain of this rule and one more.
    fn and<R2: Rule>(self, other: R2) -> (r: RuleList)
        ensures
            r.list@.len() == 2,
            r.list@[0].spec_name() == self.spec_name(),
            r.list@[1].spec_name() == other.spec_name(),
            forall|pre: ValueMapV, post: ValueMapV, out: Option<MessageV>|
                #[trigger] r.list@[0].admits(pre, post, out) == self.admits(pre, post, out),
            forall|pre: ValueMapV, post: ValueMapV, out: Option<MessageV>|
                #[trigger] r.list@[1].admits(pre, post, out) == other.admits(pre, post, out),
            !r.is_bail,
    ;

    /// A chain of this rule and one closure rule.
    fn custom<F: Fn(Value) -> (Value, Result<(), Message>) + 'static>(self, f: F) -> (r: RuleList)
        requires
            forall|v: Value| #[trigger] call_requires(f, (v,)),
        ensures
            r.list@.len() == 2,
            r.list@[0].spec_name() == self.spec_name(),
            r.list@[1].spec_name() == "custom"@,
            forall|pre: ValueMapV, post: ValueMapV, out: Option<MessageV>|
                #[trigger] r.list@[0].admits(pre, post, out) == self.admits(pre, post, out),
            !r.is_bail,
    ;
}

impl<R: Rule + Sized> RuleExt for R {
    fn and<R2: Rule>(self, other: R2) -> (r: RuleList) {
        RuleList::default().and(self).and(other)
    }

    fn custom<F: Fn(Value) -> (Value, Result<(), Message>) + 'static>(self, f: F) -> (r: RuleList) {
        RuleList::default().and(self).custom(f)
    }
}

impl<R: Rule + Sized> IntoRuleList for R {
    open spec fn list_rep(&self, r: RuleList) -> bool {
        r.list@.len() == 1 && r.list@[0].spec_name() == self.spec_name() && !r.is_bail && forall|
            pre: ValueMapV,
            post: ValueMapV,
            out: Option<MessageV>,
        |
            #[trigger] r.list@[0].admits(pre, post, out) == self.admits(pre, post, out)
    }

    fn into_list(self) -> RuleList {
        let r = RuleList::default().and(self);
        proof {
            assert(r.list@[0] == r.list@.last());
        }
        r
    }
}

} // verus!

verus! {

/// How the outcomes of a two-rule chain show up as collected failures:
/// one entry per failure, in rule order.
pub open spec fn two_rule_failures(
    a: ErasedRule,
    b: ErasedRule,
    outa: Option<MessageV>,
    outb: Option<MessageV>,
) -> Seq<(Seq<char>, MessageV)> {
    match (outa, outb) {
        (Option::None, Option::None) => Seq::empty(),
        (Option::Some(ma), Option::None) => seq![(a.spec_name(), ma)],
        (Option::None, Option::Some(mb)) => seq![(b.spec_name(), mb)],
        (Option::Some(ma), Option::Some(mb)) => seq![
            (a.spec_name(), ma),
            (b.spec_name(), mb),
        ],
    }
}

/// Rule order: in a two-rule chain without bail, the second rule is
/// evaluated against the state the first rule left, never the original
/// state, and the collected failures are the two outcomes in rule order.
pub proof fn lemma_rule_order(
    a: ErasedRule,
    b: ErasedRule,
    pre: ValueMapV,
    post: ValueMapV,
    msgs: Seq<(Seq<char>, MessageV)>,
)
    requires
        chain_admits(seq![a, b], false, pre, post, msgs),
    ensures
        exists|mid: ValueMapV, outa: Option<MessageV>, outb: Option<MessageV>|
            #![auto]
            a.admits(pre, mid, outa) && b.admits(mid, post, outb) && msgs == two_rule_failures(
                a,
                b,
                outa,
                outb,
            ),
{
    let two = seq![a, b];
    let (mid, outa) = choose|mid: ValueMapV, outa: Option<MessageV>|
        #![auto]
        two[0].admits(pre, mid, outa) && match outa {
            Option::None => chain_admits(two.drop_first(), false, mid, post, msgs),
            Option::Some(m) => msgs.len() >= 1 && msgs[0] == (two[0].spec_name(), m)
                && chain_admits(two.drop_first(), false, mid, post, msgs.drop_first()),
        };
    assert(two.drop_first() =~= seq![b]);
    let one = seq![b];
    assert(one.drop_first() =~= Seq::<ErasedRule>::empty());
    match outa {
        Option::None => {
            let (mid2, outb) = choose|mid2: ValueMapV, outb: Option<MessageV>|
                #![auto]
                one[0].admits(mid, mid2, outb) && match outb {
                    Option::None => chain_admits(one.drop_first(), false, mid2, post, msgs),
                    Option::Some(m) => msgs.len() >= 1 && msgs[0] == (one[0].spec_name(), m)
                        && chain_admits(one.drop_first(), false, mid2, post, msgs.drop_first()),
                };
            match outb {
                Option::None => {
                    assert(msgs =~= two_rule_failures(a, b, outa, outb));
                },
                Option::Some(mb) => {
                    assert(msgs.drop_first() =~= Seq::<(Seq<char>, MessageV)>::empty());
                    assert(msgs =~= two_rule_failures(a, b, outa, outb));
                },
            }
            assert(a.admits(pre, mid, outa) && b.admits(mid, post, outb) && msgs
                == two_rule_failures(a, b, outa, outb));
        },
        Option::Some(ma) => {
            let rest = msgs.drop_first();
            let (mid2, outb) = choose|mid2: ValueMapV, outb: Option<MessageV>|
                #![auto]
                one[0].admits(mid, mid2, outb) && match outb {
                    Option::None => chain_admits(one.drop_first(), false, mid2, post, rest),
                    Option::Some(m) => rest.len() >= 1 && rest[0] == (one[0].spec_name(), m)
                        && chain_admits(one.drop_first(), false, mid2, post, rest.drop_first()),
                };
            match outb {
                Option::None => {
                    assert(msgs =~= two_rule_failures(a, b, outa, outb));
                },
                Option::Some(mb) => {
                    assert(rest.drop_first() =~= Seq::<(Seq<char>, MessageV)>::empty());
                    assert(msgs =~= two_rule_failures(a, b, outa, outb));
                },
            }
            assert(a.admits(pre, mid, outa) && b.admits(mid, post, outb) && msgs
                == two_rule_failures(a, b, outa, outb));
        },
    }
}

/// Bail semantics, first half: with bail set, a chain of two rules that
/// can only fail reports exactly one failure, the first rule's.
pub proof fn lemma_bail_single_failure(
    a: ErasedRule,
    b: ErasedRule,
    pre: ValueMapV,
    post: ValueMapV,
    msgs: Seq<(Seq<char>, MessageV)>,
)
    requires
        chain_admits(seq![a, b], true, pre, post, msgs),
        forall|p: ValueMapV, q: ValueMapV, out: Option<MessageV>|
            #[trigger] a.admits(p, q, out) ==> out is Some,
    ensures
        msgs.len() == 1,
        msgs[0].0 == a.spec_name(),
{
    let two = seq![a, b];
    let (mid, outa) = choose|mid: ValueMapV, outa: Option<MessageV>|
        #![auto]
        two[0].admits(pre, mid, outa) && match outa {
            Option::None => chain_admits(two.drop_first(), true, mid, post, msgs),
            Option::Some(m) => msgs.len() >= 1 && msgs[0] == (two[0].spec_name(), m) && post == mid
                && msgs.len() == 1,
        };
    assert(outa is Some);
}

/// Bail semantics, second half: without bail, a chain of two rules that
/// can only fail reports both failures, in rule order.
pub proof fn lemma_no_bail_both_failures(
    a: ErasedRule,
    b: ErasedRule,
    pre: ValueMapV,
    post: ValueMapV,
    msgs: Seq<(Seq<char>, MessageV)>,
)
    requires
        chain_admits(seq![a, b], false, pre, post, msgs),
        forall|p: ValueMapV, q: ValueMapV, out: Option<MessageV>|
            #[trigger] a.admits(p, q, out) ==> out is Some,
        forall|p: ValueMapV, q: ValueMapV, out: Option<MessageV>|
            #[trigger] b.admits(p, q, out) ==> out is Some,
    ensures
        msgs.len() == 2,
        msgs[0].0 == a.spec_name(),
        msgs[1].0 == b.spec_name(),
{
    lemma_rule_order(a, b, pre, post, msgs);
    let (mid, outa, outb) = choose|mid: ValueMapV, outa: Option<MessageV>, outb: Option<
        MessageV,
    >|
        #![auto]
        a.admits(pre, mid, outa) && b.admits(mid, post, outb) && msgs == two_rule_failures(
            a,
            b,
            outa,
            outb,
        );
    assert(outa is Some && outb is Some);
}

} // verus!

verus! {

impl RuleList {
    /// Remaps every rule's failure payload through the given layer; the
    /// rules' names, their order, their effect on the context and the
    /// bail mode stay.
    pub fn map<F: Fn(Message) -> Message + Copy + 'static>(self, layer: F) -> (r: Self)
        requires
            forall|x: Message| #[trigger] call_requires(layer, (x,)),
        ensures
            r.list@.len() == self.list@.len(),
            r.is_bail == self.is_bail,
            forall|k: int|
                0 <= k < self.list@.len() ==> (#[trigger] r.list@[k]).spec_name()
                    == self.list@[k].spec_name(),
            forall|k: int, pre: ValueMapV, post: ValueMapV, out: Option<MessageV>|
                0 <= k < self.list@.len() ==> (#[trigger] r.list@[k].admits(pre, post, out))
                    == crate::boxed::mapped_admits(self.list@[k], layer, pre, post, out),
    {
        let ghost orig = self.list@;
        let mut rest = self.list;
        let mut out: Vec<ErasedRule> = Vec::new();
        proof {
            assert(rest@ =~= orig.skip(0));
        }
        while rest.len() > 0
            invariant
                out@.len() + rest@.len() == orig.len(),
                rest@ == orig.skip(out@.len() as int),
                forall|x: Message| #[trigger] call_requires(layer, (x,)),
                forall|k: int|
                    0 <= k < out@.len() ==> (#[trigger] out@[k]).spec_name()
                        == orig[k].spec_name(),
                forall|k: int, pre: ValueMapV, post: ValueMapV, o: Option<MessageV>|
                    0 <= k < out@.len() ==> (#[trigger] out@[k].admits(pre, post, o))
                        == crate::boxed::mapped_admits(orig[k], layer, pre, post, o),
            decreases rest@.len(),
        {
            let ghost k = out@.len() as int;
            let e = rest.remove(0);
            proof {
                assert(e == orig[k]);
                assert(rest@ =~= orig.skip(k + 1));
            }
            out.push(e.map(layer));
        }
        Self { list: out, is_bail: self.is_bail }
    }
}

} // verus!
