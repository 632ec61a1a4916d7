use vstd::prelude::*;

use crate::message::Message;
use crate::message::MessageKindV;
use crate::message::MessageV;
use crate::value::Value;
use crate::value::ValueV;
use crate::value_map::lemma_take_restore;
use crate::value_map::ValueMap;
use crate::value_map::ValueMapV;

verus! {

/// The failure a rule call reports, as seen in contracts: `None` is a
/// pass, `Some` carries the failure payload.
pub open spec fn msg_view(r: Result<(), Message>) -> Option<MessageV> {
    match r {
        Result::Ok(_) => Option::None,
        Result::Err(m) => Option::Some(m@),
    }
}

/// The low-level rule contract: a named unit of validation logic that
/// receives the whole addressed context, may rewrite the addressed field,
/// and reports a pass or a failure payload.
///
/// `admits` is the rule's model: the relation its call is proved to
/// satisfy between the context before, the context after, and the
/// outcome.  Deterministic rules pin the relation down to a function;
/// closure-backed rules admit whatever their closure's contract allows.
pub trait Rule: 'static {
    /// The rule's name, as a character sequence.
    spec fn spec_name(&self) -> Seq<char>;

    /// The relation between the context before the call, the context
    /// after it, and the reported outcome.
    spec fn admits(&self, pre: ValueMapV, post: ValueMapV, out: Option<MessageV>) -> bool;

    /// Named rule type, used to tell rules apart and to key message
    /// overrides.
    fn name(&self) -> (r: &'static str)
        ensures
            r@ == self.spec_name(),
    ;

    /// Runs the rule against the addressed context.
    fn call(&self, data: &mut ValueMap) -> (r: Result<(), Message>)
        ensures
            self.admits(old(data)@, final(data)@, msg_view(r)),
    ;
}

/// The convenience contract: a named check on the single addressed value,
/// with a default failure payload.  It is lifted into [`Rule`] for every
/// implementor.
pub trait RuleShortcut: 'static {
    /// The rule's name, as a character sequence.
    spec fn spec_name(&self) -> Seq<char>;

    /// The default failure payload, as seen in contracts.
    spec fn spec_message(&self) -> MessageV;

    /// The rule's model: what the check does to the addressed value and
    /// whether it passes.
    spec fn spec_check(&self, v: ValueV) -> (ValueV, bool);

    /// Named rule type.
    fn name(&self) -> (r: &'static str)
        ensures
            r@ == self.spec_name(),
    ;

    /// The default failure payload, returned when the check fails.
    fn message(&self) -> (m: Message)
        ensures
            m@ == self.spec_message(),
    ;

    /// The check itself; it may rewrite the value in place.
    fn call(&self, value: &mut Value) -> (r: bool)
        ensures
            self.spec_check(old(value)@) == (final(value)@, r),
    ;
}

/// How a lifted convenience rule behaves on the whole context: it runs on
/// the addressed value and rewrites it in place; when the addressed path
/// does not resolve there is nothing to check, and the rule reports its
/// own failure payload with the context unchanged.
pub open spec fn shortcut_admits<T: RuleShortcut>(
    rule: &T,
    pre: ValueMapV,
    post: ValueMapV,
    out: Option<MessageV>,
) -> bool {
    match pre.current() {
        Option::Some(v) => {
            let (v2, ok) = rule.spec_check(v);
            post == pre.with_current(v2) && out == if ok {
                Option::<MessageV>::None
            } else {
                Option::Some(rule.spec_message())
            }
        },
        Option::None => post == pre && out == Option::Some(rule.spec_message()),
    }
}

impl<T: RuleShortcut> Rule for T {
    open spec fn spec_name(&self) -> Seq<char> {
        RuleShortcut::spec_name(self)
    }

    open spec fn admits(&self, pre: ValueMapV, post: ValueMapV, out: Option<MessageV>) -> bool {
        shortcut_admits(self, pre, post, out)
    }

    fn name(&self) -> (r: &'static str) {
        RuleShortcut::name(self)
    }

    fn call(&self, data: &mut ValueMap) -> (r: Result<(), Message>) {
        match data.take_current() {
            Some(mut cur) => {
                let ok = RuleShortcut::call(self, &mut cur);
                proof {
                    lemma_take_restore(old(data)@, ValueV::Unit, cur@);
                }
                data.restore_current(cur);
                if ok {
                    Ok(())
                } else {
                    Err(RuleShortcut::message(self))
                }
            },
            None => Err(RuleShortcut::message(self)),
        }
    }
}

/// The failure payload a closure rule reports when the addressed path
/// does not resolve.
pub open spec fn custom_miss_message() -> MessageV {
    MessageV { kind: MessageKindV::Fallback("value not found"@), content: "value not found"@ }
}

/// A rule made from a plain function on the addressed value: it receives
/// the value, hands back the possibly rewritten value, and reports a pass
/// or a failure payload.  Its rule name is the fixed marker `custom`.
pub struct FnRule<F: Fn(Value) -> (Value, Result<(), Message>) + 'static> {
    f: F,
}

#[verifier::type_invariant]
pub closed spec fn fn_rule_inv<F: Fn(Value) -> (Value, Result<(), Message>) + 'static>(
    r: &FnRule<F>,
) -> bool {
    forall|v: Value| #[trigger] call_requires(r.f, (v,))
}

impl<F: Fn(Value) -> (Value, Result<(), Message>) + 'static> FnRule<F> {
    /// Wraps a total function as a rule.
    pub fn new(f: F) -> (r: Self)
        requires
            forall|v: Value| #[trigger] call_requires(f, (v,)),
        ensures
            forall|pre: ValueMapV, post: ValueMapV, out: Option<MessageV>|
                #[trigger] r.admits(pre, post, out) == fn_rule_admits(f, pre, post, out),
    {
        FnRule { f }
    }
}

/// What a closure rule admits: on a resolving path, whatever its function
/// allows between the old and new value and the outcome; on a path that
/// does not resolve, the fixed miss payload with the context unchanged.
pub open spec fn fn_rule_admits<F: Fn(Value) -> (Value, Result<(), Message>) + 'static>(
    f: F,
    pre: ValueMapV,
    post: ValueMapV,
    out: Option<MessageV>,
) -> bool {
    match pre.current() {
        Option::Some(v) => exists|arg: Value, ret: (Value, Result<(), Message>)|
            #![auto]
            arg@ == v && call_ensures(f, (arg,), ret) && post == pre.with_current(ret.0@) && out
                == msg_view(ret.1),
        Option::None => post == pre && out == Option::Some(custom_miss_message()),
    }
}

impl<F: Fn(Value) -> (Value, Result<(), Message>) + 'static> Rule for FnRule<F> {
    open spec fn spec_name(&self) -> Seq<char> {
        "custom"@
    }

    closed spec fn admits(&self, pre: ValueMapV, post: ValueMapV, out: Option<MessageV>) -> bool {
        fn_rule_admits(self.f, pre, post, out)
    }

    fn name(&self) -> (r: &'static str) {
        "custom"
    }

    fn call(&self, data: &mut ValueMap) -> (r: Result<(), Message>) {
        proof {
            use_type_invariant(self);
        }
        match data.take_current() {
            Some(cur) => {
                let (v2, res) = (self.f)(cur);
                proof {
                    lemma_take_restore(old(data)@, ValueV::Unit, v2@);
                }
                data.restore_current(v2);
                res
            },
            None => Err(Message::fallback("value not found")),
        }
    }
}

} // verus!
