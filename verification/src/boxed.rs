use vstd::prelude::*;

use crate::message::Message;
use crate::message::MessageV;
use crate::rule::msg_view;
use crate::rule::Rule;
use crate::value_map::ValueMap;
use crate::value_map::ValueMapV;

verus! {

/// The object-level rule contract behind the erasure: the same surface as
/// [`Rule`], narrow enough to stand behind a uniform owned indirection.
pub trait BoxedRule {
    /// The rule's name, as a character sequence.
    spec fn spec_name(&self) -> Seq<char>;

    /// The relation between the context before the call, the context
    /// after it, and the reported outcome.
    spec fn admits(&self, pre: ValueMapV, post: ValueMapV, out: Option<MessageV>) -> bool;

    /// Named rule type.
    fn name(&self) -> (r: &'static str)
        ensures
            r@ == self.spec_name(),
    ;

    /// Runs the rule against the addressed context.
    fn call(&self, data: &mut ValueMap) -> (r: Result<(), Message>)
        ensures
            self.admits(old(data)@, final(data)@, msg_view(r)),
    ;
}

/// The adapter that carries one concrete [`Rule`] implementor behind the
/// object-level contract.
pub struct RuleIntoBoxed<H: Rule> {
    pub handler: H,
}

impl<H: Rule> RuleIntoBoxed<H> {
    pub fn new(handler: H) -> (r: Self)
        ensures
            r.handler == handler,
    {
        Self { handler }
    }
}

impl<H: Rule> BoxedRule for RuleIntoBoxed<H> {
    open spec fn spec_name(&self) -> Seq<char> {
        self.handler.spec_name()
    }

    open spec fn admits(&self, pre: ValueMapV, post: ValueMapV, out: Option<MessageV>) -> bool {
        self.handler.admits(pre, post, out)
    }

    fn name(&self) -> (r: &'static str) {
        self.handler.name()
    }

    fn call(&self, data: &mut ValueMap) -> (r: Result<(), Message>) {
        self.handler.call(data)
    }
}

/// One rule with its concrete type hidden, so that rules of different
/// types can live in one ordered chain.
pub struct ErasedRule(pub Box<dyn BoxedRule>);

impl ErasedRule {
    /// The erased rule's name.
    pub open spec fn spec_name(&self) -> Seq<char> {
        self.0.spec_name()
    }

    /// The erased rule's model: the relation of the rule it hides.
    pub open spec fn admits(&self, pre: ValueMapV, post: ValueMapV, out: Option<MessageV>) -> bool {
        self.0.admits(pre, post, out)
    }

    /// Erases one concrete rule.
    pub fn new<H: Rule>(handler: H) -> (r: Self)
        ensures
            r.spec_name() == handler.spec_name(),
            forall|pre: ValueMapV, post: ValueMapV, out: Option<MessageV>|
                #[trigger] r.admits(pre, post, out) == handler.admits(pre, post, out),
    {
        ErasedRule(Box::new(RuleIntoBoxed::new(handler)))
    }

    /// Named rule type.
    pub fn name(&self) -> (r: &'static str)
        ensures
            r@ == self.spec_name(),
    {
        self.0.name()
    }

    /// Runs the hidden rule against the addressed context.
    pub fn call(&self, data: &mut ValueMap) -> (r: Result<(), Message>)
        ensures
            self.admits(old(data)@, final(data)@, msg_view(r)),
    {
        self.0.call(data)
    }
}

} // verus!

verus! {

/// What a remapped rule admits: the hidden rule's relation, with a
/// failure payload transformed by whatever the layer's contract allows.
pub open spec fn mapped_admits<F: Fn(Message) -> Message + 'static>(
    inner: ErasedRule,
    layer: F,
    pre: ValueMapV,
    post: ValueMapV,
    out: Option<MessageV>,
) -> bool {
    exists|out0: Option<MessageV>|
        #![auto]
        inner.admits(pre, post, out0) && match (out0, out) {
            (Option::None, Option::None) => true,
            (Option::Some(m0), Option::Some(m)) => exists|arg: Message, ret: Message|
                #![auto]
                arg@ == m0 && call_ensures(layer, (arg,), ret) && ret@ == m,
            _ => false,
        }
}

/// The adapter that composes over an erased rule and remaps its failure
/// payload, leaving its name and its effect on the context untouched.
pub struct MessageMap<F: Fn(Message) -> Message + 'static> {
    inner: ErasedRule,
    layer: F,
}

#[verifier::type_invariant]
pub closed spec fn message_map_inv<F: Fn(Message) -> Message + 'static>(m: &MessageMap<F>) -> bool {
    forall|x: Message| #[trigger] call_requires(m.layer, (x,))
}

impl<F: Fn(Message) -> Message + 'static> BoxedRule for MessageMap<F> {
    closed spec fn spec_name(&self) -> Seq<char> {
        self.inner.spec_name()
    }

    closed spec fn admits(&self, pre: ValueMapV, post: ValueMapV, out: Option<MessageV>) -> bool {
        mapped_admits(self.inner, self.layer, pre, post, out)
    }

    fn name(&self) -> (r: &'static str) {
        self.inner.name()
    }

    fn call(&self, data: &mut ValueMap) -> (r: Result<(), Message>) {
        proof {
            use_type_invariant(self);
        }
        match self.inner.call(data) {
            Ok(_) => Ok(()),
            Err(m0) => {
                let m = (self.layer)(m0);
                Err(m)
            },
        }
    }
}

impl ErasedRule {
    /// Wraps this rule so that its failure payload is remapped by the
    /// given layer; the rule's name and its effect on the context stay.
    pub fn map<F: Fn(Message) -> Message + 'static>(self, layer: F) -> (r: ErasedRule)
        requires
            forall|x: Message| #[trigger] call_requires(layer, (x,)),
        ensures
            r.spec_name() == self.spec_name(),
            forall|pre: ValueMapV, post: ValueMapV, out: Option<MessageV>|
                #[trigger] r.admits(pre, post, out) == mapped_admits(self, layer, pre, post, out),
    {
        ErasedRule(Box::new(MessageMap { inner: self, layer }))
    }
}

} // verus!
