//! A lighter validator for single string values: rules run immediately as
//! fields are registered, and the collected failures are kept per field.

use vstd::prelude::*;

use crate::message::Message;
use crate::message::MessageV;
use crate::rule_list::chain_admits;
use crate::rule_list::msgs_view;
use crate::rule_list::IntoRuleList;
use crate::rule_list::RuleList;
use crate::value::Value;
use crate::value::ValueV;
use crate::value_map::ValueMap;
use crate::value_map::ValueMapV;

verus! {

/// What running a chain over one string amounts to: the chain runs
/// addressed at the root of a tree holding just that string.
pub open spec fn string_run(
    list: RuleList,
    s: Seq<char>,
    post: ValueMapV,
    msgs: Seq<(Seq<char>, MessageV)>,
) -> bool {
    chain_admits(
        list.list@,
        list.is_bail,
        ValueMapV { value: ValueV::String(s), index: Seq::empty() },
        post,
        msgs,
    )
}

/// The string the run left at the root, when it is still a string;
/// otherwise the original.
pub open spec fn string_result(post: ValueMapV, orig: Seq<char>) -> Seq<char> {
    match post.value {
        ValueV::String(s) => s,
        _ => orig,
    }
}

/// Runs a rule chain over one string value, returning the collected
/// failure messages in rule order; the possibly rewritten string is
/// dropped.
pub fn validate<R: IntoRuleList>(value: String, rules: R) -> (r: Vec<Message>)
    ensures
        exists|list: RuleList, post: ValueMapV, msgs: Seq<(Seq<char>, MessageV)>|
            #![auto]
            rules.list_rep(list) && string_run(list, value@, post, msgs) && r@.map_values(
                |m: Message| m@,
            ) == msgs.map_values(|nm: (Seq<char>, MessageV)| nm.1),
{
    let mut string = value;
    validate_ref(&mut string, rules)
}

/// Runs a rule chain over one string value in place: the rules' rewrites
/// are written back, and the collected failure messages come back in rule
/// order.
pub fn validate_ref<R: IntoRuleList>(value: &mut String, rules: R) -> (r: Vec<Message>)
    ensures
        exists|list: RuleList, post: ValueMapV, msgs: Seq<(Seq<char>, MessageV)>|
            #![auto]
            rules.list_rep(list) && string_run(list, old(value)@, post, msgs) && final(value)@
                == string_result(post, old(value)@) && r@.map_values(|m: Message| m@)
                == msgs.map_values(|nm: (Seq<char>, MessageV)| nm.1),
{
    let list = rules.into_list();
    let orig = value.clone();
    let mut s = String::new();
    core::mem::swap(value, &mut s);
    let mut map = ValueMap::new(Value::String(s));
    proof {
        assert(map@ == (ValueMapV { value: ValueV::String(old(value)@), index: Seq::empty() }));
        assert(map@.index =~= Seq::<crate::field_name::PathComp>::empty());
    }
    let msgs = list.call(&mut map);
    let ghost post = map@;
    let ghost msgsv = msgs_view(msgs@);
    match map.value() {
        Value::String(s2) => {
            *value = s2;
        },
        _ => {
            *value = orig;
        },
    }
    let mut out: Vec<Message> = Vec::new();
    let mut i: usize = 0;
    while i < msgs.len()
        invariant
            i <= msgs@.len(),
            out@.len() == i,
            forall|j: int| 0 <= j < i ==> (#[trigger] out@[j])@ == msgs@[j].1@,
        decreases msgs@.len() - i,
    {
        out.push(msgs[i].1.duplicate());
        i = i + 1;
    }
    proof {
        assert(out@.map_values(|m: Message| m@) =~= msgsv.map_values(
            |nm: (Seq<char>, MessageV)| nm.1,
        ));
        assert(rules.list_rep(list) && string_run(list, old(value)@, post, msgsv)
            && out@.map_values(|m: Message| m@) == msgsv.map_values(
            |nm: (Seq<char>, MessageV)| nm.1,
        ));
    }
    out
}

/// The per-field failure store of the string validator.
pub struct Validator<M> {
    pub map: Vec<(String, Vec<M>)>,
}

impl<M> Validator<M> {
    /// An empty store.
    pub fn new() -> (r: Self)
        ensures
            r.map@ == Seq::<(String, Vec<M>)>::empty(),
    {
        Self { map: Vec::new() }
    }

    /// Runs a one-off check immediately; its failure, if any, is stored
    /// under the field's name.
    pub fn insert_fn<F: FnOnce() -> Result<(), M>>(self, field: &str, f: F) -> (r: Self)
        requires
            call_requires(f, ()),
        ensures
            exists|res: Result<(), M>|
                #![auto]
                call_ensures(f, (), res) && match res {
                    Result::Ok(_) => r.map@ == self.map@,
                    Result::Err(m) => r.map@.len() == self.map@.len() + 1 && r.map@.drop_last()
                        == self.map@ && r.map@.last().0@ == field@ && r.map@.last().1@ == seq![m],
                },
    {
        let mut map = self.map;
        let res = f();
        match res {
            Ok(_) => Self { map },
            Err(m) => {
                let mut one: Vec<M> = Vec::new();
                one.push(m);
                map.push((field.to_owned(), one));
                proof {
                    assert(map@.drop_last() =~= self.map@);
                }
                Self { map }
            },
        }
    }

    /// Hands the data back when no failure was stored; otherwise hands
    /// the store back as the error.
    pub fn validate<T>(self, data: T) -> (r: Result<T, Validator<M>>)
        ensures
            match r {
                Result::Ok(d) => self.map@.len() == 0 && d == data,
                Result::Err(v) => self.map@.len() > 0 && v.map@ == self.map@,
            },
    {
        if self.map.len() == 0 {
            Ok(data)
        } else {
            Err(self)
        }
    }
}

impl Validator<Message> {
    /// Runs a rule chain over one field's string immediately, in place;
    /// its failures, if any, are stored under the field's name.
    pub fn insert<R: IntoRuleList>(self, field: &str, value: &mut String, rules: R) -> (r: Self)
        ensures
            exists|list: RuleList, post: ValueMapV, msgs: Seq<(Seq<char>, MessageV)>|
                #![auto]
                rules.list_rep(list) && string_run(list, old(value)@, post, msgs) && final(value)@
                    == string_result(post, old(value)@) && if msgs.len() == 0 {
                    r.map@ == self.map@
                } else {
                    r.map@.len() == self.map@.len() + 1 && r.map@.drop_last() == self.map@
                        && r.map@.last().0@ == field@ && r.map@.last().1@.map_values(
                        |m: Message| m@,
                    ) == msgs.map_values(|nm: (Seq<char>, MessageV)| nm.1)
                },
    {
        let mut map = self.map;
        let res = validate_ref(value, rules);
        let ghost resv = res@;
        proof {
            let (list, post, msgs) = choose|
                list: RuleList,
                post: ValueMapV,
                msgs: Seq<(Seq<char>, MessageV)>,
            |
                #![auto]
                rules.list_rep(list) && string_run(list, old(value)@, post, msgs) && value@
                    == string_result(post, old(value)@) && resv.map_values(|m: Message| m@)
                    == msgs.map_values(|nm: (Seq<char>, MessageV)| nm.1);
            assert(resv.map_values(|m: Message| m@).len() == resv.len());
            assert(msgs.map_values(|nm: (Seq<char>, MessageV)| nm.1).len() == msgs.len());
        }
        if res.len() > 0 {
            map.push((field.to_owned(), res));
            proof {
                assert(map@.drop_last() =~= self.map@);
                assert(map@.last().1@ == resv);
            }
        }
        Self { map }
    }
}

} // verus!
