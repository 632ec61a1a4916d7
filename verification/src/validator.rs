use vstd::prelude::*;

use crate::field_name::comps_of;
use crate::field_name::FieldNames;
use crate::message::Message;
use crate::message::MessageV;
use crate::parser::last_dot;
use crate::parser::parse;
use crate::parser::parse_message;
use crate::parser::spec_parse;
use crate::rule_list::chain_admits;
use crate::rule_list::msgs_view;
use crate::rule_list::IntoRuleList;
use crate::rule_list::RuleList;
use crate::value::Value;
use crate::value::ValueV;
use crate::value_map::ValueMap;
use crate::value_map::ValueMapV;

verus! {

/// The views of stored message overrides: field path, rule name,
/// replacement text.
pub open spec fn ovr_view(os: Seq<(String, String, String)>) -> Seq<
    (Seq<char>, Seq<char>, Seq<char>),
> {
    os.map_values(|o: (String, String, String)| (o.0@, o.1@, o.2@))
}

/// The first replacement text configured for this field and rule name.
pub open spec fn find_override(
    ovr: Seq<(Seq<char>, Seq<char>, Seq<char>)>,
    field: Seq<char>,
    rule: Seq<char>,
) -> Option<Seq<char>>
    decreases ovr.len(),
{
    if ovr.len() == 0 {
        Option::None
    } else if ovr[0].0 == field && ovr[0].1 == rule {
        Option::Some(ovr[0].2)
    } else {
        find_override(ovr.drop_first(), field, rule)
    }
}

/// A collected failure after override application: the configured text
/// replaces the default one, the kind stays.
pub open spec fn override_msg(
    ovr: Seq<(Seq<char>, Seq<char>, Seq<char>)>,
    field: Seq<char>,
    rule: Seq<char>,
    m: MessageV,
) -> MessageV {
    match find_override(ovr, field, rule) {
        Option::Some(t) => MessageV { kind: m.kind, content: t },
        Option::None => m,
    }
}

/// A field's collected failures after override application, in rule
/// order.
pub open spec fn apply_overrides(
    ovr: Seq<(Seq<char>, Seq<char>, Seq<char>)>,
    field: Seq<char>,
    msgs: Seq<(Seq<char>, MessageV)>,
) -> Seq<MessageV> {
    msgs.map_values(|nm: (Seq<char>, MessageV)| override_msg(ovr, field, nm.0, nm.1))
}

/// The views of a report's entries: field path and its ordered messages.
pub open spec fn report_view(es: Seq<(String, Vec<Message>)>) -> Seq<(Seq<char>, Seq<MessageV>)> {
    es.map_values(
        |e: (String, Vec<Message>)| (e.0@, e.1@.map_values(|m: Message| m@)),
    )
}

/// One full validation pass: each bound field's chain runs in binding
/// order against the tree the earlier chains left, each chain starts
/// addressed at its own parsed path, and the report collects, in binding
/// order, one entry per field whose chain failed, with that field's
/// messages after override application.
pub open spec fn validator_run(
    bs: Seq<(FieldNames, RuleList)>,
    ovr: Seq<(Seq<char>, Seq<char>, Seq<char>)>,
    pre: ValueV,
    post: ValueV,
    report: Seq<(Seq<char>, Seq<MessageV>)>,
) -> bool
    decreases bs.len(),
{
    if bs.len() == 0 {
        post == pre && report == Seq::<(Seq<char>, Seq<MessageV>)>::empty()
    } else {
        let path = spec_parse(bs[0].0@)->0;
        exists|mid: ValueMapV, msgs: Seq<(Seq<char>, MessageV)>|
            #![auto]
            chain_admits(
                bs[0].1.list@,
                bs[0].1.is_bail,
                ValueMapV { value: pre, index: path },
                mid,
                msgs,
            ) && if msgs.len() == 0 {
                validator_run(bs.drop_first(), ovr, mid.value, post, report)
            } else {
                report.len() >= 1 && report[0] == (bs[0].0@, apply_overrides(ovr, bs[0].0@, msgs))
                    && validator_run(bs.drop_first(), ovr, mid.value, post, report.drop_first())
            }
    }
}

/// The aggregated failure report of one validation pass: for each failed
/// field, in binding order, the field's path string and its ordered
/// messages.
#[derive(Debug)]
pub struct Report {
    pub entries: Vec<(String, Vec<Message>)>,
}

impl View for Report {
    type V = Seq<(Seq<char>, Seq<MessageV>)>;

    open spec fn view(&self) -> Seq<(Seq<char>, Seq<MessageV>)> {
        report_view(self.entries@)
    }
}

impl Report {
    /// Number of failed fields.
    pub fn len(&self) -> (r: usize)
        ensures
            r == self@.len(),
    {
        self.entries.len()
    }

    /// Whether no field failed.
    pub fn is_empty(&self) -> (r: bool)
        ensures
            r == (self@.len() == 0),
    {
        self.entries.len() == 0
    }

    /// The ordered messages of one failed field, by its path string.
    pub fn get<'a>(&'a self, field: &str) -> (r: Option<&'a Vec<Message>>)
        ensures
            match r {
                Option::Some(ms) => exists|i: int|
                    0 <= i < self@.len() && (#[trigger] self@[i]) == (
                        field@,
                        ms@.map_values(|m: Message| m@),
                    ),
                Option::None => forall|i: int|
                    0 <= i < self@.len() ==> (#[trigger] self@[i]).0 != field@,
            },
    {
        let key = field.to_owned();
        let mut i: usize = 0;
        while i < self.entries.len()
            invariant
                i <= self.entries@.len(),
                key@ == field@,
                forall|j: int| 0 <= j < i ==> (#[trigger] self.entries@[j]).0@ != field@,
        decreases self.entries@.len() - i,
        {
            if self.entries[i].0.eq(&key) {
                proof {
                    assert(self@[i as int] == (
                        field@,
                        self.entries@[i as int].1@.map_values(|m: Message| m@),
                    ));
                }
                return Some(&self.entries[i].1);
            }
            i = i + 1;
        }
        None
    }
}

/// Converts a caller-supplied field key into a raw path string.
pub trait IntoFieldName {
    /// The path string this key stands for.
    spec fn spec_field(&self) -> Seq<char>;

    /// Renders the key.
    fn into_field(self) -> (r: Result<FieldNames, String>) where Self: Sized
        ensures
            r matches Result::Ok(f) && f@ == self.spec_field(),
    ;
}

impl IntoFieldName for &str {
    open spec fn spec_field(&self) -> Seq<char> {
        self@
    }

    fn into_field(self) -> (r: Result<FieldNames, String>) {
        Ok(FieldNames::new(self.to_owned()))
    }
}

impl IntoFieldName for u8 {
    open spec fn spec_field(&self) -> Seq<char> {
        crate::field_name::dec_uint(*self as int)
    }

    fn into_field(self) -> (r: Result<FieldNames, String>) {
        Ok(FieldNames::new(crate::field_name::uint_to_string(self as u64)))
    }
}

impl IntoFieldName for (u8, u8) {
    open spec fn spec_field(&self) -> Seq<char> {
        crate::field_name::dec_uint(self.0 as int) + "."@ + crate::field_name::dec_uint(
            self.1 as int,
        )
    }

    fn into_field(self) -> (r: Result<FieldNames, String>) {
        let mut s = crate::field_name::uint_to_string(self.0 as u64);
        s.append(".");
        let t = crate::field_name::uint_to_string(self.1 as u64);
        s.append(t.as_str());
        Ok(FieldNames::new(s))
    }
}

impl IntoFieldName for (u8, u8, u8) {
    open spec fn spec_field(&self) -> Seq<char> {
        crate::field_name::dec_uint(self.0 as int) + "."@ + crate::field_name::dec_uint(
            self.1 as int,
        ) + "."@ + crate::field_name::dec_uint(self.2 as int)
    }

    fn into_field(self) -> (r: Result<FieldNames, String>) {
        let mut s = crate::field_name::uint_to_string(self.0 as u64);
        s.append(".");
        let t = crate::field_name::uint_to_string(self.1 as u64);
        s.append(t.as_str());
        s.append(".");
        let u = crate::field_name::uint_to_string(self.2 as u64);
        s.append(u.as_str());
        Ok(FieldNames::new(s))
    }
}

impl IntoFieldName for [usize; 1] {
    open spec fn spec_field(&self) -> Seq<char> {
        "["@ + crate::field_name::dec_uint(self[0] as int) + "]"@
    }

    fn into_field(self) -> (r: Result<FieldNames, String>) {
        let mut s = String::new();
        s.append("[");
        let t = crate::field_name::uint_to_string(self[0] as u64);
        s.append(t.as_str());
        s.append("]");
        Ok(FieldNames::new(s))
    }
}

/// The orchestrator: binds field paths to rule chains and message
/// overrides, and drives one validation pass over a tree.
pub struct Validator {
    pub bindings: Vec<(FieldNames, RuleList)>,
    pub overrides: Vec<(String, String, String)>,
}

impl Validator {
    /// Every bound field path is syntactically valid.
    pub open spec fn wf(self) -> bool {
        forall|i: int|
            0 <= i < self.bindings@.len() ==> spec_parse(
                (#[trigger] self.bindings@[i]).0@,
            ) is Some
    }

    /// An empty validator: no bindings, no overrides.
    pub fn new() -> (r: Self)
        ensures
            r.bindings@ == Seq::<(FieldNames, RuleList)>::empty(),
            r.overrides@ == Seq::<(String, String, String)>::empty(),
            r.wf(),
    {
        Validator { bindings: Vec::new(), overrides: Vec::new() }
    }

    /// Binds one field path to one rule chain.
    pub fn rule<F: IntoFieldName, R: IntoRuleList>(self, field: F, rules: R) -> (r: Self)
        ensures
            r.bindings@.len() == self.bindings@.len() + 1,
            r.bindings@.drop_last() == self.bindings@,
            r.bindings@.last().0@ == field.spec_field(),
            rules.list_rep(r.bindings@.last().1),
            r.overrides@ == self.overrides@,
    {
        let mut bindings = self.bindings;
        match field.into_field() {
            Ok(f) => {
                bindings.push((f, rules.into_list()));
            },
            Err(_) => {
                // no key renderer ever fails
                proof {
                    assert(false);
                }
            },
        }
        proof {
            assert(bindings@.drop_last() =~= self.bindings@);
        }
        Validator { bindings, overrides: self.overrides }
    }

    /// Registers message overrides from `field-path.rule-name` keys, in
    /// order: each key, which must contain a dot, is split on its last
    /// dot into the field path and the rule name it overrides.
    pub fn message(self, pairs: Vec<(&str, &str)>) -> (r: Self)
        requires
            forall|i: int| 0 <= i < pairs@.len() ==> last_dot((#[trigger] pairs@[i]).0@) is Some,
        ensures
            r.bindings@ == self.bindings@,
            r.overrides@.len() == self.overrides@.len() + pairs@.len(),
            forall|i: int|
                0 <= i < self.overrides@.len() ==> r.overrides@[i] == #[trigger] self.overrides@[i],
            forall|i: int|
                0 <= i < pairs@.len() ==> ovr_view(r.overrides@)[self.overrides@.len() + i] == ((
                    #[trigger] pairs@[i]).0@.take(last_dot(pairs@[i].0@)->0),
                pairs@[i].0@.skip(last_dot(pairs@[i].0@)->0 + 1),
                pairs@[i].1@,
            ),
    {
        let mut overrides = self.overrides;
        let mut i: usize = 0;
        while i < pairs.len()
            invariant
                i <= pairs@.len(),
                overrides@.len() == self.overrides@.len() + i,
                forall|j: int| 0 <= j < pairs@.len() ==> last_dot((#[trigger] pairs@[j]).0@) is Some,
                forall|j: int|
                    0 <= j < self.overrides@.len() ==> overrides@[j] == #[trigger] self.overrides@[j],
                forall|j: int|
                    0 <= j < i ==> ovr_view(overrides@)[self.overrides@.len() + j] == ((
                        #[trigger] pairs@[j]).0@.take(last_dot(pairs@[j].0@)->0),
                    pairs@[j].0@.skip(last_dot(pairs@[j].0@)->0 + 1),
                    pairs@[j].1@,
                ),
            decreases pairs@.len() - i,
        {
            let (key, text) = pairs[i];
            match parse_message(key) {
                Ok(mk) => {
                    overrides.push((mk.fields.string, mk.rule, text.to_owned()));
                },
                Err(_) => {
                    // unreachable: every key holds a dot
                    proof {
                        assert(false);
                    }
                },
            }
            i = i + 1;
        }
        Validator { bindings: self.bindings, overrides }
    }

    /// The first replacement text configured for this field and rule.
    fn override_for<'a>(&'a self, field: &String, rule: &str) -> (r: Option<&'a String>)
        ensures
            match r {
                Option::Some(t) => find_override(ovr_view(self.overrides@), field@, rule@)
                    == Option::Some(t@),
                Option::None => find_override(ovr_view(self.overrides@), field@, rule@) is None,
            },
    {
        let rule_string = rule.to_owned();
        let ghost ovr = ovr_view(self.overrides@);
        let mut i: usize = 0;
        proof {
            assert(ovr.skip(0) =~= ovr);
        }
        while i < self.overrides.len()
            invariant
                i <= self.overrides@.len(),
                ovr == ovr_view(self.overrides@),
                rule_string@ == rule@,
                find_override(ovr, field@, rule@) == find_override(
                    ovr.skip(i as int),
                    field@,
                    rule@,
                ),
            decreases self.overrides@.len() - i,
        {
            proof {
                assert(ovr.skip(i as int)[0] == ovr[i as int]);
                assert(ovr.skip(i as int).drop_first() =~= ovr.skip(i as int + 1));
            }
            if self.overrides[i].0.eq(field) && self.overrides[i].1.eq(&rule_string) {
                return Some(&self.overrides[i].2);
            }
            i = i + 1;
        }
        proof {
            assert(ovr.skip(self.overrides@.len() as int)
                =~= Seq::<(Seq<char>, Seq<char>, Seq<char>)>::empty());
        }
        None
    }

    /// A field's collected failures with overrides applied, in rule
    /// order.
    fn convert_msgs(&self, field: &String, msgs: Vec<(&'static str, Message)>) -> (r: Vec<Message>)
        ensures
            r@.map_values(|m: Message| m@) == apply_overrides(
                ovr_view(self.overrides@),
                field@,
                msgs_view(msgs@),
            ),
    {
        let mut out: Vec<Message> = Vec::new();
        let mut i: usize = 0;
        while i < msgs.len()
            invariant
                i <= msgs@.len(),
                out@.len() == i,
                forall|j: int|
                    0 <= j < i ==> (#[trigger] out@[j])@ == override_msg(
                        ovr_view(self.overrides@),
                        field@,
                        msgs@[j].0@,
                        msgs@[j].1@,
                    ),
            decreases msgs@.len() - i,
        {
            let name = msgs[i].0;
            let m = &msgs[i].1;
            match self.override_for(field, name) {
                Some(t) => {
                    let t2 = t.clone();
                    out.push(m.with_text(t2.as_str()));
                },
                None => {
                    out.push(m.duplicate());
                },
            }
            i = i + 1;
        }
        proof {
            assert(out@.map_values(|m: Message| m@) =~= apply_overrides(
                ovr_view(self.overrides@),
                field@,
                msgs_view(msgs@),
            ));
        }
        out
    }

    /// Whether every bound field path parses.
    pub fn wf_check(&self) -> (r: bool)
        ensures
            r == self.wf(),
    {
        let mut i: usize = 0;
        while i < self.bindings.len()
            invariant
                i <= self.bindings@.len(),
                forall|j: int|
                    0 <= j < i ==> spec_parse((#[trigger] self.bindings@[j]).0@) is Some,
            decreases self.bindings@.len() - i,
        {
            match parse(self.bindings[i].0.string().as_str()) {
                Ok(_) => {},
                Err(_) => {
                    return false;
                },
            }
            i = i + 1;
        }
        true
    }

    /// Runs one validation pass over a tree: every bound chain runs in
    /// binding order, each addressed at its own field; when no chain
    /// fails, the (possibly rewritten) tree comes back, otherwise the
    /// aggregated report does.
    pub fn validate_value(&self, value: Value) -> (r: Result<Value, Report>)
        requires
            self.wf(),
        ensures
            match r {
                Result::Ok(v) => validator_run(
                    self.bindings@,
                    ovr_view(self.overrides@),
                    value@,
                    v@,
                    Seq::<(Seq<char>, Seq<MessageV>)>::empty(),
                ),
                Result::Err(rep) => rep@.len() > 0 && exists|post: ValueV|
                    validator_run(
                        self.bindings@,
                        ovr_view(self.overrides@),
                        value@,
                        post,
                        rep@,
                    ),
            },
    {
        let ghost ovr = ovr_view(self.overrides@);
        let ghost pre0 = value@;
        let mut map = ValueMap::new(value);
        let mut report: Vec<(String, Vec<Message>)> = Vec::new();
        let mut i: usize = 0;
        proof {
            assert(self.bindings@.skip(0) =~= self.bindings@);
            assert(report_view(report@) =~= Seq::<(Seq<char>, Seq<MessageV>)>::empty());
            assert(report_view(report@) + Seq::<(Seq<char>, Seq<MessageV>)>::empty()
                =~= report_view(report@));
        }
        while i < self.bindings.len()
            invariant
                i <= self.bindings@.len(),
                self.wf(),
                ovr == ovr_view(self.overrides@),
                forall|post: ValueV, suf: Seq<(Seq<char>, Seq<MessageV>)>|
                    validator_run(self.bindings@.skip(i as int), ovr, map@.value, post, suf)
                        ==> validator_run(self.bindings@, ovr, pre0, post, report_view(report@) + suf),
            decreases self.bindings@.len() - i,
        {
            let ghost rest = self.bindings@.skip(i as int);
            let ghost acc0 = report_view(report@);
            proof {
                assert(rest[0] == self.bindings@[i as int]);
                assert(rest.drop_first() =~= self.bindings@.skip(i as int + 1));
            }
            match parse(self.bindings[i].0.string().as_str()) {
                Ok(parsed) => {
                    let ghost path = spec_parse(self.bindings@[i as int].0@)->0;
                    map.index(parsed);
                    let ghost st0 = map@;
                    let msgs = self.bindings[i].1.call(&mut map);
                    proof {
                        assert(st0 == (ValueMapV { value: st0.value, index: path }));
                    }
                    if msgs.len() > 0 {
                        let ghost msgsv = msgs_view(msgs@);
                        let converted = self.convert_msgs(self.bindings[i].0.string(), msgs);
                        let field_string = self.bindings[i].0.string().clone();
                        report.push((field_string, converted));
                        proof {
                            assert(report_view(report@) =~= acc0 + seq![
                                (
                                    self.bindings@[i as int].0@,
                                    apply_overrides(ovr, self.bindings@[i as int].0@, msgsv),
                                ),
                            ]);
                            assert forall|post: ValueV, suf: Seq<(Seq<char>, Seq<MessageV>)>|
                                validator_run(
                                    self.bindings@.skip(i as int + 1),
                                    ovr,
                                    map@.value,
                                    post,
                                    suf,
                                ) implies validator_run(
                                self.bindings@,
                                ovr,
                                pre0,
                                post,
                                report_view(report@) + suf,
                            ) by {
                                let entry = (
                                    self.bindings@[i as int].0@,
                                    apply_overrides(ovr, self.bindings@[i as int].0@, msgsv),
                                );
                                let withe = seq![entry] + suf;
                                assert(withe.drop_first() =~= suf);
                                assert(withe[0] == entry);
                                assert(validator_run(rest, ovr, st0.value, post, withe));
                                assert(acc0 + withe =~= report_view(report@) + suf);
                            }
                        }
                    } else {
                        proof {
                            assert(msgs_view(msgs@) =~= Seq::<(Seq<char>, MessageV)>::empty());
                            assert forall|post: ValueV, suf: Seq<(Seq<char>, Seq<MessageV>)>|
                                validator_run(
                                    self.bindings@.skip(i as int + 1),
                                    ovr,
                                    map@.value,
                                    post,
                                    suf,
                                ) implies validator_run(
                                self.bindings@,
                                ovr,
                                pre0,
                                post,
                                report_view(report@) + suf,
                            ) by {
                                assert(validator_run(rest, ovr, st0.value, post, suf));
                            }
                        }
                    }
                },
                Err(_) => {
                    // unreachable: every bound path parses
                    proof {
                        assert(false);
                    }
                },
            }
            i = i + 1;
        }
        proof {
            assert(self.bindings@.skip(self.bindings@.len() as int)
                =~= Seq::<(FieldNames, RuleList)>::empty());
            assert(validator_run(
                self.bindings@.skip(self.bindings@.len() as int),
                ovr,
                map@.value,
                map@.value,
                Seq::<(Seq<char>, Seq<MessageV>)>::empty(),
            ));
            assert(report_view(report@) + Seq::<(Seq<char>, Seq<MessageV>)>::empty()
                =~= report_view(report@));
        }
        if report.len() == 0 {
            proof {
                assert(report_view(report@) =~= Seq::<(Seq<char>, Seq<MessageV>)>::empty());
            }
            Ok(map.value())
        } else {
            let ghost finalv = map@.value;
            let rep = Report { entries: report };
            proof {
                assert(validator_run(self.bindings@, ovr, pre0, finalv, rep@));
            }
            Err(rep)
        }
    }
}

} // verus!

verus! {

/// Aggregation independence: with two bound fields where the first
/// field's chain can only fail and the second field's chain can only
/// pass, one validation pass reports exactly the first field's failures
/// — and the second field's chain was still run: the pass ends in a tree
/// that the second chain produced from the tree the first chain left.
pub proof fn lemma_aggregation_independence(
    x: (FieldNames, RuleList),
    y: (FieldNames, RuleList),
    ovr: Seq<(Seq<char>, Seq<char>, Seq<char>)>,
    pre: ValueV,
    post: ValueV,
    report: Seq<(Seq<char>, Seq<MessageV>)>,
)
    requires
        validator_run(seq![x, y], ovr, pre, post, report),
        forall|p: ValueMapV, q: ValueMapV, msgs: Seq<(Seq<char>, MessageV)>|
            #[trigger] chain_admits(x.1.list@, x.1.is_bail, p, q, msgs) ==> msgs.len() > 0,
        forall|p: ValueMapV, q: ValueMapV, msgs: Seq<(Seq<char>, MessageV)>|
            #[trigger] chain_admits(y.1.list@, y.1.is_bail, p, q, msgs) ==> msgs.len() == 0,
    ensures
        report.len() == 1,
        report[0].0 == x.0@,
        exists|xmid: ValueMapV, ymid: ValueMapV|
            #![auto]
            chain_admits(
                y.1.list@,
                y.1.is_bail,
                ValueMapV { value: xmid.value, index: spec_parse(y.0@)->0 },
                ymid,
                Seq::<(Seq<char>, MessageV)>::empty(),
            ) && ymid.value == post,
{
    let two = seq![x, y];
    let xpath = spec_parse(two[0].0@)->0;
    let (xmid, xmsgs) = choose|mid: ValueMapV, msgs: Seq<(Seq<char>, MessageV)>|
        #![auto]
        chain_admits(
            two[0].1.list@,
            two[0].1.is_bail,
            ValueMapV { value: pre, index: xpath },
            mid,
            msgs,
        ) && if msgs.len() == 0 {
            validator_run(two.drop_first(), ovr, mid.value, post, report)
        } else {
            report.len() >= 1 && report[0] == (two[0].0@, apply_overrides(ovr, two[0].0@, msgs))
                && validator_run(two.drop_first(), ovr, mid.value, post, report.drop_first())
        };
    assert(xmsgs.len() > 0);
    assert(two.drop_first() =~= seq![y]);
    let one = seq![y];
    let rest = report.drop_first();
    let ypath = spec_parse(one[0].0@)->0;
    let (ymid, ymsgs) = choose|mid: ValueMapV, msgs: Seq<(Seq<char>, MessageV)>|
        #![auto]
        chain_admits(
            one[0].1.list@,
            one[0].1.is_bail,
            ValueMapV { value: xmid.value, index: ypath },
            mid,
            msgs,
        ) && if msgs.len() == 0 {
            validator_run(one.drop_first(), ovr, mid.value, post, rest)
        } else {
            rest.len() >= 1 && rest[0] == (one[0].0@, apply_overrides(ovr, one[0].0@, msgs))
                && validator_run(one.drop_first(), ovr, mid.value, post, rest.drop_first())
        };
    assert(ymsgs.len() == 0);
    assert(one.drop_first() =~= Seq::<(FieldNames, RuleList)>::empty());
    assert(rest =~= Seq::<(Seq<char>, Seq<MessageV>)>::empty());
    assert(report.len() == 1);
    assert(ymsgs =~= Seq::<(Seq<char>, MessageV)>::empty());
    assert(ymid.value == post);
}

} // verus!
