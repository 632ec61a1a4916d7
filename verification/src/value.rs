use vstd::prelude::*;

use crate::field_name::comps_of;
use crate::field_name::FieldName;
use crate::field_name::PathComp;

verus! {

/// Ghost mirror of [`Value`]: strings become character sequences, vectors
/// become sequences, and keyed entries become sequences of pairs.
pub enum ValueV {
    UInt8(u8),
    Int8(i8),
    UInt16(u16),
    Int16(i16),
    UInt32(u32),
    Int32(i32),
    UInt64(u64),
    Int64(i64),
    Float32(u32),
    Float64(u64),
    String(Seq<char>),
    Unit,
    Option(Seq<ValueV>),
    Array(Seq<ValueV>),
    Tuple(Seq<ValueV>),
    TupleStruct(Seq<ValueV>),
    NewtypeStruct(Seq<ValueV>),
    Enum(Seq<char>, Seq<ValueV>),
    EnumUnit(Seq<char>),
    TupleVariant(Seq<char>, Seq<ValueV>),
    Mapping(Seq<(ValueV, ValueV)>),
    StructKey(Seq<char>),
    Struct(Seq<(Seq<char>, ValueV)>),
    StructVariantKey(Seq<char>),
    StructVariant(Seq<char>, Seq<(Seq<char>, ValueV)>),
}

/// The generic tagged tree that stands for any encodable value.
///
/// Scalars carry their own width; the two float variants carry the raw bit
/// pattern of the number, so that the tree itself stays free of float
/// arithmetic.  `Struct` and `StructVariant` keep their fields as ordered
/// key/value entries; `StructKey` and `StructVariantKey` are the
/// distinguished field-key leaves that an external bridge uses when it
/// drives the tree through a generic map representation.
#[derive(Debug, PartialEq)]
pub enum Value {
    UInt8(u8),
    Int8(i8),
    UInt16(u16),
    Int16(i16),
    UInt32(u32),
    Int32(i32),
    UInt64(u64),
    Int64(i64),
    Float32(u32),
    Float64(u64),
    String(String),
    Unit,
    Option(Vec<Value>),
    Array(Vec<Value>),
    Tuple(Vec<Value>),
    TupleStruct(Vec<Value>),
    NewtypeStruct(Vec<Value>),
    Enum(&'static str, Vec<Value>),
    EnumUnit(&'static str),
    TupleVariant(&'static str, Vec<Value>),
    Mapping(Vec<(Value, Value)>),
    StructKey(String),
    Struct(Vec<(String, Value)>),
    StructVariantKey(String),
    StructVariant(&'static str, Vec<(String, Value)>),
}

pub open spec fn value_view(v: Value) -> ValueV
    decreases v,
{
    match v {
        Value::UInt8(n) => ValueV::UInt8(n),
        Value::Int8(n) => ValueV::Int8(n),
        Value::UInt16(n) => ValueV::UInt16(n),
        Value::Int16(n) => ValueV::Int16(n),
        Value::UInt32(n) => ValueV::UInt32(n),
        Value::Int32(n) => ValueV::Int32(n),
        Value::UInt64(n) => ValueV::UInt64(n),
        Value::Int64(n) => ValueV::Int64(n),
        Value::Float32(b) => ValueV::Float32(b),
        Value::Float64(b) => ValueV::Float64(b),
        Value::String(s) => ValueV::String(s@),
        Value::Unit => ValueV::Unit,
        Value::Option(vs) => ValueV::Option(values_view(vs@)),
        Value::Array(vs) => ValueV::Array(values_view(vs@)),
        Value::Tuple(vs) => ValueV::Tuple(values_view(vs@)),
        Value::TupleStruct(vs) => ValueV::TupleStruct(values_view(vs@)),
        Value::NewtypeStruct(vs) => ValueV::NewtypeStruct(values_view(vs@)),
        Value::Enum(n, vs) => ValueV::Enum(n@, values_view(vs@)),
        Value::EnumUnit(n) => ValueV::EnumUnit(n@),
        Value::TupleVariant(n, vs) => ValueV::TupleVariant(n@, values_view(vs@)),
        Value::Mapping(ps) => ValueV::Mapping(pairs_view(ps@)),
        Value::StructKey(s) => ValueV::StructKey(s@),
        Value::Struct(es) => ValueV::Struct(entries_view(es@)),
        Value::StructVariantKey(s) => ValueV::StructVariantKey(s@),
        Value::StructVariant(n, es) => ValueV::StructVariant(n@, entries_view(es@)),
    }
}

pub open spec fn values_view(vs: Seq<Value>) -> Seq<ValueV>
    decreases vs,
{
    if vs.len() == 0 {
        Seq::empty()
    } else {
        values_view(vs.drop_last()).push(value_view(vs.last()))
    }
}

pub open spec fn entries_view(es: Seq<(String, Value)>) -> Seq<(Seq<char>, ValueV)>
    decreases es,
{
    if es.len() == 0 {
        Seq::empty()
    } else {
        entries_view(es.drop_last()).push((es.last().0@, value_view(es.last().1)))
    }
}

pub open spec fn pairs_view(ps: Seq<(Value, Value)>) -> Seq<(ValueV, ValueV)>
    decreases ps,
{
    if ps.len() == 0 {
        Seq::empty()
    } else {
        pairs_view(ps.drop_last()).push((value_view(ps.last().0), value_view(ps.last().1)))
    }
}

impl View for Value {
    type V = ValueV;

    open spec fn view(&self) -> ValueV {
        value_view(*self)
    }
}

pub proof fn lemma_values_view(vs: Seq<Value>)
    ensures
        values_view(vs).len() == vs.len(),
        forall|i: int| 0 <= i < vs.len() ==> values_view(vs)[i] == value_view(#[trigger] vs[i]),
    decreases vs.len(),
{
    if vs.len() > 0 {
        lemma_values_view(vs.drop_last());
        assert forall|i: int| 0 <= i < vs.len() implies values_view(vs)[i] == value_view(
            #[trigger] vs[i],
        ) by {
            if i < vs.len() - 1 {
                assert(vs.drop_last()[i] == vs[i]);
            } else {
                assert(vs.last() == vs[i]);
            }
        }
    }
}

pub proof fn lemma_entries_view(es: Seq<(String, Value)>)
    ensures
        entries_view(es).len() == es.len(),
        forall|i: int| 0 <= i < es.len() ==> entries_view(es)[i] == ((#[trigger] es[i]).0@,
            value_view(es[i].1)),
    decreases es.len(),
{
    if es.len() > 0 {
        lemma_entries_view(es.drop_last());
        assert forall|i: int| 0 <= i < es.len() implies entries_view(es)[i] == ((#[trigger] es[i]).0@,
            value_view(es[i].1)) by {
            if i < es.len() - 1 {
                assert(es.drop_last()[i] == es[i]);
            } else {
                assert(es.last() == es[i]);
            }
        }
    }
}

pub proof fn lemma_pairs_view(ps: Seq<(Value, Value)>)
    ensures
        pairs_view(ps).len() == ps.len(),
        forall|i: int| 0 <= i < ps.len() ==> pairs_view(ps)[i] == (value_view(
            (#[trigger] ps[i]).0,
        ), value_view(ps[i].1)),
    decreases ps.len(),
{
    if ps.len() > 0 {
        lemma_pairs_view(ps.drop_last());
        assert forall|i: int| 0 <= i < ps.len() implies pairs_view(ps)[i] == (value_view(
            (#[trigger] ps[i]).0,
        ), value_view(ps[i].1)) by {
            if i < ps.len() - 1 {
                assert(ps.drop_last()[i] == ps[i]);
            } else {
                assert(ps.last() == ps[i]);
            }
        }
    }
}

} // verus!

verus! {

/// First entry with the given key, if any.
pub open spec fn entries_find(es: Seq<(Seq<char>, ValueV)>, key: Seq<char>) -> Option<ValueV>
    decreases es.len(),
{
    if es.len() == 0 {
        Option::None
    } else if es[0].0 == key {
        Option::Some(es[0].1)
    } else {
        entries_find(es.drop_first(), key)
    }
}

/// One addressing step: `None` when the component's shape does not match
/// the value's variant, or when the index or name is absent.
pub open spec fn spec_get_name(v: ValueV, name: PathComp) -> Option<ValueV> {
    match (name, v) {
        (PathComp::Array(i), ValueV::Array(s)) => if 0 <= i < s.len() {
            Option::Some(s[i])
        } else {
            Option::None
        },
        (PathComp::Tuple(i), ValueV::Tuple(s)) => if 0 <= i < s.len() {
            Option::Some(s[i])
        } else {
            Option::None
        },
        (PathComp::Tuple(i), ValueV::TupleStruct(s)) => if 0 <= i < s.len() {
            Option::Some(s[i])
        } else {
            Option::None
        },
        (PathComp::Tuple(i), ValueV::NewtypeStruct(s)) => if 0 <= i < s.len() {
            Option::Some(s[i])
        } else {
            Option::None
        },
        (PathComp::Tuple(i), ValueV::Enum(_, s)) => if 0 <= i < s.len() {
            Option::Some(s[i])
        } else {
            Option::None
        },
        (PathComp::Tuple(i), ValueV::TupleVariant(_, s)) => if 0 <= i < s.len() {
            Option::Some(s[i])
        } else {
            Option::None
        },
        (PathComp::Literal(k), ValueV::Struct(es)) => entries_find(es, k),
        (PathComp::StructVariant(k), ValueV::StructVariant(_, es)) => entries_find(es, k),
        _ => Option::None,
    }
}

/// Addressing by a whole path: folds [`spec_get_name`] left to right,
/// short-circuiting to `None` on the first miss.
pub open spec fn spec_get_path(v: ValueV, path: Seq<PathComp>) -> Option<ValueV>
    decreases path.len(),
{
    if path.len() == 0 {
        Option::Some(v)
    } else {
        match spec_get_name(v, path[0]) {
            Option::Some(child) => spec_get_path(child, path.drop_first()),
            Option::None => Option::None,
        }
    }
}

/// The entries with the first `key` entry's value replaced; unchanged when
/// the key is absent.
pub open spec fn entries_set(es: Seq<(Seq<char>, ValueV)>, key: Seq<char>, nv: ValueV) -> Seq<
    (Seq<char>, ValueV),
>
    decreases es.len(),
{
    if es.len() == 0 {
        es
    } else if es[0].0 == key {
        es.update(0, (es[0].0, nv))
    } else {
        seq![es[0]] + entries_set(es.drop_first(), key, nv)
    }
}

/// One replacement step: the value with the addressed child replaced;
/// unchanged when the component does not resolve.
pub open spec fn spec_set_name(v: ValueV, name: PathComp, nv: ValueV) -> ValueV {
    match (name, v) {
        (PathComp::Array(i), ValueV::Array(s)) => if 0 <= i < s.len() {
            ValueV::Array(s.update(i, nv))
        } else {
            v
        },
        (PathComp::Tuple(i), ValueV::Tuple(s)) => if 0 <= i < s.len() {
            ValueV::Tuple(s.update(i, nv))
        } else {
            v
        },
        (PathComp::Tuple(i), ValueV::TupleStruct(s)) => if 0 <= i < s.len() {
            ValueV::TupleStruct(s.update(i, nv))
        } else {
            v
        },
        (PathComp::Tuple(i), ValueV::NewtypeStruct(s)) => if 0 <= i < s.len() {
            ValueV::NewtypeStruct(s.update(i, nv))
        } else {
            v
        },
        (PathComp::Tuple(i), ValueV::Enum(n, s)) => if 0 <= i < s.len() {
            ValueV::Enum(n, s.update(i, nv))
        } else {
            v
        },
        (PathComp::Tuple(i), ValueV::TupleVariant(n, s)) => if 0 <= i < s.len() {
            ValueV::TupleVariant(n, s.update(i, nv))
        } else {
            v
        },
        (PathComp::Literal(k), ValueV::Struct(es)) => ValueV::Struct(entries_set(es, k, nv)),
        (PathComp::StructVariant(k), ValueV::StructVariant(n, es)) => ValueV::StructVariant(
            n,
            entries_set(es, k, nv),
        ),
        _ => v,
    }
}

/// Replacement by a whole path; the tree is unchanged when the path does
/// not resolve.
pub open spec fn spec_set_path(v: ValueV, path: Seq<PathComp>, nv: ValueV) -> ValueV
    decreases path.len(),
{
    if path.len() == 0 {
        nv
    } else {
        match spec_get_name(v, path[0]) {
            Option::Some(child) => spec_set_name(
                v,
                path[0],
                spec_set_path(child, path.drop_first(), nv),
            ),
            Option::None => v,
        }
    }
}

} // verus!

verus! {

/// Index of the first entry with the given key.
fn find_entry_index(entries: &Vec<(String, Value)>, key: &String) -> (r: Option<usize>)
    ensures
        match r {
            Option::Some(j) => j < entries@.len() && entries@[j as int].0@ == key@ && (forall|
                jj: int,
            |
                0 <= jj < j ==> (#[trigger] entries@[jj]).0@ != key@),
            Option::None => forall|jj: int|
                0 <= jj < entries@.len() ==> (#[trigger] entries@[jj]).0@ != key@,
        },
{
    let mut j: usize = 0;
    while j < entries.len()
        invariant
            j <= entries@.len(),
            forall|jj: int| 0 <= jj < j ==> (#[trigger] entries@[jj]).0@ != key@,
        decreases entries@.len() - j,
    {
        if entries[j].0.eq(key) {
            return Some(j);
        }
        j = j + 1;
    }
    None
}

/// `entries_find` resolves to the first matching index.
proof fn lemma_entries_find_at(es: Seq<(Seq<char>, ValueV)>, key: Seq<char>, j: int)
    requires
        0 <= j < es.len(),
        es[j].0 == key,
        forall|jj: int| 0 <= jj < j ==> (#[trigger] es[jj]).0 != key,
    ensures
        entries_find(es, key) == Option::Some(es[j].1),
    decreases j,
{
    if j > 0 {
        lemma_entries_find_at(es.drop_first(), key, j - 1);
    }
}

/// `entries_find` misses when no entry matches.
proof fn lemma_entries_find_none(es: Seq<(Seq<char>, ValueV)>, key: Seq<char>)
    requires
        forall|jj: int| 0 <= jj < es.len() ==> (#[trigger] es[jj]).0 != key,
    ensures
        entries_find(es, key) is None,
    decreases es.len(),
{
    if es.len() > 0 {
        lemma_entries_find_none(es.drop_first(), key);
    }
}

/// `entries_set` updates exactly the first matching index.
proof fn lemma_entries_set_at(es: Seq<(Seq<char>, ValueV)>, key: Seq<char>, nv: ValueV, j: int)
    requires
        0 <= j < es.len(),
        es[j].0 == key,
        forall|jj: int| 0 <= jj < j ==> (#[trigger] es[jj]).0 != key,
    ensures
        entries_set(es, key, nv) =~= es.update(j, (es[j].0, nv)),
    decreases j,
{
    if j == 0 {
    } else {
        lemma_entries_set_at(es.drop_first(), key, nv, j - 1);
        assert(seq![es[0]] + es.drop_first().update(j - 1, (es[j].0, nv)) =~= es.update(
            j,
            (es[j].0, nv),
        ));
    }
}

impl Value {
    /// Whether this value is an atomic target: an integer of any width,
    /// the unit value, or a string.
    pub fn is_leaf(&self) -> (r: bool)
        ensures
            r == match self@ {
                ValueV::UInt8(_) => true,
                ValueV::UInt16(_) => true,
                ValueV::UInt32(_) => true,
                ValueV::UInt64(_) => true,
                ValueV::Int8(_) => true,
                ValueV::Int16(_) => true,
                ValueV::Int32(_) => true,
                ValueV::Int64(_) => true,
                ValueV::Unit => true,
                ValueV::String(_) => true,
                _ => false,
            },
    {
        match self {
            Self::UInt8(_)
            | Self::UInt16(_)
            | Self::UInt32(_)
            | Self::UInt64(_)
            | Self::Int8(_)
            | Self::Int16(_)
            | Self::Int32(_)
            | Self::Int64(_) => true,
            Self::Unit => true,
            Self::String(_) => true,
            _ => false,
        }
    }

    /// Resolves one addressing component against this value.
    pub fn get_with_name<'a>(&'a self, name: &FieldName) -> (r: Option<&'a Value>)
        ensures
            match r {
                Option::Some(x) => spec_get_name(self@, name@) == Option::Some(x@),
                Option::None => spec_get_name(self@, name@) is None,
            },
    {
        match (name, self) {
            (FieldName::Array(i), Value::Array(vec)) => {
                proof {
                    lemma_values_view(vec@);
                }
                if *i < vec.len() {
                    Some(&vec[*i])
                } else {
                    None
                }
            },
            (FieldName::Tuple(i), Value::Tuple(vec))
            | (FieldName::Tuple(i), Value::TupleStruct(vec))
            | (FieldName::Tuple(i), Value::NewtypeStruct(vec))
            | (FieldName::Tuple(i), Value::Enum(_, vec))
            | (FieldName::Tuple(i), Value::TupleVariant(_, vec)) => {
                proof {
                    lemma_values_view(vec@);
                }
                if (*i as usize) < vec.len() {
                    Some(&vec[*i as usize])
                } else {
                    None
                }
            },
            (FieldName::Literal(key), Value::Struct(entries))
            | (FieldName::StructVariant(key), Value::StructVariant(_, entries)) => {
                proof {
                    lemma_entries_view(entries@);
                }
                match find_entry_index(entries, key) {
                    Some(j) => {
                        proof {
                            let esv = entries_view(entries@);
                            assert forall|jj: int| 0 <= jj < j implies (#[trigger] esv[jj]).0
                                != key@ by {
                                assert(entries@[jj].0@ != key@);
                            }
                            lemma_entries_find_at(esv, key@, j as int);
                        }
                        Some(&entries[j].1)
                    },
                    None => {
                        proof {
                            let esv = entries_view(entries@);
                            assert forall|jj: int| 0 <= jj < esv.len() implies (
                            #[trigger] esv[jj]).0 != key@ by {
                                assert(entries@[jj].0@ != key@);
                            }
                            lemma_entries_find_none(esv, key@);
                        }
                        None
                    },
                }
            },
            _ => None,
        }
    }

    /// Resolves a whole path, component by component.
    pub fn get_with_names<'a>(&'a self, names: &Vec<FieldName>) -> (r: Option<&'a Value>)
        ensures
            match r {
                Option::Some(x) => spec_get_path(self@, comps_of(names@)) == Option::Some(x@),
                Option::None => spec_get_path(self@, comps_of(names@)) is None,
            },
    {
        let ghost comps = comps_of(names@);
        let mut cur: &Value = self;
        let mut i: usize = 0;
        proof {
            assert(comps.skip(0) =~= comps);
        }
        while i < names.len()
            invariant
                i <= names@.len(),
                comps == comps_of(names@),
                comps.len() == names@.len(),
                forall|j: int| 0 <= j < names@.len() ==> comps[j] == (#[trigger] names@[j])@,
                spec_get_path(self@, comps) == spec_get_path(cur@, comps.skip(i as int)),
            decreases names@.len() - i,
        {
            let ghost rest = comps.skip(i as int);
            match cur.get_with_name(&names[i]) {
                Some(next) => {
                    proof {
                        assert(rest.drop_first() =~= comps.skip(i as int + 1));
                    }
                    cur = next;
                },
                None => {
                    return None;
                },
            }
            i = i + 1;
        }
        proof {
            assert(comps.skip(names@.len() as int) =~= Seq::<PathComp>::empty());
        }
        Some(cur)
    }

    /// An exclusive handle to a top-level record field, when this value
    /// is a record.
    pub fn get_mut<'a>(&'a mut self, key: &str) -> (r: Option<&'a mut Value>)
        ensures
            match r {
                Option::Some(m) => {
                    &&& spec_get_name(old(self)@, PathComp::Literal(key@)) == Option::Some((*m)@)
                    &&& final(self)@ == spec_set_name(
                        old(self)@,
                        PathComp::Literal(key@),
                        final(m)@,
                    )
                },
                Option::None => final(self)@ == old(self)@ && spec_get_name(
                    old(self)@,
                    PathComp::Literal(key@),
                ) is None,
            },
    {
        let name = FieldName::Literal(key.to_owned());
        self.get_with_name_mut(&name)
    }

    /// The value of a top-level record field, when this value is a record.
    pub fn get<'a>(&'a self, key: &str) -> (r: Option<&'a Value>)
        ensures
            match r {
                Option::Some(x) => spec_get_name(self@, PathComp::Literal(key@))
                    == Option::Some(x@),
                Option::None => spec_get_name(self@, PathComp::Literal(key@)) is None,
            },
    {
        let name = FieldName::Literal(key.to_owned());
        self.get_with_name(&name)
    }
}

} // verus!

verus! {

/// Replaces the value addressed by `names[d..]` below element `i` of a
/// positional backing vector, handing the displaced value back.
fn replace_in_vec(
    vec: &mut Vec<Value>,
    i: usize,
    names: &Vec<FieldName>,
    d: usize,
    nv: Value,
) -> (r: Result<Value, Value>)
    requires
        d < names@.len(),
    ensures
        match r {
            Result::Ok(oldchild) => {
                &&& i < old(vec)@.len()
                &&& spec_get_path(
                    value_view(old(vec)@[i as int]),
                    comps_of(names@).skip(d as int + 1),
                ) == Option::Some(oldchild@)
                &&& values_view(final(vec)@) == values_view(old(vec)@).update(
                    i as int,
                    spec_set_path(
                        value_view(old(vec)@[i as int]),
                        comps_of(names@).skip(d as int + 1),
                        nv@,
                    ),
                )
            },
            Result::Err(back) => {
                &&& back == nv
                &&& values_view(final(vec)@) == values_view(old(vec)@)
                &&& (i >= old(vec)@.len() || spec_get_path(
                    value_view(old(vec)@[i as int]),
                    comps_of(names@).skip(d as int + 1),
                ) is None)
            },
        },
    decreases names@.len() - d, 0int,
{
    let nlen = names.len();
    proof {
        lemma_values_view(vec@);
    }
    if i >= vec.len() {
        return Err(nv);
    }
    let ghost oldvs = vec@;
    let mut child = vec.remove(i);
    let rr = replace_at(&mut child, names, d + 1, nv);
    let ghost childv = child@;
    vec.insert(i, child);
    proof {
        assert(vec@ =~= oldvs.update(i as int, vec@[i as int]));
        lemma_values_view(vec@);
        assert(value_view(vec@[i as int]) == childv);
        assert forall|k: int| 0 <= k < vec@.len() implies values_view(vec@)[k] == values_view(
            oldvs,
        ).update(i as int, childv)[k] by {
            if k != i {
                assert(vec@[k] == oldvs[k]);
            }
        }
        assert(values_view(vec@) =~= values_view(oldvs).update(i as int, childv));
        if rr is Err {
            assert(values_view(vec@) =~= values_view(oldvs));
        }
    }
    rr
}

/// Replaces the value addressed by `names[d..]` below the entry with the
/// given key of a keyed backing vector, handing the displaced value back.
fn replace_in_entries(
    entries: &mut Vec<(String, Value)>,
    key: &String,
    names: &Vec<FieldName>,
    d: usize,
    nv: Value,
) -> (r: Result<Value, Value>)
    requires
        d < names@.len(),
    ensures
        match r {
            Result::Ok(oldchild) => {
                &&& entries_find(entries_view(old(entries)@), key@) is Some
                &&& spec_get_path(
                    entries_find(entries_view(old(entries)@), key@)->0,
                    comps_of(names@).skip(d as int + 1),
                ) == Option::Some(oldchild@)
                &&& entries_view(final(entries)@) == entries_set(
                    entries_view(old(entries)@),
                    key@,
                    spec_set_path(
                        entries_find(entries_view(old(entries)@), key@)->0,
                        comps_of(names@).skip(d as int + 1),
                        nv@,
                    ),
                )
            },
            Result::Err(back) => {
                &&& back == nv
                &&& entries_view(final(entries)@) == entries_view(old(entries)@)
                &&& (entries_find(entries_view(old(entries)@), key@) is None || spec_get_path(
                    entries_find(entries_view(old(entries)@), key@)->0,
                    comps_of(names@).skip(d as int + 1),
                ) is None)
            },
        },
    decreases names@.len() - d, 0int,
{
    let nlen = names.len();
    proof {
        lemma_entries_view(entries@);
    }
    let ghost oldes = entries@;
    let ghost oldesv = entries_view(entries@);
    match find_entry_index(entries, key) {
        Some(j) => {
            proof {
                assert forall|jj: int| 0 <= jj < j implies (#[trigger] oldesv[jj]).0 != key@ by {
                    assert(oldes[jj].0@ != key@);
                }
                lemma_entries_find_at(oldesv, key@, j as int);
            }
            let entry = entries.remove(j);
            let entry_key = entry.0;
            let mut child = entry.1;
            let rr = replace_at(&mut child, names, d + 1, nv);
            let ghost childv = child@;
            entries.insert(j, (entry_key, child));
            proof {
                assert(entries@ =~= oldes.update(j as int, entries@[j as int]));
                lemma_entries_view(entries@);
                assert(entries@[j as int].0@ == oldesv[j as int].0);
                assert(value_view(entries@[j as int].1) == childv);
                assert forall|k: int| 0 <= k < entries@.len() implies entries_view(entries@)[k]
                    == oldesv.update(j as int, (oldesv[j as int].0, childv))[k] by {
                    if k != j {
                        assert(entries@[k] == oldes[k]);
                    }
                }
                assert(entries_view(entries@) =~= oldesv.update(j as int, (oldesv[j as int].0, childv)));
                if rr is Err {
                    assert(entries_view(entries@) =~= oldesv);
                } else {
                    lemma_entries_set_at(oldesv, key@, childv, j as int);
                }
            }
            rr
        },
        None => {
            proof {
                assert forall|jj: int| 0 <= jj < oldesv.len() implies (#[trigger] oldesv[jj]).0
                    != key@ by {
                    assert(oldes[jj].0@ != key@);
                }
                lemma_entries_find_none(oldesv, key@);
            }
            Err(nv)
        },
    }
}

/// Replaces the value addressed by `names[d..]`, handing the displaced
/// value back; the tree is unchanged when the path does not resolve, and
/// the unused new value comes back as the error.
fn replace_at(v: &mut Value, names: &Vec<FieldName>, d: usize, nv: Value) -> (r: Result<
    Value,
    Value,
>)
    requires
        d <= names@.len(),
    ensures
        match r {
            Result::Ok(oldv) => {
                &&& spec_get_path(old(v)@, comps_of(names@).skip(d as int)) == Option::Some(oldv@)
                &&& final(v)@ == spec_set_path(old(v)@, comps_of(names@).skip(d as int), nv@)
            },
            Result::Err(back) => {
                &&& back == nv
                &&& final(v)@ == old(v)@
                &&& spec_get_path(old(v)@, comps_of(names@).skip(d as int)) is None
            },
        },
    decreases names@.len() - d, 1int,
{
    let ghost comps = comps_of(names@);
    let ghost rest = comps.skip(d as int);
    if d >= names.len() {
        let mut taken = nv;
        core::mem::swap(v, &mut taken);
        proof {
            assert(rest =~= Seq::<PathComp>::empty());
        }
        return Ok(taken);
    }
    proof {
        assert(rest[0] == names@[d as int]@);
        assert(rest.drop_first() =~= comps.skip(d as int + 1));
    }
    let ghost oldv = v@;
    let mut tmp = Value::Unit;
    core::mem::swap(v, &mut tmp);
    match (&names[d], tmp) {
        (FieldName::Array(i), Value::Array(mut vec)) => {
            let ghost vs0 = vec@;
            let idx: usize = *i;
            let rr = replace_in_vec(&mut vec, idx, names, d, nv);
            proof {
                lemma_values_view(vs0);
                if rr is Ok {
                    assert(spec_get_name(oldv, rest[0]) == Option::Some(
                        value_view(vs0[idx as int]),
                    ));
                }
            }
            *v = Value::Array(vec);
            rr
        },
        (FieldName::Tuple(i), Value::Tuple(mut vec)) => {
            let ghost vs0 = vec@;
            let idx: usize = *i as usize;
            let rr = replace_in_vec(&mut vec, idx, names, d, nv);
            proof {
                lemma_values_view(vs0);
                if rr is Ok {
                    assert(spec_get_name(oldv, rest[0]) == Option::Some(
                        value_view(vs0[idx as int]),
                    ));
                }
            }
            *v = Value::Tuple(vec);
            rr
        },
        (FieldName::Tuple(i), Value::TupleStruct(mut vec)) => {
            let ghost vs0 = vec@;
            let idx: usize = *i as usize;
            let rr = replace_in_vec(&mut vec, idx, names, d, nv);
            proof {
                lemma_values_view(vs0);
                if rr is Ok {
                    assert(spec_get_name(oldv, rest[0]) == Option::Some(
                        value_view(vs0[idx as int]),
                    ));
                }
            }
            *v = Value::TupleStruct(vec);
            rr
        },
        (FieldName::Tuple(i), Value::NewtypeStruct(mut vec)) => {
            let ghost vs0 = vec@;
            let idx: usize = *i as usize;
            let rr = replace_in_vec(&mut vec, idx, names, d, nv);
            proof {
                lemma_values_view(vs0);
                if rr is Ok {
                    assert(spec_get_name(oldv, rest[0]) == Option::Some(
                        value_view(vs0[idx as int]),
                    ));
                }
            }
            *v = Value::NewtypeStruct(vec);
            rr
        },
        (FieldName::Tuple(i), Value::Enum(n, mut vec)) => {
            let ghost vs0 = vec@;
            let idx: usize = *i as usize;
            let rr = replace_in_vec(&mut vec, idx, names, d, nv);
            proof {
                lemma_values_view(vs0);
                if rr is Ok {
                    assert(spec_get_name(oldv, rest[0]) == Option::Some(
                        value_view(vs0[idx as int]),
                    ));
                }
            }
            *v = Value::Enum(n, vec);
            rr
        },
        (FieldName::Tuple(i), Value::TupleVariant(n, mut vec)) => {
            let ghost vs0 = vec@;
            let idx: usize = *i as usize;
            let rr = replace_in_vec(&mut vec, idx, names, d, nv);
            proof {
                lemma_values_view(vs0);
                if rr is Ok {
                    assert(spec_get_name(oldv, rest[0]) == Option::Some(
                        value_view(vs0[idx as int]),
                    ));
                }
            }
            *v = Value::TupleVariant(n, vec);
            rr
        },
        (FieldName::Literal(key), Value::Struct(mut entries)) => {
            let ghost es0 = entries_view(entries@);
            let rr = replace_in_entries(&mut entries, key, names, d, nv);
            proof {
                if rr is Ok {
                    assert(spec_get_name(oldv, rest[0]) == entries_find(es0, key@));
                }
            }
            *v = Value::Struct(entries);
            rr
        },
        (FieldName::StructVariant(key), Value::StructVariant(n, mut entries)) => {
            let ghost es0 = entries_view(entries@);
            let rr = replace_in_entries(&mut entries, key, names, d, nv);
            proof {
                if rr is Ok {
                    assert(spec_get_name(oldv, rest[0]) == entries_find(es0, key@));
                }
            }
            *v = Value::StructVariant(n, entries);
            rr
        },
        (_, other) => {
            *v = other;
            Err(nv)
        },
    }
}

impl Value {
    /// Replaces the value addressed by the whole path, handing the
    /// displaced value back; when the path does not resolve, the tree is
    /// unchanged and the unused new value comes back as the error.
    pub fn replace_with_names(&mut self, names: &Vec<FieldName>, nv: Value) -> (r: Result<
        Value,
        Value,
    >)
        ensures
            match r {
                Result::Ok(oldv) => {
                    &&& spec_get_path(old(self)@, comps_of(names@)) == Option::Some(oldv@)
                    &&& final(self)@ == spec_set_path(old(self)@, comps_of(names@), nv@)
                },
                Result::Err(back) => {
                    &&& back == nv
                    &&& final(self)@ == old(self)@
                    &&& spec_get_path(old(self)@, comps_of(names@)) is None
                },
            },
    {
        proof {
            assert(comps_of(names@).skip(0) =~= comps_of(names@));
        }
        replace_at(self, names, 0, nv)
    }
}

} // verus!

verus! {

/// After `entries_set`, the key resolves to the new value.
proof fn lemma_entries_find_after_set(es: Seq<(Seq<char>, ValueV)>, key: Seq<char>, nv: ValueV)
    requires
        entries_find(es, key) is Some,
    ensures
        entries_find(entries_set(es, key, nv), key) == Option::Some(nv),
    decreases es.len(),
{
    if es.len() > 0 && es[0].0 != key {
        lemma_entries_find_after_set(es.drop_first(), key, nv);
        assert((seq![es[0]] + entries_set(es.drop_first(), key, nv)).drop_first()
            =~= entries_set(es.drop_first(), key, nv));
    }
}

/// Setting the same key twice keeps only the second value.
proof fn lemma_entries_set_twice(es: Seq<(Seq<char>, ValueV)>, key: Seq<char>, a: ValueV, b: ValueV)
    ensures
        entries_set(entries_set(es, key, a), key, b) == entries_set(es, key, b),
    decreases es.len(),
{
    if es.len() > 0 {
        if es[0].0 == key {
            assert(entries_set(es, key, a) =~= es.update(0, (es[0].0, a)));
            assert(entries_set(entries_set(es, key, a), key, b) =~= entries_set(es, key, b));
        } else {
            lemma_entries_set_twice(es.drop_first(), key, a, b);
            let inner = entries_set(es.drop_first(), key, a);
            assert((seq![es[0]] + inner)[0] == es[0]);
            assert((seq![es[0]] + inner).drop_first() =~= inner);
            assert(entries_set(entries_set(es, key, a), key, b) =~= seq![es[0]] + entries_set(
                es.drop_first(),
                key,
                b,
            ));
        }
    }
}

/// After one replacement step, the same component resolves to the new
/// value.
proof fn lemma_get_name_after_set(v: ValueV, name: PathComp, nv: ValueV)
    requires
        spec_get_name(v, name) is Some,
    ensures
        spec_get_name(spec_set_name(v, name, nv), name) == Option::Some(nv),
{
    match (name, v) {
        (PathComp::Literal(k), ValueV::Struct(es)) => {
            lemma_entries_find_after_set(es, k, nv);
        },
        (PathComp::StructVariant(k), ValueV::StructVariant(_, es)) => {
            lemma_entries_find_after_set(es, k, nv);
        },
        _ => {},
    }
}

/// Replacing the same component twice keeps only the second value.
proof fn lemma_set_name_twice(v: ValueV, name: PathComp, a: ValueV, b: ValueV)
    requires
        spec_get_name(v, name) is Some,
    ensures
        spec_set_name(spec_set_name(v, name, a), name, b) == spec_set_name(v, name, b),
{
    match (name, v) {
        (PathComp::Literal(k), ValueV::Struct(es)) => {
            lemma_entries_set_twice(es, k, a, b);
        },
        (PathComp::StructVariant(k), ValueV::StructVariant(_, es)) => {
            lemma_entries_set_twice(es, k, a, b);
        },
        (PathComp::Array(i), ValueV::Array(s)) => {
            assert(s.update(i, a).update(i, b) =~= s.update(i, b));
        },
        (PathComp::Tuple(i), ValueV::Tuple(s)) => {
            assert(s.update(i, a).update(i, b) =~= s.update(i, b));
        },
        (PathComp::Tuple(i), ValueV::TupleStruct(s)) => {
            assert(s.update(i, a).update(i, b) =~= s.update(i, b));
        },
        (PathComp::Tuple(i), ValueV::NewtypeStruct(s)) => {
            assert(s.update(i, a).update(i, b) =~= s.update(i, b));
        },
        (PathComp::Tuple(i), ValueV::Enum(_, s)) => {
            assert(s.update(i, a).update(i, b) =~= s.update(i, b));
        },
        (PathComp::Tuple(i), ValueV::TupleVariant(_, s)) => {
            assert(s.update(i, a).update(i, b) =~= s.update(i, b));
        },
        _ => {},
    }
}

/// After a replacement along a path, the same path resolves to the new
/// value.
pub proof fn lemma_get_path_after_set(v: ValueV, path: Seq<PathComp>, nv: ValueV)
    requires
        spec_get_path(v, path) is Some,
    ensures
        spec_get_path(spec_set_path(v, path, nv), path) == Option::Some(nv),
    decreases path.len(),
{
    if path.len() > 0 {
        let child = spec_get_path(v, path)->0;
        let c0 = spec_get_name(v, path[0])->0;
        lemma_get_path_after_set(c0, path.drop_first(), nv);
        lemma_get_name_after_set(v, path[0], spec_set_path(c0, path.drop_first(), nv));
    }
}

/// Replacing along the same path twice keeps only the second value.
pub proof fn lemma_set_path_twice(v: ValueV, path: Seq<PathComp>, a: ValueV, b: ValueV)
    requires
        spec_get_path(v, path) is Some,
    ensures
        spec_set_path(spec_set_path(v, path, a), path, b) == spec_set_path(v, path, b),
    decreases path.len(),
{
    if path.len() > 0 {
        let c0 = spec_get_name(v, path[0])->0;
        let rest = path.drop_first();
        lemma_set_path_twice(c0, rest, a, b);
        lemma_get_name_after_set(v, path[0], spec_set_path(c0, rest, a));
        lemma_get_path_after_set(c0, rest, a);
        lemma_set_name_twice(v, path[0], spec_set_path(c0, rest, a), spec_set_path(c0, rest, b));
    }
}

} // verus!


verus! {

/// An exclusive handle to one element of a positional backing vector.
fn vec_elem_mut<'a>(vec: &'a mut Vec<Value>, idx: usize) -> (r: Option<&'a mut Value>)
    ensures
        values_view(old(vec)@).len() == old(vec)@.len(),
        match r {
            Option::Some(m) => {
                &&& idx < old(vec)@.len()
                &&& (*m)@ == values_view(old(vec)@)[idx as int]
                &&& values_view(final(vec)@) == values_view(old(vec)@).update(
                    idx as int,
                    final(m)@,
                )
            },
            Option::None => final(vec)@ == old(vec)@ && idx >= old(vec)@.len(),
        },
{
    proof {
        lemma_values_view(vec@);
    }
    if idx < vec.len() {
        let ghost vs0 = vec@;
        proof {
            assert forall|x: Value|
                values_view(vs0.update(idx as int, x)) == values_view(vs0).update(
                    idx as int,
                    value_view(x),
                ) by {
                lemma_values_view(vs0);
                lemma_values_view(vs0.update(idx as int, x));
                assert forall|k: int|
                    0 <= k < vs0.len() implies values_view(vs0.update(idx as int, x))[k]
                    == values_view(vs0).update(idx as int, value_view(x))[k] by {
                    if k != idx {
                        assert(vs0.update(idx as int, x)[k] == vs0[k]);
                    } else {
                        assert(vs0.update(idx as int, x)[k] == x);
                    }
                }
                assert(values_view(vs0.update(idx as int, x)) =~= values_view(vs0).update(
                    idx as int,
                    value_view(x),
                ));
            }
        }
        Some(&mut vec[idx])
    } else {
        None
    }
}

/// An exclusive handle to the value of the first entry bearing the key
/// of a keyed backing vector.
fn entry_value_mut<'a>(entries: &'a mut Vec<(String, Value)>, key: &String) -> (r: Option<
    &'a mut Value,
>)
    ensures
        match r {
            Option::Some(m) => {
                &&& entries_find(entries_view(old(entries)@), key@) == Option::Some((*m)@)
                &&& entries_view(final(entries)@) == entries_set(
                    entries_view(old(entries)@),
                    key@,
                    final(m)@,
                )
            },
            Option::None => final(entries)@ == old(entries)@ && entries_find(
                entries_view(old(entries)@),
                key@,
            ) is None,
        },
{
    proof {
        lemma_entries_view(entries@);
    }
    let ghost es0 = entries@;
    let ghost esv = entries_view(entries@);
    match find_entry_index(entries, key) {
        Some(j) => {
            proof {
                assert forall|jj: int| 0 <= jj < j implies (#[trigger] esv[jj]).0 != key@ by {
                    assert(es0[jj].0@ != key@);
                }
                lemma_entries_find_at(esv, key@, j as int);
                assert forall|x: ValueV|
                    entries_set(esv, key@, x) == esv.update(j as int, (esv[j as int].0, x)) by {
                    lemma_entries_set_at(esv, key@, x, j as int);
                }
                assert forall|y: Value|
                    entries_view(es0.update(j as int, (es0[j as int].0, y))) == esv.update(
                        j as int,
                        (esv[j as int].0, value_view(y)),
                    ) by {
                    lemma_entries_view(es0);
                    lemma_entries_view(es0.update(j as int, (es0[j as int].0, y)));
                    assert forall|k: int|
                        0 <= k < es0.len() implies entries_view(
                        es0.update(j as int, (es0[j as int].0, y)),
                    )[k] == esv.update(j as int, (esv[j as int].0, value_view(y)))[k] by {
                        if k != j {
                            assert(es0.update(j as int, (es0[j as int].0, y))[k] == es0[k]);
                        } else {
                            assert(es0.update(j as int, (es0[j as int].0, y))[k] == (
                                es0[j as int].0,
                                y,
                            ));
                        }
                    }
                    assert(entries_view(es0.update(j as int, (es0[j as int].0, y))) =~= esv.update(
                        j as int,
                        (esv[j as int].0, value_view(y)),
                    ));
                }
            }
            let jj = j;
            Some(&mut entries[jj].1)
        },
        None => {
            proof {
                assert forall|jj: int| 0 <= jj < esv.len() implies (#[trigger] esv[jj]).0
                    != key@ by {
                    assert(es0[jj].0@ != key@);
                }
                lemma_entries_find_none(esv, key@);
            }
            None
        },
    }
}

impl Value {
    /// Resolves one addressing component mutably, handing out an
    /// exclusive handle into the tree: afterwards the tree is the old
    /// tree with the addressed child replaced by whatever the caller
    /// leaves in the handle.
    pub fn get_with_name_mut<'a>(&'a mut self, name: &FieldName) -> (r: Option<&'a mut Value>)
        ensures
            match r {
                Option::Some(m) => {
                    &&& spec_get_name(old(self)@, name@) == Option::Some((*m)@)
                    &&& final(self)@ == spec_set_name(old(self)@, name@, final(m)@)
                },
                Option::None => final(self)@ == old(self)@ && spec_get_name(
                    old(self)@,
                    name@,
                ) is None,
            },
    {
        match (name, self) {
            (FieldName::Array(i), Value::Array(vec)) => vec_elem_mut(vec, *i),
            (FieldName::Tuple(i), Value::Tuple(vec)) => vec_elem_mut(vec, *i as usize),
            (FieldName::Tuple(i), Value::TupleStruct(vec)) => vec_elem_mut(vec, *i as usize),
            (FieldName::Tuple(i), Value::NewtypeStruct(vec)) => vec_elem_mut(vec, *i as usize),
            (FieldName::Tuple(i), Value::Enum(_, vec)) => vec_elem_mut(vec, *i as usize),
            (FieldName::Tuple(i), Value::TupleVariant(_, vec)) => vec_elem_mut(vec, *i as usize),
            (FieldName::Literal(key), Value::Struct(entries)) => entry_value_mut(entries, key),
            (FieldName::StructVariant(key), Value::StructVariant(_, entries)) => entry_value_mut(
                entries,
                key,
            ),
            _ => None,
        }
    }
}

} // verus!

verus! {

/// Writing back the value an entry already holds leaves the entries
/// unchanged.
proof fn lemma_entries_set_self(es: Seq<(Seq<char>, ValueV)>, key: Seq<char>)
    requires
        entries_find(es, key) is Some,
    ensures
        entries_set(es, key, entries_find(es, key)->0) == es,
    decreases es.len(),
{
    if es.len() > 0 {
        if es[0].0 == key {
            assert(es.update(0, (es[0].0, es[0].1)) =~= es);
        } else {
            lemma_entries_set_self(es.drop_first(), key);
            assert(seq![es[0]] + es.drop_first() =~= es);
        }
    }
}

/// Writing back the value a component already addresses leaves the tree
/// unchanged.
proof fn lemma_set_name_self(v: ValueV, name: PathComp)
    requires
        spec_get_name(v, name) is Some,
    ensures
        spec_set_name(v, name, spec_get_name(v, name)->0) == v,
{
    match (name, v) {
        (PathComp::Literal(k), ValueV::Struct(es)) => {
            lemma_entries_set_self(es, k);
        },
        (PathComp::StructVariant(k), ValueV::StructVariant(_, es)) => {
            lemma_entries_set_self(es, k);
        },
        (PathComp::Array(i), ValueV::Array(s)) => {
            assert(s.update(i, s[i]) =~= s);
        },
        (PathComp::Tuple(i), ValueV::Tuple(s)) => {
            assert(s.update(i, s[i]) =~= s);
        },
        (PathComp::Tuple(i), ValueV::TupleStruct(s)) => {
            assert(s.update(i, s[i]) =~= s);
        },
        (PathComp::Tuple(i), ValueV::NewtypeStruct(s)) => {
            assert(s.update(i, s[i]) =~= s);
        },
        (PathComp::Tuple(i), ValueV::Enum(_, s)) => {
            assert(s.update(i, s[i]) =~= s);
        },
        (PathComp::Tuple(i), ValueV::TupleVariant(_, s)) => {
            assert(s.update(i, s[i]) =~= s);
        },
        _ => {},
    }
}

/// An exclusive handle to the value addressed by `names[d..]`.
fn get_path_mut<'a>(v: &'a mut Value, names: &Vec<FieldName>, d: usize) -> (r: Option<
    &'a mut Value,
>)
    requires
        d <= names@.len(),
    ensures
        match r {
            Option::Some(m) => {
                &&& spec_get_path(old(v)@, comps_of(names@).skip(d as int)) == Option::Some((*m)@)
                &&& final(v)@ == spec_set_path(old(v)@, comps_of(names@).skip(d as int), final(m)@)
            },
            Option::None => final(v)@ == old(v)@ && spec_get_path(
                old(v)@,
                comps_of(names@).skip(d as int),
            ) is None,
        },
    decreases names@.len() - d,
{
    let ghost rest = comps_of(names@).skip(d as int);
    if d >= names.len() {
        proof {
            assert(rest =~= Seq::<PathComp>::empty());
        }
        return Some(v);
    }
    proof {
        assert(rest[0] == names@[d as int]@);
        assert(rest.drop_first() =~= comps_of(names@).skip(d as int + 1));
    }
    let ghost v0 = v@;
    match v.get_with_name_mut(&names[d]) {
        Some(child) => {
            let ghost child0 = child@;
            let r = get_path_mut(child, names, d + 1);
            proof {
                if r is None {
                    lemma_set_name_self(v0, names@[d as int]@);
                }
            }
            r
        },
        None => None,
    }
}

impl Value {
    /// Resolves a whole path mutably, handing out an exclusive handle
    /// into the tree: afterwards the tree is the old tree with the
    /// addressed sub-value replaced by whatever the caller leaves in the
    /// handle.
    pub fn get_with_names_mut<'a>(&'a mut self, names: &Vec<FieldName>) -> (r: Option<
        &'a mut Value,
    >)
        ensures
            match r {
                Option::Some(m) => {
                    &&& spec_get_path(old(self)@, comps_of(names@)) == Option::Some((*m)@)
                    &&& final(self)@ == spec_set_path(old(self)@, comps_of(names@), final(m)@)
                },
                Option::None => final(self)@ == old(self)@ && spec_get_path(
                    old(self)@,
                    comps_of(names@),
                ) is None,
            },
    {
        proof {
            assert(comps_of(names@).skip(0) =~= comps_of(names@));
        }
        get_path_mut(self, names, 0)
    }
}

} // verus!
