use vstd::prelude::*;

use crate::field_name::comps_of;
use crate::field_name::FieldName;
use crate::field_name::PathComp;
use crate::value::lemma_get_path_after_set;
use crate::value::lemma_set_path_twice;
use crate::value::spec_get_path;
use crate::value::spec_set_path;
use crate::value::Value;
use crate::value::ValueV;

verus! {

/// Ghost mirror of [`ValueMap`]: the whole tree plus the path currently
/// addressed.
pub struct ValueMapV {
    pub value: ValueV,
    pub index: Seq<PathComp>,
}

impl ValueMapV {
    /// The sub-value addressed by the current path, if it resolves.
    pub open spec fn current(self) -> Option<ValueV> {
        spec_get_path(self.value, self.index)
    }

    /// The same state with the addressed sub-value replaced.
    pub open spec fn with_current(self, nv: ValueV) -> ValueMapV {
        ValueMapV { value: spec_set_path(self.value, self.index, nv), index: self.index }
    }
}

/// A whole value tree paired with the path of the field a rule chain is
/// currently addressing.  Rules read and rewrite the addressed sub-value
/// through this handle, and may also read sibling fields.
pub struct ValueMap {
    pub value: Value,
    pub index: Vec<FieldName>,
}

impl View for ValueMap {
    type V = ValueMapV;

    open spec fn view(&self) -> ValueMapV {
        ValueMapV { value: self.value@, index: comps_of(self.index@) }
    }
}

impl ValueMap {
    /// Wraps a tree with an empty current path.
    pub fn new(value: Value) -> (r: Self)
        ensures
            r@.value == value@,
            r@.index == Seq::<PathComp>::empty(),
    {
        let r = Self { value, index: Vec::new() };
        proof {
            assert(comps_of(r.index@) =~= Seq::<PathComp>::empty());
        }
        r
    }

    /// Moves the current path to another field.
    pub fn index(&mut self, index: Vec<FieldName>)
        ensures
            final(self)@.value == old(self)@.value,
            final(self)@.index == comps_of(index@),
    {
        self.index = index;
    }

    /// The sub-value the current path addresses, if it resolves.
    pub fn current<'a>(&'a self) -> (r: Option<&'a Value>)
        ensures
            match r {
                Option::Some(x) => self@.current() == Option::Some(x@),
                Option::None => self@.current() is None,
            },
    {
        self.value.get_with_names(&self.index)
    }

    /// An exclusive handle to the sub-value the current path addresses:
    /// afterwards the tree is the old tree with that sub-value replaced
    /// by whatever the caller leaves in the handle; the current path
    /// stays.
    pub fn current_mut<'a>(&'a mut self) -> (r: Option<&'a mut Value>)
        ensures
            match r {
                Option::Some(m) => {
                    &&& old(self)@.current() == Option::Some((*m)@)
                    &&& final(self)@ == old(self)@.with_current(final(m)@)
                },
                Option::None => final(self)@ == old(self)@ && old(self)@.current() is None,
            },
    {
        self.value.get_with_names_mut(&self.index)
    }

    /// A top-level field of the tree, by one addressing component.
    pub fn get<'a>(&'a self, key: &FieldName) -> (r: Option<&'a Value>)
        ensures
            match r {
                Option::Some(x) => crate::value::spec_get_name(self@.value, key@)
                    == Option::Some(x@),
                Option::None => crate::value::spec_get_name(self@.value, key@) is None,
            },
    {
        self.value.get_with_name(key)
    }

    /// The whole tree, consuming the handle.
    pub fn value(self) -> (r: Value)
        ensures
            r@ == self@.value,
    {
        self.value
    }

    /// Replaces the addressed sub-value, handing the displaced one back;
    /// when the current path does not resolve, the tree is unchanged and
    /// the unused value comes back as the error.
    pub fn replace_current(&mut self, nv: Value) -> (r: Result<Value, Value>)
        ensures
            match r {
                Result::Ok(oldcur) => {
                    &&& old(self)@.current() == Option::Some(oldcur@)
                    &&& final(self)@ == old(self)@.with_current(nv@)
                },
                Result::Err(back) => {
                    &&& back == nv
                    &&& final(self)@ == old(self)@
                    &&& old(self)@.current() is None
                },
            },
    {
        let r = self.value.replace_with_names(&self.index, nv);
        r
    }

    /// Takes the addressed sub-value out, leaving the unit value in its
    /// place; `None` when the current path does not resolve.
    pub fn take_current(&mut self) -> (r: Option<Value>)
        ensures
            match r {
                Option::Some(cur) => {
                    &&& old(self)@.current() == Option::Some(cur@)
                    &&& final(self)@ == old(self)@.with_current(ValueV::Unit)
                },
                Option::None => {
                    &&& final(self)@ == old(self)@
                    &&& old(self)@.current() is None
                },
            },
    {
        match self.replace_current(Value::Unit) {
            Ok(cur) => Some(cur),
            Err(_) => None,
        }
    }

    /// Puts a value back at the current path after [`Self::take_current`];
    /// the pair of calls amounts to one in-place rewrite.
    pub fn restore_current(&mut self, nv: Value) -> (r: bool)
        requires
            old(self)@.current() is Some,
        ensures
            r,
            final(self)@ == old(self)@.with_current(nv@),
    {
        match self.replace_current(nv) {
            Ok(_) => true,
            Err(_) => false,
        }
    }
}

/// Taking a field out and putting another value back amounts to one
/// in-place rewrite of that field.
pub proof fn lemma_take_restore(m: ValueMapV, a: ValueV, b: ValueV)
    requires
        m.current() is Some,
    ensures
        m.with_current(a).with_current(b) == m.with_current(b),
        m.with_current(a).current() == Option::Some(a),
{
    lemma_set_path_twice(m.value, m.index, a, b);
    lemma_get_path_after_set(m.value, m.index, a);
}

} // verus!
