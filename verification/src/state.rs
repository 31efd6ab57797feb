//! Application state as a generic field/value mapping. The engine never
//! sees the host's own state type: the host reduces it to a `StateMap`
//! of named plain values for template substitution and field lookup.

use vstd::prelude::*;
use crate::num::Fixed;

verus! {

/// A plain state value: a flag, a byte string, or a fixed-point number.
#[derive(Debug)]
pub enum Value {
    Bool(bool),
    Text(Vec<u8>),
    Num(Fixed),
}

/// Mathematical view of a state value.
pub enum ValModel {
    Bool(bool),
    Text(Seq<u8>),
    Num(nat),
}

impl Value {
    /// The mathematical view of this value.
    pub open spec fn view(self) -> ValModel {
        match self {
            Value::Bool(b) => ValModel::Bool(b),
            Value::Text(t) => ValModel::Text(t@),
            Value::Num(x) => ValModel::Num(x.value()),
        }
    }

    /// An exact copy of this value.
    pub fn duplicate(&self) -> (r: Value)
        ensures
            r.view() == self.view(),
    {
        match self {
            Value::Bool(b) => Value::Bool(*b),
            Value::Text(t) => {
                let c = copy_bytes(t);
                Value::Text(c)
            },
            Value::Num(x) => Value::Num(*x),
        }
    }
}

/// Byte-for-byte copy of a byte string.
pub fn copy_bytes(v: &Vec<u8>) -> (r: Vec<u8>)
    ensures
        r@ == v@,
{
    let n: usize = v.len();
    let mut r: Vec<u8> = Vec::new();
    let mut k: usize = 0;
    while k < n
        invariant
            k <= n,
            n == v@.len(),
            r@ == v@.subrange(0, k as int),
        decreases n - k,
    {
        r.push(v[k]);
        k += 1;
        assert(r@ =~= v@.subrange(0, k as int));
    }
    assert(r@ =~= v@);
    r
}

/// First value bound to `name`, looking from the front.
pub open spec fn find_val(m: Seq<(Seq<u8>, ValModel)>, name: Seq<u8>) -> Option<ValModel>
    decreases m.len(),
{
    if m.len() == 0 {
        None
    } else if m[0].0 == name {
        Some(m[0].1)
    } else {
        find_val(m.drop_first(), name)
    }
}

/// The application state reduced to an ordered field/value mapping.
/// A field set more than once is shadowed by its most recent binding.
#[derive(Debug)]
pub struct StateMap {
    pub entries: Vec<(Vec<u8>, Value)>,
}

impl StateMap {
    /// The mathematical view: the sequence of bindings, newest first.
    pub open spec fn view(self) -> Seq<(Seq<u8>, ValModel)> {
        Seq::new(self.entries@.len(), |i: int| (self.entries@[i].0@, self.entries@[i].1.view()))
    }

    /// The value bound to `name`, if any.
    pub open spec fn spec_get(self, name: Seq<u8>) -> Option<ValModel> {
        find_val(self.view(), name)
    }

    /// An empty mapping.
    pub fn new() -> (r: StateMap)
        ensures
            r.view() =~= Seq::<(Seq<u8>, ValModel)>::empty(),
    {
        let r = StateMap { entries: Vec::new() };
        proof {
            assert(r.view() =~= Seq::<(Seq<u8>, ValModel)>::empty());
        }
        r
    }

    /// Binds `name` to `value`, shadowing any earlier binding.
    pub fn set(&mut self, name: Vec<u8>, value: Value)
        ensures
            final(self).view() =~= seq![(name@, value.view())] + old(self).view(),
    {
        self.entries.insert(0, (name, value));
        proof {
            assert(final(self).view() =~= seq![(name@, value.view())] + old(self).view());
        }
    }

    /// Looks `name` up, yielding a reference to its value.
    pub fn get(&self, name: &Vec<u8>) -> (r: Option<&Value>)
        ensures
            match r {
                Some(v) => self.spec_get(name@) == Some(v.view()),
                None => self.spec_get(name@) is None,
            },
    {
        let n: usize = self.entries.len();
        let mut k: usize = 0;
        assert(self.view().skip(0) =~= self.view());
        while k < n
            invariant
                k <= n,
                n == self.entries@.len(),
                find_val(self.view(), name@) == find_val(self.view().skip(k as int), name@),
            decreases n - k,
        {
            proof {
                assert(self.view().skip(k as int)[0] == (
                    self.entries@[k as int].0@,
                    self.entries@[k as int].1.view(),
                ));
                assert(self.view().skip(k as int).drop_first() =~= self.view().skip(k + 1));
            }
            if crate::bytes::bytes_eq(&self.entries[k].0, name) {
                return Some(&self.entries[k].1);
            }
            k += 1;
        }
        assert(self.view().skip(n as int) =~= Seq::<(Seq<u8>, ValModel)>::empty());
        None
    }

    /// An exact copy of the whole mapping.
    pub fn duplicate(&self) -> (r: StateMap)
        ensures
            r.view() =~= self.view(),
    {
        let n: usize = self.entries.len();
        let mut entries: Vec<(Vec<u8>, Value)> = Vec::new();
        let mut k: usize = 0;
        while k < n
            invariant
                k <= n,
                n == self.entries@.len(),
                entries@.len() == k,
                forall|i: int|
                    0 <= i < k ==> (#[trigger] entries@[i]).0@ == self.entries@[i].0@
                        && entries@[i].1.view() == self.entries@[i].1.view(),
            decreases n - k,
        {
            let name = copy_bytes(&self.entries[k].0);
            let value = self.entries[k].1.duplicate();
            entries.push((name, value));
            k += 1;
        }
        let r = StateMap { entries };
        proof {
            assert(r.view() =~= self.view());
        }
        r
    }
}

} // verus!
