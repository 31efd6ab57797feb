//! The event/callback resolver: a callback name carried by a widget,
//! plus at most one numeric argument, is resolved against the message
//! schema the host registered, yielding a typed message value. This
//! happens lazily at interaction time: a misspelled callback name loads
//! fine and only fails when the widget fires.

use vstd::prelude::*;
use crate::num::Fixed;
use crate::bytes::bytes_eq;
use crate::state::copy_bytes;

verus! {

/// The message schema the host registers: each variant's name, and
/// whether the variant takes one numeric argument.
#[derive(Debug)]
pub struct MessageSchema {
    pub variants: Vec<(Vec<u8>, bool)>,
}

/// A resolved, typed message: a registered variant name and its
/// argument, if the variant takes one.
#[derive(Debug)]
pub struct MessageValue {
    pub name: Vec<u8>,
    pub arg: Option<Fixed>,
}

/// Why a callback could not be resolved.
#[derive(Debug, Clone, Copy, PartialEq, Eq, Structural)]
pub enum CallbackError {
    /// The name matches no registered message variant.
    UnknownName,
    /// The name is registered, but with the other arity.
    WrongArity,
}

/// Whether the named variant is registered, and with which arity.
pub open spec fn find_variant(s: Seq<(Seq<u8>, bool)>, name: Seq<u8>) -> Option<bool>
    decreases s.len(),
{
    if s.len() == 0 {
        None
    } else if s[0].0 == name {
        Some(s[0].1)
    } else {
        find_variant(s.drop_first(), name)
    }
}

impl MessageSchema {
    /// The mathematical view: the registered variants, in order.
    pub open spec fn view(self) -> Seq<(Seq<u8>, bool)> {
        Seq::new(self.variants@.len(), |i: int| (self.variants@[i].0@, self.variants@[i].1))
    }

    /// An empty schema.
    pub fn new() -> (r: MessageSchema)
        ensures
            r@ =~= Seq::<(Seq<u8>, bool)>::empty(),
    {
        let r = MessageSchema { variants: Vec::new() };
        proof {
            assert(r@ =~= Seq::<(Seq<u8>, bool)>::empty());
        }
        r
    }

    /// Registers one variant in front of the existing ones.
    pub fn register(&mut self, name: Vec<u8>, takes_arg: bool)
        ensures
            final(self)@ =~= seq![(name@, takes_arg)] + old(self)@,
    {
        self.variants.insert(0, (name, takes_arg));
        proof {
            assert(final(self)@ =~= seq![(name@, takes_arg)] + old(self)@);
        }
    }
}

/// The arity-checked resolution of `name` with `arg` against a schema.
pub open spec fn spec_resolve(
    schema: Seq<(Seq<u8>, bool)>,
    name: Seq<u8>,
    arg: Option<nat>,
) -> Result<(Seq<u8>, Option<nat>), CallbackError> {
    match find_variant(schema, name) {
        None => Err(CallbackError::UnknownName),
        Some(takes_arg) => if takes_arg == (arg is Some) {
            Ok((name, arg))
        } else {
            Err(CallbackError::WrongArity)
        },
    }
}

/// The view of an optional numeric argument.
pub open spec fn arg_view(arg: Option<Fixed>) -> Option<nat> {
    match arg {
        Some(x) => Some(x.value()),
        None => None,
    }
}

/// Resolves a callback name and optional numeric argument to a typed
/// message value, exactly when the schema registers that name with that
/// arity.
pub fn resolve(schema: &MessageSchema, name: &Vec<u8>, arg: Option<Fixed>) -> (r: Result<
    MessageValue,
    CallbackError,
>)
    ensures
        match r {
            Ok(mv) => spec_resolve(schema@, name@, arg_view(arg)) == Ok::<_, CallbackError>(
                (mv.name@, arg_view(mv.arg)),
            ) && mv.name@ == name@ && mv.arg == arg,
            Err(e) => spec_resolve(schema@, name@, arg_view(arg)) == Err::<
                (Seq<u8>, Option<nat>),
                _,
            >(e),
        },
{
    let n: usize = schema.variants.len();
    let mut k: usize = 0;
    assert(schema@.skip(0) =~= schema@);
    while k < n
        invariant
            k <= n,
            n == schema.variants@.len(),
            find_variant(schema@, name@) == find_variant(schema@.skip(k as int), name@),
        decreases n - k,
    {
        proof {
            assert(schema@.skip(k as int)[0] == (
                schema.variants@[k as int].0@,
                schema.variants@[k as int].1,
            ));
            assert(schema@.skip(k as int).drop_first() =~= schema@.skip(k + 1));
        }
        if bytes_eq(&schema.variants[k].0, name) {
            let takes_arg = schema.variants[k].1;
            let has_arg = match arg {
                Some(_) => true,
                None => false,
            };
            if takes_arg == has_arg {
                return Ok(MessageValue { name: copy_bytes(name), arg });
            } else {
                return Err(CallbackError::WrongArity);
            }
        }
        k += 1;
    }
    assert(schema@.skip(n as int) =~= Seq::<(Seq<u8>, bool)>::empty());
    Err(CallbackError::UnknownName)
}

} // verus!
