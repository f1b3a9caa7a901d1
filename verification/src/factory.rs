use vstd::prelude::*;
use crate::value::Value;

verus! {

/// The opaque callable the engine invokes.
///
/// A factory receives the resolved dependency values, in the order the
/// dependency keys were declared, and either produces a value or fails with
/// an error payload; the engine propagates such a payload verbatim.
///
/// `post` is each implementation's own description of what one invocation
/// does: it relates the factory's state before the call, the argument list,
/// the state after the call, and the outcome. The engine promises nothing
/// about produced values beyond `post`, so a host may implement this trait
/// for any callable it marshals in.
pub trait Factory: Sized {
    /// What one invocation of this factory does.
    spec fn post(pre: Self, args: Seq<Value>, cur: Self, r: Result<Value, Value>) -> bool;

    /// Invokes the factory on the given argument list.
    fn call(&mut self, args: &Vec<Value>) -> (r: Result<Value, Value>)
        ensures
            Self::post(*old(self), args@, *final(self), r),
    ;
}

/// A ready-made family of factories over plain handles.
///
/// These cover the behaviours a host-independent container needs: a constant,
/// a stateful counter handing out one fresh handle per invocation, an always
/// failing factory, and a projection that returns one of its arguments.
#[derive(Clone, Copy, PartialEq, Eq, Structural, Debug)]
pub enum BasicFactory {
    /// Returns the same value on every invocation.
    Const(Value),
    /// Returns `Value { handle: next }` and then advances `next`, saturating
    /// at `u64::MAX`; each invocation below the saturation point yields a
    /// fresh handle.
    Counter { next: u64 },
    /// Fails on every invocation with the given payload.
    Fail(Value),
    /// Returns its argument at position `index`, or fails with `missing`
    /// when fewer arguments were supplied.
    Select { index: usize, missing: Value },
}

impl Factory for BasicFactory {
    open spec fn post(pre: Self, args: Seq<Value>, cur: Self, r: Result<Value, Value>) -> bool {
        match pre {
            BasicFactory::Const(v) => cur == pre && r == Ok::<Value, Value>(v),
            BasicFactory::Counter { next } => {
                &&& r == Ok::<Value, Value>(Value { handle: next })
                &&& cur == (BasicFactory::Counter {
                    next: if next < u64::MAX { (next + 1) as u64 } else { next },
                })
            },
            BasicFactory::Fail(v) => cur == pre && r == Err::<Value, Value>(v),
            BasicFactory::Select { index, missing } => {
                &&& cur == pre
                &&& (if index < args.len() {
                    r == Ok::<Value, Value>(args[index as int])
                } else {
                    r == Err::<Value, Value>(missing)
                })
            },
        }
    }

    fn call(&mut self, args: &Vec<Value>) -> (r: Result<Value, Value>) {
        match *self {
            BasicFactory::Const(v) => Ok(v),
            BasicFactory::Counter { next } => {
                let fresh = Value { handle: next };
                *self = BasicFactory::Counter {
                    next: if next < u64::MAX {
                        next + 1
                    } else {
                        next
                    },
                };
                Ok(fresh)
            },
            BasicFactory::Fail(v) => Err(v),
            BasicFactory::Select { index, missing } => {
                if index < args.len() {
                    Ok(args[index])
                } else {
                    Err(missing)
                }
            },
        }
    }
}

} // verus!
