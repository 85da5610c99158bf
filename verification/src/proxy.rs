//! The conversions through which proxied values go.

use vstd::prelude::*;
use crate::value::{Val, Value};

verus! {

/// The pairs of conversions that a schema's proxies refer to by number: one
/// from a value to the representation that goes onto the wire, one back.
///
/// The two spec functions say what the conversions compute; the two
/// executable ones compute it. Both are total: a conversion that is handed a
/// value it was not made for returns what it sees fit, and what the codec then
/// does with it is stated over the spec functions like everything else.
pub trait ProxyHooks {
    /// The representation of `v` under the conversion numbered `hook`.
    spec fn to_proxy_spec(&self, hook: usize, v: Val) -> Val;

    /// The value that the representation `p` stands for under the conversion
    /// numbered `hook`.
    spec fn from_proxy_spec(&self, hook: usize, p: Val) -> Val;

    /// Converts `v` to its representation under the conversion numbered
    /// `hook`.
    fn to_proxy(&self, hook: usize, v: &Value) -> (p: Value)
        ensures
            p@ == self.to_proxy_spec(hook, v@),
    ;

    /// Converts the representation `p` back under the conversion numbered
    /// `hook`.
    fn from_proxy(&self, hook: usize, p: &Value) -> (v: Value)
        ensures
            v@ == self.from_proxy_spec(hook, p@),
    ;
}

/// The hooks of a schema without proxies: every conversion leaves the value
/// as it is.
pub struct NoProxy;

impl ProxyHooks for NoProxy {
    open spec fn to_proxy_spec(&self, hook: usize, v: Val) -> Val {
        v
    }

    open spec fn from_proxy_spec(&self, hook: usize, p: Val) -> Val {
        p
    }

    fn to_proxy(&self, hook: usize, v: &Value) -> (p: Value) {
        v.duplicate()
    }

    fn from_proxy(&self, hook: usize, p: &Value) -> (v: Value) {
        p.duplicate()
    }
}

} // verus!
