//! Equality and order of keys and values.

use crate::bytes::lex_lt;
use crate::types::{Key, Value};
use core::cmp::Ordering;
use vstd::prelude::*;
use vstd::std_specs::cmp::{PartialEqSpec, PartialOrdSpec};

verus! {

/// Keys are equal iff their bytes are, and so are values.
pub proof fn law_equality(a: Key, b: Key, v: Value, w: Value)
    ensures
        a.eq_spec(&b) <==> a@ == b@,
        v.eq_spec(&w) <==> v@ == w@,
{
}

/// Keys are ordered as their bytes are.
pub proof fn law_key_order(a: Key, b: Key)
    ensures
        lex_lt(a@, b@) ==> a.partial_cmp_spec(&b) == Some(Ordering::Less),
        a@ == b@ && !lex_lt(a@, b@) ==> a.partial_cmp_spec(&b) == Some(Ordering::Equal),
        a@ != b@ && !lex_lt(a@, b@) ==> a.partial_cmp_spec(&b) == Some(Ordering::Greater),
{
}

} // verus!
