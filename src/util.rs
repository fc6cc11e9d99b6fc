//! Small conversions.
use vstd::prelude::*;
use std::convert::TryInto;

verus! {

/// Relies on std's `TryFrom<Vec<T>> for [T; N]`: the whole vector as an
/// array when its length is `N`, otherwise the vector handed back.
#[verifier::external_body]
fn array_from_vec<T, const N: usize>(v: Vec<T>) -> (r: Result<[T; N], Vec<T>>)
    ensures
        match r {
            Ok(a) => v@.len() == N && a@ == v@,
            Err(w) => v@.len() != N && w@ == v@,
        },
{
    v.try_into()
}

/// The items of `v`, which holds exactly `N` of them, as an array.
pub fn to_array<T, const N: usize>(v: Vec<T>) -> (r: [T; N])
    requires
        v@.len() == N,
    ensures
        r@ == v@,
{
    match array_from_vec::<T, N>(v) {
        Ok(a) => a,
        Err(_) => vstd::pervasive::unreached(),
    }
}

} // verus!
