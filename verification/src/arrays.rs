//! Conversions into fixed-size arrays that the standard library performs.

use vstd::prelude::*;

verus! {

/// `<[T; N]>::try_from(&[T])`: an array exactly when the slice has `N` items, holding them.
#[verifier::external_body]
pub(crate) fn array_from_slice<T: Copy, const N: usize>(items: &[T]) -> (r: Option<[T; N]>)
    ensures
        r is Some <==> items@.len() == N,
        r matches Some(a) ==> a@ == items@,
{
    items.try_into().ok()
}

/// `<[T; N]>::try_from(Vec<T>)`: an array exactly when the vector has `N` items, holding them;
/// otherwise the vector is handed back.
#[verifier::external_body]
pub(crate) fn array_from_vec<T, const N: usize>(items: Vec<T>) -> (r: Result<[T; N], Vec<T>>)
    ensures
        r is Ok <==> items@.len() == N,
        r matches Ok(a) ==> a@ == items@,
        r matches Err(v) ==> v@ == items@,
{
    items.try_into()
}

} // verus!
