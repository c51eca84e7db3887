//! The fixed-capacity buffers of the C40 and EDIFACT encoders, held in
//! `arrayvec::ArrayVec`.
use vstd::prelude::*;

use arrayvec::ArrayVec;

verus! {

/// Declares `arrayvec::ArrayVec` to Verus; its contents are opaque and are
/// spoken of through [c40_buffer_items] and [edifact_group_items].
#[verifier::external_type_specification]
#[verifier::external_body]
#[verifier::reject_recursive_types(T)]
pub struct ExArrayVec<T, const CAP: usize>(ArrayVec<T, CAP>);

/// The values held by a C40 value buffer, in order.
pub uninterp spec fn c40_buffer_items(v: ArrayVec<u8, 6>) -> Seq<u8>;

/// The values held by an EDIFACT group, in order.
pub uninterp spec fn edifact_group_items(v: ArrayVec<u8, 4>) -> Seq<u8>;

/// `ArrayVec::try_push` on a C40 value buffer: appends `value` when fewer
/// than 6 values are held (the capacity) and reports success; otherwise the
/// buffer stays as it is and the push is refused.
#[verifier::external_body]
pub(crate) fn c40_buffer_try_push(buf: &mut ArrayVec<u8, 6>, value: u8) -> (r: bool)
    ensures
        c40_buffer_items(*old(buf)).len() < 6 ==> r && c40_buffer_items(*final(buf))
            == c40_buffer_items(*old(buf)).push(value),
        c40_buffer_items(*old(buf)).len() >= 6 ==> !r && c40_buffer_items(*final(buf))
            == c40_buffer_items(*old(buf)),
        c40_buffer_items(*final(buf)).len() <= 6,
{
    buf.try_push(value).is_ok()
}

/// `ArrayVec::new` for a C40 value buffer: it holds no values.
#[verifier::external_body]
pub(crate) fn c40_buffer_new() -> (r: ArrayVec<u8, 6>)
    ensures
        c40_buffer_items(r) == Seq::<u8>::empty(),
{
    ArrayVec::new()
}

/// `ArrayVec::as_slice` on a C40 value buffer: the values held, in order,
/// never more than the capacity 6.
#[verifier::external_body]
pub(crate) fn c40_buffer_as_slice(buf: &ArrayVec<u8, 6>) -> (r: &[u8])
    ensures
        r@ == c40_buffer_items(*buf),
        r@.len() <= 6,
{
    buf.as_slice()
}

/// `ArrayVec::len` on a C40 value buffer: the number of values held, never
/// more than the capacity 6.
#[verifier::external_body]
pub(crate) fn c40_buffer_len(buf: &ArrayVec<u8, 6>) -> (r: usize)
    ensures
        r == c40_buffer_items(*buf).len(),
        r <= 6,
{
    buf.len()
}

/// `ArrayVec::as_slice` on an EDIFACT group: the values held, in order, never
/// more than the capacity 4.
#[verifier::external_body]
pub(crate) fn edifact_group_as_slice(group: &ArrayVec<u8, 4>) -> (r: &[u8])
    ensures
        r@ == edifact_group_items(*group),
        r@.len() <= 4,
{
    group.as_slice()
}

} // verus!
