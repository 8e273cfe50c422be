//! Fixed-capacity buffers backed by `heapless::Vec`.
//!
//! The library uses three instances: 256-byte payload buffers, 11-byte
//! variable-header buffers and lists of up to 28 real numbers. For each, a
//! spec function names what the buffer holds, and each `heapless` method the
//! library calls has a wrapper whose contract states what the method does to
//! those contents, as `heapless` 0.8's `vec.rs` implements it: `new` is
//! empty, `push` appends only below capacity and otherwise leaves the buffer
//! alone, `extend_from_slice` appends everything or, when it would not fit,
//! nothing, and `as_slice` shows the held items in order.

use vstd::prelude::*;

verus! {

#[verifier::external_type_specification]
#[verifier::external_body]
#[verifier::reject_recursive_types(T)]
pub struct ExHeaplessVec<T, const N: usize>(heapless::Vec<T, N>);

/// What a `heapless::Vec<u8, 256>` holds, in order.
pub uninterp spec fn bytes256(v: heapless::Vec<u8, 256>) -> Seq<u8>;

/// What a `heapless::Vec<u8, 11>` holds, in order.
pub uninterp spec fn bytes11(v: heapless::Vec<u8, 11>) -> Seq<u8>;

/// What a `heapless::Vec<[u8; 9], 28>` holds, in order.
pub uninterp spec fn reals28(v: heapless::Vec<[u8; 9], 28>) -> Seq<[u8; 9]>;

/// `heapless::Vec::<u8, 256>::new`: an empty buffer.
#[verifier::external_body]
pub(crate) fn bytes256_new() -> (v: heapless::Vec<u8, 256>)
    ensures
        bytes256(v) == Seq::<u8>::empty(),
{
    heapless::Vec::new()
}

/// `heapless::Vec::<u8, 256>::push`: appends the byte when fewer than 256 are
/// held, and otherwise leaves the buffer unchanged; the result says which.
#[verifier::external_body]
pub(crate) fn bytes256_push(v: &mut heapless::Vec<u8, 256>, b: u8) -> (pushed: bool)
    ensures
        pushed == (bytes256(*old(v)).len() < 256),
        bytes256(*final(v)) == if bytes256(*old(v)).len() < 256 {
            bytes256(*old(v)).push(b)
        } else {
            bytes256(*old(v))
        },
{
    v.push(b).is_ok()
}

/// `heapless::Vec::<u8, 256>::extend_from_slice`: appends all of `other` when
/// the result fits in 256 bytes, and otherwise changes nothing; the result
/// says which.
#[verifier::external_body]
pub(crate) fn bytes256_extend_from_slice(v: &mut heapless::Vec<u8, 256>, other: &[u8]) -> (added: bool)
    ensures
        added == (bytes256(*old(v)).len() + other@.len() <= 256),
        bytes256(*final(v)) == if bytes256(*old(v)).len() + other@.len() <= 256 {
            bytes256(*old(v)) + other@
        } else {
            bytes256(*old(v))
        },
{
    v.extend_from_slice(other).is_ok()
}

/// `heapless::Vec::<u8, 256>::as_slice`: the held bytes, at most 256 of them.
#[verifier::external_body]
pub(crate) fn bytes256_as_slice(v: &heapless::Vec<u8, 256>) -> (s: &[u8])
    ensures
        s@ == bytes256(*v),
        s@.len() <= 256,
{
    v.as_slice()
}

/// `heapless::Vec::<u8, 11>::new`: an empty buffer.
#[verifier::external_body]
pub(crate) fn bytes11_new() -> (v: heapless::Vec<u8, 11>)
    ensures
        bytes11(v) == Seq::<u8>::empty(),
{
    heapless::Vec::new()
}

/// `heapless::Vec::<u8, 11>::push`: appends the byte when fewer than 11 are
/// held, and otherwise leaves the buffer unchanged; the result says which.
#[verifier::external_body]
pub(crate) fn bytes11_push(v: &mut heapless::Vec<u8, 11>, b: u8) -> (pushed: bool)
    ensures
        pushed == (bytes11(*old(v)).len() < 11),
        bytes11(*final(v)) == if bytes11(*old(v)).len() < 11 {
            bytes11(*old(v)).push(b)
        } else {
            bytes11(*old(v))
        },
{
    v.push(b).is_ok()
}

/// `heapless::Vec::<u8, 11>::as_slice`: the held bytes, at most 11 of them.
#[verifier::external_body]
pub(crate) fn bytes11_as_slice(v: &heapless::Vec<u8, 11>) -> (s: &[u8])
    ensures
        s@ == bytes11(*v),
        s@.len() <= 11,
{
    v.as_slice()
}

/// `heapless::Vec::<[u8; 9], 28>::new`: an empty list.
#[verifier::external_body]
pub(crate) fn reals28_new() -> (v: heapless::Vec<[u8; 9], 28>)
    ensures
        reals28(v) == Seq::<[u8; 9]>::empty(),
{
    heapless::Vec::new()
}

/// `heapless::Vec::<[u8; 9], 28>::push`: appends the item when fewer than 28
/// are held, and otherwise leaves the list unchanged; the result says which.
#[verifier::external_body]
pub(crate) fn reals28_push(v: &mut heapless::Vec<[u8; 9], 28>, item: [u8; 9]) -> (pushed: bool)
    ensures
        pushed == (reals28(*old(v)).len() < 28),
        reals28(*final(v)) == if reals28(*old(v)).len() < 28 {
            reals28(*old(v)).push(item)
        } else {
            reals28(*old(v))
        },
{
    v.push(item).is_ok()
}

/// `heapless::Vec::<[u8; 9], 28>::as_slice`: the held items, at most 28 of them.
#[verifier::external_body]
pub(crate) fn reals28_as_slice(v: &heapless::Vec<[u8; 9], 28>) -> (s: &[[u8; 9]])
    ensures
        s@ == reals28(*v),
        s@.len() <= 28,
{
    v.as_slice()
}

/// The first `cap` items of `s`, or all of them when there are fewer.
pub open spec fn truncated<A>(s: Seq<A>, cap: nat) -> Seq<A> {
    if s.len() <= cap {
        s
    } else {
        s.subrange(0, cap as int)
    }
}

/// Appending and then keeping at most `cap` items is keeping at most `cap`
/// items and appending only while under the capacity.
pub proof fn lemma_truncated_push<A>(s: Seq<A>, b: A, cap: nat)
    ensures
        truncated(s.push(b), cap) == if truncated(s, cap).len() < cap {
            truncated(s, cap).push(b)
        } else {
            truncated(s, cap)
        },
{
    if s.len() < cap {
    } else if s.len() == cap {
        assert(s.push(b).subrange(0, cap as int) =~= s);
    } else {
        assert(s.push(b).subrange(0, cap as int) =~= s.subrange(0, cap as int));
    }
}

} // verus!
