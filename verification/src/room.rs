//! How much room the collections of the trie hold: what the allocator gave
//! them, and what that comes to in bytes.
use std::collections::HashMap;
use vstd::prelude::*;
use vstd::utf8::encode_utf8;

verus! {

/// The most items for which room is set aside ahead of their use.
pub const MAX_RESERVED: usize = 0x10_0000;

/// `amount` as a machine word, or the largest machine word if it does not fit.
pub open spec fn clamped(amount: int) -> usize {
    if amount > usize::MAX {
        usize::MAX
    } else if amount < 0 {
        0
    } else {
        amount as usize
    }
}

/// The bytes that `count` items of `unit` bytes each take, held at the
/// largest machine word if they are more.
pub fn bytes_for(count: usize, unit: usize) -> (bytes: usize)
    ensures
        bytes == clamped(count * unit),
{
    match count.checked_mul(unit) {
        Some(bytes) => bytes,
        None => usize::MAX,
    }
}

/// The sum of two counts, held at the largest machine word if it is more.
pub fn clamped_sum(a: usize, b: usize) -> (sum: usize)
    ensures
        sum == clamped(a + b),
{
    a.saturating_add(b)
}

/// Shrinks a vector's allocation towards its length with
/// `Vec::shrink_to_fit`, which keeps the elements and their order.
#[verifier::external_body]
pub(crate) fn release<T>(items: &mut Vec<T>)
    ensures
        final(items)@ == old(items)@,
{
    items.shrink_to_fit();
}

/// The number of elements that a vector has room for, from `Vec::capacity`.
/// A vector has room for at least the elements that it holds.
#[verifier::external_body]
pub(crate) fn room_of<T>(items: &Vec<T>) -> (room: usize)
    ensures
        room >= items@.len(),
{
    items.capacity()
}

/// The number of bytes that a string has room for, from `String::capacity`.
/// A string has room for at least the bytes that it holds.
#[verifier::external_body]
pub(crate) fn text_room(text: &String) -> (room: usize)
    ensures
        room >= encode_utf8(text@).len(),
{
    text.capacity()
}

/// The number of entries that a hash map has room for without growing, from
/// `HashMap::capacity`. Nothing is claimed of the number.
#[verifier::external_body]
pub(crate) fn table_room(table: &HashMap<u32, usize>) -> (room: usize) {
    table.capacity()
}

} // verus!
