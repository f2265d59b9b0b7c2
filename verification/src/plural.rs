use vstd::prelude::*;

verus! {

/// Index of the plural variant that a message set of `size` variants offers
/// for the count `num`.
///
/// A single variant is returned for every count.  With exactly two variants
/// the first is the singular, used only for the count 1, and the second
/// covers every other count.  With three or more variants the first
/// `size - 1` variants answer the counts `0 .. size - 2` one to one, and
/// every larger count falls into the last variant.
pub open spec fn plural_index(size: int, num: int) -> int
    recommends
        size >= 1,
        num >= 0,
{
    if size == 2 {
        if num == 1 {
            0
        } else {
            1
        }
    } else if num < size - 1 {
        num
    } else {
        size - 1
    }
}

/// Selects which of `size` plural variants answers the count `num`.
pub fn message_index(size: &usize, num: &usize) -> (i: usize)
    requires
        *size >= 1,
    ensures
        i == plural_index(*size as int, *num as int),
        i < *size,
        *size == 1 ==> i == 0,
        *size == 2 ==> i == (if *num == 1 { 0int } else { 1int }),
        *size >= 3 ==> i == vstd::math::min(*size as int - 1, *num as int),
{
    if *size == 2 {
        if *num == 1 {
            0
        } else {
            1
        }
    } else {
        let last = *size - 1;
        if *num < last {
            *num
        } else {
            last
        }
    }
}

} // verus!
