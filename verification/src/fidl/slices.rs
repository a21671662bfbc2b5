use vstd::prelude::*;
use super::wire::Error;

verus! {

/// Empties out a mutable slice, handing back what it held.
pub fn take_slice_mut<'a, T>(x: &mut &'a mut [T]) -> (r: &'a mut [T])
    ensures
        r@ == old(x)@,
        final(x)@.len() == 0,
{
    let mut empty: &'a mut [T] = &mut [];
    core::mem::swap(x, &mut empty);
    empty
}

/// Splits the first `n` elements off the front of a mutable slice: on
/// success `slice` keeps the rest. Asking for more elements than the slice
/// holds is refused and leaves the slice as it was.
pub fn split_off_front_mut<'a, T>(slice: &mut &'a mut [T], n: usize) -> (r: Result<&'a mut [T], Error>)
    ensures
        n > old(slice)@.len() ==> r == Err::<&'a mut [T], Error>(Error::OutOfRange) && final(slice)@ == old(slice)@,
        n <= old(slice)@.len() ==> (r matches Ok(head) && head@ == old(slice)@.subrange(0, n as int)
            && final(slice)@ == old(slice)@.subrange(n as int, old(slice)@.len() as int)),
{
    if n > slice.len() {
        return Err(Error::OutOfRange);
    }
    let original = take_slice_mut(slice);
    let (head, tail) = original.split_at_mut(n);
    *slice = tail;
    Ok(head)
}

/// Splits the first element off the front of a mutable slice: on success
/// `slice` keeps the rest. An empty slice is refused and left as it was.
pub fn split_off_first_mut<'a, T>(slice: &mut &'a mut [T]) -> (r: Result<&'a mut T, Error>)
    ensures
        old(slice)@.len() == 0 ==> r == Err::<&'a mut T, Error>(Error::OutOfRange) && final(slice)@ == old(slice)@,
        old(slice)@.len() > 0 ==> (r matches Ok(first) && *first == old(slice)@[0]
            && final(slice)@ == old(slice)@.subrange(1, old(slice)@.len() as int)),
{
    match split_off_front_mut(slice, 1) {
        Ok(res) => Ok(&mut res[0]),
        Err(e) => Err(e),
    }
}

} // verus!
