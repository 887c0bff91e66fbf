use vstd::prelude::*;
use crate::utils::byte_spec::{last_occurrence, lemma_last_occurrence, pad, split_all, views};
use crate::utils::digit_spec::{before_zero, read_digits, read_fits};
use crate::utils::managed_buffer_utils::{load_padded, split_through};
use crate::utils::{read_number, slice_of};

verus! {

/// The size of the scratch array these helpers load a buffer into.
pub const SCRATCH_LEN: usize = 256;

/// The segments of `buffer` between occurrences of `char`; a buffer that
/// fills the whole 256-byte array loses its last segment.
pub fn split_buffer(buffer: &Vec<u8>, char: u8) -> (r: Vec<Vec<u8>>)
    requires
        buffer@.len() <= 256,
    ensures
        views(r@) == (if buffer@.len() < 256 {
            split_all(buffer@, char)
        } else {
            split_all(buffer@, char).drop_last()
        }),
{
    split_through(buffer, char, SCRATCH_LEN)
}

/// Splits around the last `char` before the final byte: what comes before
/// it and what comes after it.
pub fn split_last_occurence(buffer: &Vec<u8>, char: u8) -> (r: (Vec<u8>, Vec<u8>))
    requires
        1 <= buffer@.len() <= 256,
        last_occurrence(buffer@, char, buffer@.len() - 1) >= 0,
    ensures
        r.0@ == buffer@.take(last_occurrence(buffer@, char, buffer@.len() - 1)),
        r.1@ == buffer@.subrange(last_occurrence(buffer@, char, buffer@.len() - 1) + 1, buffer@.len() as int),
{
    let bytes = load_padded(buffer, SCRATCH_LEN);
    let n = buffer.len();
    let mut i = n - 1;
    while i > 0
        invariant
            i < n,
            n == buffer.len(),
            1 <= n <= 256,
            bytes@ == pad(buffer@, 256),
            last_occurrence(buffer@, char, n - 1) == last_occurrence(buffer@, char, i as int),
            last_occurrence(buffer@, char, i as int) >= 0,
        decreases i,
    {
        if bytes[i - 1] == char {
            let k = i - 1;
            let first = slice_of(&bytes, 0, k);
            let second = slice_of(&bytes, k + 1, n);
            assert(first@ =~= buffer@.take(k as int));
            assert(second@ =~= buffer@.subrange(k + 1, n as int));
            return (first, second);
        }
        i -= 1;
    }
    (Vec::new(), Vec::new())
}

/// The buffer without its first byte.
pub fn remove_first_char(buffer: &Vec<u8>) -> (r: Vec<u8>)
    requires
        1 <= buffer@.len() <= 256,
    ensures
        r@ == buffer@.skip(1),
{
    let bytes = load_padded(buffer, SCRATCH_LEN);
    let r = slice_of(&bytes, 1, buffer.len());
    assert(r@ =~= buffer@.skip(1));
    r
}

/// The buffer without its first and last bytes.
pub fn remove_first_and_last_char(buffer: &Vec<u8>) -> (r: Vec<u8>)
    requires
        2 <= buffer@.len() <= 256,
    ensures
        r@ == buffer@.subrange(1, buffer@.len() - 1),
{
    let bytes = load_padded(buffer, SCRATCH_LEN);
    let r = slice_of(&bytes, 1, buffer.len() - 1);
    assert(r@ =~= buffer@.subrange(1, buffer@.len() - 1));
    r
}

/// The number written in base 16 before the first zero byte; `None` at a
/// byte that is not a base-16 digit.
pub fn hex_to_u64(buffer: &Vec<u8>) -> (r: Option<u64>)
    requires
        buffer@.len() <= 256,
        read_fits(before_zero(pad(buffer@, 256)), 16, 0),
    ensures
        match r {
            Some(v) => read_digits(before_zero(pad(buffer@, 256)), 16, 0) == Some(v as int),
            None => read_digits(before_zero(pad(buffer@, 256)), 16, 0) is None,
        },
{
    let bytes = load_padded(buffer, SCRATCH_LEN);
    read_number(&bytes, 16)
}

} // verus!
