pub mod bidimapper_utils;
pub mod big_uint;
pub mod byte_spec;
pub mod digit_spec;
pub mod managed_buffer_utils;
pub mod managed_vec_utils;

use vstd::prelude::*;
use crate::utils::byte_spec::{
    lemma_contains_scan_occurs, lemma_replace_scan_all, occurs_at, occurs_in, replace_all,
    capitalized, lemma_last_occurrence, lemma_mismatch_at_bounds, contains_scan, last_occurrence, lower, lowercase, mismatch_at, pad, probe,
    replace_scan, skip_to, split_capped, upper, views,
};
use crate::utils::digit_spec::{
    ascii_text, before_zero, digits, hex_char, hex_digit, hex_text, read_digits, read_fits,
};

verus! {

/// ASCII upper-casing of one byte.
pub fn ascii_upper(b: u8) -> (r: u8)
    ensures
        r == upper(b),
{
    if 97 <= b && b <= 122 {
        b - 32
    } else {
        b
    }
}

/// The character of a digit below 16.
fn digit_char(digit: u64) -> (r: u8)
    requires
        digit < 16,
    ensures
        r == hex_char(digit as int),
{
    if digit < 10 {
        48 + digit as u8
    } else {
        87 + digit as u8
    }
}

/// The value of a byte read as a base-16 digit.
fn to_digit_16(b: u8) -> (r: Option<u64>)
    ensures
        match r {
            Some(d) => hex_digit(b) == Some(d as int) && d < 16,
            None => hex_digit(b) is None,
        },
{
    if 48 <= b && b <= 57 {
        Some((b - 48) as u64)
    } else if 97 <= b && b <= 102 {
        Some((b - 87) as u64)
    } else if 65 <= b && b <= 70 {
        Some((b - 55) as u64)
    } else {
        None
    }
}

/// The digits of `n` in base `radix`, least significant first.
fn reversed_digits_of(n: u64, radix: u64) -> (r: Vec<u8>)
    requires
        radix == 10 || radix == 16,
    ensures
        r@.reverse() == digits(n as nat, radix as nat),
{
    let mut reversed_digits: Vec<u8> = Vec::new();
    let mut result = n;
    assert(reversed_digits@.reverse() =~= Seq::<u8>::empty());
    while result > 0
        invariant
            radix == 10 || radix == 16,
            digits(n as nat, radix as nat) == digits(result as nat, radix as nat) + reversed_digits@.reverse(),
        decreases result,
    {
        let digit = result % radix;
        let ghost before = reversed_digits@;
        let ghost r0 = result;
        result = result / radix;
        reversed_digits.push(digit_char(digit));
        assert(digits(r0 as nat, radix as nat) == digits(result as nat, radix as nat).push(hex_char(digit as int)));
        assert(reversed_digits@.reverse() =~= seq![hex_char(digit as int)] + before.reverse());
        assert(digits(n as nat, radix as nat) =~= digits(result as nat, radix as nat) + reversed_digits@.reverse());
    }
    assert(digits(0, radix as nat) =~= Seq::<u8>::empty());
    assert(digits(n as nat, radix as nat) =~= reversed_digits@.reverse());
    reversed_digits
}

/// `prefix` followed by the bytes of `rev` in reverse order.
fn append_reversed(mut o: Vec<u8>, rev: &Vec<u8>) -> (r: Vec<u8>)
    ensures
        r@ == o@ + rev@.reverse(),
{
    let ghost start = o@;
    let mut k = rev.len();
    while k > 0
        invariant
            k <= rev.len(),
            o@ =~= start + rev@.reverse().take((rev.len() - k) as int),
        decreases k,
    {
        o.push(rev[k - 1]);
        k -= 1;
    }
    assert(rev@.reverse().take(rev.len() as int) =~= rev@.reverse());
    o
}

/// Text forms of an unsigned number.
pub trait UtilsU64 {
    fn to_ascii(&self) -> Vec<u8>;

    fn to_hex(&self) -> Vec<u8>;
}

impl UtilsU64 for u64 {
    /// Lower-case hexadecimal digits, with a leading `0` when their number is
    /// odd; `00` for zero.
    fn to_hex(&self) -> (r: Vec<u8>)
        ensures
            r@ == hex_text(*self as nat),
    {
        let reversed_digits = reversed_digits_of(*self, 16);
        if reversed_digits.len() == 0 {
            let r = vec![48u8, 48u8];
            assert(r@ =~= hex_text(*self as nat));
            return r;
        }
        let mut o: Vec<u8> = Vec::new();
        if reversed_digits.len() % 2 != 0 {
            o.push(48u8);
        }
        let r = append_reversed(o, &reversed_digits);
        assert(r@ =~= hex_text(*self as nat));
        r
    }

    /// Decimal digits; `0` for zero.
    fn to_ascii(&self) -> (r: Vec<u8>)
        ensures
            r@ == ascii_text(*self as nat),
    {
        let reversed_digits = reversed_digits_of(*self, 10);
        if reversed_digits.len() == 0 {
            let r = vec![48u8];
            assert(r@ =~= ascii_text(*self as nat));
            return r;
        }
        let o: Vec<u8> = Vec::new();
        let r = append_reversed(o, &reversed_digits);
        assert(r@ =~= ascii_text(*self as nat));
        r
    }
}

} // verus!

verus! {

/// Reads the bytes of `p` as digits until the first zero byte or the end,
/// multiplying by `mul` at each digit.
pub(crate) fn read_number(p: &Vec<u8>, mul: u64) -> (r: Option<u64>)
    requires
        mul == 10 || mul == 16,
        read_fits(before_zero(p@), mul as int, 0),
    ensures
        match r {
            Some(v) => read_digits(before_zero(p@), mul as int, 0) == Some(v as int),
            None => read_digits(before_zero(p@), mul as int, 0) is None,
        },
{
    let mut result: u64 = 0;
    let mut k: usize = 0;
    assert(p@.skip(0) =~= p@);
    while k < p.len()
        invariant
            k <= p.len(),
            mul == 10 || mul == 16,
            read_fits(before_zero(p@.skip(k as int)), mul as int, result as int),
            read_digits(before_zero(p@), mul as int, 0) == read_digits(before_zero(p@.skip(k as int)), mul as int, result as int),
        decreases p.len() - k,
    {
        let b = p[k];
        let ghost rest = p@.skip(k as int);
        assert(rest[0] == b);
        assert(rest.drop_first() =~= p@.skip(k + 1));
        if b == 0 {
            assert(before_zero(rest) =~= Seq::<u8>::empty());
            return Some(result);
        }
        let ghost bz = before_zero(rest);
        assert(bz =~= seq![b] + before_zero(p@.skip(k + 1)));
        assert(bz[0] == b);
        assert(bz.drop_first() =~= before_zero(p@.skip(k + 1)));
        result = result * mul;
        match to_digit_16(b) {
            None => {
                return None;
            },
            Some(d) => {
                result = result + d;
            },
        }
        k += 1;
    }
    assert(p@.skip(p.len() as int) =~= Seq::<u8>::empty());
    Some(result)
}

/// Buffer operations on byte buffers of at most 512 bytes, the size of the
/// array each of them loads the buffer into.
pub trait ManagedBufferUtils: Sized + View<V = Seq<u8>> {
    fn load_512_bytes(&self) -> Vec<u8>
        requires
            self@.len() <= 512,
    ;

    fn split(&self, char: u8) -> Vec<Vec<u8>>
        requires
            self@.len() <= 512,
    ;

    fn split_last_occurence(&self, char: u8) -> (Vec<u8>, Vec<u8>)
        requires
            1 <= self@.len() <= 512,
            last_occurrence(self@, char, self@.len() - 1) >= 0,
    ;

    fn remove_first_char(&self) -> Vec<u8>
        requires
            1 <= self@.len() <= 512,
    ;

    fn remove_first_and_last_char(&self) -> Vec<u8>
        requires
            2 <= self@.len() <= 512,
    ;

    fn hex_to_u64(&self) -> Option<u64>
        requires
            self@.len() <= 512,
            read_fits(before_zero(pad(self@, 512)), 16, 0),
    ;

    fn ascii_to_u64(&self) -> Option<u64>
        requires
            self@.len() <= 512,
            read_fits(before_zero(pad(self@, 512)), 10, 0),
    ;

    /// Set the first character to uppercase
    fn capitalize(&self) -> Vec<u8>
        requires
            1 <= self@.len() <= 512,
    ;

    fn equals_ignore_case(&self, other: &Self) -> bool
        requires
            self@.len() == other@.len() ==> self@.len() <= 512,
    ;

    fn append_trailing_character_if_missing(&self, character: u8) -> Vec<u8>
        requires
            1 <= self@.len() <= 512,
    ;

    fn replace(&self, old_buffer: &[u8], new_buffer: &Vec<u8>) -> Vec<u8>
        requires
            self@.len() <= 512,
            replace_scan(pad(self@, 512), self@.len() as int, old_buffer@, new_buffer@, 0) is Some,
    ;

    fn contains(&self, to_find: &[u8]) -> bool
        requires
            self@.len() <= 512,
            contains_scan(pad(self@, 512), self@.len() as int, to_find@, 0) is Some,
    ;

    fn to_lowercase(&self) -> Vec<u8>
        requires
            self@.len() <= 512,
    ;
}

impl ManagedBufferUtils for Vec<u8> {
    fn load_512_bytes(&self) -> (r: Vec<u8>)
        ensures
            r@ == pad(self@, 512),
    {
        crate::utils::managed_buffer_utils::ManagedBufferUtils::load_512_bytes(self)
    }

    fn split(&self, char: u8) -> (r: Vec<Vec<u8>>)
        ensures
            views(r@) == split_capped(self@, char, 512),
    {
        crate::utils::managed_buffer_utils::ManagedBufferUtils::split(self, char)
    }

    /// Splits around the last `char` before the final byte.
    fn split_last_occurence(&self, char: u8) -> (r: (Vec<u8>, Vec<u8>))
        ensures
            r.0@ == self@.take(last_occurrence(self@, char, self@.len() - 1)),
            r.1@ == self@.subrange(last_occurrence(self@, char, self@.len() - 1) + 1, self@.len() as int),
    {
        let bytes = self.load_512_bytes();
        let n = self.len();
        let mut i = n - 1;
        while i > 0
            invariant
                i < n,
                n == self.len(),
                1 <= n <= 512,
                bytes@ == pad(self@, 512),
                last_occurrence(self@, char, n - 1) == last_occurrence(self@, char, i as int),
                last_occurrence(self@, char, i as int) >= 0,
            decreases i,
        {
            if bytes[i - 1] == char {
                let k = i - 1;
                let first = slice_of(&bytes, 0, k);
                let second = slice_of(&bytes, k + 1, n);
                assert(first@ =~= self@.take(k as int));
                assert(second@ =~= self@.subrange(k + 1, n as int));
                return (first, second);
            }
            i -= 1;
        }
        assert(false);
        (Vec::new(), Vec::new())
    }

    fn remove_first_char(&self) -> (r: Vec<u8>)
        ensures
            r@ == self@.skip(1),
    {
        let bytes = self.load_512_bytes();
        let r = slice_of(&bytes, 1, self.len());
        assert(r@ =~= self@.skip(1));
        r
    }

    fn remove_first_and_last_char(&self) -> (r: Vec<u8>)
        ensures
            r@ == self@.subrange(1, self@.len() - 1),
    {
        let bytes = self.load_512_bytes();
        let r = slice_of(&bytes, 1, self.len() - 1);
        assert(r@ =~= self@.subrange(1, self@.len() - 1));
        r
    }

    /// The number written in base 16 before the first zero byte; `None` at a
    /// byte that is not a base-16 digit.
    fn hex_to_u64(&self) -> (r: Option<u64>)
        ensures
            match r {
                Some(v) => read_digits(before_zero(pad(self@, 512)), 16, 0) == Some(v as int),
                None => read_digits(before_zero(pad(self@, 512)), 16, 0) is None,
            },
    {
        let bytes = self.load_512_bytes();
        read_number(&bytes, 16)
    }

    /// The number read before the first zero byte, multiplying by ten at each
    /// byte that is a base-16 digit; `None` at any other byte.
    fn ascii_to_u64(&self) -> (r: Option<u64>)
        ensures
            match r {
                Some(v) => read_digits(before_zero(pad(self@, 512)), 10, 0) == Some(v as int),
                None => read_digits(before_zero(pad(self@, 512)), 10, 0) is None,
            },
    {
        let bytes = self.load_512_bytes();
        read_number(&bytes, 10)
    }

    fn capitalize(&self) -> (r: Vec<u8>)
        ensures
            r@ == capitalized(self@),
    {
        let bytes = self.load_512_bytes();
        let mut o: Vec<u8> = Vec::new();
        o.push(ascii_upper(bytes[0]));
        let rest = slice_of(&bytes, 1, self.len());
        let r = concat(o, &rest);
        assert(r@ =~= capitalized(self@));
        r
    }

    /// Equal lengths and equal bytes once both are lower-cased.
    fn equals_ignore_case(&self, other: &Self) -> (r: bool)
        ensures
            r == (self@.len() == other@.len() && lowercase(self@) == lowercase(other@)),
    {
        if self.len() != other.len() {
            return false;
        }
        let self_bytes = self.load_512_bytes();
        let other_bytes = other.load_512_bytes();
        let mut i: usize = 0;
        while i < self.len()
            invariant
                self.len() == other.len(),
                self.len() <= 512,
                self_bytes@ == pad(self@, 512),
                other_bytes@ == pad(other@, 512),
                i <= self.len(),
                forall|j: int| 0 <= j < i ==> lower(self@[j]) == lower(other@[j]),
            decreases self.len() - i,
        {
            if managed_buffer_utils::ascii_lower(self_bytes[i]) != managed_buffer_utils::ascii_lower(other_bytes[i]) {
                assert(lowercase(self@)[i as int] != lowercase(other@)[i as int]);
                return false;
            }
            i += 1;
        }
        assert(lowercase(self@) =~= lowercase(other@));
        true
    }

    /// The buffer with `character` appended unless it already ends with it.
    fn append_trailing_character_if_missing(&self, character: u8) -> (r: Vec<u8>)
        ensures
            r@ == (if self@.last() == character {
                self@
            } else {
                self@.push(character)
            }),
    {
        let bytes = self.load_512_bytes();
        let mut o = slice_of(&bytes, 0, self.len());
        assert(o@ =~= self@);
        if bytes[self.len() - 1] != character {
            o.push(character);
        }
        o
    }

    /// Every match of `old_buffer`, scanning from the left, replaced by
    /// `new_buffer`.
    fn replace(&self, old_buffer: &[u8], new_buffer: &Vec<u8>) -> (r: Vec<u8>)
        ensures
            r@ == replace_scan(pad(self@, 512), self@.len() as int, old_buffer@, new_buffer@, 0)->Some_0,
            old_buffer@.len() > 0 && !old_buffer@.contains(0u8) && self@.len() + old_buffer@.len() <= 512
                ==> r@ == replace_all(self@, old_buffer@, new_buffer@),
    {
        proof {
            if old_buffer@.len() > 0 && !old_buffer@.contains(0u8) && self@.len() + old_buffer@.len() <= 512 {
                lemma_replace_scan_all(self@, old_buffer@, new_buffer@, 0);
                assert(self@.skip(0) =~= self@);
            }
        }
        let bytes = self.load_512_bytes();
        let ghost p = bytes@;
        let ghost n = self.len() as int;
        let mut o: Vec<u8> = Vec::new();
        let mut elements_to_skip: usize = 0;
        let mut i: usize = 0;
        assert(o@ + replace_scan(p, n, old_buffer@, new_buffer@, 0)->Some_0 =~= replace_scan(p, n, old_buffer@, new_buffer@, 0)->Some_0);
        while i < self.len()
            invariant
                bytes@ == p,
                p == pad(self@, 512),
                n == self.len(),
                n <= 512,
                i <= n,
                replace_scan(p, n, old_buffer@, new_buffer@, skip_to(i as int, elements_to_skip as int, n)) is Some,
                o@ + replace_scan(p, n, old_buffer@, new_buffer@, skip_to(i as int, elements_to_skip as int, n))->Some_0
                    == replace_scan(p, n, old_buffer@, new_buffer@, 0)->Some_0,
            decreases n - i,
        {
            if elements_to_skip > 0 {
                elements_to_skip -= 1;
                i += 1;
                continue;
            }
            assert(skip_to(i as int, 0, n) == i);
            assert(replace_scan(p, n, old_buffer@, new_buffer@, i as int) is Some);
            assert(old_buffer@.len() > 0);
            assert(probe(p, old_buffer@, i as int) is Some);
            if bytes[i] == old_buffer[0] {
                let ghost m = mismatch_at(p, old_buffer@, i as int, 0);
                proof {
                    lemma_mismatch_at_bounds(p, old_buffer@, i as int, 0);
                }
                let mut j: usize = 0;
                let mut matched = false;
                while j < old_buffer.len()
                    invariant_except_break
                        !matched,
                    invariant
                        bytes@ == p,
                        p.len() == 512,
                        i < n,
                        n <= 512,
                        old_buffer@.len() > 0,
                        m == mismatch_at(p, old_buffer@, i as int, 0),
                        m == mismatch_at(p, old_buffer@, i as int, j as int),
                        j <= m <= old_buffer@.len(),
                        m < old_buffer@.len() ==> i + m < 512,
                        j < old_buffer@.len(),
                    ensures
                        matched ==> m == old_buffer@.len(),
                        !matched ==> m < old_buffer@.len() && i + m < 512,
                    decreases old_buffer.len() - j,
                {
                    if bytes[i + j] != old_buffer[j] {
                        break;
                    }
                    if j == old_buffer.len() - 1 {
                        assert(mismatch_at(p, old_buffer@, i as int, j + 1) == old_buffer@.len());
                        matched = true;
                        break;
                    }
                    proof {
                        lemma_mismatch_at_bounds(p, old_buffer@, i as int, j + 1);
                    }
                    j += 1;
                }
                if matched {
                    let ghost tail = replace_scan(p, n, old_buffer@, new_buffer@, skip_to(i as int, old_buffer@.len() as int, n))->Some_0;
                    let mut k: usize = 0;
                    let ghost o0 = o@;
                    while k < new_buffer.len()
                        invariant
                            k <= new_buffer.len(),
                            o@ =~= o0 + new_buffer@.take(k as int),
                        decreases new_buffer.len() - k,
                    {
                        o.push(new_buffer[k]);
                        k += 1;
                    }
                    assert(new_buffer@.take(new_buffer.len() as int) =~= new_buffer@);
                    elements_to_skip = old_buffer.len() - 1;
                    assert(o@ + tail =~= o0 + (new_buffer@ + tail));
                    assert(skip_to(i + 1, elements_to_skip as int, n) == skip_to(i as int, old_buffer@.len() as int, n));
                } else {
                    let ghost o0 = o@;
                    o.push(bytes[i]);
                    assert(o@ + replace_scan(p, n, old_buffer@, new_buffer@, i + 1)->Some_0 =~= o0 + (seq![p[i as int]]
                        + replace_scan(p, n, old_buffer@, new_buffer@, i + 1)->Some_0));
                }
            } else {
                let ghost o0 = o@;
                o.push(bytes[i]);
                assert(o@ + replace_scan(p, n, old_buffer@, new_buffer@, i + 1)->Some_0 =~= o0 + (seq![p[i as int]]
                    + replace_scan(p, n, old_buffer@, new_buffer@, i + 1)->Some_0));
            }
            i += 1;
        }
        assert(o@ =~= replace_scan(p, n, old_buffer@, new_buffer@, 0)->Some_0);
        o
    }

    /// The naive search: whether some position holds all of `to_find`.
    fn contains(&self, to_find: &[u8]) -> (r: bool)
        ensures
            r == contains_scan(pad(self@, 512), self@.len() as int, to_find@, 0)->Some_0,
            to_find@.len() > 0 && !to_find@.contains(0u8) && self@.len() + to_find@.len() <= 512
                ==> (r <==> occurs_in(self@, to_find@)),
    {
        proof {
            if to_find@.len() > 0 && !to_find@.contains(0u8) && self@.len() + to_find@.len() <= 512 {
                lemma_contains_scan_occurs(self@, to_find@, 0);
                assert((exists|k: int| 0 <= k && #[trigger] occurs_at(self@, to_find@, k)) == occurs_in(self@, to_find@)) by {
                    if occurs_in(self@, to_find@) {
                        let k = choose|k: int| #[trigger] occurs_at(self@, to_find@, k);
                        assert(0 <= k && occurs_at(self@, to_find@, k));
                    }
                }
            }
        }
        let ghost plain = to_find@.len() > 0 && !to_find@.contains(0u8) && self@.len() + to_find@.len() <= 512;
        let ghost found = occurs_in(self@, to_find@);
        let bytes = self.load_512_bytes();
        let ghost p = bytes@;
        let ghost n = self.len() as int;
        let mut i: usize = 0;
        while i < self.len()
            invariant
                bytes@ == p,
                p == pad(self@, 512),
                n == self.len(),
                n <= 512,
                i <= n,
                contains_scan(p, n, to_find@, 0) == contains_scan(p, n, to_find@, i as int),
                contains_scan(p, n, to_find@, i as int) is Some,
                plain ==> contains_scan(p, n, to_find@, 0) == Some(found),
                found == occurs_in(self@, to_find@),
                plain == (to_find@.len() > 0 && !to_find@.contains(0u8) && self@.len() + to_find@.len() <= 512),
            decreases n - i,
        {
            assert(to_find@.len() > 0);
            assert(probe(p, to_find@, i as int) is Some);
            if bytes[i] == to_find[0] {
                let ghost m = mismatch_at(p, to_find@, i as int, 0);
                proof {
                    lemma_mismatch_at_bounds(p, to_find@, i as int, 0);
                }
                let mut j: usize = 0;
                while j < to_find.len()
                    invariant
                        bytes@ == p,
                        p.len() == 512,
                        i < n,
                        n <= 512,
                        to_find@.len() > 0,
                        contains_scan(p, n, to_find@, 0) == contains_scan(p, n, to_find@, i as int),
                        p == pad(self@, 512),
                        n == self@.len(),
                        p[i as int] == to_find@[0],
                        m == mismatch_at(p, to_find@, i as int, 0),
                        m == mismatch_at(p, to_find@, i as int, j as int),
                        j <= m <= to_find@.len(),
                        m < to_find@.len() ==> i + m < 512,
                        j < to_find@.len(),
                        plain ==> contains_scan(p, n, to_find@, 0) == Some(found),
                        found == occurs_in(self@, to_find@),
                        plain == (to_find@.len() > 0 && !to_find@.contains(0u8) && self@.len() + to_find@.len() <= 512),
                plain == (to_find@.len() > 0 && !to_find@.contains(0u8) && self@.len() + to_find@.len() <= 512),
                    ensures
                        m < to_find@.len() && i + m < 512,
                    decreases to_find.len() - j,
                {
                    if bytes[i + j] != to_find[j] {
                        break;
                    }
                    if j == to_find.len() - 1 {
                        assert(mismatch_at(p, to_find@, i as int, j + 1) == to_find@.len());
                        assert(probe(p, to_find@, i as int) == Some(true));
                        assert(contains_scan(p, n, to_find@, i as int) == Some(true));
                        return true;
                    }
                    proof {
                        lemma_mismatch_at_bounds(p, to_find@, i as int, j + 1);
                    }
                    j += 1;
                }
            }
            i += 1;
        }
        false
    }

    fn to_lowercase(&self) -> (r: Vec<u8>)
        ensures
            r@ == lowercase(self@),
    {
        crate::utils::managed_buffer_utils::ManagedBufferUtils::to_lowercase(self)
    }
}

/// The bytes `v[from..to]`.
pub fn slice_of(v: &Vec<u8>, from: usize, to: usize) -> (r: Vec<u8>)
    requires
        from <= to <= v.len(),
    ensures
        r@ == v@.subrange(from as int, to as int),
{
    let mut r: Vec<u8> = Vec::new();
    let mut i = from;
    while i < to
        invariant
            from <= i <= to,
            to <= v.len(),
            r@ =~= v@.subrange(from as int, i as int),
        decreases to - i,
    {
        r.push(v[i]);
        i += 1;
    }
    r
}

/// `a` followed by the bytes of `b`.
pub fn concat(mut a: Vec<u8>, b: &Vec<u8>) -> (r: Vec<u8>)
    ensures
        r@ == a@ + b@,
{
    let ghost a0 = a@;
    let mut i: usize = 0;
    while i < b.len()
        invariant
            i <= b.len(),
            a@ =~= a0 + b@.take(i as int),
        decreases b.len() - i,
    {
        a.push(b[i]);
        i += 1;
    }
    assert(b@.take(b.len() as int) =~= b@);
    a
}

/// The number after the last `#` of an equippable's name (such as
/// `Equippable #12`), read as `ascii_to_u64` reads it.
pub fn extract_number_from_equippable_name(name: &Vec<u8>) -> (r: Option<u64>)
    requires
        1 <= name@.len() <= 512,
        last_occurrence(name@, 35, name@.len() - 1) >= 0,
        read_fits(
            before_zero(pad(name@.subrange(last_occurrence(name@, 35, name@.len() - 1) + 1, name@.len() as int), 512)),
            10,
            0,
        ),
    ensures
        ({
            let number = name@.subrange(last_occurrence(name@, 35, name@.len() - 1) + 1, name@.len() as int);
            match r {
                Some(v) => read_digits(before_zero(pad(number, 512)), 10, 0) == Some(v as int),
                None => read_digits(before_zero(pad(number, 512)), 10, 0) is None,
            }
        }),
{
    proof {
        lemma_last_occurrence(name@, 35, name@.len() - 1);
    }
    let buffers = name.split_last_occurence(35u8);
    let number_buffer = &buffers.1;
    assert(number_buffer@.len() <= 512);
    number_buffer.ascii_to_u64()
}

} // verus!

verus! {

/// Law: `hex_to_u64` reads back the number that `to_hex` writes, and the
/// reading stays within `u64` (so its precondition holds on that text).
pub proof fn law_hex_to_u64_reads_to_hex(n: u64)
    ensures
        hex_text(n as nat).len() <= 512,
        read_fits(before_zero(pad(hex_text(n as nat), 512)), 16, 0),
        read_digits(before_zero(pad(hex_text(n as nat), 512)), 16, 0) == Some(n as int),
{
    let t = hex_text(n as nat);
    if n == 0 {
        assert(t =~= seq![48u8, 48u8]);
        crate::utils::digit_spec::lemma_read_padded(t, 16);
        let t1 = t.drop_first();
        let t2 = t1.drop_first();
        assert(t1 =~= seq![48u8]);
        assert(t2 =~= Seq::<u8>::empty());
        assert(hex_digit(48u8) == Some(0int));
        assert(read_digits(t2, 16, 0) == Some(0int));
        assert(read_digits(t1, 16, 0) == read_digits(t2, 16, 0));
        assert(read_digits(t, 16, 0) == read_digits(t1, 16, 0));
        assert(read_fits(t2, 16, 0));
        assert(read_fits(t1, 16, 0));
        assert(read_fits(t, 16, 0));
    } else {
        let d = digits(n as nat, 16);
        crate::utils::digit_spec::lemma_read_digits_of(n as nat, 16);
        vstd::arithmetic::power2::lemma2_to64();
        crate::utils::digit_spec::lemma_digits_len(n as nat, 16, 64);
        if d.len() % 2 != 0 {
            assert(t =~= seq![48u8] + d);
            assert(t.drop_first() =~= d);
            assert forall|i: int| 0 <= i < t.len() implies #[trigger] t[i] != 0 by {
                if i > 0 {
                    assert(t[i] == d[i - 1]);
                }
            }
            assert(t[0] == 48u8);
            assert(hex_digit(48u8) == Some(0int));
            assert(read_digits(t, 16, 0) == read_digits(d, 16, 0));
            assert(read_fits(t, 16, 0));
        } else {
            assert(t == d);
        }
        crate::utils::digit_spec::lemma_read_padded(t, 16);
    }
}

/// Law: `ascii_to_u64` reads back the number that `to_ascii` writes.
pub proof fn law_ascii_to_u64_reads_to_ascii(n: u64)
    ensures
        ascii_text(n as nat).len() <= 512,
        read_fits(before_zero(pad(ascii_text(n as nat), 512)), 10, 0),
        read_digits(before_zero(pad(ascii_text(n as nat), 512)), 10, 0) == Some(n as int),
{
    let t = ascii_text(n as nat);
    if n == 0 {
        assert(t =~= seq![48u8]);
        crate::utils::digit_spec::lemma_read_padded(t, 10);
        let t1 = t.drop_first();
        assert(t1 =~= Seq::<u8>::empty());
        assert(hex_digit(48u8) == Some(0int));
        assert(read_digits(t1, 10, 0) == Some(0int));
        assert(read_digits(t, 10, 0) == read_digits(t1, 10, 0));
        assert(read_fits(t1, 10, 0));
        assert(read_fits(t, 10, 0));
    } else {
        assert(t == digits(n as nat, 10));
        crate::utils::digit_spec::lemma_read_digits_of(n as nat, 10);
        vstd::arithmetic::power2::lemma2_to64();
        crate::utils::digit_spec::lemma_digits_len(n as nat, 10, 64);
        crate::utils::digit_spec::lemma_read_padded(t, 10);
    }
}

} // verus!
