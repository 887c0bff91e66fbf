use vstd::prelude::*;

verus! {

/// The value of a byte read as a base-16 digit (`0-9`, `a-f`, `A-F`).
pub open spec fn hex_digit(b: u8) -> Option<int> {
    if 48 <= b <= 57 {
        Some(b - 48)
    } else if 97 <= b <= 102 {
        Some(b - 87)
    } else if 65 <= b <= 70 {
        Some(b - 55)
    } else {
        None
    }
}

/// The lower-case character of a base-16 digit.
pub open spec fn hex_char(d: int) -> u8 {
    if d < 10 {
        (48 + d) as u8
    } else {
        (87 + d) as u8
    }
}

/// The base-`radix` digits of `n`, most significant first; none for zero.
pub open spec fn digits(n: nat, radix: nat) -> Seq<u8>
    decreases n,
{
    if n == 0 || radix < 2 {
        Seq::empty()
    } else {
        proof {
            assert(n / radix < n) by (nonlinear_arith)
                requires
                    n > 0,
                    radix >= 2,
            ;
        }
        digits(n / radix, radix).push(hex_char((n % radix) as int))
    }
}

/// Decimal text of `n`: its digits, or `0` for zero.
pub open spec fn ascii_text(n: nat) -> Seq<u8> {
    if n == 0 {
        seq![48u8]
    } else {
        digits(n, 10)
    }
}

/// Hexadecimal text of `n`: an even number of lower-case digits (a leading
/// `0` when needed), or `00` for zero.
pub open spec fn hex_text(n: nat) -> Seq<u8> {
    if n == 0 {
        seq![48u8, 48u8]
    } else if digits(n, 16).len() % 2 != 0 {
        seq![48u8] + digits(n, 16)
    } else {
        digits(n, 16)
    }
}

/// Left-to-right reading of `s` as digits: each step multiplies by `mul`
/// and adds the digit's base-16 value; `None` at the first non-digit.
pub open spec fn read_digits(s: Seq<u8>, mul: int, acc: int) -> Option<int>
    decreases s.len(),
{
    if s.len() == 0 {
        Some(acc)
    } else {
        match hex_digit(s[0]) {
            None => None,
            Some(d) => read_digits(s.drop_first(), mul, acc * mul + d),
        }
    }
}

/// Whether reading `s` keeps every intermediate value (including the
/// multiplication done before a non-digit is seen) within `u64`.
pub open spec fn read_fits(s: Seq<u8>, mul: int, acc: int) -> bool
    decreases s.len(),
{
    if s.len() == 0 {
        true
    } else {
        &&& acc * mul <= u64::MAX
        &&& match hex_digit(s[0]) {
            None => true,
            Some(d) => acc * mul + d <= u64::MAX && read_fits(s.drop_first(), mul, acc * mul + d),
        }
    }
}

/// The bytes before the first zero byte.
pub open spec fn before_zero(p: Seq<u8>) -> Seq<u8>
    decreases p.len(),
{
    if p.len() == 0 || p[0] == 0 {
        Seq::empty()
    } else {
        seq![p[0]] + before_zero(p.drop_first())
    }
}

pub proof fn lemma_before_zero_of_nonzero(s: Seq<u8>, t: Seq<u8>)
    requires
        forall|i: int| 0 <= i < s.len() ==> s[i] != 0,
        t.len() == 0 || t[0] == 0,
    ensures
        before_zero(s + t) == s,
    decreases s.len(),
{
    if s.len() == 0 {
        assert(s + t =~= t);
        assert(s =~= Seq::<u8>::empty());
    } else {
        assert((s + t).drop_first() =~= s.drop_first() + t);
        lemma_before_zero_of_nonzero(s.drop_first(), t);
        assert(s =~= seq![s[0]] + s.drop_first());
    }
}

/// Reading one more digit at the end multiplies by `mul` and adds it.
pub proof fn lemma_read_digits_push(s: Seq<u8>, c: u8, mul: int, acc: int)
    requires
        read_digits(s, mul, acc) is Some,
        hex_digit(c) is Some,
    ensures
        read_digits(s.push(c), mul, acc) == Some(read_digits(s, mul, acc)->Some_0 * mul + hex_digit(c)->Some_0),
    decreases s.len(),
{
    let dc = hex_digit(c)->Some_0;
    if s.len() == 0 {
        assert(s.push(c).drop_first() =~= Seq::<u8>::empty());
        assert(s.push(c)[0] == c);
        assert(read_digits(Seq::<u8>::empty(), mul, acc * mul + dc) == Some(acc * mul + dc));
        assert(read_digits(s.push(c), mul, acc) == read_digits(s.push(c).drop_first(), mul, acc * mul + dc));
    } else {
        assert(s.push(c).drop_first() =~= s.drop_first().push(c));
        assert(s.push(c)[0] == s[0]);
        let d = hex_digit(s[0])->Some_0;
        lemma_read_digits_push(s.drop_first(), c, mul, acc * mul + d);
        assert(read_digits(s.push(c), mul, acc) == read_digits(s.push(c).drop_first(), mul, acc * mul + d));
        assert(read_digits(s, mul, acc) == read_digits(s.drop_first(), mul, acc * mul + d));
    }
}

pub proof fn lemma_read_fits_push(s: Seq<u8>, c: u8, mul: int, acc: int)
    requires
        read_fits(s, mul, acc),
        read_digits(s, mul, acc) is Some,
        hex_digit(c) is Some,
        read_digits(s, mul, acc)->Some_0 * mul + hex_digit(c)->Some_0 <= u64::MAX,
        read_digits(s, mul, acc)->Some_0 >= 0,
        hex_digit(c)->Some_0 >= 0,
    ensures
        read_fits(s.push(c), mul, acc),
    decreases s.len(),
{
    let dc = hex_digit(c)->Some_0;
    if s.len() == 0 {
        assert(s.push(c).drop_first() =~= Seq::<u8>::empty());
        assert(s.push(c)[0] == c);
        assert(acc * mul <= acc * mul + dc);
        assert(read_fits(Seq::<u8>::empty(), mul, acc * mul + dc));
    } else {
        assert(s.push(c).drop_first() =~= s.drop_first().push(c));
        assert(s.push(c)[0] == s[0]);
        let d = hex_digit(s[0])->Some_0;
        assert(read_digits(s, mul, acc) == read_digits(s.drop_first(), mul, acc * mul + d));
        lemma_read_fits_push(s.drop_first(), c, mul, acc * mul + d);
    }
}

pub proof fn lemma_hex_char_digit(d: int)
    requires
        0 <= d < 16,
    ensures
        hex_digit(hex_char(d)) == Some(d),
        hex_char(d) != 0,
{
}

/// Reading the digits of `n` back gives `n`, with every step within `u64`
/// when `n` is.
pub proof fn lemma_read_digits_of(n: nat, radix: nat)
    requires
        radix == 10 || radix == 16,
        n <= u64::MAX,
    ensures
        read_digits(digits(n, radix), radix as int, 0) == Some(n as int),
        read_fits(digits(n, radix), radix as int, 0),
        forall|i: int| 0 <= i < digits(n, radix).len() ==> #[trigger] digits(n, radix)[i] != 0,
    decreases n,
{
    if n == 0 {
    } else {
        let q = n / radix;
        let r = (n % radix) as int;
        lemma_read_digits_of(q, radix);
        lemma_hex_char_digit(r);
        lemma_read_digits_push(digits(q, radix), hex_char(r), radix as int, 0);
        assert(q * radix + r == n) by (nonlinear_arith)
            requires
                q == n / radix,
                r == n % radix,
                radix > 0,
        ;
        lemma_read_fits_push(digits(q, radix), hex_char(r), radix as int, 0);
        let d = digits(n, radix);
        assert(d == digits(q, radix).push(hex_char(r)));
        assert forall|i: int| 0 <= i < d.len() implies #[trigger] d[i] != 0 by {
            if i < d.len() - 1 {
                assert(d[i] == digits(q, radix)[i]);
            }
        }
    }
}

} // verus!

verus! {

/// A number below 2^k has at most k digits.
pub proof fn lemma_digits_len(n: nat, radix: nat, k: nat)
    requires
        radix >= 2,
        n < vstd::arithmetic::power2::pow2(k),
    ensures
        digits(n, radix).len() <= k,
    decreases k,
{
    if n > 0 {
        if k == 0 {
            assert(vstd::arithmetic::power2::pow2(0) == 1) by {
                vstd::arithmetic::power2::lemma2_to64();
            }
        } else {
            vstd::arithmetic::power2::lemma_pow2_unfold(k);
            let p = vstd::arithmetic::power2::pow2((k - 1) as nat);
            assert(n / radix < p) by (nonlinear_arith)
                requires
                    n < 2 * p,
                    radix >= 2,
            ;
            lemma_digits_len(n / radix, radix, (k - 1) as nat);
        }
    }
}

/// The text read back as digits before the array's first zero byte.
pub proof fn lemma_read_padded(t: Seq<u8>, mul: int)
    requires
        t.len() < 512,
        forall|i: int| 0 <= i < t.len() ==> #[trigger] t[i] != 0,
    ensures
        before_zero(crate::utils::byte_spec::pad(t, 512)) == t,
{
    let p = crate::utils::byte_spec::pad(t, 512);
    let zeros = Seq::new((512 - t.len()) as nat, |i: int| 0u8);
    assert(p =~= t + zeros);
    lemma_before_zero_of_nonzero(t, zeros);
}

} // verus!
