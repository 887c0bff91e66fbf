use vstd::prelude::*;

verus! {

/// The number written by big-endian bytes, as amounts travel.
pub open spec fn be_value(s: Seq<u8>) -> nat
    decreases s.len(),
{
    if s.len() == 0 {
        0
    } else {
        be_value(s.drop_last()) * 256 + s.last() as nat
    }
}

/// The number, or `u128::MAX` when it is larger.
pub open spec fn saturated(n: nat) -> u128 {
    if n > u128::MAX {
        u128::MAX
    } else {
        n as u128
    }
}

proof fn lemma_be_value_grows(v: nat, b: u8)
    ensures
        v * 256 + b >= v,
{
    assert(v * 256 + b >= v) by (nonlinear_arith);
}

/// The value of big-endian bytes, saturated at `u128::MAX`; every test the
/// contract makes on an amount (equal to a small number, at most a small
/// number, above zero) gives the same answer on the saturated value.
pub fn be_to_u128_saturating(bytes: &Vec<u8>) -> (r: u128)
    ensures
        r == saturated(be_value(bytes@)),
{
    let mut acc: u128 = 0;
    let mut i: usize = 0;
    assert(bytes@.take(0) =~= Seq::<u8>::empty());
    while i < bytes.len()
        invariant
            i <= bytes.len(),
            acc == saturated(be_value(bytes@.take(i as int))),
        decreases bytes.len() - i,
    {
        let b = bytes[i];
        let ghost prev = be_value(bytes@.take(i as int));
        assert(bytes@.take(i + 1).drop_last() =~= bytes@.take(i as int));
        assert(bytes@.take(i + 1).last() == b);
        assert(be_value(bytes@.take(i + 1)) == prev * 256 + b);
        proof {
            lemma_be_value_grows(prev, b);
        }
        if acc == u128::MAX {
            assert(prev >= u128::MAX);
        } else if acc > (u128::MAX - b as u128) / 256 {
            assert(prev == acc);
            assert(acc * 256 + b > u128::MAX) by (nonlinear_arith)
                requires
                    acc > (u128::MAX - b as u128) / 256,
                    acc < u128::MAX,
            ;
            acc = u128::MAX;
        } else {
            assert(prev == acc);
            assert(acc * 256 + b <= u128::MAX) by (nonlinear_arith)
                requires
                    acc <= (u128::MAX - b as u128) / 256,
            ;
            acc = acc * 256 + b as u128;
        }
        i += 1;
    }
    assert(bytes@.take(bytes.len() as int) =~= bytes@);
    acc
}

} // verus!
