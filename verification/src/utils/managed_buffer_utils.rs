use vstd::prelude::*;
use core::cmp::Ordering;
use crate::utils::byte_spec::{
    key_order, lemma_lex_order_step, lemma_split_all_nonempty, lex_order, lower, lowercase, pad,
    split_all, split_capped, views,
};

verus! {

/// The largest buffer the fixed-size scratch array holds.
pub const MAX_BUFFER_LEN: usize = 512;

/// ASCII lower-casing of one byte.
pub fn ascii_lower(b: u8) -> (r: u8)
    ensures
        r == lower(b),
{
    if 65 <= b && b <= 90 {
        b + 32
    } else {
        b
    }
}

/// Byte `i` of the buffer as it stands in a zero-filled `cap`-byte array.
pub fn padded_at(s: &Vec<u8>, i: usize, cap: usize) -> (r: u8)
    requires
        s.len() <= cap,
        i < cap,
    ensures
        r == pad(s@, cap as nat)[i as int],
{
    if i < s.len() {
        s[i]
    } else {
        0
    }
}

/// Byte-wise equality of two buffers.
pub fn bytes_eq(a: &Vec<u8>, b: &Vec<u8>) -> (r: bool)
    ensures
        r == (a@ == b@),
{
    if a.len() != b.len() {
        return false;
    }
    let mut i: usize = 0;
    while i < a.len()
        invariant
            a.len() == b.len(),
            i <= a.len(),
            forall|j: int| 0 <= j < i ==> a@[j] == b@[j],
        decreases a.len() - i,
    {
        if a[i] != b[i] {
            return false;
        }
        i += 1;
    }
    assert(a@ =~= b@);
    true
}

/// The segments of `v` between occurrences of `char`, as a scan of a
/// zero-filled `cap`-byte array finds them: a segment ends at each `char`
/// and at the first position past the data, which the scan never reaches
/// when the data fills the whole array.
pub fn split_through(v: &Vec<u8>, char: u8, cap: usize) -> (r: Vec<Vec<u8>>)
    requires
        v.len() <= cap,
    ensures
        views(r@) == (if v@.len() < cap { split_all(v@, char) } else { split_all(v@, char).drop_last() }),
{
    let mut out: Vec<Vec<u8>> = Vec::new();
    let mut cur: Vec<u8> = Vec::new();
    let mut i: usize = 0;
    assert(v@.take(0) =~= Seq::<u8>::empty());
    assert(views(out@).push(cur@) =~= split_all(v@.take(0), char));
    while i < v.len()
        invariant
            i <= v.len(),
            views(out@).push(cur@) == split_all(v@.take(i as int), char),
        decreases v.len() - i,
    {
        let b = v[i];
        let ghost prev = v@.take(i as int);
        assert(v@.take(i + 1).drop_last() =~= prev);
        assert(v@.take(i + 1).last() == b);
        proof { lemma_split_all_nonempty(prev, char); }
        if b == char {
            out.push(cur);
            cur = Vec::new();
            assert(views(out@).push(cur@) =~= split_all(v@.take(i + 1), char));
        } else {
            cur.push(b);
            assert(views(out@).push(cur@) =~= split_all(v@.take(i + 1), char));
        }
        i += 1;
    }
    assert(v@.take(v.len() as int) =~= v@);
    if v.len() < cap {
        out.push(cur);
        assert(views(out@) =~= split_all(v@, char));
    } else {
        assert(views(out@) =~= split_all(v@, char).drop_last());
    }
    out
}

/// The buffer as it stands in a zero-filled `cap`-byte array.
pub fn load_padded(v: &Vec<u8>, cap: usize) -> (r: Vec<u8>)
    requires
        v.len() <= cap,
    ensures
        r@ == pad(v@, cap as nat),
{
    let mut out: Vec<u8> = Vec::new();
    let mut i: usize = 0;
    while i < cap
        invariant
            v.len() <= cap,
            i <= cap,
            out@ =~= pad(v@, cap as nat).take(i as int),
        decreases cap - i,
    {
        let b = padded_at(v, i, cap);
        out.push(b);
        i += 1;
    }
    out
}

/// Lexicographic order of two buffers padded with zeros to 512 bytes:
/// -1, 0 or 1.
pub fn compare_padded(a: &Vec<u8>, b: &Vec<u8>) -> (r: i8)
    requires
        a.len() <= 512,
        b.len() <= 512,
    ensures
        r == key_order(a@, b@),
{
    let ghost pa = pad(a@, 512);
    let ghost pb = pad(b@, 512);
    assert(pa.skip(0) =~= pa);
    assert(pb.skip(0) =~= pb);
    let mut i: usize = 0;
    while i < MAX_BUFFER_LEN
        invariant
            a.len() <= 512,
            b.len() <= 512,
            i <= 512,
            pa == pad(a@, 512),
            pb == pad(b@, 512),
            lex_order(pa, pb) == lex_order(pa.skip(i as int), pb.skip(i as int)),
        decreases 512 - i,
    {
        let x = padded_at(a, i, MAX_BUFFER_LEN);
        let y = padded_at(b, i, MAX_BUFFER_LEN);
        proof {
            lemma_lex_order_step(pa, pb, i as int);
        }
        if x < y {
            return -1;
        }
        if x > y {
            return 1;
        }
        i += 1;
    }
    assert(pa.skip(512) =~= Seq::<u8>::empty());
    0
}

/// Buffer operations on byte buffers of at most 512 bytes, the size of the
/// scratch array each of them loads the buffer into.
pub trait ManagedBufferUtils: Sized + View<V = Seq<u8>> {
    fn load_512_bytes(&self) -> Vec<u8>
        requires
            self@.len() <= 512,
    ;

    fn split(&self, char: u8) -> Vec<Vec<u8>>
        requires
            self@.len() <= 512,
    ;

    fn contains_char(&self, to_find: u8) -> bool
        requires
            self@.len() <= 512,
    ;

    fn to_lowercase(&self) -> Vec<u8>
        requires
            self@.len() <= 512,
    ;

    fn is_lowercase(&self) -> bool
        requires
            self@.len() <= 512,
    ;

    fn get_last_char(&self) -> u8
        requires
            1 <= self@.len() <= 512,
    ;

    /// Lexicographic order of the two buffers, each padded with zeros to 512 bytes.
    fn compare(&self, other: &Self) -> Ordering
        requires
            self@.len() <= 512,
            other@.len() <= 512,
    ;
}

impl ManagedBufferUtils for Vec<u8> {
    /// The buffer copied into a zero-filled 512-byte array.
    fn load_512_bytes(&self) -> (r: Vec<u8>)
        ensures
            r@ == pad(self@, 512),
    {
        let mut out: Vec<u8> = Vec::new();
        let mut i: usize = 0;
        while i < MAX_BUFFER_LEN
            invariant
                self.len() <= 512,
                i <= 512,
                out@ =~= pad(self@, 512).take(i as int),
            decreases 512 - i,
        {
            let b = padded_at(self, i, MAX_BUFFER_LEN);
            out.push(b);
            i += 1;
        }
        out
    }

    /// The segments between occurrences of `char`: none for an empty buffer,
    /// and for a buffer of exactly 512 bytes the last segment is not produced.
    fn split(&self, char: u8) -> (r: Vec<Vec<u8>>)
        ensures
            views(r@) == split_capped(self@, char, 512),
    {
        if self.len() == 0 {
            let out: Vec<Vec<u8>> = Vec::new();
            assert(views(out@) =~= split_capped(self@, char, 512));
            return out;
        }
        split_through(self, char, MAX_BUFFER_LEN)
    }

    fn contains_char(&self, to_find: u8) -> (r: bool)
        ensures
            r == self@.contains(to_find),
    {
        let mut i: usize = 0;
        while i < self.len()
            invariant
                i <= self.len(),
                forall|j: int| 0 <= j < i ==> self@[j] != to_find,
            decreases self.len() - i,
        {
            if self[i] == to_find {
                return true;
            }
            i += 1;
        }
        false
    }

    fn to_lowercase(&self) -> (r: Vec<u8>)
        ensures
            r@ == lowercase(self@),
    {
        let mut o: Vec<u8> = Vec::new();
        let mut i: usize = 0;
        while i < self.len()
            invariant
                i <= self.len(),
                o@ =~= lowercase(self@).take(i as int),
            decreases self.len() - i,
        {
            o.push(ascii_lower(self[i]));
            i += 1;
        }
        o
    }

    fn is_lowercase(&self) -> (r: bool)
        ensures
            r == (self@ == lowercase(self@)),
    {
        let l = self.to_lowercase();
        bytes_eq(self, &l)
    }

    fn get_last_char(&self) -> (r: u8)
        ensures
            r == self@.last(),
    {
        self[self.len() - 1]
    }

    fn compare(&self, other: &Self) -> (r: Ordering)
        ensures
            (r == Ordering::Less) == (key_order(self@, other@) < 0),
            (r == Ordering::Equal) == (key_order(self@, other@) == 0),
            (r == Ordering::Greater) == (key_order(self@, other@) > 0),
    {
        let c = compare_padded(self, other);
        if c < 0 {
            Ordering::Less
        } else if c > 0 {
            Ordering::Greater
        } else {
            Ordering::Equal
        }
    }
}

} // verus!
