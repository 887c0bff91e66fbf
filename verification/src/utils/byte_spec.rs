use vstd::prelude::*;

verus! {

/// The bytes of `s` followed by zeros up to `cap` bytes: what a fixed-size
/// array holds after a buffer of at most `cap` bytes is loaded into it.
pub open spec fn pad(s: Seq<u8>, cap: nat) -> Seq<u8> {
    Seq::new(cap, |i: int| if i < s.len() { s[i] } else { 0u8 })
}

/// ASCII lower-casing of one byte.
pub open spec fn lower(b: u8) -> u8 {
    if 65 <= b <= 90 {
        (b + 32) as u8
    } else {
        b
    }
}

/// ASCII upper-casing of one byte.
pub open spec fn upper(b: u8) -> u8 {
    if 97 <= b <= 122 {
        (b - 32) as u8
    } else {
        b
    }
}

/// ASCII lower-casing of every byte.
pub open spec fn lowercase(s: Seq<u8>) -> Seq<u8> {
    Seq::new(s.len(), |i: int| lower(s[i]))
}

/// The plain views of a sequence of byte vectors.
pub open spec fn views(v: Seq<Vec<u8>>) -> Seq<Seq<u8>> {
    Seq::new(v.len(), |i: int| v[i]@)
}

/// The view of an optional byte vector.
pub open spec fn opt_view(o: Option<Vec<u8>>) -> Option<Seq<u8>> {
    match o {
        Some(v) => Some(v@),
        None => None,
    }
}

/// The segments of `s` between the occurrences of `c`: one more segment
/// than there are occurrences of `c`.
pub open spec fn split_all(s: Seq<u8>, c: u8) -> Seq<Seq<u8>>
    decreases s.len(),
{
    if s.len() == 0 {
        seq![Seq::<u8>::empty()]
    } else {
        let prev = split_all(s.drop_last(), c);
        if s.last() == c {
            prev.push(Seq::<u8>::empty())
        } else {
            prev.update(prev.len() - 1, prev.last().push(s.last()))
        }
    }
}

/// What splitting a buffer through a `cap`-byte array yields: nothing for an
/// empty buffer; every segment when the buffer is shorter than the array;
/// every segment but the last one when the buffer fills the whole array
/// (the scan never reaches a position past the end of the data).
pub open spec fn split_capped(s: Seq<u8>, c: u8, cap: nat) -> Seq<Seq<u8>> {
    if s.len() == 0 {
        Seq::empty()
    } else if s.len() < cap {
        split_all(s, c)
    } else {
        split_all(s, c).drop_last()
    }
}

/// The segments of `parts` joined with the separator `c`.
pub open spec fn join(parts: Seq<Seq<u8>>, c: u8) -> Seq<u8>
    decreases parts.len(),
{
    if parts.len() == 0 {
        Seq::empty()
    } else if parts.len() == 1 {
        parts[0]
    } else {
        join(parts.drop_last(), c).push(c) + parts.last()
    }
}

/// Lexicographic comparison of two byte strings of equal length:
/// negative, zero or positive.
pub open spec fn lex_order(a: Seq<u8>, b: Seq<u8>) -> int
    decreases a.len(),
{
    if a.len() == 0 || b.len() == 0 {
        0
    } else if a[0] < b[0] {
        -1
    } else if a[0] > b[0] {
        1
    } else {
        lex_order(a.drop_first(), b.drop_first())
    }
}

/// The order in which buffers are sorted: their 512-byte zero-padded images
/// compared lexicographically.
pub open spec fn key_order(a: Seq<u8>, b: Seq<u8>) -> int {
    lex_order(pad(a, 512), pad(b, 512))
}

pub proof fn lemma_lex_order_step(x: Seq<u8>, y: Seq<u8>, i: int)
    requires
        x.len() == y.len(),
        0 <= i < x.len(),
    ensures
        lex_order(x.skip(i), y.skip(i)) == (if x[i] < y[i] {
            -1
        } else if x[i] > y[i] {
            1
        } else {
            lex_order(x.skip(i + 1), y.skip(i + 1))
        }),
{
    assert(x.skip(i).drop_first() =~= x.skip(i + 1));
    assert(y.skip(i).drop_first() =~= y.skip(i + 1));
}

pub proof fn lemma_lex_order_antisym(a: Seq<u8>, b: Seq<u8>)
    requires
        a.len() == b.len(),
    ensures
        lex_order(a, b) == -lex_order(b, a),
        -1 <= lex_order(a, b) <= 1,
        lex_order(a, b) == 0 <==> a == b,
    decreases a.len(),
{
    if a.len() == 0 {
        assert(a =~= b);
    } else if a[0] == b[0] {
        lemma_lex_order_antisym(a.drop_first(), b.drop_first());
        if a.drop_first() == b.drop_first() {
            assert(a =~= seq![a[0]] + a.drop_first());
            assert(b =~= seq![b[0]] + b.drop_first());
        }
    }
}

pub proof fn lemma_lex_order_trans(a: Seq<u8>, b: Seq<u8>, c: Seq<u8>)
    requires
        a.len() == b.len(),
        b.len() == c.len(),
        lex_order(a, b) <= 0,
        lex_order(b, c) <= 0,
    ensures
        lex_order(a, c) <= 0,
    decreases a.len(),
{
    if a.len() > 0 && a[0] == b[0] && b[0] == c[0] {
        lemma_lex_order_trans(a.drop_first(), b.drop_first(), c.drop_first());
    }
}

/// The key order is a total preorder.
pub proof fn lemma_key_order_total(a: Seq<u8>, b: Seq<u8>)
    ensures
        key_order(a, b) == -key_order(b, a),
        -1 <= key_order(a, b) <= 1,
{
    lemma_lex_order_antisym(pad(a, 512), pad(b, 512));
}

pub proof fn lemma_key_order_trans(a: Seq<u8>, b: Seq<u8>, c: Seq<u8>)
    requires
        key_order(a, b) <= 0,
        key_order(b, c) <= 0,
    ensures
        key_order(a, c) <= 0,
{
    lemma_lex_order_trans(pad(a, 512), pad(b, 512), pad(c, 512));
}

pub proof fn lemma_split_all_nonempty(s: Seq<u8>, c: u8)
    ensures
        split_all(s, c).len() >= 1,
    decreases s.len(),
{
    if s.len() > 0 {
        lemma_split_all_nonempty(s.drop_last(), c);
    }
}

/// Splitting a join of separator-free segments gives the segments back.
pub proof fn lemma_split_join(parts: Seq<Seq<u8>>, c: u8)
    requires
        parts.len() >= 1,
        forall|i: int| 0 <= i < parts.len() ==> !(#[trigger] parts[i]).contains(c),
    ensures
        split_all(join(parts, c), c) == parts,
    decreases parts.len(),
{
    if parts.len() == 1 {
        lemma_split_segment(parts[0], c);
        assert(split_all(parts[0], c) =~= parts);
    } else {
        let init = parts.drop_last();
        assert forall|i: int| 0 <= i < init.len() implies !(#[trigger] init[i]).contains(c) by {
            assert(init[i] == parts[i]);
        }
        lemma_split_join(init, c);
        lemma_split_append_segment(join(init, c), parts.last(), c);
        assert(split_all(join(init, c), c).push(parts.last()) =~= parts);
    }
}

/// A separator-free buffer is one segment.
pub proof fn lemma_split_segment(s: Seq<u8>, c: u8)
    requires
        !s.contains(c),
    ensures
        split_all(s, c) == seq![s],
    decreases s.len(),
{
    if s.len() == 0 {
        assert(s =~= Seq::<u8>::empty());
        assert(split_all(s, c) =~= seq![s]);
    } else {
        assert(!s.drop_last().contains(c)) by {
            if s.drop_last().contains(c) {
                let k = choose|k: int| 0 <= k < s.drop_last().len() && s.drop_last()[k] == c;
                assert(s[k] == c);
            }
        }
        lemma_split_segment(s.drop_last(), c);
        assert(s.last() != c) by {
            assert(s[s.len() - 1] == s.last());
        }
        assert(s.drop_last().push(s.last()) =~= s);
        assert(split_all(s, c) =~= seq![s]);
    }
}

/// Appending a separator and a separator-free segment appends one segment.
pub proof fn lemma_split_append_segment(s: Seq<u8>, t: Seq<u8>, c: u8)
    requires
        !t.contains(c),
    ensures
        split_all(s.push(c) + t, c) == split_all(s, c).push(t),
    decreases t.len(),
{
    if t.len() == 0 {
        assert(s.push(c) + t =~= s.push(c));
        assert((s.push(c)).drop_last() =~= s);
        assert(t =~= Seq::<u8>::empty());
        assert(split_all(s.push(c), c) == split_all(s, c).push(Seq::<u8>::empty()));
    } else {
        let t0 = t.drop_last();
        assert(!t0.contains(c)) by {
            if t0.contains(c) {
                let k = choose|k: int| 0 <= k < t0.len() && t0[k] == c;
                assert(t[k] == c);
            }
        }
        lemma_split_append_segment(s, t0, c);
        let u = s.push(c) + t;
        assert(u.drop_last() =~= s.push(c) + t0);
        assert(u.last() == t.last());
        assert(t.last() != c) by {
            assert(t[t.len() - 1] == t.last());
        }
        lemma_split_all_nonempty(s, c);
        assert(t0.push(t.last()) =~= t);
        assert(split_all(u, c) =~= split_all(s, c).push(t));
    }
}

} // verus!

verus! {

/// The first position `j >= from` at which `f` stops matching `p` read from
/// `i` (running past the end of `p` counts as a mismatch); `f.len()` when
/// the rest of `f` matches.
pub open spec fn mismatch_at(p: Seq<u8>, f: Seq<u8>, i: int, from: int) -> int
    decreases f.len() - from,
{
    if from >= f.len() {
        f.len() as int
    } else if i + from >= p.len() || p[i + from] != f[from] {
        from
    } else {
        mismatch_at(p, f, i, from + 1)
    }
}

/// What the naive search sees at position `i` of the array `p`: a match,
/// no match, or `None` when it would read `f[0]` of an empty `f` or run past
/// the end of the array.
pub open spec fn probe(p: Seq<u8>, f: Seq<u8>, i: int) -> Option<bool> {
    if f.len() == 0 {
        None
    } else if p[i] != f[0] {
        Some(false)
    } else {
        let j = mismatch_at(p, f, i, 0);
        if j == f.len() {
            Some(true)
        } else if i + j >= p.len() {
            None
        } else {
            Some(false)
        }
    }
}

/// The naive search of `f` over the positions `i..n` of the array `p`.
pub open spec fn contains_scan(p: Seq<u8>, n: int, f: Seq<u8>, i: int) -> Option<bool>
    decreases n - i,
{
    if i >= n {
        Some(false)
    } else {
        match probe(p, f, i) {
            None => None,
            Some(true) => Some(true),
            Some(false) => contains_scan(p, n, f, i + 1),
        }
    }
}

/// The position after a match of length `len` at `i`, no further than `n`.
pub open spec fn skip_to(i: int, len: int, n: int) -> int {
    if i + len > n {
        n
    } else {
        i + len
    }
}

/// The naive replacement of `old` by `new` over the positions `i..n` of the
/// array `p`: a match is replaced and skipped, any other byte is copied.
pub open spec fn replace_scan(p: Seq<u8>, n: int, old: Seq<u8>, new: Seq<u8>, i: int) -> Option<Seq<u8>>
    decreases n - i,
{
    if i >= n {
        Some(Seq::empty())
    } else if old.len() == 0 {
        None
    } else {
        match probe(p, old, i) {
            None => None,
            Some(true) => match replace_scan(p, n, old, new, skip_to(i, old.len() as int, n)) {
                Some(r) => Some(new + r),
                None => None,
            },
            Some(false) => match replace_scan(p, n, old, new, i + 1) {
                Some(r) => Some(seq![p[i]] + r),
                None => None,
            },
        }
    }
}

/// Searching for a single byte finds whether the buffer holds it.
pub proof fn lemma_contains_scan_byte(s: Seq<u8>, c: u8, i: int)
    requires
        s.len() <= 512,
        0 <= i <= s.len(),
    ensures
        contains_scan(pad(s, 512), s.len() as int, seq![c], i) == Some(s.skip(i).contains(c)),
    decreases s.len() - i,
{
    let p = pad(s, 512);
    let f = seq![c];
    if i >= s.len() {
        assert(s.skip(i) =~= Seq::<u8>::empty());
    } else {
        assert(mismatch_at(p, f, i, 1) == 1);
        lemma_contains_scan_byte(s, c, i + 1);
        if s[i] == c {
            assert(s.skip(i)[0] == c);
        } else {
            assert(s.skip(i + 1) =~= s.skip(i).drop_first());
            let a = s.skip(i);
            let b = s.skip(i + 1);
            assert(a.contains(c) == b.contains(c)) by {
                if a.contains(c) {
                    let k = choose|k: int| 0 <= k < a.len() && a[k] == c;
                    assert(k != 0);
                    assert(b[k - 1] == c);
                }
                if b.contains(c) {
                    let k = choose|k: int| 0 <= k < b.len() && b[k] == c;
                    assert(a[k + 1] == c);
                }
            }
        }
    }
}

} // verus!

verus! {

/// The last position before `n` that holds `c`, or -1.
pub open spec fn last_occurrence(s: Seq<u8>, c: u8, n: int) -> int
    decreases n,
{
    if n <= 0 {
        -1
    } else if s[n - 1] == c {
        n - 1
    } else {
        last_occurrence(s, c, n - 1)
    }
}

/// The first byte upper-cased, the rest unchanged.
pub open spec fn capitalized(s: Seq<u8>) -> Seq<u8> {
    seq![upper(s[0])] + s.skip(1)
}

} // verus!

verus! {

pub proof fn lemma_mismatch_at_bounds(p: Seq<u8>, f: Seq<u8>, i: int, from: int)
    requires
        0 <= from <= f.len(),
    ensures
        from <= mismatch_at(p, f, i, from) <= f.len(),
    decreases f.len() - from,
{
    if from < f.len() && !(i + from >= p.len() || p[i + from] != f[from]) {
        lemma_mismatch_at_bounds(p, f, i, from + 1);
    }
}

} // verus!

verus! {

pub proof fn lemma_last_occurrence(s: Seq<u8>, c: u8, n: int)
    requires
        n <= s.len(),
    ensures
        -1 <= last_occurrence(s, c, n) < (if n > 0 { n } else { 0 }),
        last_occurrence(s, c, n) >= 0 ==> s[last_occurrence(s, c, n)] == c,
    decreases n,
{
    if n > 0 && s[n - 1] != c {
        lemma_last_occurrence(s, c, n - 1);
    }
}

} // verus!

verus! {

/// Whether `f` occurs in `s` from position `i`.
pub open spec fn occurs_at(s: Seq<u8>, f: Seq<u8>, i: int) -> bool {
    0 <= i && i + f.len() <= s.len() && s.subrange(i, i + f.len()) == f
}

/// Whether `f` occurs somewhere in `s`.
pub open spec fn occurs_in(s: Seq<u8>, f: Seq<u8>) -> bool {
    exists|i: int| #[trigger] occurs_at(s, f, i)
}

/// `s` with every occurrence of `old`, found from left to right and not
/// overlapping the one before, replaced by `new`.
pub open spec fn replace_all(s: Seq<u8>, old: Seq<u8>, new: Seq<u8>) -> Seq<u8>
    decreases s.len(),
{
    if s.len() == 0 || old.len() == 0 {
        s
    } else if occurs_at(s, old, 0) {
        new + replace_all(s.skip(old.len() as int), old, new)
    } else {
        seq![s[0]] + replace_all(s.drop_first(), old, new)
    }
}

/// Where the searched text has no zero byte and cannot run off the array,
/// the scan reads only the buffer: the tail of `f` from `from` matches
/// exactly when its bytes are those of the array.
proof fn lemma_mismatch_all(p: Seq<u8>, f: Seq<u8>, i: int, from: int)
    requires
        0 <= i,
        0 <= from <= f.len(),
        i + f.len() <= p.len(),
    ensures
        (mismatch_at(p, f, i, from) == f.len()) <==> (forall|j: int| from <= j < f.len() ==> p[i + j] == f[j]),
        mismatch_at(p, f, i, from) < f.len() ==> i + mismatch_at(p, f, i, from) < p.len(),
    decreases f.len() - from,
{
    if from < f.len() {
        lemma_mismatch_all(p, f, i, from + 1);
    }
}

/// The scan's look at one position of the padded buffer is whether `f`
/// occurs there.
proof fn lemma_probe_occurs(s: Seq<u8>, f: Seq<u8>, i: int)
    requires
        f.len() > 0,
        !f.contains(0u8),
        s.len() + f.len() <= 512,
        0 <= i < s.len(),
    ensures
        probe(pad(s, 512), f, i) == Some(occurs_at(s, f, i)),
{
    let p = pad(s, 512);
    lemma_mismatch_all(p, f, i, 0);
    let m = mismatch_at(p, f, i, 0);
    lemma_mismatch_at_bounds(p, f, i, 0);
    assert(p[i] == s[i]);
    if m == f.len() {
        assert(forall|j: int| 0 <= j < f.len() ==> p[i + j] == f[j]);
        assert(p[i + 0] == f[0]);
        assert(probe(p, f, i) == Some(true));
        if i + f.len() > s.len() {
            let j = s.len() - i;
            assert(p[i + j] == f[j]);
            assert(p[i + j] == 0u8);
            assert(f.contains(f[j]));
        }
        assert(s.subrange(i, i + f.len()) =~= f) by {
            assert forall|j: int| 0 <= j < f.len() implies s.subrange(i, i + f.len())[j] == f[j] by {
                assert(p[i + j] == f[j]);
            }
        }
        assert(occurs_at(s, f, i));
    } else {
        let j = choose|j: int| 0 <= j < f.len() && p[i + j] != f[j];
        if occurs_at(s, f, i) {
            assert(s.subrange(i, i + f.len())[j] == f[j]);
            assert(p[i + j] == s[i + j]);
        }
        assert(!occurs_at(s, f, i));
        assert(i + m < p.len());
        assert(probe(p, f, i) == Some(false));
    }
}

/// The scan of the padded buffer finds `f` from `i` on exactly when it
/// occurs there.
pub proof fn lemma_contains_scan_occurs(s: Seq<u8>, f: Seq<u8>, i: int)
    requires
        f.len() > 0,
        !f.contains(0u8),
        s.len() + f.len() <= 512,
        0 <= i <= s.len(),
    ensures
        contains_scan(pad(s, 512), s.len() as int, f, i) == Some(exists|k: int| i <= k && #[trigger] occurs_at(s, f, k)),
    decreases s.len() - i,
{
    if i < s.len() {
        lemma_probe_occurs(s, f, i);
        lemma_contains_scan_occurs(s, f, i + 1);
        if exists|k: int| i <= k && #[trigger] occurs_at(s, f, k) {
            let k = choose|k: int| i <= k && #[trigger] occurs_at(s, f, k);
            if k > i {
                assert(occurs_at(s, f, k));
            }
        }
    } else {
        if exists|k: int| i <= k && #[trigger] occurs_at(s, f, k) {
            let k = choose|k: int| i <= k && #[trigger] occurs_at(s, f, k);
            assert(k + f.len() <= s.len());
        }
    }
}

/// The replacement scan of the padded buffer from `i` is the replacement of
/// every occurrence in the rest of the buffer.
pub proof fn lemma_replace_scan_all(s: Seq<u8>, old: Seq<u8>, new: Seq<u8>, i: int)
    requires
        old.len() > 0,
        !old.contains(0u8),
        s.len() + old.len() <= 512,
        0 <= i <= s.len(),
    ensures
        replace_scan(pad(s, 512), s.len() as int, old, new, i) == Some(replace_all(s.skip(i), old, new)),
    decreases s.len() - i,
{
    let t = s.skip(i);
    if i < s.len() {
        lemma_probe_occurs(s, old, i);
        assert(occurs_at(t, old, 0) == occurs_at(s, old, i)) by {
            if occurs_at(s, old, i) {
                assert(t.subrange(0, old.len() as int) =~= s.subrange(i, i + old.len()));
            }
            if occurs_at(t, old, 0) {
                assert(t.subrange(0, old.len() as int) =~= s.subrange(i, i + old.len()));
            }
        }
        if occurs_at(s, old, i) {
            assert(skip_to(i, old.len() as int, s.len() as int) == i + old.len());
            lemma_replace_scan_all(s, old, new, i + old.len());
            assert(t.skip(old.len() as int) =~= s.skip(i + old.len()));
        } else {
            lemma_replace_scan_all(s, old, new, i + 1);
            assert(t.drop_first() =~= s.skip(i + 1));
            assert(pad(s, 512)[i] == t[0]);
        }
    } else {
        assert(t =~= Seq::<u8>::empty());
    }
}

} // verus!
