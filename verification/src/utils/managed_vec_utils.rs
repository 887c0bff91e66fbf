use vstd::prelude::*;
use crate::utils::byte_spec::{key_order, lemma_key_order_total, lemma_key_order_trans, views};
use crate::utils::managed_buffer_utils::{bytes_eq, compare_padded};

verus! {

/// Items that can be compared by their views and copied.
pub trait ItemEq: View + Sized {
    fn same_as(&self, other: &Self) -> (r: bool)
        ensures
            r == (self@ == other@),
    ;

    fn copy(&self) -> (r: Self)
        ensures
            r@ == self@,
    ;
}

/// The views of the items of a sequence.
pub open spec fn item_views<T: View>(s: Seq<T>) -> Seq<T::V> {
    Seq::new(s.len(), |i: int| s[i]@)
}

/// Comparison of two vectors as unordered collections.
pub trait EqUtils: Sized {
    /// Whether the two vectors hold the same items, each as many times,
    /// in any order.
    fn eq_unorder(&self, other: &Self) -> bool;
}

impl<T: ItemEq> EqUtils for Vec<T> {
    /// Whether the two vectors hold the same items, each as many times,
    /// in any order.
    fn eq_unorder(&self, other: &Self) -> (r: bool)
        ensures
            r == (item_views(self@).to_multiset() == item_views(other@).to_multiset()),
    {
        broadcast use vstd::seq_lib::group_to_multiset_ensures;

        let ghost a = item_views(self@);
        let ghost b = item_views(other@);
        if self.len() != other.len() {
            proof {
                vstd::seq_lib::to_multiset_len(a);
                vstd::seq_lib::to_multiset_len(b);
            }
            return false;
        }
        let mut other_copy: Vec<T> = Vec::new();
        let mut k: usize = 0;
        while k < other.len()
            invariant
                k <= other.len(),
                b == item_views(other@),
                item_views(other_copy@) =~= b.take(k as int),
            decreases other.len() - k,
        {
            let item = ItemEq::copy(&other[k]);
            let ghost before = other_copy@;
            other_copy.push(item);
            assert(item_views(other_copy@) =~= item_views(before).push(item@));
            assert(b.take(k + 1) =~= b.take(k as int).push(b[k as int]));
            k += 1;
        }
        assert(b.take(other.len() as int) =~= b);
        assert(a.take(0) =~= Seq::<T::V>::empty());
        let mut i: usize = 0;
        while i < self.len()
            invariant
                a == item_views(self@),
                b == item_views(other@),
                a.len() == b.len(),
                i <= self.len(),
                other_copy.len() + i == b.len(),
                forall|x: T::V| #[trigger] item_views(other_copy@).to_multiset().count(x) + a.take(i as int).to_multiset().count(x)
                    == b.to_multiset().count(x),
            decreases self.len() - i,
        {
            let ghost c = item_views(other_copy@);
            let ghost x = a[i as int];
            assert(self[i as int]@ == x);
            let mut j: usize = 0;
            let mut found = false;
            assert(c.len() == other_copy.len());
            while j < other_copy.len()
                invariant_except_break
                    !found,
                invariant
                    j <= other_copy.len(),
                    c == item_views(other_copy@),
                    x == self@[i as int]@,
                    i < self.len(),
                    c.len() == other_copy.len(),
                    forall|m: int| 0 <= m < j ==> c[m] != x,
                ensures
                    found ==> j < other_copy.len() && c[j as int] == x,
                    !found ==> forall|m: int| 0 <= m < c.len() ==> c[m] != x,
                decreases other_copy.len() - j,
            {
                if ItemEq::same_as(&self[i], &other_copy[j]) {
                    assert(other_copy@[j as int]@ == c[j as int]);
                    found = true;
                    break;
                }
                j += 1;
            }
            assert(a.take(i + 1) =~= a.take(i as int).push(x));
            proof { vstd::seq_lib::to_multiset_build(a.take(i as int), x); }
            if !found {
                proof {
                    assert(!c.contains(x));
                    vstd::seq_lib::to_multiset_contains(c, x);
                    assert(c.to_multiset().count(x) == 0);
                    assert(a =~= a.take(i + 1) + a.skip(i + 1));
                    vstd::seq_lib::lemma_multiset_commutative(a.take(i + 1), a.skip(i + 1));
                    assert(a.to_multiset().count(x) >= a.take(i + 1).to_multiset().count(x));
                    assert(a.to_multiset().count(x) != b.to_multiset().count(x));
                }
                return false;
            }
            let ghost removed = other_copy@;
            let _ = other_copy.remove(j);
            assert(item_views(other_copy@) =~= c.remove(j as int));
            proof {
                broadcast use vstd::multiset::group_multiset_axioms;

                vstd::seq_lib::to_multiset_remove(c, j as int);
                assert(c[j as int] == x);
                assert forall|y: T::V| #[trigger] item_views(other_copy@).to_multiset().count(y) + a.take(i + 1).to_multiset().count(y)
                    == b.to_multiset().count(y) by {
                    assert(c.to_multiset().count(y) + a.take(i as int).to_multiset().count(y) == b.to_multiset().count(y));
                    if y == x {
                        assert(c.to_multiset().count(x) > 0) by {
                            vstd::seq_lib::to_multiset_contains(c, x);
                        }
                    }
                }
            }
            i += 1;
        }
        assert(a.take(self.len() as int) =~= a);
        proof {
            vstd::seq_lib::to_multiset_len(item_views(other_copy@));
            assert(item_views(other_copy@).to_multiset() =~= vstd::multiset::Multiset::<T::V>::empty()) by {
                vstd::seq_lib::lemma_seq_empty_equality(item_views(other_copy@));
            }
            assert forall|x: T::V| a.to_multiset().count(x) == b.to_multiset().count(x) by {
                assert(item_views(other_copy@).to_multiset().count(x) + a.take(self.len() as int).to_multiset().count(x)
                    == b.to_multiset().count(x));
            }
            assert(a.to_multiset() =~= b.to_multiset());
        }
        other_copy.len() == 0
    }
}


/// The position a scan of `s[0..n]` keeps as its smallest buffer: a later
/// position replaces it whenever its buffer is smaller or equal.
pub open spec fn last_min_buffer(s: Seq<Seq<u8>>, n: nat) -> int
    decreases n,
{
    if n == 0 {
        0
    } else {
        let k = last_min_buffer(s, (n - 1) as nat);
        if key_order(s[n - 1], s[k]) <= 0 {
            n - 1
        } else {
            k
        }
    }
}

/// The first position among `s[0..n]` that holds `x`, or `n`.
pub open spec fn first_position(s: Seq<Seq<u8>>, x: Seq<u8>, n: nat) -> int
    decreases n,
{
    if n == 0 {
        0
    } else {
        let p = first_position(s, x, (n - 1) as nat);
        if p < n - 1 {
            p
        } else if s[n - 1] == x {
            n - 1
        } else {
            n as int
        }
    }
}

pub proof fn lemma_last_min_buffer(s: Seq<Seq<u8>>, n: nat)
    requires
        0 < n <= s.len(),
    ensures
        0 <= last_min_buffer(s, n) < n,
        forall|j: int| 0 <= j < n ==> key_order(s[last_min_buffer(s, n)], #[trigger] s[j]) <= 0,
    decreases n,
{
    if n == 1 {
        lemma_key_order_total(s[0], s[0]);
    } else {
        let k = last_min_buffer(s, (n - 1) as nat);
        lemma_last_min_buffer(s, (n - 1) as nat);
        if key_order(s[n - 1], s[k]) <= 0 {
            assert forall|j: int| 0 <= j < n implies key_order(s[n - 1], #[trigger] s[j]) <= 0 by {
                if j < n - 1 {
                    lemma_key_order_trans(s[n - 1], s[k], s[j]);
                } else {
                    lemma_key_order_total(s[j], s[j]);
                }
            }
        } else {
            lemma_key_order_total(s[n - 1], s[k]);
        }
    }
}

pub proof fn lemma_first_position(s: Seq<Seq<u8>>, x: Seq<u8>, n: nat)
    requires
        n <= s.len(),
    ensures
        0 <= first_position(s, x, n) <= n,
        first_position(s, x, n) < n ==> s[first_position(s, x, n)] == x,
        forall|j: int| 0 <= j < first_position(s, x, n) ==> s[j] != x,
    decreases n,
{
    if n > 0 {
        lemma_first_position(s, x, (n - 1) as nat);
    }
}

/// Selection sort of buffers: the smallest buffer first (the last of those
/// that compare equal), its first copy taken out, then the rest sorted the
/// same way.
pub open spec fn sort_buffers(s: Seq<Seq<u8>>) -> Seq<Seq<u8>>
    decreases s.len(),
{
    if s.len() == 0 {
        s
    } else {
        let x = s[last_min_buffer(s, s.len())];
        let f = first_position(s, x, s.len());
        proof {
            lemma_last_min_buffer(s, s.len());
            lemma_first_position(s, x, s.len());
        }
        seq![x] + sort_buffers(s.remove(f))
    }
}

/// Sorting permutes the buffers and puts them in order.
pub proof fn lemma_sort_buffers(s: Seq<Seq<u8>>)
    ensures
        sort_buffers(s).to_multiset() == s.to_multiset(),
        sort_buffers(s).len() == s.len(),
        forall|i: int, j: int| 0 <= i < j < s.len() ==> key_order(sort_buffers(s)[i], sort_buffers(s)[j]) <= 0,
    decreases s.len(),
{
    broadcast use vstd::seq_lib::group_to_multiset_ensures;

    if s.len() > 0 {
        let k = last_min_buffer(s, s.len());
        lemma_last_min_buffer(s, s.len());
        let x = s[k];
        let f = first_position(s, x, s.len());
        lemma_first_position(s, x, s.len());
        assert(f <= k);
        assert(s[f] == x);
        let t = s.remove(f);
        lemma_sort_buffers(t);
        let r = sort_buffers(s);
        assert(r == seq![x] + sort_buffers(t));
        vstd::seq_lib::to_multiset_remove(s, f);
        vstd::seq_lib::lemma_multiset_commutative(seq![x], sort_buffers(t));
        assert(seq![x].to_multiset() =~= vstd::multiset::Multiset::<Seq<u8>>::empty().insert(x)) by {
            assert(seq![x] =~= Seq::<Seq<u8>>::empty().push(x));
            vstd::seq_lib::to_multiset_build(Seq::<Seq<u8>>::empty(), x);
        }
        assert(r.to_multiset() =~= s.to_multiset());
        assert forall|i: int, j: int| 0 <= i < j < r.len() implies key_order(r[i], r[j]) <= 0 by {
            if i == 0 {
                assert(r[j] == sort_buffers(t)[j - 1]);
                assert(sort_buffers(t).to_multiset().count(r[j]) > 0);
                assert(t.to_multiset().count(r[j]) > 0);
                assert(t.contains(r[j]));
                let m = choose|m: int| 0 <= m < t.len() && t[m] == r[j];
                if m < f {
                    assert(t[m] == s[m]);
                } else {
                    assert(t[m] == s[m + 1]);
                }
            } else {
                assert(r[i] == sort_buffers(t)[i - 1]);
                assert(r[j] == sort_buffers(t)[j - 1]);
            }
        }
    }
}

/// Sorting of a vector of buffers.
pub trait SortUtils: Sized {
    /// Whether the items can be compared (each fits the scratch buffer).
    spec fn sortable(&self) -> bool;

    fn sort_alphabetically(&self) -> Self
        requires
            self.sortable(),
    ;
}

fn last_min_buffer_position(items: &Vec<Vec<u8>>) -> (r: usize)
    requires
        items.len() > 0,
        forall|j: int| 0 <= j < items.len() ==> (#[trigger] items@[j]).len() <= 512,
    ensures
        r == last_min_buffer(views(items@), items.len() as nat),
{
    let ghost s = views(items@);
    let mut smallest_item_index: usize = 0;
    let mut index: usize = 0;
    while index < items.len()
        invariant
            s == views(items@),
            index <= items.len(),
            items.len() > 0,
            forall|j: int| 0 <= j < items.len() ==> (#[trigger] items@[j]).len() <= 512,
            smallest_item_index == last_min_buffer(s, index as nat),
            index > 0 ==> smallest_item_index < index,
        decreases items.len() - index,
    {
        proof {
            if index > 0 {
                lemma_last_min_buffer(s, index as nat);
            }
        }
        assert(s[index as int] == items@[index as int]@);
        assert(s[smallest_item_index as int] == items@[smallest_item_index as int]@);
        let c = compare_padded(&items[index], &items[smallest_item_index]);
        if c <= 0 {
            smallest_item_index = index;
        }
        index += 1;
    }
    smallest_item_index
}

fn first_buffer_position(items: &Vec<Vec<u8>>, x: &Vec<u8>) -> (r: usize)
    requires
        views(items@).contains(x@),
    ensures
        r == first_position(views(items@), x@, items.len() as nat),
        r < items.len(),
{
    let ghost s = views(items@);
    proof {
        lemma_first_position(s, x@, items.len() as nat);
    }
    let mut i: usize = 0;
    while i < items.len()
        invariant
            s == views(items@),
            i <= items.len(),
            forall|j: int| 0 <= j < i ==> s[j] != x@,
        decreases items.len() - i,
    {
        assert(s[i as int] == items@[i as int]@);
        if bytes_eq(&items[i], x) {
            proof {
                lemma_first_position(s, x@, items.len() as nat);
                let p = first_position(s, x@, items.len() as nat);
                if p < i {
                    assert(s[p] != x@);
                } else if p > i {
                    assert(s[i as int] != x@);
                }
            }
            return i;
        }
        i += 1;
    }
    proof {
        let m = choose|m: int| 0 <= m < s.len() && s[m] == x@;
        assert(s[m] != x@);
    }
    0
}

impl SortUtils for Vec<Vec<u8>> {
    open spec fn sortable(&self) -> bool {
        forall|j: int| 0 <= j < self.len() ==> (#[trigger] self@[j]).len() <= 512
    }

    /// Selection sort: each round takes the smallest remaining buffer (the
    /// last of those that compare equal) and removes its first copy.
    fn sort_alphabetically(&self) -> (r: Self)
        ensures
            views(r@) == sort_buffers(views(self@)),
    {
        let mut remaining_items: Vec<Vec<u8>> = Vec::new();
        let mut i: usize = 0;
        while i < self.len()
            invariant
                i <= self.len(),
                views(remaining_items@) =~= views(self@).take(i as int),
                self.sortable(),
                forall|j: int| 0 <= j < remaining_items.len() ==> (#[trigger] remaining_items@[j]).len() <= 512,
            decreases self.len() - i,
        {
            let item = crate::structs::equippable_attributes::copy_bytes(&self[i]);
            let ghost before = remaining_items@;
            remaining_items.push(item);
            assert(views(remaining_items@) =~= views(before).push(item@));
            assert(views(self@).take(i + 1) =~= views(self@).take(i as int).push(views(self@)[i as int]));
            i += 1;
        }
        assert(views(self@).take(self.len() as int) =~= views(self@));
        let mut output: Vec<Vec<u8>> = Vec::new();
        assert(views(output@) + sort_buffers(views(remaining_items@)) =~= sort_buffers(views(self@)));
        while remaining_items.len() > 0
            invariant
                views(output@) + sort_buffers(views(remaining_items@)) == sort_buffers(views(self@)),
                forall|j: int| 0 <= j < remaining_items.len() ==> (#[trigger] remaining_items@[j]).len() <= 512,
            decreases remaining_items.len(),
        {
            let ghost rem = views(remaining_items@);
            let k = last_min_buffer_position(&remaining_items);
            proof {
                lemma_last_min_buffer(rem, rem.len());
            }
            let smallest_item = crate::structs::equippable_attributes::copy_bytes(&remaining_items[k]);
            assert(rem[k as int] == smallest_item@);
            assert(rem.contains(smallest_item@));
            let f = first_buffer_position(&remaining_items, &smallest_item);
            let _ = remaining_items.remove(f);
            assert(views(remaining_items@) =~= rem.remove(f as int));
            output.push(smallest_item);
            assert(views(output@) + sort_buffers(views(remaining_items@)) =~= sort_buffers(views(self@)));
        }
        assert(sort_buffers(views(remaining_items@)) =~= Seq::<Seq<u8>>::empty());
        assert(views(output@) =~= sort_buffers(views(self@)));
        output
    }
}

/// Law: sorting buffers keeps every buffer, as many times, and puts them in
/// alphabetical order.
pub proof fn law_buffers_sorted(s: Seq<Seq<u8>>)
    ensures
        sort_buffers(s).to_multiset() == s.to_multiset(),
        forall|i: int, j: int| 0 <= i < j < sort_buffers(s).len() ==> key_order(sort_buffers(s)[i], sort_buffers(s)[j]) <= 0,
{
    lemma_sort_buffers(s);
}

} // verus!
