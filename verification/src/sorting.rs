//! Stable sorting of records by a text key, in the order of `str`.
use vstd::prelude::*;

use crate::text::{str_le, text_le};

verus! {

/// A record ordered by one of its texts.
pub trait TextKeyed {
    /// The key of the record.
    spec fn key_view(&self) -> Seq<char>;

    /// The key of the record.
    fn key(&self) -> (r: &str)
        ensures
            r@ == self.key_view(),
    ;
}

/// The records are in key order.
pub open spec fn sorted_by_key<T: TextKeyed>(v: Seq<T>) -> bool {
    forall|i: int, j: int|
        0 <= i < j < v.len() ==> text_le(#[trigger] v[i].key_view(), #[trigger] v[j].key_view())
}

pub proof fn lemma_insert_multiset<A>(s: Seq<A>, p: int, x: A)
    requires
        0 <= p <= s.len(),
    ensures
        s.insert(p, x).to_multiset() == s.to_multiset().insert(x),
{
    broadcast use vstd::seq_lib::group_to_multiset_ensures;
    broadcast use vstd::multiset::group_multiset_axioms;

    let a = s.subrange(0, p);
    let b = s.subrange(p, s.len() as int);
    assert(s == a + b);
    assert(s.insert(p, x) == a.push(x) + b);
    vstd::seq_lib::lemma_multiset_commutative(a.push(x), b);
    vstd::seq_lib::lemma_multiset_commutative(a, b);
    assert(a.push(x).to_multiset() == a.to_multiset().insert(x));
    assert(a.to_multiset().insert(x).add(b.to_multiset()) =~= a.to_multiset().add(
        b.to_multiset(),
    ).insert(x));
}

/// Where a record goes in a key-sorted list, looking from `k`: before the
/// first record whose key is greater than its own.
pub open spec fn insert_pos<T: TextKeyed>(s: Seq<T>, x: T, k: int) -> int
    decreases s.len() - k,
{
    if k < 0 || k >= s.len() || !text_le(s[k].key_view(), x.key_view()) {
        k
    } else {
        insert_pos(s, x, k + 1)
    }
}

/// The records put one after the other into a key-sorted list: a stable
/// sort by key.
pub open spec fn insertion_sorted<T: TextKeyed>(s: Seq<T>) -> Seq<T>
    decreases s.len(),
{
    if s.len() == 0 {
        seq![]
    } else {
        let front = insertion_sorted(s.drop_last());
        front.insert(insert_pos(front, s.last(), 0), s.last())
    }
}

proof fn lemma_insert_pos<T: TextKeyed>(s: Seq<T>, x: T, k: int, p: int)
    requires
        0 <= k <= p <= s.len(),
        forall|i: int| 0 <= i < p ==> text_le(#[trigger] s[i].key_view(), x.key_view()),
        p == s.len() || !text_le(s[p].key_view(), x.key_view()),
    ensures
        insert_pos(s, x, k) == p,
    decreases p - k,
{
    if k < p {
        lemma_insert_pos(s, x, k + 1, p);
    }
}

/// No two records have the same key.
pub open spec fn keys_distinct<T: TextKeyed>(s: Seq<T>) -> bool {
    forall|i: int, j: int|
        0 <= i < j < s.len() ==> #[trigger] s[i].key_view() != #[trigger] s[j].key_view()
}

proof fn lemma_insert_pos_range<T: TextKeyed>(s: Seq<T>, x: T, k: int)
    requires
        0 <= k <= s.len(),
    ensures
        k <= insert_pos(s, x, k) <= s.len(),
    decreases s.len() - k,
{
    if k < s.len() && text_le(s[k].key_view(), x.key_view()) {
        lemma_insert_pos_range(s, x, k + 1);
    }
}

proof fn lemma_insertion_sorted_multiset<T: TextKeyed>(s: Seq<T>)
    ensures
        insertion_sorted(s).to_multiset() == s.to_multiset(),
    decreases s.len(),
{
    broadcast use vstd::seq_lib::group_to_multiset_ensures;

    if s.len() > 0 {
        let front = insertion_sorted(s.drop_last());
        lemma_insertion_sorted_multiset(s.drop_last());
        lemma_insert_pos_range(front, s.last(), 0);
        lemma_insert_multiset(front, insert_pos(front, s.last(), 0), s.last());
        assert(s == s.drop_last().push(s.last()));
    }
}

/// Sorting keeps keys apart: records whose keys were all different still
/// have all different keys.
pub proof fn lemma_insertion_sorted_keys_distinct<T: TextKeyed>(s: Seq<T>)
    requires
        keys_distinct(s),
    ensures
        keys_distinct(insertion_sorted(s)),
    decreases s.len(),
{
    broadcast use vstd::seq_lib::group_to_multiset_ensures;

    if s.len() > 0 {
        let t = s.drop_last();
        let x = s.last();
        assert(keys_distinct(t)) by {
            assert forall|i: int, j: int| 0 <= i < j < t.len() implies #[trigger] t[i].key_view()
                != #[trigger] t[j].key_view() by {
                assert(t[i] == s[i] && t[j] == s[j]);
            }
        }
        lemma_insertion_sorted_keys_distinct(t);
        lemma_insertion_sorted_multiset(t);
        let front = insertion_sorted(t);
        let p = insert_pos(front, x, 0);
        lemma_insert_pos_range(front, x, 0);
        assert forall|i: int| 0 <= i < front.len() implies #[trigger] front[i].key_view()
            != x.key_view() by {
            assert(front.to_multiset().count(front[i]) > 0);
            assert(t.to_multiset().count(front[i]) > 0);
            assert(t.contains(front[i]));
            let k = choose|k: int| 0 <= k < t.len() && t[k] == front[i];
            assert(s[k] == front[i]);
            assert(s[s.len() - 1] == x);
        }
        let r = front.insert(p, x);
        assert forall|i: int, j: int| 0 <= i < j < r.len() implies #[trigger] r[i].key_view()
            != #[trigger] r[j].key_view() by {
            if j < p {
                assert(r[i] == front[i] && r[j] == front[j]);
            } else if j == p {
                assert(r[i] == front[i] && r[j] == x);
            } else if i < p {
                assert(r[i] == front[i] && r[j] == front[j - 1]);
            } else if i == p {
                assert(r[i] == x && r[j] == front[j - 1]);
            } else {
                assert(r[i] == front[i - 1] && r[j] == front[j - 1]);
            }
        }
    }
}

/// Sorting records that are already in key order leaves them as they are.
pub proof fn sorting_sorted_records_keeps_them<T: TextKeyed>(s: Seq<T>)
    requires
        sorted_by_key(s),
    ensures
        insertion_sorted(s) == s,
    decreases s.len(),
{
    if s.len() > 0 {
        let front = s.drop_last();
        assert(sorted_by_key(front)) by {
            assert forall|i: int, j: int| 0 <= i < j < front.len() implies text_le(
                #[trigger] front[i].key_view(),
                #[trigger] front[j].key_view(),
            ) by {
                assert(front[i] == s[i] && front[j] == s[j]);
            }
        }
        sorting_sorted_records_keeps_them(front);
        assert forall|i: int| 0 <= i < front.len() implies text_le(
            #[trigger] front[i].key_view(),
            s.last().key_view(),
        ) by {
            assert(front[i] == s[i]);
            assert(text_le(s[i].key_view(), s[s.len() - 1].key_view()));
        }
        lemma_insert_pos(front, s.last(), 0, front.len() as int);
        assert(front.insert(front.len() as int, s.last()) =~= s);
    }
}

/// Puts a record into a key-sorted list, after the records whose keys are
/// not greater than its own.
pub fn insert_by_key<T: TextKeyed>(v: &mut Vec<T>, x: T)
    requires
        sorted_by_key(old(v)@),
    ensures
        sorted_by_key(final(v)@),
        final(v)@.to_multiset() == old(v)@.to_multiset().insert(x),
        final(v)@ == old(v)@.insert(insert_pos(old(v)@, x, 0), x),
{
    let mut p: usize = 0;
    while p < v.len() && str_le(v[p].key(), x.key())
        invariant
            p <= v@.len(),
            *v == *old(v),
            sorted_by_key(v@),
            forall|k: int| 0 <= k < p ==> text_le(#[trigger] v@[k].key_view(), x.key_view()),
        decreases v@.len() - p,
    {
        p += 1;
    }
    let ghost old_v = v@;
    proof {
        lemma_insert_pos(old_v, x, 0, p as int);
        if p < old_v.len() {
            crate::text::lemma_text_le_total(old_v[p as int].key_view(), x.key_view());
        }
        lemma_insert_multiset(old_v, p as int, x);
    }
    let ghost xv = x;
    v.insert(p, x);
    proof {
        assert(v@ == old_v.insert(p as int, xv));
        assert forall|i: int, j: int| 0 <= i < j < v@.len() implies text_le(
            #[trigger] v@[i].key_view(),
            #[trigger] v@[j].key_view(),
        ) by {
            if j < p {
                assert(text_le(old_v[i].key_view(), old_v[j].key_view()));
            } else if j == p {
            } else if i < p {
                assert(text_le(xv.key_view(), old_v[p as int].key_view()));
                crate::text::lemma_text_le_trans(
                    old_v[i].key_view(),
                    xv.key_view(),
                    old_v[p as int].key_view(),
                );
                if p < j - 1 {
                    assert(text_le(old_v[p as int].key_view(), old_v[j - 1].key_view()));
                    crate::text::lemma_text_le_trans(
                        old_v[i].key_view(),
                        old_v[p as int].key_view(),
                        old_v[j - 1].key_view(),
                    );
                }
            } else if i == p {
                assert(text_le(xv.key_view(), old_v[p as int].key_view()));
                if p < j - 1 {
                    assert(text_le(old_v[p as int].key_view(), old_v[j - 1].key_view()));
                    crate::text::lemma_text_le_trans(
                        xv.key_view(),
                        old_v[p as int].key_view(),
                        old_v[j - 1].key_view(),
                    );
                }
            } else {
                assert(text_le(old_v[i - 1].key_view(), old_v[j - 1].key_view()));
            }
        }
    }
}

/// The records sorted by key (`slice::sort_by` on the key); records with
/// equal keys keep their order.
pub fn sort_by_key<T: TextKeyed>(items: Vec<T>) -> (r: Vec<T>)
    ensures
        sorted_by_key(r@),
        r@.to_multiset() == items@.to_multiset(),
        r@ == insertion_sorted(items@),
        keys_distinct(items@) ==> keys_distinct(r@),
{
    let ghost input = items@;
    let mut out: Vec<T> = Vec::new();
    assert(out@ == input.take(0));
    assert(insertion_sorted(input.take(0)) == Seq::<T>::empty());
    for x in it: items.into_iter()
        invariant
            it.seq() == input,
            sorted_by_key(out@),
            out@.to_multiset() == input.take(it.index() as int).to_multiset(),
            out@ == insertion_sorted(input.take(it.index() as int)),
    {
        proof {
            broadcast use vstd::seq_lib::group_to_multiset_ensures;

            assert(input.take(it.index() + 1) == input.take(it.index() as int).push(x));
            assert(input.take(it.index() + 1).drop_last() == input.take(it.index() as int));
        }
        insert_by_key(&mut out, x);
    }
    proof {
        assert(input.take(input.len() as int) == input);
        if keys_distinct(input) {
            lemma_insertion_sorted_keys_distinct(input);
        }
    }
    out
}

} // verus!
