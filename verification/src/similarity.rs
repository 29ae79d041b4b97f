//! Content similarity of two Skill instances: the similarity document of a
//! file tree, its character bigrams, the bigrams two documents share, and
//! the normalized form of a Skill name.
use vstd::prelude::*;

use vstd::multiset::Multiset;

use crate::duplicate::{fingerprint_spec, stable_fingerprint, DuplicateFileKind, FileTree};
use crate::text::{append_str, chars_of, push_char, views, words, words_of};

verus! {

broadcast use {vstd::std_specs::hash::group_hash_axioms, vstd::utf8::char_is_scalar};

/// What `str::to_lowercase` makes of a text (Unicode lower case, with the
/// final-sigma rule).
pub uninterp spec fn lowercase(s: Seq<char>) -> Seq<char>;

/// What `char::to_lowercase` makes of one character.
pub uninterp spec fn char_lowercase(c: char) -> Seq<char>;

/// Whether `char::is_alphanumeric` holds of a character.
pub uninterp spec fn alphanumeric(c: char) -> bool;

/// `str::to_lowercase`: the text in Unicode lower case.
#[verifier::external_body]
pub(crate) fn to_lowercase(s: &str) -> (r: String)
    ensures
        r@ == lowercase(s@),
{
    s.to_lowercase()
}

/// `char::to_lowercase`: the characters of one character in lower case.
#[verifier::external_body]
fn lowercase_char(c: char) -> (r: Vec<char>)
    ensures
        r@ == char_lowercase(c),
{
    c.to_lowercase().collect()
}

/// `char::is_alphanumeric`.
#[verifier::external_body]
fn is_alphanumeric(c: char) -> (r: bool)
    ensures
        r == alphanumeric(c),
{
    c.is_alphanumeric()
}

/// The alphanumeric characters of `cs`, in order.
pub open spec fn alphanumeric_only(cs: Seq<char>) -> Seq<char>
    decreases cs.len(),
{
    if cs.len() == 0 {
        seq![]
    } else {
        alphanumeric_only(cs.drop_last()) + (if alphanumeric(cs.last()) {
            seq![cs.last()]
        } else {
            seq![]
        })
    }
}

/// The normalized form of a name: each character in lower case, keeping the
/// alphanumeric ones.
pub open spec fn normalized_name_spec(name: Seq<char>) -> Seq<char>
    decreases name.len(),
{
    if name.len() == 0 {
        seq![]
    } else {
        normalized_name_spec(name.drop_last()) + alphanumeric_only(char_lowercase(name.last()))
    }
}

/// The normalized form of a Skill name, used to find name conflicts.
pub fn normalized_name(name: &str) -> (r: String)
    ensures
        r@ == normalized_name_spec(name@),
{
    let cs = chars_of(name);
    let mut r = String::new();
    let mut i: usize = 0;
    while i < cs.len()
        invariant
            i <= cs.len(),
            cs@ == name@,
            r@ == normalized_name_spec(name@.take(i as int)),
        decreases cs.len() - i,
    {
        let lower = lowercase_char(cs[i]);
        let ghost before = r@;
        let mut k: usize = 0;
        while k < lower.len()
            invariant
                k <= lower.len(),
                r@ == before + alphanumeric_only(lower@.take(k as int)),
            decreases lower.len() - k,
        {
            assert(lower@.take(k + 1).drop_last() == lower@.take(k as int));
            if is_alphanumeric(lower[k]) {
                push_char(&mut r, lower[k]);
                assert(before + alphanumeric_only(lower@.take(k as int)) + seq![lower@[k as int]]
                    == (before + alphanumeric_only(lower@.take(k as int))).push(lower@[k as int]));
            } else {
                assert(alphanumeric_only(lower@.take(k as int)) + seq![] == alphanumeric_only(
                    lower@.take(k as int),
                ));
            }
            k += 1;
        }
        assert(lower@.take(lower.len() as int) == lower@);
        assert(name@.take(i + 1).drop_last() == name@.take(i as int));
        i += 1;
    }
    assert(name@.take(cs.len() as int) == name@);
    r
}

/// Every word followed by one space.
pub open spec fn spaced_words(ws: Seq<Seq<char>>) -> Seq<char>
    decreases ws.len(),
{
    if ws.len() == 0 {
        seq![]
    } else {
        spaced_words(ws.drop_last()) + ws.last() + seq![' ']
    }
}

/// The part of the similarity document for one file: its lower-case path,
/// then its lower-case words each followed by a space (text) or its
/// fingerprint (binary), each part ending a line.
pub open spec fn file_document(path: Seq<char>, kind: DuplicateFileKind, bytes: Seq<u8>) -> Seq<
    char,
> {
    lowercase(path) + seq!['\n'] + (if kind == DuplicateFileKind::Text {
        spaced_words(words_of(lowercase(vstd::utf8::decode_utf8(bytes))))
    } else {
        fingerprint_spec(bytes)
    }) + seq!['\n']
}

/// The similarity document of the first `n` files of a tree.
pub open spec fn similarity_document_spec(t: FileTree, n: int) -> Seq<char>
    decreases n,
{
    if n <= 0 || n > t.entries@.len() {
        seq![]
    } else {
        similarity_document_spec(t, n - 1) + file_document(
            t.entries@[n - 1].path@,
            t.entries@[n - 1].file.kind,
            t.entries@[n - 1].file.bytes@,
        )
    }
}

/// The text whose bigrams measure how similar two Skill instances are.
pub fn similarity_document(files: &FileTree) -> (r: String)
    requires
        files.wf(),
    ensures
        r@ == similarity_document_spec(*files, files.entries@.len() as int),
{
    let mut document = String::new();
    let mut i: usize = 0;
    while i < files.entries.len()
        invariant
            i <= files.entries@.len(),
            files.wf(),
            document@ == similarity_document_spec(*files, i as int),
        decreases files.entries@.len() - i,
    {
        let entry = &files.entries[i];
        let ghost before = document@;
        append_str(&mut document, to_lowercase(entry.path.as_str()).as_str());
        push_char(&mut document, '\n');
        let ghost middle = document@;
        match entry.file.kind {
            DuplicateFileKind::Text => {
                let text = crate::duplicate::utf8_text(entry.file.bytes.as_slice());
                assert(files.entries@[i as int].file.wf());
                let text = match text {
                    Some(t) => t,
                    None => {
                        assert(false);
                        String::new()
                    },
                };
                let ws = words(to_lowercase(text.as_str()).as_str());
                let mut k: usize = 0;
                while k < ws.len()
                    invariant
                        k <= ws.len(),
                        document@ == middle + spaced_words(views(ws@).take(k as int)),
                    decreases ws.len() - k,
                {
                    assert(views(ws@).take(k + 1).drop_last() == views(ws@).take(k as int));
                    append_str(&mut document, ws[k].as_str());
                    push_char(&mut document, ' ');
                    k += 1;
                }
                assert(views(ws@).take(ws.len() as int) == views(ws@));
            },
            DuplicateFileKind::Binary => {
                append_str(&mut document, stable_fingerprint(entry.file.bytes.as_slice()).as_str());
            },
        }
        push_char(&mut document, '\n');
        assert(document@ == before + file_document(
            entry.path@,
            entry.file.kind,
            entry.file.bytes@,
        ));
        i += 1;
    }
    document
}

/// The key of a character bigram.
pub open spec fn bigram_key(a: char, b: char) -> u64 {
    ((a as u32) as int * 0x200000 + (b as u32) as int) as u64
}

/// The bigrams of a text, as keys, in order.
pub open spec fn bigram_seq(s: Seq<char>) -> Seq<u64> {
    if s.len() < 2 {
        seq![]
    } else {
        Seq::new((s.len() - 1) as nat, |k: int| bigram_key(s[k], s[k + 1]))
    }
}

/// The distinct members of a sequence in order of first appearance.
pub open spec fn first_occurrences(s: Seq<u64>) -> Seq<u64>
    decreases s.len(),
{
    if s.len() == 0 {
        seq![]
    } else {
        let p = first_occurrences(s.drop_last());
        if p.contains(s.last()) {
            p
        } else {
            p.push(s.last())
        }
    }
}

/// The sum over `keys` of the smaller count in `a` and `b`.
pub open spec fn common_count(keys: Seq<u64>, a: Multiset<u64>, b: Multiset<u64>) -> nat
    decreases keys.len(),
{
    if keys.len() == 0 {
        0
    } else {
        let k = keys.last();
        common_count(keys.drop_last(), a, b) + (if a.count(k) <= b.count(k) {
            a.count(k)
        } else {
            b.count(k)
        })
    }
}

/// The sum over `keys` of their counts in `a`.
pub open spec fn key_count_sum(keys: Seq<u64>, a: Multiset<u64>) -> nat
    decreases keys.len(),
{
    if keys.len() == 0 {
        0
    } else {
        key_count_sum(keys.drop_last(), a) + a.count(keys.last())
    }
}

/// The bigram counts of a text.
pub struct BigramCounts {
    pub counts: std::collections::HashMap<u64, usize>,
    pub keys: Vec<u64>,
    pub total: usize,
}

impl BigramCounts {
    /// These are the counts of the bigram sequence `s`.
    pub open spec fn describes(&self, s: Seq<u64>) -> bool {
        &&& self.keys@ == first_occurrences(s)
        &&& forall|k: u64| #[trigger] self.counts@.contains_key(k) <==> s.contains(k)
        &&& forall|k: u64|
            #[trigger] self.counts@.contains_key(k) ==> self.counts@[k] as nat
                == s.to_multiset().count(k)
        &&& self.total == s.len()
    }
}

proof fn lemma_first_occurrences(s: Seq<u64>)
    ensures
        forall|k: u64| first_occurrences(s).contains(k) <==> s.contains(k),
        first_occurrences(s).no_duplicates(),
    decreases s.len(),
{
    if s.len() > 0 {
        lemma_first_occurrences(s.drop_last());
        let p = first_occurrences(s.drop_last());
        assert forall|k: u64| first_occurrences(s).contains(k) <==> s.contains(k) by {
            if s.contains(k) && k != s.last() {
                let i = choose|i: int| 0 <= i < s.len() && s[i] == k;
                assert(s.drop_last()[i] == k);
            }
            if s.drop_last().contains(k) {
                let i = choose|i: int| 0 <= i < s.drop_last().len() && s.drop_last()[i] == k;
                assert(s[i] == k);
            }
            if k == s.last() {
                assert(s[s.len() - 1] == k);
            }
            if !p.contains(s.last()) && first_occurrences(s).contains(k) && k != s.last() {
                let i = choose|i: int|
                    0 <= i < p.push(s.last()).len() && p.push(s.last())[i] == k;
                assert(p[i] == k);
            }
            if !p.contains(s.last()) && k == s.last() {
                assert(p.push(s.last())[p.len() as int] == k);
            }
            if !p.contains(s.last()) && p.contains(k) {
                let i = choose|i: int| 0 <= i < p.len() && p[i] == k;
                assert(p.push(s.last())[i] == k);
            }
        }
    }
}

proof fn lemma_key_count_sum_same(keys: Seq<u64>, a: Multiset<u64>, b: Multiset<u64>)
    requires
        forall|i: int| 0 <= i < keys.len() ==> a.count(#[trigger] keys[i]) == b.count(keys[i]),
    ensures
        key_count_sum(keys, a) == key_count_sum(keys, b),
    decreases keys.len(),
{
    if keys.len() > 0 {
        lemma_key_count_sum_same(keys.drop_last(), a, b);
        assert(a.count(keys[keys.len() - 1]) == b.count(keys[keys.len() - 1]));
    }
}

proof fn lemma_key_count_sum_bump(keys: Seq<u64>, a: Multiset<u64>, x: u64)
    requires
        keys.no_duplicates(),
        keys.contains(x),
    ensures
        key_count_sum(keys, a.insert(x)) == key_count_sum(keys, a) + 1,
    decreases keys.len(),
{
    broadcast use vstd::multiset::group_multiset_axioms;
    broadcast use vstd::multiset::group_multiset_properties;

    let n = keys.len();
    if keys.last() == x {
        assert forall|i: int| 0 <= i < keys.drop_last().len() implies a.insert(x).count(
            #[trigger] keys.drop_last()[i],
        ) == a.count(keys.drop_last()[i]) by {
            assert(keys[i] != keys[n - 1]);
        }
        lemma_key_count_sum_same(keys.drop_last(), a.insert(x), a);
    } else {
        let i = choose|i: int| 0 <= i < keys.len() && keys[i] == x;
        assert(keys.drop_last()[i] == x);
        lemma_key_count_sum_bump(keys.drop_last(), a, x);
    }
}

proof fn lemma_key_count_sum_total(s: Seq<u64>)
    ensures
        key_count_sum(first_occurrences(s), s.to_multiset()) == s.len(),
    decreases s.len(),
{
    broadcast use vstd::multiset::group_multiset_axioms;
    broadcast use vstd::multiset::group_multiset_properties;
    broadcast use vstd::seq_lib::group_to_multiset_ensures;

    if s.len() > 0 {
        let t = s.drop_last();
        let x = s.last();
        assert(s == t.push(x));
        lemma_key_count_sum_total(t);
        lemma_first_occurrences(t);
        let p = first_occurrences(t);
        assert(s.to_multiset() == t.to_multiset().insert(x));
        if p.contains(x) {
            lemma_key_count_sum_bump(p, t.to_multiset(), x);
        } else {
            assert(!t.contains(x));
            assert forall|i: int| 0 <= i < p.len() implies t.to_multiset().insert(x).count(
                #[trigger] p[i],
            ) == t.to_multiset().count(p[i]) by {
                assert(p[i] != x);
            }
            lemma_key_count_sum_same(p, t.to_multiset().insert(x), t.to_multiset());
            assert(p.push(x).drop_last() == p);
            assert(t.to_multiset().count(x) == 0);
        }
    }
}

proof fn lemma_common_le_sum(keys: Seq<u64>, a: Multiset<u64>, b: Multiset<u64>)
    ensures
        common_count(keys, a, b) <= key_count_sum(keys, a),
    decreases keys.len(),
{
    if keys.len() > 0 {
        lemma_common_le_sum(keys.drop_last(), a, b);
    }
}

/// The bigram counts of a text.
pub fn bigram_counts(value: &str) -> (r: BigramCounts)
    ensures
        r.describes(bigram_seq(value@)),
{
    let cs = chars_of(value);
    let ghost bs = bigram_seq(value@);
    let mut counts: std::collections::HashMap<u64, usize> = std::collections::HashMap::new();
    let mut keys: Vec<u64> = Vec::new();
    let mut total: usize = 0;
    if cs.len() < 2 {
        let r = BigramCounts { counts, keys, total };
        assert(bs == Seq::<u64>::empty());
        return r;
    }
    let mut i: usize = 0;
    while i + 1 < cs.len()
        invariant
            cs@ == value@,
            cs.len() >= 2,
            i + 1 <= cs.len(),
            bs == bigram_seq(value@),
            total == i,
            keys@ == first_occurrences(bs.take(i as int)),
            forall|k: u64| #[trigger] counts@.contains_key(k) <==> bs.take(i as int).contains(k),
            forall|k: u64|
                #[trigger] counts@.contains_key(k) ==> counts@[k] as nat == bs.take(
                    i as int,
                ).to_multiset().count(k) && counts@[k] <= i,
        decreases cs.len() - i,
    {
        let a = cs[i] as u32;
        let b = cs[i + 1] as u32;
        let key: u64 = (a as u64) * 0x200000 + (b as u64);
        let ghost prefix = bs.take(i as int);
        proof {
            broadcast use vstd::seq_lib::group_to_multiset_ensures;
            broadcast use vstd::multiset::group_multiset_axioms;

            assert(key == bs[i as int]);
            assert(bs.take(i + 1) == prefix.push(key));
            assert(bs.take(i + 1).to_multiset() == prefix.to_multiset().insert(key));
            lemma_first_occurrences(prefix);
            assert(bs.take(i + 1).drop_last() == prefix);
            assert(counts@.contains_key(key) <==> first_occurrences(prefix).contains(key));
        }
        let current = counts.get(&key);
        match current {
            Some(c) => {
                let c = *c;
                counts.insert(key, c + 1);
            },
            None => {
                counts.insert(key, 1);
                keys.push(key);
            },
        }
        proof {
            broadcast use vstd::multiset::group_multiset_axioms;
            broadcast use vstd::multiset::group_multiset_properties;
            broadcast use vstd::seq_lib::group_to_multiset_ensures;

            let next = bs.take(i + 1);
            assert(next.drop_last() == prefix);
            assert(next.last() == key);
            assert forall|k: u64| #[trigger] counts@.contains_key(k) <==> next.contains(k) by {
                if k == key {
                    assert(next[i as int] == key);
                } else if next.contains(k) {
                    let j = choose|j: int| 0 <= j < next.len() && next[j] == k;
                    assert(prefix[j] == k);
                } else if prefix.contains(k) {
                    let j = choose|j: int| 0 <= j < prefix.len() && prefix[j] == k;
                    assert(next[j] == k);
                }
            }
        }
        total += 1;
        i += 1;
    }
    proof {
        assert(bs.take(i as int) == bs);
    }
    BigramCounts { counts, keys, total }
}

/// The number of bigrams two texts share, each counted as often as it
/// occurs in both.
pub(crate) fn common_bigrams(left: &BigramCounts, right: &BigramCounts, ls: Ghost<Seq<u64>>, rs: Ghost<Seq<u64>>) -> (r: usize)
    requires
        left.describes(ls@),
        right.describes(rs@),
    ensures
        r == common_count(first_occurrences(ls@), ls@.to_multiset(), rs@.to_multiset()),
{
    let mut sum: usize = 0;
    let mut i: usize = 0;
    proof {
        lemma_key_count_sum_total(ls@);
    }
    while i < left.keys.len()
        invariant
            i <= left.keys.len(),
            left.describes(ls@),
            right.describes(rs@),
            sum == common_count(left.keys@.take(i as int), ls@.to_multiset(), rs@.to_multiset()),
            key_count_sum(first_occurrences(ls@), ls@.to_multiset()) == ls@.len(),
        decreases left.keys.len() - i,
    {
        let key = left.keys[i];
        proof {
            assert(left.keys@.take(i + 1).drop_last() == left.keys@.take(i as int));
            lemma_first_occurrences(ls@);
            assert(first_occurrences(ls@)[i as int] == key);
            assert(ls@.contains(key));
            lemma_common_le_sum(left.keys@.take(i + 1), ls@.to_multiset(), rs@.to_multiset());
            lemma_key_count_sum_prefix(left.keys@, ls@.to_multiset(), i + 1);
        }
        let lc: usize = match left.counts.get(&key) {
            Some(c) => *c,
            None => {
                assert(false);
                0
            },
        };
        let rc: usize = match right.counts.get(&key) {
            Some(c) => *c,
            None => {
                proof {
                    broadcast use vstd::seq_lib::group_to_multiset_ensures;

                    assert(!rs@.contains(key));
                }
                0
            },
        };
        sum = sum + if lc <= rc {
            lc
        } else {
            rc
        };
        i += 1;
    }
    assert(left.keys@.take(left.keys.len() as int) == left.keys@);
    sum
}

proof fn lemma_key_count_sum_prefix(keys: Seq<u64>, a: Multiset<u64>, n: int)
    requires
        0 <= n <= keys.len(),
    ensures
        key_count_sum(keys.take(n), a) <= key_count_sum(keys, a),
    decreases keys.len(),
{
    if n < keys.len() {
        assert(keys.drop_last().take(n) == keys.take(n));
        lemma_key_count_sum_prefix(keys.drop_last(), a, n);
    } else {
        assert(keys.take(n) == keys);
    }
}


proof fn lemma_common_count_same(keys: Seq<u64>, a: Multiset<u64>, a2: Multiset<u64>, b: Multiset<u64>)
    requires
        forall|i: int| 0 <= i < keys.len() ==> a.count(#[trigger] keys[i]) == a2.count(keys[i]),
    ensures
        common_count(keys, a, b) == common_count(keys, a2, b),
    decreases keys.len(),
{
    if keys.len() > 0 {
        lemma_common_count_same(keys.drop_last(), a, a2, b);
        assert(a.count(keys[keys.len() - 1]) == a2.count(keys[keys.len() - 1]));
    }
}

proof fn lemma_common_count_bump(keys: Seq<u64>, a: Multiset<u64>, b: Multiset<u64>, x: u64)
    requires
        keys.no_duplicates(),
        keys.contains(x),
    ensures
        common_count(keys, a.insert(x), b) == common_count(keys, a, b) + (if a.count(x) < b.count(
            x,
        ) {
            1int
        } else {
            0int
        }),
    decreases keys.len(),
{
    broadcast use vstd::multiset::group_multiset_axioms;
    broadcast use vstd::multiset::group_multiset_properties;

    let n = keys.len();
    if keys.last() == x {
        assert forall|i: int| 0 <= i < keys.drop_last().len() implies a.insert(x).count(
            #[trigger] keys.drop_last()[i],
        ) == a.count(keys.drop_last()[i]) by {
            assert(keys[i] != keys[n - 1]);
        }
        lemma_common_count_same(keys.drop_last(), a.insert(x), a, b);
    } else {
        let i = choose|i: int| 0 <= i < keys.len() && keys[i] == x;
        assert(keys.drop_last()[i] == x);
        lemma_common_count_bump(keys.drop_last(), a, b, x);
    }
}

/// The bigrams two sequences share, counted with multiplicity, are the size
/// of the intersection of their multisets.
proof fn lemma_common_is_intersection(s: Seq<u64>, b: Multiset<u64>)
    ensures
        common_count(first_occurrences(s), s.to_multiset(), b) == s.to_multiset().intersection_with(
            b,
        ).len(),
    decreases s.len(),
{
    broadcast use vstd::multiset::group_multiset_axioms;
    broadcast use vstd::multiset::group_multiset_properties;
    broadcast use vstd::seq_lib::group_to_multiset_ensures;

    if s.len() == 0 {
        assert(s.to_multiset().intersection_with(b) =~= Multiset::<u64>::empty());
    } else {
        let t = s.drop_last();
        let x = s.last();
        assert(s == t.push(x));
        lemma_common_is_intersection(t, b);
        lemma_first_occurrences(t);
        let p = first_occurrences(t);
        let tm = t.to_multiset();
        assert(s.to_multiset() == tm.insert(x));
        let before = tm.intersection_with(b);
        let after = tm.insert(x).intersection_with(b);
        if tm.count(x) < b.count(x) {
            assert(after =~= before.insert(x));
        } else {
            assert(after =~= before);
        }
        if p.contains(x) {
            lemma_common_count_bump(p, tm, b, x);
        } else {
            assert(!t.contains(x));
            assert(tm.count(x) == 0);
            assert forall|i: int| 0 <= i < p.len() implies tm.insert(x).count(#[trigger] p[i])
                == tm.count(p[i]) by {
                assert(p[i] != x);
            }
            lemma_common_count_same(p, tm.insert(x), tm, b);
            assert(p.push(x).drop_last() == p);
        }
    }
}

/// Counting shared bigrams gives the same number from either side, and no
/// more than either side has.
pub(crate) proof fn lemma_common_bigrams_symmetric(l: Seq<u64>, r: Seq<u64>)
    ensures
        common_count(first_occurrences(l), l.to_multiset(), r.to_multiset()) == common_count(
            first_occurrences(r),
            r.to_multiset(),
            l.to_multiset(),
        ),
        common_count(first_occurrences(l), l.to_multiset(), r.to_multiset()) <= l.len(),
        common_count(first_occurrences(l), l.to_multiset(), r.to_multiset()) <= r.len(),
{
    broadcast use vstd::multiset::group_multiset_axioms;
    broadcast use vstd::multiset::group_multiset_properties;

    lemma_common_is_intersection(l, r.to_multiset());
    lemma_common_is_intersection(r, l.to_multiset());
    assert(l.to_multiset().intersection_with(r.to_multiset()) =~= r.to_multiset().intersection_with(
        l.to_multiset(),
    ));
    lemma_key_count_sum_total(l);
    lemma_key_count_sum_total(r);
    lemma_common_le_sum(first_occurrences(l), l.to_multiset(), r.to_multiset());
    lemma_common_le_sum(first_occurrences(r), r.to_multiset(), l.to_multiset());
}

} // verus!
