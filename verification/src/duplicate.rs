//! Duplicate review: content fingerprints, file-by-file comparison, readable
//! line diffs, pair classification and grouping of duplicate candidates.
use vstd::prelude::*;

use crate::similarity::{
    bigram_counts, bigram_seq, common_bigrams, common_count, first_occurrences, normalized_name,
    normalized_name_spec, similarity_document, similarity_document_spec, BigramCounts,
};
use crate::sorting::{insert_by_key, sorted_by_key, TextKeyed};
use crate::text::{chars_of, join_spec, join_strings, push_char, str_eq, str_le, text_le, views};
use crate::{SkillInstance, WorkspaceError};

verus! {

/// The most lines of one side that a readable diff shows.
pub const MAX_TEXT_DIFF_LINES: usize = 1000;

/// The duplicate state of a Skill instance or of a pair of instances.
#[derive(Debug, Clone, Copy, PartialEq, Eq)]
pub enum DuplicateCheckStatus {
    Unique,
    Exact,
    Suspected,
    NameConflict,
}

/// The rule that made a pair a duplicate candidate.
#[derive(Debug, Clone, Copy, PartialEq, Eq, PartialOrd, Ord, Hash)]
pub enum DuplicateHitRule {
    ExactContent,
    NormalizedName,
    ContentSimilarity,
}

/// How one file differs between two Skill instances.
#[derive(Debug, Clone, PartialEq, Eq)]
pub struct DuplicateFileDifference {
    pub relative_path: String,
    pub status: DuplicateFileDifferenceStatus,
    pub kind: DuplicateFileKind,
    pub left_node_kind: Option<DuplicateFileNodeKind>,
    pub right_node_kind: Option<DuplicateFileNodeKind>,
    pub left_size: Option<u64>,
    pub right_size: Option<u64>,
    pub left_fingerprint: Option<String>,
    pub right_fingerprint: Option<String>,
    pub text_diff: Option<Vec<DuplicateTextDiffLine>>,
    pub text_diff_truncated: bool,
}

#[derive(Debug, Clone, Copy, PartialEq, Eq)]
pub enum DuplicateFileDifferenceStatus {
    Identical,
    Modified,
    OnlyLeft,
    OnlyRight,
}

#[derive(Debug, Clone, Copy, PartialEq, Eq)]
pub enum DuplicateFileKind {
    Text,
    Binary,
}

#[derive(Debug, Clone, Copy, PartialEq, Eq)]
pub enum DuplicateFileNodeKind {
    File,
    SymbolicLink,
}

/// One line of a readable diff; line numbers count from one.
#[derive(Debug, Clone, PartialEq, Eq)]
pub struct DuplicateTextDiffLine {
    pub kind: DuplicateTextDiffLineKind,
    pub left_line_number: Option<usize>,
    pub right_line_number: Option<usize>,
    pub left: Option<String>,
    pub right: Option<String>,
}

#[derive(Debug, Clone, Copy, PartialEq, Eq)]
pub enum DuplicateTextDiffLineKind {
    Equal,
    Modified,
    OnlyLeft,
    OnlyRight,
}

/// The 64-bit FNV-1a offset basis.
pub const FNV_OFFSET: u64 = 0xcbf29ce484222325u64;

/// The 64-bit FNV-1a prime.
pub const FNV_PRIME: u64 = 0x100000001b3u64;

/// The 64-bit FNV-1a hash of a byte sequence.
pub open spec fn fnv1a(bytes: Seq<u8>) -> u64
    decreases bytes.len(),
{
    if bytes.len() == 0 {
        FNV_OFFSET
    } else {
        vstd::wrapping::u64_specs::wrapping_mul(
            fnv1a(bytes.drop_last()) ^ (bytes.last() as u64),
            FNV_PRIME,
        )
    }
}

/// The lower-case hexadecimal digit of a number below sixteen.
pub open spec fn hex_char(d: nat) -> char {
    if d < 10 {
        crate::text::digit_char(d)
    } else if d == 10 {
        'a'
    } else if d == 11 {
        'b'
    } else if d == 12 {
        'c'
    } else if d == 13 {
        'd'
    } else if d == 14 {
        'e'
    } else {
        'f'
    }
}

/// The last `n` hexadecimal digits of `h`, most significant first.
pub open spec fn hex_digits(h: nat, n: nat) -> Seq<char>
    decreases n,
{
    if n == 0 {
        seq![]
    } else {
        hex_digits(h / 16, (n - 1) as nat).push(hex_char(h % 16))
    }
}

/// The fingerprint text of a byte sequence: its FNV-1a hash as sixteen
/// lower-case hexadecimal digits.
pub open spec fn fingerprint_spec(bytes: Seq<u8>) -> Seq<char> {
    hex_digits(fnv1a(bytes) as nat, 16)
}

fn hex_digit(d: u64) -> (c: char)
    requires
        d < 16,
    ensures
        c == hex_char(d as nat),
{
    if d < 10 {
        let c = if d == 0 {
            '0'
        } else if d == 1 {
            '1'
        } else if d == 2 {
            '2'
        } else if d == 3 {
            '3'
        } else if d == 4 {
            '4'
        } else if d == 5 {
            '5'
        } else if d == 6 {
            '6'
        } else if d == 7 {
            '7'
        } else if d == 8 {
            '8'
        } else {
            '9'
        };
        c
    } else if d == 10 {
        'a'
    } else if d == 11 {
        'b'
    } else if d == 12 {
        'c'
    } else if d == 13 {
        'd'
    } else if d == 14 {
        'e'
    } else {
        'f'
    }
}

fn hex_string(h: u64, n: u32) -> (r: String)
    requires
        n <= 16,
    ensures
        r@ == hex_digits(h as nat, n as nat),
    decreases n,
{
    if n == 0 {
        String::new()
    } else {
        let mut r = hex_string(h / 16, n - 1);
        push_char(&mut r, hex_digit(h % 16));
        r
    }
}

/// The FNV-1a hash of a byte sequence.
pub fn fnv1a_hash(bytes: &[u8]) -> (h: u64)
    ensures
        h == fnv1a(bytes@),
{
    let mut hash: u64 = FNV_OFFSET;
    let mut i: usize = 0;
    while i < bytes.len()
        invariant
            i <= bytes.len(),
            hash == fnv1a(bytes@.take(i as int)),
        decreases bytes.len() - i,
    {
        assert(bytes@.take(i + 1).drop_last() == bytes@.take(i as int));
        hash = hash ^ (bytes[i] as u64);
        hash = hash.wrapping_mul(FNV_PRIME);
        i += 1;
    }
    assert(bytes@.take(bytes.len() as int) == bytes@);
    hash
}

/// A stable fingerprint of file content: sixteen lower-case hexadecimal
/// digits of its 64-bit FNV-1a hash.
pub fn stable_fingerprint(bytes: &[u8]) -> (r: String)
    ensures
        r@ == fingerprint_spec(bytes@),
{
    hex_string(fnv1a_hash(bytes), 16)
}

/// The length of a longest common subsequence of `l[i..]` and `r[j..]`.
pub open spec fn lcs(l: Seq<Seq<char>>, r: Seq<Seq<char>>, i: int, j: int) -> nat
    decreases (l.len() - i) + (r.len() - j),
{
    if i < 0 || j < 0 || i >= l.len() || j >= r.len() {
        0
    } else if l[i] == r[j] {
        1 + lcs(l, r, i + 1, j + 1)
    } else {
        let a = lcs(l, r, i + 1, j);
        let b = lcs(l, r, i, j + 1);
        if a >= b {
            a
        } else {
            b
        }
    }
}

/// One step of a readable diff: its kind and the indexes of the lines it
/// shows on the left and on the right (`-1` where a side shows none).
pub type DiffStep = (DuplicateTextDiffLineKind, int, int);

/// The readable diff of `l[i..]` and `r[j..]`: equal lines are paired; two
/// different lines are paired as modified when skipping either loses nothing
/// of the common subsequence; otherwise the side whose skip loses less goes
/// first, the left one on a tie.
pub open spec fn diff_walk(l: Seq<Seq<char>>, r: Seq<Seq<char>>, i: int, j: int) -> Seq<DiffStep>
    decreases (l.len() - i) + (r.len() - j),
{
    if i < 0 || j < 0 || i > l.len() || j > r.len() || (i == l.len() && j == r.len()) {
        seq![]
    } else if i < l.len() && j < r.len() && l[i] == r[j] {
        seq![(DuplicateTextDiffLineKind::Equal, i, j)] + diff_walk(l, r, i + 1, j + 1)
    } else if i < l.len() && j < r.len() && lcs(l, r, i + 1, j) == lcs(l, r, i, j + 1) {
        seq![(DuplicateTextDiffLineKind::Modified, i, j)] + diff_walk(l, r, i + 1, j + 1)
    } else if i < l.len() && (j == r.len() || lcs(l, r, i + 1, j) >= lcs(l, r, i, j + 1)) {
        seq![(DuplicateTextDiffLineKind::OnlyLeft, i, -1)] + diff_walk(l, r, i + 1, j)
    } else {
        seq![(DuplicateTextDiffLineKind::OnlyRight, -1, j)] + diff_walk(l, r, i, j + 1)
    }
}

/// The first `MAX_TEXT_DIFF_LINES` of a list of lines.
pub open spec fn capped(ls: Seq<Seq<char>>) -> Seq<Seq<char>> {
    if ls.len() > MAX_TEXT_DIFF_LINES {
        ls.take(MAX_TEXT_DIFF_LINES as int)
    } else {
        ls
    }
}

/// The line of a readable diff that shows step `e` of `l` and `r`.
pub open spec fn shows_step(
    d: DuplicateTextDiffLine,
    e: DiffStep,
    l: Seq<Seq<char>>,
    r: Seq<Seq<char>>,
) -> bool {
    &&& d.kind == e.0
    &&& if e.1 >= 0 {
        d.left_line_number == Some((e.1 + 1) as usize) && (d.left matches Some(x) && x@ == l[e.1])
    } else {
        d.left_line_number is None && d.left is None
    }
    &&& if e.2 >= 0 {
        d.right_line_number == Some((e.2 + 1) as usize) && (d.right matches Some(y) && y@ == r[e.2])
    } else {
        d.right_line_number is None && d.right is None
    }
}

/// The text of an optional file side; an absent side has no lines.
pub open spec fn side_lines(text: Option<Seq<char>>) -> Seq<Seq<char>> {
    match text {
        Some(t) => crate::text::lines_of(t),
        None => seq![],
    }
}

/// The diff lines shown for two optional texts, and whether either side had
/// more lines than are shown.
pub open spec fn readable_diff_holds(
    left: Option<Seq<char>>,
    right: Option<Seq<char>>,
    diff: Seq<DuplicateTextDiffLine>,
    truncated: bool,
) -> bool {
    let l = capped(side_lines(left));
    let r = capped(side_lines(right));
    let w = diff_walk(l, r, 0, 0);
    &&& truncated == (side_lines(left).len() > MAX_TEXT_DIFF_LINES || side_lines(right).len()
        > MAX_TEXT_DIFF_LINES)
    &&& diff.len() == w.len()
    &&& forall|k: int| 0 <= k < w.len() ==> shows_step(#[trigger] diff[k], w[k], l, r)
}

proof fn lemma_lcs_bound(l: Seq<Seq<char>>, r: Seq<Seq<char>>, i: int, j: int)
    requires
        0 <= i <= l.len(),
        0 <= j <= r.len(),
    ensures
        lcs(l, r, i, j) <= l.len() - i,
    decreases (l.len() - i) + (r.len() - j),
{
    if i < l.len() && j < r.len() {
        lemma_lcs_bound(l, r, i + 1, j + 1);
        lemma_lcs_bound(l, r, i + 1, j);
        lemma_lcs_bound(l, r, i, j + 1);
    }
}

proof fn lemma_walk_same(l: Seq<Seq<char>>, i: int)
    requires
        0 <= i <= l.len(),
    ensures
        diff_walk(l, l, i, i).len() == l.len() - i,
        forall|k: int|
            0 <= k < diff_walk(l, l, i, i).len() ==> (#[trigger] diff_walk(l, l, i, i)[k]).0
                == DuplicateTextDiffLineKind::Equal,
    decreases l.len() - i,
{
    if i < l.len() {
        lemma_walk_same(l, i + 1);
        let rest = diff_walk(l, l, i + 1, i + 1);
        let w = diff_walk(l, l, i, i);
        assert(w == seq![(DuplicateTextDiffLineKind::Equal, i, i)] + rest);
        assert forall|k: int| 0 <= k < w.len() implies (#[trigger] w[k]).0
            == DuplicateTextDiffLineKind::Equal by {
            if k > 0 {
                assert(w[k] == rest[k - 1]);
            }
        }
    }
}

proof fn lemma_walk_left_only(l: Seq<Seq<char>>, i: int)
    requires
        0 <= i <= l.len(),
    ensures
        diff_walk(l, seq![], i, 0).len() == l.len() - i,
        forall|k: int|
            0 <= k < diff_walk(l, seq![], i, 0).len() ==> (#[trigger] diff_walk(l, seq![], i, 0)[k]).0
                == DuplicateTextDiffLineKind::OnlyLeft,
    decreases l.len() - i,
{
    if i < l.len() {
        lemma_walk_left_only(l, i + 1);
        let rest = diff_walk(l, seq![], i + 1, 0);
        let w = diff_walk(l, seq![], i, 0);
        assert(w == seq![(DuplicateTextDiffLineKind::OnlyLeft, i, -1)] + rest);
        assert forall|k: int| 0 <= k < w.len() implies (#[trigger] w[k]).0
            == DuplicateTextDiffLineKind::OnlyLeft by {
            if k > 0 {
                assert(w[k] == rest[k - 1]);
            }
        }
    }
}

proof fn lemma_walk_right_only(r: Seq<Seq<char>>, j: int)
    requires
        0 <= j <= r.len(),
    ensures
        diff_walk(seq![], r, 0, j).len() == r.len() - j,
        forall|k: int|
            0 <= k < diff_walk(seq![], r, 0, j).len() ==> (#[trigger] diff_walk(seq![], r, 0, j)[k]).0
                == DuplicateTextDiffLineKind::OnlyRight,
    decreases r.len() - j,
{
    if j < r.len() {
        lemma_walk_right_only(r, j + 1);
        let rest = diff_walk(seq![], r, 0, j + 1);
        let w = diff_walk(seq![], r, 0, j);
        assert(w == seq![(DuplicateTextDiffLineKind::OnlyRight, -1, j)] + rest);
        assert forall|k: int| 0 <= k < w.len() implies (#[trigger] w[k]).0
            == DuplicateTextDiffLineKind::OnlyRight by {
            if k > 0 {
                assert(w[k] == rest[k - 1]);
            }
        }
    }
}

/// A text compared with itself shows each of its lines once, as equal; a
/// text compared with a missing side shows each of its lines once, as only
/// on its own side. (Up to the number of lines a diff shows.)
pub proof fn readable_diff_of_same_or_missing(
    text: Seq<char>,
    diff: Seq<DuplicateTextDiffLine>,
    truncated: bool,
)
    ensures
        readable_diff_holds(Some(text), Some(text), diff, truncated) ==> diff.len() == capped(
            crate::text::lines_of(text),
        ).len() && forall|k: int|
            0 <= k < diff.len() ==> (#[trigger] diff[k]).kind == DuplicateTextDiffLineKind::Equal,
        readable_diff_holds(Some(text), None, diff, truncated) ==> diff.len() == capped(
            crate::text::lines_of(text),
        ).len() && forall|k: int|
            0 <= k < diff.len() ==> (#[trigger] diff[k]).kind == DuplicateTextDiffLineKind::OnlyLeft,
        readable_diff_holds(None, Some(text), diff, truncated) ==> diff.len() == capped(
            crate::text::lines_of(text),
        ).len() && forall|k: int|
            0 <= k < diff.len() ==> (#[trigger] diff[k]).kind == DuplicateTextDiffLineKind::OnlyRight,
{
    let l = capped(crate::text::lines_of(text));
    let none: Seq<Seq<char>> = seq![];
    assert(capped(side_lines(None)) =~= none);
    lemma_walk_same(l, 0);
    lemma_walk_left_only(l, 0);
    lemma_walk_right_only(l, 0);
    if readable_diff_holds(Some(text), Some(text), diff, truncated) {
        let w = diff_walk(l, l, 0, 0);
        assert forall|k: int| 0 <= k < diff.len() implies (#[trigger] diff[k]).kind
            == DuplicateTextDiffLineKind::Equal by {
            assert(shows_step(diff[k], w[k], l, l));
        }
    }
    if readable_diff_holds(Some(text), None, diff, truncated) {
        let w = diff_walk(l, none, 0, 0);
        assert forall|k: int| 0 <= k < diff.len() implies (#[trigger] diff[k]).kind
            == DuplicateTextDiffLineKind::OnlyLeft by {
            assert(shows_step(diff[k], w[k], l, none));
        }
    }
    if readable_diff_holds(None, Some(text), diff, truncated) {
        let w = diff_walk(none, l, 0, 0);
        assert forall|k: int| 0 <= k < diff.len() implies (#[trigger] diff[k]).kind
            == DuplicateTextDiffLineKind::OnlyRight by {
            assert(shows_step(diff[k], w[k], none, l));
        }
    }
}

/// A line of a readable diff; indexes count from zero and are shown from one.
pub fn diff_line(
    kind: DuplicateTextDiffLineKind,
    left_index: Option<usize>,
    right_index: Option<usize>,
    left: Option<String>,
    right: Option<String>,
) -> (d: DuplicateTextDiffLine)
    requires
        left_index matches Some(i) ==> i < usize::MAX,
        right_index matches Some(j) ==> j < usize::MAX,
    ensures
        d.kind == kind,
        d.left_line_number == (match left_index {
            Some(i) => Some((i + 1) as usize),
            None => None,
        }),
        d.right_line_number == (match right_index {
            Some(j) => Some((j + 1) as usize),
            None => None,
        }),
        d.left == left,
        d.right == right,
{
    DuplicateTextDiffLine {
        kind,
        left_line_number: match left_index {
            Some(i) => Some(i + 1),
            None => None,
        },
        right_line_number: match right_index {
            Some(j) => Some(j + 1),
            None => None,
        },
        left,
        right,
    }
}

fn side_line_vec(text: Option<&str>) -> (r: (Vec<String>, bool))
    ensures
        views(r.0@) == capped(side_lines(
            match text {
                Some(t) => Some(t@),
                None => None,
            },
        )),
        r.1 == (side_lines(
            match text {
                Some(t) => Some(t@),
                None => None,
            },
        ).len() > MAX_TEXT_DIFF_LINES),
{
    match text {
        Some(t) => {
            let mut all = crate::text::lines(t);
            let long = all.len() > MAX_TEXT_DIFF_LINES;
            if long {
                proof {
                    assert(views(all@.subrange(0, MAX_TEXT_DIFF_LINES as int)) == views(all@).take(
                        MAX_TEXT_DIFF_LINES as int,
                    ));
                }
                all.truncate(MAX_TEXT_DIFF_LINES);
            }
            (all, long)
        },
        None => {
            let v: Vec<String> = Vec::new();
            assert(views(v@) == Seq::<Seq<char>>::empty());
            (v, false)
        },
    }
}

fn zero_row(m: usize) -> (row: Vec<usize>)
    requires
        m <= MAX_TEXT_DIFF_LINES,
    ensures
        row@.len() == m + 1,
        forall|b: int| 0 <= b <= m ==> row@[b] == 0,
{
    let mut row: Vec<usize> = Vec::new();
    let mut k: usize = 0;
    while k < m + 1
        invariant
            m <= MAX_TEXT_DIFF_LINES,
            k <= m + 1,
            row@.len() == k,
            forall|b: int| 0 <= b < k ==> row@[b] == 0,
        decreases m + 1 - k,
    {
        row.push(0);
        k += 1;
    }
    row
}

/// The table of common-subsequence lengths: `table[n - i][j] == lcs(l, r, i, j)`.
fn lcs_table(l: &Vec<String>, r: &Vec<String>) -> (table: Vec<Vec<usize>>)
    requires
        l.len() <= MAX_TEXT_DIFF_LINES,
        r.len() <= MAX_TEXT_DIFF_LINES,
    ensures
        table@.len() == l.len() + 1,
        forall|a: int| 0 <= a <= l.len() ==> #[trigger] table@[a]@.len() == r.len() + 1,
        forall|a: int, b: int|
            0 <= a <= l.len() && 0 <= b <= r.len() ==> #[trigger] table@[a]@[b] == lcs(
                views(l@),
                views(r@),
                l.len() - a,
                b,
            ),
{
    let n = l.len();
    let m = r.len();
    let ghost lv = views(l@);
    let ghost rv = views(r@);
    let mut table: Vec<Vec<usize>> = Vec::new();
    table.push(zero_row(m));
    let mut i = n;
    while i > 0
        invariant
            i <= n,
            n == l.len(),
            m == r.len(),
            n <= MAX_TEXT_DIFF_LINES,
            m <= MAX_TEXT_DIFF_LINES,
            lv == views(l@),
            rv == views(r@),
            table@.len() == n - i + 1,
            forall|a: int| 0 <= a < table@.len() ==> #[trigger] table@[a]@.len() == m + 1,
            forall|a: int, b: int|
                0 <= a < table@.len() && 0 <= b <= m ==> #[trigger] table@[a]@[b] == lcs(
                    lv,
                    rv,
                    n - a,
                    b,
                ),
        decreases i,
    {
        i -= 1;
        let mut row = zero_row(m);
        let prev_index = n - (i + 1);
        let mut j = m;
        while j > 0
            invariant
                i < n,
                j <= m,
                n == l.len(),
                m == r.len(),
                n <= MAX_TEXT_DIFF_LINES,
                lv == views(l@),
                rv == views(r@),
                prev_index == n - (i + 1),
                table@.len() == n - i,
                row@.len() == m + 1,
                forall|a: int| 0 <= a < table@.len() ==> #[trigger] table@[a]@.len() == m + 1,
                forall|a: int, b: int|
                    0 <= a < table@.len() && 0 <= b <= m ==> #[trigger] table@[a]@[b] == lcs(
                        lv,
                        rv,
                        n - a,
                        b,
                    ),
                forall|b: int| j <= b <= m ==> #[trigger] row@[b] == lcs(lv, rv, i as int, b),
            decreases j,
        {
            j -= 1;
            let prev = &table[prev_index];
            assert(prev@[j as int] == lcs(lv, rv, i + 1, j as int));
            assert(prev@[j + 1] == lcs(lv, rv, i + 1, j + 1));
            assert(row@[j + 1] == lcs(lv, rv, i as int, j + 1));
            let value: usize;
            if crate::text::str_eq(l[i].as_str(), r[j].as_str()) {
                proof {
                    lemma_lcs_bound(lv, rv, i + 1, j + 1);
                }
                value = 1 + prev[j + 1];
            } else {
                let down = prev[j];
                let across = row[j + 1];
                value = if down >= across {
                    down
                } else {
                    across
                };
            }
            row.set(j, value);
        }
        table.push(row);
    }
    table
}

/// A readable line diff of two optional texts, at most
/// `MAX_TEXT_DIFF_LINES` lines of each side, and whether either side was cut.
pub fn readable_text_diff(left: Option<&str>, right: Option<&str>) -> (r: (
    Vec<DuplicateTextDiffLine>,
    bool,
))
    ensures
        readable_diff_holds(
            match left {
                Some(t) => Some(t@),
                None => None,
            },
            match right {
                Some(t) => Some(t@),
                None => None,
            },
            r.0@,
            r.1,
        ),
{
    let (l, left_long) = side_line_vec(left);
    let (rl, right_long) = side_line_vec(right);
    let ghost lv = views(l@);
    let ghost rv = views(rl@);
    let n = l.len();
    let m = rl.len();
    let table = lcs_table(&l, &rl);
    let ghost w = diff_walk(lv, rv, 0, 0);
    let mut out: Vec<DuplicateTextDiffLine> = Vec::new();
    let mut i: usize = 0;
    let mut j: usize = 0;
    while i < n || j < m
        invariant
            i <= n,
            j <= m,
            n == l.len(),
            m == rl.len(),
            n <= MAX_TEXT_DIFF_LINES,
            m <= MAX_TEXT_DIFF_LINES,
            lv == views(l@),
            rv == views(rl@),
            w == diff_walk(lv, rv, 0, 0),
            table@.len() == n + 1,
            forall|a: int| 0 <= a <= n ==> #[trigger] table@[a]@.len() == m + 1,
            forall|a: int, b: int|
                0 <= a <= n && 0 <= b <= m ==> #[trigger] table@[a]@[b] == lcs(lv, rv, n - a, b),
            out@.len() <= w.len(),
            w.skip(out@.len() as int) == diff_walk(lv, rv, i as int, j as int),
            forall|k: int| 0 <= k < out@.len() ==> shows_step(#[trigger] out@[k], w[k], lv, rv),
        decreases (n - i) + (m - j),
    {
        let ghost before: int = out@.len() as int;
        let ghost rest = diff_walk(lv, rv, i as int, j as int);
        let both = i < n && j < m;
        let same = both && crate::text::str_eq(l[i].as_str(), rl[j].as_str());
        let mut tie = false;
        let mut left_first = false;
        if i < n && j < m {
            let down = table[n - (i + 1)][j];
            let across = table[n - i][j + 1];
            assert(down == lcs(lv, rv, i + 1, j as int));
            assert(across == lcs(lv, rv, i as int, j + 1));
            tie = down == across;
            left_first = down >= across;
        }
        if same {
            out.push(
                diff_line(
                    DuplicateTextDiffLineKind::Equal,
                    Some(i),
                    Some(j),
                    Some(l[i].clone()),
                    Some(rl[j].clone()),
                ),
            );
            i += 1;
            j += 1;
        } else if both && tie {
            out.push(
                diff_line(
                    DuplicateTextDiffLineKind::Modified,
                    Some(i),
                    Some(j),
                    Some(l[i].clone()),
                    Some(rl[j].clone()),
                ),
            );
            i += 1;
            j += 1;
        } else if i < n && (j == m || left_first) {
            out.push(
                diff_line(
                    DuplicateTextDiffLineKind::OnlyLeft,
                    Some(i),
                    None,
                    Some(l[i].clone()),
                    None,
                ),
            );
            i += 1;
        } else {
            out.push(
                diff_line(
                    DuplicateTextDiffLineKind::OnlyRight,
                    None,
                    Some(j),
                    None,
                    Some(rl[j].clone()),
                ),
            );
            j += 1;
        }
        proof {
            assert(rest.len() > 0);
            assert(w[before] == rest[0]);
            assert(w.skip(before + 1 as int) == rest.drop_first());
        }
    }
    assert(diff_walk(lv, rv, n as int, m as int) == Seq::<DiffStep>::empty());
    (out, left_long || right_long)
}

/// The left line numbers of a diff, in order.
pub open spec fn left_numbers(diff: Seq<DuplicateTextDiffLine>) -> Seq<usize>
    decreases diff.len(),
{
    if diff.len() == 0 {
        seq![]
    } else {
        (match diff[0].left_line_number {
            Some(n) => seq![n],
            None => seq![],
        }) + left_numbers(diff.drop_first())
    }
}

/// The right line numbers of a diff, in order.
pub open spec fn right_numbers(diff: Seq<DuplicateTextDiffLine>) -> Seq<usize>
    decreases diff.len(),
{
    if diff.len() == 0 {
        seq![]
    } else {
        (match diff[0].right_line_number {
            Some(n) => seq![n],
            None => seq![],
        }) + right_numbers(diff.drop_first())
    }
}

/// The numbers `from + 1 ..= to`, in order.
pub open spec fn numbers_between(from: int, to: int) -> Seq<usize> {
    Seq::new((to - from) as nat, |k: int| (from + k + 1) as usize)
}

proof fn lemma_walk_covers(
    diff: Seq<DuplicateTextDiffLine>,
    l: Seq<Seq<char>>,
    r: Seq<Seq<char>>,
    i: int,
    j: int,
)
    requires
        0 <= i <= l.len() <= MAX_TEXT_DIFF_LINES,
        0 <= j <= r.len() <= MAX_TEXT_DIFF_LINES,
        diff.len() == diff_walk(l, r, i, j).len(),
        forall|k: int|
            0 <= k < diff.len() ==> shows_step(#[trigger] diff[k], diff_walk(l, r, i, j)[k], l, r),
    ensures
        left_numbers(diff) == numbers_between(i, l.len() as int),
        right_numbers(diff) == numbers_between(j, r.len() as int),
    decreases (l.len() - i) + (r.len() - j),
{
    let w = diff_walk(l, r, i, j);
    if i == l.len() && j == r.len() {
        assert(left_numbers(diff) =~= numbers_between(i, l.len() as int));
        assert(right_numbers(diff) =~= numbers_between(j, r.len() as int));
    } else {
        let e = w[0];
        let (ni, nj) = if e.1 >= 0 && e.2 >= 0 {
            (i + 1, j + 1)
        } else if e.1 >= 0 {
            (i + 1, j)
        } else {
            (i, j + 1)
        };
        assert(w.drop_first() == diff_walk(l, r, ni, nj));
        assert forall|k: int| 0 <= k < diff.drop_first().len() implies shows_step(
            #[trigger] diff.drop_first()[k],
            diff_walk(l, r, ni, nj)[k],
            l,
            r,
        ) by {
            assert(diff.drop_first()[k] == diff[k + 1]);
            assert(shows_step(diff[k + 1], w[k + 1], l, r));
        }
        lemma_walk_covers(diff.drop_first(), l, r, ni, nj);
        assert(shows_step(diff[0], w[0], l, r));
        assert(left_numbers(diff) =~= numbers_between(i, l.len() as int));
        assert(right_numbers(diff) =~= numbers_between(j, r.len() as int));
    }
}

/// A readable diff lists every shown line of both sides exactly once and in
/// order: its left line numbers are `1..=n` for the `n` shown left lines, its
/// right line numbers `1..=m` for the `m` shown right lines.
pub proof fn readable_diff_lists_every_line(
    left: Option<Seq<char>>,
    right: Option<Seq<char>>,
    diff: Seq<DuplicateTextDiffLine>,
    truncated: bool,
)
    requires
        readable_diff_holds(left, right, diff, truncated),
    ensures
        left_numbers(diff) == numbers_between(0, capped(side_lines(left)).len() as int),
        right_numbers(diff) == numbers_between(0, capped(side_lines(right)).len() as int),
{
    lemma_walk_covers(diff, capped(side_lines(left)), capped(side_lines(right)), 0, 0);
}

/// Whether bytes hold text: no NUL byte and valid UTF-8.
pub open spec fn is_text_content(b: Seq<u8>) -> bool {
    !b.contains(0u8) && vstd::utf8::valid_utf8(b)
}

/// `std::str::from_utf8`: the text of the bytes when they are valid UTF-8,
/// decoded character by character, and `None` otherwise.
#[verifier::external_body]
pub(crate) fn utf8_text(bytes: &[u8]) -> (r: Option<String>)
    ensures
        r is Some <==> vstd::utf8::valid_utf8(bytes@),
        r matches Some(s) ==> s@ == vstd::utf8::decode_utf8(bytes@),
{
    match std::str::from_utf8(bytes) {
        Ok(text) => Some(text.to_owned()),
        Err(_) => None,
    }
}

fn contains_zero(b: &[u8]) -> (r: bool)
    ensures
        r == b@.contains(0u8),
{
    let mut i: usize = 0;
    while i < b.len()
        invariant
            i <= b.len(),
            forall|k: int| 0 <= k < i ==> b@[k] != 0u8,
        decreases b.len() - i,
    {
        if b[i] == 0 {
            assert(b@[i as int] == 0u8);
            return true;
        }
        i += 1;
    }
    false
}

/// Whether bytes hold text: no NUL byte and valid UTF-8.
pub fn text_content(bytes: &[u8]) -> (r: bool)
    ensures
        r == is_text_content(bytes@),
{
    !contains_zero(bytes) && utf8_text(bytes).is_some()
}

/// The content of one file or symbolic link as duplicate review sees it.
#[derive(Debug, Clone, PartialEq, Eq)]
pub struct EffectiveFile {
    pub bytes: Vec<u8>,
    pub kind: DuplicateFileKind,
    pub node_kind: DuplicateFileNodeKind,
}

impl EffectiveFile {
    /// The kind agrees with the content.
    pub open spec fn wf(&self) -> bool {
        (self.kind == DuplicateFileKind::Text) == is_text_content(self.bytes@)
    }

    /// Two effective files are the same: same bytes, kind and node kind.
    pub open spec fn same(&self, other: &EffectiveFile) -> bool {
        self.bytes@ == other.bytes@ && self.kind == other.kind && self.node_kind
            == other.node_kind
    }

    /// The effective file of some content, its kind taken from the bytes.
    pub fn new(bytes: Vec<u8>, node_kind: DuplicateFileNodeKind) -> (f: EffectiveFile)
        ensures
            f.wf(),
            f.bytes@ == bytes@,
            f.node_kind == node_kind,
    {
        let kind = if text_content(bytes.as_slice()) {
            DuplicateFileKind::Text
        } else {
            DuplicateFileKind::Binary
        };
        EffectiveFile { bytes, kind, node_kind }
    }

    /// Whether two effective files are the same.
    pub fn equals(&self, other: &EffectiveFile) -> (r: bool)
        ensures
            r == self.same(other),
    {
        let same_kind = match (self.kind, other.kind) {
            (DuplicateFileKind::Text, DuplicateFileKind::Text) => true,
            (DuplicateFileKind::Binary, DuplicateFileKind::Binary) => true,
            _ => false,
        };
        let same_node = match (self.node_kind, other.node_kind) {
            (DuplicateFileNodeKind::File, DuplicateFileNodeKind::File) => true,
            (DuplicateFileNodeKind::SymbolicLink, DuplicateFileNodeKind::SymbolicLink) => true,
            _ => false,
        };
        if !same_kind || !same_node || self.bytes.len() != other.bytes.len() {
            return false;
        }
        let mut i: usize = 0;
        while i < self.bytes.len()
            invariant
                i <= self.bytes.len() == other.bytes.len(),
                forall|k: int| 0 <= k < i ==> self.bytes@[k] == other.bytes@[k],
            decreases self.bytes.len() - i,
        {
            if self.bytes[i] != other.bytes[i] {
                return false;
            }
            i += 1;
        }
        assert(self.bytes@ =~= other.bytes@);
        true
    }
}

/// One path of a file tree and its content.
#[derive(Debug, Clone, PartialEq, Eq)]
pub struct TreeFile {
    pub path: String,
    pub file: EffectiveFile,
}

/// The files of a Skill directory by relative path, in path order.
#[derive(Debug, Clone, PartialEq, Eq)]
pub struct FileTree {
    pub entries: Vec<TreeFile>,
}

impl FileTree {
    /// The paths of the tree, in order.
    pub open spec fn keys(&self) -> Seq<Seq<char>> {
        self.entries@.map_values(|e: TreeFile| e.path@)
    }

    /// Paths strictly increase and every file's kind agrees with its bytes.
    pub open spec fn wf(&self) -> bool {
        &&& forall|i: int, j: int|
            0 <= i < j < self.entries@.len() ==> crate::text::text_lt(
                #[trigger] self.entries@[i].path@,
                #[trigger] self.entries@[j].path@,
            )
        &&& forall|i: int| 0 <= i < self.entries@.len() ==> (#[trigger] self.entries@[i]).file.wf()
    }

    /// An empty tree.
    pub fn new() -> (t: FileTree)
        ensures
            t.wf(),
            t.entries@.len() == 0,
    {
        FileTree { entries: Vec::new() }
    }

    /// Puts `file` at `path`, replacing what was there (`BTreeMap::insert`).
    pub fn insert(&mut self, path: String, file: EffectiveFile)
        requires
            old(self).wf(),
            file.wf(),
        ensures
            final(self).wf(),
            final(self).keys().to_set() == old(self).keys().to_set().insert(path@),
            forall|i: int|
                0 <= i < final(self).entries@.len() && final(self).entries@[i].path@ == path@
                    ==> #[trigger] final(self).entries@[i].file == file,
            forall|i: int|
                0 <= i < final(self).entries@.len() && final(self).entries@[i].path@ != path@
                    ==> old(self).entries@.contains(#[trigger] final(self).entries@[i]),
    {
        let mut p: usize = 0;
        while p < self.entries.len() && !(crate::text::str_le(path.as_str(), self.entries[p].path.as_str()))
            invariant
                p <= self.entries@.len(),
                self.wf(),
                *self == *old(self),
                forall|k: int| 0 <= k < p ==> crate::text::text_lt(
                    #[trigger] self.entries@[k].path@,
                    path@,
                ),
            decreases self.entries@.len() - p,
        {
            proof {
                let kp = self.entries@[p as int].path@;
                crate::text::lemma_text_le_total(path@, kp);
                if kp == path@ {
                    crate::text::lemma_text_le_refl(kp);
                }
            }
            p += 1;
        }
        let ghost old_entries = self.entries@;
        let replace = p < self.entries.len() && crate::text::str_eq(
            self.entries[p].path.as_str(),
            path.as_str(),
        );
        let ghost pv = path@;
        let entry = TreeFile { path, file };
        if replace {
            self.entries.set(p, entry);
            proof {
                assert(self.entries@ == old_entries.update(p as int, entry));
                assert forall|i: int, j: int| 0 <= i < j < self.entries@.len() implies crate::text::text_lt(
                    #[trigger] self.entries@[i].path@,
                    #[trigger] self.entries@[j].path@,
                ) by {
                    assert(crate::text::text_lt(old_entries[i].path@, old_entries[j].path@));
                }
                assert forall|i: int| 0 <= i < self.entries@.len() && self.entries@[i].path@ != pv implies old_entries.contains(#[trigger] self.entries@[i]) by {
                    assert(self.entries@[i] == old_entries[i]);
                }
                assert forall|i: int| 0 <= i < self.entries@.len() && self.entries@[i].path@ == pv implies #[trigger] self.entries@[i].file == entry.file by {
                    if i < p {
                        assert(crate::text::text_lt(self.entries@[i].path@, self.entries@[p as int].path@));
                    } else if i > p {
                        assert(crate::text::text_lt(self.entries@[p as int].path@, self.entries@[i].path@));
                    }
                }
                assert(self.keys().to_set() =~= old_entries.map_values(|e: TreeFile| e.path@).to_set().insert(pv)) by {
                    assert forall|q: Seq<char>| self.keys().to_set().contains(q) implies old_entries.map_values(|e: TreeFile| e.path@).to_set().insert(pv).contains(q) by {
                        let i = choose|i: int| 0 <= i < self.keys().len() && self.keys()[i] == q;
                        if i != p {
                            assert(old_entries.map_values(|e: TreeFile| e.path@)[i] == q);
                        }
                    }
                    assert forall|q: Seq<char>| old_entries.map_values(|e: TreeFile| e.path@).to_set().insert(pv).contains(q) implies self.keys().to_set().contains(q) by {
                        if q == pv {
                            assert(self.keys()[p as int] == q);
                        } else {
                            let okeys = old_entries.map_values(|e: TreeFile| e.path@);
                            let i = choose|i: int| 0 <= i < okeys.len() && #[trigger] okeys[i] == q;
                            assert(i != p);
                            assert(self.keys()[i] == q);
                        }
                    }
                }
            }
        } else {
            proof {
                if p < old_entries.len() {
                    let kp = old_entries[p as int].path@;
                    crate::text::lemma_text_le_total(pv, kp);
                }
            }
            self.entries.insert(p, entry);
            proof {
                assert(self.entries@ == old_entries.insert(p as int, entry));
                assert forall|i: int, j: int| 0 <= i < j < self.entries@.len() implies crate::text::text_lt(
                    #[trigger] self.entries@[i].path@,
                    #[trigger] self.entries@[j].path@,
                ) by {
                    if j < p {
                        assert(crate::text::text_lt(old_entries[i].path@, old_entries[j].path@));
                    } else if j == p {
                        assert(crate::text::text_lt(old_entries[i].path@, pv));
                    } else if i < p {
                        assert(crate::text::text_lt(old_entries[i].path@, pv));
                        assert(crate::text::text_lt(old_entries[p as int].path@, old_entries[j - 1].path@) || p == j - 1);
                        assert(crate::text::text_lt(pv, old_entries[p as int].path@));
                        crate::text::lemma_text_lt_trans(old_entries[i].path@, pv, old_entries[p as int].path@);
                        if p < j - 1 {
                            crate::text::lemma_text_lt_trans(old_entries[i].path@, old_entries[p as int].path@, old_entries[j - 1].path@);
                        }
                    } else if i == p {
                        assert(crate::text::text_lt(pv, old_entries[p as int].path@));
                        if p < j - 1 {
                            assert(crate::text::text_lt(old_entries[p as int].path@, old_entries[j - 1].path@));
                            crate::text::lemma_text_lt_trans(pv, old_entries[p as int].path@, old_entries[j - 1].path@);
                        }
                    } else {
                        assert(crate::text::text_lt(old_entries[i - 1].path@, old_entries[j - 1].path@));
                    }
                }
                assert forall|i: int| 0 <= i < self.entries@.len() && self.entries@[i].path@ == pv implies #[trigger] self.entries@[i].file == entry.file by {
                    if i < p {
                        assert(crate::text::text_lt(self.entries@[i].path@, self.entries@[p as int].path@));
                    } else if i > p {
                        assert(crate::text::text_lt(self.entries@[p as int].path@, self.entries@[i].path@));
                    }
                }
                assert forall|i: int| 0 <= i < self.entries@.len() && self.entries@[i].path@ != pv implies old_entries.contains(#[trigger] self.entries@[i]) by {
                    if i < p {
                        assert(self.entries@[i] == old_entries[i]);
                    } else {
                        assert(self.entries@[i] == old_entries[i - 1]);
                    }
                }
                assert(self.keys().to_set() =~= old_entries.map_values(|e: TreeFile| e.path@).to_set().insert(pv)) by {
                    let ok = old_entries.map_values(|e: TreeFile| e.path@);
                    assert forall|q: Seq<char>| self.keys().to_set().contains(q) implies ok.to_set().insert(pv).contains(q) by {
                        let i = choose|i: int| 0 <= i < self.keys().len() && self.keys()[i] == q;
                        if i < p {
                            assert(ok[i] == q);
                        } else if i > p {
                            assert(ok[i - 1] == q);
                        }
                    }
                    assert forall|q: Seq<char>| ok.to_set().insert(pv).contains(q) implies self.keys().to_set().contains(q) by {
                        if q == pv {
                            assert(self.keys()[p as int] == q);
                        } else {
                            let i = choose|i: int| 0 <= i < ok.len() && ok[i] == q;
                            if i < p {
                                assert(self.keys()[i] == q);
                            } else {
                                assert(self.keys()[i + 1] == q);
                            }
                        }
                    }
                }
            }
        }
    }
}

/// The paths of two trees merged in order: each step is a path with its
/// index in the left tree and in the right tree (`-1` where it is absent).
pub open spec fn merge_paths(
    lk: Seq<Seq<char>>,
    rk: Seq<Seq<char>>,
    i: int,
    j: int,
) -> Seq<(Seq<char>, int, int)>
    decreases (lk.len() - i) + (rk.len() - j),
{
    if i < 0 || j < 0 || i > lk.len() || j > rk.len() || (i == lk.len() && j == rk.len()) {
        seq![]
    } else if i == lk.len() {
        seq![(rk[j], -1, j)] + merge_paths(lk, rk, i, j + 1)
    } else if j == rk.len() {
        seq![(lk[i], i, -1)] + merge_paths(lk, rk, i + 1, j)
    } else if lk[i] == rk[j] {
        seq![(lk[i], i, j)] + merge_paths(lk, rk, i + 1, j + 1)
    } else if crate::text::text_le(lk[i], rk[j]) {
        seq![(lk[i], i, -1)] + merge_paths(lk, rk, i + 1, j)
    } else {
        seq![(rk[j], -1, j)] + merge_paths(lk, rk, i, j + 1)
    }
}

/// The file at index `i` of a tree, if `i` is an index.
pub open spec fn file_at(t: FileTree, i: int) -> Option<EffectiveFile> {
    if 0 <= i < t.entries@.len() {
        Some(t.entries@[i].file)
    } else {
        None
    }
}

/// The decoded text of an optional file.
pub open spec fn file_text(f: Option<EffectiveFile>) -> Option<Seq<char>> {
    match f {
        Some(x) => Some(vstd::utf8::decode_utf8(x.bytes@)),
        None => None,
    }
}

/// Whether an optional file is absent or text.
pub open spec fn absent_or_text(f: Option<EffectiveFile>) -> bool {
    match f {
        Some(x) => x.kind == DuplicateFileKind::Text,
        None => true,
    }
}

/// The status of a path given its two sides.
pub open spec fn difference_status(
    lf: Option<EffectiveFile>,
    rf: Option<EffectiveFile>,
) -> DuplicateFileDifferenceStatus {
    match (lf, rf) {
        (Some(a), Some(b)) => if a.same(&b) {
            DuplicateFileDifferenceStatus::Identical
        } else {
            DuplicateFileDifferenceStatus::Modified
        },
        (Some(_), None) => DuplicateFileDifferenceStatus::OnlyLeft,
        _ => DuplicateFileDifferenceStatus::OnlyRight,
    }
}

/// Whether an optional fingerprint is that of an optional file.
pub open spec fn fingerprint_of(fp: Option<String>, f: Option<EffectiveFile>) -> bool {
    match (fp, f) {
        (Some(x), Some(g)) => x@ == fingerprint_spec(g.bytes@),
        (None, None) => true,
        _ => false,
    }
}

/// The difference `d` describes path `path` with left side `lf` and right side `rf`.
pub open spec fn difference_holds(
    d: DuplicateFileDifference,
    path: Seq<char>,
    lf: Option<EffectiveFile>,
    rf: Option<EffectiveFile>,
) -> bool {
    &&& d.relative_path@ == path
    &&& d.status == difference_status(lf, rf)
    &&& d.kind == (if absent_or_text(lf) && absent_or_text(rf) {
        DuplicateFileKind::Text
    } else {
        DuplicateFileKind::Binary
    })
    &&& d.left_node_kind == (match lf {
        Some(f) => Some(f.node_kind),
        None => None,
    })
    &&& d.right_node_kind == (match rf {
        Some(f) => Some(f.node_kind),
        None => None,
    })
    &&& d.left_size == (match lf {
        Some(f) => Some(f.bytes@.len() as u64),
        None => None,
    })
    &&& d.right_size == (match rf {
        Some(f) => Some(f.bytes@.len() as u64),
        None => None,
    })
    &&& fingerprint_of(d.left_fingerprint, lf)
    &&& fingerprint_of(d.right_fingerprint, rf)
    &&& if d.kind == DuplicateFileKind::Text && d.status != DuplicateFileDifferenceStatus::Identical {
        d.text_diff matches Some(diff) && readable_diff_holds(
            file_text(lf),
            file_text(rf),
            diff@,
            d.text_diff_truncated,
        )
    } else {
        d.text_diff is None && !d.text_diff_truncated
    }
}

fn optional_fingerprint(f: Option<&EffectiveFile>) -> (r: Option<String>)
    ensures
        fingerprint_of(
            r,
            match f {
                Some(x) => Some(*x),
                None => None,
            },
        ),
{
    match f {
        Some(x) => Some(stable_fingerprint(x.bytes.as_slice())),
        None => None,
    }
}

fn decoded_text(f: Option<&EffectiveFile>) -> (r: Option<String>)
    requires
        f matches Some(x) ==> x.wf() && x.kind == DuplicateFileKind::Text,
    ensures
        (match r {
            Some(t) => Some(t@),
            None => None,
        }) == file_text(
            match f {
                Some(x) => Some(*x),
                None => None,
            },
        ),
{
    match f {
        Some(x) => {
            let t = utf8_text(x.bytes.as_slice());
            match t {
                Some(text) => Some(text),
                None => {
                    assert(false);
                    None
                },
            }
        },
        None => None,
    }
}

fn is_text_file(f: Option<&EffectiveFile>) -> (r: bool)
    ensures
        r == absent_or_text(
            match f {
                Some(x) => Some(*x),
                None => None,
            },
        ),
{
    match f {
        Some(x) => match x.kind {
            DuplicateFileKind::Text => true,
            DuplicateFileKind::Binary => false,
        },
        None => true,
    }
}

/// How one path differs between two trees.
pub fn file_difference(path: &String, lf: Option<&EffectiveFile>, rf: Option<&EffectiveFile>) -> (d:
    DuplicateFileDifference)
    requires
        lf is Some || rf is Some,
        lf matches Some(x) ==> x.wf(),
        rf matches Some(x) ==> x.wf(),
    ensures
        difference_holds(
            d,
            path@,
            match lf {
                Some(x) => Some(*x),
                None => None,
            },
            match rf {
                Some(x) => Some(*x),
                None => None,
            },
        ),
{
    let status = match (lf, rf) {
        (Some(a), Some(b)) => if a.equals(b) {
            DuplicateFileDifferenceStatus::Identical
        } else {
            DuplicateFileDifferenceStatus::Modified
        },
        (Some(_), None) => DuplicateFileDifferenceStatus::OnlyLeft,
        _ => DuplicateFileDifferenceStatus::OnlyRight,
    };
    let text = is_text_file(lf) && is_text_file(rf);
    let kind = if text {
        DuplicateFileKind::Text
    } else {
        DuplicateFileKind::Binary
    };
    let identical = match status {
        DuplicateFileDifferenceStatus::Identical => true,
        _ => false,
    };
    let (text_diff, text_diff_truncated) = if text && !identical {
        let left_text = decoded_text(lf);
        let right_text = decoded_text(rf);
        let left_ref: Option<&str> = match &left_text {
            Some(t) => Some(t.as_str()),
            None => None,
        };
        let right_ref: Option<&str> = match &right_text {
            Some(t) => Some(t.as_str()),
            None => None,
        };
        let (diff, truncated) = readable_text_diff(left_ref, right_ref);
        (Some(diff), truncated)
    } else {
        (None, false)
    };
    DuplicateFileDifference {
        relative_path: path.clone(),
        status,
        kind,
        left_node_kind: match lf {
            Some(x) => Some(x.node_kind),
            None => None,
        },
        right_node_kind: match rf {
            Some(x) => Some(x.node_kind),
            None => None,
        },
        left_size: match lf {
            Some(x) => Some(x.bytes.len() as u64),
            None => None,
        },
        right_size: match rf {
            Some(x) => Some(x.bytes.len() as u64),
            None => None,
        },
        left_fingerprint: optional_fingerprint(lf),
        right_fingerprint: optional_fingerprint(rf),
        text_diff,
        text_diff_truncated,
    }
}

/// Compares two file trees path by path, in path order.
pub fn compare_files(left: &FileTree, right: &FileTree) -> (r: Vec<DuplicateFileDifference>)
    requires
        left.wf(),
        right.wf(),
    ensures
        r@.len() == merge_paths(left.keys(), right.keys(), 0, 0).len(),
        forall|k: int|
            0 <= k < r@.len() ==> {
                let step = merge_paths(left.keys(), right.keys(), 0, 0)[k];
                difference_holds(
                    #[trigger] r@[k],
                    step.0,
                    file_at(*left, step.1),
                    file_at(*right, step.2),
                )
            },
{
    let ghost lk = left.keys();
    let ghost rk = right.keys();
    let ghost m = merge_paths(lk, rk, 0, 0);
    let n = left.entries.len();
    let mm = right.entries.len();
    let mut out: Vec<DuplicateFileDifference> = Vec::new();
    let mut i: usize = 0;
    let mut j: usize = 0;
    while i < n || j < mm
        invariant
            i <= n == left.entries@.len(),
            j <= mm == right.entries@.len(),
            left.wf(),
            right.wf(),
            lk == left.keys(),
            rk == right.keys(),
            m == merge_paths(lk, rk, 0, 0),
            out@.len() <= m.len(),
            m.skip(out@.len() as int) == merge_paths(lk, rk, i as int, j as int),
            forall|k: int|
                0 <= k < out@.len() ==> {
                    let step = m[k];
                    difference_holds(
                        #[trigger] out@[k],
                        step.0,
                        file_at(*left, step.1),
                        file_at(*right, step.2),
                    )
                },
        decreases (n - i) + (mm - j),
    {
        let ghost before: int = out@.len() as int;
        let ghost rest = merge_paths(lk, rk, i as int, j as int);
        if i == n {
            let e = &right.entries[j];
            out.push(file_difference(&e.path, None, Some(&e.file)));
            j += 1;
        } else if j == mm {
            let e = &left.entries[i];
            out.push(file_difference(&e.path, Some(&e.file), None));
            i += 1;
        } else {
            let le = &left.entries[i];
            let re = &right.entries[j];
            assert(lk[i as int] == le.path@);
            assert(rk[j as int] == re.path@);
            if crate::text::str_eq(le.path.as_str(), re.path.as_str()) {
                out.push(file_difference(&le.path, Some(&le.file), Some(&re.file)));
                i += 1;
                j += 1;
            } else if crate::text::str_le(le.path.as_str(), re.path.as_str()) {
                out.push(file_difference(&le.path, Some(&le.file), None));
                i += 1;
            } else {
                out.push(file_difference(&re.path, None, Some(&re.file)));
                j += 1;
            }
        }
        proof {
            assert(rest.len() > 0);
            assert(m[before] == rest[0]);
            assert(m.skip(before + 1) == rest.drop_first());
        }
    }
    out
}

/// Whether two file trees hold the same paths with the same files.
pub open spec fn same_tree(a: FileTree, b: FileTree) -> bool {
    &&& a.entries@.len() == b.entries@.len()
    &&& forall|i: int|
        0 <= i < a.entries@.len() ==> (#[trigger] a.entries@[i]).path@ == b.entries@[i].path@
            && a.entries@[i].file.same(&b.entries@[i].file)
}

/// Whether two file trees hold the same paths with the same files.
pub fn trees_equal(a: &FileTree, b: &FileTree) -> (r: bool)
    ensures
        r == same_tree(*a, *b),
{
    if a.entries.len() != b.entries.len() {
        return false;
    }
    let mut i: usize = 0;
    while i < a.entries.len()
        invariant
            i <= a.entries@.len() == b.entries@.len(),
            forall|k: int|
                0 <= k < i ==> (#[trigger] a.entries@[k]).path@ == b.entries@[k].path@
                    && a.entries@[k].file.same(&b.entries@[k].file),
        decreases a.entries@.len() - i,
    {
        if !crate::text::str_eq(a.entries[i].path.as_str(), b.entries[i].path.as_str())
            || !a.entries[i].file.equals(&b.entries[i].file) {
            return false;
        }
        i += 1;
    }
    true
}

/// The content similarity of two instances: identical trees, or the share
/// `2 * common / total` of character bigrams their documents have in common.
#[derive(Debug, Clone, Copy, PartialEq, Eq)]
pub struct SimilarityScore {
    pub exact: bool,
    pub common: usize,
    pub total: usize,
}

/// Whether a similarity reaches the duplicate threshold of 0.82, that is
/// `2 * common / total >= 41 / 50`; identical trees always do, and no bigrams
/// at all score zero.
pub open spec fn meets_threshold(score: SimilarityScore) -> bool {
    score.exact || (score.total > 0 && 100 * score.common >= 41 * score.total)
}

/// Whether a similarity reaches the duplicate threshold.
pub fn similar_enough(score: SimilarityScore) -> (r: bool)
    ensures
        r == meets_threshold(score),
{
    score.exact || (score.total > 0 && 100 * (score.common as u128) >= 41 * (score.total as u128))
}

/// The classification of a pair: its status and the rules it hit.
pub open spec fn pair_status(exact: bool, same_name: bool, similar: bool) -> DuplicateCheckStatus {
    if exact {
        DuplicateCheckStatus::Exact
    } else if same_name && !similar {
        DuplicateCheckStatus::NameConflict
    } else if same_name || similar {
        DuplicateCheckStatus::Suspected
    } else {
        DuplicateCheckStatus::Unique
    }
}

/// The rules a pair hits, in rule order.
pub open spec fn pair_hit_rules(exact: bool, same_name: bool, similar: bool) -> Seq<
    DuplicateHitRule,
> {
    (if exact {
        seq![DuplicateHitRule::ExactContent]
    } else {
        seq![]
    }) + (if same_name {
        seq![DuplicateHitRule::NormalizedName]
    } else {
        seq![]
    }) + (if similar && !exact {
        seq![DuplicateHitRule::ContentSimilarity]
    } else {
        seq![]
    })
}

/// A pair is classified by its three findings: identical trees make it an
/// exact duplicate; otherwise a similarity at or above 0.82
/// (`100 * common >= 41 * total`, with some bigrams) makes it suspected
/// whatever its names; the same normalized name without that similarity
/// makes it a name conflict; and only a pair with none of the three is not
/// a duplicate. The rules it hit are exactly the findings that hold, the
/// similarity rule only for a pair that is not identical.
pub proof fn classification_follows_findings(exact: bool, same_name: bool, score: SimilarityScore)
    requires
        score.exact == exact,
    ensures
        ({
            let similar = exact || (score.total > 0 && 100 * score.common >= 41 * score.total);
            let status = pair_status(exact, same_name, meets_threshold(score));
            let rules = pair_hit_rules(exact, same_name, meets_threshold(score));
            &&& meets_threshold(score) == similar
            &&& (status == DuplicateCheckStatus::Exact) == exact
            &&& !exact && similar ==> status == DuplicateCheckStatus::Suspected
            &&& !exact && same_name ==> status != DuplicateCheckStatus::Unique
            &&& (status == DuplicateCheckStatus::NameConflict) == (!exact && same_name && !similar)
            &&& (status == DuplicateCheckStatus::Unique) == (!exact && !same_name && !similar)
            &&& rules.contains(DuplicateHitRule::ExactContent) == exact
            &&& rules.contains(DuplicateHitRule::NormalizedName) == same_name
            &&& rules.contains(DuplicateHitRule::ContentSimilarity) == (similar && !exact)
            &&& (status == DuplicateCheckStatus::Unique) == (rules.len() == 0)
        }),
{
    let rules = pair_hit_rules(exact, same_name, meets_threshold(score));
    let a: Seq<DuplicateHitRule> = if exact {
        seq![DuplicateHitRule::ExactContent]
    } else {
        seq![]
    };
    let b: Seq<DuplicateHitRule> = if same_name {
        seq![DuplicateHitRule::NormalizedName]
    } else {
        seq![]
    };
    let c: Seq<DuplicateHitRule> = if meets_threshold(score) && !exact {
        seq![DuplicateHitRule::ContentSimilarity]
    } else {
        seq![]
    };
    assert(rules == a + b + c);
    if exact {
        assert(rules[0] == DuplicateHitRule::ExactContent);
    }
    if same_name {
        assert(rules[a.len() as int] == DuplicateHitRule::NormalizedName);
    }
    if meets_threshold(score) && !exact {
        assert(rules[(a.len() + b.len()) as int] == DuplicateHitRule::ContentSimilarity);
    }
    if rules.contains(DuplicateHitRule::ExactContent) {
        let i = choose|i: int| 0 <= i < rules.len() && rules[i] == DuplicateHitRule::ExactContent;
        if i >= a.len() && i < a.len() + b.len() {
            assert(rules[i] == b[i - a.len()]);
        } else if i >= a.len() + b.len() {
            assert(rules[i] == c[i - a.len() - b.len()]);
        }
    }
    if rules.contains(DuplicateHitRule::NormalizedName) {
        let i = choose|i: int| 0 <= i < rules.len() && rules[i] == DuplicateHitRule::NormalizedName;
        if i < a.len() {
            assert(rules[i] == a[i]);
        } else if i >= a.len() + b.len() {
            assert(rules[i] == c[i - a.len() - b.len()]);
        }
    }
    if rules.contains(DuplicateHitRule::ContentSimilarity) {
        let i = choose|i: int| 0 <= i < rules.len() && rules[i] == DuplicateHitRule::ContentSimilarity;
        if i < a.len() {
            assert(rules[i] == a[i]);
        } else if i < a.len() + b.len() {
            assert(rules[i] == b[i - a.len()]);
        }
    }
}

/// The status and hit rules of a pair of instances.
#[derive(Debug, Clone, PartialEq, Eq)]
pub struct PairClassification {
    pub status: DuplicateCheckStatus,
    pub similarity: SimilarityScore,
    pub hit_rules: Vec<DuplicateHitRule>,
}

/// Classifies a pair from its three findings.
pub fn classify_findings(exact: bool, same_name: bool, similarity: SimilarityScore) -> (c:
    PairClassification)
    requires
        similarity.exact == exact,
    ensures
        c.status == pair_status(exact, same_name, meets_threshold(similarity)),
        c.hit_rules@ == pair_hit_rules(exact, same_name, meets_threshold(similarity)),
        c.similarity == similarity,
{
    let similar = similar_enough(similarity);
    let status = if exact {
        DuplicateCheckStatus::Exact
    } else if same_name && !similar {
        DuplicateCheckStatus::NameConflict
    } else if same_name || similar {
        DuplicateCheckStatus::Suspected
    } else {
        DuplicateCheckStatus::Unique
    };
    let mut hit_rules: Vec<DuplicateHitRule> = Vec::new();
    if exact {
        hit_rules.push(DuplicateHitRule::ExactContent);
    }
    if same_name {
        hit_rules.push(DuplicateHitRule::NormalizedName);
    }
    if similar && !exact {
        hit_rules.push(DuplicateHitRule::ContentSimilarity);
    }
    proof {
        let a: Seq<DuplicateHitRule> = if exact {
            seq![DuplicateHitRule::ExactContent]
        } else {
            seq![]
        };
        let b: Seq<DuplicateHitRule> = if same_name {
            seq![DuplicateHitRule::NormalizedName]
        } else {
            seq![]
        };
        let c: Seq<DuplicateHitRule> = if similar && !exact {
            seq![DuplicateHitRule::ContentSimilarity]
        } else {
            seq![]
        };
        assert(hit_rules@ =~= a + b + c);
    }
    PairClassification { status, similarity, hit_rules }
}

/// What duplicate review knows of one Skill instance: its files and the
/// bigrams of its similarity document.
pub struct InstanceContent {
    pub instance: SkillInstance,
    pub files: FileTree,
    pub similarity_bigrams: BigramCounts,
    pub bigram_model: Ghost<Seq<u64>>,
}

impl InstanceContent {
    /// The bigrams are those of the similarity document of the files.
    pub open spec fn wf(&self) -> bool {
        &&& self.files.wf()
        &&& self.bigram_model@ == bigram_seq(
            similarity_document_spec(self.files, self.files.entries@.len() as int),
        )
        &&& self.similarity_bigrams.describes(self.bigram_model@)
    }
}

/// The duplicate-review content of an instance with the given files.
pub fn instance_content(instance: SkillInstance, files: FileTree) -> (c: InstanceContent)
    requires
        files.wf(),
    ensures
        c.wf(),
        c.instance == instance,
        c.files == files,
{
    let document = similarity_document(&files);
    let similarity_bigrams = bigram_counts(document.as_str());
    InstanceContent {
        instance,
        files,
        similarity_bigrams,
        bigram_model: Ghost(bigram_seq(document@)),
    }
}

/// The similarity of two instances' contents.
pub open spec fn similarity_of(left: InstanceContent, right: InstanceContent) -> SimilarityScore {
    if same_tree(left.files, right.files) {
        SimilarityScore { exact: true, common: 0, total: 0 }
    } else {
        SimilarityScore {
            exact: false,
            common: common_count(
                first_occurrences(left.bigram_model@),
                left.bigram_model@.to_multiset(),
                right.bigram_model@.to_multiset(),
            ) as usize,
            total: (left.bigram_model@.len() + right.bigram_model@.len()) as usize,
        }
    }
}

/// Whether two instances have the same normalized name.
pub open spec fn same_name_of(left: InstanceContent, right: InstanceContent) -> bool {
    normalized_name_spec(left.instance.name@) == normalized_name_spec(right.instance.name@)
}

/// Classifies a pair of instances: identical trees, same normalized name,
/// and content similarity at or above the threshold.
pub fn classify_pair(left: &InstanceContent, right: &InstanceContent) -> (c: PairClassification)
    requires
        left.wf(),
        right.wf(),
        left.bigram_model@.len() + right.bigram_model@.len() <= usize::MAX,
    ensures
        c.similarity == similarity_of(*left, *right),
        c.status == pair_status(
            same_tree(left.files, right.files),
            same_name_of(*left, *right),
            meets_threshold(similarity_of(*left, *right)),
        ),
        c.hit_rules@ == pair_hit_rules(
            same_tree(left.files, right.files),
            same_name_of(*left, *right),
            meets_threshold(similarity_of(*left, *right)),
        ),
{
    let exact = trees_equal(&left.files, &right.files);
    let similarity = if exact {
        SimilarityScore { exact: true, common: 0, total: 0 }
    } else {
        let common = common_bigrams(
            &left.similarity_bigrams,
            &right.similarity_bigrams,
            Ghost(left.bigram_model@),
            Ghost(right.bigram_model@),
        );
        SimilarityScore {
            exact: false,
            common,
            total: left.similarity_bigrams.total + right.similarity_bigrams.total,
        }
    };
    let left_name = normalized_name(left.instance.name.as_str());
    let right_name = normalized_name(right.instance.name.as_str());
    let same_name = crate::text::str_eq(left_name.as_str(), right_name.as_str());
    classify_findings(exact, same_name, similarity)
}

/// Comparing two instances gives the same score, the same findings and so
/// the same status whichever of them comes first, and the score never
/// exceeds one: `2 * common <= total`.
pub proof fn comparison_is_symmetric(left: InstanceContent, right: InstanceContent)
    requires
        left.wf(),
        right.wf(),
        left.bigram_model@.len() + right.bigram_model@.len() <= usize::MAX,
    ensures
        similarity_of(left, right) == similarity_of(right, left),
        same_tree(left.files, right.files) == same_tree(right.files, left.files),
        same_name_of(left, right) == same_name_of(right, left),
        pair_status(
            same_tree(left.files, right.files),
            same_name_of(left, right),
            meets_threshold(similarity_of(left, right)),
        ) == pair_status(
            same_tree(right.files, left.files),
            same_name_of(right, left),
            meets_threshold(similarity_of(right, left)),
        ),
        2 * similarity_of(left, right).common <= similarity_of(left, right).total,
{
    crate::similarity::lemma_common_bigrams_symmetric(left.bigram_model@, right.bigram_model@);
    if same_tree(left.files, right.files) {
        assert forall|i: int| 0 <= i < right.files.entries@.len() implies (
        #[trigger] right.files.entries@[i]).path@ == left.files.entries@[i].path@
            && right.files.entries@[i].file.same(&left.files.entries@[i].file) by {
            assert(left.files.entries@[i].path@ == right.files.entries@[i].path@);
        }
    }
    if same_tree(right.files, left.files) {
        assert forall|i: int| 0 <= i < left.files.entries@.len() implies (
        #[trigger] left.files.entries@[i]).path@ == right.files.entries@[i].path@
            && left.files.entries@[i].file.same(&right.files.entries@[i].file) by {
            assert(right.files.entries@[i].path@ == left.files.entries@[i].path@);
        }
    }
}

/// The comparison of two instances: classification and file differences.
#[derive(Debug, Clone, PartialEq, Eq)]
pub struct DuplicateComparison {
    pub left_instance_id: String,
    pub right_instance_id: String,
    pub status: DuplicateCheckStatus,
    pub similarity: SimilarityScore,
    pub hit_rules: Vec<DuplicateHitRule>,
    pub files: Vec<DuplicateFileDifference>,
}

/// The comparison `c` of instances `left` and `right` with classification `k`.
pub open spec fn comparison_holds(
    c: DuplicateComparison,
    left: InstanceContent,
    right: InstanceContent,
    k: PairClassification,
) -> bool {
    &&& c.left_instance_id@ == left.instance.id@
    &&& c.right_instance_id@ == right.instance.id@
    &&& c.status == k.status
    &&& c.similarity == k.similarity
    &&& c.hit_rules@ == k.hit_rules@
    &&& c.files@.len() == merge_paths(left.files.keys(), right.files.keys(), 0, 0).len()
    &&& forall|i: int|
        0 <= i < c.files@.len() ==> {
            let step = merge_paths(left.files.keys(), right.files.keys(), 0, 0)[i];
            difference_holds(
                #[trigger] c.files@[i],
                step.0,
                file_at(left.files, step.1),
                file_at(right.files, step.2),
            )
        }
}

/// The comparison of two instances under a classification.
pub fn build_comparison(
    left: &InstanceContent,
    right: &InstanceContent,
    classification: PairClassification,
) -> (c: DuplicateComparison)
    requires
        left.wf(),
        right.wf(),
    ensures
        comparison_holds(c, *left, *right, classification),
{
    DuplicateComparison {
        left_instance_id: left.instance.id.clone(),
        right_instance_id: right.instance.id.clone(),
        status: classification.status,
        similarity: classification.similarity,
        hit_rules: classification.hit_rules,
        files: compare_files(&left.files, &right.files),
    }
}

/// Classifies and compares two instances.
pub fn compare_contents(left: &InstanceContent, right: &InstanceContent) -> (c:
    DuplicateComparison)
    requires
        left.wf(),
        right.wf(),
        left.bigram_model@.len() + right.bigram_model@.len() <= usize::MAX,
    ensures
        c.similarity == similarity_of(*left, *right),
        c.status == pair_status(
            same_tree(left.files, right.files),
            same_name_of(*left, *right),
            meets_threshold(similarity_of(*left, *right)),
        ),
        exists|k: PairClassification|
            k.status == c.status && k.similarity == c.similarity && k.hit_rules@
                == pair_hit_rules(
                same_tree(left.files, right.files),
                same_name_of(*left, *right),
                meets_threshold(similarity_of(*left, *right)),
            ) && #[trigger] comparison_holds(c, *left, *right, k),
{
    let classification = classify_pair(left, right);
    let ghost k = classification;
    let c = build_comparison(left, right, classification);
    assert(comparison_holds(c, *left, *right, k));
    c
}

/// A candidate pair: two instance indexes and their comparison.
pub struct CandidatePair {
    pub left: usize,
    pub right: usize,
    pub comparison: DuplicateComparison,
}

/// The component labels of `n` instances after joining the given pairs in
/// order: each pair joins the right instance's component into the left
/// instance's, whose label stays. Before any pair, every instance is its own
/// component.
pub open spec fn labels_after(n: nat, pairs: Seq<(usize, usize)>) -> Seq<usize>
    decreases pairs.len(),
{
    if pairs.len() == 0 {
        Seq::new(n, |i: int| i as usize)
    } else {
        let l = labels_after(n, pairs.drop_last());
        let (a, b) = pairs.last();
        if a >= n || b >= n || l[a as int] == l[b as int] {
            l
        } else {
            Seq::new(n, |i: int| if l[i] == l[b as int] { l[a as int] } else { l[i] })
        }
    }
}

proof fn lemma_labels_keep_joined(n: nat, pairs: Seq<(usize, usize)>, x: (usize, usize), i: int, j: int)
    requires
        0 <= i < n,
        0 <= j < n,
        labels_after(n, pairs)[i] == labels_after(n, pairs)[j],
    ensures
        labels_after(n, pairs.push(x))[i] == labels_after(n, pairs.push(x))[j],
{
    lemma_labels_len(n, pairs);
    assert(pairs.push(x).drop_last() == pairs);
}

/// Duplicate review puts the two instances of every candidate pair in one
/// group: after joining the pairs in order, both ends of each pair carry
/// the same label.
pub proof fn joined_pairs_share_a_group(n: nat, pairs: Seq<(usize, usize)>, k: int)
    requires
        0 <= k < pairs.len(),
        pairs[k].0 < n,
        pairs[k].1 < n,
    ensures
        labels_after(n, pairs)[pairs[k].0 as int] == labels_after(n, pairs)[pairs[k].1 as int],
    decreases pairs.len(),
{
    let a = pairs[k].0 as int;
    let b = pairs[k].1 as int;
    let prefix = pairs.drop_last();
    lemma_labels_len(n, prefix);
    assert(pairs == prefix.push(pairs.last()));
    if k == pairs.len() - 1 {
        let l = labels_after(n, prefix);
        if l[a] != l[b] {
            assert(labels_after(n, pairs)[a] == l[a]);
            assert(labels_after(n, pairs)[b] == l[a]);
        }
    } else {
        joined_pairs_share_a_group(n, prefix, k);
        lemma_labels_keep_joined(n, prefix, pairs.last(), a, b);
    }
}

/// The pairs of the candidates, in order.
pub open spec fn candidate_pairs(candidates: Seq<CandidatePair>) -> Seq<(usize, usize)> {
    candidates.map_values(|c: CandidatePair| (c.left, c.right))
}

/// The label of instance `index`: the representative of its component.
pub fn find(labels: &Vec<usize>, index: usize) -> (r: usize)
    requires
        index < labels@.len(),
    ensures
        r == labels@[index as int],
{
    labels[index]
}

/// Joins the component of `right` into the component of `left`.
pub fn union(labels: &mut Vec<usize>, left: usize, right: usize)
    requires
        left < old(labels)@.len(),
        right < old(labels)@.len(),
    ensures
        final(labels)@ == (if old(labels)@[left as int] == old(labels)@[right as int] {
            old(labels)@
        } else {
            Seq::new(
                old(labels)@.len(),
                |i: int|
                    if old(labels)@[i] == old(labels)@[right as int] {
                        old(labels)@[left as int]
                    } else {
                        old(labels)@[i]
                    },
            )
        }),
{
    let a = find(labels, left);
    let b = find(labels, right);
    if a == b {
        return;
    }
    let ghost before = labels@;
    let mut i: usize = 0;
    while i < labels.len()
        invariant
            i <= labels@.len() == before.len(),
            left < before.len(),
            right < before.len(),
            a == before[left as int],
            b == before[right as int],
            forall|k: int|
                0 <= k < i ==> #[trigger] labels@[k] == (if before[k] == b {
                    a
                } else {
                    before[k]
                }),
            forall|k: int| i <= k < labels@.len() ==> #[trigger] labels@[k] == before[k],
        decreases labels@.len() - i,
    {
        if labels[i] == b {
            labels.set(i, a);
        }
        i += 1;
    }
    assert(labels@ =~= Seq::new(
        before.len(),
        |k: int|
            if before[k] == before[right as int] {
                before[left as int]
            } else {
                before[k]
            },
    ));
}

/// The component labels of `n` instances joined by the candidate pairs.
pub fn component_labels(n: usize, candidates: &Vec<CandidatePair>) -> (labels: Vec<usize>)
    ensures
        labels@ == labels_after(n as nat, candidate_pairs(candidates@)),
{
    let mut labels: Vec<usize> = Vec::new();
    let mut i: usize = 0;
    while i < n
        invariant
            i <= n,
            labels@ == Seq::new(i as nat, |k: int| k as usize),
        decreases n - i,
    {
        labels.push(i);
        i += 1;
    }
    let ghost pairs = candidate_pairs(candidates@);
    let mut c: usize = 0;
    while c < candidates.len()
        invariant
            c <= candidates@.len(),
            pairs == candidate_pairs(candidates@),
            labels@ == labels_after(n as nat, pairs.take(c as int)),
            labels@.len() == n,
        decreases candidates@.len() - c,
    {
        proof {
            assert(pairs.take(c + 1).drop_last() == pairs.take(c as int));
            assert(pairs.take(c + 1).last() == (candidates@[c as int].left, candidates@[c as int].right));
        }
        let left = candidates[c].left;
        let right = candidates[c].right;
        if left < n && right < n {
            union(&mut labels, left, right);
            proof {
                let l = labels_after(n as nat, pairs.take(c as int));
                assert(labels@ =~= labels_after(n as nat, pairs.take(c + 1)));
            }
        }
        c += 1;
    }
    assert(pairs.take(candidates@.len() as int) == pairs);
    labels
}

/// The members of component `root`, in index order.
pub open spec fn members_of(labels: Seq<usize>, root: int) -> Seq<usize>
    decreases labels.len(),
{
    if labels.len() == 0 {
        seq![]
    } else {
        members_of(labels.drop_last(), root) + (if labels.last() == root {
            seq![(labels.len() - 1) as usize]
        } else {
            seq![]
        })
    }
}

/// The components of more than one member, in label order, each as its
/// members in index order.
pub open spec fn big_components(labels: Seq<usize>, upto: int) -> Seq<Seq<usize>>
    decreases upto,
{
    if upto <= 0 {
        seq![]
    } else {
        big_components(labels, upto - 1) + (if members_of(labels, upto - 1).len() > 1 {
            seq![members_of(labels, upto - 1)]
        } else {
            seq![]
        })
    }
}

fn members_vec(labels: &Vec<usize>, root: usize) -> (r: Vec<usize>)
    ensures
        r@ == members_of(labels@, root as int),
{
    let mut r: Vec<usize> = Vec::new();
    let mut i: usize = 0;
    while i < labels.len()
        invariant
            i <= labels@.len(),
            r@ == members_of(labels@.take(i as int), root as int),
        decreases labels@.len() - i,
    {
        assert(labels@.take(i + 1).drop_last() == labels@.take(i as int));
        if labels[i] == root {
            r.push(i);
        }
        i += 1;
    }
    assert(labels@.take(labels@.len() as int) == labels@);
    r
}

/// The components of more than one member, in label order.
pub fn component_members(labels: &Vec<usize>) -> (r: Vec<Vec<usize>>)
    ensures
        r@.len() == big_components(labels@, labels@.len() as int).len(),
        forall|k: int|
            0 <= k < r@.len() ==> #[trigger] r@[k]@ == big_components(
                labels@,
                labels@.len() as int,
            )[k],
{
    let mut r: Vec<Vec<usize>> = Vec::new();
    let mut root: usize = 0;
    while root < labels.len()
        invariant
            root <= labels@.len(),
            r@.len() == big_components(labels@, root as int).len(),
            forall|k: int|
                0 <= k < r@.len() ==> #[trigger] r@[k]@ == big_components(labels@, root as int)[k],
        decreases labels@.len() - root,
    {
        let members = members_vec(labels, root);
        if members.len() > 1 {
            r.push(members);
        }
        root += 1;
    }
    r
}

impl DuplicateTextDiffLine {
    /// A copy of the line.
    pub fn copy(&self) -> (r: DuplicateTextDiffLine)
        ensures
            r == *self,
    {
        DuplicateTextDiffLine {
            kind: self.kind,
            left_line_number: self.left_line_number,
            right_line_number: self.right_line_number,
            left: crate::copy_opt(&self.left),
            right: crate::copy_opt(&self.right),
        }
    }
}

/// Two file differences hold the same values.
pub open spec fn same_difference(a: DuplicateFileDifference, b: DuplicateFileDifference) -> bool {
    &&& a.relative_path == b.relative_path
    &&& a.status == b.status
    &&& a.kind == b.kind
    &&& a.left_node_kind == b.left_node_kind
    &&& a.right_node_kind == b.right_node_kind
    &&& a.left_size == b.left_size
    &&& a.right_size == b.right_size
    &&& a.left_fingerprint == b.left_fingerprint
    &&& a.right_fingerprint == b.right_fingerprint
    &&& a.text_diff_truncated == b.text_diff_truncated
    &&& match (a.text_diff, b.text_diff) {
        (Some(x), Some(y)) => x@ == y@,
        (None, None) => true,
        _ => false,
    }
}

fn copy_diff_lines(v: &Vec<DuplicateTextDiffLine>) -> (r: Vec<DuplicateTextDiffLine>)
    ensures
        r@ == v@,
{
    let mut r: Vec<DuplicateTextDiffLine> = Vec::new();
    let mut i: usize = 0;
    while i < v.len()
        invariant
            i <= v@.len(),
            r@ == v@.take(i as int),
        decreases v@.len() - i,
    {
        r.push(v[i].copy());
        assert(v@.take(i + 1) == v@.take(i as int).push(v@[i as int]));
        i += 1;
    }
    assert(v@.take(v@.len() as int) == v@);
    r
}

impl DuplicateFileDifference {
    /// A copy of the difference.
    pub fn copy(&self) -> (r: DuplicateFileDifference)
        ensures
            same_difference(r, *self),
    {
        DuplicateFileDifference {
            relative_path: self.relative_path.clone(),
            status: self.status,
            kind: self.kind,
            left_node_kind: self.left_node_kind,
            right_node_kind: self.right_node_kind,
            left_size: self.left_size,
            right_size: self.right_size,
            left_fingerprint: crate::copy_opt(&self.left_fingerprint),
            right_fingerprint: crate::copy_opt(&self.right_fingerprint),
            text_diff: match &self.text_diff {
                Some(d) => Some(copy_diff_lines(d)),
                None => None,
            },
            text_diff_truncated: self.text_diff_truncated,
        }
    }
}

/// Two comparisons hold the same values.
pub open spec fn same_comparison(a: DuplicateComparison, b: DuplicateComparison) -> bool {
    &&& a.left_instance_id == b.left_instance_id
    &&& a.right_instance_id == b.right_instance_id
    &&& a.status == b.status
    &&& a.similarity == b.similarity
    &&& a.hit_rules@ == b.hit_rules@
    &&& a.files@.len() == b.files@.len()
    &&& forall|i: int| 0 <= i < a.files@.len() ==> same_difference(#[trigger] a.files@[i], b.files@[i])
}

impl DuplicateComparison {
    /// A copy of the comparison.
    pub fn copy(&self) -> (r: DuplicateComparison)
        ensures
            same_comparison(r, *self),
    {
        let mut files: Vec<DuplicateFileDifference> = Vec::new();
        let mut i: usize = 0;
        while i < self.files.len()
            invariant
                i <= self.files@.len(),
                files@.len() == i,
                forall|k: int| 0 <= k < i ==> same_difference(#[trigger] files@[k], self.files@[k]),
            decreases self.files@.len() - i,
        {
            files.push(self.files[i].copy());
            i += 1;
        }
        let mut hit_rules: Vec<DuplicateHitRule> = Vec::new();
        let mut k: usize = 0;
        while k < self.hit_rules.len()
            invariant
                k <= self.hit_rules@.len(),
                hit_rules@ == self.hit_rules@.take(k as int),
            decreases self.hit_rules@.len() - k,
        {
            hit_rules.push(self.hit_rules[k]);
            assert(self.hit_rules@.take(k + 1) == self.hit_rules@.take(k as int).push(
                self.hit_rules@[k as int],
            ));
            k += 1;
        }
        assert(self.hit_rules@.take(self.hit_rules@.len() as int) == self.hit_rules@);
        DuplicateComparison {
            left_instance_id: self.left_instance_id.clone(),
            right_instance_id: self.right_instance_id.clone(),
            status: self.status,
            similarity: self.similarity,
            hit_rules,
            files,
        }
    }
}

/// An instance as a duplicate group shows it.
#[derive(Debug, Clone, PartialEq, Eq)]
pub struct DuplicateReviewInstance {
    pub id: String,
    pub name: String,
    pub description: String,
    pub path: String,
}

/// The review entry of an instance: its id, name, description and real path.
pub open spec fn review_of(instance: SkillInstance) -> DuplicateReviewInstance {
    DuplicateReviewInstance {
        id: instance.id,
        name: instance.name,
        description: instance.description,
        path: instance.real_path,
    }
}

/// The review entry of an instance.
pub fn review_instance(instance: &SkillInstance) -> (r: DuplicateReviewInstance)
    ensures
        r == review_of(*instance),
{
    DuplicateReviewInstance {
        id: instance.id.clone(),
        name: instance.name.clone(),
        description: instance.description.clone(),
        path: instance.real_path.clone(),
    }
}

impl DuplicateReviewInstance {
    /// A copy of the entry.
    pub fn copy(&self) -> (r: DuplicateReviewInstance)
        ensures
            r == *self,
    {
        DuplicateReviewInstance {
            id: self.id.clone(),
            name: self.name.clone(),
            description: self.description.clone(),
            path: self.path.clone(),
        }
    }
}

/// The display name of a group: the first name when all names normalize
/// alike, else the first two names joined with ` / `.
pub open spec fn display_name_spec(instances: Seq<DuplicateReviewInstance>) -> Seq<char> {
    let first = instances[0].name@;
    if forall|i: int|
        0 <= i < instances.len() ==> normalized_name_spec(#[trigger] instances[i].name@)
            == normalized_name_spec(first) {
        first
    } else if instances.len() >= 2 {
        first + " / "@ + instances[1].name@
    } else {
        first
    }
}

/// The display name of a group of instances.
pub fn group_display_name(instances: &Vec<DuplicateReviewInstance>) -> (r: String)
    requires
        instances@.len() > 0,
    ensures
        r@ == display_name_spec(instances@),
{
    let first = &instances[0].name;
    let first_normal = normalized_name(first.as_str());
    let mut all_same = true;
    let mut i: usize = 0;
    while i < instances.len()
        invariant
            i <= instances@.len(),
            instances@.len() > 0,
            first == instances@[0].name,
            first_normal@ == normalized_name_spec(first@),
            all_same <==> forall|k: int|
                0 <= k < i ==> normalized_name_spec(#[trigger] instances@[k].name@)
                    == normalized_name_spec(first@),
        decreases instances@.len() - i,
    {
        let other = normalized_name(instances[i].name.as_str());
        if !crate::text::str_eq(other.as_str(), first_normal.as_str()) {
            all_same = false;
        }
        i += 1;
    }
    if all_same {
        first.clone()
    } else {
        let sep = " / ";
        if instances.len() >= 2 {
            crate::text::concat3(first.as_str(), sep, instances[1].name.as_str())
        } else {
            first.clone()
        }
    }
}

/// The key of a group of instance ids: the fingerprint of the UTF-8 bytes of
/// the ids joined with NUL.
pub open spec fn group_key_spec(ids: Seq<Seq<char>>) -> Seq<char> {
    fingerprint_spec(vstd::utf8::encode_utf8(join_spec(ids, seq!['\0'])))
}

/// A duplicate decision is keyed by the set of its instances: two lists
/// that hold the same ids, in any order and with any repeats, normalize to
/// the same ids (what `normalized_decision_ids` returns is the one strictly
/// sorted list of them) and so to the same group key.
pub proof fn decision_ids_ignore_order(
    x: Seq<Seq<char>>,
    y: Seq<Seq<char>>,
    rx: Seq<Seq<char>>,
    ry: Seq<Seq<char>>,
)
    requires
        x.to_set() == y.to_set(),
        crate::text::strictly_sorted(rx),
        rx.to_set() == x.to_set(),
        crate::text::strictly_sorted(ry),
        ry.to_set() == y.to_set(),
    ensures
        rx == ry,
        group_key_spec(rx) == group_key_spec(ry),
{
    crate::text::lemma_sorted_set_unique(rx, ry);
}

/// The stable key of a group of instance ids.
pub fn group_key(instance_ids: &Vec<String>) -> (r: String)
    ensures
        r@ == group_key_spec(views(instance_ids@)),
{
    let sep = "\0";
    proof {
        reveal_strlit("\0");
        assert(sep@ =~= seq!['\0']);
    }
    let joined = join_strings(instance_ids, sep);
    stable_fingerprint(joined.as_str().as_bytes())
}

/// The key of an unordered pair of instance ids: the smaller id, NUL, the
/// larger id.
pub open spec fn pair_key_spec(left: Seq<char>, right: Seq<char>) -> Seq<char> {
    if text_le(left, right) {
        left + seq!['\0'] + right
    } else {
        right + seq!['\0'] + left
    }
}

/// The key of an unordered pair of instance ids.
pub fn pair_key(left: &str, right: &str) -> (r: String)
    ensures
        r@ == pair_key_spec(left@, right@),
{
    let sep = "\0";
    proof {
        reveal_strlit("\0");
        assert(sep@ =~= seq!['\0']);
    }
    if str_le(left, right) {
        crate::text::concat3(left, sep, right)
    } else {
        crate::text::concat3(right, sep, left)
    }
}

/// The key of a pair does not depend on the order of the two ids.
pub proof fn pair_key_is_symmetric(left: Seq<char>, right: Seq<char>)
    ensures
        pair_key_spec(left, right) == pair_key_spec(right, left),
{
    crate::text::lemma_text_le_total(left, right);
    if text_le(left, right) && text_le(right, left) {
        crate::text::lemma_text_le_antisym(left, right);
    }
}

/// The similarity of a group: the mean of the scores of its comparisons,
/// kept as those scores, in comparison order.
#[derive(Debug, Clone, PartialEq, Eq)]
pub struct GroupSimilarity {
    pub scores: Vec<SimilarityScore>,
}

/// The value of one score as a fraction `(numerator, denominator)`: one for
/// identical trees, zero when there are no bigrams, `2 * common / total`
/// otherwise.
pub open spec fn score_fraction(s: SimilarityScore) -> (int, int) {
    if s.exact {
        (1, 1)
    } else if s.total == 0 {
        (0, 1)
    } else {
        (2 * s.common, s.total as int)
    }
}

/// The sum of the first `n` scores as a fraction over the product of their
/// denominators.
pub open spec fn score_sum(scores: Seq<SimilarityScore>, n: int) -> (int, int)
    decreases n,
{
    if n <= 0 {
        (0, 1)
    } else {
        let (a, b) = score_sum(scores, n - 1);
        let (c, d) = score_fraction(scores[n - 1]);
        (a * d + c * b, b * d)
    }
}

/// The mean of the scores as a fraction `(numerator, denominator)`; no
/// scores give `(0, 0)`.
pub open spec fn mean_similarity(scores: Seq<SimilarityScore>) -> (int, int) {
    let (a, b) = score_sum(scores, scores.len() as int);
    (a, b * scores.len())
}

proof fn lemma_exact_sum(scores: Seq<SimilarityScore>, n: int)
    requires
        0 <= n <= scores.len(),
        forall|k: int| 0 <= k < n ==> (#[trigger] scores[k]).exact,
    ensures
        score_sum(scores, n) == (n, 1int),
    decreases n,
{
    if n > 0 {
        lemma_exact_sum(scores, n - 1);
        assert(scores[n - 1].exact);
    }
}

/// A group whose comparisons all found identical trees has similarity one.
pub proof fn exact_groups_are_fully_similar(scores: Seq<SimilarityScore>)
    requires
        scores.len() > 0,
        forall|k: int| 0 <= k < scores.len() ==> (#[trigger] scores[k]).exact,
    ensures
        mean_similarity(scores).0 == mean_similarity(scores).1,
{
    lemma_exact_sum(scores, scores.len() as int);
}

/// The scores of comparisons, in order.
pub fn comparison_scores(comparisons: &Vec<DuplicateComparison>) -> (r: Vec<SimilarityScore>)
    ensures
        r@ == comparisons@.map_values(|c: DuplicateComparison| c.similarity),
{
    let mut scores: Vec<SimilarityScore> = Vec::new();
    let mut q: usize = 0;
    while q < comparisons.len()
        invariant
            q <= comparisons@.len(),
            scores@.len() == q,
            forall|k: int| 0 <= k < q ==> #[trigger] scores@[k] == comparisons@[k].similarity,
        decreases comparisons@.len() - q,
    {
        scores.push(comparisons[q].similarity);
        q += 1;
    }
    assert(scores@ =~= comparisons@.map_values(|c: DuplicateComparison| c.similarity));
    scores
}

/// A group of instances that duplicate review links together.
#[derive(Debug, Clone, PartialEq, Eq)]
pub struct DuplicateGroup {
    pub id: String,
    pub name: String,
    pub status: DuplicateCheckStatus,
    pub similarity: GroupSimilarity,
    pub hit_rules: Vec<DuplicateHitRule>,
    pub fingerprint_files: Vec<String>,
    pub instances: Vec<DuplicateReviewInstance>,
    pub comparisons: Vec<DuplicateComparison>,
}

/// The candidates with both instances among `members`, in order.
pub open spec fn group_candidates(cands: Seq<CandidatePair>, members: Seq<usize>) -> Seq<
    CandidatePair,
>
    decreases cands.len(),
{
    if cands.len() == 0 {
        seq![]
    } else {
        group_candidates(cands.drop_last(), members) + (if members.contains(cands.last().left)
            && members.contains(cands.last().right) {
            seq![cands.last()]
        } else {
            seq![]
        })
    }
}

/// The status of a group: exact when every comparison is exact, suspected
/// when one is suspected, a name conflict otherwise.
pub open spec fn group_status_spec(cs: Seq<CandidatePair>) -> DuplicateCheckStatus {
    if forall|i: int|
        0 <= i < cs.len() ==> (#[trigger] cs[i]).comparison.status == DuplicateCheckStatus::Exact {
        DuplicateCheckStatus::Exact
    } else if exists|i: int|
        0 <= i < cs.len() && (#[trigger] cs[i]).comparison.status
            == DuplicateCheckStatus::Suspected {
        DuplicateCheckStatus::Suspected
    } else {
        DuplicateCheckStatus::NameConflict
    }
}

/// A group is an exact duplicate group exactly when every comparison in it
/// found identical trees; otherwise it is suspected when some comparison is
/// suspected, and a name conflict when none is.
pub proof fn group_status_follows_comparisons(
    g: DuplicateGroup,
    contents: Seq<InstanceContent>,
    cands: Seq<CandidatePair>,
    members: Seq<usize>,
)
    requires
        group_holds(g, contents, cands, members),
    ensures
        (g.status == DuplicateCheckStatus::Exact) == (forall|k: int|
            0 <= k < g.comparisons@.len() ==> (#[trigger] g.comparisons@[k]).status
                == DuplicateCheckStatus::Exact),
        (g.status == DuplicateCheckStatus::Suspected) == ((exists|k: int|
            0 <= k < g.comparisons@.len() && (#[trigger] g.comparisons@[k]).status
                == DuplicateCheckStatus::Suspected) && !(forall|k: int|
            0 <= k < g.comparisons@.len() ==> (#[trigger] g.comparisons@[k]).status
                == DuplicateCheckStatus::Exact)),
        (g.status == DuplicateCheckStatus::NameConflict) == (!(exists|k: int|
            0 <= k < g.comparisons@.len() && (#[trigger] g.comparisons@[k]).status
                == DuplicateCheckStatus::Suspected) && !(forall|k: int|
            0 <= k < g.comparisons@.len() ==> (#[trigger] g.comparisons@[k]).status
                == DuplicateCheckStatus::Exact)),
{
    let cs = group_candidates(cands, members);
    assert forall|k: int| 0 <= k < g.comparisons@.len() implies (#[trigger] g.comparisons@[k]).status
        == cs[k].comparison.status by {
        assert(same_comparison(g.comparisons@[k], cs[k].comparison));
    }
    if forall|k: int| 0 <= k < g.comparisons@.len() ==> (#[trigger] g.comparisons@[k]).status
        == DuplicateCheckStatus::Exact {
        assert forall|i: int| 0 <= i < cs.len() implies (#[trigger] cs[i]).comparison.status
            == DuplicateCheckStatus::Exact by {
            assert(g.comparisons@[i].status == DuplicateCheckStatus::Exact);
        }
    } else {
        let k = choose|k: int| 0 <= k < g.comparisons@.len() && (#[trigger] g.comparisons@[k]).status
            != DuplicateCheckStatus::Exact;
        assert(cs[k].comparison.status != DuplicateCheckStatus::Exact);
    }
    if exists|k: int| 0 <= k < g.comparisons@.len() && (#[trigger] g.comparisons@[k]).status
        == DuplicateCheckStatus::Suspected {
        let k = choose|k: int| 0 <= k < g.comparisons@.len() && (#[trigger] g.comparisons@[k]).status
            == DuplicateCheckStatus::Suspected;
        assert(cs[k].comparison.status == DuplicateCheckStatus::Suspected);
    }
    if exists|i: int| 0 <= i < cs.len() && (#[trigger] cs[i]).comparison.status
        == DuplicateCheckStatus::Suspected {
        let i = choose|i: int| 0 <= i < cs.len() && (#[trigger] cs[i]).comparison.status
            == DuplicateCheckStatus::Suspected;
        assert(g.comparisons@[i].status == DuplicateCheckStatus::Suspected);
    }
    if exists|i: int| 0 <= i < cs.len() && (#[trigger] cs[i]).comparison.status
        != DuplicateCheckStatus::Exact {
        let i = choose|i: int| 0 <= i < cs.len() && (#[trigger] cs[i]).comparison.status
            != DuplicateCheckStatus::Exact;
        assert(g.comparisons@[i].status != DuplicateCheckStatus::Exact);
    }
}

/// Whether some comparison of `cs` hit `rule`.
pub open spec fn some_hit(cs: Seq<CandidatePair>, rule: DuplicateHitRule) -> bool {
    exists|i: int| 0 <= i < cs.len() && (#[trigger] cs[i]).comparison.hit_rules@.contains(rule)
}

/// The rules hit by some comparison of `cs`, in rule order.
pub open spec fn group_hit_rules(cs: Seq<CandidatePair>) -> Seq<DuplicateHitRule> {
    (if some_hit(cs, DuplicateHitRule::ExactContent) {
        seq![DuplicateHitRule::ExactContent]
    } else {
        seq![]
    }) + (if some_hit(cs, DuplicateHitRule::NormalizedName) {
        seq![DuplicateHitRule::NormalizedName]
    } else {
        seq![]
    }) + (if some_hit(cs, DuplicateHitRule::ContentSimilarity) {
        seq![DuplicateHitRule::ContentSimilarity]
    } else {
        seq![]
    })
}

/// The group `g` is the group of `members` among `contents` and `cands`.
pub open spec fn group_holds(
    g: DuplicateGroup,
    contents: Seq<InstanceContent>,
    cands: Seq<CandidatePair>,
    members: Seq<usize>,
) -> bool {
    let cs = group_candidates(cands, members);
    &&& g.comparisons@.len() == cs.len()
    &&& forall|k: int|
        0 <= k < cs.len() ==> same_comparison(#[trigger] g.comparisons@[k], cs[k].comparison)
    &&& g.status == group_status_spec(cs)
    &&& g.similarity.scores@ == cs.map_values(|c: CandidatePair| c.comparison.similarity)
    &&& g.hit_rules@ == group_hit_rules(cs)
    &&& crate::text::strictly_sorted(views(g.fingerprint_files@))
    &&& forall|q: Seq<char>|
        #[trigger] views(g.fingerprint_files@).contains(q) <==> exists|k: int|
            0 <= k < members.len() && contents[members[k] as int].files.keys().contains(q)
    &&& sorted_by_key(g.instances@)
    &&& g.instances@.to_multiset() == members.map_values(
        |m: usize| review_of(contents[m as int].instance),
    ).to_multiset()
    &&& g.name@ == display_name_spec(g.instances@)
    &&& g.id@ == group_key_spec(g.instances@.map_values(|x: DuplicateReviewInstance| x.id@))
}

impl TextKeyed for DuplicateReviewInstance {
    open spec fn key_view(&self) -> Seq<char> {
        self.id@
    }

    fn key(&self) -> (r: &str) {
        self.id.as_str()
    }
}

fn contains_index(v: &Vec<usize>, x: usize) -> (r: bool)
    ensures
        r == v@.contains(x),
{
    let mut i: usize = 0;
    while i < v.len()
        invariant
            i <= v@.len(),
            forall|k: int| 0 <= k < i ==> v@[k] != x,
        decreases v@.len() - i,
    {
        if v[i] == x {
            assert(v@[i as int] == x);
            return true;
        }
        i += 1;
    }
    false
}

fn rule_listed(rules: &Vec<DuplicateHitRule>, rule: DuplicateHitRule) -> (r: bool)
    ensures
        r == rules@.contains(rule),
{
    let mut i: usize = 0;
    while i < rules.len()
        invariant
            i <= rules@.len(),
            forall|k: int| 0 <= k < i ==> rules@[k] != rule,
        decreases rules@.len() - i,
    {
        let same = match (rules[i], rule) {
            (DuplicateHitRule::ExactContent, DuplicateHitRule::ExactContent) => true,
            (DuplicateHitRule::NormalizedName, DuplicateHitRule::NormalizedName) => true,
            (DuplicateHitRule::ContentSimilarity, DuplicateHitRule::ContentSimilarity) => true,
            _ => false,
        };
        if same {
            assert(rules@[i as int] == rule);
            return true;
        }
        i += 1;
    }
    false
}

/// Builds the group of the given members.
pub fn build_group(
    contents: &Vec<InstanceContent>,
    candidates: &Vec<CandidatePair>,
    members: &Vec<usize>,
) -> (g: DuplicateGroup)
    requires
        members@.len() > 0,
        forall|k: int| 0 <= k < members@.len() ==> #[trigger] members@[k] < contents@.len(),
        forall|k: int| 0 <= k < contents@.len() ==> (#[trigger] contents@[k]).wf(),
    ensures
        group_holds(g, contents@, candidates@, members@),
{
    let ghost cs = group_candidates(candidates@, members@);
    let mut comparisons: Vec<DuplicateComparison> = Vec::new();
    let mut all_exact = true;
    let mut any_suspected = false;
    let mut hit_exact = false;
    let mut hit_name = false;
    let mut hit_similar = false;
    let mut c: usize = 0;
    while c < candidates.len()
        invariant
            c <= candidates@.len(),
            ({
                let done = group_candidates(candidates@.take(c as int), members@);
                &&& comparisons@.len() == done.len()
                &&& forall|k: int|
                    0 <= k < done.len() ==> same_comparison(
                        #[trigger] comparisons@[k],
                        done[k].comparison,
                    )
                &&& all_exact == forall|i: int|
                    0 <= i < done.len() ==> (#[trigger] done[i]).comparison.status
                        == DuplicateCheckStatus::Exact
                &&& any_suspected == exists|i: int|
                    0 <= i < done.len() && (#[trigger] done[i]).comparison.status
                        == DuplicateCheckStatus::Suspected
                &&& hit_exact == some_hit(done, DuplicateHitRule::ExactContent)
                &&& hit_name == some_hit(done, DuplicateHitRule::NormalizedName)
                &&& hit_similar == some_hit(done, DuplicateHitRule::ContentSimilarity)
            }),
        decreases candidates@.len() - c,
    {
        let ghost before = group_candidates(candidates@.take(c as int), members@);
        proof {
            assert(candidates@.take(c + 1).drop_last() == candidates@.take(c as int));
            assert(candidates@.take(c + 1).last() == candidates@[c as int]);
        }
        let cand = &candidates[c];
        if contains_index(members, cand.left) && contains_index(members, cand.right) {
            let ghost after = before.push(*cand);
            assert(group_candidates(candidates@.take(c + 1), members@) == before + seq![*cand]);
            assert(before + seq![*cand] == after);
            comparisons.push(cand.comparison.copy());
            let exact = match cand.comparison.status {
                DuplicateCheckStatus::Exact => true,
                _ => false,
            };
            let suspected = match cand.comparison.status {
                DuplicateCheckStatus::Suspected => true,
                _ => false,
            };
            all_exact = all_exact && exact;
            any_suspected = any_suspected || suspected;
            let e = rule_listed(&cand.comparison.hit_rules, DuplicateHitRule::ExactContent);
            let n = rule_listed(&cand.comparison.hit_rules, DuplicateHitRule::NormalizedName);
            let sm = rule_listed(&cand.comparison.hit_rules, DuplicateHitRule::ContentSimilarity);
            hit_exact = hit_exact || e;
            hit_name = hit_name || n;
            hit_similar = hit_similar || sm;
            proof {
                assert(after[before.len() as int] == *cand);
                assert forall|i: int| 0 <= i < before.len() implies after[i] == before[i] by {}
                if !all_exact {
                    if !exact {
                        assert(after[before.len() as int].comparison.status
                            != DuplicateCheckStatus::Exact);
                    }
                }
                if any_suspected && !suspected {
                    let i = choose|i: int|
                        0 <= i < before.len() && (#[trigger] before[i]).comparison.status
                            == DuplicateCheckStatus::Suspected;
                    assert(after[i] == before[i]);
                }
                if hit_exact && !e {
                    let i = choose|i: int|
                        0 <= i < before.len() && (#[trigger] before[i]).comparison.hit_rules@.contains(DuplicateHitRule::ExactContent);
                    assert(after[i] == before[i]);
                }
                if hit_name && !n {
                    let i = choose|i: int|
                        0 <= i < before.len() && (#[trigger] before[i]).comparison.hit_rules@.contains(DuplicateHitRule::NormalizedName);
                    assert(after[i] == before[i]);
                }
                if hit_similar && !sm {
                    let i = choose|i: int|
                        0 <= i < before.len() && (#[trigger] before[i]).comparison.hit_rules@.contains(DuplicateHitRule::ContentSimilarity);
                    assert(after[i] == before[i]);
                }
            }
        } else {
            assert(group_candidates(candidates@.take(c + 1), members@) == before + seq![]);
            assert(before + seq![] == before);
        }
        c += 1;
    }
    assert(candidates@.take(candidates@.len() as int) == candidates@);
    let status = if all_exact {
        DuplicateCheckStatus::Exact
    } else if any_suspected {
        DuplicateCheckStatus::Suspected
    } else {
        DuplicateCheckStatus::NameConflict
    };
    let mut hit_rules: Vec<DuplicateHitRule> = Vec::new();
    if hit_exact {
        hit_rules.push(DuplicateHitRule::ExactContent);
    }
    if hit_name {
        hit_rules.push(DuplicateHitRule::NormalizedName);
    }
    if hit_similar {
        hit_rules.push(DuplicateHitRule::ContentSimilarity);
    }
    proof {
        let a: Seq<DuplicateHitRule> = if hit_exact {
            seq![DuplicateHitRule::ExactContent]
        } else {
            seq![]
        };
        let b: Seq<DuplicateHitRule> = if hit_name {
            seq![DuplicateHitRule::NormalizedName]
        } else {
            seq![]
        };
        let d: Seq<DuplicateHitRule> = if hit_similar {
            seq![DuplicateHitRule::ContentSimilarity]
        } else {
            seq![]
        };
        assert(hit_rules@ =~= a + b + d);
    }
    let mut fingerprint_files: Vec<String> = Vec::new();
    let mut instances: Vec<DuplicateReviewInstance> = Vec::new();
    let ghost reviews = members@.map_values(|m: usize| review_of(contents@[m as int].instance));
    assert(instances@ == reviews.take(0));
    let mut mi: usize = 0;
    while mi < members.len()
        invariant
            mi <= members@.len(),
            forall|k: int| 0 <= k < members@.len() ==> #[trigger] members@[k] < contents@.len(),
            forall|k: int| 0 <= k < contents@.len() ==> (#[trigger] contents@[k]).wf(),
            reviews == members@.map_values(|m: usize| review_of(contents@[m as int].instance)),
            crate::text::strictly_sorted(views(fingerprint_files@)),
            forall|q: Seq<char>|
                #[trigger] views(fingerprint_files@).contains(q) <==> exists|k: int|
                    0 <= k < mi && contents@[members@[k] as int].files.keys().contains(q),
            sorted_by_key(instances@),
            instances@.to_multiset() == reviews.take(mi as int).to_multiset(),
        decreases members@.len() - mi,
    {
        let content = &contents[members[mi]];
        let ghost before_files = views(fingerprint_files@);
        let mut e: usize = 0;
        while e < content.files.entries.len()
            invariant
                e <= content.files.entries@.len(),
                crate::text::strictly_sorted(views(fingerprint_files@)),
                forall|q: Seq<char>|
                    #[trigger] views(fingerprint_files@).contains(q) <==> before_files.contains(q)
                        || content.files.keys().take(e as int).contains(q),
            decreases content.files.entries@.len() - e,
        {
            let ghost prev = views(fingerprint_files@);
            crate::text::insert_sorted(&mut fingerprint_files, content.files.entries[e].path.clone());
            proof {
                let ks = content.files.keys();
                assert(ks.take(e + 1) == ks.take(e as int).push(ks[e as int]));
                assert forall|q: Seq<char>| #[trigger] views(fingerprint_files@).contains(q) <==> before_files.contains(q)
                        || ks.take(e + 1).contains(q) by {
                    assert(views(fingerprint_files@).to_set().contains(q) == prev.to_set().insert(ks[e as int]).contains(q));
                    let t1 = ks.take(e + 1);
                    let t0 = ks.take(e as int);
                    if t1.contains(q) && q != ks[e as int] {
                        let i = choose|i: int| 0 <= i < t1.len() && #[trigger] t1[i] == q;
                        assert(t0[i] == q);
                    }
                    if t0.contains(q) {
                        let i = choose|i: int| 0 <= i < t0.len() && #[trigger] t0[i] == q;
                        assert(t1[i] == q);
                    }
                    if q == ks[e as int] {
                        assert(ks.take(e + 1)[e as int] == q);
                    }
                }
            }
            e += 1;
        }
        proof {
            assert(content.files.keys().take(content.files.entries@.len() as int) == content.files.keys());
            assert forall|q: Seq<char>| #[trigger] views(fingerprint_files@).contains(q) <==> exists|k: int|
                    0 <= k < mi + 1 && contents@[members@[k] as int].files.keys().contains(q) by {
                if views(fingerprint_files@).contains(q) && !before_files.contains(q) {
                    assert(contents@[members@[mi as int] as int].files.keys().contains(q));
                }
                if exists|k: int| 0 <= k < mi + 1 && contents@[members@[k] as int].files.keys().contains(q) {
                    let k = choose|k: int| 0 <= k < mi + 1 && contents@[members@[k] as int].files.keys().contains(q);
                    if k < mi {
                        assert(before_files.contains(q));
                    }
                }
            }
        }
        let review = review_instance(&content.instance);
        proof {
            broadcast use vstd::seq_lib::group_to_multiset_ensures;

            assert(reviews.take(mi + 1) == reviews.take(mi as int).push(reviews[mi as int]));
            assert(reviews[mi as int] == review);
        }
        insert_by_key(&mut instances, review);
        mi += 1;
    }
    assert(reviews.take(members@.len() as int) == reviews);
    let mut ids: Vec<String> = Vec::new();
    let mut k: usize = 0;
    while k < instances.len()
        invariant
            k <= instances@.len(),
            views(ids@) == instances@.map_values(|x: DuplicateReviewInstance| x.id@).take(k as int),
        decreases instances@.len() - k,
    {
        let id = instances[k].id.clone();
        proof {
            assert(views(ids@.push(id)) == views(ids@).push(id@));
            assert(instances@.map_values(|x: DuplicateReviewInstance| x.id@).take(k + 1)
                == instances@.map_values(|x: DuplicateReviewInstance| x.id@).take(k as int).push(instances@[k as int].id@));
        }
        ids.push(id);
        k += 1;
    }
    assert(instances@.map_values(|x: DuplicateReviewInstance| x.id@).take(instances@.len() as int)
        == instances@.map_values(|x: DuplicateReviewInstance| x.id@));
    proof {
        broadcast use vstd::seq_lib::group_to_multiset_ensures;

        assert(members@.len() > 0);
        assert(reviews.to_multiset().len() == reviews.len());
        assert(instances@.len() == instances@.to_multiset().len());
    }
    let name = group_display_name(&instances);
    let id = group_key(&ids);
    let scores = comparison_scores(&comparisons);
    proof {
        assert(scores@ =~= cs.map_values(|c: CandidatePair| c.comparison.similarity));
    }
    DuplicateGroup {
        id,
        name,
        status,
        similarity: GroupSimilarity { scores },
        hit_rules,
        fingerprint_files,
        instances,
        comparisons,
    }
}

/// The review priority of a status: name conflicts first, then suspected,
/// then exact duplicates.
pub open spec fn priority(status: DuplicateCheckStatus) -> u8 {
    match status {
        DuplicateCheckStatus::Unique => 0,
        DuplicateCheckStatus::Exact => 1,
        DuplicateCheckStatus::Suspected => 2,
        DuplicateCheckStatus::NameConflict => 3,
    }
}

/// The review priority of a status.
pub fn duplicate_status_priority(status: &DuplicateCheckStatus) -> (r: u8)
    ensures
        r == priority(*status),
{
    match status {
        DuplicateCheckStatus::Unique => 0,
        DuplicateCheckStatus::Exact => 1,
        DuplicateCheckStatus::Suspected => 2,
        DuplicateCheckStatus::NameConflict => 3,
    }
}

/// Group `a` comes strictly before group `b` by priority (higher first),
/// then by name.
pub open spec fn group_key_lt(a: DuplicateGroup, b: DuplicateGroup) -> bool {
    priority(a.status) > priority(b.status) || (priority(a.status) == priority(b.status)
        && crate::text::text_lt(a.name@, b.name@))
}

/// Group `a` comes before or together with group `b` by priority and name.
pub open spec fn group_key_le(a: DuplicateGroup, b: DuplicateGroup) -> bool {
    priority(a.status) > priority(b.status) || (priority(a.status) == priority(b.status)
        && text_le(a.name@, b.name@))
}

/// Group `a`, built `ia`-th, comes before group `b`, built `ib`-th: by
/// priority, then name, then the order in which they were built.
pub open spec fn group_order_lt(a: DuplicateGroup, ia: int, b: DuplicateGroup, ib: int) -> bool {
    group_key_lt(a, b) || (priority(a.status) == priority(b.status) && a.name@ == b.name@ && ia < ib)
}

/// `r` is `groups` in the order of `group_order_lt`: `perm` tells which
/// group each position holds.
pub open spec fn sorted_groups(r: Seq<DuplicateGroup>, groups: Seq<DuplicateGroup>, perm: Seq<int>) -> bool {
    &&& r.len() == groups.len()
    &&& perm.len() == groups.len()
    &&& forall|k: int| 0 <= k < perm.len() ==> 0 <= #[trigger] perm[k] < groups.len()
    &&& forall|k: int, l: int| 0 <= k < l < perm.len() ==> #[trigger] perm[k] != #[trigger] perm[l]
    &&& forall|k: int| 0 <= k < r.len() ==> #[trigger] r[k] == groups[perm[k]]
    &&& forall|k: int, l: int|
        0 <= k < l < r.len() ==> group_order_lt(#[trigger] r[k], perm[k], #[trigger] r[l], perm[l])
}

proof fn lemma_key_total(a: DuplicateGroup, b: DuplicateGroup)
    ensures
        !group_key_lt(a, b) ==> group_key_le(b, a),
{
    crate::text::lemma_text_le_total(a.name@, b.name@);
    if a.name@ == b.name@ {
        crate::text::lemma_text_le_refl(a.name@);
    }
}

proof fn lemma_key_lt_le(a: DuplicateGroup, b: DuplicateGroup, c: DuplicateGroup)
    requires
        group_key_lt(a, b),
        group_key_le(b, c),
    ensures
        group_key_lt(a, c),
{
    if priority(a.status) == priority(b.status) && priority(b.status) == priority(c.status) {
        crate::text::lemma_text_le_trans(a.name@, b.name@, c.name@);
        if a.name@ == c.name@ {
            crate::text::lemma_text_le_antisym(a.name@, b.name@);
        }
    }
}

proof fn lemma_order_key_le(a: DuplicateGroup, ia: int, b: DuplicateGroup, ib: int)
    requires
        group_order_lt(a, ia, b, ib),
    ensures
        group_key_le(a, b),
{
    if a.name@ == b.name@ {
        crate::text::lemma_text_le_refl(a.name@);
    }
}

fn order_before(a: &DuplicateGroup, b: &DuplicateGroup) -> (r: bool)
    ensures
        r == group_key_lt(*a, *b),
{
    let pa = duplicate_status_priority(&a.status);
    let pb = duplicate_status_priority(&b.status);
    if pa > pb {
        true
    } else if pa < pb {
        false
    } else {
        str_le(a.name.as_str(), b.name.as_str()) && !crate::text::str_eq(
            a.name.as_str(),
            b.name.as_str(),
        )
    }
}

/// Sorts groups by priority, then name, keeping the build order of ties.
pub fn sort_groups(groups: Vec<DuplicateGroup>) -> (r: Vec<DuplicateGroup>)
    ensures
        exists|perm: Seq<int>| sorted_groups(r@, groups@, perm),
{
    let ghost input = groups@;
    let mut out: Vec<DuplicateGroup> = Vec::new();
    let ghost mut perm: Seq<int> = Seq::empty();
    for g in it: groups.into_iter()
        invariant
            it.seq() == input,
            out@.len() == it.index(),
            perm.len() == it.index(),
            forall|k: int| 0 <= k < perm.len() ==> 0 <= #[trigger] perm[k] < it.index(),
            forall|k: int, l: int| 0 <= k < l < perm.len() ==> #[trigger] perm[k] != #[trigger] perm[l],
            forall|k: int| 0 <= k < out@.len() ==> #[trigger] out@[k] == input[perm[k]],
            forall|k: int, l: int|
                0 <= k < l < out@.len() ==> group_order_lt(
                    #[trigger] out@[k],
                    perm[k],
                    #[trigger] out@[l],
                    perm[l],
                ),
    {
        let ghost i: int = it.index() as int;
        assert(g == input[i]);
        let mut p: usize = 0;
        while p < out.len() && !order_before(&g, &out[p])
            invariant
                p <= out@.len(),
                forall|k: int| 0 <= k < p ==> !group_key_lt(g, #[trigger] out@[k]),
            decreases out@.len() - p,
        {
            p += 1;
        }
        let ghost old_out = out@;
        let ghost old_perm = perm;
        let ghost gv = g;
        out.insert(p, g);
        proof {
            perm = old_perm.insert(p as int, i);
            assert forall|k: int, l: int| 0 <= k < l < out@.len() implies group_order_lt(
                #[trigger] out@[k],
                perm[k],
                #[trigger] out@[l],
                perm[l],
            ) by {
                if l < p {
                    assert(group_order_lt(old_out[k], old_perm[k], old_out[l], old_perm[l]));
                } else if l == p {
                    lemma_key_total(gv, old_out[k]);
                    assert(old_perm[k] < i);
                } else if k < p {
                    lemma_key_total(gv, old_out[k]);
                    assert(group_key_lt(gv, old_out[p as int]));
                    if p < l - 1 {
                        assert(group_order_lt(old_out[p as int], old_perm[p as int], old_out[l - 1], old_perm[l - 1]));
                        lemma_order_key_le(old_out[p as int], old_perm[p as int], old_out[l - 1], old_perm[l - 1]);
                        lemma_key_lt_le(gv, old_out[p as int], old_out[l - 1]);
                    }
                    lemma_key_total(old_out[l - 1], gv);
                    if group_key_lt(old_out[k], gv) || !group_key_lt(gv, old_out[k]) {
                        lemma_key_total(gv, old_out[k]);
                        if group_key_lt(old_out[k], gv) {
                            assert(group_key_le(old_out[k], gv));
                        }
                        lemma_key_le_lt(old_out[k], gv, old_out[l - 1]);
                    }
                } else if k == p {
                    assert(group_key_lt(gv, old_out[p as int]));
                    if p < l - 1 {
                        assert(group_order_lt(old_out[p as int], old_perm[p as int], old_out[l - 1], old_perm[l - 1]));
                        lemma_order_key_le(old_out[p as int], old_perm[p as int], old_out[l - 1], old_perm[l - 1]);
                        lemma_key_lt_le(gv, old_out[p as int], old_out[l - 1]);
                    }
                } else {
                    assert(group_order_lt(old_out[k - 1], old_perm[k - 1], old_out[l - 1], old_perm[l - 1]));
                }
            }
        }
    }
    proof {
        assert(sorted_groups(out@, input, perm));
    }
    out
}

proof fn lemma_key_le_lt(a: DuplicateGroup, b: DuplicateGroup, c: DuplicateGroup)
    requires
        group_key_le(a, b),
        group_key_lt(b, c),
    ensures
        group_key_lt(a, c),
{
    if priority(a.status) == priority(b.status) && priority(b.status) == priority(c.status) {
        crate::text::lemma_text_le_trans(a.name@, b.name@, c.name@);
        if a.name@ == c.name@ {
            crate::text::lemma_text_le_antisym(b.name@, c.name@);
        }
    }
}

proof fn lemma_members_in_range(labels: Seq<usize>, root: int)
    ensures
        forall|k: int|
            0 <= k < members_of(labels, root).len() ==> #[trigger] members_of(labels, root)[k]
                < labels.len(),
    decreases labels.len(),
{
    if labels.len() > 0 {
        lemma_members_in_range(labels.drop_last(), root);
        let prev = members_of(labels.drop_last(), root);
        let all = members_of(labels, root);
        assert forall|k: int| 0 <= k < all.len() implies #[trigger] all[k] < labels.len() by {
            if k < prev.len() {
                assert(all[k] == prev[k]);
            }
        }
    }
}

proof fn lemma_labels_len(n: nat, pairs: Seq<(usize, usize)>)
    ensures
        labels_after(n, pairs).len() == n,
    decreases pairs.len(),
{
    if pairs.len() > 0 {
        lemma_labels_len(n, pairs.drop_last());
    }
}

proof fn lemma_big_components(labels: Seq<usize>, upto: int)
    ensures
        forall|c: int|
            0 <= c < big_components(labels, upto).len() ==> (#[trigger] big_components(
                labels,
                upto,
            )[c]).len() > 1 && forall|k: int|
                0 <= k < big_components(labels, upto)[c].len() ==> #[trigger] big_components(
                    labels,
                    upto,
                )[c][k] < labels.len(),
    decreases upto,
{
    if upto > 0 {
        lemma_big_components(labels, upto - 1);
        lemma_members_in_range(labels, upto - 1);
        let prev = big_components(labels, upto - 1);
        let all = big_components(labels, upto);
        assert forall|c: int| 0 <= c < all.len() implies (#[trigger] all[c]).len() > 1
            && forall|k: int| 0 <= k < all[c].len() ==> #[trigger] all[c][k] < labels.len() by {
            if c < prev.len() {
                assert(all[c] == prev[c]);
            } else {
                assert(all[c] == members_of(labels, upto - 1));
            }
        }
    }
}

proof fn lemma_members_label(labels: Seq<usize>, root: int)
    requires
        labels.len() <= usize::MAX,
    ensures
        forall|k: int|
            0 <= k < members_of(labels, root).len() ==> (#[trigger] members_of(labels, root)[k]
                < labels.len() && labels[members_of(labels, root)[k] as int] == root),
        forall|k1: int, k2: int|
            0 <= k1 < k2 < members_of(labels, root).len() ==> #[trigger] members_of(labels, root)[k1]
                < #[trigger] members_of(labels, root)[k2],
    decreases labels.len(),
{
    if labels.len() > 0 {
        let front = labels.drop_last();
        lemma_members_label(front, root);
        let prev = members_of(front, root);
        let all = members_of(labels, root);
        let last: Seq<usize> = if labels.last() == root {
            seq![(labels.len() - 1) as usize]
        } else {
            seq![]
        };
        assert(all == prev + last);
        assert forall|k: int| 0 <= k < all.len() implies (#[trigger] all[k] < labels.len()
            && labels[all[k] as int] == root) by {
            if k < prev.len() {
                assert(all[k] == prev[k]);
                assert(front[prev[k] as int] == labels[prev[k] as int]);
            } else {
                assert(all[k] == last[0]);
                assert(labels[labels.len() - 1] == labels.last());
            }
        }
        assert forall|k1: int, k2: int| 0 <= k1 < k2 < all.len() implies #[trigger] all[k1]
            < #[trigger] all[k2] by {
            if k2 < prev.len() {
                assert(all[k1] == prev[k1] && all[k2] == prev[k2]);
            } else {
                assert(all[k1] == prev[k1]);
                assert(all[k2] == last[0]);
                assert(prev[k1] < front.len());
            }
        }
    }
}

/// The labels of the components of more than one member, in order.
pub open spec fn big_roots(labels: Seq<usize>, upto: int) -> Seq<int>
    decreases upto,
{
    if upto <= 0 {
        seq![]
    } else {
        big_roots(labels, upto - 1) + (if members_of(labels, upto - 1).len() > 1 {
            seq![upto - 1]
        } else {
            seq![]
        })
    }
}

proof fn lemma_big_roots(labels: Seq<usize>, upto: int)
    ensures
        big_roots(labels, upto).len() == big_components(labels, upto).len(),
        forall|c: int|
            0 <= c < big_roots(labels, upto).len() ==> big_components(labels, upto)[c] == members_of(
                labels,
                #[trigger] big_roots(labels, upto)[c],
            ) && big_roots(labels, upto)[c] < upto,
        forall|c1: int, c2: int|
            0 <= c1 < c2 < big_roots(labels, upto).len() ==> #[trigger] big_roots(labels, upto)[c1]
                < #[trigger] big_roots(labels, upto)[c2],
    decreases upto,
{
    if upto > 0 {
        lemma_big_roots(labels, upto - 1);
        let pr = big_roots(labels, upto - 1);
        let r = big_roots(labels, upto);
        let pb = big_components(labels, upto - 1);
        let b = big_components(labels, upto);
        assert forall|c: int| 0 <= c < r.len() implies b[c] == members_of(labels, #[trigger] r[c])
            && r[c] < upto by {
            if c < pr.len() {
                assert(r[c] == pr[c] && b[c] == pb[c]);
            }
        }
        assert forall|c1: int, c2: int| 0 <= c1 < c2 < r.len() implies #[trigger] r[c1]
            < #[trigger] r[c2] by {
            if c2 < pr.len() {
                assert(r[c1] == pr[c1] && r[c2] == pr[c2]);
            } else {
                assert(r[c1] == pr[c1]);
            }
        }
    }
}

/// The duplicate groups split the instances: each group holds at least two
/// instances, each once, in index order, and no instance lies in two groups.
pub proof fn duplicate_groups_are_disjoint(labels: Seq<usize>)
    requires
        labels.len() <= usize::MAX,
    ensures
        forall|c: int|
            0 <= c < big_components(labels, labels.len() as int).len() ==> (#[trigger] big_components(
                labels,
                labels.len() as int,
            )[c]).len() >= 2,
        forall|c: int, k1: int, k2: int|
            0 <= c < big_components(labels, labels.len() as int).len() && 0 <= k1 < k2
                < big_components(labels, labels.len() as int)[c].len() ==> #[trigger] big_components(
                labels,
                labels.len() as int,
            )[c][k1] < #[trigger] big_components(labels, labels.len() as int)[c][k2],
        forall|c1: int, c2: int, k1: int, k2: int|
            0 <= c1 < big_components(labels, labels.len() as int).len() && 0 <= c2
                < big_components(labels, labels.len() as int).len() && c1 != c2 && 0 <= k1
                < big_components(labels, labels.len() as int)[c1].len() && 0 <= k2
                < big_components(labels, labels.len() as int)[c2].len() ==> #[trigger] big_components(
                labels,
                labels.len() as int,
            )[c1][k1] != #[trigger] big_components(labels, labels.len() as int)[c2][k2],
{
    let n = labels.len() as int;
    let g = big_components(labels, n);
    let r = big_roots(labels, n);
    lemma_big_components(labels, n);
    lemma_big_roots(labels, n);
    assert forall|c: int, k1: int, k2: int| 0 <= c < g.len() && 0 <= k1 < k2 < g[c].len() implies #[trigger] g[c][k1]
        < #[trigger] g[c][k2] by {
        lemma_members_label(labels, r[c]);
        assert(g[c] == members_of(labels, r[c]));
    }
    assert forall|c1: int, c2: int, k1: int, k2: int|
        0 <= c1 < g.len() && 0 <= c2 < g.len() && c1 != c2 && 0 <= k1 < g[c1].len() && 0 <= k2
            < g[c2].len() implies #[trigger] g[c1][k1] != #[trigger] g[c2][k2] by {
        lemma_members_label(labels, r[c1]);
        lemma_members_label(labels, r[c2]);
        assert(g[c1] == members_of(labels, r[c1]));
        assert(g[c2] == members_of(labels, r[c2]));
        assert(labels[g[c1][k1] as int] == r[c1]);
        assert(labels[g[c2][k2] as int] == r[c2]);
        if c1 < c2 {
            assert(r[c1] < r[c2]);
        } else {
            assert(r[c2] < r[c1]);
        }
    }
}

/// The duplicate groups of the candidate pairs: the components of more than
/// one instance that the pairs link, each built by `build_group`, sorted by
/// priority, then name, then component label.
pub fn build_groups(contents: &Vec<InstanceContent>, candidates: &Vec<CandidatePair>) -> (r: Vec<
    DuplicateGroup,
>)
    requires
        forall|k: int| 0 <= k < contents@.len() ==> (#[trigger] contents@[k]).wf(),
    ensures
        ({
            let comps = big_components(
                labels_after(contents@.len() as nat, candidate_pairs(candidates@)),
                contents@.len() as int,
            );
            exists|built: Seq<DuplicateGroup>, perm: Seq<int>|
                {
                    &&& built.len() == comps.len()
                    &&& forall|c: int|
                        0 <= c < comps.len() ==> group_holds(
                            #[trigger] built[c],
                            contents@,
                            candidates@,
                            comps[c],
                        )
                    &&& sorted_groups(r@, built, perm)
                }
        }),
{
    let labels = component_labels(contents.len(), candidates);
    let comps = component_members(&labels);
    proof {
        lemma_labels_len(contents@.len() as nat, candidate_pairs(candidates@));
        lemma_big_components(labels@, labels@.len() as int);
    }
    let mut built: Vec<DuplicateGroup> = Vec::new();
    let mut c: usize = 0;
    while c < comps.len()
        invariant
            c <= comps@.len(),
            labels@.len() == contents@.len(),
            labels@ == labels_after(contents@.len() as nat, candidate_pairs(candidates@)),
            comps@.len() == big_components(labels@, labels@.len() as int).len(),
            forall|k: int|
                0 <= k < comps@.len() ==> #[trigger] comps@[k]@ == big_components(
                    labels@,
                    labels@.len() as int,
                )[k],
            forall|k: int| 0 <= k < contents@.len() ==> (#[trigger] contents@[k]).wf(),
            forall|cc: int|
                0 <= cc < big_components(labels@, labels@.len() as int).len() ==> (
                #[trigger] big_components(labels@, labels@.len() as int)[cc]).len() > 1
                    && forall|k: int|
                    0 <= k < big_components(labels@, labels@.len() as int)[cc].len()
                        ==> #[trigger] big_components(labels@, labels@.len() as int)[cc][k]
                        < labels@.len(),
            built@.len() == c,
            forall|k: int|
                0 <= k < c ==> group_holds(
                    #[trigger] built@[k],
                    contents@,
                    candidates@,
                    comps@[k]@,
                ),
        decreases comps@.len() - c,
    {
        let g = build_group(contents, candidates, &comps[c]);
        built.push(g);
        c += 1;
    }
    let ghost built_seq = built@;
    let r = sort_groups(built);
    proof {
        let comps_spec = big_components(labels@, labels@.len() as int);
        assert forall|cc: int| 0 <= cc < comps_spec.len() implies group_holds(
            #[trigger] built_seq[cc],
            contents@,
            candidates@,
            comps_spec[cc],
        ) by {
            assert(comps@[cc]@ == comps_spec[cc]);
        }
    }
    r
}

/// How the user settled a duplicate candidate group.
#[derive(Debug, Clone, Copy, PartialEq, Eq)]
pub enum DuplicateDecisionKind {
    NotDuplicate,
    Ignored,
}

/// A stored decision about a set of instances.
#[derive(Debug, Clone, PartialEq, Eq)]
pub struct DuplicateDecisionRecord {
    pub id: i64,
    pub instance_ids: Vec<String>,
    pub kind: DuplicateDecisionKind,
    pub created_at: i64,
}

/// The text that stores a decision kind.
pub open spec fn decision_kind_text(kind: DuplicateDecisionKind) -> Seq<char> {
    match kind {
        DuplicateDecisionKind::NotDuplicate => "not_duplicate"@,
        DuplicateDecisionKind::Ignored => "ignored"@,
    }
}

/// The text that stores a decision kind.
pub fn decision_kind_database(kind: &DuplicateDecisionKind) -> (r: &'static str)
    ensures
        r@ == decision_kind_text(*kind),
{
    match kind {
        DuplicateDecisionKind::NotDuplicate => "not_duplicate",
        DuplicateDecisionKind::Ignored => "ignored",
    }
}

/// The decision kind stored as `value`: `not_duplicate`, and `ignored` for
/// anything else.
pub fn decision_kind_from_database(value: &str) -> (r: DuplicateDecisionKind)
    ensures
        r == (if value@ == "not_duplicate"@ {
            DuplicateDecisionKind::NotDuplicate
        } else {
            DuplicateDecisionKind::Ignored
        }),
{
    if crate::text::str_eq(value, "not_duplicate") {
        DuplicateDecisionKind::NotDuplicate
    } else {
        DuplicateDecisionKind::Ignored
    }
}

/// A decision kind survives being stored and read back.
pub proof fn decision_kind_round_trip(kind: DuplicateDecisionKind)
    ensures
        (if decision_kind_text(kind) == "not_duplicate"@ {
            DuplicateDecisionKind::NotDuplicate
        } else {
            DuplicateDecisionKind::Ignored
        }) == kind,
{
    reveal_strlit("not_duplicate");
    reveal_strlit("ignored");
    if kind == DuplicateDecisionKind::Ignored {
        assert("ignored"@[0] != "not_duplicate"@[0]);
    }
}

/// Whether `key` is the pair key of two different members of a decision.
pub open spec fn decided_pair(decisions: Seq<DuplicateDecisionRecord>, key: Seq<char>) -> bool {
    exists|d: int, i: int, j: int|
        0 <= d < decisions.len() && 0 <= i < j < decisions[d].instance_ids@.len() && key
            == #[trigger] pair_key_spec(
            decisions[d].instance_ids@[i]@,
            decisions[d].instance_ids@[j]@,
        )
}

/// The pair keys that decisions suppress: every pair of ids within one
/// decision.
pub fn suppressed_pairs(decisions: &Vec<DuplicateDecisionRecord>) -> (r: Vec<String>)
    ensures
        forall|q: Seq<char>| #[trigger] views(r@).contains(q) <==> decided_pair(decisions@, q),
{
    let mut pairs: Vec<String> = Vec::new();
    let mut d: usize = 0;
    while d < decisions.len()
        invariant
            d <= decisions@.len(),
            forall|q: Seq<char>|
                #[trigger] views(pairs@).contains(q) <==> decided_pair(decisions@.take(d as int), q),
        decreases decisions@.len() - d,
    {
        let ids = &decisions[d].instance_ids;
        let ghost before = views(pairs@);
        let mut left: usize = 0;
        while left < ids.len()
            invariant
                left <= ids@.len(),
                ids == decisions@[d as int].instance_ids,
                d < decisions@.len(),
                forall|q: Seq<char>|
                    #[trigger] views(pairs@).contains(q) <==> before.contains(q) || exists|i: int, j: int|
                        0 <= i < left && i < j < ids@.len() && q == pair_key_spec(ids@[i]@, ids@[j]@),
            decreases ids@.len() - left,
        {
            let mut right = left + 1;
            let ghost mid = views(pairs@);
            while right < ids.len()
                invariant
                    left < ids@.len(),
                    left + 1 <= right <= ids@.len(),
                    forall|q: Seq<char>|
                        #[trigger] views(pairs@).contains(q) <==> mid.contains(q) || exists|j: int|
                            left < j < right && q == pair_key_spec(ids@[left as int]@, ids@[j]@),
                decreases ids@.len() - right,
            {
                let key = pair_key(ids[left].as_str(), ids[right].as_str());
                let ghost prev = views(pairs@);
                proof {
                    assert(views(pairs@.push(key)) == prev.push(key@));
                }
                pairs.push(key);
                proof {
                    assert forall|q: Seq<char>| #[trigger] views(pairs@).contains(q) <==> mid.contains(q) || exists|j: int|
                            left < j < right + 1 && q == pair_key_spec(ids@[left as int]@, ids@[j]@) by {
                        if views(pairs@).contains(q) && q != key@ {
                            let k = choose|k: int| 0 <= k < views(pairs@).len() && #[trigger] views(pairs@)[k] == q;
                            assert(prev[k] == q);
                        }
                        if prev.contains(q) {
                            let k = choose|k: int| 0 <= k < prev.len() && #[trigger] prev[k] == q;
                            assert(views(pairs@)[k] == q);
                        }
                        if q == key@ {
                            assert(views(pairs@)[prev.len() as int] == q);
                        }
                    }
                }
                right += 1;
            }
            left += 1;
        }
        proof {
            let dt = decisions@.take(d + 1);
            assert forall|q: Seq<char>| #[trigger] views(pairs@).contains(q) <==> decided_pair(dt, q) by {
                if views(pairs@).contains(q) {
                    if before.contains(q) {
                        let (dd, i, j) = choose|dd: int, i: int, j: int|
                            0 <= dd < decisions@.take(d as int).len() && 0 <= i < j < decisions@.take(d as int)[dd].instance_ids@.len() && q
                                == #[trigger] pair_key_spec(
                                decisions@.take(d as int)[dd].instance_ids@[i]@,
                                decisions@.take(d as int)[dd].instance_ids@[j]@,
                            );
                        assert(dt[dd] == decisions@.take(d as int)[dd]);
                    } else {
                        let (i, j) = choose|i: int, j: int|
                            0 <= i < ids@.len() && i < j < ids@.len() && q == pair_key_spec(ids@[i]@, ids@[j]@);
                        assert(dt[d as int] == decisions@[d as int]);
                        assert(q == pair_key_spec(dt[d as int].instance_ids@[i]@, dt[d as int].instance_ids@[j]@));
                    }
                }
                if decided_pair(dt, q) {
                    let (dd, i, j) = choose|dd: int, i: int, j: int|
                        0 <= dd < dt.len() && 0 <= i < j < dt[dd].instance_ids@.len() && q
                            == #[trigger] pair_key_spec(dt[dd].instance_ids@[i]@, dt[dd].instance_ids@[j]@);
                    if dd < d {
                        assert(decisions@.take(d as int)[dd] == dt[dd]);
                        assert(decided_pair(decisions@.take(d as int), q));
                    } else {
                        assert(dt[dd] == decisions@[d as int]);
                    }
                }
            }
        }
        d += 1;
    }
    assert(decisions@.take(decisions@.len() as int) == decisions@);
    pairs
}

/// The outcome of a duplicate review.
pub struct DuplicateReview {
    pub groups: Vec<DuplicateGroup>,
    pub suppressed_count: usize,
}

/// Whether the pair `(l, r)` of contents is a candidate: it is classified
/// as some kind of duplicate and no decision suppresses it.
pub open spec fn is_candidate(
    contents: Seq<InstanceContent>,
    decisions: Seq<DuplicateDecisionRecord>,
    l: int,
    r: int,
) -> bool {
    &&& pair_status(
        same_tree(contents[l].files, contents[r].files),
        same_name_of(contents[l], contents[r]),
        meets_threshold(similarity_of(contents[l], contents[r])),
    ) != DuplicateCheckStatus::Unique
    &&& !decided_pair(decisions, pair_key_spec(contents[l].instance.id@, contents[r].instance.id@))
}

proof fn lemma_decided_after_remove(decisions: Seq<DuplicateDecisionRecord>, i: int, key: Seq<char>)
    requires
        0 <= i < decisions.len(),
    ensures
        decided_pair(decisions.remove(i), key) ==> decided_pair(decisions, key),
        decided_pair(seq![decisions[i]], key) ==> decided_pair(decisions, key),
        decided_pair(decisions, key) ==> decided_pair(decisions.remove(i), key) || decided_pair(
            seq![decisions[i]],
            key,
        ),
{
    let rest = decisions.remove(i);
    if decided_pair(rest, key) {
        let (d, a, b) = choose|d: int, a: int, b: int|
            0 <= d < rest.len() && 0 <= a < b < rest[d].instance_ids@.len() && key
                == #[trigger] pair_key_spec(rest[d].instance_ids@[a]@, rest[d].instance_ids@[b]@);
        let e = if d < i { d } else { d + 1 };
        assert(rest[d] == decisions[e]);
        assert(key == pair_key_spec(decisions[e].instance_ids@[a]@, decisions[e].instance_ids@[b]@));
    }
    if decided_pair(seq![decisions[i]], key) {
        let (d, a, b) = choose|d: int, a: int, b: int|
            0 <= d < 1 && 0 <= a < b < seq![decisions[i]][d].instance_ids@.len() && key
                == #[trigger] pair_key_spec(
                seq![decisions[i]][d].instance_ids@[a]@,
                seq![decisions[i]][d].instance_ids@[b]@,
            );
        assert(key == pair_key_spec(decisions[i].instance_ids@[a]@, decisions[i].instance_ids@[b]@));
    }
    if decided_pair(decisions, key) {
        let (d, a, b) = choose|d: int, a: int, b: int|
            0 <= d < decisions.len() && 0 <= a < b < decisions[d].instance_ids@.len() && key
                == #[trigger] pair_key_spec(decisions[d].instance_ids@[a]@, decisions[d].instance_ids@[b]@);
        if d < i {
            assert(rest[d] == decisions[d]);
            assert(key == pair_key_spec(rest[d].instance_ids@[a]@, rest[d].instance_ids@[b]@));
        } else if d > i {
            assert(rest[d - 1] == decisions[d]);
            assert(key == pair_key_spec(rest[d - 1].instance_ids@[a]@, rest[d - 1].instance_ids@[b]@));
        } else {
            assert(seq![decisions[i]][0] == decisions[i]);
            assert(key == pair_key_spec(
                seq![decisions[i]][0].instance_ids@[a]@,
                seq![decisions[i]][0].instance_ids@[b]@,
            ));
        }
    }
}

/// Restoring a stored decision hides no pair that was shown, and brings
/// back exactly the duplicate pairs that only it hid.
pub proof fn restoring_a_decision_brings_back_its_pairs(
    contents: Seq<InstanceContent>,
    decisions: Seq<DuplicateDecisionRecord>,
    i: int,
    l: int,
    r: int,
)
    requires
        0 <= i < decisions.len(),
    ensures
        is_candidate(contents, decisions, l, r) ==> is_candidate(contents, decisions.remove(i), l, r),
        is_candidate(contents, decisions.remove(i), l, r) && !is_candidate(contents, decisions, l, r)
            ==> decided_pair(
            seq![decisions[i]],
            pair_key_spec(contents[l].instance.id@, contents[r].instance.id@),
        ),
        (pair_status(
            same_tree(contents[l].files, contents[r].files),
            same_name_of(contents[l], contents[r]),
            meets_threshold(similarity_of(contents[l], contents[r])),
        ) != DuplicateCheckStatus::Unique && !decided_pair(
            decisions.remove(i),
            pair_key_spec(contents[l].instance.id@, contents[r].instance.id@),
        )) ==> is_candidate(contents, decisions.remove(i), l, r),
{
    lemma_decided_after_remove(
        decisions,
        i,
        pair_key_spec(contents[l].instance.id@, contents[r].instance.id@),
    );
}

/// The candidate pairs `(l, r)` with `l < r`, for `l` below `upto` and, in
/// the last row, `r` below `rupto`, in order.
pub open spec fn candidates_upto(
    contents: Seq<InstanceContent>,
    decisions: Seq<DuplicateDecisionRecord>,
    l: int,
    r: int,
) -> Seq<(usize, usize)>
    decreases l, r,
{
    if l < 0 || r < 0 || l >= contents.len() {
        seq![]
    } else if r <= l + 1 {
        if l == 0 {
            seq![]
        } else {
            candidates_upto(contents, decisions, l - 1, contents.len() as int)
        }
    } else {
        candidates_upto(contents, decisions, l, r - 1) + (if r - 1 < contents.len()
            && is_candidate(contents, decisions, l, r - 1) {
            seq![(l as usize, (r - 1) as usize)]
        } else {
            seq![]
        })
    }
}

/// All candidate pairs, in order of the left index, then the right index.
pub open spec fn all_candidates(
    contents: Seq<InstanceContent>,
    decisions: Seq<DuplicateDecisionRecord>,
) -> Seq<(usize, usize)> {
    if contents.len() == 0 {
        seq![]
    } else {
        candidates_upto(contents, decisions, contents.len() - 1, contents.len() as int)
    }
}

/// The instances a duplicate review looks at: those that are ready.
pub fn reviewable_instances(instances: &Vec<crate::SkillInstance>) -> (r: Vec<crate::SkillInstance>)
    ensures
        r@ == instances@.filter(|i: crate::SkillInstance| i.status == crate::SkillStatus::Ready),
{
    let ghost pred = |i: crate::SkillInstance| i.status == crate::SkillStatus::Ready;
    let mut r: Vec<crate::SkillInstance> = Vec::new();
    let mut k: usize = 0;
    while k < instances.len()
        invariant
            k <= instances@.len(),
            pred == (|i: crate::SkillInstance| i.status == crate::SkillStatus::Ready),
            r@ == instances@.take(k as int).filter(pred),
        decreases instances@.len() - k,
    {
        proof {
            reveal(Seq::filter);
            assert(instances@.take(k + 1).drop_last() == instances@.take(k as int));
        }
        let ready = match instances[k].status {
            crate::SkillStatus::Ready => true,
            crate::SkillStatus::NeedsRepair => false,
        };
        if ready {
            r.push(instances[k].copy());
        }
        k += 1;
    }
    assert(instances@.take(instances@.len() as int) == instances@);
    r
}

/// The comparison of a candidate is that of its two instances.
pub open spec fn candidate_holds(cand: CandidatePair, contents: Seq<InstanceContent>) -> bool {
    let l = contents[cand.left as int];
    let r = contents[cand.right as int];
    &&& cand.left < contents.len()
    &&& cand.right < contents.len()
    &&& comparison_holds(
        cand.comparison,
        l,
        r,
        PairClassification {
            status: pair_status(
                same_tree(l.files, r.files),
                same_name_of(l, r),
                meets_threshold(similarity_of(l, r)),
            ),
            similarity: similarity_of(l, r),
            hit_rules: cand.comparison.hit_rules,
        },
    )
    &&& cand.comparison.hit_rules@ == pair_hit_rules(
        same_tree(l.files, r.files),
        same_name_of(l, r),
        meets_threshold(similarity_of(l, r)),
    )
}

/// The groups `groups` are those that `build_groups` makes of `cands`.
pub open spec fn groups_of(
    groups: Seq<DuplicateGroup>,
    contents: Seq<InstanceContent>,
    cands: Seq<CandidatePair>,
) -> bool {
    let comps = big_components(
        labels_after(contents.len() as nat, candidate_pairs(cands)),
        contents.len() as int,
    );
    exists|built: Seq<DuplicateGroup>, perm: Seq<int>|
        {
            &&& built.len() == comps.len()
            &&& forall|c: int|
                0 <= c < comps.len() ==> group_holds(#[trigger] built[c], contents, cands, comps[c])
            &&& sorted_groups(groups, built, perm)
        }
}

proof fn lemma_candidates_upto(
    contents: Seq<InstanceContent>,
    decisions: Seq<DuplicateDecisionRecord>,
    l: int,
    r: int,
)
    requires
        contents.len() <= usize::MAX,
    ensures
        forall|k: int|
            0 <= k < candidates_upto(contents, decisions, l, r).len() ==> {
                let p = #[trigger] candidates_upto(contents, decisions, l, r)[k];
                &&& p.0 < p.1 < contents.len()
                &&& is_candidate(contents, decisions, p.0 as int, p.1 as int)
            },
    decreases l, r,
{
    if l < 0 || r < 0 || l >= contents.len() {
    } else if r <= l + 1 {
        if l != 0 {
            lemma_candidates_upto(contents, decisions, l - 1, contents.len() as int);
            assert(candidates_upto(contents, decisions, l, r) == candidates_upto(
                contents,
                decisions,
                l - 1,
                contents.len() as int,
            ));
        }
    } else {
        lemma_candidates_upto(contents, decisions, l, r - 1);
        let prev = candidates_upto(contents, decisions, l, r - 1);
        let all = candidates_upto(contents, decisions, l, r);
        assert forall|k: int| 0 <= k < all.len() implies {
            let p = #[trigger] all[k];
            &&& p.0 < p.1 < contents.len()
            &&& is_candidate(contents, decisions, p.0 as int, p.1 as int)
        } by {
            if k < prev.len() {
                assert(all[k] == prev[k]);
            } else {
                assert(all[k] == (l as usize, (r - 1) as usize));
                assert((l as usize) as int == l);
                assert(((r - 1) as usize) as int == r - 1);
            }
        }
    }
}

proof fn lemma_group_candidates_from(cands: Seq<CandidatePair>, members: Seq<usize>)
    ensures
        forall|k: int|
            0 <= k < group_candidates(cands, members).len() ==> exists|j: int|
                0 <= j < cands.len() && cands[j] == #[trigger] group_candidates(cands, members)[k],
    decreases cands.len(),
{
    if cands.len() > 0 {
        lemma_group_candidates_from(cands.drop_last(), members);
        let prev = group_candidates(cands.drop_last(), members);
        let all = group_candidates(cands, members);
        assert forall|k: int| 0 <= k < all.len() implies exists|j: int|
            0 <= j < cands.len() && cands[j] == #[trigger] all[k] by {
            if k < prev.len() {
                assert(all[k] == prev[k]);
                let j = choose|j: int| 0 <= j < cands.drop_last().len() && cands.drop_last()[j] == prev[k];
                assert(cands[j] == all[k]);
            } else {
                assert(all[k] == cands.last());
                assert(cands[cands.len() - 1] == all[k]);
            }
        }
    }
}

/// Duplicate review never compares two instances that one stored decision
/// names together, and every group holds at least two of the reviewed
/// instances: when only ready instances are reviewed, only ready ones.
pub proof fn review_respects_decisions(
    groups: Seq<DuplicateGroup>,
    contents: Seq<InstanceContent>,
    decisions: Seq<DuplicateDecisionRecord>,
    cands: Seq<CandidatePair>,
)
    requires
        candidate_pairs(cands) == all_candidates(contents, decisions),
        forall|k: int| 0 <= k < cands.len() ==> candidate_holds(#[trigger] cands[k], contents),
        groups_of(groups, contents, cands),
        contents.len() <= usize::MAX,
    ensures
        forall|g: int, c: int|
            0 <= g < groups.len() && 0 <= c < groups[g].comparisons@.len() ==> !decided_pair(
                decisions,
                pair_key_spec(
                    (#[trigger] groups[g].comparisons@[c]).left_instance_id@,
                    groups[g].comparisons@[c].right_instance_id@,
                ),
            ),
        forall|g: int| 0 <= g < groups.len() ==> (#[trigger] groups[g]).instances@.len() >= 2,
        forall|g: int, i: int|
            0 <= g < groups.len() && 0 <= i < groups[g].instances@.len() ==> exists|m: int|
                0 <= m < contents.len() && #[trigger] groups[g].instances@[i] == review_of(
                    contents[m].instance,
                ),
        (forall|k: int| 0 <= k < contents.len() ==> (#[trigger] contents[k]).instance.status
            == crate::SkillStatus::Ready) ==> forall|g: int, i: int|
            0 <= g < groups.len() && 0 <= i < groups[g].instances@.len() ==> exists|m: int|
                0 <= m < contents.len() && #[trigger] groups[g].instances@[i] == review_of(
                    contents[m].instance,
                ) && contents[m].instance.status == crate::SkillStatus::Ready,
{
    broadcast use vstd::seq_lib::group_to_multiset_ensures;

    let n = contents.len() as nat;
    let labels = labels_after(n, candidate_pairs(cands));
    let comps = big_components(labels, contents.len() as int);
    lemma_labels_len(n, candidate_pairs(cands));
    lemma_big_components(labels, contents.len() as int);
    if contents.len() > 0 {
        lemma_candidates_upto(contents, decisions, contents.len() - 1, contents.len() as int);
    }
    let all = all_candidates(contents, decisions);
    assert forall|j: int| 0 <= j < cands.len() implies !decided_pair(
        decisions,
        pair_key_spec(
            (#[trigger] cands[j]).comparison.left_instance_id@,
            cands[j].comparison.right_instance_id@,
        ),
    ) by {
        assert(candidate_pairs(cands)[j] == (cands[j].left, cands[j].right));
        assert(all[j] == (cands[j].left, cands[j].right));
        assert(candidate_holds(cands[j], contents));
    }
    let (built, perm) = choose|built: Seq<DuplicateGroup>, perm: Seq<int>|
        {
            &&& built.len() == comps.len()
            &&& forall|c: int|
                0 <= c < comps.len() ==> group_holds(#[trigger] built[c], contents, cands, comps[c])
            &&& sorted_groups(groups, built, perm)
        };
    assert forall|g: int, c: int| 0 <= g < groups.len() && 0 <= c < groups[g].comparisons@.len() implies !decided_pair(
        decisions,
        pair_key_spec(
            (#[trigger] groups[g].comparisons@[c]).left_instance_id@,
            groups[g].comparisons@[c].right_instance_id@,
        ),
    ) by {
        let b = perm[g];
        assert(groups[g] == built[b]);
        assert(group_holds(built[b], contents, cands, comps[b]));
        let cs = group_candidates(cands, comps[b]);
        lemma_group_candidates_from(cands, comps[b]);
        assert(same_comparison(built[b].comparisons@[c], cs[c].comparison));
        let j = choose|j: int| 0 <= j < cands.len() && cands[j] == cs[c];
        assert(cands[j] == cs[c]);
    }
    assert forall|g: int| 0 <= g < groups.len() implies (#[trigger] groups[g]).instances@.len() >= 2 by {
        let b = perm[g];
        assert(groups[g] == built[b]);
        assert(group_holds(built[b], contents, cands, comps[b]));
        let mapped = comps[b].map_values(|m: usize| review_of(contents[m as int].instance));
        assert(built[b].instances@.to_multiset().len() == mapped.to_multiset().len());
        assert(comps[b].len() > 1);
    }
    assert forall|g: int, i: int| 0 <= g < groups.len() && 0 <= i < groups[g].instances@.len() implies exists|m: int|
        0 <= m < contents.len() && #[trigger] groups[g].instances@[i] == review_of(contents[m].instance) by {
        let b = perm[g];
        assert(groups[g] == built[b]);
        assert(group_holds(built[b], contents, cands, comps[b]));
        let mapped = comps[b].map_values(|m: usize| review_of(contents[m as int].instance));
        let x = built[b].instances@[i];
        assert(built[b].instances@.contains(x));
        assert(built[b].instances@.to_multiset().count(x) > 0);
        assert(mapped.to_multiset().count(x) > 0);
        assert(mapped.contains(x));
        let k = choose|k: int| 0 <= k < mapped.len() && mapped[k] == x;
        assert(comps[b][k] < labels.len());
        assert(x == review_of(contents[comps[b][k] as int].instance));
    }
}

/// Reviews the contents of ready instances for duplicates: every pair that
/// is some kind of duplicate and not suppressed by a decision becomes a
/// candidate, and the candidates are grouped.
pub fn review_groups(
    contents: &Vec<InstanceContent>,
    decisions: &Vec<DuplicateDecisionRecord>,
) -> (r: DuplicateReview)
    requires
        forall|k: int| 0 <= k < contents@.len() ==> (#[trigger] contents@[k]).wf(),
        forall|k: int|
            0 <= k < contents@.len() ==> (#[trigger] contents@[k]).bigram_model@.len() <= usize::MAX
                / 2,
    ensures
        r.suppressed_count == decisions@.len(),
        exists|cands: Seq<CandidatePair>|
            {
                &&& candidate_pairs(cands) == all_candidates(contents@, decisions@)
                &&& forall|k: int| 0 <= k < cands.len() ==> candidate_holds(#[trigger] cands[k], contents@)
                &&& groups_of(r.groups@, contents@, cands)
            },
{
    let suppressed = suppressed_pairs(decisions);
    let n = contents.len();
    let mut candidates: Vec<CandidatePair> = Vec::new();
    let mut left: usize = 0;
    while left < n
        invariant
            left <= n == contents@.len(),
            forall|k: int| 0 <= k < contents@.len() ==> (#[trigger] contents@[k]).wf(),
            forall|k: int|
                0 <= k < contents@.len() ==> (#[trigger] contents@[k]).bigram_model@.len()
                    <= usize::MAX / 2,
            forall|q: Seq<char>| #[trigger] views(suppressed@).contains(q) <==> decided_pair(decisions@, q),
            candidate_pairs(candidates@) == (if left == 0 {
                Seq::<(usize, usize)>::empty()
            } else {
                candidates_upto(contents@, decisions@, left - 1, n as int)
            }),
            forall|k: int| 0 <= k < candidates@.len() ==> candidate_holds(#[trigger] candidates@[k], contents@),
        decreases n - left,
    {
        let mut right: usize = left + 1;
        assert(candidates_upto(contents@, decisions@, left as int, left + 1) == (if left == 0 {
            Seq::<(usize, usize)>::empty()
        } else {
            candidates_upto(contents@, decisions@, left - 1, n as int)
        }));
        while right < n
            invariant
                left < n == contents@.len(),
                left + 1 <= right <= n,
                forall|k: int| 0 <= k < contents@.len() ==> (#[trigger] contents@[k]).wf(),
                forall|k: int|
                    0 <= k < contents@.len() ==> (#[trigger] contents@[k]).bigram_model@.len()
                        <= usize::MAX / 2,
                forall|q: Seq<char>| #[trigger] views(suppressed@).contains(q) <==> decided_pair(decisions@, q),
                candidate_pairs(candidates@) == candidates_upto(contents@, decisions@, left as int, right as int),
                forall|k: int| 0 <= k < candidates@.len() ==> candidate_holds(#[trigger] candidates@[k], contents@),
            decreases n - right,
        {
            let lc = &contents[left];
            let rc = &contents[right];
            let classification = classify_pair(lc, rc);
            let unique = match classification.status {
                DuplicateCheckStatus::Unique => true,
                _ => false,
            };
            let key = pair_key(lc.instance.id.as_str(), rc.instance.id.as_str());
            let decided = crate::text::contains_text(&suppressed, key.as_str());
            let ghost prev = candidate_pairs(candidates@);
            if !unique && !decided {
                let ghost k = classification;
                let comparison = build_comparison(lc, rc, classification);
                let cand = CandidatePair { left, right, comparison };
                proof {
                    assert(candidate_pairs(candidates@.push(cand)) == prev.push((left, right)));
                }
                candidates.push(cand);
            } else {
                assert(prev + seq![] == prev);
            }
            right += 1;
        }
        left += 1;
    }
    let groups = build_groups(contents, &candidates);
    proof {
        if n > 0 {
            assert(all_candidates(contents@, decisions@) == candidates_upto(contents@, decisions@, n - 1, n as int));
        }
    }
    DuplicateReview { groups, suppressed_count: decisions.len() }
}

/// The duplicate status to store for one instance.
#[derive(Debug, Clone, PartialEq, Eq)]
pub struct DuplicateCheckStatusUpdate {
    pub instance_id: String,
    pub status: DuplicateCheckStatus,
}

/// Whether group `g` holds an instance with id `id`.
pub open spec fn group_has(g: DuplicateGroup, id: Seq<char>) -> bool {
    exists|i: int| 0 <= i < g.instances@.len() && (#[trigger] g.instances@[i]).id@ == id
}

/// The status of instance `id` after a review: the status of highest
/// priority among the groups that hold it, the earlier group on a tie, and
/// `Unique` when none does.
pub open spec fn status_in_groups(groups: Seq<DuplicateGroup>, id: Seq<char>) -> DuplicateCheckStatus
    decreases groups.len(),
{
    if groups.len() == 0 {
        DuplicateCheckStatus::Unique
    } else {
        let s = status_in_groups(groups.drop_last(), id);
        if group_has(groups.last(), id) && priority(groups.last().status) > priority(s) {
            groups.last().status
        } else {
            s
        }
    }
}

fn group_holds_id(g: &DuplicateGroup, id: &str) -> (r: bool)
    ensures
        r == group_has(*g, id@),
{
    let mut i: usize = 0;
    while i < g.instances.len()
        invariant
            i <= g.instances@.len(),
            forall|k: int| 0 <= k < i ==> g.instances@[k].id@ != id@,
        decreases g.instances@.len() - i,
    {
        if crate::text::str_eq(g.instances[i].id.as_str(), id) {
            return true;
        }
        i += 1;
    }
    false
}

/// The duplicate status of every instance after a review.
pub fn duplicate_statuses(instances: &Vec<SkillInstance>, groups: &Vec<DuplicateGroup>) -> (r: Vec<
    DuplicateCheckStatusUpdate,
>)
    ensures
        r@.len() == instances@.len(),
        forall|k: int|
            0 <= k < r@.len() ==> (#[trigger] r@[k]).instance_id@ == instances@[k].id@
                && r@[k].status == status_in_groups(groups@, instances@[k].id@),
{
    let mut r: Vec<DuplicateCheckStatusUpdate> = Vec::new();
    let mut k: usize = 0;
    while k < instances.len()
        invariant
            k <= instances@.len(),
            r@.len() == k,
            forall|j: int|
                0 <= j < k ==> (#[trigger] r@[j]).instance_id@ == instances@[j].id@
                    && r@[j].status == status_in_groups(groups@, instances@[j].id@),
        decreases instances@.len() - k,
    {
        let id = &instances[k].id;
        let mut status = DuplicateCheckStatus::Unique;
        let mut g: usize = 0;
        while g < groups.len()
            invariant
                g <= groups@.len(),
                status == status_in_groups(groups@.take(g as int), id@),
            decreases groups@.len() - g,
        {
            assert(groups@.take(g + 1).drop_last() == groups@.take(g as int));
            if group_holds_id(&groups[g], id.as_str()) && duplicate_status_priority(
                &groups[g].status,
            ) > duplicate_status_priority(&status) {
                status = groups[g].status;
            }
            g += 1;
        }
        assert(groups@.take(groups@.len() as int) == groups@);
        r.push(DuplicateCheckStatusUpdate { instance_id: id.clone(), status });
        k += 1;
    }
    r
}

/// The message when a decision names fewer than two instances.
pub open spec fn decision_too_small_message() -> Seq<char> {
    "重复检查裁决至少需要两个 Skill 实例。"@
}

/// The instance ids of a decision, sorted and without repeats; at least two
/// are needed.
pub fn normalized_decision_ids(instance_ids: &Vec<String>) -> (r: Result<Vec<String>, WorkspaceError>)
    ensures
        match r {
            Ok(ids) => {
                &&& crate::text::strictly_sorted(views(ids@))
                &&& views(ids@).to_set() == views(instance_ids@).to_set()
                &&& ids@.len() >= 2
            },
            Err(e) => (e matches WorkspaceError::InvalidDraft(m) && m@
                == decision_too_small_message()) && views(instance_ids@).to_set().len() < 2,
        },
{
    let mut ids: Vec<String> = Vec::new();
    let mut k: usize = 0;
    while k < instance_ids.len()
        invariant
            k <= instance_ids@.len(),
            crate::text::strictly_sorted(views(ids@)),
            views(ids@).to_set() == views(instance_ids@).take(k as int).to_set(),
        decreases instance_ids@.len() - k,
    {
        crate::text::insert_sorted(&mut ids, instance_ids[k].clone());
        proof {
            let t = views(instance_ids@);
            assert(t.take(k + 1) == t.take(k as int).push(t[k as int]));
            t.take(k as int).lemma_push_to_set_commute(t[k as int]);
        }
        k += 1;
    }
    assert(views(instance_ids@).take(instance_ids@.len() as int) == views(instance_ids@));
    proof {
        crate::text::lemma_strictly_sorted_no_duplicates(views(ids@));
        views(ids@).unique_seq_to_set();
    }
    if ids.len() < 2 {
        let msg = "重复检查裁决至少需要两个 Skill 实例。".to_owned();
        proof {
            reveal_strlit("重复检查裁决至少需要两个 Skill 实例。");
        }
        return Err(WorkspaceError::InvalidDraft(msg));
    }
    Ok(ids)
}

/// A file of the system's own that duplicate review leaves out: Finder,
/// Windows and AppleDouble metadata.
pub open spec fn is_ignored_file_spec(name: Seq<char>) -> bool {
    name == ".DS_Store"@ || name == "Thumbs.db"@ || name == "desktop.ini"@ || name == ".localized"@
        || crate::catalog::starts_with(name, "._"@)
}

/// The first id of a decision that names no instance of the catalog,
/// looking from position `k`.
pub open spec fn first_unknown_id(instances: Seq<SkillInstance>, ids: Seq<Seq<char>>, k: int) -> Option<
    Seq<char>,
>
    decreases ids.len() - k,
{
    if k < 0 || k >= ids.len() {
        None
    } else if crate::detail::found_instance(instances, ids[k]) is None {
        Some(ids[k])
    } else {
        first_unknown_id(instances, ids, k + 1)
    }
}

/// Checks that every id of a decision names an instance of the catalog;
/// refuses the first that does not.
pub fn check_decision_instances(instances: &Vec<SkillInstance>, ids: &Vec<String>) -> (r: Result<
    (),
    WorkspaceError,
>)
    ensures
        match first_unknown_id(instances@, views(ids@), 0) {
            None => r is Ok,
            Some(id) => r matches Err(WorkspaceError::UnknownInstance(m)) && m@ == id,
        },
{
    let mut k: usize = 0;
    while k < ids.len()
        invariant
            k <= ids@.len(),
            first_unknown_id(instances@, views(ids@), 0) == first_unknown_id(instances@, views(ids@), k as int),
        decreases ids@.len() - k,
    {
        if crate::detail::find_instance(instances, ids[k].as_str()).is_none() {
            return Err(WorkspaceError::UnknownInstance(ids[k].clone()));
        }
        k += 1;
    }
    Ok(())
}

/// Whether duplicate review leaves out a file of this name; a name that is
/// not text is kept.
pub fn is_ignored_file(name: Option<&str>) -> (r: bool)
    ensures
        r == (match name {
            Some(n) => is_ignored_file_spec(n@),
            None => false,
        }),
{
    match name {
        Some(n) => str_eq(n, ".DS_Store") || str_eq(n, "Thumbs.db") || str_eq(n, "desktop.ini")
            || str_eq(n, ".localized") || crate::catalog::text_starts_with(n, "._"),
        None => false,
    }
}

/// The text that stores the duplicate status of an instance.
pub open spec fn duplicate_status_text(status: DuplicateCheckStatus) -> Seq<char> {
    match status {
        DuplicateCheckStatus::Unique => "none"@,
        DuplicateCheckStatus::Exact => "exact"@,
        DuplicateCheckStatus::Suspected => "suspected"@,
        DuplicateCheckStatus::NameConflict => "name_conflict"@,
    }
}

/// The duplicate status stored as `value`; anything unknown reads as unique.
pub open spec fn duplicate_status_from_text(value: Seq<char>) -> DuplicateCheckStatus {
    if value == "exact"@ {
        DuplicateCheckStatus::Exact
    } else if value == "suspected"@ {
        DuplicateCheckStatus::Suspected
    } else if value == "name_conflict"@ {
        DuplicateCheckStatus::NameConflict
    } else {
        DuplicateCheckStatus::Unique
    }
}

/// The text that stores a duplicate status.
pub fn duplicate_status_database(status: &DuplicateCheckStatus) -> (r: &'static str)
    ensures
        r@ == duplicate_status_text(*status),
{
    match status {
        DuplicateCheckStatus::Unique => "none",
        DuplicateCheckStatus::Exact => "exact",
        DuplicateCheckStatus::Suspected => "suspected",
        DuplicateCheckStatus::NameConflict => "name_conflict",
    }
}

/// The duplicate status stored as `value`.
pub fn duplicate_status_from_database(value: &str) -> (r: DuplicateCheckStatus)
    ensures
        r == duplicate_status_from_text(value@),
{
    if str_eq(value, "exact") {
        DuplicateCheckStatus::Exact
    } else if str_eq(value, "suspected") {
        DuplicateCheckStatus::Suspected
    } else if str_eq(value, "name_conflict") {
        DuplicateCheckStatus::NameConflict
    } else {
        DuplicateCheckStatus::Unique
    }
}

/// A duplicate status survives being stored and read back.
pub proof fn duplicate_status_round_trip(status: DuplicateCheckStatus)
    ensures
        duplicate_status_from_text(duplicate_status_text(status)) == status,
{
    reveal_strlit("none");
    reveal_strlit("exact");
    reveal_strlit("suspected");
    reveal_strlit("name_conflict");
    assert("none"@.len() == 4 && "exact"@.len() == 5 && "suspected"@.len() == 9);
    assert("name_conflict"@.len() == 13);
}

} // verus!
