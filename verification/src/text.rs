//! Character-level text operations on `Seq<char>` models: whitespace,
//! trimming, line and word splitting, ordering and decimal numerals.
use vstd::prelude::*;

verus! {

/// Unicode `White_Space`, the property behind `char::is_whitespace`.
pub open spec fn is_space(c: char) -> bool {
    let v = c as u32;
    (0x09 <= v && v <= 0x0d) || v == 0x20 || v == 0x85 || v == 0xa0 || v == 0x1680 || (0x2000
        <= v && v <= 0x200a) || v == 0x2028 || v == 0x2029 || v == 0x202f || v == 0x205f || v
        == 0x3000
}

pub fn is_space_char(c: char) -> (r: bool)
    ensures
        r == is_space(c),
{
    let v = c as u32;
    (0x09 <= v && v <= 0x0d) || v == 0x20 || v == 0x85 || v == 0xa0 || v == 0x1680 || (0x2000
        <= v && v <= 0x200a) || v == 0x2028 || v == 0x2029 || v == 0x202f || v == 0x205f || v
        == 0x3000
}

/// `s` with its leading whitespace removed (`str::trim_start`).
pub open spec fn trim_start(s: Seq<char>) -> Seq<char>
    decreases s.len(),
{
    if s.len() > 0 && is_space(s[0]) {
        trim_start(s.drop_first())
    } else {
        s
    }
}

/// `s` with its trailing whitespace removed (`str::trim_end`).
pub open spec fn trim_end(s: Seq<char>) -> Seq<char>
    decreases s.len(),
{
    if s.len() > 0 && is_space(s.last()) {
        trim_end(s.drop_last())
    } else {
        s
    }
}

/// `s` with whitespace removed on both sides (`str::trim`).
pub open spec fn trim(s: Seq<char>) -> Seq<char> {
    trim_end(trim_start(s))
}

/// Appends one character to a string (`String::push`).
#[verifier::external_body]
pub(crate) fn push_char(s: &mut String, c: char)
    ensures
        final(s)@ == old(s)@.push(c),
{
    s.push(c);
}

/// The characters of a string slice, in order.
pub fn chars_of(s: &str) -> (r: Vec<char>)
    ensures
        r@ == s@,
{
    let mut r: Vec<char> = Vec::new();
    for c in it: s.chars()
        invariant
            r@ == it.seq().take(it.index() as int),
            it.seq() == s@,
    {
        r.push(c);
    }
    r
}

/// The string made of `v[lo..hi]`.
pub fn string_from_range(v: &Vec<char>, lo: usize, hi: usize) -> (r: String)
    requires
        lo <= hi <= v.len(),
    ensures
        r@ == v@.subrange(lo as int, hi as int),
{
    let mut r = String::new();
    let mut i = lo;
    while i < hi
        invariant
            lo <= i <= hi <= v.len(),
            r@ == v@.subrange(lo as int, i as int),
        decreases hi - i,
    {
        push_char(&mut r, v[i]);
        assert(v@.subrange(lo as int, i + 1) == v@.subrange(lo as int, i as int).push(v@[i as int]));
        i += 1;
    }
    r
}

/// The string made of all of `v`.
pub fn string_from_chars(v: &Vec<char>) -> (r: String)
    ensures
        r@ == v@,
{
    let r = string_from_range(v, 0, v.len());
    assert(v@.subrange(0, v@.len() as int) == v@);
    r
}

/// A copy of a string slice.
pub fn copy_str(s: &str) -> (r: String)
    ensures
        r@ == s@,
{
    s.to_owned()
}

/// Appends `t` to `s`.
pub fn append_str(s: &mut String, t: &str)
    ensures
        final(s)@ == old(s)@ + t@,
{
    let tv = chars_of(t);
    let mut i: usize = 0;
    while i < tv.len()
        invariant
            i <= tv.len(),
            tv@ == t@,
            s@ == old(s)@ + t@.take(i as int),
        decreases tv.len() - i,
    {
        push_char(s, tv[i]);
        assert(t@.take(i + 1) == t@.take(i as int).push(t@[i as int]));
        i += 1;
    }
    assert(t@.take(tv.len() as int) == t@);
}

/// The concatenation of two string slices.
pub fn concat2(a: &str, b: &str) -> (r: String)
    ensures
        r@ == a@ + b@,
{
    let mut r = copy_str(a);
    append_str(&mut r, b);
    r
}

/// The concatenation of three string slices.
pub fn concat3(a: &str, b: &str, c: &str) -> (r: String)
    ensures
        r@ == a@ + b@ + c@,
{
    let mut r = copy_str(a);
    append_str(&mut r, b);
    append_str(&mut r, c);
    r
}

proof fn lemma_trim_start_skip(s: Seq<char>, i: int)
    requires
        0 <= i <= s.len(),
        forall|k: int| 0 <= k < i ==> is_space(#[trigger] s[k]),
    ensures
        trim_start(s) == trim_start(s.subrange(i, s.len() as int)),
    decreases i,
{
    if i > 0 {
        assert(s.drop_first().subrange(i - 1, s.drop_first().len() as int) == s.subrange(
            i,
            s.len() as int,
        ));
        lemma_trim_start_skip(s.drop_first(), i - 1);
    } else {
        assert(s.subrange(0, s.len() as int) == s);
    }
}

proof fn lemma_trim_end_take(s: Seq<char>, j: int)
    requires
        0 <= j <= s.len(),
        forall|k: int| j <= k < s.len() ==> is_space(#[trigger] s[k]),
    ensures
        trim_end(s) == trim_end(s.subrange(0, j)),
    decreases s.len() - j,
{
    if j < s.len() {
        assert(s.drop_last().subrange(0, j) == s.subrange(0, j));
        lemma_trim_end_take(s.drop_last(), j);
    } else {
        assert(s.subrange(0, s.len() as int) == s);
    }
}

/// The bounds `(lo, hi)` of the trimmed part of `v`.
pub fn trim_bounds(v: &Vec<char>) -> (r: (usize, usize))
    ensures
        r.0 <= r.1 <= v.len(),
        trim(v@) == v@.subrange(r.0 as int, r.1 as int),
        trim_start(v@) == v@.subrange(r.0 as int, v.len() as int),
{
    let mut lo: usize = 0;
    while lo < v.len() && is_space_char(v[lo])
        invariant
            lo <= v.len(),
            forall|k: int| 0 <= k < lo ==> is_space(#[trigger] v@[k]),
        decreases v.len() - lo,
    {
        lo += 1;
    }
    proof {
        lemma_trim_start_skip(v@, lo as int);
    }
    let ghost t = v@.subrange(lo as int, v.len() as int);
    assert(trim_start(t) == t);
    let mut hi: usize = v.len();
    while hi > lo && is_space_char(v[hi - 1])
        invariant
            lo <= hi <= v.len(),
            t == v@.subrange(lo as int, v.len() as int),
            forall|k: int| hi <= k < v.len() ==> is_space(#[trigger] v@[k]),
        decreases hi,
    {
        hi -= 1;
    }
    proof {
        assert forall|k: int| hi - lo <= k < t.len() implies is_space(#[trigger] t[k]) by {
            assert(t[k] == v@[k + lo]);
        }
        lemma_trim_end_take(t, hi - lo);
        assert(t.subrange(0, hi - lo) == v@.subrange(lo as int, hi as int));
    }
    (lo, hi)
}

/// `s` without leading and trailing whitespace.
pub fn trim_string(s: &str) -> (r: String)
    ensures
        r@ == trim(s@),
{
    let v = chars_of(s);
    let (lo, hi) = trim_bounds(&v);
    string_from_range(&v, lo, hi)
}

/// `s` without leading whitespace.
pub fn trim_start_string(s: &str) -> (r: String)
    ensures
        r@ == trim_start(s@),
{
    let v = chars_of(s);
    let (lo, _hi) = trim_bounds(&v);
    string_from_range(&v, lo, v.len())
}

/// Lexicographic order on character sequences, the order of `str` and `String`.
pub open spec fn text_le(a: Seq<char>, b: Seq<char>) -> bool
    decreases a.len(),
{
    if a.len() == 0 {
        true
    } else if b.len() == 0 {
        false
    } else if a[0] != b[0] {
        (a[0] as int) < (b[0] as int)
    } else {
        text_le(a.drop_first(), b.drop_first())
    }
}

/// Strict lexicographic order on character sequences.
pub open spec fn text_lt(a: Seq<char>, b: Seq<char>) -> bool {
    text_le(a, b) && a != b
}

pub proof fn lemma_text_le_refl(a: Seq<char>)
    ensures
        text_le(a, a),
    decreases a.len(),
{
    if a.len() > 0 {
        lemma_text_le_refl(a.drop_first());
    }
}

pub proof fn lemma_text_le_total(a: Seq<char>, b: Seq<char>)
    ensures
        text_le(a, b) || text_le(b, a),
    decreases a.len(),
{
    if a.len() > 0 && b.len() > 0 {
        if a[0] == b[0] {
            lemma_text_le_total(a.drop_first(), b.drop_first());
        } else {
            assert((a[0] as int) != (b[0] as int));
        }
    }
}

pub proof fn lemma_text_le_antisym(a: Seq<char>, b: Seq<char>)
    requires
        text_le(a, b),
        text_le(b, a),
    ensures
        a == b,
    decreases a.len(),
{
    if a.len() > 0 && b.len() > 0 {
        lemma_text_le_antisym(a.drop_first(), b.drop_first());
        assert(a == seq![a[0]] + a.drop_first());
        assert(b == seq![b[0]] + b.drop_first());
    }
}

pub proof fn lemma_text_le_trans(a: Seq<char>, b: Seq<char>, c: Seq<char>)
    requires
        text_le(a, b),
        text_le(b, c),
    ensures
        text_le(a, c),
    decreases a.len(),
{
    if a.len() > 0 && b.len() > 0 && c.len() > 0 && a[0] == b[0] && b[0] == c[0] {
        lemma_text_le_trans(a.drop_first(), b.drop_first(), c.drop_first());
    }
}

pub proof fn lemma_text_lt_trans(a: Seq<char>, b: Seq<char>, c: Seq<char>)
    requires
        text_lt(a, b),
        text_lt(b, c),
    ensures
        text_lt(a, c),
{
    lemma_text_le_trans(a, b, c);
    if a == c {
        lemma_text_le_antisym(a, b);
    }
}

/// `text_le` over character vectors, from position `i` on.
proof fn lemma_text_le_suffix(a: Seq<char>, b: Seq<char>, i: int)
    requires
        0 <= i <= a.len(),
        i <= b.len(),
        a.subrange(0, i) == b.subrange(0, i),
    ensures
        text_le(a, b) == text_le(a.subrange(i, a.len() as int), b.subrange(i, b.len() as int)),
    decreases i,
{
    if i > 0 {
        assert(a[0] == a.subrange(0, i)[0]);
        assert(b[0] == b.subrange(0, i)[0]);
        assert(a.drop_first().subrange(0, i - 1) == a.subrange(0, i).drop_first());
        assert(b.drop_first().subrange(0, i - 1) == b.subrange(0, i).drop_first());
        lemma_text_le_suffix(a.drop_first(), b.drop_first(), i - 1);
        assert(a.drop_first().subrange(i - 1, a.drop_first().len() as int) == a.subrange(
            i,
            a.len() as int,
        ));
        assert(b.drop_first().subrange(i - 1, b.drop_first().len() as int) == b.subrange(
            i,
            b.len() as int,
        ));
    } else {
        assert(a.subrange(0, a.len() as int) == a);
        assert(b.subrange(0, b.len() as int) == b);
    }
}

/// Whether `a <= b` in the order of `str`.
pub fn chars_le(a: &Vec<char>, b: &Vec<char>) -> (r: bool)
    ensures
        r == text_le(a@, b@),
{
    let mut i: usize = 0;
    while i < a.len() && i < b.len() && a[i] == b[i]
        invariant
            i <= a.len(),
            i <= b.len(),
            a@.subrange(0, i as int) == b@.subrange(0, i as int),
        decreases a.len() - i,
    {
        assert(a@.subrange(0, i + 1) == a@.subrange(0, i as int).push(a@[i as int]));
        assert(b@.subrange(0, i + 1) == b@.subrange(0, i as int).push(b@[i as int]));
        i += 1;
    }
    proof {
        lemma_text_le_suffix(a@, b@, i as int);
        let sa = a@.subrange(i as int, a.len() as int);
        let sb = b@.subrange(i as int, b.len() as int);
        if sa.len() > 0 && sb.len() > 0 {
            assert(sa[0] == a@[i as int]);
            assert(sb[0] == b@[i as int]);
        }
    }
    if i == a.len() {
        true
    } else if i == b.len() {
        false
    } else {
        a[i] < b[i]
    }
}

/// Whether `a <= b` in the order of `str`.
pub fn str_le(a: &str, b: &str) -> (r: bool)
    ensures
        r == text_le(a@, b@),
{
    let av = chars_of(a);
    let bv = chars_of(b);
    chars_le(&av, &bv)
}

/// Whether two string slices hold the same characters.
pub fn str_eq(a: &str, b: &str) -> (r: bool)
    ensures
        r == (a@ == b@),
{
    let av = chars_of(a);
    let bv = chars_of(b);
    if av.len() != bv.len() {
        return false;
    }
    let mut i: usize = 0;
    while i < av.len()
        invariant
            i <= av.len() == bv.len(),
            av@ == a@,
            bv@ == b@,
            forall|k: int| 0 <= k < i ==> av@[k] == bv@[k],
        decreases av.len() - i,
    {
        if av[i] != bv[i] {
            return false;
        }
        i += 1;
    }
    assert(av@ == bv@);
    true
}

/// The decimal numeral of a natural number.
pub open spec fn decimal_nat(n: nat) -> Seq<char>
    decreases n,
{
    if n < 10 {
        seq![digit_char(n)]
    } else {
        decimal_nat(n / 10).push(digit_char(n % 10))
    }
}

/// The character of a digit below ten.
pub open spec fn digit_char(d: nat) -> char {
    if d == 0 {
        '0'
    } else if d == 1 {
        '1'
    } else if d == 2 {
        '2'
    } else if d == 3 {
        '3'
    } else if d == 4 {
        '4'
    } else if d == 5 {
        '5'
    } else if d == 6 {
        '6'
    } else if d == 7 {
        '7'
    } else if d == 8 {
        '8'
    } else {
        '9'
    }
}

/// The decimal numeral of an integer, as `i64::to_string` writes it.
pub open spec fn decimal(n: int) -> Seq<char> {
    if n < 0 {
        seq!['-'] + decimal_nat((-n) as nat)
    } else {
        decimal_nat(n as nat)
    }
}

fn digit(d: u64) -> (c: char)
    requires
        d < 10,
    ensures
        c == digit_char(d as nat),
{
    if d == 0 {
        '0'
    } else if d == 1 {
        '1'
    } else if d == 2 {
        '2'
    } else if d == 3 {
        '3'
    } else if d == 4 {
        '4'
    } else if d == 5 {
        '5'
    } else if d == 6 {
        '6'
    } else if d == 7 {
        '7'
    } else if d == 8 {
        '8'
    } else {
        '9'
    }
}

/// The decimal numeral of an unsigned integer.
pub fn u64_decimal(n: u64) -> (r: String)
    ensures
        r@ == decimal_nat(n as nat),
    decreases n,
{
    if n < 10 {
        let mut r = String::new();
        push_char(&mut r, digit(n));
        r
    } else {
        let mut r = u64_decimal(n / 10);
        push_char(&mut r, digit(n % 10));
        r
    }
}

/// The decimal numeral of a signed integer (`i64::to_string`).
pub fn i64_decimal(n: i64) -> (r: String)
    ensures
        r@ == decimal(n as int),
{
    if n < 0 {
        let magnitude: u64 = if n == i64::MIN {
            9223372036854775808u64
        } else {
            (-n) as u64
        };
        let digits = u64_decimal(magnitude);
        let mut r = String::new();
        push_char(&mut r, '-');
        append_str(&mut r, digits.as_str());
        r
    } else {
        u64_decimal(n as u64)
    }
}

/// The decimal numeral of a `usize`.
pub fn usize_decimal(n: usize) -> (r: String)
    ensures
        r@ == decimal_nat(n as nat),
{
    u64_decimal(n as u64)
}

/// The character views of a sequence of strings.
pub open spec fn views(v: Seq<String>) -> Seq<Seq<char>> {
    v.map_values(|x: String| x@)
}

/// `l` without one trailing carriage return.
pub open spec fn strip_cr(l: Seq<char>) -> Seq<char> {
    if l.len() > 0 && l.last() == '\r' {
        l.drop_last()
    } else {
        l
    }
}

/// The lines of `s[i..]` when the current line so far is `cur` (`str::lines`):
/// lines end at `\n` or `\r\n`, a last empty line is not produced, and a
/// last line without a line ending keeps a bare trailing `\r`.
pub open spec fn lines_acc(s: Seq<char>, i: int, cur: Seq<char>) -> Seq<Seq<char>>
    decreases s.len() - i,
{
    if i >= s.len() {
        if cur.len() > 0 {
            seq![cur]
        } else {
            seq![]
        }
    } else if s[i] == '\n' {
        seq![strip_cr(cur)] + lines_acc(s, i + 1, seq![])
    } else {
        lines_acc(s, i + 1, cur.push(s[i]))
    }
}

/// The lines of `s`, as `str::lines` yields them.
pub open spec fn lines_of(s: Seq<char>) -> Seq<Seq<char>> {
    lines_acc(s, 0, seq![])
}

/// The whitespace-separated words of `s[i..]` when the current word so far is `cur`.
pub open spec fn words_acc(s: Seq<char>, i: int, cur: Seq<char>) -> Seq<Seq<char>>
    decreases s.len() - i,
{
    if i >= s.len() {
        if cur.len() > 0 {
            seq![cur]
        } else {
            seq![]
        }
    } else if is_space(s[i]) {
        (if cur.len() > 0 {
            seq![cur]
        } else {
            seq![]
        }) + words_acc(s, i + 1, seq![])
    } else {
        words_acc(s, i + 1, cur.push(s[i]))
    }
}

/// The words of `s`, as `str::split_whitespace` yields them.
pub open spec fn words_of(s: Seq<char>) -> Seq<Seq<char>> {
    words_acc(s, 0, seq![])
}

fn strip_cr_string(cur: &Vec<char>) -> (r: String)
    ensures
        r@ == strip_cr(cur@),
{
    if cur.len() > 0 && cur[cur.len() - 1] == '\r' {
        let r = string_from_range(cur, 0, cur.len() - 1);
        assert(cur@.subrange(0, cur.len() - 1) == cur@.drop_last());
        r
    } else {
        string_from_chars(cur)
    }
}

/// The lines of `s` (`str::lines`).
pub fn lines(s: &str) -> (r: Vec<String>)
    ensures
        views(r@) == lines_of(s@),
{
    let v = chars_of(s);
    let mut out: Vec<String> = Vec::new();
    let mut cur: Vec<char> = Vec::new();
    let mut i: usize = 0;
    while i < v.len()
        invariant
            i <= v.len(),
            v@ == s@,
            lines_of(s@) == views(out@) + lines_acc(s@, i as int, cur@),
        decreases v.len() - i,
    {
        let c = v[i];
        if c == '\n' {
            let line = strip_cr_string(&cur);
            proof {
                assert(views(out@.push(line)) == views(out@) + seq![line@]);
            }
            out.push(line);
            cur = Vec::new();
        } else {
            cur.push(c);
        }
        i += 1;
    }
    if cur.len() > 0 {
        let line = string_from_chars(&cur);
        proof {
            assert(views(out@.push(line)) == views(out@) + seq![line@]);
        }
        out.push(line);
    }
    out
}

/// The whitespace-separated words of `s` (`str::split_whitespace`).
pub fn words(s: &str) -> (r: Vec<String>)
    ensures
        views(r@) == words_of(s@),
{
    let v = chars_of(s);
    let mut out: Vec<String> = Vec::new();
    let mut cur: Vec<char> = Vec::new();
    let mut i: usize = 0;
    while i < v.len()
        invariant
            i <= v.len(),
            v@ == s@,
            words_of(s@) == views(out@) + words_acc(s@, i as int, cur@),
        decreases v.len() - i,
    {
        let c = v[i];
        if is_space_char(c) {
            if cur.len() > 0 {
                let word = string_from_chars(&cur);
                proof {
                    assert(views(out@.push(word)) == views(out@) + seq![word@]);
                }
                out.push(word);
            } else {
                assert(seq![] + words_acc(s@, i + 1, seq![]) == words_acc(s@, i + 1, seq![]));
            }
            cur = Vec::new();
        } else {
            cur.push(c);
        }
        i += 1;
    }
    if cur.len() > 0 {
        let word = string_from_chars(&cur);
        proof {
            assert(views(out@.push(word)) == views(out@) + seq![word@]);
        }
        out.push(word);
    }
    out
}

/// The trimmed, non-empty members of `ls`, in order.
pub open spec fn trimmed_terms(ls: Seq<Seq<char>>) -> Seq<Seq<char>>
    decreases ls.len(),
{
    if ls.len() == 0 {
        seq![]
    } else {
        trimmed_terms(ls.drop_last()) + (if trim(ls.last()).len() > 0 {
            seq![trim(ls.last())]
        } else {
            seq![]
        })
    }
}

/// The terms of a newline-separated list: each line trimmed, empty lines dropped.
pub open spec fn split_terms_spec(s: Seq<char>) -> Seq<Seq<char>> {
    trimmed_terms(lines_of(s))
}

/// Splits a stored newline-separated list into its trimmed, non-empty terms.
pub fn split_terms(value: &str) -> (r: Vec<String>)
    ensures
        views(r@) == split_terms_spec(value@),
{
    let ls = lines(value);
    let mut out: Vec<String> = Vec::new();
    let mut i: usize = 0;
    while i < ls.len()
        invariant
            i <= ls.len(),
            views(out@) == trimmed_terms(views(ls@).take(i as int)),
        decreases ls.len() - i,
    {
        let t = trim_string(ls[i].as_str());
        proof {
            assert(views(ls@).take(i + 1).drop_last() == views(ls@).take(i as int));
            assert(views(ls@).take(i + 1).last() == ls@[i as int]@);
        }
        if !t.as_str().is_empty() {
            proof {
                assert(views(out@.push(t)) == views(out@) + seq![t@]);
            }
            out.push(t);
        } else {
            assert(views(out@) + seq![] == views(out@));
        }
        i += 1;
    }
    assert(views(ls@).take(ls.len() as int) == views(ls@));
    out
}

/// `parts` joined with `sep` between neighbours (`[String]::join`).
pub open spec fn join_spec(parts: Seq<Seq<char>>, sep: Seq<char>) -> Seq<char>
    decreases parts.len(),
{
    if parts.len() == 0 {
        seq![]
    } else if parts.len() == 1 {
        parts[0]
    } else {
        join_spec(parts.drop_last(), sep) + sep + parts.last()
    }
}

/// Joins strings with a separator.
pub fn join_strings(parts: &Vec<String>, sep: &str) -> (r: String)
    ensures
        r@ == join_spec(views(parts@), sep@),
{
    let mut r = String::new();
    let mut i: usize = 0;
    while i < parts.len()
        invariant
            i <= parts.len(),
            r@ == join_spec(views(parts@).take(i as int), sep@),
        decreases parts.len() - i,
    {
        proof {
            assert(views(parts@).take(i + 1).drop_last() == views(parts@).take(i as int));
            assert(views(parts@).take(i + 1).last() == parts@[i as int]@);
        }
        if i > 0 {
            append_str(&mut r, sep);
        } else {
            assert(views(parts@).take(1)[0] == parts@[0]@);
        }
        append_str(&mut r, parts[i].as_str());
        i += 1;
    }
    assert(views(parts@).take(parts.len() as int) == views(parts@));
    r
}

/// Strictly increasing texts: a sorted set.
pub open spec fn strictly_sorted(v: Seq<Seq<char>>) -> bool {
    forall|i: int, j: int| 0 <= i < j < v.len() ==> text_lt(#[trigger] v[i], #[trigger] v[j])
}

/// Whether the texts hold `s`.
pub fn contains_text(v: &Vec<String>, s: &str) -> (r: bool)
    ensures
        r == views(v@).contains(s@),
{
    let mut i: usize = 0;
    while i < v.len()
        invariant
            i <= v@.len(),
            forall|k: int| 0 <= k < i ==> views(v@)[k] != s@,
        decreases v@.len() - i,
    {
        if str_eq(v[i].as_str(), s) {
            assert(views(v@)[i as int] == s@);
            return true;
        }
        i += 1;
    }
    false
}

/// Adds `s` to a sorted set of texts (`BTreeSet::insert`).
pub fn insert_sorted(v: &mut Vec<String>, s: String)
    requires
        strictly_sorted(views(old(v)@)),
    ensures
        strictly_sorted(views(final(v)@)),
        views(final(v)@).to_set() == views(old(v)@).to_set().insert(s@),
{
    let mut p: usize = 0;
    while p < v.len() && !str_le(s.as_str(), v[p].as_str())
        invariant
            p <= v@.len(),
            *v == *old(v),
            strictly_sorted(views(v@)),
            forall|k: int| 0 <= k < p ==> text_lt(#[trigger] views(v@)[k], s@),
        decreases v@.len() - p,
    {
        proof {
            let kp = views(v@)[p as int];
            lemma_text_le_total(s@, kp);
            if kp == s@ {
                lemma_text_le_refl(kp);
            }
        }
        p += 1;
    }
    let ghost old_v = views(v@);
    if p < v.len() && str_eq(v[p].as_str(), s.as_str()) {
        assert(old_v.to_set().insert(s@) =~= old_v.to_set()) by {
            assert(old_v[p as int] == s@);
        }
        return;
    }
    proof {
        if p < old_v.len() {
            lemma_text_le_total(s@, old_v[p as int]);
        }
    }
    let ghost sv = s@;
    v.insert(p, s);
    proof {
        assert(views(v@) =~= old_v.insert(p as int, sv));
        let nv = views(v@);
        assert forall|i: int, j: int| 0 <= i < j < nv.len() implies text_lt(
            #[trigger] nv[i],
            #[trigger] nv[j],
        ) by {
            if j < p {
                assert(text_lt(old_v[i], old_v[j]));
            } else if j == p {
                assert(text_lt(old_v[i], sv));
            } else if i < p {
                assert(text_lt(old_v[i], sv));
                assert(text_lt(sv, old_v[p as int]));
                lemma_text_lt_trans(old_v[i], sv, old_v[p as int]);
                if p < j - 1 {
                    assert(text_lt(old_v[p as int], old_v[j - 1]));
                    lemma_text_lt_trans(old_v[i], old_v[p as int], old_v[j - 1]);
                }
            } else if i == p {
                assert(text_lt(sv, old_v[p as int]));
                if p < j - 1 {
                    assert(text_lt(old_v[p as int], old_v[j - 1]));
                    lemma_text_lt_trans(sv, old_v[p as int], old_v[j - 1]);
                }
            } else {
                assert(text_lt(old_v[i - 1], old_v[j - 1]));
            }
        }
        assert forall|q: Seq<char>| nv.to_set().contains(q) <==> old_v.to_set().insert(sv).contains(q) by {
            if nv.to_set().contains(q) {
                let i = choose|i: int| 0 <= i < nv.len() && nv[i] == q;
                if i < p {
                    assert(old_v[i] == q);
                } else if i > p {
                    assert(old_v[i - 1] == q);
                }
            }
            if old_v.to_set().insert(sv).contains(q) {
                if q == sv {
                    assert(nv[p as int] == q);
                } else {
                    let i = choose|i: int| 0 <= i < old_v.len() && old_v[i] == q;
                    if i < p {
                        assert(nv[i] == q);
                    } else {
                        assert(nv[i + 1] == q);
                    }
                }
            }
        }
        assert(nv.to_set() =~= old_v.to_set().insert(sv));
    }
}

pub proof fn lemma_strictly_sorted_no_duplicates(v: Seq<Seq<char>>)
    requires
        strictly_sorted(v),
    ensures
        v.no_duplicates(),
{
    assert forall|i: int, j: int| 0 <= i < v.len() && 0 <= j < v.len() && i != j implies v[i]
        != v[j] by {
        if i < j {
            assert(text_lt(v[i], v[j]));
        } else {
            assert(text_lt(v[j], v[i]));
        }
    }
}

proof fn lemma_trim_start_shape(s: Seq<char>)
    ensures
        trim_start(s).len() == 0 || !is_space(trim_start(s)[0]),
    decreases s.len(),
{
    if s.len() > 0 && is_space(s[0]) {
        lemma_trim_start_shape(s.drop_first());
    }
}

proof fn lemma_trim_end_shape(s: Seq<char>)
    ensures
        trim_end(s).len() <= s.len(),
        trim_end(s) == s.take(trim_end(s).len() as int),
        forall|k: int| trim_end(s).len() <= k < s.len() ==> is_space(#[trigger] s[k]),
        trim_end(s).len() == 0 || !is_space(trim_end(s).last()),
    decreases s.len(),
{
    if s.len() > 0 && is_space(s.last()) {
        lemma_trim_end_shape(s.drop_last());
        let t = trim_end(s.drop_last());
        assert(s.drop_last().take(t.len() as int) == s.take(t.len() as int));
        assert forall|k: int| t.len() <= k < s.len() implies is_space(#[trigger] s[k]) by {
            if k < s.len() - 1 {
                assert(s.drop_last()[k] == s[k]);
            }
        }
    } else {
        assert(s.take(s.len() as int) == s);
    }
}

/// Trimming twice is trimming once.
pub proof fn lemma_trim_idempotent(s: Seq<char>)
    ensures
        trim(trim(s)) == trim(s),
{
    let a = trim_start(s);
    lemma_trim_start_shape(s);
    lemma_trim_end_shape(a);
    let t = trim_end(a);
    if t.len() > 0 {
        assert(t[0] == a[0]);
        assert(trim_start(t) == t);
        assert(trim_end(t) == t);
    } else {
        assert(trim_start(t) == t);
        assert(trim_end(t) == t);
    }
}

/// A character that a decimal numeral is written with.
pub open spec fn numeral_char(c: char) -> bool {
    c == '-' || c == '0' || c == '1' || c == '2' || c == '3' || c == '4' || c == '5' || c == '6'
        || c == '7' || c == '8' || c == '9'
}

proof fn lemma_decimal_nat_shape(n: nat)
    ensures
        forall|k: int|
            0 <= k < decimal_nat(n).len() ==> numeral_char(#[trigger] decimal_nat(n)[k])
                && decimal_nat(n)[k] != '-',
        decimal_nat(n).len() > 0,
        n < 10 <==> decimal_nat(n).len() == 1,
    decreases n,
{
    if n >= 10 {
        lemma_decimal_nat_shape(n / 10);
        let d = decimal_nat(n / 10);
        assert forall|k: int| 0 <= k < decimal_nat(n).len() implies numeral_char(
            #[trigger] decimal_nat(n)[k],
        ) && decimal_nat(n)[k] != '-' by {
            if k < d.len() {
                assert(decimal_nat(n)[k] == d[k]);
            }
        }
    }
}

/// The numeral of an integer is written with digits and a leading minus
/// sign for negative numbers only.
pub proof fn lemma_decimal_shape(n: int)
    ensures
        forall|k: int| 0 <= k < decimal(n).len() ==> numeral_char(#[trigger] decimal(n)[k]),
        forall|k: int| 1 <= k < decimal(n).len() ==> #[trigger] decimal(n)[k] != '-',
        decimal(n).len() > 0,
        decimal(n)[0] == '-' <==> n < 0,
{
    if n < 0 {
        lemma_decimal_nat_shape((-n) as nat);
        let d = decimal_nat((-n) as nat);
        assert forall|k: int| 0 <= k < decimal(n).len() implies numeral_char(#[trigger] decimal(n)[k]) by {
            if k > 0 {
                assert(decimal(n)[k] == d[k - 1]);
            }
        }
        assert forall|k: int| 1 <= k < decimal(n).len() implies #[trigger] decimal(n)[k] != '-' by {
            assert(decimal(n)[k] == d[k - 1]);
        }
    } else {
        lemma_decimal_nat_shape(n as nat);
    }
}

proof fn lemma_decimal_nat_injective(n: nat, m: nat)
    requires
        decimal_nat(n) == decimal_nat(m),
    ensures
        n == m,
    decreases n,
{
    lemma_decimal_nat_shape(n);
    lemma_decimal_nat_shape(m);
    if n >= 10 && m >= 10 {
        let a = decimal_nat(n);
        assert(a.drop_last() == decimal_nat(n / 10));
        assert(decimal_nat(m).drop_last() == decimal_nat(m / 10));
        lemma_decimal_nat_injective(n / 10, m / 10);
        assert(a.last() == digit_char(n % 10));
        assert(decimal_nat(m).last() == digit_char(m % 10));
        lemma_digit_char_injective(n % 10, m % 10);
        assert(n == 10 * (n / 10) + n % 10);
        assert(m == 10 * (m / 10) + m % 10);
    } else if n < 10 && m < 10 {
        assert(decimal_nat(n)[0] == digit_char(n));
        assert(decimal_nat(m)[0] == digit_char(m));
        lemma_digit_char_injective(n, m);
    }
}

proof fn lemma_digit_char_injective(d: nat, e: nat)
    requires
        d < 10,
        e < 10,
        digit_char(d) == digit_char(e),
    ensures
        d == e,
{
}

/// Different integers have different numerals.
pub proof fn lemma_decimal_injective(n: int, m: int)
    requires
        decimal(n) == decimal(m),
    ensures
        n == m,
{
    lemma_decimal_shape(n);
    lemma_decimal_shape(m);
    if n < 0 && m < 0 {
        assert(decimal(n).drop_first() == decimal_nat((-n) as nat));
        assert(decimal(m).drop_first() == decimal_nat((-m) as nat));
        lemma_decimal_nat_injective((-n) as nat, (-m) as nat);
    } else if n >= 0 && m >= 0 {
        lemma_decimal_nat_injective(n as nat, m as nat);
    }
}

/// Two strictly sorted lists of texts that hold the same texts are equal.
pub proof fn lemma_sorted_set_unique(a: Seq<Seq<char>>, b: Seq<Seq<char>>)
    requires
        strictly_sorted(a),
        strictly_sorted(b),
        a.to_set() == b.to_set(),
    ensures
        a == b,
    decreases a.len(),
{
    if a.len() == 0 {
        if b.len() > 0 {
            assert(b.to_set().contains(b[0]));
            assert(a.to_set().contains(b[0]));
        }
        assert(a =~= b);
    } else {
        assert(a.to_set().contains(a[0]));
        assert(b.to_set().contains(a[0]));
        assert(b.len() > 0);
        assert(a.to_set().contains(b[0]));
        let i = choose|i: int| 0 <= i < a.len() && a[i] == b[0];
        let j = choose|j: int| 0 <= j < b.len() && b[j] == a[0];
        if i > 0 && j > 0 {
            assert(text_lt(a[0], a[i]));
            assert(text_lt(b[0], b[j]));
            lemma_text_le_antisym(a[0], b[0]);
        } else if i > 0 {
            assert(b[0] == a[0]);
        } else if j > 0 {
            assert(b[0] == a[0]);
        }
        assert(a[0] == b[0]);
        let ta = a.drop_first();
        let tb = b.drop_first();
        lemma_strictly_sorted_no_duplicates(a);
        lemma_strictly_sorted_no_duplicates(b);
        assert forall|x: Seq<char>| ta.to_set().contains(x) <==> tb.to_set().contains(x) by {
            if ta.to_set().contains(x) {
                let k = choose|k: int| 0 <= k < ta.len() && ta[k] == x;
                assert(a[k + 1] == x);
                assert(a.to_set().contains(x));
                assert(b.to_set().contains(x));
                let m = choose|m: int| 0 <= m < b.len() && b[m] == x;
                assert(x != a[0]);
                assert(m != 0);
                assert(tb[m - 1] == x);
            }
            if tb.to_set().contains(x) {
                let k = choose|k: int| 0 <= k < tb.len() && tb[k] == x;
                assert(b[k + 1] == x);
                assert(b.to_set().contains(x));
                assert(a.to_set().contains(x));
                let m = choose|m: int| 0 <= m < a.len() && a[m] == x;
                assert(x != b[0]);
                assert(m != 0);
                assert(ta[m - 1] == x);
            }
        }
        assert(ta.to_set() =~= tb.to_set());
        assert forall|p: int, q: int| 0 <= p < q < ta.len() implies text_lt(#[trigger] ta[p], #[trigger] ta[q]) by {
            assert(text_lt(a[p + 1], a[q + 1]));
        }
        assert forall|p: int, q: int| 0 <= p < q < tb.len() implies text_lt(#[trigger] tb[p], #[trigger] tb[q]) by {
            assert(text_lt(b[p + 1], b[q + 1]));
        }
        lemma_sorted_set_unique(ta, tb);
        assert(a =~= seq![a[0]] + ta);
        assert(b =~= seq![b[0]] + tb);
    }
}

} // verus!
