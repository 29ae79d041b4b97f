//! Lexical paths, Unix style: the components of a path, the safety of a
//! relative path, joining, prefixes, parents and names.
//!
//! A path is modelled by the texts of its components: `/` for the root,
//! `.` for a leading current directory, `..` for a parent, and the name
//! otherwise. Empty segments and interior `.` segments are not components.
use vstd::prelude::*;

use crate::text::{
    append_str, chars_of, copy_str, join_spec, join_strings, push_char, str_eq, string_from_chars,
    views,
};
use crate::WorkspaceError;

verus! {

/// The `/`-separated segments of `s[i..]`, the current one being `cur`.
pub open spec fn segments_acc(s: Seq<char>, i: int, cur: Seq<char>) -> Seq<Seq<char>>
    decreases s.len() - i,
{
    if i >= s.len() {
        seq![cur]
    } else if s[i] == '/' {
        seq![cur] + segments_acc(s, i + 1, seq![])
    } else {
        segments_acc(s, i + 1, cur.push(s[i]))
    }
}

/// All `/`-separated segments of `s`, empty ones included.
pub open spec fn segments(s: Seq<char>) -> Seq<Seq<char>> {
    segments_acc(s, 0, seq![])
}

/// Whether a segment names a component: it is neither empty nor `.`.
pub open spec fn kept_segment(p: Seq<char>) -> bool {
    p.len() > 0 && p != seq!['.']
}

/// The segments of `ps` that name components, in order.
pub open spec fn kept_segments(ps: Seq<Seq<char>>) -> Seq<Seq<char>>
    decreases ps.len(),
{
    if ps.len() == 0 {
        seq![]
    } else {
        kept_segments(ps.drop_last()) + (if kept_segment(ps.last()) {
            seq![ps.last()]
        } else {
            seq![]
        })
    }
}

/// The texts of the components of path `s` (`Path::components`).
pub open spec fn components(s: Seq<char>) -> Seq<Seq<char>> {
    let segs = segments(s);
    if s.len() > 0 && s[0] == '/' {
        seq![seq!['/']] + kept_segments(segs.drop_first())
    } else if segs[0] == seq!['.'] {
        seq![seq!['.']] + kept_segments(segs.drop_first())
    } else {
        kept_segments(segs)
    }
}

proof fn lemma_segments_nonempty(s: Seq<char>, i: int, cur: Seq<char>)
    ensures
        segments_acc(s, i, cur).len() > 0,
        i < s.len() && s[i] != '/' ==> segments_acc(s, i, cur)[0] == segments_acc(
            s,
            i + 1,
            cur.push(s[i]),
        )[0],
    decreases s.len() - i,
{
    if i < s.len() {
        if s[i] == '/' {
            lemma_segments_nonempty(s, i + 1, seq![]);
        } else {
            lemma_segments_nonempty(s, i + 1, cur.push(s[i]));
        }
    }
}

/// The `/`-separated segments of `v`, empty ones included.
fn split_segments(v: &Vec<char>) -> (r: Vec<String>)
    ensures
        views(r@) == segments(v@),
        r@.len() > 0,
{
    let mut out: Vec<String> = Vec::new();
    let mut cur: Vec<char> = Vec::new();
    let mut i: usize = 0;
    while i < v.len()
        invariant
            i <= v.len(),
            segments(v@) == views(out@) + segments_acc(v@, i as int, cur@),
        decreases v.len() - i,
    {
        if v[i] == '/' {
            let seg = string_from_chars(&cur);
            proof {
                assert(views(out@.push(seg)) == views(out@) + seq![seg@]);
            }
            out.push(seg);
            cur = Vec::new();
        } else {
            cur.push(v[i]);
        }
        i += 1;
    }
    let seg = string_from_chars(&cur);
    proof {
        assert(views(out@.push(seg)) == views(out@) + seq![seg@]);
    }
    out.push(seg);
    out
}

fn is_dot(s: &str) -> (r: bool)
    ensures
        r == (s@ == seq!['.']),
{
    let v = chars_of(s);
    let r = v.len() == 1 && v[0] == '.';
    proof {
        if r {
            assert(v@ =~= seq!['.']);
        }
        if s@ == seq!['.'] {
            assert(v@[0] == '.');
        }
    }
    r
}

/// The texts of the components of a path (`Path::components`).
pub fn path_components(s: &str) -> (r: Vec<String>)
    ensures
        views(r@) == components(s@),
{
    let v = chars_of(s);
    let segs = split_segments(&v);
    let rooted = v.len() > 0 && v[0] == '/';
    let skip_first = rooted || is_dot(segs[0].as_str());
    let mut out: Vec<String> = Vec::new();
    let start: usize;
    if rooted {
        let mut root = String::new();
        push_char(&mut root, '/');
        out.push(root);
        start = 1;
    } else if skip_first {
        let mut cur = String::new();
        push_char(&mut cur, '.');
        out.push(cur);
        start = 1;
    } else {
        start = 0;
    }
    let ghost head = views(out@);
    let ghost rest = views(segs@).subrange(start as int, segs@.len() as int);
    let mut i: usize = start;
    while i < segs.len()
        invariant
            start <= i <= segs.len(),
            start <= 1,
            head.len() == start,
            rest == views(segs@).subrange(start as int, segs@.len() as int),
            views(out@) == head + kept_segments(rest.take(i - start)),
        decreases segs.len() - i,
    {
        proof {
            assert(rest.take(i - start + 1).drop_last() == rest.take(i - start));
            assert(rest.take(i - start + 1).last() == segs@[i as int]@);
        }
        let keep = !segs[i].as_str().is_empty() && !is_dot(segs[i].as_str());
        if keep {
            let seg = segs[i].clone();
            proof {
                assert(views(out@.push(seg)) == views(out@) + seq![seg@]);
            }
            out.push(seg);
        } else {
            assert(kept_segments(rest.take(i - start)) + seq![] == kept_segments(
                rest.take(i - start),
            ));
        }
        i += 1;
    }
    proof {
        assert(rest.take(i - start) == rest);
        if start == 1 {
            assert(rest == views(segs@).drop_first());
        } else {
            assert(rest == views(segs@));
        }
    }
    out
}

/// Whether `s` is a safe relative path: not empty, not absolute, and without
/// `.` or `..` components.
pub open spec fn is_safe_relative(s: Seq<char>) -> bool {
    &&& s.len() > 0
    &&& s[0] != '/'
    &&& forall|k: int|
        0 <= k < components(s).len() ==> #[trigger] components(s)[k] != seq!['.']
            && components(s)[k] != seq!['.', '.']
}

/// The message of a path that leaves the Skill directory.
pub open spec fn outside_skill_message() -> Seq<char> {
    "路径指向 Skill 目录之外"@
}

/// Accepts a relative path inside a Skill directory and hands it back;
/// refuses an empty or absolute path, or one with a `.` or `..` component.
pub fn safe_relative_path(path: &str) -> (r: Result<String, WorkspaceError>)
    ensures
        match r {
            Ok(p) => is_safe_relative(path@) && p@ == path@,
            Err(e) => !is_safe_relative(path@) && (e matches WorkspaceError::InvalidSkillPath(m)
                && m@ == outside_skill_message()),
        },
{
    let v = chars_of(path);
    let comps = path_components(path);
    let mut ok = v.len() > 0 && v[0] != '/';
    let mut i: usize = 0;
    while i < comps.len()
        invariant
            i <= comps.len(),
            views(comps@) == components(path@),
            ok ==> forall|k: int|
                0 <= k < i ==> #[trigger] components(path@)[k] != seq!['.'] && components(
                    path@,
                )[k] != seq!['.', '.'],
            !ok ==> !is_safe_relative(path@),
            v@ == path@,
            ok ==> v@.len() > 0 && v@[0] != '/',
        decreases comps.len() - i,
    {
        let cv = chars_of(comps[i].as_str());
        assert(cv@ == components(path@)[i as int]);
        if (cv.len() == 1 && cv[0] == '.') || (cv.len() == 2 && cv[0] == '.' && cv[1] == '.') {
            proof {
                if cv.len() == 1 {
                    assert(cv@ =~= seq!['.']);
                } else {
                    assert(cv@ =~= seq!['.', '.']);
                }
                assert(!(components(path@)[i as int] != seq!['.'] && components(path@)[i as int]
                    != seq!['.', '.']));
            }
            ok = false;
        } else {
            proof {
                if cv@ == seq!['.'] {
                    assert(cv@[0] == '.');
                }
                if cv@ == seq!['.', '.'] {
                    assert(cv@[0] == '.' && cv@[1] == '.');
                }
            }
        }
        i += 1;
    }
    if ok {
        Ok(copy_str(path))
    } else {
        Err(WorkspaceError::InvalidSkillPath(outside_skill_message_owned()))
    }
}

pub(crate) fn outside_skill_message_owned() -> (r: String)
    ensures
        r@ == outside_skill_message(),
{
    let r = "路径指向 Skill 目录之外".to_owned();
    proof {
        reveal_strlit("路径指向 Skill 目录之外");
    }
    r
}

/// `pre` is a prefix of `cs`.
pub open spec fn is_prefix_of(pre: Seq<Seq<char>>, cs: Seq<Seq<char>>) -> bool {
    pre.len() <= cs.len() && cs.take(pre.len() as int) == pre
}

/// The components of `s` joined with `/` (a path written in normal form).
pub open spec fn normalized(s: Seq<char>) -> Seq<char> {
    join_spec(components(s), seq!['/'])
}

/// A path written in normal form: its components joined with `/`.
pub fn normalized_path(path: &str) -> (r: String)
    ensures
        r@ == normalized(path@),
{
    let comps = path_components(path);
    let sep = "/";
    proof {
        reveal_strlit("/");
        assert(sep@ =~= seq!['/']);
    }
    join_strings(&comps, sep)
}

/// Whether two component lists are equal, element by element.
pub(crate) fn components_equal_prefix(pre: &Vec<String>, cs: &Vec<String>) -> (r: bool)
    ensures
        r == is_prefix_of(views(pre@), views(cs@)),
{
    if pre.len() > cs.len() {
        return false;
    }
    let mut i: usize = 0;
    while i < pre.len()
        invariant
            i <= pre.len() <= cs.len(),
            forall|k: int| 0 <= k < i ==> pre@[k]@ == cs@[k]@,
        decreases pre.len() - i,
    {
        if !str_eq(pre[i].as_str(), cs[i].as_str()) {
            proof {
                assert(views(cs@).take(pre.len() as int)[i as int] != views(pre@)[i as int]);
            }
            return false;
        }
        i += 1;
    }
    assert(views(cs@).take(pre.len() as int) =~= views(pre@));
    true
}

/// Whether `path` starts with the components of `base` (`Path::starts_with`).
pub open spec fn path_starts_with_spec(path: Seq<char>, base: Seq<char>) -> bool {
    is_prefix_of(components(base), components(path))
}

/// Whether `path` starts with the components of `base` (`Path::starts_with`).
pub fn path_starts_with(path: &str, base: &str) -> (r: bool)
    ensures
        r == path_starts_with_spec(path@, base@),
{
    let pc = path_components(path);
    let bc = path_components(base);
    components_equal_prefix(&bc, &pc)
}

/// The components of `directory` after those of `root`, or all of them when
/// `root` is not a prefix (`Path::strip_prefix` with a fallback).
pub open spec fn relative_components(root: Seq<char>, directory: Seq<char>) -> Seq<Seq<char>> {
    if is_prefix_of(components(root), components(directory)) {
        components(directory).skip(components(root).len() as int)
    } else {
        components(directory)
    }
}

/// The path of `directory` relative to `root`, its components joined with `/`.
pub open spec fn relative_path_spec(root: Seq<char>, directory: Seq<char>) -> Seq<char> {
    join_spec(relative_components(root, directory), seq!['/'])
}

/// The path of `directory` relative to `root`, written with `/`; the whole of
/// `directory` when it does not lie under `root`.
pub fn normalized_relative_path(root: &str, directory: &str) -> (r: String)
    ensures
        r@ == relative_path_spec(root@, directory@),
{
    let rc = path_components(root);
    let dc = path_components(directory);
    let prefix = components_equal_prefix(&rc, &dc);
    let start = if prefix {
        rc.len()
    } else {
        0
    };
    let mut rest: Vec<String> = Vec::new();
    let mut i = start;
    while i < dc.len()
        invariant
            start <= i <= dc.len(),
            views(rest@) == views(dc@).subrange(start as int, i as int),
        decreases dc.len() - i,
    {
        let c = dc[i].clone();
        proof {
            assert(views(rest@.push(c)) == views(rest@).push(c@));
            assert(views(dc@).subrange(start as int, i + 1) == views(dc@).subrange(
                start as int,
                i as int,
            ).push(dc@[i as int]@));
        }
        rest.push(c);
        i += 1;
    }
    proof {
        if prefix {
            assert(views(dc@).subrange(start as int, dc.len() as int) == views(dc@).skip(
                start as int,
            ));
        } else {
            assert(views(dc@).subrange(0, dc.len() as int) == views(dc@));
        }
    }
    let sep = "/";
    proof {
        reveal_strlit("/");
        assert(sep@ =~= seq!['/']);
    }
    join_strings(&rest, sep)
}

/// `base` joined with `tail` (`Path::join`): an absolute `tail` replaces
/// `base`, and a `/` is put between them unless `base` is empty or ends in one.
pub open spec fn path_join_spec(base: Seq<char>, tail: Seq<char>) -> Seq<char> {
    if tail.len() > 0 && tail[0] == '/' {
        tail
    } else if base.len() > 0 && base.last() != '/' {
        base + seq!['/'] + tail
    } else {
        base + tail
    }
}

/// `base` joined with `tail` (`Path::join`).
pub fn path_join(base: &str, tail: &str) -> (r: String)
    ensures
        r@ == path_join_spec(base@, tail@),
{
    let bv = chars_of(base);
    let tv = chars_of(tail);
    if tv.len() > 0 && tv[0] == '/' {
        copy_str(tail)
    } else if bv.len() > 0 && bv[bv.len() - 1] != '/' {
        let mut r = copy_str(base);
        push_char(&mut r, '/');
        append_str(&mut r, tail);
        r
    } else {
        let mut r = copy_str(base);
        append_str(&mut r, tail);
        r
    }
}

/// A path written from its component texts.
pub open spec fn rebuild(cs: Seq<Seq<char>>) -> Seq<char> {
    if cs.len() > 0 && cs[0] == seq!['/'] {
        seq!['/'] + join_spec(cs.drop_first(), seq!['/'])
    } else {
        join_spec(cs, seq!['/'])
    }
}

/// Whether a component text is a name (neither the root, `.` nor `..`).
pub open spec fn is_name(c: Seq<char>) -> bool {
    c != seq!['/'] && c != seq!['.'] && c != seq!['.', '.']
}

/// The parent of a path (`Path::parent`): the path without its last
/// component, unless there is none or it is the root.
pub open spec fn parent_spec(path: Seq<char>) -> Option<Seq<char>> {
    let cs = components(path);
    if cs.len() == 0 || cs.last() == seq!['/'] {
        None
    } else {
        Some(rebuild(cs.drop_last()))
    }
}

/// The last component of a path when it is a name (`Path::file_name`).
pub open spec fn file_name_spec(path: Seq<char>) -> Option<Seq<char>> {
    let cs = components(path);
    if cs.len() > 0 && is_name(cs.last()) {
        Some(cs.last())
    } else {
        None
    }
}

fn is_text(s: &str, t: &str) -> (r: bool)
    ensures
        r == (s@ == t@),
{
    str_eq(s, t)
}

/// The parent of a path (`Path::parent`).
pub fn path_parent(path: &str) -> (r: Option<String>)
    ensures
        match r {
            Some(p) => parent_spec(path@) == Some(p@),
            None => parent_spec(path@) is None,
        },
{
    let cs = path_components(path);
    let root = "/";
    proof {
        reveal_strlit("/");
        assert(root@ =~= seq!['/']);
    }
    if cs.len() == 0 || is_text(cs[cs.len() - 1].as_str(), root) {
        return None;
    }
    let mut inner: Vec<String> = Vec::new();
    let rooted = is_text(cs[0].as_str(), root);
    let start: usize = if rooted {
        1
    } else {
        0
    };
    let end = cs.len() - 1;
    let mut i = start;
    while i < end
        invariant
            start <= i <= end < cs.len(),
            views(inner@) == views(cs@).subrange(start as int, i as int),
        decreases end - i,
    {
        let c = cs[i].clone();
        proof {
            assert(views(inner@.push(c)) == views(inner@).push(c@));
            assert(views(cs@).subrange(start as int, i + 1) == views(cs@).subrange(
                start as int,
                i as int,
            ).push(cs@[i as int]@));
        }
        inner.push(c);
        i += 1;
    }
    let joined = join_strings(&inner, root);
    proof {
        let cl = views(cs@).drop_last();
        if rooted {
            assert(cl.len() > 0 && cl[0] == seq!['/']);
            assert(cl.drop_first() == views(cs@).subrange(1, end as int));
        } else {
            assert(cl == views(cs@).subrange(0, end as int));
        }
    }
    if rooted {
        let mut r = String::new();
        push_char(&mut r, '/');
        append_str(&mut r, joined.as_str());
        Some(r)
    } else {
        Some(joined)
    }
}

/// The last component of a path when it is a name (`Path::file_name`).
pub fn path_file_name(path: &str) -> (r: Option<String>)
    ensures
        match r {
            Some(n) => file_name_spec(path@) == Some(n@),
            None => file_name_spec(path@) is None,
        },
{
    let cs = path_components(path);
    if cs.len() == 0 {
        return None;
    }
    let last = &cs[cs.len() - 1];
    let root = "/";
    let dot = ".";
    let dots = "..";
    proof {
        reveal_strlit("/");
        reveal_strlit(".");
        reveal_strlit("..");
        assert(root@ =~= seq!['/']);
        assert(dot@ =~= seq!['.']);
        assert(dots@ =~= seq!['.', '.']);
    }
    if is_text(last.as_str(), root) || is_text(last.as_str(), dot) || is_text(last.as_str(), dots) {
        None
    } else {
        Some(last.clone())
    }
}


/// Whether a text holds no `/`.
pub open spec fn slash_free(p: Seq<char>) -> bool {
    forall|k: int| 0 <= k < p.len() ==> p[k] != '/'
}

proof fn lemma_segments_shift(s: Seq<char>, t: Seq<char>, k: int, cur: Seq<char>)
    requires
        0 <= k <= t.len(),
    ensures
        segments_acc(s + t, s.len() + k, cur) == segments_acc(t, k, cur),
    decreases t.len() - k,
{
    if k < t.len() {
        assert((s + t)[s.len() + k] == t[k]);
        if t[k] == '/' {
            lemma_segments_shift(s, t, k + 1, seq![]);
        } else {
            lemma_segments_shift(s, t, k + 1, cur.push(t[k]));
        }
    }
}

proof fn lemma_segments_append(s: Seq<char>, t: Seq<char>, i: int, cur: Seq<char>)
    requires
        0 <= i <= s.len(),
    ensures
        segments_acc(s + t, i, cur) == segments_acc(s, i, cur).drop_last() + segments_acc(
            t,
            0,
            segments_acc(s, i, cur).last(),
        ),
    decreases s.len() - i,
{
    lemma_segments_nonempty(s, i, cur);
    if i == s.len() {
        lemma_segments_shift(s, t, 0, cur);
        assert(segments_acc(s, i, cur) == seq![cur]);
        assert(seq![cur].drop_last() + segments_acc(t, 0, cur) =~= segments_acc(t, 0, cur));
    } else {
        assert((s + t)[i] == s[i]);
        if s[i] == '/' {
            lemma_segments_append(s, t, i + 1, seq![]);
            lemma_segments_nonempty(s, i + 1, seq![]);
            let r = segments_acc(s, i + 1, seq![]);
            assert((seq![cur] + r).drop_last() =~= seq![cur] + r.drop_last());
            assert((seq![cur] + r).last() == r.last());
            assert(seq![cur] + (r.drop_last() + segments_acc(t, 0, r.last())) =~= (seq![cur]
                + r.drop_last()) + segments_acc(t, 0, r.last()));
        } else {
            lemma_segments_append(s, t, i + 1, cur.push(s[i]));
        }
    }
}

proof fn lemma_segments_plain(s: Seq<char>, i: int, cur: Seq<char>)
    requires
        0 <= i <= s.len(),
        forall|k: int| i <= k < s.len() ==> s[k] != '/',
    ensures
        segments_acc(s, i, cur) == seq![cur + s.subrange(i, s.len() as int)],
    decreases s.len() - i,
{
    if i < s.len() {
        lemma_segments_plain(s, i + 1, cur.push(s[i]));
        assert(cur.push(s[i]) + s.subrange(i + 1, s.len() as int) =~= cur + s.subrange(
            i,
            s.len() as int,
        ));
    } else {
        assert(cur + s.subrange(i, i) =~= cur);
    }
}

proof fn lemma_segments_of_join(cs: Seq<Seq<char>>)
    requires
        cs.len() > 0,
        forall|j: int| 0 <= j < cs.len() ==> slash_free(#[trigger] cs[j]),
    ensures
        segments(join_spec(cs, seq!['/'])) == cs,
    decreases cs.len(),
{
    if cs.len() == 1 {
        assert(slash_free(cs[0]));
        lemma_segments_plain(cs[0], 0, seq![]);
        assert(seq![] + cs[0].subrange(0, cs[0].len() as int) =~= cs[0]);
        assert(cs =~= seq![cs[0]]);
    } else {
        let front = cs.drop_last();
        let y = cs.last();
        assert forall|j: int| 0 <= j < front.len() implies slash_free(#[trigger] front[j]) by {
            assert(front[j] == cs[j]);
        }
        lemma_segments_of_join(front);
        let a = join_spec(front, seq!['/']);
        let slash: Seq<char> = seq!['/'];
        assert(join_spec(cs, seq!['/']) == (a + slash) + y);
        lemma_segments_append(a, slash, 0, seq![]);
        lemma_segments_nonempty(a, 0, seq![]);
        let sa = segments(a);
        assert(segments_acc(slash, 1, seq![]) == seq![Seq::<char>::empty()]);
        assert(segments_acc(slash, 0, sa.last()) == seq![sa.last()] + seq![Seq::<char>::empty()]);
        assert(segments(a + slash) =~= sa + seq![Seq::<char>::empty()]);
        lemma_segments_append(a + slash, y, 0, seq![]);
        assert(slash_free(cs[cs.len() - 1]));
        lemma_segments_plain(y, 0, seq![]);
        assert(seq![] + y.subrange(0, y.len() as int) =~= y);
        assert((sa + seq![Seq::<char>::empty()]).drop_last() =~= sa);
        assert(sa + seq![y] =~= cs);
    }
}

proof fn lemma_kept_all(ps: Seq<Seq<char>>)
    requires
        forall|j: int| 0 <= j < ps.len() ==> kept_segment(#[trigger] ps[j]),
    ensures
        kept_segments(ps) == ps,
    decreases ps.len(),
{
    if ps.len() > 0 {
        let front = ps.drop_last();
        assert forall|j: int| 0 <= j < front.len() implies kept_segment(#[trigger] front[j]) by {
            assert(front[j] == ps[j]);
        }
        lemma_kept_all(front);
        assert(kept_segment(ps[ps.len() - 1]));
        assert(front + seq![ps.last()] =~= ps);
    }
}

proof fn lemma_kept_segments_props(ps: Seq<Seq<char>>)
    requires
        forall|j: int| 0 <= j < ps.len() ==> slash_free(#[trigger] ps[j]),
    ensures
        forall|j: int|
            0 <= j < kept_segments(ps).len() ==> kept_segment(#[trigger] kept_segments(ps)[j])
                && slash_free(kept_segments(ps)[j]),
        ps.len() > 0 && kept_segment(ps[0]) ==> kept_segments(ps).len() > 0,
    decreases ps.len(),
{
    if ps.len() > 0 {
        let front = ps.drop_last();
        assert forall|j: int| 0 <= j < front.len() implies slash_free(#[trigger] front[j]) by {
            assert(front[j] == ps[j]);
        }
        lemma_kept_segments_props(front);
        assert(slash_free(ps[ps.len() - 1]));
        let k = kept_segments(ps);
        let kf = kept_segments(front);
        assert forall|j: int| 0 <= j < k.len() implies kept_segment(#[trigger] k[j])
            && slash_free(k[j]) by {
            if j < kf.len() {
                assert(k[j] == kf[j]);
            }
        }
        if ps.len() > 1 {
            assert(front[0] == ps[0]);
        }
    }
}

proof fn lemma_segments_slash_free(s: Seq<char>, i: int, cur: Seq<char>)
    requires
        0 <= i <= s.len(),
        slash_free(cur),
    ensures
        forall|j: int|
            0 <= j < segments_acc(s, i, cur).len() ==> slash_free(
                #[trigger] segments_acc(s, i, cur)[j],
            ),
        segments_acc(s, i, cur)[0].len() >= cur.len(),
    decreases s.len() - i,
{
    lemma_segments_nonempty(s, i, cur);
    if i < s.len() {
        if s[i] == '/' {
            lemma_segments_slash_free(s, i + 1, seq![]);
            let r = segments_acc(s, i + 1, seq![]);
            assert forall|j: int| 0 <= j < (seq![cur] + r).len() implies slash_free(
                #[trigger] (seq![cur] + r)[j],
            ) by {
                if j > 0 {
                    assert((seq![cur] + r)[j] == r[j - 1]);
                }
            }
        } else {
            let next = cur.push(s[i]);
            assert(slash_free(next)) by {
                assert forall|k: int| 0 <= k < next.len() implies next[k] != '/' by {
                    if k < cur.len() {
                        assert(next[k] == cur[k]);
                    }
                }
            }
            lemma_segments_slash_free(s, i + 1, next);
        }
    }
}

/// The components of a safe relative path, joined with `/`, give back a
/// safe relative path with the same components: normalizing such a path
/// keeps it inside the directory it is taken from, and normalizing twice is
/// normalizing once.
pub proof fn normalized_safe_path(s: Seq<char>)
    requires
        is_safe_relative(s),
    ensures
        components(normalized(s)) == components(s),
        is_safe_relative(normalized(s)),
        normalized(normalized(s)) == normalized(s),
{
    let segs = segments(s);
    lemma_segments_slash_free(s, 0, seq![]);
    lemma_segments_nonempty(s, 0, seq![]);
    lemma_segments_slash_free(s, 1, seq![s[0]]);
    assert(slash_free(seq![s[0]]));
    assert(segs[0].len() >= 1);
    if segs[0] == seq!['.'] {
        assert(components(s)[0] == seq!['.']);
    }
    let cs = components(s);
    assert(cs == kept_segments(segs));
    lemma_kept_segments_props(segs);
    assert(cs.len() > 0);
    lemma_components_of_join(cs);
}

/// Names joined with `/` read back as those names.
pub proof fn lemma_components_of_join(cs: Seq<Seq<char>>)
    requires
        cs.len() > 0,
        forall|j: int| 0 <= j < cs.len() ==> kept_segment(#[trigger] cs[j]) && slash_free(cs[j]),
    ensures
        components(join_spec(cs, seq!['/'])) == cs,
        join_spec(cs, seq!['/']).len() > 0,
        join_spec(cs, seq!['/'])[0] != '/',
{
    let n = join_spec(cs, seq!['/']);
    assert forall|j: int| 0 <= j < cs.len() implies slash_free(#[trigger] cs[j]) by {
        assert(kept_segment(cs[j]) && slash_free(cs[j]));
    }
    lemma_segments_of_join(cs);
    if n.len() > 0 && n[0] == '/' {
        assert(segments_acc(n, 0, seq![]) == seq![Seq::<char>::empty()] + segments_acc(
            n,
            1,
            seq![],
        ));
        assert(segments(n)[0] == Seq::<char>::empty());
        assert(kept_segment(cs[0]));
    }
    if n.len() == 0 {
        assert(segments(n) == seq![Seq::<char>::empty()]);
        assert(kept_segment(cs[0]));
    }
    assert(segments(n)[0] == cs[0]);
    assert(kept_segment(cs[0]));
    assert forall|j: int| 0 <= j < cs.len() implies kept_segment(#[trigger] cs[j]) by {
        assert(kept_segment(cs[j]) && slash_free(cs[j]));
    }
    lemma_kept_all(cs);
}

/// Writing out the components of a path and reading them back gives the
/// same components.
pub proof fn lemma_components_rebuild(p: Seq<char>)
    ensures
        components(rebuild(components(p))) == components(p),
{
    let segs = segments(p);
    lemma_segments_slash_free(p, 0, seq![]);
    lemma_segments_nonempty(p, 0, seq![]);
    let rest = segs.drop_first();
    assert forall|j: int| 0 <= j < rest.len() implies slash_free(#[trigger] rest[j]) by {
        assert(rest[j] == segs[j + 1]);
    }
    lemma_kept_segments_props(rest);
    lemma_kept_segments_props(segs);
    let k = kept_segments(rest);
    let slash: Seq<char> = seq!['/'];
    if p.len() > 0 && p[0] == '/' {
        let cs = components(p);
        assert(cs == seq![slash] + k);
        assert(cs[0] == slash);
        assert(cs.drop_first() =~= k);
        let r = rebuild(cs);
        assert(r == slash + join_spec(k, slash));
        if k.len() == 0 {
            assert(join_spec(k, slash) == Seq::<char>::empty());
            assert(r =~= slash);
            assert(segments_acc(r, 1, seq![]) == seq![Seq::<char>::empty()]);
            assert(segments(r) == seq![Seq::<char>::empty()] + seq![Seq::<char>::empty()]);
            assert(segments(r).drop_first() =~= seq![Seq::<char>::empty()]);
            lemma_kept_push(Seq::<Seq<char>>::empty(), Seq::<char>::empty());
            assert(Seq::<Seq<char>>::empty().push(Seq::<char>::empty()) =~= seq![Seq::<char>::empty()]);
            assert(components(r) =~= seq![slash]);
            assert(cs =~= seq![slash]);
        } else {
            lemma_components_of_join(k);
            lemma_segments_of_join_kept(k);
            lemma_segments_append(slash, join_spec(k, slash), 0, seq![]);
            assert(segments_acc(slash, 1, seq![]) == seq![Seq::<char>::empty()]);
            assert(segments_acc(slash, 0, seq![]) == seq![Seq::<char>::empty()] + seq![Seq::<char>::empty()]);
            assert(segments(r) =~= seq![Seq::<char>::empty()] + k);
            assert(segments(r).drop_first() =~= k);
            lemma_kept_all_kept(k);
            assert(r[0] == '/');
        }
    } else if segs[0] == seq!['.'] {
        let dot: Seq<char> = seq!['.'];
        let cs = components(p);
        assert(cs == seq![dot] + k);
        let r = rebuild(cs);
        assert(cs[0] == dot);
        assert(cs[0] != slash);
        assert(r == join_spec(cs, slash));
        assert forall|j: int| 0 <= j < cs.len() implies slash_free(#[trigger] cs[j]) by {
            if j > 0 {
                assert(cs[j] == k[j - 1]);
            }
        }
        lemma_segments_of_join(cs);
        if r.len() > 0 && r[0] == '/' {
            assert(segments_acc(r, 0, seq![]) == seq![Seq::<char>::empty()] + segments_acc(
                r,
                1,
                seq![],
            ));
        }
        assert(segments(r)[0] == dot);
        assert(segments(r).drop_first() =~= k);
        lemma_kept_all_kept(k);
    } else {
        let cs = components(p);
        assert(cs == kept_segments(segs));
        if cs.len() == 0 {
            assert(rebuild(cs) == Seq::<char>::empty());
            assert(segments(Seq::<char>::empty()) == seq![Seq::<char>::empty()]);
            lemma_kept_push(Seq::<Seq<char>>::empty(), Seq::<char>::empty());
            assert(Seq::<Seq<char>>::empty().push(Seq::<char>::empty()) =~= seq![Seq::<char>::empty()]);
        } else {
            assert(kept_segment(cs[0]) && slash_free(cs[0]));
            assert(cs[0] != slash) by {
                if cs[0] == slash {
                    assert(cs[0][0] == '/');
                }
            }
            lemma_components_of_join(cs);
        }
    }
}

proof fn lemma_segments_of_join_kept(cs: Seq<Seq<char>>)
    requires
        cs.len() > 0,
        forall|j: int| 0 <= j < cs.len() ==> kept_segment(#[trigger] cs[j]) && slash_free(cs[j]),
    ensures
        segments(join_spec(cs, seq!['/'])) == cs,
{
    assert forall|j: int| 0 <= j < cs.len() implies slash_free(#[trigger] cs[j]) by {
        assert(kept_segment(cs[j]) && slash_free(cs[j]));
    }
    lemma_segments_of_join(cs);
}

proof fn lemma_kept_all_kept(cs: Seq<Seq<char>>)
    requires
        forall|j: int| 0 <= j < cs.len() ==> kept_segment(#[trigger] cs[j]) && slash_free(cs[j]),
    ensures
        kept_segments(cs) == cs,
{
    assert forall|j: int| 0 <= j < cs.len() implies kept_segment(#[trigger] cs[j]) by {
        assert(kept_segment(cs[j]) && slash_free(cs[j]));
    }
    lemma_kept_all(cs);
}

/// A single name, without `/` and other than `.` and `..`, is a safe
/// relative path.
pub proof fn lemma_plain_name_is_safe(s: Seq<char>)
    requires
        s.len() > 0,
        slash_free(s),
        s != seq!['.'],
        s != seq!['.', '.'],
    ensures
        is_safe_relative(s),
        components(s) == seq![s],
{
    lemma_segments_plain(s, 0, seq![]);
    assert(seq![] + s.subrange(0, s.len() as int) =~= s);
    assert(segments(s) == seq![s]);
    assert(kept_segments(seq![s]) == kept_segments(seq![s].drop_last()) + seq![s]);
    assert(seq![s].drop_last() =~= Seq::<Seq<char>>::empty());
    assert(kept_segments(seq![s]) =~= seq![s]);
}

proof fn lemma_segments_slash(a: Seq<char>)
    ensures
        segments(a + seq!['/']) == segments(a) + seq![Seq::<char>::empty()],
{
    let slash: Seq<char> = seq!['/'];
    lemma_segments_append(a, slash, 0, seq![]);
    lemma_segments_nonempty(a, 0, seq![]);
    let sa = segments(a);
    assert(segments_acc(slash, 1, seq![]) == seq![Seq::<char>::empty()]);
    assert(segments_acc(slash, 0, sa.last()) == seq![sa.last()] + seq![Seq::<char>::empty()]);
    assert(segments(a + slash) =~= sa + seq![Seq::<char>::empty()]);
}

proof fn lemma_kept_push(ps: Seq<Seq<char>>, x: Seq<char>)
    ensures
        kept_segments(ps.push(x)) == kept_segments(ps) + (if kept_segment(x) {
            seq![x]
        } else {
            seq![]
        }),
{
    assert(ps.push(x).drop_last() == ps);
}

/// Joining a name to a path adds exactly that name as its last component.
pub proof fn lemma_components_join_name(b: Seq<char>, x: Seq<char>)
    requires
        x.len() > 0,
        slash_free(x),
        x != seq!['.'],
        x != seq!['.', '.'],
    ensures
        components(path_join_spec(b, x)) == components(b).push(x),
{
    let path = path_join_spec(b, x);
    lemma_segments_nonempty(b, 0, seq![]);
    lemma_segments_plain(x, 0, seq![]);
    assert(seq![] + x.subrange(0, x.len() as int) =~= x);
    assert(segments_acc(x, 0, seq![]) == seq![x]);
    assert(kept_segment(x));
    let sb = segments(b);
    if b.len() == 0 {
        assert(path == x);
        lemma_plain_name_is_safe(x);
        assert(sb == seq![Seq::<char>::empty()]);
        assert(sb.drop_last() =~= Seq::<Seq<char>>::empty());
        assert(kept_segments(sb) == kept_segments(sb.drop_last()));
        assert(components(b) =~= Seq::<Seq<char>>::empty());
        assert(components(b).push(x) =~= seq![x]);
    } else {
        let sp: Seq<Seq<char>>;
        if b.last() != '/' {
            assert(path == (b + seq!['/']) + x);
            lemma_segments_slash(b);
            lemma_segments_append(b + seq!['/'], x, 0, seq![]);
            assert((sb + seq![Seq::<char>::empty()]).drop_last() =~= sb);
            assert((sb + seq![Seq::<char>::empty()]).last() == Seq::<char>::empty());
            sp = sb.push(x);
            assert(segments(path) =~= sp);
            assert(path[0] == b[0]);
            assert(sp[0] == sb[0]);
            assert(sp.drop_first() =~= sb.drop_first().push(x));
            lemma_kept_push(sb.drop_first(), x);
            lemma_kept_push(sb, x);
        } else {
            let bf = b.drop_last();
            assert(b == bf + seq!['/']);
            lemma_segments_slash(bf);
            lemma_segments_nonempty(bf, 0, seq![]);
            assert(sb.len() >= 2);
            assert(sb.last() == Seq::<char>::empty());
            assert(path == b + x);
            lemma_segments_append(b, x, 0, seq![]);
            sp = sb.drop_last().push(x);
            assert(segments(path) =~= sp);
            assert(path[0] == b[0]);
            assert(sp[0] == sb[0]);
            assert(sp.drop_first() =~= sb.drop_first().drop_last().push(x));
            assert(sb.drop_first().drop_last().push(sb.last()) =~= sb.drop_first());
            assert(sb.drop_last().push(sb.last()) =~= sb);
            lemma_kept_push(sb.drop_first().drop_last(), x);
            lemma_kept_push(sb.drop_first().drop_last(), sb.last());
            lemma_kept_push(sb.drop_last(), x);
            lemma_kept_push(sb.drop_last(), sb.last());
        }
    }
}

/// Each component of a path is the root `/` or a leading `.`, both only in
/// first place, or a name part: not empty, not `.`, and without `/`.
pub proof fn lemma_components_shape(p: Seq<char>)
    ensures
        forall|k: int|
            0 <= k < components(p).len() ==> ((k == 0 && (#[trigger] components(p)[k] == seq![
                '/',
            ] || components(p)[k] == seq!['.'])) || (kept_segment(components(p)[k]) && slash_free(
                components(p)[k],
            ))),
{
    let segs = segments(p);
    lemma_segments_slash_free(p, 0, seq![]);
    lemma_segments_nonempty(p, 0, seq![]);
    let rest = segs.drop_first();
    assert forall|j: int| 0 <= j < rest.len() implies slash_free(#[trigger] rest[j]) by {
        assert(rest[j] == segs[j + 1]);
    }
    lemma_kept_segments_props(rest);
    lemma_kept_segments_props(segs);
    let cs = components(p);
    let k = kept_segments(rest);
    if (p.len() > 0 && p[0] == '/') || segs[0] == seq!['.'] {
        assert forall|j: int| 0 <= j < cs.len() implies ((j == 0 && (#[trigger] cs[j] == seq!['/']
            || cs[j] == seq!['.'])) || (kept_segment(cs[j]) && slash_free(cs[j]))) by {
            if j > 0 {
                assert(cs[j] == k[j - 1]);
            }
        }
    }
}

} // verus!
