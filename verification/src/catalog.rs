//! The catalog: how root and instance states are stored, which directories
//! a scan skips, how a `SKILL.md` document is read, and what a scan of a
//! root reports.
use vstd::prelude::*;

use crate::path::{components, path_components, relative_path_spec};
use crate::sorting::{sort_by_key, sorted_by_key, TextKeyed};
use crate::text::{
    append_str, chars_of, concat2, copy_str, decimal, i64_decimal, join_spec, join_strings,
    push_char, str_eq, trim, trim_string, views,
};
use crate::{SkillInstance, SkillRootStatus, SkillStatus};

verus! {

/// The text that stores an instance status.
pub open spec fn skill_status_text(s: SkillStatus) -> Seq<char> {
    match s {
        SkillStatus::Ready => "ready"@,
        SkillStatus::NeedsRepair => "needs_repair"@,
    }
}

/// The instance status stored as `value`: `ready`, and needing repair for
/// anything else.
pub open spec fn skill_status_from_text(value: Seq<char>) -> SkillStatus {
    if value == "ready"@ {
        SkillStatus::Ready
    } else {
        SkillStatus::NeedsRepair
    }
}

impl SkillStatus {
    /// The text that stores this status.
    pub fn as_database(&self) -> (r: &'static str)
        ensures
            r@ == skill_status_text(*self),
    {
        match self {
            SkillStatus::Ready => "ready",
            SkillStatus::NeedsRepair => "needs_repair",
        }
    }

    /// The status stored as `value`.
    pub fn from_database(value: &str) -> (r: SkillStatus)
        ensures
            r == skill_status_from_text(value@),
    {
        if str_eq(value, "ready") {
            SkillStatus::Ready
        } else {
            SkillStatus::NeedsRepair
        }
    }
}

/// An instance status survives being stored and read back.
pub proof fn skill_status_round_trip(s: SkillStatus)
    ensures
        skill_status_from_text(skill_status_text(s)) == s,
{
    reveal_strlit("ready");
    reveal_strlit("needs_repair");
    if s == SkillStatus::NeedsRepair {
        assert("needs_repair"@.len() != "ready"@.len());
    }
}

/// The text that stores a root status.
pub open spec fn root_status_text(s: SkillRootStatus) -> Seq<char> {
    match s {
        SkillRootStatus::Ready => "ready"@,
        SkillRootStatus::PartialFailure => "partial_failure"@,
        SkillRootStatus::Missing => "missing"@,
        SkillRootStatus::PermissionDenied => "permission_denied"@,
    }
}

/// The root status stored as `value`; anything unknown reads as ready.
pub open spec fn root_status_from_text(value: Seq<char>) -> SkillRootStatus {
    if value == "partial_failure"@ {
        SkillRootStatus::PartialFailure
    } else if value == "missing"@ {
        SkillRootStatus::Missing
    } else if value == "permission_denied"@ {
        SkillRootStatus::PermissionDenied
    } else {
        SkillRootStatus::Ready
    }
}

impl SkillRootStatus {
    /// The text that stores this status.
    pub fn as_database(&self) -> (r: &'static str)
        ensures
            r@ == root_status_text(*self),
    {
        match self {
            SkillRootStatus::Ready => "ready",
            SkillRootStatus::PartialFailure => "partial_failure",
            SkillRootStatus::Missing => "missing",
            SkillRootStatus::PermissionDenied => "permission_denied",
        }
    }

    /// The status stored as `value`.
    pub fn from_database(value: &str) -> (r: SkillRootStatus)
        ensures
            r == root_status_from_text(value@),
    {
        if str_eq(value, "partial_failure") {
            SkillRootStatus::PartialFailure
        } else if str_eq(value, "missing") {
            SkillRootStatus::Missing
        } else if str_eq(value, "permission_denied") {
            SkillRootStatus::PermissionDenied
        } else {
            SkillRootStatus::Ready
        }
    }
}

/// A root status survives being stored and read back.
pub proof fn root_status_round_trip(s: SkillRootStatus)
    ensures
        root_status_from_text(root_status_text(s)) == s,
{
    reveal_strlit("ready");
    reveal_strlit("partial_failure");
    reveal_strlit("missing");
    reveal_strlit("permission_denied");
    assert("ready"@.len() != "partial_failure"@.len());
    assert("ready"@.len() != "missing"@.len());
    assert("ready"@.len() != "permission_denied"@.len());
    assert("missing"@.len() != "partial_failure"@.len());
    assert("permission_denied"@.len() != "partial_failure"@.len());
    assert("permission_denied"@.len() != "missing"@.len());
}

/// The names of directories a scan never enters.
pub open spec fn ignored_directory_names() -> Seq<Seq<char>> {
    seq![
        ".git"@,
        ".hg"@,
        ".svn"@,
        "node_modules"@,
        ".cache"@,
        "__pycache__"@,
        ".npm"@,
        ".yarn"@,
        ".pnpm-store"@,
        ".Trash"@,
        ".Trashes"@,
        ".Spotlight-V100"@,
        ".fseventsd"@,
        ".TemporaryItems"@,
        "Caches"@,
        "target"@,
        "$RECYCLE.BIN"@,
        "System Volume Information"@,
    ]
}

/// Whether `s` ends with `suffix`.
pub open spec fn ends_with(s: Seq<char>, suffix: Seq<char>) -> bool {
    suffix.len() <= s.len() && s.subrange(s.len() - suffix.len(), s.len() as int) == suffix
}

/// Whether `s` starts with `prefix`.
pub open spec fn starts_with(s: Seq<char>, prefix: Seq<char>) -> bool {
    prefix.len() <= s.len() && s.subrange(0, prefix.len() as int) == prefix
}

/// Whether a text ends with a suffix (`str::ends_with`).
pub fn text_ends_with(s: &str, suffix: &str) -> (r: bool)
    ensures
        r == ends_with(s@, suffix@),
{
    let sv = chars_of(s);
    let tv = chars_of(suffix);
    if tv.len() > sv.len() {
        return false;
    }
    let offset = sv.len() - tv.len();
    let mut i: usize = 0;
    while i < tv.len()
        invariant
            i <= tv.len(),
            offset + tv.len() == sv.len(),
            sv@ == s@,
            tv@ == suffix@,
            forall|k: int| 0 <= k < i ==> sv@[offset + k] == tv@[k],
        decreases tv.len() - i,
    {
        if sv[offset + i] != tv[i] {
            assert(s@.subrange(offset as int, s@.len() as int)[i as int] != suffix@[i as int]);
            return false;
        }
        i += 1;
    }
    assert(s@.subrange(offset as int, s@.len() as int) =~= suffix@);
    true
}

/// Whether a text starts with a prefix (`str::starts_with`).
pub fn text_starts_with(s: &str, prefix: &str) -> (r: bool)
    ensures
        r == starts_with(s@, prefix@),
{
    let sv = chars_of(s);
    let pv = chars_of(prefix);
    if pv.len() > sv.len() {
        return false;
    }
    let mut i: usize = 0;
    while i < pv.len()
        invariant
            i <= pv.len() <= sv.len(),
            sv@ == s@,
            pv@ == prefix@,
            forall|k: int| 0 <= k < i ==> sv@[k] == pv@[k],
        decreases pv.len() - i,
    {
        if sv[i] != pv[i] {
            assert(s@.subrange(0, pv.len() as int)[i as int] != prefix@[i as int]);
            return false;
        }
        i += 1;
    }
    assert(s@.subrange(0, pv.len() as int) =~= prefix@);
    true
}

/// Whether a scan skips a directory of this name: a tool, cache or system
/// directory, or any name ending in `_cache`.
pub open spec fn is_ignored_directory_spec(name: Seq<char>) -> bool {
    ignored_directory_names().contains(name) || ends_with(name, "_cache"@)
}

/// Whether a scan skips a directory of this name.
pub fn is_ignored_directory(name: &str) -> (r: bool)
    ensures
        r == is_ignored_directory_spec(name@),
{
    let names: [&str; 18] = [
        ".git",
        ".hg",
        ".svn",
        "node_modules",
        ".cache",
        "__pycache__",
        ".npm",
        ".yarn",
        ".pnpm-store",
        ".Trash",
        ".Trashes",
        ".Spotlight-V100",
        ".fseventsd",
        ".TemporaryItems",
        "Caches",
        "target",
        "$RECYCLE.BIN",
        "System Volume Information",
    ];
    let ghost listed = ignored_directory_names();
    assert(names@.map_values(|n: &str| n@) =~= listed);
    let mut i: usize = 0;
    while i < 18
        invariant
            i <= 18,
            names@.map_values(|n: &str| n@) == listed,
            listed == ignored_directory_names(),
            forall|k: int| 0 <= k < i ==> listed[k] != name@,
        decreases 18 - i,
    {
        assert(names@[i as int]@ == listed[i as int]);
        if str_eq(names[i], name) {
            assert(listed[i as int] == name@);
            assert(ignored_directory_names()[i as int] == name@);
            assert(ignored_directory_names().contains(name@));
            return true;
        }
        i += 1;
    }
    assert(!listed.contains(name@));
    text_ends_with(name, "_cache")
}

/// The first index at or after `i` where `pat` occurs in `s` (`str::find`).
pub open spec fn find_from(s: Seq<char>, pat: Seq<char>, i: int) -> Option<int>
    decreases s.len() - i,
{
    if i < 0 || i + pat.len() > s.len() {
        None
    } else if s.subrange(i, i + pat.len()) == pat {
        Some(i)
    } else if i >= s.len() {
        None
    } else {
        find_from(s, pat, i + 1)
    }
}

/// The YAML frontmatter of a Skill document: what stands between a leading
/// `---` line and the next line that starts with `---`.
pub open spec fn frontmatter_spec(content: Seq<char>) -> Option<Seq<char>> {
    if starts_with(content, "---\n"@) {
        let rest = content.skip(4);
        match find_from(rest, "\n---"@, 0) {
            Some(end) => Some(rest.take(end)),
            None => None,
        }
    } else {
        None
    }
}

/// The YAML frontmatter of a Skill document, if it has one.
pub fn frontmatter(content: &str) -> (r: Option<String>)
    ensures
        match r {
            Some(f) => frontmatter_spec(content@) == Some(f@),
            None => frontmatter_spec(content@) is None,
        },
{
    proof {
        reveal_strlit("---\n");
        reveal_strlit("\n---");
    }
    if !text_starts_with(content, "---\n") {
        return None;
    }
    let v = chars_of(content);
    let ghost rest = content@.skip(4);
    let ghost pat = "\n---"@;
    assert(pat =~= seq!['\n', '-', '-', '-']);
    let mut i: usize = 4;
    while i <= v.len() && v.len() - i >= 4
        invariant
            4 <= i,
            v@ == content@,
            v@.len() >= 4,
            rest == content@.skip(4),
            pat == seq!['\n', '-', '-', '-'],
            pat == "\n---"@,
            starts_with(content@, "---\n"@),
            find_from(rest, pat, 0) == find_from(rest, pat, i - 4),
        decreases v.len() - i,
    {
        if v[i] == '\n' && v[i + 1] == '-' && v[i + 2] == '-' && v[i + 3] == '-' {
            assert(rest.subrange(i - 4, i - 4 + 4) =~= pat);
            assert(find_from(rest, pat, i - 4) == Some(i - 4));
            let r = crate::text::string_from_range(&v, 4, i);
            assert(v@.subrange(4, i as int) =~= rest.take(i - 4));
            return Some(r);
        }
        assert(rest.subrange(i - 4, i - 4 + 4) != pat) by {
            if rest.subrange(i - 4, i - 4 + 4) == pat {
                assert(rest.subrange(i - 4, i as int)[0] == v@[i as int]);
                assert(rest.subrange(i - 4, i as int)[1] == v@[i + 1]);
                assert(rest.subrange(i - 4, i as int)[2] == v@[i + 2]);
                assert(rest.subrange(i - 4, i as int)[3] == v@[i + 3]);
            }
        }
        i += 1;
    }
    None
}

/// What reading a `SKILL.md` yields: its name and description, and the
/// problem that makes the Skill need repair, if any.
#[derive(Debug, Clone, PartialEq, Eq, Default)]
pub struct ParsedSkillDocument {
    pub name: Option<String>,
    pub description: Option<String>,
    pub error: Option<String>,
}

/// A metadata value trimmed, when anything is left of it.
pub open spec fn non_empty_spec(value: Option<Seq<char>>) -> Option<Seq<char>> {
    match value {
        Some(v) => if trim(v).len() > 0 {
            Some(trim(v))
        } else {
            None
        },
        None => None,
    }
}

/// The view of an optional string.
pub open spec fn opt_view(s: Option<String>) -> Option<Seq<char>> {
    match s {
        Some(v) => Some(v@),
        None => None,
    }
}

/// A metadata value trimmed, when anything is left of it.
pub fn non_empty(value: Option<String>) -> (r: Option<String>)
    ensures
        opt_view(r) == non_empty_spec(opt_view(value)),
{
    match value {
        Some(v) => {
            let t = trim_string(v.as_str());
            if t.as_str().is_empty() {
                None
            } else {
                Some(t)
            }
        },
        None => None,
    }
}

/// A document whose problem is `message`.
fn failed_document(message: String) -> (d: ParsedSkillDocument)
    ensures
        d.name is None,
        d.description is None,
        d.error == Some(message),
{
    ParsedSkillDocument { name: None, description: None, error: Some(message) }
}

/// The outcome for a `SKILL.md` without frontmatter.
pub fn missing_frontmatter_document() -> (d: ParsedSkillDocument)
    ensures
        d.name is None,
        d.description is None,
        opt_view(d.error) == Some("SKILL.md 缺少 YAML frontmatter"@),
{
    failed_document("SKILL.md 缺少 YAML frontmatter".to_owned())
}

/// The outcome for frontmatter that is not valid YAML metadata; `detail` is
/// the parser's account.
pub fn unparsable_frontmatter_document(detail: &str) -> (d: ParsedSkillDocument)
    ensures
        d.name is None,
        d.description is None,
        opt_view(d.error) == Some("YAML frontmatter 无法解析："@ + detail@),
{
    failed_document(concat2("YAML frontmatter 无法解析：", detail))
}

/// The outcome for a `SKILL.md` that is not UTF-8 text.
pub fn invalid_utf8_document() -> (d: ParsedSkillDocument)
    ensures
        d.name is None,
        d.description is None,
        opt_view(d.error) == Some("SKILL.md 不是有效的 UTF-8 文本"@),
{
    failed_document("SKILL.md 不是有效的 UTF-8 文本".to_owned())
}

/// The outcome for a `SKILL.md` that cannot be read; `detail` is the
/// system's account.
pub fn unreadable_document(detail: &str) -> (d: ParsedSkillDocument)
    ensures
        d.name is None,
        d.description is None,
        opt_view(d.error) == Some("无法读取 SKILL.md："@ + detail@),
{
    failed_document(concat2("无法读取 SKILL.md：", detail))
}

/// The outcome for parsed metadata: name and description trimmed; the
/// document needs repair when either is missing or blank, the name first.
pub fn document_from_metadata(name: Option<String>, description: Option<String>) -> (d:
    ParsedSkillDocument)
    ensures
        opt_view(d.name) == non_empty_spec(opt_view(name)),
        opt_view(d.description) == non_empty_spec(opt_view(description)),
        opt_view(d.error) == (if non_empty_spec(opt_view(name)) is None {
            Some("YAML frontmatter 缺少 name"@)
        } else if non_empty_spec(opt_view(description)) is None {
            Some("YAML frontmatter 缺少 description"@)
        } else {
            None
        }),
{
    let name = non_empty(name);
    let description = non_empty(description);
    let error = if name.is_none() {
        Some("YAML frontmatter 缺少 name".to_owned())
    } else if description.is_none() {
        Some("YAML frontmatter 缺少 description".to_owned())
    } else {
        None
    };
    ParsedSkillDocument { name, description, error }
}

/// Whether two paths have the same components (`Path` equality).
pub open spec fn same_path(a: Seq<char>, b: Seq<char>) -> bool {
    components(a) == components(b)
}

/// Whether two paths have the same components (`Path` equality).
pub fn paths_equal(a: &str, b: &str) -> (r: bool)
    ensures
        r == same_path(a@, b@),
{
    let ac = path_components(a);
    let bc = path_components(b);
    if ac.len() != bc.len() {
        assert(views(ac@).len() != views(bc@).len());
        return false;
    }
    let mut i: usize = 0;
    while i < ac.len()
        invariant
            i <= ac@.len() == bc@.len(),
            views(ac@) == components(a@),
            views(bc@) == components(b@),
            forall|k: int| 0 <= k < i ==> views(ac@)[k] == views(bc@)[k],
        decreases ac@.len() - i,
    {
        if !str_eq(ac[i].as_str(), bc[i].as_str()) {
            assert(views(ac@)[i as int] != views(bc@)[i as int]);
            assert(views(ac@) != views(bc@));
            return false;
        }
        i += 1;
    }
    assert(views(ac@) =~= views(bc@));
    true
}

/// The id of an instance: its root id, a colon, and its relative path.
pub open spec fn instance_id_spec(root_id: i64, relative_path: Seq<char>) -> Seq<char> {
    decimal(root_id as int) + seq![':'] + relative_path
}

/// The id of an instance: its root id, a colon, and its relative path.
pub fn instance_id(root_id: i64, relative_path: &str) -> (r: String)
    ensures
        r@ == instance_id_spec(root_id, relative_path@),
{
    let mut r = i64_decimal(root_id);
    push_char(&mut r, ':');
    append_str(&mut r, relative_path);
    r
}

/// Different roots or relative paths give different instance ids: an id
/// names one instance.
pub proof fn instance_ids_are_distinct(a: i64, p: Seq<char>, b: i64, q: Seq<char>)
    ensures
        instance_id_spec(a, p) == instance_id_spec(b, q) ==> a == b && p == q,
{
    if instance_id_spec(a, p) == instance_id_spec(b, q) {
        let x = instance_id_spec(a, p);
        let da = decimal(a as int);
        let db = decimal(b as int);
        crate::text::lemma_decimal_shape(a as int);
        crate::text::lemma_decimal_shape(b as int);
        assert(x[da.len() as int] == ':');
        assert(x[db.len() as int] == ':');
        if da.len() < db.len() {
            assert(x[da.len() as int] == db[da.len() as int]);
            assert(crate::text::numeral_char(db[da.len() as int]));
        }
        if db.len() < da.len() {
            assert(x[db.len() as int] == da[db.len() as int]);
            assert(crate::text::numeral_char(da[db.len() as int]));
        }
        assert(da =~= x.take(da.len() as int));
        assert(db =~= x.take(db.len() as int));
        crate::text::lemma_decimal_injective(a as int, b as int);
        assert(p =~= x.skip(da.len() as int + 1));
        assert(q =~= x.skip(db.len() as int + 1));
    }
}

/// The instance `i` found in `directory` under `root`: it is named by its
/// document or, failing that, by its directory; it records a link location
/// when its real directory differs; it needs repair when its document does.
pub open spec fn instance_holds(
    i: SkillInstance,
    root_id: i64,
    root: Seq<char>,
    directory: Seq<char>,
    real_directory: Seq<char>,
    skill_file: Seq<char>,
    directory_name: Option<Seq<char>>,
    parsed: ParsedSkillDocument,
) -> bool {
    let relative = relative_path_spec(root, directory);
    &&& i.id@ == instance_id_spec(root_id, relative)
    &&& i.root_id == root_id
    &&& i.name@ == (match parsed.name {
        Some(n) => n@,
        None => match directory_name {
            Some(d) => d,
            None => "未命名 Skill"@,
        },
    })
    &&& i.description@ == (match parsed.description {
        Some(d) => d@,
        None => Seq::<char>::empty(),
    })
    &&& i.relative_path@ == relative
    &&& i.skill_file_path@ == skill_file
    &&& opt_view(i.link_path) == (if same_path(real_directory, directory) {
        None
    } else {
        Some(directory)
    })
    &&& i.real_path@ == real_directory
    &&& i.status == (if parsed.error is Some {
        SkillStatus::NeedsRepair
    } else {
        SkillStatus::Ready
    })
    &&& i.error == parsed.error
}

/// The instance found in `directory` under `root`, with the outcome of
/// reading its document.
pub fn skill_instance(
    root_id: i64,
    root: &str,
    directory: &str,
    real_directory: &str,
    skill_file: &str,
    directory_name: Option<String>,
    parsed: ParsedSkillDocument,
) -> (i: SkillInstance)
    ensures
        instance_holds(
            i,
            root_id,
            root@,
            directory@,
            real_directory@,
            skill_file@,
            opt_view(directory_name),
            parsed,
        ),
{
    let relative_path = crate::path::normalized_relative_path(root, directory);
    let fallback = match directory_name {
        Some(n) => n,
        None => "未命名 Skill".to_owned(),
    };
    let link_path = if paths_equal(real_directory, directory) {
        None
    } else {
        Some(copy_str(directory))
    };
    let status = if parsed.error.is_some() {
        SkillStatus::NeedsRepair
    } else {
        SkillStatus::Ready
    };
    SkillInstance {
        id: instance_id(root_id, relative_path.as_str()),
        root_id,
        name: match parsed.name {
            Some(n) => n,
            None => fallback,
        },
        description: match parsed.description {
            Some(d) => d,
            None => String::new(),
        },
        relative_path,
        skill_file_path: copy_str(skill_file),
        link_path,
        real_path: copy_str(real_directory),
        status,
        error: parsed.error,
    }
}

/// Whether a scan descends into a directory entry: a directory or a link
/// whose name (when it has a text name) is not one a scan skips.
pub fn descends_into(is_dir: bool, is_symlink: bool, name: Option<&str>) -> (r: bool)
    ensures
        r == ((is_dir || is_symlink) && match name {
            Some(n) => !is_ignored_directory_spec(n@),
            None => true,
        }),
{
    (is_dir || is_symlink) && match name {
        Some(n) => !is_ignored_directory(n),
        None => true,
    }
}

/// What a scan of one root found.
#[derive(Debug, Clone, PartialEq, Eq)]
pub struct ScanOutcome {
    pub instances: Vec<SkillInstance>,
    pub status: SkillRootStatus,
    pub error: Option<String>,
    pub recovery_hint: Option<String>,
}

impl TextKeyed for SkillInstance {
    open spec fn key_view(&self) -> Seq<char> {
        self.relative_path@
    }

    fn key(&self) -> (r: &str) {
        self.relative_path.as_str()
    }
}

/// A root that cannot be scanned: no instances, its status, the error and
/// the hint shown to the user.
pub fn unavailable_root(status: SkillRootStatus, error: String, recovery_hint: &str) -> (r: ScanOutcome)
    ensures
        r.instances@.len() == 0,
        r.status == status,
        r.error == Some(error),
        opt_view(r.recovery_hint) == Some(recovery_hint@),
{
    ScanOutcome {
        instances: Vec::new(),
        status,
        error: Some(error),
        recovery_hint: Some(recovery_hint.to_owned()),
    }
}

/// Why a root could not be scanned.
#[derive(Debug, Clone, PartialEq, Eq)]
pub enum RootProblem {
    NotDirectory,
    NotFound,
    PermissionDenied,
    Unreachable(String),
    ListingDenied,
}

/// The status, error and hint of a root with the problem `p`.
pub open spec fn root_problem_outcome(root: Seq<char>, p: RootProblem) -> (SkillRootStatus, Seq<char>, Seq<char>) {
    match p {
        RootProblem::NotDirectory => (
            SkillRootStatus::Missing,
            "Skill 根目录已不是文件夹："@ + root,
            "重新选择一个有效的 Skill 根目录。"@,
        ),
        RootProblem::NotFound => (
            SkillRootStatus::Missing,
            "Skill 根目录不存在："@ + root,
            "确认目录未被移动或删除，然后重新添加该目录。"@,
        ),
        RootProblem::PermissionDenied => (
            SkillRootStatus::PermissionDenied,
            "没有权限访问 Skill 根目录："@ + root,
            "在系统设置中恢复文件访问权限后重新扫描。"@,
        ),
        RootProblem::Unreachable(detail) => (
            SkillRootStatus::PartialFailure,
            "无法访问 Skill 根目录 "@ + root + "："@ + detail@,
            "检查磁盘和目录状态后重新扫描。"@,
        ),
        RootProblem::ListingDenied => (
            SkillRootStatus::PermissionDenied,
            "没有权限读取 Skill 根目录："@ + root,
            "在系统设置或文件权限中恢复访问后重新扫描。"@,
        ),
    }
}

/// A root that cannot be read is never taken as scanned: a root that is
/// gone or not a folder is missing, one whose access or listing is denied
/// is permission denied, and only an otherwise unreachable root is a partial
/// failure. So a rescan keeps the stored instances of every root except an
/// unreachable one, and always reports the root itself in its error.
pub proof fn inaccessible_roots_keep_their_status(root: Seq<char>, problem: RootProblem)
    ensures
        ({
            let (status, error, _) = root_problem_outcome(root, problem);
            &&& (problem == RootProblem::NotFound || problem == RootProblem::NotDirectory) ==> status
                == SkillRootStatus::Missing
            &&& (problem == RootProblem::PermissionDenied || problem == RootProblem::ListingDenied)
                ==> status == SkillRootStatus::PermissionDenied
            &&& problem is Unreachable ==> status == SkillRootStatus::PartialFailure
            &&& status != SkillRootStatus::Ready
            &&& (status == SkillRootStatus::PartialFailure) == (problem is Unreachable)
            &&& exists|k: int| 0 <= k && k + root.len() <= error.len() && #[trigger] error.subrange(
                k,
                k + root.len(),
            ) == root
        }),
{
    let (status, error, _) = root_problem_outcome(root, problem);
    let k: int = match problem {
        RootProblem::NotDirectory => "Skill 根目录已不是文件夹："@.len() as int,
        RootProblem::NotFound => "Skill 根目录不存在："@.len() as int,
        RootProblem::PermissionDenied => "没有权限访问 Skill 根目录："@.len() as int,
        RootProblem::Unreachable(_) => "无法访问 Skill 根目录 "@.len() as int,
        RootProblem::ListingDenied => "没有权限读取 Skill 根目录："@.len() as int,
    };
    assert(error.subrange(k, k + root.len()) =~= root);
}

/// The outcome of scanning a root that has the problem `problem`.
pub fn inaccessible_root(root: &str, problem: RootProblem) -> (r: ScanOutcome)
    ensures
        r.instances@.len() == 0,
        (r.status, opt_view(r.error)->0, opt_view(r.recovery_hint)->0) == root_problem_outcome(root@, problem),
        r.error is Some && r.recovery_hint is Some,
{
    match problem {
        RootProblem::NotDirectory => unavailable_root(
            SkillRootStatus::Missing,
            concat2("Skill 根目录已不是文件夹：", root),
            "重新选择一个有效的 Skill 根目录。",
        ),
        RootProblem::NotFound => unavailable_root(
            SkillRootStatus::Missing,
            concat2("Skill 根目录不存在：", root),
            "确认目录未被移动或删除，然后重新添加该目录。",
        ),
        RootProblem::PermissionDenied => unavailable_root(
            SkillRootStatus::PermissionDenied,
            concat2("没有权限访问 Skill 根目录：", root),
            "在系统设置中恢复文件访问权限后重新扫描。",
        ),
        RootProblem::Unreachable(detail) => {
            let mut e = concat2("无法访问 Skill 根目录 ", root);
            append_str(&mut e, "：");
            append_str(&mut e, detail.as_str());
            unavailable_root(SkillRootStatus::PartialFailure, e, "检查磁盘和目录状态后重新扫描。")
        },
        RootProblem::ListingDenied => unavailable_root(
            SkillRootStatus::PermissionDenied,
            concat2("没有权限读取 Skill 根目录：", root),
            "在系统设置或文件权限中恢复访问后重新扫描。",
        ),
    }
}

/// The outcome of a scan that ran through: the instances sorted by relative
/// path; ready without warnings, otherwise partly failed with the warnings
/// joined by `；` and a hint.
pub fn completed_scan(instances: Vec<SkillInstance>, warnings: &Vec<String>) -> (r: ScanOutcome)
    ensures
        sorted_by_key(r.instances@),
        r.instances@.to_multiset() == instances@.to_multiset(),
        warnings@.len() == 0 ==> r.status == SkillRootStatus::Ready && r.error is None
            && r.recovery_hint is None,
        warnings@.len() > 0 ==> r.status == SkillRootStatus::PartialFailure && opt_view(r.error) == Some(
            join_spec(views(warnings@), "；"@),
        ) && opt_view(r.recovery_hint) == Some("检查提示中的目录或符号链接后重新扫描。"@),
{
    let instances = sort_by_key(instances);
    if warnings.len() == 0 {
        ScanOutcome { instances, status: SkillRootStatus::Ready, error: None, recovery_hint: None }
    } else {
        ScanOutcome {
            instances,
            status: SkillRootStatus::PartialFailure,
            error: Some(join_strings(warnings, "；")),
            recovery_hint: Some("检查提示中的目录或符号链接后重新扫描。".to_owned()),
        }
    }
}

/// What went wrong while walking a root.
#[derive(Debug, Clone, Copy, PartialEq, Eq)]
pub enum ScanWarning {
    DirectoryUnreachable,
    DirectoryUnreadable,
    EntryUnreadable,
    EntryUninspectable,
    LinkTargetUnreachable,
    ChildUnreachable,
}

/// The warning text of `w` about `path`, with the system's `detail`.
pub open spec fn scan_warning_spec(w: ScanWarning, path: Seq<char>, detail: Seq<char>) -> Seq<char> {
    match w {
        ScanWarning::DirectoryUnreachable => "无法访问目录 "@ + path + "："@ + detail,
        ScanWarning::DirectoryUnreadable => "无法读取目录 "@ + path + "："@ + detail,
        ScanWarning::EntryUnreadable => "读取目录项失败："@ + detail,
        ScanWarning::EntryUninspectable => "无法读取 "@ + path + "："@ + detail,
        ScanWarning::LinkTargetUnreachable => "符号链接 "@ + path + " 的目标不可访问："@ + detail,
        ScanWarning::ChildUnreachable => "目录 "@ + path + " 不可访问："@ + detail,
    }
}

/// The warning text of `w` about `path`, with the system's `detail`.
pub fn scan_warning(w: ScanWarning, path: &str, detail: &str) -> (r: String)
    ensures
        r@ == scan_warning_spec(w, path@, detail@),
{
    match w {
        ScanWarning::DirectoryUnreachable => {
            let mut r = concat2("无法访问目录 ", path);
            append_str(&mut r, "：");
            append_str(&mut r, detail);
            r
        },
        ScanWarning::DirectoryUnreadable => {
            let mut r = concat2("无法读取目录 ", path);
            append_str(&mut r, "：");
            append_str(&mut r, detail);
            r
        },
        ScanWarning::EntryUnreadable => concat2("读取目录项失败：", detail),
        ScanWarning::EntryUninspectable => {
            let mut r = concat2("无法读取 ", path);
            append_str(&mut r, "：");
            append_str(&mut r, detail);
            r
        },
        ScanWarning::LinkTargetUnreachable => {
            let mut r = concat2("符号链接 ", path);
            append_str(&mut r, " 的目标不可访问：");
            append_str(&mut r, detail);
            r
        },
        ScanWarning::ChildUnreachable => {
            let mut r = concat2("目录 ", path);
            append_str(&mut r, " 不可访问：");
            append_str(&mut r, detail);
            r
        },
    }
}

/// Whether a scan with this outcome replaces the stored instances of its
/// root: a root that is missing or cannot be read keeps what was found
/// before, so that it recovers when the path returns.
pub fn replaces_instances(status: SkillRootStatus) -> (r: bool)
    ensures
        r == (status == SkillRootStatus::Ready || status == SkillRootStatus::PartialFailure),
{
    match status {
        SkillRootStatus::Ready | SkillRootStatus::PartialFailure => true,
        _ => false,
    }
}

} // verus!
