//! Editing a Skill: validating a draft, resolving where it goes, composing
//! its `SKILL.md`, and planning the writes and deletions it makes.
use vstd::prelude::*;

use crate::detail::{found_instance, found_root, root_at};
use crate::path::{
    is_safe_relative, normalized, normalized_path, path_join, path_join_spec, safe_relative_path,
};
use crate::sorting::{sort_by_key, sorted_by_key, TextKeyed};
use crate::text::{
    concat3, copy_str, join_spec, join_strings, contains_text, strictly_sorted, trim, trim_start,
    trim_start_string, trim_string, views, insert_sorted,
};
use crate::{SkillWorkspace, WorkspaceError, WorkspaceSnapshot};

verus! {

/// A Skill as the editor holds it before it is saved.
#[derive(Debug, Clone, PartialEq, Eq)]
pub struct SkillDraft {
    pub target: SkillDraftTarget,
    pub name: String,
    pub description: String,
    pub markdown_body: String,
    pub file_changes: Vec<SkillFileDraftChange>,
}

/// Where a draft is saved: over an existing instance, or as a new Skill
/// directory under a root.
#[derive(Debug, Clone, PartialEq, Eq)]
pub enum SkillDraftTarget {
    Existing { instance_id: String },
    New { root_id: i64, relative_path: String },
}

/// A change to one file of the Skill besides `SKILL.md`.
#[derive(Debug, Clone, PartialEq, Eq)]
pub struct SkillFileDraftChange {
    pub relative_path: String,
    pub operation: SkillFileDraftOperation,
}

/// What a draft does to one file.
#[derive(Debug, Clone, PartialEq, Eq)]
pub enum SkillFileDraftOperation {
    WriteText { content: String },
    ReplaceBinary { content: Vec<u8> },
    Delete,
}

/// The outcome of validating a draft: valid exactly when there is no issue.
#[derive(Debug, Clone, PartialEq, Eq)]
pub struct SkillDraftValidation {
    pub valid: bool,
    pub issues: Vec<SkillValidationIssue>,
}

/// One problem of a draft, with the form field it belongs to.
#[derive(Debug, Clone, PartialEq, Eq)]
pub struct SkillValidationIssue {
    pub field: String,
    pub message: String,
}

/// A stored plan, by its id, with the changes it makes.
#[derive(Debug, Clone, PartialEq, Eq)]
pub struct SkillChangePlan {
    pub id: i64,
    pub changes: Vec<SkillPlannedChange>,
}

/// The result of carrying out a plan: the operation that can be undone and
/// the catalog after it.
#[derive(Debug, Clone, PartialEq, Eq)]
pub struct SkillChangeOutcome {
    pub operation_id: i64,
    pub snapshot: WorkspaceSnapshot,
}

/// A change operation that can still be undone.
#[derive(Debug, Clone, PartialEq, Eq)]
pub struct SkillChangeRecord {
    pub operation_id: i64,
    pub target_directory: String,
    pub created_at: i64,
}

/// One file that a plan creates, overwrites or deletes.
#[derive(Debug, Clone, PartialEq, Eq)]
pub struct SkillPlannedChange {
    pub relative_path: String,
    pub kind: SkillChangeKind,
    pub binary: bool,
    pub size: u64,
}

/// What a plan does to one file.
#[derive(Debug, Clone, Copy, PartialEq, Eq)]
pub enum SkillChangeKind {
    Create,
    Overwrite,
    Delete,
}

/// A plan as it is stored until it is carried out.
#[derive(Debug, Clone, PartialEq, Eq)]
pub struct PendingSkillChange {
    pub root_id: i64,
    pub instance_id: Option<String>,
    pub target_directory: String,
    pub baseline_fingerprint: Option<u64>,
    pub writes: Vec<PendingWrite>,
    pub deletes: Vec<String>,
}

/// One file that a stored plan writes, with its new content.
#[derive(Debug, Clone, PartialEq, Eq)]
pub struct PendingWrite {
    pub relative_path: String,
    pub content: Vec<u8>,
}

impl TextKeyed for SkillPlannedChange {
    open spec fn key_view(&self) -> Seq<char> {
        self.relative_path@
    }

    fn key(&self) -> (r: &str) {
        self.relative_path.as_str()
    }
}

/// An issue as a pair of field and message.
pub open spec fn issue_view(i: SkillValidationIssue) -> (Seq<char>, Seq<char>) {
    (i.field@, i.message@)
}

/// The issues as pairs of field and message.
pub open spec fn issue_views(v: Seq<SkillValidationIssue>) -> Seq<(Seq<char>, Seq<char>)> {
    v.map_values(|i: SkillValidationIssue| issue_view(i))
}

/// The issue on `field` with `message`.
pub fn validation_issue(field: &str, message: String) -> (r: SkillValidationIssue)
    ensures
        issue_view(r) == (field@, message@),
{
    SkillValidationIssue { field: field.to_owned(), message }
}

/// `c` is the letter whose capital is `upper` and whose small form is `lower`.
pub open spec fn is_letter(c: char, upper: char, lower: char) -> bool {
    c == upper || c == lower
}

/// The path names `SKILL.md` in any ASCII case (`eq_ignore_ascii_case`).
pub open spec fn is_skill_document(p: Seq<char>) -> bool {
    &&& p.len() == 8
    &&& is_letter(p[0], 'S', 's') && is_letter(p[1], 'K', 'k') && is_letter(p[2], 'I', 'i')
    &&& is_letter(p[3], 'L', 'l') && is_letter(p[4], 'L', 'l') && p[5] == '.'
    &&& is_letter(p[6], 'M', 'm') && is_letter(p[7], 'D', 'd')
}

fn names_skill_document(p: &str) -> (r: bool)
    ensures
        r == is_skill_document(p@),
{
    let v = crate::text::chars_of(p);
    v.len() == 8 && (v[0] == 'S' || v[0] == 's') && (v[1] == 'K' || v[1] == 'k') && (v[2] == 'I'
        || v[2] == 'i') && (v[3] == 'L' || v[3] == 'l') && (v[4] == 'L' || v[4] == 'l') && v[5]
        == '.' && (v[6] == 'M' || v[6] == 'm') && (v[7] == 'D' || v[7] == 'd')
}

/// The normalized path of a file change that claims its path: a safe path
/// that is not `SKILL.md`.
pub open spec fn claims_path(c: SkillFileDraftChange) -> bool {
    is_safe_relative(c.relative_path@) && !is_skill_document(normalized(c.relative_path@))
}

/// The normalized paths claimed by the first `n` file changes.
pub open spec fn claimed_paths(changes: Seq<SkillFileDraftChange>, n: int) -> Set<Seq<char>>
    decreases n,
{
    if n <= 0 || n > changes.len() {
        Set::empty()
    } else if claims_path(changes[n - 1]) {
        claimed_paths(changes, n - 1).insert(normalized(changes[n - 1].relative_path@))
    } else {
        claimed_paths(changes, n - 1)
    }
}

/// The issue of one file change, given the paths claimed before it.
pub open spec fn change_issue(c: SkillFileDraftChange, claimed: Set<Seq<char>>) -> Seq<
    (Seq<char>, Seq<char>),
> {
    let p = c.relative_path@;
    if !is_safe_relative(p) {
        seq![("fileChanges"@, "文件路径不安全："@ + p + "。"@)]
    } else if is_skill_document(normalized(p)) {
        seq![("fileChanges"@, "请通过元数据表单和 Markdown 编辑器修改 SKILL.md。"@)]
    } else if claimed.contains(normalized(p)) {
        seq![("fileChanges"@, "同一文件不能重复修改："@ + p + "。"@)]
    } else {
        seq![]
    }
}

/// The issues of the first `n` file changes, in order.
pub open spec fn change_issues(changes: Seq<SkillFileDraftChange>, n: int) -> Seq<
    (Seq<char>, Seq<char>),
>
    decreases n,
{
    if n <= 0 || n > changes.len() {
        seq![]
    } else {
        change_issues(changes, n - 1) + change_issue(changes[n - 1], claimed_paths(changes, n - 1))
    }
}

/// The issues of a draft, in order: an empty name, an empty description, a
/// new Skill path outside its root, then those of each file change.
pub open spec fn draft_issues(d: SkillDraft) -> Seq<(Seq<char>, Seq<char>)> {
    (if trim(d.name@).len() == 0 {
        seq![("name"@, "Skill 名称不能为空。"@)]
    } else {
        seq![]
    }) + (if trim(d.description@).len() == 0 {
        seq![("description"@, "Skill 描述不能为空。"@)]
    } else {
        seq![]
    }) + (match d.target {
        SkillDraftTarget::New { relative_path, .. } => if !is_safe_relative(relative_path@) {
            seq![("relativePath"@, "新 Skill 路径必须位于所选 Skill 根目录内。"@)]
        } else {
            seq![]
        },
        SkillDraftTarget::Existing { .. } => seq![],
    }) + change_issues(d.file_changes@, d.file_changes@.len() as int)
}

fn push_issue(issues: &mut Vec<SkillValidationIssue>, field: &str, message: String)
    ensures
        issue_views(final(issues)@) == issue_views(old(issues)@).push((field@, message@)),
{
    let ghost before = issues@;
    issues.push(validation_issue(field, message));
    assert(issue_views(issues@) =~= issue_views(before).push((field@, message@)));
}

fn static_issue(issues: &mut Vec<SkillValidationIssue>, field: &str, message: &str)
    ensures
        issue_views(final(issues)@) == issue_views(old(issues)@).push((field@, message@)),
{
    push_issue(issues, field, message.to_owned());
}

impl SkillWorkspace {
    /// Checks a draft before it is planned: the name and description must not
    /// be blank, a new Skill's path must stay inside its root, and each file
    /// change must name a safe path other than `SKILL.md`, at most once.
    pub fn validate_skill_draft(&self, draft: &SkillDraft) -> (r: SkillDraftValidation)
        ensures
            issue_views(r.issues@) == draft_issues(*draft),
            r.valid == (r.issues@.len() == 0),
    {
        proof {
            reveal_strlit("name");
            reveal_strlit("description");
            reveal_strlit("relativePath");
            reveal_strlit("fileChanges");
            reveal_strlit("Skill 名称不能为空。");
            reveal_strlit("Skill 描述不能为空。");
            reveal_strlit("新 Skill 路径必须位于所选 Skill 根目录内。");
            reveal_strlit("文件路径不安全：");
            reveal_strlit("。");
            reveal_strlit("请通过元数据表单和 Markdown 编辑器修改 SKILL.md。");
            reveal_strlit("同一文件不能重复修改：");
        }
        let mut issues: Vec<SkillValidationIssue> = Vec::new();
        let ghost head: Seq<(Seq<char>, Seq<char>)> = seq![];
        assert(issue_views(issues@) =~= head);
        if trim_string(draft.name.as_str()).as_str().is_empty() {
            static_issue(&mut issues, "name", "Skill 名称不能为空。");
        }
        if trim_string(draft.description.as_str()).as_str().is_empty() {
            static_issue(&mut issues, "description", "Skill 描述不能为空。");
        }
        match &draft.target {
            SkillDraftTarget::New { relative_path, .. } => {
                if safe_relative_path(relative_path.as_str()).is_err() {
                    static_issue(
                        &mut issues,
                        "relativePath",
                        "新 Skill 路径必须位于所选 Skill 根目录内。",
                    );
                }
            },
            SkillDraftTarget::Existing { .. } => {},
        }
        let ghost base = issue_views(issues@);
        let ghost changes = draft.file_changes@;
        let mut claimed: Vec<String> = Vec::new();
        let mut i: usize = 0;
        while i < draft.file_changes.len()
            invariant
                i <= changes.len(),
                changes == draft.file_changes@,
                strictly_sorted(views(claimed@)),
                views(claimed@).to_set() == claimed_paths(changes, i as int),
                issue_views(issues@) == base + change_issues(changes, i as int),
                "fileChanges"@ == seq!['f', 'i', 'l', 'e', 'C', 'h', 'a', 'n', 'g', 'e', 's'],
            decreases changes.len() - i,
        {
            let change = &draft.file_changes[i];
            let ghost p = change.relative_path@;
            proof {
                reveal_strlit("fileChanges");
                reveal_strlit("文件路径不安全：");
                reveal_strlit("。");
                reveal_strlit("请通过元数据表单和 Markdown 编辑器修改 SKILL.md。");
                reveal_strlit("同一文件不能重复修改：");
            }
            match safe_relative_path(change.relative_path.as_str()) {
                Err(_) => {
                    push_issue(
                        &mut issues,
                        "fileChanges",
                        concat3("文件路径不安全：", change.relative_path.as_str(), "。"),
                    );
                },
                Ok(path) => {
                    let n = normalized_path(path.as_str());
                    if names_skill_document(n.as_str()) {
                        static_issue(
                            &mut issues,
                            "fileChanges",
                            "请通过元数据表单和 Markdown 编辑器修改 SKILL.md。",
                        );
                    } else if contains_text(&claimed, n.as_str()) {
                        push_issue(
                            &mut issues,
                            "fileChanges",
                            concat3("同一文件不能重复修改：", change.relative_path.as_str(), "。"),
                        );
                    } else {
                        insert_sorted(&mut claimed, n);
                    }
                },
            }
            proof {
                assert(change_issues(changes, i + 1) == change_issues(changes, i as int)
                    + change_issue(changes[i as int], claimed_paths(changes, i as int)));
                assert(issue_views(issues@) =~= base + change_issues(changes, i + 1));
            }
            i += 1;
        }
        let valid = issues.len() == 0;
        proof {
            assert(issue_views(issues@).len() == issues@.len());
        }
        SkillDraftValidation { valid, issues }
    }
}

/// The message of a draft that failed validation: its issues' messages
/// joined with `；`.
pub open spec fn invalid_draft_message(issues: Seq<SkillValidationIssue>) -> Seq<char> {
    join_spec(issues.map_values(|i: SkillValidationIssue| i.message@), "；"@)
}

/// The error for a draft that failed validation.
pub fn invalid_draft_error(validation: &SkillDraftValidation) -> (e: WorkspaceError)
    ensures
        e matches WorkspaceError::InvalidDraft(m) && m@ == invalid_draft_message(validation.issues@),
{
    let mut messages: Vec<String> = Vec::new();
    let mut i: usize = 0;
    while i < validation.issues.len()
        invariant
            i <= validation.issues@.len(),
            views(messages@) == validation.issues@.take(i as int).map_values(
                |x: SkillValidationIssue| x.message@,
            ),
        decreases validation.issues@.len() - i,
    {
        let ghost before = messages@;
        messages.push(validation.issues[i].message.clone());
        proof {
            assert(views(messages@) =~= views(before).push(validation.issues@[i as int].message@));
            assert(validation.issues@.take(i + 1).map_values(|x: SkillValidationIssue| x.message@)
                =~= validation.issues@.take(i as int).map_values(
                |x: SkillValidationIssue| x.message@,
            ).push(validation.issues@[i as int].message@));
        }
        i += 1;
    }
    proof {
        assert(validation.issues@.take(validation.issues@.len() as int) == validation.issues@);
    }
    WorkspaceError::InvalidDraft(join_strings(&messages, "；"))
}

/// Where a draft is saved: the root, the instance it replaces (none for a
/// new Skill), and the directory that receives it.
#[derive(Debug, Clone, PartialEq, Eq)]
pub struct ResolvedDraftTarget {
    pub root_id: i64,
    pub instance_id: Option<String>,
    pub directory: String,
}

/// The message of a new Skill whose root is not in the catalog.
pub open spec fn unknown_root_message() -> Seq<char> {
    "找不到所选 Skill 根目录"@
}

/// The message of a new Skill whose directory already exists.
pub open spec fn existing_directory_message() -> Seq<char> {
    "新 Skill 的目标目录已经存在。"@
}

impl SkillWorkspace {
    /// Resolves the target of a draft against the catalog `snapshot`: an
    /// existing instance is saved in its real directory; a new Skill goes to
    /// its relative path under its root, which must be safe.
    pub fn resolve_draft_target(&self, snapshot: &WorkspaceSnapshot, target: &SkillDraftTarget) -> (r:
        Result<ResolvedDraftTarget, WorkspaceError>)
        ensures
            match *target {
                SkillDraftTarget::Existing { instance_id } => match found_instance(
                    snapshot.instances@,
                    instance_id@,
                ) {
                    None => r matches Err(WorkspaceError::UnknownInstance(m)) && m@ == instance_id@,
                    Some(i) => r matches Ok(t) && t.root_id == i.root_id && t.instance_id == Some(
                        i.id,
                    ) && t.directory == i.real_path,
                },
                SkillDraftTarget::New { root_id, relative_path } => match found_root(
                    snapshot.roots@,
                    root_id,
                ) {
                    None => r matches Err(WorkspaceError::InvalidRoot(m)) && m@
                        == unknown_root_message(),
                    Some(root) => if is_safe_relative(relative_path@) {
                        r matches Ok(t) && t.root_id == root_id && t.instance_id is None
                            && t.directory@ == path_join_spec(root.path@, relative_path@)
                    } else {
                        r matches Err(WorkspaceError::InvalidSkillPath(m)) && m@
                            == crate::path::outside_skill_message()
                    },
                },
            },
    {
        match target {
            SkillDraftTarget::Existing { instance_id } => {
                match crate::detail::find_instance(&snapshot.instances, instance_id.as_str()) {
                    Some(instance) => Ok(
                        ResolvedDraftTarget {
                            root_id: instance.root_id,
                            instance_id: Some(instance.id),
                            directory: instance.real_path,
                        },
                    ),
                    None => Err(WorkspaceError::UnknownInstance(instance_id.clone())),
                }
            },
            SkillDraftTarget::New { root_id, relative_path } => {
                match find_root_of(snapshot, *root_id) {
                    None => {
                        let m = "找不到所选 Skill 根目录".to_owned();
                        proof {
                            reveal_strlit("找不到所选 Skill 根目录");
                        }
                        Err(WorkspaceError::InvalidRoot(m))
                    },
                    Some(root_path) => {
                        let path = safe_relative_path(relative_path.as_str())?;
                        Ok(
                            ResolvedDraftTarget {
                                root_id: *root_id,
                                instance_id: None,
                                directory: path_join(root_path.as_str(), path.as_str()),
                            },
                        )
                    },
                }
            },
        }
    }
}

fn find_root_of(snapshot: &WorkspaceSnapshot, id: i64) -> (r: Option<String>)
    ensures
        match found_root(snapshot.roots@, id) {
            Some(root) => r == Some(root.path),
            None => r is None,
        },
{
    let mut i: usize = 0;
    while i < snapshot.roots.len()
        invariant
            i <= snapshot.roots@.len(),
            forall|j: int| 0 <= j < i ==> #[trigger] snapshot.roots@[j].id != id,
        decreases snapshot.roots@.len() - i,
    {
        if snapshot.roots[i].id == id {
            proof {
                assert(root_at(snapshot.roots@, id, i as int));
                let c = choose|k: int| root_at(snapshot.roots@, id, k);
                if c < i {
                    assert(snapshot.roots@[c].id != id);
                } else if i < c {
                    assert(snapshot.roots@[i as int].id != id);
                }
            }
            return Some(snapshot.roots[i].path.clone());
        }
        i += 1;
    }
    proof {
        assert forall|k: int| !root_at(snapshot.roots@, id, k) by {
            if 0 <= k < snapshot.roots@.len() {
                assert(snapshot.roots@[k].id != id);
            }
        }
    }
    None
}

/// Refuses a new Skill whose directory already exists; `directory_exists`
/// says whether something is at `target.directory`.
pub fn confirm_draft_target(target: ResolvedDraftTarget, directory_exists: bool) -> (r: Result<
    ResolvedDraftTarget,
    WorkspaceError,
>)
    ensures
        target.instance_id is None && directory_exists ==> (r matches Err(
            WorkspaceError::InvalidDraft(m),
        ) && m@ == existing_directory_message()),
        !(target.instance_id is None && directory_exists) ==> r == Ok::<
            ResolvedDraftTarget,
            WorkspaceError,
        >(target),
{
    if target.instance_id.is_none() && directory_exists {
        let m = "新 Skill 的目标目录已经存在。".to_owned();
        proof {
            reveal_strlit("新 Skill 的目标目录已经存在。");
        }
        return Err(WorkspaceError::InvalidDraft(m));
    }
    Ok(target)
}

/// What `serde_yaml::to_string` gives for a mapping of two string keys to
/// string values, in that order: the YAML text, or `None` when it fails.
pub uninterp spec fn yaml_mapping_text(
    first_key: Seq<char>,
    first_value: Seq<char>,
    second_key: Seq<char>,
    second_value: Seq<char>,
) -> Option<Seq<char>>;

/// `serde_yaml::to_string` on a `serde_yaml::Mapping` of two string entries.
/// Whether it succeeds, and its text when it does, are named by
/// `yaml_mapping_text` of the four strings; the error's text is not said.
#[verifier::external_body]
fn yaml_two_entries(first_key: &str, first_value: &str, second_key: &str, second_value: &str) -> (r:
    Result<String, String>)
    ensures
        match r {
            Ok(s) => yaml_mapping_text(first_key@, first_value@, second_key@, second_value@) == Some(
                s@,
            ),
            Err(_) => yaml_mapping_text(first_key@, first_value@, second_key@, second_value@) is None,
        },
{
    let mut mapping = serde_yaml::Mapping::new();
    mapping.insert(
        serde_yaml::Value::String(first_key.to_owned()),
        serde_yaml::Value::String(first_value.to_owned()),
    );
    mapping.insert(
        serde_yaml::Value::String(second_key.to_owned()),
        serde_yaml::Value::String(second_value.to_owned()),
    );
    serde_yaml::to_string(&mapping).map_err(|error| error.to_string())
}

/// A `SKILL.md` document: the YAML frontmatter `metadata` between `---`
/// lines, a blank line, then the body without its leading whitespace.
pub open spec fn skill_document_spec(metadata: Seq<char>, body: Seq<char>) -> Seq<char> {
    "---\n"@ + metadata + "---\n\n"@ + trim_start(body)
}

/// A `SKILL.md` document from its YAML `metadata` and its Markdown body.
pub fn skill_document(metadata: &str, markdown_body: &str) -> (r: String)
    ensures
        r@ == skill_document_spec(metadata@, markdown_body@),
{
    let mut r = concat3("---\n", metadata, "---\n\n");
    let body = trim_start_string(markdown_body);
    crate::text::append_str(&mut r, body.as_str());
    proof {
        reveal_strlit("---\n");
        reveal_strlit("---\n\n");
    }
    r
}

/// The YAML frontmatter of a draft: its trimmed name and description, as
/// `serde_yaml` writes them.
pub open spec fn draft_metadata(draft: SkillDraft) -> Option<Seq<char>> {
    yaml_mapping_text("name"@, trim(draft.name@), "description"@, trim(draft.description@))
}

/// The `SKILL.md` of a draft: its trimmed name and description as YAML
/// frontmatter, then its body. The YAML text is `serde_yaml`'s.
pub fn compose_skill_document(draft: &SkillDraft) -> (r: Result<String, WorkspaceError>)
    ensures
        match draft_metadata(*draft) {
            Some(metadata) => r matches Ok(s) && s@ == skill_document_spec(
                metadata,
                draft.markdown_body@,
            ),
            None => r matches Err(e) && e is Serialization,
        },
{
    let name = trim_string(draft.name.as_str());
    let description = trim_string(draft.description.as_str());
    match yaml_two_entries("name", name.as_str(), "description", description.as_str()) {
        Ok(metadata) => Ok(skill_document(metadata.as_str(), draft.markdown_body.as_str())),
        Err(detail) => Err(WorkspaceError::Serialization(detail)),
    }
}

/// What the planner knows of one file of the target directory: its content
/// when it can be read, whether anything is at its path, whether that is a
/// file, and its size (zero when it cannot be had).
#[derive(Debug, Clone, PartialEq, Eq)]
pub struct FileObservation {
    pub current: Option<Vec<u8>>,
    pub exists: bool,
    pub is_file: bool,
    pub size: u64,
}

/// A planned change as its path, kind, binary flag and size.
pub open spec fn change_view(c: SkillPlannedChange) -> (Seq<char>, SkillChangeKind, bool, u64) {
    (c.relative_path@, c.kind, c.binary, c.size)
}

/// The planned changes as views.
pub open spec fn change_views(s: Seq<SkillPlannedChange>) -> Seq<(Seq<char>, SkillChangeKind, bool, u64)> {
    s.map_values(|c: SkillPlannedChange| change_view(c))
}

/// A pending write as its path and content.
pub open spec fn write_view(w: PendingWrite) -> (Seq<char>, Seq<u8>) {
    (w.relative_path@, w.content@)
}

/// The pending writes as views.
pub open spec fn write_views(s: Seq<PendingWrite>) -> Seq<(Seq<char>, Seq<u8>)> {
    s.map_values(|w: PendingWrite| write_view(w))
}

/// The bytes of an optional buffer.
pub open spec fn opt_bytes(o: Option<Vec<u8>>) -> Option<Seq<u8>> {
    match o {
        Some(b) => Some(b@),
        None => None,
    }
}

/// The parts of a plan: its changes, its writes and its deletions.
pub open spec fn plan_parts(
    changes: Seq<(Seq<char>, SkillChangeKind, bool, u64)>,
    writes: Seq<(Seq<char>, Seq<u8>)>,
    deletes: Seq<Seq<char>>,
) -> (Seq<(Seq<char>, SkillChangeKind, bool, u64)>, Seq<(Seq<char>, Seq<u8>)>, Seq<Seq<char>>) {
    (changes, writes, deletes)
}

/// Writing `content` to `path`: nothing when the file already holds it, a
/// creation or an overwrite otherwise; `None` when the path is not safe.
pub open spec fn write_plan(path: Seq<char>, content: Seq<u8>, binary: bool, current: Option<Seq<u8>>) -> Option<
    (Seq<(Seq<char>, SkillChangeKind, bool, u64)>, Seq<(Seq<char>, Seq<u8>)>, Seq<Seq<char>>),
> {
    if !is_safe_relative(path) {
        None
    } else if current == Some(content) {
        Some(plan_parts(seq![], seq![], seq![]))
    } else {
        Some(
            plan_parts(
                seq![
                    (path, if current is Some {
                        SkillChangeKind::Overwrite
                    } else {
                        SkillChangeKind::Create
                    }, binary, content.len() as u64),
                ],
                seq![(path, content)],
                seq![],
            ),
        )
    }
}

/// Deleting `path`: a deletion when something is there, nothing otherwise.
/// A regular file whose content is not UTF-8 text counts as binary.
pub open spec fn delete_plan(path: Seq<char>, o: FileObservation) -> (
    Seq<(Seq<char>, SkillChangeKind, bool, u64)>,
    Seq<(Seq<char>, Seq<u8>)>,
    Seq<Seq<char>>,
) {
    if o.exists {
        plan_parts(
            seq![
                (path, SkillChangeKind::Delete, o.is_file && !(opt_bytes(o.current) matches Some(
                    b,
                ) && vstd::utf8::valid_utf8(b)), o.size),
            ],
            seq![],
            seq![path],
        )
    } else {
        plan_parts(seq![], seq![], seq![])
    }
}

/// The plan of one file change, observed as `o`.
pub open spec fn change_plan(c: SkillFileDraftChange, o: FileObservation) -> Option<
    (Seq<(Seq<char>, SkillChangeKind, bool, u64)>, Seq<(Seq<char>, Seq<u8>)>, Seq<Seq<char>>),
> {
    let path = normalized(c.relative_path@);
    if !is_safe_relative(c.relative_path@) {
        None
    } else {
        match c.operation {
            SkillFileDraftOperation::WriteText { content } => write_plan(
                path,
                vstd::utf8::encode_utf8(content@),
                false,
                opt_bytes(o.current),
            ),
            SkillFileDraftOperation::ReplaceBinary { content } => write_plan(
                path,
                content@,
                true,
                opt_bytes(o.current),
            ),
            SkillFileDraftOperation::Delete => Some(delete_plan(path, o)),
        }
    }
}

/// Two plans one after the other; `None` when either failed.
pub open spec fn join_plans(
    a: Option<(Seq<(Seq<char>, SkillChangeKind, bool, u64)>, Seq<(Seq<char>, Seq<u8>)>, Seq<Seq<char>>)>,
    b: Option<(Seq<(Seq<char>, SkillChangeKind, bool, u64)>, Seq<(Seq<char>, Seq<u8>)>, Seq<Seq<char>>)>,
) -> Option<(Seq<(Seq<char>, SkillChangeKind, bool, u64)>, Seq<(Seq<char>, Seq<u8>)>, Seq<Seq<char>>)> {
    match (a, b) {
        (Some(x), Some(y)) => Some(plan_parts(x.0 + y.0, x.1 + y.1, x.2 + y.2)),
        _ => None,
    }
}

/// The plan of a draft up to its `n`th file change: first `SKILL.md` with the
/// composed `document`, observed as `obs[0]`, then each change, the `k`th
/// observed as `obs[k + 1]`.
pub open spec fn draft_plan(
    document: Seq<char>,
    changes: Seq<SkillFileDraftChange>,
    obs: Seq<FileObservation>,
    n: int,
) -> Option<(Seq<(Seq<char>, SkillChangeKind, bool, u64)>, Seq<(Seq<char>, Seq<u8>)>, Seq<Seq<char>>)>
    decreases n,
{
    if n <= 0 {
        write_plan("SKILL.md"@, vstd::utf8::encode_utf8(document), false, opt_bytes(obs[0].current))
    } else {
        join_plans(draft_plan(document, changes, obs, n - 1), change_plan(changes[n - 1], obs[n]))
    }
}

/// A requested deletion of a safe path is planned exactly when something is
/// there, whatever it is (a file, a folder or a link): the path, in normal
/// form, is then deleted and listed as a deletion; nothing is written.
pub proof fn existing_paths_are_deleted(c: SkillFileDraftChange, o: FileObservation)
    requires
        c.operation is Delete,
        is_safe_relative(c.relative_path@),
    ensures
        change_plan(c, o) matches Some(p) && {
            let path = normalized(c.relative_path@);
            &&& p.1.len() == 0
            &&& p.2.len() <= 1
            &&& p.2.contains(path) == o.exists
            &&& o.exists ==> exists|i: int|
                0 <= i < p.0.len() && (#[trigger] p.0[i]).0 == path && p.0[i].1
                    == SkillChangeKind::Delete
            &&& !o.exists ==> p.0.len() == 0
        },
{
    let path = normalized(c.relative_path@);
    let p = change_plan(c, o)->0;
    if o.exists {
        assert(p.2[0] == path);
        assert(p.0[0].0 == path && p.0[0].1 == SkillChangeKind::Delete);
    }
}

/// Every requested deletion of a path that exists ends in the plan of the
/// draft: its normal form is among the plan's deletions, with a deletion
/// among its changes.
pub proof fn planned_deletions_are_kept(
    document: Seq<char>,
    changes: Seq<SkillFileDraftChange>,
    obs: Seq<FileObservation>,
    n: int,
    k: int,
)
    requires
        0 <= k < n <= changes.len(),
        n < obs.len(),
        changes[k].operation is Delete,
        obs[k + 1].exists,
    ensures
        draft_plan(document, changes, obs, n) matches Some(p) ==> {
            let path = normalized(changes[k].relative_path@);
            &&& p.2.contains(path)
            &&& exists|i: int|
                0 <= i < p.0.len() && (#[trigger] p.0[i]).0 == path && p.0[i].1
                    == SkillChangeKind::Delete
        },
    decreases n,
{
    let path = normalized(changes[k].relative_path@);
    if let Some(p) = draft_plan(document, changes, obs, n) {
        let a = draft_plan(document, changes, obs, n - 1);
        let b = change_plan(changes[n - 1], obs[n]);
        let x = a->0;
        let y = b->0;
        assert(p == plan_parts(x.0 + y.0, x.1 + y.1, x.2 + y.2));
        if k < n - 1 {
            planned_deletions_are_kept(document, changes, obs, n - 1, k);
            let j = choose|j: int| 0 <= j < x.2.len() && x.2[j] == path;
            assert(p.2[j] == path);
            let i = choose|i: int|
                0 <= i < x.0.len() && (#[trigger] x.0[i]).0 == path && x.0[i].1 == SkillChangeKind::Delete;
            assert(p.0[i] == x.0[i]);
        } else {
            assert(is_safe_relative(changes[k].relative_path@));
            existing_paths_are_deleted(changes[k], obs[k + 1]);
            let j = choose|j: int| 0 <= j < y.2.len() && y.2[j] == path;
            assert(p.2[x.2.len() + j] == path);
            let i = choose|i: int|
                0 <= i < y.0.len() && (#[trigger] y.0[i]).0 == path && y.0[i].1 == SkillChangeKind::Delete;
            assert(p.0[x.0.len() + i] == y.0[i]);
        }
    }
}

fn same_bytes(a: &[u8], b: &[u8]) -> (r: bool)
    ensures
        r == (a@ == b@),
{
    if a.len() != b.len() {
        return false;
    }
    let mut i: usize = 0;
    while i < a.len()
        invariant
            i <= a@.len() == b@.len(),
            forall|k: int| 0 <= k < i ==> a@[k] == b@[k],
        decreases a@.len() - i,
    {
        if a[i] != b[i] {
            return false;
        }
        i += 1;
    }
    assert(a@ =~= b@);
    true
}

/// Plans writing `content` to `relative_path`: when the file already holds
/// it nothing is planned; otherwise a creation or an overwrite is added to
/// `changes` and the write to `writes`. A path that is not safe is refused.
pub fn plan_write(
    relative_path: &str,
    content: Vec<u8>,
    binary: bool,
    current: &Option<Vec<u8>>,
    writes: &mut Vec<PendingWrite>,
    changes: &mut Vec<SkillPlannedChange>,
) -> (r: Result<(), WorkspaceError>)
    ensures
        match write_plan(relative_path@, content@, binary, opt_bytes(*current)) {
            Some(p) => r is Ok && change_views(final(changes)@) == change_views(old(changes)@) + p.0
                && write_views(final(writes)@) == write_views(old(writes)@) + p.1,
            None => r matches Err(WorkspaceError::InvalidSkillPath(m)) && m@
                == crate::path::outside_skill_message(),
        },
{
    let path = safe_relative_path(relative_path)?;
    let unchanged = match current {
        Some(c) => same_bytes(c.as_slice(), content.as_slice()),
        None => false,
    };
    if unchanged {
        assert(change_views(changes@) =~= change_views(changes@) + seq![]);
        assert(write_views(writes@) =~= write_views(writes@) + seq![]);
        return Ok(());
    }
    let kind = if current.is_some() {
        SkillChangeKind::Overwrite
    } else {
        SkillChangeKind::Create
    };
    let ghost cs = changes@;
    let ghost ws = writes@;
    let ghost bytes = content@;
    changes.push(
        SkillPlannedChange {
            relative_path: copy_str(path.as_str()),
            kind,
            binary,
            size: content.len() as u64,
        },
    );
    writes.push(PendingWrite { relative_path: path, content });
    assert(change_views(changes@) =~= change_views(cs) + seq![
        (relative_path@, kind, binary, bytes.len() as u64),
    ]);
    assert(write_views(writes@) =~= write_views(ws) + seq![(relative_path@, bytes)]);
    Ok(())
}

fn plan_delete(
    relative_path: String,
    observation: &FileObservation,
    deletes: &mut Vec<String>,
    changes: &mut Vec<SkillPlannedChange>,
)
    ensures
        ({
            let p = delete_plan(relative_path@, *observation);
            change_views(final(changes)@) == change_views(old(changes)@) + p.0 && views(
                final(deletes)@,
            ) == views(old(deletes)@) + p.2
        }),
{
    let ghost cs = changes@;
    let ghost ds = deletes@;
    if observation.exists {
        let text = match &observation.current {
            Some(b) => utf8_is_valid(b.as_slice()),
            None => false,
        };
        let binary = observation.is_file && !text;
        let ghost path = relative_path@;
        deletes.push(copy_str(relative_path.as_str()));
        changes.push(
            SkillPlannedChange {
                relative_path,
                kind: SkillChangeKind::Delete,
                binary,
                size: observation.size,
            },
        );
        assert(change_views(changes@) =~= change_views(cs) + seq![
            (path, SkillChangeKind::Delete, binary, observation.size),
        ]);
        assert(views(deletes@) =~= views(ds) + seq![path]);
    } else {
        assert(change_views(changes@) =~= change_views(cs) + seq![]);
        assert(views(deletes@) =~= views(ds) + seq![]);
    }
}

fn utf8_is_valid(b: &[u8]) -> (r: bool)
    ensures
        r == vstd::utf8::valid_utf8(b@),
{
    crate::duplicate::utf8_text(b).is_some()
}

/// The paths whose files a plan looks at, in order: `SKILL.md`, then the
/// normalized path of each file change.
pub fn draft_file_paths(draft: &SkillDraft) -> (r: Vec<String>)
    ensures
        views(r@) == seq!["SKILL.md"@] + draft.file_changes@.map_values(
            |c: SkillFileDraftChange| normalized(c.relative_path@),
        ),
{
    let mut r: Vec<String> = Vec::new();
    r.push("SKILL.md".to_owned());
    let mut i: usize = 0;
    while i < draft.file_changes.len()
        invariant
            i <= draft.file_changes@.len(),
            views(r@) == seq!["SKILL.md"@] + draft.file_changes@.take(i as int).map_values(
                |c: SkillFileDraftChange| normalized(c.relative_path@),
            ),
        decreases draft.file_changes@.len() - i,
    {
        let ghost before = r@;
        r.push(normalized_path(draft.file_changes[i].relative_path.as_str()));
        proof {
            assert(draft.file_changes@.take(i + 1).map_values(
                |c: SkillFileDraftChange| normalized(c.relative_path@),
            ) =~= draft.file_changes@.take(i as int).map_values(
                |c: SkillFileDraftChange| normalized(c.relative_path@),
            ).push(normalized(draft.file_changes@[i as int].relative_path@)));
            assert(views(r@) =~= views(before).push(
                normalized(draft.file_changes@[i as int].relative_path@),
            ));
        }
        i += 1;
    }
    proof {
        assert(draft.file_changes@.take(draft.file_changes@.len() as int) == draft.file_changes@);
    }
    r
}

proof fn lemma_map_multiset<A, B>(a: Seq<A>, b: Seq<A>, f: spec_fn(A) -> B)
    requires
        a.to_multiset() == b.to_multiset(),
    ensures
        a.map_values(f).to_multiset() == b.map_values(f).to_multiset(),
    decreases a.len(),
{
    broadcast use vstd::seq_lib::group_to_multiset_ensures;

    if a.len() == 0 {
        assert(b.to_multiset().len() == 0);
        assert(b.len() == 0);
        assert(a.map_values(f) =~= b.map_values(f));
    } else {
        let x = a.last();
        assert(a[a.len() - 1] == x);
        assert(a.contains(x));
        assert(a.to_multiset().count(x) > 0);
        assert(b.contains(x));
        let j = choose|j: int| 0 <= j < b.len() && b[j] == x;
        vstd::seq_lib::to_multiset_remove(b, j);
        assert(a == a.drop_last().push(x));
        assert(a.drop_last().to_multiset() == a.to_multiset().remove(x)) by {
            vstd::seq_lib::to_multiset_build(a.drop_last(), x);
        }
        lemma_map_multiset(a.drop_last(), b.remove(j), f);
        assert(a.map_values(f) =~= a.drop_last().map_values(f).push(f(x)));
        assert(b.remove(j).map_values(f) =~= b.map_values(f).remove(j));
        vstd::seq_lib::to_multiset_remove(b.map_values(f), j);
        vstd::seq_lib::to_multiset_build(a.drop_last().map_values(f), f(x));
        assert(b.map_values(f).to_multiset() =~= b.map_values(f).to_multiset().remove(f(x)).insert(f(x)));
    }
}

proof fn lemma_plan_failure_persists(
    document: Seq<char>,
    changes: Seq<SkillFileDraftChange>,
    obs: Seq<FileObservation>,
    n: int,
    m: int,
)
    requires
        0 <= n <= m,
        draft_plan(document, changes, obs, n) is None,
    ensures
        draft_plan(document, changes, obs, m) is None,
    decreases m - n,
{
    if n < m {
        lemma_plan_failure_persists(document, changes, obs, n, m - 1);
    }
}

/// Plans the writes and deletions of a valid draft whose `SKILL.md` is
/// `document`: `observations[0]` describes `SKILL.md` and
/// `observations[k + 1]` the path of the `k`th file change. The changes come
/// out sorted by path.
pub fn plan_draft_changes(
    document: &str,
    draft: &SkillDraft,
    observations: &Vec<FileObservation>,
) -> (r: Result<(Vec<PendingWrite>, Vec<String>, Vec<SkillPlannedChange>), WorkspaceError>)
    requires
        observations@.len() == draft.file_changes@.len() + 1,
    ensures
        match r {
            Ok((writes, deletes, changes)) => draft_plan(
                document@,
                draft.file_changes@,
                observations@,
                draft.file_changes@.len() as int,
            ) matches Some(p) && write_views(writes@) == p.1 && views(deletes@) == p.2
                && sorted_by_key(changes@) && change_views(changes@).to_multiset()
                == p.0.to_multiset(),
            Err(e) => draft_plan(
                document@,
                draft.file_changes@,
                observations@,
                draft.file_changes@.len() as int,
            ) is None && (e matches WorkspaceError::InvalidSkillPath(m) && m@
                == crate::path::outside_skill_message()),
        },
{
    let mut writes: Vec<PendingWrite> = Vec::new();
    let mut deletes: Vec<String> = Vec::new();
    let mut changes: Vec<SkillPlannedChange> = Vec::new();
    let bytes = vstd::slice::slice_to_vec(document.as_bytes());
    let skill_md = "SKILL.md";
    proof {
        reveal_strlit("SKILL.md");
    }
    let first = plan_write(skill_md, bytes, false, &observations[0].current, &mut writes, &mut changes);
    if first.is_err() {
        proof {
            lemma_plan_failure_persists(document@, draft.file_changes@, observations@, 0, draft.file_changes@.len() as int);
        }
        return Err(WorkspaceError::InvalidSkillPath(crate::path::outside_skill_message_owned()));
    }
    proof {
        assert(views(deletes@) =~= seq![]);
        assert(change_views(changes@) =~= seq![] + change_views(changes@));
    }
    let ghost cs = draft.file_changes@;
    let ghost obs = observations@;
    let mut i: usize = 0;
    while i < draft.file_changes.len()
        invariant
            i <= cs.len(),
            cs == draft.file_changes@,
            obs == observations@,
            obs.len() == cs.len() + 1,
            draft_plan(document@, cs, obs, i as int) matches Some(p) && change_views(changes@)
                == p.0 && write_views(writes@) == p.1 && views(deletes@) == p.2,
        decreases cs.len() - i,
    {
        let change = &draft.file_changes[i];
        let observation = &observations[i + 1];
        let ghost before = draft_plan(document@, cs, obs, i as int);
        let checked = safe_relative_path(change.relative_path.as_str());
        if checked.is_err() {
            proof {
                lemma_plan_failure_persists(document@, cs, obs, i + 1, cs.len() as int);
            }
            return Err(WorkspaceError::InvalidSkillPath(crate::path::outside_skill_message_owned()));
        }
        let path = normalized_path(change.relative_path.as_str());
        let ghost cw = changes@;
        let ghost ww = writes@;
        let ghost dw = deletes@;
        match &change.operation {
            SkillFileDraftOperation::WriteText { content } => {
                let bytes = vstd::slice::slice_to_vec(content.as_str().as_bytes());
                let step = plan_write(path.as_str(), bytes, false, &observation.current, &mut writes, &mut changes);
                if step.is_err() {
                    proof {
                        lemma_plan_failure_persists(document@, cs, obs, i + 1, cs.len() as int);
                    }
                    return Err(WorkspaceError::InvalidSkillPath(crate::path::outside_skill_message_owned()));
                }
                assert(views(deletes@) =~= views(dw) + seq![]);
            },
            SkillFileDraftOperation::ReplaceBinary { content } => {
                let step = plan_write(path.as_str(), content.clone(), true, &observation.current, &mut writes, &mut changes);
                if step.is_err() {
                    proof {
                        lemma_plan_failure_persists(document@, cs, obs, i + 1, cs.len() as int);
                    }
                    return Err(WorkspaceError::InvalidSkillPath(crate::path::outside_skill_message_owned()));
                }
                assert(views(deletes@) =~= views(dw) + seq![]);
            },
            SkillFileDraftOperation::Delete => {
                plan_delete(path, observation, &mut deletes, &mut changes);
                assert(write_views(writes@) =~= write_views(ww) + seq![]);
            },
        }
        proof {
            let c = change_plan(cs[i as int], obs[i + 1]);
            assert(c is Some);
            let bp = before->0;
            let cp = c->0;
            assert(change_views(changes@) =~= bp.0 + cp.0);
            assert(write_views(writes@) =~= bp.1 + cp.1);
            assert(views(deletes@) =~= bp.2 + cp.2);
        }
        i += 1;
    }
    let ghost unsorted = changes@;
    let sorted = sort_by_key(changes);
    proof {
        lemma_map_multiset(sorted@, unsorted, |c: SkillPlannedChange| change_view(c));
    }
    Ok((writes, deletes, sorted))
}

/// The name of a work directory beside a target: `.skill-management-`,
/// the purpose, the identifier and the target's name, separated by `-`.
pub open spec fn work_name(purpose: Seq<char>, identifier: i64, name: Seq<char>) -> Seq<char> {
    ".skill-management-"@ + purpose + "-"@ + crate::text::decimal(identifier as int) + "-"@ + name
}

/// The message of a target without a parent directory.
pub open spec fn no_parent_message() -> Seq<char> {
    "Skill 目标目录缺少父目录"@
}

/// A work directory beside `target`, named after the purpose, the
/// identifier and the target's name (`skill` when it has none).
pub fn sibling_work_path(target: &str, purpose: &str, identifier: i64) -> (r: Result<String, WorkspaceError>)
    ensures
        match crate::path::parent_spec(target@) {
            None => r matches Err(WorkspaceError::InvalidSkillPath(m)) && m@ == no_parent_message(),
            Some(parent) => r matches Ok(p) && p@ == path_join_spec(
                parent,
                work_name(
                    purpose@,
                    identifier,
                    match crate::path::file_name_spec(target@) {
                        Some(n) => n,
                        None => "skill"@,
                    },
                ),
            ),
        },
{
    let parent = match crate::path::path_parent(target) {
        Some(p) => p,
        None => {
            let m = "Skill 目标目录缺少父目录".to_owned();
            proof {
                reveal_strlit("Skill 目标目录缺少父目录");
            }
            return Err(WorkspaceError::InvalidSkillPath(m));
        },
    };
    let name = match crate::path::path_file_name(target) {
        Some(n) => n,
        None => "skill".to_owned(),
    };
    let mut work = concat3(".skill-management-", purpose, "-");
    let number = crate::text::i64_decimal(identifier);
    crate::text::append_str(&mut work, number.as_str());
    crate::text::append_str(&mut work, "-");
    crate::text::append_str(&mut work, name.as_str());
    proof {
        reveal_strlit(".skill-management-");
        reveal_strlit("-");
        reveal_strlit("skill");
    }
    Ok(path_join(parent.as_str(), work.as_str()))
}

/// How a target directory is put back: removed, when the change created it,
/// or replaced by a copy of its backup.
#[derive(Debug, Clone, PartialEq, Eq)]
pub enum RestoreStep {
    RemoveTarget,
    RestoreFrom(String),
}

/// What a restore step does to a file system given as a map from paths to
/// what is at them.
pub open spec fn restore_effect<C>(fs: Map<Seq<char>, C>, target: Seq<char>, step: RestoreStep) -> Map<
    Seq<char>,
    C,
> {
    match step {
        RestoreStep::RemoveTarget => fs.remove(target),
        RestoreStep::RestoreFrom(b) => if fs.contains_key(b@) {
            fs.insert(target, fs[b@])
        } else {
            fs.remove(target)
        },
    }
}

/// Undoing a saved change gives the target directory back what it held:
/// saving backs up an existing directory to `backup` and puts the new
/// content `content` in place; the step that `undo_step` (or
/// `rollback_step`) then gives, removing a new directory or restoring the
/// backup, brings back the state before the save.
pub proof fn undo_restores_the_directory<C>(
    fs: Map<Seq<char>, C>,
    target: Seq<char>,
    backup: String,
    content: C,
    step: RestoreStep,
)
    requires
        target != backup@,
        step == (if !fs.contains_key(target) {
            RestoreStep::RemoveTarget
        } else {
            RestoreStep::RestoreFrom(backup)
        }),
    ensures
        ({
            let saved = if fs.contains_key(target) {
                fs.insert(backup@, fs[target])
            } else {
                fs
            }.insert(target, content);
            let back = restore_effect(saved, target, step);
            &&& back.contains_key(target) == fs.contains_key(target)
            &&& fs.contains_key(target) ==> back[target] == fs[target]
        }),
{
}

fn restore_step(was_new: bool, backup: Option<String>, missing: &str) -> (r: Result<RestoreStep, WorkspaceError>)
    ensures
        was_new ==> r == Ok::<RestoreStep, WorkspaceError>(RestoreStep::RemoveTarget),
        !was_new ==> match backup {
            Some(b) => r == Ok::<RestoreStep, WorkspaceError>(RestoreStep::RestoreFrom(b)),
            None => r matches Err(WorkspaceError::InvalidDraft(m)) && m@ == missing@,
        },
{
    if was_new {
        return Ok(RestoreStep::RemoveTarget);
    }
    match backup {
        Some(b) => Ok(RestoreStep::RestoreFrom(b)),
        None => Err(WorkspaceError::InvalidDraft(missing.to_owned())),
    }
}

/// How a change that failed while it was being recorded is rolled back.
pub fn rollback_step(was_new: bool, backup: Option<String>) -> (r: Result<RestoreStep, WorkspaceError>)
    ensures
        was_new ==> r == Ok::<RestoreStep, WorkspaceError>(RestoreStep::RemoveTarget),
        !was_new ==> match backup {
            Some(b) => r == Ok::<RestoreStep, WorkspaceError>(RestoreStep::RestoreFrom(b)),
            None => r matches Err(WorkspaceError::InvalidDraft(m)) && m@
                == "保存失败后找不到可恢复的本地备份。"@,
        },
{
    restore_step(was_new, backup, "保存失败后找不到可恢复的本地备份。")
}

/// How a completed change is undone.
pub fn undo_step(was_new: bool, backup: Option<String>) -> (r: Result<RestoreStep, WorkspaceError>)
    ensures
        was_new ==> r == Ok::<RestoreStep, WorkspaceError>(RestoreStep::RemoveTarget),
        !was_new ==> match backup {
            Some(b) => r == Ok::<RestoreStep, WorkspaceError>(RestoreStep::RestoreFrom(b)),
            None => r matches Err(WorkspaceError::InvalidDraft(m)) && m@
                == "编辑操作的本地备份不存在。"@,
        },
{
    restore_step(was_new, backup, "编辑操作的本地备份不存在。")
}

/// Where a draft goes, as the catalog resolves it: the root, the instance
/// it replaces and the directory; or why it cannot be resolved.
pub open spec fn draft_target_outcome(snapshot: WorkspaceSnapshot, target: SkillDraftTarget) -> Result<
    (i64, Option<String>, Seq<char>),
    crate::file_operations::PlanFailure,
> {
    match target {
        SkillDraftTarget::Existing { instance_id } => match found_instance(snapshot.instances@, instance_id@) {
            None => Err(crate::file_operations::PlanFailure::Unknown(instance_id@)),
            Some(i) => Ok((i.root_id, Some(i.id), i.real_path@)),
        },
        SkillDraftTarget::New { root_id, relative_path } => match found_root(snapshot.roots@, root_id) {
            None => Err(crate::file_operations::PlanFailure::Root(unknown_root_message())),
            Some(root) => if is_safe_relative(relative_path@) {
                Ok((root_id, None, path_join_spec(root.path@, relative_path@)))
            } else {
                Err(crate::file_operations::PlanFailure::UnsafePath)
            },
        },
    }
}

/// The messages of the issues of a draft joined with `；`.
pub open spec fn draft_issue_message(d: SkillDraft) -> Seq<char> {
    join_spec(draft_issues(d).map_values(|p: (Seq<char>, Seq<char>)| p.1), "；"@)
}

proof fn lemma_issue_messages(v: Seq<SkillValidationIssue>)
    ensures
        v.map_values(|i: SkillValidationIssue| i.message@) == issue_views(v).map_values(
            |p: (Seq<char>, Seq<char>)| p.1,
        ),
{
    assert(v.map_values(|i: SkillValidationIssue| i.message@) =~= issue_views(v).map_values(
        |p: (Seq<char>, Seq<char>)| p.1,
    ));
}

impl SkillWorkspace {
    /// Plans saving a draft, given the catalog `snapshot`, whether the
    /// resolved directory exists, what the files it touches hold
    /// (`observations`, as for `plan_draft_changes`), and the fingerprint of
    /// the directory as it is now. Refuses a draft with issues, a target
    /// that cannot be resolved, and a new Skill whose directory exists; the
    /// plan stores the composed `SKILL.md` and the file changes.
    pub fn plan_skill_change(
        &self,
        draft: &SkillDraft,
        snapshot: &WorkspaceSnapshot,
        directory_exists: bool,
        observations: &Vec<FileObservation>,
        baseline_fingerprint: Option<u64>,
    ) -> (r: Result<(PendingSkillChange, Vec<SkillPlannedChange>), WorkspaceError>)
        requires
            observations@.len() == draft.file_changes@.len() + 1,
        ensures
            draft_issues(*draft).len() > 0 ==> (r matches Err(WorkspaceError::InvalidDraft(m)) && m@
                == draft_issue_message(*draft)),
            draft_issues(*draft).len() == 0 ==> match draft_target_outcome(*snapshot, draft.target) {
                Err(f) => r matches Err(e) && crate::file_operations::failure_is(e, f),
                Ok((root_id, instance_id, directory)) => if instance_id is None && directory_exists {
                    r matches Err(WorkspaceError::InvalidDraft(m)) && m@ == existing_directory_message()
                } else {
                    match draft_metadata(*draft) {
                        None => r matches Err(e) && e is Serialization,
                        Some(metadata) => match draft_plan(
                            skill_document_spec(metadata, draft.markdown_body@),
                            draft.file_changes@,
                            observations@,
                            draft.file_changes@.len() as int,
                        ) {
                            None => r matches Err(WorkspaceError::InvalidSkillPath(m)) && m@
                                == crate::path::outside_skill_message(),
                            Some(p) => r matches Ok((pending, changes)) && {
                                &&& pending.root_id == root_id
                                &&& pending.instance_id == instance_id
                                &&& pending.target_directory@ == directory
                                &&& pending.baseline_fingerprint == baseline_fingerprint
                                &&& write_views(pending.writes@) == p.1
                                &&& views(pending.deletes@) == p.2
                                &&& sorted_by_key(changes@)
                                &&& change_views(changes@).to_multiset() == p.0.to_multiset()
                            },
                        },
                    }
                }
            },
    {
        let validation = self.validate_skill_draft(draft);
        if !validation.valid {
            proof {
                lemma_issue_messages(validation.issues@);
            }
            return Err(invalid_draft_error(&validation));
        }
        let target = self.resolve_draft_target(snapshot, &draft.target)?;
        let target = confirm_draft_target(target, directory_exists)?;
        let document = compose_skill_document(draft)?;
        match plan_draft_changes(document.as_str(), draft, observations) {
            Err(_) => Err(WorkspaceError::InvalidSkillPath(crate::path::outside_skill_message_owned())),
            Ok((writes, deletes, changes)) => Ok(
                (
                    PendingSkillChange {
                        root_id: target.root_id,
                        instance_id: target.instance_id,
                        target_directory: target.directory,
                        baseline_fingerprint,
                        writes,
                        deletes,
                    },
                    changes,
                ),
            ),
        }
    }
}

proof fn lemma_find_first(s: Seq<char>, pat: Seq<char>, i: int, t: int)
    requires
        0 <= i <= t,
        t + pat.len() <= s.len(),
        s.subrange(t, t + pat.len()) == pat,
        forall|k: int| i <= k < t ==> #[trigger] s.subrange(k, k + pat.len()) != pat,
    ensures
        crate::catalog::find_from(s, pat, i) == Some(t),
    decreases t - i,
{
    if i < t {
        assert(s.subrange(i, i + pat.len()) != pat);
        lemma_find_first(s, pat, i + 1, t);
    }
}

/// A `SKILL.md` written from YAML metadata reads back that metadata: its
/// frontmatter is the metadata without its final line break, when the
/// metadata ends with a line break and no line after its first starts
/// with `---`.
pub proof fn composed_document_reads_back(metadata: Seq<char>, body: Seq<char>)
    requires
        metadata.len() > 0,
        metadata.last() == '\n',
        forall|k: int| 0 <= k && k + 4 <= metadata.len() ==> #[trigger] metadata.subrange(k, k + 4) != "\n---"@,
    ensures
        crate::catalog::frontmatter_spec(skill_document_spec(metadata, body)) == Some(metadata.drop_last()),
{
    reveal_strlit("---\n");
    reveal_strlit("---\n\n");
    reveal_strlit("\n---");
    let doc = skill_document_spec(metadata, body);
    let tail = "---\n\n"@ + trim_start(body);
    assert(doc == "---\n"@ + (metadata + tail));
    assert(doc.subrange(0, 4) =~= "---\n"@);
    assert(crate::catalog::starts_with(doc, "---\n"@));
    let rest = doc.skip(4);
    assert(rest =~= metadata + tail);
    let pat = "\n---"@;
    let n = metadata.len() as int;
    let t = n - 1;
    assert(rest.subrange(t, t + 4) =~= pat) by {
        assert(rest[t] == '\n');
        assert(rest[t + 1] == '-' && rest[t + 2] == '-' && rest[t + 3] == '-');
    }
    assert forall|k: int| 0 <= k < t implies #[trigger] rest.subrange(k, k + pat.len()) != pat by {
        if k + 4 <= n {
            assert(rest.subrange(k, k + 4) =~= metadata.subrange(k, k + 4));
        } else {
            let j = t - k;
            assert(1 <= j <= 2);
            assert(rest.subrange(k, k + 4)[j] == rest[t]);
            assert(rest[t] == '\n');
            assert(pat[j] == '-');
        }
    }
    lemma_find_first(rest, pat, 0, t);
    assert(rest.take(t) =~= metadata.drop_last());
}

/// Every path that a planned Skill change creates, overwrites or deletes
/// is a safe relative path: not empty, not absolute, and without `.` or `..`
/// components, so that under the Skill directory it stays inside it.
pub proof fn planned_paths_stay_inside(
    document: Seq<char>,
    changes: Seq<SkillFileDraftChange>,
    obs: Seq<FileObservation>,
    n: int,
)
    requires
        0 <= n <= changes.len(),
        n < obs.len(),
    ensures
        draft_plan(document, changes, obs, n) matches Some(p) ==> {
            &&& forall|i: int| 0 <= i < p.0.len() ==> is_safe_relative(#[trigger] p.0[i].0)
            &&& forall|i: int| 0 <= i < p.1.len() ==> is_safe_relative(#[trigger] p.1[i].0)
            &&& forall|i: int| 0 <= i < p.2.len() ==> is_safe_relative(#[trigger] p.2[i])
        },
    decreases n,
{
    if n <= 0 {
        reveal_strlit("SKILL.md");
        let name = "SKILL.md"@;
        assert(crate::path::slash_free(name));
        assert(name != seq!['.']) by {
            assert(name.len() == 8);
        }
        assert(name != seq!['.', '.']) by {
            assert(name.len() == 8);
        }
        crate::path::lemma_plain_name_is_safe(name);
    } else {
        planned_paths_stay_inside(document, changes, obs, n - 1);
        let c = changes[n - 1];
        if is_safe_relative(c.relative_path@) {
            crate::path::normalized_safe_path(c.relative_path@);
        }
        let a = draft_plan(document, changes, obs, n - 1);
        let b = change_plan(c, obs[n]);
        if let (Some(x), Some(y)) = (a, b) {
            let p = plan_parts(x.0 + y.0, x.1 + y.1, x.2 + y.2);
            assert forall|i: int| 0 <= i < p.0.len() implies is_safe_relative(#[trigger] p.0[i].0) by {
                if i >= x.0.len() {
                    assert(p.0[i] == y.0[i - x.0.len()]);
                }
            }
            assert forall|i: int| 0 <= i < p.1.len() implies is_safe_relative(#[trigger] p.1[i].0) by {
                if i >= x.1.len() {
                    assert(p.1[i] == y.1[i - x.1.len()]);
                }
            }
            assert forall|i: int| 0 <= i < p.2.len() implies is_safe_relative(#[trigger] p.2[i]) by {
                if i >= x.2.len() {
                    assert(p.2[i] == y.2[i - x.2.len()]);
                }
            }
        }
    }
}

} // verus!
