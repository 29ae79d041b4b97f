//! Batch file operations on Skills: import, copy, move and trash. Plans,
//! their public form, results, history, the stored kinds, the locations the
//! application manages, and the safety rules for ZIP archives.
use vstd::prelude::*;

use crate::path::{
    components, is_name, is_prefix_of, is_safe_relative, outside_skill_message, parent_spec,
    path_components, path_join, path_join_spec, path_parent, safe_relative_path,
};
use crate::text::{chars_of, join_spec, join_strings, str_eq, views};
use crate::{SkillInstance, SkillRoot, SkillWorkspace, WorkspaceError, WorkspaceSnapshot};

verus! {

/// What a file operation does.
#[derive(Debug, Clone, Copy, PartialEq, Eq)]
pub enum FileOperationKind {
    Import,
    Copy,
    Move,
    Trash,
}

/// What happens when the target already exists.
#[derive(Debug, Clone, Copy, PartialEq, Eq)]
pub enum FileConflictPolicy {
    Skip,
    Overwrite,
}

/// A request to copy, move or trash selected instances.
#[derive(Debug, Clone, PartialEq, Eq)]
pub struct FileOperationRequest {
    pub instance_ids: Vec<String>,
    pub kind: FileOperationKind,
    pub target_root_id: Option<i64>,
    pub conflict_policy: FileConflictPolicy,
}

/// A request to import a Skill from a ZIP archive under a root.
#[derive(Debug, Clone, PartialEq, Eq)]
pub struct ZipImportRequest {
    pub zip_path: String,
    pub target_root_id: i64,
    pub relative_path: String,
    pub conflict_policy: FileConflictPolicy,
}

/// A stored plan as the user reviews it.
#[derive(Debug, Clone, PartialEq, Eq)]
pub struct FileOperationPlan {
    pub id: i64,
    pub kind: FileOperationKind,
    pub items: Vec<PlannedFileOperationItem>,
    pub undoable: bool,
}

/// One item of a plan as the user reviews it.
#[derive(Debug, Clone, PartialEq, Eq)]
pub struct PlannedFileOperationItem {
    pub instance_id: Option<String>,
    pub source: String,
    pub target: Option<String>,
    pub conflict: bool,
    pub will_overwrite: bool,
    pub will_remove_source: bool,
    pub file_count: usize,
    pub total_size: u64,
}

/// How one item of a batch ended.
#[derive(Debug, Clone, Copy, PartialEq, Eq)]
pub enum FileOperationResultStatus {
    Success,
    Failed,
    Skipped,
}

/// The result of one item of a batch.
#[derive(Debug, Clone, PartialEq, Eq)]
pub struct FileOperationItemResult {
    pub instance_id: Option<String>,
    pub source: String,
    pub target: Option<String>,
    pub status: FileOperationResultStatus,
    pub message: String,
    pub backup_created: bool,
}

/// A finished batch with its results and the catalog after it.
#[derive(Debug, Clone, PartialEq, Eq)]
pub struct FileOperationBatchOutcome {
    pub batch_id: i64,
    pub results: Vec<FileOperationItemResult>,
    pub snapshot: WorkspaceSnapshot,
}

/// A batch in the history.
#[derive(Debug, Clone, PartialEq, Eq)]
pub struct FileOperationRecord {
    pub batch_id: i64,
    pub plan_id: i64,
    pub kind: FileOperationKind,
    pub created_at: i64,
    pub undoable: bool,
    pub undone: bool,
    pub plan: FileOperationPlan,
    pub results: Vec<FileOperationItemResult>,
}

/// A plan as it is stored until it is carried out or cancelled.
#[derive(Debug, Clone, PartialEq, Eq)]
pub struct PendingFileOperationPlan {
    pub kind: FileOperationKind,
    pub conflict_policy: FileConflictPolicy,
    pub items: Vec<PendingFileOperationItem>,
    pub staging_root: Option<String>,
}

/// One stored item: where it comes from and goes to, the fingerprints that
/// tell whether either changed since planning, and its size.
#[derive(Debug, Clone, PartialEq, Eq)]
pub struct PendingFileOperationItem {
    pub instance_id: Option<String>,
    pub source_root_id: Option<i64>,
    pub source_root: Option<String>,
    pub source_relative_path: Option<String>,
    pub target_root_id: Option<i64>,
    pub target_root: Option<String>,
    pub target_relative_path: Option<String>,
    pub source: String,
    pub target: Option<String>,
    pub source_fingerprint: u64,
    pub target_fingerprint: Option<u64>,
    pub conflict: bool,
    pub file_count: usize,
    pub total_size: u64,
}

/// What undoing a batch needs: one item per applied operation.
#[derive(Debug, Clone, PartialEq, Eq)]
pub struct UndoPayload {
    pub items: Vec<UndoItem>,
}

/// What undoing one applied operation needs.
#[derive(Debug, Clone, PartialEq, Eq)]
pub struct UndoItem {
    pub kind: FileOperationKind,
    pub source: String,
    pub target: String,
    pub target_backup: Option<String>,
    pub target_was_new: bool,
    pub source_backup: Option<String>,
    pub source_root_id: Option<i64>,
    pub target_root_id: Option<i64>,
    pub source_root: Option<String>,
    pub source_relative_path: Option<String>,
    pub target_root: Option<String>,
    pub target_relative_path: Option<String>,
    pub applied_target_fingerprint: Option<u64>,
}

/// The most entries an archive may hold.
pub const MAX_ZIP_ENTRIES: usize = 10000;

/// The most bytes an archive may unpack to.
pub const MAX_ZIP_UNCOMPRESSED_BYTES: u64 = 104857600;

/// The text that stores an operation kind.
pub open spec fn operation_kind_text(kind: FileOperationKind) -> Seq<char> {
    match kind {
        FileOperationKind::Import => "import"@,
        FileOperationKind::Copy => "copy"@,
        FileOperationKind::Move => "move"@,
        FileOperationKind::Trash => "trash"@,
    }
}

/// The operation kind stored as `value`; anything unknown reads as a copy.
pub open spec fn operation_kind_from_text(value: Seq<char>) -> FileOperationKind {
    if value == "import"@ {
        FileOperationKind::Import
    } else if value == "move"@ {
        FileOperationKind::Move
    } else if value == "trash"@ {
        FileOperationKind::Trash
    } else {
        FileOperationKind::Copy
    }
}

/// The text that stores an operation kind.
pub fn operation_kind_database(kind: &FileOperationKind) -> (r: &'static str)
    ensures
        r@ == operation_kind_text(*kind),
{
    match kind {
        FileOperationKind::Import => "import",
        FileOperationKind::Copy => "copy",
        FileOperationKind::Move => "move",
        FileOperationKind::Trash => "trash",
    }
}

/// The operation kind stored as `value`.
pub fn operation_kind_from_database(value: &str) -> (r: FileOperationKind)
    ensures
        r == operation_kind_from_text(value@),
{
    if str_eq(value, "import") {
        FileOperationKind::Import
    } else if str_eq(value, "move") {
        FileOperationKind::Move
    } else if str_eq(value, "trash") {
        FileOperationKind::Trash
    } else {
        FileOperationKind::Copy
    }
}

/// An operation kind survives being stored and read back.
pub proof fn operation_kind_round_trip(kind: FileOperationKind)
    ensures
        operation_kind_from_text(operation_kind_text(kind)) == kind,
{
    reveal_strlit("import");
    reveal_strlit("copy");
    reveal_strlit("move");
    reveal_strlit("trash");
    assert("move"@[0] != "trash"@[0]);
    assert("move"@[0] != "copy"@[0]);
    assert("trash"@[0] != "copy"@[0]);
    assert("copy"@[0] != "import"@[0]);
    assert("move"@[0] != "import"@[0]);
    assert("trash"@[0] != "import"@[0]);
}

/// A stored item as the user reviews it under a plan of `kind` and `policy`:
/// a conflict is overwritten under the overwrite policy, and a move or a
/// trash removes the source.
pub open spec fn planned_item_of(
    item: PendingFileOperationItem,
    kind: FileOperationKind,
    policy: FileConflictPolicy,
) -> PlannedFileOperationItem {
    PlannedFileOperationItem {
        instance_id: item.instance_id,
        source: item.source,
        target: item.target,
        conflict: item.conflict,
        will_overwrite: item.conflict && policy == FileConflictPolicy::Overwrite,
        will_remove_source: kind == FileOperationKind::Move || kind == FileOperationKind::Trash,
        file_count: item.file_count,
        total_size: item.total_size,
    }
}

/// The plan stored under `id` as the user reviews it; a trash cannot be
/// undone.
pub fn public_plan(id: i64, pending: &PendingFileOperationPlan) -> (r: FileOperationPlan)
    ensures
        r.id == id,
        r.kind == pending.kind,
        r.undoable == (pending.kind != FileOperationKind::Trash),
        r.items@.len() == pending.items@.len(),
        forall|i: int|
            0 <= i < r.items@.len() ==> #[trigger] r.items@[i] == planned_item_of(
                pending.items@[i],
                pending.kind,
                pending.conflict_policy,
            ),
{
    let overwrite = match pending.conflict_policy {
        FileConflictPolicy::Overwrite => true,
        FileConflictPolicy::Skip => false,
    };
    let removes = match pending.kind {
        FileOperationKind::Move | FileOperationKind::Trash => true,
        _ => false,
    };
    let mut items: Vec<PlannedFileOperationItem> = Vec::new();
    let mut i: usize = 0;
    while i < pending.items.len()
        invariant
            i <= pending.items@.len(),
            items@.len() == i,
            overwrite == (pending.conflict_policy == FileConflictPolicy::Overwrite),
            removes == (pending.kind == FileOperationKind::Move || pending.kind
                == FileOperationKind::Trash),
            forall|k: int|
                0 <= k < i ==> #[trigger] items@[k] == planned_item_of(
                    pending.items@[k],
                    pending.kind,
                    pending.conflict_policy,
                ),
        decreases pending.items@.len() - i,
    {
        let item = &pending.items[i];
        items.push(
            PlannedFileOperationItem {
                instance_id: crate::copy_opt(&item.instance_id),
                source: item.source.clone(),
                target: crate::copy_opt(&item.target),
                conflict: item.conflict,
                will_overwrite: item.conflict && overwrite,
                will_remove_source: removes,
                file_count: item.file_count,
                total_size: item.total_size,
            },
        );
        i += 1;
    }
    let undoable = match pending.kind {
        FileOperationKind::Trash => false,
        _ => true,
    };
    FileOperationPlan { id, kind: pending.kind, items, undoable }
}

/// The result of one stored item with the given status and message.
pub fn result_for(
    item: &PendingFileOperationItem,
    status: FileOperationResultStatus,
    message: &str,
    backup_created: bool,
) -> (r: FileOperationItemResult)
    ensures
        r.instance_id == item.instance_id,
        r.source == item.source,
        r.target == item.target,
        r.status == status,
        r.message@ == message@,
        r.backup_created == backup_created,
{
    FileOperationItemResult {
        instance_id: crate::copy_opt(&item.instance_id),
        source: item.source.clone(),
        target: crate::copy_opt(&item.target),
        status,
        message: message.to_owned(),
        backup_created,
    }
}

/// A batch that can still be undone: undoable, not undone, and with at
/// least one item that succeeded.
pub open spec fn is_undoable_record(r: FileOperationRecord) -> bool {
    &&& r.undoable
    &&& !r.undone
    &&& exists|j: int|
        0 <= j < r.results@.len() && #[trigger] r.results@[j].status
            == FileOperationResultStatus::Success
}

/// The history after batch `batch_id` has been undone: its records are
/// marked undone, the others stay as they are.
pub open spec fn history_after_undo(history: Seq<FileOperationRecord>, batch_id: i64) -> Seq<
    FileOperationRecord,
> {
    history.map_values(
        |r: FileOperationRecord|
            if r.batch_id == batch_id {
                FileOperationRecord { undone: true, ..r }
            } else {
                r
            },
    )
}

/// An undone batch never becomes undoable again: once its records are
/// marked undone, none of them is an undoable record, so the search for the
/// latest undoable batch passes over it; the others keep what they were.
pub proof fn undone_batches_stay_undone(history: Seq<FileOperationRecord>, batch_id: i64)
    ensures
        forall|i: int|
            0 <= i < history.len() && history[i].batch_id == batch_id ==> !is_undoable_record(
                #[trigger] history_after_undo(history, batch_id)[i],
            ),
        forall|i: int|
            0 <= i < history.len() && history[i].batch_id != batch_id ==> #[trigger] history_after_undo(
                history,
                batch_id,
            )[i] == history[i],
{
}

fn has_success(results: &Vec<FileOperationItemResult>) -> (r: bool)
    ensures
        r == exists|j: int|
            0 <= j < results@.len() && #[trigger] results@[j].status
                == FileOperationResultStatus::Success,
{
    let mut i: usize = 0;
    while i < results.len()
        invariant
            i <= results@.len(),
            forall|j: int| 0 <= j < i ==> #[trigger] results@[j].status != FileOperationResultStatus::Success,
        decreases results@.len() - i,
    {
        match results[i].status {
            FileOperationResultStatus::Success => {
                return true;
            },
            _ => {},
        }
        i += 1;
    }
    false
}

impl SkillWorkspace {
    /// The newest batch that can still be undone, from the `history` newest
    /// first.
    pub fn latest_undoable_file_operation(&self, history: Vec<FileOperationRecord>) -> (r: Option<
        FileOperationRecord,
    >)
        ensures
            match r {
                Some(record) => exists|i: int|
                    0 <= i < history@.len() && history@[i] == record && is_undoable_record(record)
                        && forall|j: int| 0 <= j < i ==> !is_undoable_record(#[trigger] history@[j]),
                None => forall|i: int| 0 <= i < history@.len() ==> !is_undoable_record(#[trigger] history@[i]),
            },
    {
        let mut i: usize = 0;
        while i < history.len()
            invariant
                i <= history@.len(),
                forall|j: int| 0 <= j < i ==> !is_undoable_record(#[trigger] history@[j]),
            decreases history@.len() - i,
        {
            let record = &history[i];
            if record.undoable && !record.undone && has_success(&record.results) {
                let ghost h = history@;
                let mut history = history;
                let found = history.remove(i);
                assert(found == h[i as int]);
                return Some(found);
            }
            i += 1;
        }
        None
    }
}

/// The directory of the application's data: the database's parent, or `.`
/// when it has none.
pub open spec fn database_parent_spec(database_path: Seq<char>) -> Seq<char> {
    match parent_spec(database_path) {
        Some(p) => if p.len() > 0 {
            p
        } else {
            "."@
        },
        None => "."@,
    }
}

/// The directory of the application's data.
pub fn database_parent(database_path: &str) -> (r: String)
    ensures
        r@ == database_parent_spec(database_path@),
{
    proof {
        reveal_strlit(".");
    }
    match path_parent(database_path) {
        Some(p) => if p.as_str().is_empty() {
            ".".to_owned()
        } else {
            p
        },
        None => ".".to_owned(),
    }
}

/// Where the application keeps the backups of file operations.
pub open spec fn backup_base_spec(database_path: Seq<char>) -> Seq<char> {
    path_join_spec(database_parent_spec(database_path), "file-operation-backups"@)
}

/// Where the application keeps the backups of file operations.
pub fn application_backup_base(database_path: &str) -> (r: String)
    ensures
        r@ == backup_base_spec(database_path@),
{
    let parent = database_parent(database_path);
    path_join(parent.as_str(), "file-operation-backups")
}

/// Where the application unpacks archives before importing them.
pub open spec fn staging_base_spec(database_path: Seq<char>) -> Seq<char> {
    path_join_spec(database_parent_spec(database_path), "import-staging"@)
}

/// Where the application unpacks archives before importing them.
pub fn application_staging_base(database_path: &str) -> (r: String)
    ensures
        r@ == staging_base_spec(database_path@),
{
    let parent = database_parent(database_path);
    path_join(parent.as_str(), "import-staging")
}

fn invalid_operation(message: &str) -> (e: WorkspaceError)
    ensures
        e matches WorkspaceError::InvalidFileOperation(m) && m@ == message@,
{
    WorkspaceError::InvalidFileOperation(message.to_owned())
}

fn invalid_archive(message: &str) -> (e: WorkspaceError)
    ensures
        e matches WorkspaceError::InvalidArchive(m) && m@ == message@,
{
    WorkspaceError::InvalidArchive(message.to_owned())
}

/// The path recorded for an undo item, checked against the root and the
/// relative path recorded with it: both must be there, the relative path
/// safe, and the recorded path the root joined with it.
pub fn validated_recorded_path(root: Option<&str>, relative_path: Option<&str>, recorded_path: &str) -> (r:
    Result<String, WorkspaceError>)
    ensures
        match root {
            None => r matches Err(WorkspaceError::InvalidFileOperation(m)) && m@ == "撤销记录缺少根目录。"@,
            Some(root) => match relative_path {
                None => r matches Err(WorkspaceError::InvalidFileOperation(m)) && m@
                    == "撤销记录缺少相对路径。"@,
                Some(relative) => if !is_safe_relative(relative@) {
                    r matches Err(WorkspaceError::InvalidSkillPath(m)) && m@ == outside_skill_message()
                } else if !crate::catalog::same_path(path_join_spec(root@, relative@), recorded_path@) {
                    r matches Err(WorkspaceError::InvalidFileOperation(m)) && m@
                        == "撤销记录的路径与根目录不一致。"@
                } else {
                    r matches Ok(p) && p@ == path_join_spec(root@, relative@)
                },
            },
        },
{
    let root = match root {
        Some(r) => r,
        None => {
            return Err(invalid_operation("撤销记录缺少根目录。"));
        },
    };
    let relative = match relative_path {
        Some(r) => r,
        None => {
            return Err(invalid_operation("撤销记录缺少相对路径。"));
        },
    };
    let relative = safe_relative_path(relative)?;
    let expected = path_join(root, relative.as_str());
    if !crate::catalog::paths_equal(expected.as_str(), recorded_path) {
        return Err(invalid_operation("撤销记录的路径与根目录不一致。"));
    }
    Ok(expected)
}

/// The component texts that are names, in order (`Component::Normal`).
pub open spec fn names_of(cs: Seq<Seq<char>>) -> Seq<Seq<char>>
    decreases cs.len(),
{
    if cs.len() == 0 {
        seq![]
    } else {
        names_of(cs.drop_last()) + (if is_name(cs.last()) {
            seq![cs.last()]
        } else {
            seq![]
        })
    }
}

/// The names of `path` below `base`, when `path` lies under `base`
/// (`Path::strip_prefix`, then its normal components).
pub open spec fn names_under(base: Seq<char>, path: Seq<char>) -> Option<Seq<Seq<char>>> {
    if is_prefix_of(components(base), components(path)) {
        Some(names_of(components(path).skip(components(base).len() as int)))
    } else {
        None
    }
}

fn names_below(base: &str, path: &str) -> (r: Option<Vec<String>>)
    ensures
        match r {
            Some(ns) => names_under(base@, path@) == Some(views(ns@)),
            None => names_under(base@, path@) is None,
        },
{
    let bc = path_components(base);
    let pc = path_components(path);
    if !crate::path::components_equal_prefix(&bc, &pc) {
        return None;
    }
    let ghost rest = views(pc@).skip(bc@.len() as int);
    let mut names: Vec<String> = Vec::new();
    let mut i: usize = bc.len();
    while i < pc.len()
        invariant
            bc@.len() <= i <= pc@.len(),
            rest == views(pc@).skip(bc@.len() as int),
            views(names@) == names_of(rest.take(i - bc@.len())),
        decreases pc@.len() - i,
    {
        let ghost before = names@;
        proof {
            assert(rest.take(i + 1 - bc@.len()).drop_last() == rest.take(i - bc@.len()));
            assert(rest.take(i + 1 - bc@.len()).last() == pc@[i as int]@);
        }
        let c = chars_of(pc[i].as_str());
        let named = !((c.len() == 1 && c[0] == '/') || (c.len() == 1 && c[0] == '.') || (c.len() == 2
            && c[0] == '.' && c[1] == '.'));
        proof {
            let t = pc@[i as int]@;
            assert(c@ == t);
            if c.len() == 1 && c[0] == '/' {
                assert(t =~= seq!['/']);
            }
            if c.len() == 1 && c[0] == '.' {
                assert(t =~= seq!['.']);
            }
            if c.len() == 2 && c[0] == '.' && c[1] == '.' {
                assert(t =~= seq!['.', '.']);
            }
            if t == seq!['/'] || t == seq!['.'] {
                assert(t.len() == 1 && t[0] == c[0]);
            }
            if t == seq!['.', '.'] {
                assert(t.len() == 2 && t[0] == c[0] && t[1] == c[1]);
            }
            assert(named == is_name(t));
        }
        if named {
            names.push(pc[i].clone());
            assert(views(names@) =~= views(before).push(pc@[i as int]@));
        } else {
            assert(views(names@) =~= views(before) + seq![]);
        }
        i += 1;
    }
    proof {
        assert(rest.take(pc@.len() - bc@.len()) == rest);
    }
    Some(names)
}

/// A backup of one undo item: `batch-…/item-…/target` or `…/source` below
/// the application's backup directory.
pub open spec fn backup_names_ok(ns: Seq<Seq<char>>) -> bool {
    &&& ns.len() == 3
    &&& crate::catalog::starts_with(ns[0], "batch-"@)
    &&& crate::catalog::starts_with(ns[1], "item-"@)
    &&& ns[2] == "target"@ || ns[2] == "source"@
}

/// Checks that a recorded backup is one the application made: it lies in
/// the application's backup directory and has the form of an item backup.
pub fn check_backup_path(database_path: &str, backup_path: &str) -> (r: Result<(), WorkspaceError>)
    ensures
        match names_under(backup_base_spec(database_path@), backup_path@) {
            None => r matches Err(WorkspaceError::InvalidFileOperation(m)) && m@
                == "撤销备份不在应用管理目录内。"@,
            Some(ns) => if backup_names_ok(ns) {
                r is Ok
            } else {
                r matches Err(WorkspaceError::InvalidFileOperation(m)) && m@ == "撤销备份路径格式无效。"@
            },
        },
{
    let base = application_backup_base(database_path);
    let names = match names_below(base.as_str(), backup_path) {
        Some(ns) => ns,
        None => {
            return Err(invalid_operation("撤销备份不在应用管理目录内。"));
        },
    };
    if names.len() != 3 || !crate::catalog::text_starts_with(names[0].as_str(), "batch-")
        || !crate::catalog::text_starts_with(names[1].as_str(), "item-") || !(str_eq(
        names[2].as_str(),
        "target",
    ) || str_eq(names[2].as_str(), "source")) {
        return Err(invalid_operation("撤销备份路径格式无效。"));
    }
    Ok(())
}

/// A backup directory of one item: `batch-…/item-…`.
pub open spec fn item_names_ok(ns: Seq<Seq<char>>) -> bool {
    &&& ns.len() == 2
    &&& crate::catalog::starts_with(ns[0], "batch-"@)
    &&& crate::catalog::starts_with(ns[1], "item-"@)
}

/// Checks that a backup directory of one item is one the application made.
pub fn check_backup_item(database_path: &str, backup_item: &str) -> (r: Result<(), WorkspaceError>)
    ensures
        match names_under(backup_base_spec(database_path@), backup_item@) {
            None => r matches Err(WorkspaceError::InvalidFileOperation(m)) && m@
                == "单项备份不在应用管理目录内。"@,
            Some(ns) => if item_names_ok(ns) {
                r is Ok
            } else {
                r matches Err(WorkspaceError::InvalidFileOperation(m)) && m@ == "单项备份路径格式无效。"@
            },
        },
{
    let base = application_backup_base(database_path);
    let names = match names_below(base.as_str(), backup_item) {
        Some(ns) => ns,
        None => {
            return Err(invalid_operation("单项备份不在应用管理目录内。"));
        },
    };
    if names.len() != 2 || !crate::catalog::text_starts_with(names[0].as_str(), "batch-")
        || !crate::catalog::text_starts_with(names[1].as_str(), "item-") {
        return Err(invalid_operation("单项备份路径格式无效。"));
    }
    Ok(())
}

/// `path`'s parent is `expected` (`Path::parent` compared as paths).
pub open spec fn parent_is(path: Seq<char>, expected: Seq<char>) -> bool {
    match parent_spec(path) {
        Some(p) => crate::catalog::same_path(p, expected),
        None => false,
    }
}

fn has_parent(path: &str, expected: &str) -> (r: bool)
    ensures
        r == parent_is(path@, expected@),
{
    match path_parent(path) {
        Some(p) => crate::catalog::paths_equal(p.as_str(), expected),
        None => false,
    }
}

/// Checks that a batch backup directory is one the application made: a
/// `batch-…` directory right inside the application's backup directory.
pub fn check_backup_root(database_path: &str, backup_root: &str) -> (r: Result<(), WorkspaceError>)
    ensures
        r is Ok <==> parent_is(backup_root@, backup_base_spec(database_path@)) && (match crate::path::file_name_spec(
            backup_root@,
        ) {
            Some(n) => crate::catalog::starts_with(n, "batch-"@),
            None => false,
        }),
        r matches Err(e) ==> (e matches WorkspaceError::InvalidFileOperation(m) && m@
            == "批次备份目录不在应用管理范围内。"@),
{
    let base = application_backup_base(database_path);
    let named = match crate::path::path_file_name(backup_root) {
        Some(n) => crate::catalog::text_starts_with(n.as_str(), "batch-"),
        None => false,
    };
    if !has_parent(backup_root, base.as_str()) || !named {
        return Err(invalid_operation("批次备份目录不在应用管理范围内。"));
    }
    Ok(())
}

/// Checks that a staging directory is one the application made: right
/// inside the application's staging directory.
pub fn check_staging_root(database_path: &str, staging_root: &str) -> (r: Result<(), WorkspaceError>)
    ensures
        r is Ok <==> parent_is(staging_root@, staging_base_spec(database_path@)),
        r matches Err(e) ==> (e matches WorkspaceError::InvalidFileOperation(m) && m@
            == "ZIP 暂存目录不在应用管理范围内，已拒绝清理。"@),
{
    let base = application_staging_base(database_path);
    if !has_parent(staging_root, base.as_str()) {
        return Err(invalid_operation("ZIP 暂存目录不在应用管理范围内，已拒绝清理。"));
    }
    Ok(())
}

/// The backup directory of a whole batch.
pub open spec fn batch_backup_root_spec(database_path: Seq<char>, batch_id: i64) -> Seq<char> {
    path_join_spec(backup_base_spec(database_path), "batch-"@ + crate::text::decimal(batch_id as int))
}

/// The backup directory of a whole batch.
pub fn batch_backup_root(database_path: &str, batch_id: i64) -> (r: String)
    ensures
        r@ == batch_backup_root_spec(database_path@, batch_id),
{
    let base = application_backup_base(database_path);
    let name = crate::text::concat2("batch-", crate::text::i64_decimal(batch_id).as_str());
    path_join(base.as_str(), name.as_str())
}

proof fn lemma_numbered_name(prefix: Seq<char>, n: int)
    requires
        prefix.len() >= 2,
        crate::path::slash_free(prefix),
    ensures
        ({
            let name = prefix + crate::text::decimal(n);
            &&& name.len() > 2
            &&& crate::path::slash_free(name)
            &&& name != seq!['.']
            &&& name != seq!['.', '.']
            &&& is_name(name)
            &&& crate::catalog::starts_with(name, prefix)
        }),
{
    let d = crate::text::decimal(n);
    crate::text::lemma_decimal_shape(n);
    let name = prefix + d;
    assert forall|k: int| 0 <= k < name.len() implies name[k] != '/' by {
        if k >= prefix.len() {
            assert(name[k] == d[k - prefix.len()]);
            assert(crate::text::numeral_char(d[k - prefix.len()]));
        }
    }
    assert(name.subrange(0, prefix.len() as int) =~= prefix);
}

/// The backups that the application makes for the items of a batch pass
/// its own checks on recorded backups: an item's directory, and the
/// `target` and `source` backups inside it, lie below the application's
/// backup directory in the form those checks accept, and the batch's
/// directory is named `batch-…` right inside the application's backup
/// directory and is the one found again from either backup. This holds
/// where the database path's
/// parent, if it has one, is not empty.
pub proof fn made_backups_pass_the_checks(database_path: Seq<char>, batch_id: i64, index: usize)
    requires
        parent_spec(database_path) matches Some(p) ==> p.len() > 0,
    ensures
        names_under(
            backup_base_spec(database_path),
            item_backup_root_spec(database_path, batch_id, index),
        ) matches Some(ns) && item_names_ok(ns),
        names_under(
            backup_base_spec(database_path),
            path_join_spec(item_backup_root_spec(database_path, batch_id, index), "target"@),
        ) matches Some(ns) && backup_names_ok(ns),
        names_under(
            backup_base_spec(database_path),
            path_join_spec(item_backup_root_spec(database_path, batch_id, index), "source"@),
        ) matches Some(ns) && backup_names_ok(ns),
        crate::path::file_name_spec(batch_backup_root_spec(database_path, batch_id)) matches Some(n)
            && crate::catalog::starts_with(n, "batch-"@),
        parent_is(batch_backup_root_spec(database_path, batch_id), backup_base_spec(database_path)),
        backup_batch_dir_spec(
            database_path,
            path_join_spec(item_backup_root_spec(database_path, batch_id, index), "target"@),
        ) == Some(batch_backup_root_spec(database_path, batch_id)),
        backup_batch_dir_spec(
            database_path,
            path_join_spec(item_backup_root_spec(database_path, batch_id, index), "source"@),
        ) == Some(batch_backup_root_spec(database_path, batch_id)),
{
    reveal_strlit("batch-");
    reveal_strlit("item-");
    reveal_strlit("target");
    reveal_strlit("source");
    reveal_strlit("file-operation-backups");
    reveal_strlit(".");
    let base = backup_base_spec(database_path);
    let bn = "batch-"@ + crate::text::decimal(batch_id as int);
    let inm = "item-"@ + crate::text::decimal(index as int);
    assert(crate::path::slash_free("batch-"@));
    assert(crate::path::slash_free("item-"@));
    lemma_numbered_name("batch-"@, batch_id as int);
    lemma_numbered_name("item-"@, index as int);
    let item = item_backup_root_spec(database_path, batch_id, index);
    let batch = batch_backup_root_spec(database_path, batch_id);
    assert(batch == path_join_spec(base, bn));
    assert(item == path_join_spec(batch, inm));
    crate::path::lemma_components_join_name(base, bn);
    crate::path::lemma_components_join_name(batch, inm);
    let cb = components(base);
    let ci = components(item);
    assert(ci == cb.push(bn).push(inm));
    assert(ci.take(cb.len() as int) =~= cb);
    assert(ci.skip(cb.len() as int) =~= seq![bn, inm]);
    assert(names_of(seq![bn]) == names_of(seq![bn].drop_last()) + seq![bn]);
    assert(seq![bn].drop_last() =~= Seq::<Seq<char>>::empty());
    assert(seq![bn, inm].drop_last() =~= seq![bn]);
    assert(names_of(seq![bn, inm]) =~= seq![bn, inm]);
    assert(crate::path::slash_free("target"@));
    assert(crate::path::slash_free("source"@));
    assert("target"@ != seq!['.'] && "target"@ != seq!['.', '.']) by {
        assert("target"@.len() == 6);
    }
    assert("source"@ != seq!['.'] && "source"@ != seq!['.', '.']) by {
        assert("source"@.len() == 6);
    }
    let t = path_join_spec(item, "target"@);
    let so = path_join_spec(item, "source"@);
    crate::path::lemma_components_join_name(item, "target"@);
    crate::path::lemma_components_join_name(item, "source"@);
    assert(components(t).take(cb.len() as int) =~= cb);
    assert(components(t).skip(cb.len() as int) =~= seq![bn, inm, "target"@]);
    assert(seq![bn, inm, "target"@].drop_last() =~= seq![bn, inm]);
    assert(is_name("target"@));
    assert(names_of(seq![bn, inm, "target"@]) =~= seq![bn, inm, "target"@]);
    assert(components(so).take(cb.len() as int) =~= cb);
    assert(components(so).skip(cb.len() as int) =~= seq![bn, inm, "source"@]);
    assert(components(t)[cb.len() as int] == bn);
    assert(components(so)[cb.len() as int] == bn);
    assert(seq![bn, inm, "source"@].drop_last() =~= seq![bn, inm]);
    assert(is_name("source"@));
    assert(names_of(seq![bn, inm, "source"@]) =~= seq![bn, inm, "source"@]);
    assert(components(batch) == cb.push(bn));
    assert(cb.push(bn).drop_last() == cb);
    crate::path::lemma_components_rebuild(base);
}

/// The backup directory of one item of a batch: under the database's parent
/// as `Path::parent` gives it, `.` when there is none.
pub open spec fn item_backup_root_spec(database_path: Seq<char>, batch_id: i64, index: usize) -> Seq<char> {
    let parent = match parent_spec(database_path) {
        Some(p) => p,
        None => "."@,
    };
    path_join_spec(
        path_join_spec(
            path_join_spec(parent, "file-operation-backups"@),
            "batch-"@ + crate::text::decimal(batch_id as int),
        ),
        "item-"@ + crate::text::decimal(index as int),
    )
}

/// The backup directory of one item of a batch.
pub fn item_backup_root(database_path: &str, batch_id: i64, index: usize) -> (r: String)
    ensures
        r@ == item_backup_root_spec(database_path@, batch_id, index),
{
    let parent = match path_parent(database_path) {
        Some(p) => p,
        None => {
            let d = ".".to_owned();
            proof {
                reveal_strlit(".");
            }
            d
        },
    };
    let base = path_join(parent.as_str(), "file-operation-backups");
    let batch = crate::text::concat2("batch-", crate::text::i64_decimal(batch_id).as_str());
    let item = crate::text::concat2("item-", crate::text::usize_decimal(index).as_str());
    let batch_dir = path_join(base.as_str(), batch.as_str());
    path_join(batch_dir.as_str(), item.as_str())
}

/// `s` with each backslash written as a slash.
pub open spec fn slashed(s: Seq<char>) -> Seq<char> {
    s.map_values(|c: char| if c == '\\' {
        '/'
    } else {
        c
    })
}

/// A ZIP entry name that is absolute: it starts with `/`, or its first
/// segment holds a drive colon.
pub open spec fn zip_name_absolute(n: Seq<char>) -> bool {
    (n.len() > 0 && n[0] == '/') || crate::path::segments(n)[0].contains(':')
}

/// A ZIP entry name that is empty or climbs out with `..`.
pub open spec fn zip_name_traverses(n: Seq<char>) -> bool {
    n.len() == 0 || components(n).contains(seq!['.', '.']) || components(n).contains(seq!['/'])
}

/// The component texts without the `.` ones.
pub open spec fn without_dots(cs: Seq<Seq<char>>) -> Seq<Seq<char>>
    decreases cs.len(),
{
    if cs.len() == 0 {
        seq![]
    } else {
        without_dots(cs.drop_last()) + (if cs.last() == seq!['.'] {
            seq![]
        } else {
            seq![cs.last()]
        })
    }
}

/// Where a ZIP entry is unpacked, relative to the destination: its name
/// with backslashes as slashes, without `.` components; `None` when it is
/// absolute or climbs out.
pub open spec fn zip_entry_path_spec(name: Seq<char>) -> Option<Seq<char>> {
    let n = slashed(name);
    if zip_name_absolute(n) || zip_name_traverses(n) {
        None
    } else {
        Some(join_spec(without_dots(components(n)), seq!['/']))
    }
}

proof fn lemma_without_dots(cs: Seq<Seq<char>>)
    ensures
        forall|j: int|
            0 <= j < without_dots(cs).len() ==> #[trigger] without_dots(cs)[j] != seq!['.']
                && cs.contains(without_dots(cs)[j]),
    decreases cs.len(),
{
    if cs.len() > 0 {
        lemma_without_dots(cs.drop_last());
        let w = without_dots(cs);
        let wf = without_dots(cs.drop_last());
        assert forall|j: int| 0 <= j < w.len() implies #[trigger] w[j] != seq!['.'] && cs.contains(
            w[j],
        ) by {
            if j < wf.len() {
                assert(w[j] == wf[j]);
                let i = choose|i: int| 0 <= i < cs.drop_last().len() && cs.drop_last()[i] == wf[j];
                assert(cs[i] == wf[j]);
            } else {
                assert(w[j] == cs.last());
                assert(cs[cs.len() - 1] == cs.last());
            }
        }
    }
}

/// An accepted ZIP entry stays inside the directory it is unpacked into:
/// its path is empty, the directory itself, or a safe relative path.
pub proof fn zip_entries_stay_inside(name: Seq<char>)
    ensures
        zip_entry_path_spec(name) matches Some(p) ==> p.len() == 0 || is_safe_relative(p),
{
    let n = slashed(name);
    if !zip_name_absolute(n) && !zip_name_traverses(n) {
        let cs = components(n);
        let w = without_dots(cs);
        crate::path::lemma_components_shape(n);
        lemma_without_dots(cs);
        if w.len() > 0 {
            assert forall|j: int| 0 <= j < w.len() implies crate::path::kept_segment(#[trigger] w[j])
                && crate::path::slash_free(w[j]) && w[j] != seq!['.', '.'] by {
                let i = choose|i: int| 0 <= i < cs.len() && cs[i] == w[j];
                assert(cs[i] != seq!['/']);
                assert(cs[i] != seq!['.', '.']);
            }
            crate::path::lemma_components_of_join(w);
        }
    }
}

fn first_segment_has_colon(v: &Vec<char>) -> (r: bool)
    ensures
        r == crate::path::segments(v@)[0].contains(':'),
{
    let mut i: usize = 0;
    let ghost s = v@;
    proof {
        lemma_first_segment(s, 0, seq![]);
    }
    while i < v.len() && v[i] != '/'
        invariant
            i <= v@.len(),
            s == v@,
            forall|k: int| 0 <= k < i ==> v@[k] != '/' && v@[k] != ':',
            crate::path::segments(s)[0] == s.take(i as int) + first_run(s, i as int),
        decreases v@.len() - i,
    {
        if v[i] == ':' {
            proof {
                assert(crate::path::segments(s)[0][i as int] == ':');
            }
            return true;
        }
        proof {
            assert(first_run(s, i as int) == seq![s[i as int]] + first_run(s, i + 1));
            assert(s.take(i + 1) == s.take(i as int).push(s[i as int]));
            assert(s.take(i as int) + first_run(s, i as int) =~= s.take(i + 1) + first_run(s, i + 1));
        }
        i += 1;
    }
    proof {
        assert(first_run(s, i as int) == Seq::<char>::empty());
        assert(crate::path::segments(s)[0] =~= s.take(i as int));
        if crate::path::segments(s)[0].contains(':') {
            let k = choose|k: int| 0 <= k < crate::path::segments(s)[0].len() && crate::path::segments(s)[0][k] == ':';
            assert(s[k] == ':');
        }
    }
    false
}

/// The characters of `s` from `i` up to the first `/`.
pub open spec fn first_run(s: Seq<char>, i: int) -> Seq<char>
    decreases s.len() - i,
{
    if i < 0 || i >= s.len() || s[i] == '/' {
        seq![]
    } else {
        seq![s[i]] + first_run(s, i + 1)
    }
}

proof fn lemma_first_segment(s: Seq<char>, i: int, cur: Seq<char>)
    requires
        0 <= i <= s.len(),
    ensures
        crate::path::segments_acc(s, i, cur)[0] == cur + first_run(s, i),
    decreases s.len() - i,
{
    if i < s.len() {
        if s[i] == '/' {
            assert(cur + first_run(s, i) =~= cur);
        } else {
            lemma_first_segment(s, i + 1, cur.push(s[i]));
            assert(cur.push(s[i]) + first_run(s, i + 1) =~= cur + first_run(s, i));
        }
    } else {
        assert(cur + first_run(s, i) =~= cur);
    }
}

fn slash_name(name: &str) -> (r: Vec<char>)
    ensures
        r@ == slashed(name@),
{
    let v = chars_of(name);
    let mut out: Vec<char> = Vec::new();
    let mut i: usize = 0;
    while i < v.len()
        invariant
            i <= v@.len(),
            v@ == name@,
            out@ == slashed(v@.take(i as int)),
        decreases v@.len() - i,
    {
        out.push(if v[i] == '\\' {
            '/'
        } else {
            v[i]
        });
        assert(slashed(v@.take(i + 1)) =~= slashed(v@.take(i as int)).push(
            if v@[i as int] == '\\' {
                '/'
            } else {
                v@[i as int]
            },
        ));
        i += 1;
    }
    assert(v@.take(v@.len() as int) == v@);
    out
}

fn seq_contains_text(cs: &Vec<String>, t: &str) -> (r: bool)
    ensures
        r == views(cs@).contains(t@),
{
    crate::text::contains_text(cs, t)
}

/// Where a ZIP entry is unpacked, relative to the destination; refuses an
/// absolute name and one that is empty or climbs out.
pub fn safe_zip_entry_path(name: &str) -> (r: Result<String, WorkspaceError>)
    ensures
        match zip_entry_path_spec(name@) {
            Some(p) => r matches Ok(q) && q@ == p,
            None => r matches Err(WorkspaceError::InvalidArchive(m)) && (if zip_name_absolute(
                slashed(name@),
            ) {
                m@ == "ZIP 包含绝对路径。"@
            } else {
                m@ == "ZIP 包含路径穿越。"@
            }),
        },
{
    let v = slash_name(name);
    if (v.len() > 0 && v[0] == '/') || first_segment_has_colon(&v) {
        return Err(invalid_archive("ZIP 包含绝对路径。"));
    }
    let n = crate::text::string_from_chars(&v);
    let comps = path_components(n.as_str());
    if v.len() == 0 || seq_contains_text(&comps, "..") || seq_contains_text(&comps, "/") {
        proof {
            reveal_strlit("..");
            reveal_strlit("/");
            assert(".."@ =~= seq!['.', '.']);
            assert("/"@ =~= seq!['/']);
        }
        return Err(invalid_archive("ZIP 包含路径穿越。"));
    }
    proof {
        reveal_strlit("..");
        reveal_strlit("/");
        assert(".."@ =~= seq!['.', '.']);
        assert("/"@ =~= seq!['/']);
    }
    let mut kept: Vec<String> = Vec::new();
    let mut i: usize = 0;
    while i < comps.len()
        invariant
            i <= comps@.len(),
            views(kept@) == without_dots(views(comps@).take(i as int)),
        decreases comps@.len() - i,
    {
        let ghost before = kept@;
        proof {
            assert(views(comps@).take(i + 1).drop_last() == views(comps@).take(i as int));
            assert(views(comps@).take(i + 1).last() == comps@[i as int]@);
        }
        let c = chars_of(comps[i].as_str());
        if c.len() == 1 && c[0] == '.' {
            assert(c@ =~= seq!['.']);
            assert(views(kept@) =~= views(before) + seq![]);
        } else {
            proof {
                if c@ == seq!['.'] {
                    assert(c@[0] == '.');
                }
            }
            kept.push(comps[i].clone());
            assert(views(kept@) =~= views(before).push(comps@[i as int]@));
        }
        i += 1;
    }
    assert(views(comps@).take(comps@.len() as int) == views(comps@));
    let sep = "/";
    proof {
        assert(sep@ =~= seq!['/']);
    }
    Ok(join_strings(&kept, sep))
}

/// The message of a link that leaves the archive.
pub open spec fn escaping_link_message() -> Seq<char> {
    "ZIP 包含越界符号链接。"@
}

/// Follows the components of a link from `parts`: `.` stays, `..` climbs
/// (failing above the top), a name descends; anything else fails.
pub open spec fn link_walk(parts: Seq<Seq<char>>, cs: Seq<Seq<char>>) -> Option<Seq<Seq<char>>>
    decreases cs.len(),
{
    if cs.len() == 0 {
        Some(parts)
    } else if cs[0] == seq!['.'] {
        link_walk(parts, cs.drop_first())
    } else if cs[0] == seq!['.', '.'] {
        if parts.len() == 0 {
            None
        } else {
            link_walk(parts.drop_last(), cs.drop_first())
        }
    } else if is_name(cs[0]) {
        link_walk(parts.push(cs[0]), cs.drop_first())
    } else {
        None
    }
}

/// Every part is a name: neither the root, `.` nor `..`.
pub open spec fn all_names(parts: Seq<Seq<char>>) -> bool {
    forall|k: int| 0 <= k < parts.len() ==> is_name(#[trigger] parts[k])
}

/// Following a link never climbs above the top of the archive: starting
/// from names, a walk that succeeds ends on names only.
pub proof fn link_walk_stays_inside(parts: Seq<Seq<char>>, cs: Seq<Seq<char>>)
    requires
        all_names(parts),
    ensures
        link_walk(parts, cs) matches Some(p) ==> all_names(p),
    decreases cs.len(),
{
    if cs.len() > 0 {
        if cs[0] == seq!['.'] {
            link_walk_stays_inside(parts, cs.drop_first());
        } else if cs[0] == seq!['.', '.'] {
            if parts.len() > 0 {
                assert(all_names(parts.drop_last()));
                link_walk_stays_inside(parts.drop_last(), cs.drop_first());
            }
        } else if is_name(cs[0]) {
            assert(all_names(parts.push(cs[0])));
            link_walk_stays_inside(parts.push(cs[0]), cs.drop_first());
        }
    }
}

/// Where a relative link in directory `parent` points, written without `.`
/// and `..`; `None` for an absolute link or one that climbs out.
pub open spec fn resolve_link_spec(parent: Seq<char>, link: Seq<char>) -> Option<Seq<char>> {
    if link.len() > 0 && link[0] == '/' {
        None
    } else {
        match link_walk(names_of(components(parent)), components(link)) {
            Some(p) => Some(join_spec(p, seq!['/'])),
            None => None,
        }
    }
}

fn names_of_path(path: &str) -> (r: Vec<String>)
    ensures
        views(r@) == names_of(components(path@)),
{
    let pc = path_components(path);
    let mut names: Vec<String> = Vec::new();
    let mut i: usize = 0;
    while i < pc.len()
        invariant
            i <= pc@.len(),
            views(names@) == names_of(views(pc@).take(i as int)),
        decreases pc@.len() - i,
    {
        let ghost before = names@;
        proof {
            assert(views(pc@).take(i + 1).drop_last() == views(pc@).take(i as int));
            assert(views(pc@).take(i + 1).last() == pc@[i as int]@);
        }
        let c = chars_of(pc[i].as_str());
        let named = !((c.len() == 1 && c[0] == '/') || (c.len() == 1 && c[0] == '.') || (c.len() == 2
            && c[0] == '.' && c[1] == '.'));
        proof {
            let t = pc@[i as int]@;
            if c.len() == 1 && c[0] == '/' {
                assert(t =~= seq!['/']);
            }
            if c.len() == 1 && c[0] == '.' {
                assert(t =~= seq!['.']);
            }
            if c.len() == 2 && c[0] == '.' && c[1] == '.' {
                assert(t =~= seq!['.', '.']);
            }
            if t == seq!['/'] || t == seq!['.'] {
                assert(t.len() == 1 && t[0] == c[0]);
            }
            if t == seq!['.', '.'] {
                assert(t.len() == 2 && t[0] == c[0] && t[1] == c[1]);
            }
        }
        if named {
            names.push(pc[i].clone());
            assert(views(names@) =~= views(before).push(pc@[i as int]@));
        } else {
            assert(views(names@) =~= views(before) + seq![]);
        }
        i += 1;
    }
    assert(views(pc@).take(pc@.len() as int) == views(pc@));
    names
}

/// Where a relative link inside an archive points, from the directory
/// `parent` that holds it; refuses one that is absolute or climbs out.
pub fn resolve_lexical_link(parent: &str, link: &str) -> (r: Result<String, WorkspaceError>)
    ensures
        match resolve_link_spec(parent@, link@) {
            Some(p) => r matches Ok(q) && q@ == p,
            None => r matches Err(WorkspaceError::InvalidArchive(m)) && m@ == escaping_link_message(),
        },
{
    let lv = chars_of(link);
    if lv.len() > 0 && lv[0] == '/' {
        return Err(invalid_archive("ZIP 包含越界符号链接。"));
    }
    let mut parts = names_of_path(parent);
    let lc = path_components(link);
    let ghost cs = views(lc@);
    let ghost start = views(parts@);
    let mut i: usize = 0;
    assert(cs.skip(0) =~= cs);
    while i < lc.len()
        invariant
            i <= lc@.len(),
            cs == views(lc@),
            cs == components(link@),
            start == names_of(components(parent@)),
            !(link@.len() > 0 && link@[0] == '/'),
            link_walk(start, cs) == link_walk(views(parts@), cs.skip(i as int)),
        decreases lc@.len() - i,
    {
        let ghost ps = views(parts@);
        proof {
            assert(cs.skip(i as int)[0] == lc@[i as int]@);
            assert(cs.skip(i as int).drop_first() =~= cs.skip(i + 1));
        }
        let c = chars_of(lc[i].as_str());
        if c.len() == 1 && c[0] == '.' {
            assert(c@ =~= seq!['.']);
        } else if c.len() == 2 && c[0] == '.' && c[1] == '.' {
            assert(c@ =~= seq!['.', '.']);
            if parts.len() == 0 {
                return Err(invalid_archive("ZIP 包含越界符号链接。"));
            }
            parts.pop();
            assert(views(parts@) =~= ps.drop_last());
        } else if c.len() == 1 && c[0] == '/' {
            assert(c@ =~= seq!['/']);
            return Err(invalid_archive("ZIP 包含越界符号链接。"));
        } else {
            proof {
                let t = c@;
                if t == seq!['/'] || t == seq!['.'] {
                    assert(t.len() == 1 && t[0] == c[0]);
                }
                if t == seq!['.', '.'] {
                    assert(t.len() == 2 && t[0] == c[0] && t[1] == c[1]);
                }
            }
            parts.push(lc[i].clone());
            assert(views(parts@) =~= ps.push(lc@[i as int]@));
        }
        i += 1;
    }
    proof {
        assert(cs.skip(lc@.len() as int) =~= Seq::<Seq<char>>::empty());
    }
    let sep = "/";
    proof {
        reveal_strlit("/");
        assert(sep@ =~= seq!['/']);
    }
    Ok(join_strings(&parts, sep))
}

/// One entry of a ZIP archive as the archive lists it: its name, its
/// unpacked size, whether it is a directory, and its Unix mode (zero when
/// it records none).
#[derive(Debug, Clone, PartialEq, Eq)]
pub struct ArchiveEntry {
    pub name: String,
    pub size: u64,
    pub is_dir: bool,
    pub unix_mode: u32,
}

/// One entry of an archive accepted for unpacking: its position in the
/// archive, where it goes, and whether it is a directory or a link.
#[derive(Debug, Clone, PartialEq, Eq)]
pub struct ExtractionEntry {
    pub index: usize,
    pub relative_path: String,
    pub is_directory: bool,
    pub is_symlink: bool,
}

/// A Unix mode of a symbolic link.
pub open spec fn is_link_mode(mode: u32) -> bool {
    mode & 0xf000u32 == 0xa000u32
}

/// Where the entry goes (meaningful when it is accepted).
pub open spec fn entry_target(e: ArchiveEntry) -> Seq<char> {
    match zip_entry_path_spec(e.name@) {
        Some(p) => p,
        None => seq![],
    }
}

/// The case-folded targets of the first `n` entries.
pub open spec fn archive_keys(es: Seq<ArchiveEntry>, n: int) -> Set<Seq<char>>
    decreases n,
{
    if n <= 0 || n > es.len() {
        Set::empty()
    } else {
        archive_keys(es, n - 1).insert(crate::similarity::lowercase(entry_target(es[n - 1])))
    }
}

/// The unpacked size of the first `n` entries, saturating.
pub open spec fn archive_total(es: Seq<ArchiveEntry>, n: int) -> u64
    decreases n,
{
    if n <= 0 || n > es.len() {
        0
    } else {
        let t = archive_total(es, n - 1);
        if t + es[n - 1].size > u64::MAX {
            u64::MAX
        } else {
            (t + es[n - 1].size) as u64
        }
    }
}

/// The problem of one entry, after the entries before it.
pub open spec fn entry_problem(e: ArchiveEntry, keys: Set<Seq<char>>, total: u64) -> Option<Seq<char>> {
    match zip_entry_path_spec(e.name@) {
        None => if zip_name_absolute(slashed(e.name@)) {
            Some("ZIP 包含绝对路径。"@)
        } else {
            Some("ZIP 包含路径穿越。"@)
        },
        Some(p) => if keys.contains(crate::similarity::lowercase(p)) {
            Some("ZIP 包含重复或大小写冲突路径。"@)
        } else if total + e.size > MAX_ZIP_UNCOMPRESSED_BYTES {
            Some("ZIP 解包后超过 100 MB 限制。"@)
        } else {
            None
        },
    }
}

/// The first problem among the first `n` entries.
pub open spec fn archive_problem(es: Seq<ArchiveEntry>, n: int) -> Option<Seq<char>>
    decreases n,
{
    if n <= 0 || n > es.len() {
        None
    } else {
        match archive_problem(es, n - 1) {
            Some(m) => Some(m),
            None => entry_problem(es[n - 1], archive_keys(es, n - 1), archive_total(es, n - 1)),
        }
    }
}

/// Some entry lies below a link entry other than itself.
pub open spec fn passes_through_link(es: Seq<ArchiveEntry>) -> bool {
    exists|i: int, j: int|
        0 <= i < es.len() && 0 <= j < es.len() && is_link_mode(es[j].unix_mode)
            && !crate::catalog::same_path(entry_target(es[i]), entry_target(es[j]))
            && crate::path::path_starts_with_spec(#[trigger] entry_target(es[i]), #[trigger] entry_target(es[j]))
}

/// The entry accepted for unpacking from the `i`th archive entry.
pub open spec fn extraction_of(e: ArchiveEntry, i: int, x: ExtractionEntry) -> bool {
    &&& x.index == i
    &&& x.relative_path@ == entry_target(e)
    &&& x.is_directory == e.is_dir
    &&& x.is_symlink == is_link_mode(e.unix_mode)
}

proof fn lemma_problem_persists(es: Seq<ArchiveEntry>, n: int, m: int)
    requires
        0 <= n <= m <= es.len(),
        archive_problem(es, n) is Some,
    ensures
        archive_problem(es, m) == archive_problem(es, n),
    decreases m - n,
{
    if n < m {
        lemma_problem_persists(es, n, m - 1);
    }
}

fn lower_key(p: &str) -> (r: String)
    ensures
        r@ == crate::similarity::lowercase(p@),
{
    crate::similarity::to_lowercase(p)
}

/// Checks the entries of an archive before anything is unpacked: at most
/// `MAX_ZIP_ENTRIES` of them, each with a safe relative name, no two the
/// same up to case, at most `MAX_ZIP_UNCOMPRESSED_BYTES` in all, and none
/// below a link. Gives where each entry goes.
pub fn check_archive_entries(entries: &Vec<ArchiveEntry>) -> (r: Result<Vec<ExtractionEntry>, WorkspaceError>)
    ensures
        entries@.len() > MAX_ZIP_ENTRIES ==> (r matches Err(WorkspaceError::InvalidArchive(m)) && m@
            == "ZIP 文件条目过多。"@),
        entries@.len() <= MAX_ZIP_ENTRIES ==> match archive_problem(entries@, entries@.len() as int) {
            Some(problem) => r matches Err(WorkspaceError::InvalidArchive(m)) && m@ == problem,
            None => if passes_through_link(entries@) {
                r matches Err(WorkspaceError::InvalidArchive(m)) && m@ == "ZIP 文件路径经过符号链接。"@
            } else {
                r matches Ok(v) && v@.len() == entries@.len() && forall|i: int|
                    0 <= i < v@.len() ==> extraction_of(entries@[i], i, #[trigger] v@[i])
            },
        },
{
    if entries.len() > MAX_ZIP_ENTRIES {
        return Err(invalid_archive("ZIP 文件条目过多。"));
    }
    let ghost es = entries@;
    let mut accepted: Vec<ExtractionEntry> = Vec::new();
    let mut keys: Vec<String> = Vec::new();
    let mut total: u64 = 0;
    let mut i: usize = 0;
    while i < entries.len()
        invariant
            i <= es.len(),
            es == entries@,
            es.len() <= MAX_ZIP_ENTRIES,
            archive_problem(es, i as int) is None,
            strictly_sorted_keys(views(keys@)),
            views(keys@).to_set() == archive_keys(es, i as int),
            total == archive_total(es, i as int),
            accepted@.len() == i,
            forall|k: int| 0 <= k < i ==> extraction_of(es[k], k, #[trigger] accepted@[k]),
        decreases es.len() - i,
    {
        let e = &entries[i];
        let path = match safe_zip_entry_path(e.name.as_str()) {
            Ok(p) => p,
            Err(error) => {
                proof {
                    lemma_problem_persists(es, i + 1, es.len() as int);
                }
                return Err(error);
            },
        };
        let key = lower_key(path.as_str());
        if crate::text::contains_text(&keys, key.as_str()) {
            proof {
                lemma_problem_persists(es, i + 1, es.len() as int);
            }
            return Err(invalid_archive("ZIP 包含重复或大小写冲突路径。"));
        }
        total = total.saturating_add(e.size);
        if total > MAX_ZIP_UNCOMPRESSED_BYTES {
            proof {
                lemma_problem_persists(es, i + 1, es.len() as int);
            }
            return Err(invalid_archive("ZIP 解包后超过 100 MB 限制。"));
        }
        crate::text::insert_sorted(&mut keys, key);
        let is_symlink = e.unix_mode & 0xf000u32 == 0xa000u32;
        accepted.push(ExtractionEntry { index: i, relative_path: path, is_directory: e.is_dir, is_symlink });
        i += 1;
    }
    let mut a: usize = 0;
    while a < accepted.len()
        invariant
            es == entries@,
            es.len() <= MAX_ZIP_ENTRIES,
            archive_problem(es, es.len() as int) is None,
            accepted@.len() == es.len(),
            a <= es.len(),
            forall|k: int| 0 <= k < es.len() ==> extraction_of(es[k], k, #[trigger] accepted@[k]),
            forall|x: int, y: int|
                0 <= x < a && 0 <= y < es.len() && is_link_mode(es[y].unix_mode) ==> !(!crate::catalog::same_path(
                    entry_target(es[x]),
                    entry_target(es[y]),
                ) && crate::path::path_starts_with_spec(#[trigger] entry_target(es[x]), #[trigger] entry_target(es[y]))),
        decreases es.len() - a,
    {
        let mut b: usize = 0;
        while b < accepted.len()
            invariant
                es == entries@,
                es.len() <= MAX_ZIP_ENTRIES,
                archive_problem(es, es.len() as int) is None,
                accepted@.len() == es.len(),
                a < es.len(),
                b <= es.len(),
                forall|k: int| 0 <= k < es.len() ==> extraction_of(es[k], k, #[trigger] accepted@[k]),
                forall|y: int|
                    0 <= y < b && is_link_mode(es[y].unix_mode) ==> !(!crate::catalog::same_path(
                        entry_target(es[a as int]),
                        entry_target(es[y]),
                    ) && crate::path::path_starts_with_spec(#[trigger] entry_target(es[a as int]), #[trigger] entry_target(es[y]))),
            decreases es.len() - b,
        {
            assert(extraction_of(es[a as int], a as int, accepted@[a as int]));
            assert(extraction_of(es[b as int], b as int, accepted@[b as int]));
            if accepted[b].is_symlink && !crate::catalog::paths_equal(
                accepted[a].relative_path.as_str(),
                accepted[b].relative_path.as_str(),
            ) && crate::path::path_starts_with(
                accepted[a].relative_path.as_str(),
                accepted[b].relative_path.as_str(),
            ) {
                proof {
                    assert(crate::path::path_starts_with_spec(
                        entry_target(es[a as int]),
                        entry_target(es[b as int]),
                    ));
                    assert(passes_through_link(es));
                }
                return Err(invalid_archive("ZIP 文件路径经过符号链接。"));
            }
            b += 1;
        }
        a += 1;
    }
    Ok(accepted)
}

/// Strictly increasing texts.
pub open spec fn strictly_sorted_keys(v: Seq<Seq<char>>) -> bool {
    crate::text::strictly_sorted(v)
}

/// The directory that holds an entry, empty at the top of the archive.
pub open spec fn entry_parent(p: Seq<char>) -> Seq<char> {
    match parent_spec(p) {
        Some(q) => q,
        None => seq![],
    }
}

/// Some accepted entry is the place a link points to or lies below it.
pub open spec fn link_lands(entries: Seq<ExtractionEntry>, resolved: Seq<char>) -> bool {
    exists|k: int|
        0 <= k < entries.len() && (crate::catalog::same_path(#[trigger] entries[k].relative_path@, resolved)
            || crate::path::path_starts_with_spec(entries[k].relative_path@, resolved))
}

/// Checks the target of the link entry `link` of an archive, given the bytes
/// it stores: they must be UTF-8 text naming a place inside the archive, one
/// of its entries or below one. Gives the text of the target.
pub fn check_link_target(entries: &Vec<ExtractionEntry>, link: &ExtractionEntry, bytes: &[u8]) -> (r:
    Result<String, WorkspaceError>)
    ensures
        !vstd::utf8::valid_utf8(bytes@) ==> (r matches Err(WorkspaceError::InvalidArchive(m)) && m@
            == "ZIP 符号链接目标不是 UTF-8 文本。"@),
        vstd::utf8::valid_utf8(bytes@) ==> {
            let text = vstd::utf8::decode_utf8(bytes@);
            match resolve_link_spec(entry_parent(link.relative_path@), text) {
                None => r matches Err(WorkspaceError::InvalidArchive(m)) && m@ == escaping_link_message(),
                Some(resolved) => if link_lands(entries@, resolved) {
                    r matches Ok(t) && t@ == text
                } else {
                    r matches Err(WorkspaceError::InvalidArchive(m)) && m@ == escaping_link_message()
                },
            }
        },
{
    let text = match crate::duplicate::utf8_text(bytes) {
        Some(t) => t,
        None => {
            return Err(invalid_archive("ZIP 符号链接目标不是 UTF-8 文本。"));
        },
    };
    let parent = match path_parent(link.relative_path.as_str()) {
        Some(p) => p,
        None => String::new(),
    };
    let resolved = resolve_lexical_link(parent.as_str(), text.as_str())?;
    let mut k: usize = 0;
    while k < entries.len()
        invariant
            k <= entries@.len(),
            vstd::utf8::valid_utf8(bytes@),
            text@ == vstd::utf8::decode_utf8(bytes@),
            resolve_link_spec(entry_parent(link.relative_path@), text@) == Some(resolved@),
            forall|j: int|
                0 <= j < k ==> !(crate::catalog::same_path(#[trigger] entries@[j].relative_path@, resolved@)
                    || crate::path::path_starts_with_spec(entries@[j].relative_path@, resolved@)),
        decreases entries@.len() - k,
    {
        if crate::catalog::paths_equal(entries[k].relative_path.as_str(), resolved.as_str())
            || crate::path::path_starts_with(entries[k].relative_path.as_str(), resolved.as_str()) {
            return Ok(text);
        }
        k += 1;
    }
    Err(invalid_archive("ZIP 包含越界符号链接。"))
}

/// The one Skill directory that an unpacked archive holds; refuses an
/// archive with none or several.
pub fn single_skill_directory(found: Vec<String>) -> (r: Result<String, WorkspaceError>)
    ensures
        found@.len() == 1 ==> r == Ok::<String, WorkspaceError>(found@[0]),
        found@.len() != 1 ==> (r matches Err(WorkspaceError::InvalidArchive(m)) && m@
            == "ZIP 必须且只能包含一个带 SKILL.md 的本地 Skill。"@),
{
    if found.len() != 1 {
        return Err(invalid_archive("ZIP 必须且只能包含一个带 SKILL.md 的本地 Skill。"));
    }
    let mut found = found;
    Ok(found.remove(0))
}

/// What the file system says about one selected instance, gathered before
/// planning: whether the directories above its catalog path are real ones,
/// what is at its link path, whether the directories above its target are
/// safe, how many files and bytes its source holds, the fingerprints of its
/// source and target, and whether the target exists.
#[derive(Debug)]
pub struct ItemObservation {
    pub source_guard_ok: bool,
    pub link_is_symlink: Result<bool, WorkspaceError>,
    pub target_check: Result<(), WorkspaceError>,
    pub impact: Result<(usize, u64), WorkspaceError>,
    pub source_fingerprint: Result<u64, WorkspaceError>,
    pub target_exists: bool,
    pub target_fingerprint: Result<u64, WorkspaceError>,
}

/// Why planning stopped.
pub enum PlanFailure {
    Unknown(Seq<char>),
    Root(Seq<char>),
    Operation(Seq<char>),
    UnsafePath,
    Observed(WorkspaceError),
}

/// The error `e` reports the failure `f`.
pub open spec fn failure_is(e: WorkspaceError, f: PlanFailure) -> bool {
    match f {
        PlanFailure::Unknown(id) => e matches WorkspaceError::UnknownInstance(m) && m@ == id,
        PlanFailure::Root(msg) => e matches WorkspaceError::InvalidRoot(m) && m@ == msg,
        PlanFailure::Operation(msg) => e matches WorkspaceError::InvalidFileOperation(m) && m@ == msg,
        PlanFailure::UnsafePath => e matches WorkspaceError::InvalidSkillPath(m) && m@
            == outside_skill_message(),
        PlanFailure::Observed(x) => e == x,
    }
}

/// A move or a trash.
pub open spec fn removes_source(kind: FileOperationKind) -> bool {
    kind == FileOperationKind::Move || kind == FileOperationKind::Trash
}

/// The message of a Skill that cannot be moved or trashed because it lies
/// under a linked directory.
pub open spec fn linked_skill_message(name: Seq<char>) -> Seq<char> {
    "Skill“"@ + name + "”位于符号链接目录下；为避免破坏共享真实目录，不能移动或删除。"@
}

/// The message of two selected Skills that would be written to one target.
pub open spec fn collision_message(target: Seq<char>) -> Seq<char> {
    "多个所选 Skill 会写入同一目标“"@ + target + "”；请拆分操作或只保留一个来源。"@
}

/// Where an operation reads an instance from: its path in the catalog, or,
/// when it was found through a link, the link itself when that is a link
/// and its real directory otherwise. A move or a trash refuses an instance
/// under a linked directory.
pub open spec fn source_outcome(
    instance: SkillInstance,
    kind: FileOperationKind,
    root_path: Seq<char>,
    o: ItemObservation,
) -> Result<Seq<char>, PlanFailure> {
    if !is_safe_relative(instance.relative_path@) {
        Err(PlanFailure::UnsafePath)
    } else if removes_source(kind) && !o.source_guard_ok {
        Err(PlanFailure::Operation(linked_skill_message(instance.name@)))
    } else {
        match instance.link_path {
            None => Ok(path_join_spec(root_path, instance.relative_path@)),
            Some(link) => match o.link_is_symlink {
                Err(e) => Err(PlanFailure::Observed(e)),
                Ok(true) => Ok(link@),
                Ok(false) => if removes_source(kind) {
                    Err(PlanFailure::Operation(linked_skill_message(instance.name@)))
                } else {
                    Ok(instance.real_path@)
                },
            },
        }
    }
}

/// The checks before any item: a ZIP import is planned elsewhere, something
/// must be selected, a named target root must exist, and a copy or a move
/// needs one.
pub open spec fn opening(request: FileOperationRequest, snapshot: WorkspaceSnapshot) -> Result<
    Option<SkillRoot>,
    PlanFailure,
> {
    if request.kind == FileOperationKind::Import {
        Err(PlanFailure::Operation("ZIP 导入必须通过 ZIP 预览创建计划。"@))
    } else if request.instance_ids@.len() == 0 {
        Err(PlanFailure::Operation("至少选择一个 Skill 实例。"@))
    } else {
        let target = match request.target_root_id {
            Some(id) => match crate::detail::found_root(snapshot.roots@, id) {
                Some(r) => Ok(Some(r)),
                None => Err(PlanFailure::Root("找不到目标 Skill 根目录。"@)),
            },
            None => Ok(None),
        };
        match target {
            Err(f) => Err(f),
            Ok(t) => if (request.kind == FileOperationKind::Copy || request.kind
                == FileOperationKind::Move) && t is None {
                Err(PlanFailure::Operation("复制或移动必须选择目标 Skill 根目录。"@))
            } else {
                Ok(t)
            },
        }
    }
}

/// Where an instance goes under the target root.
pub open spec fn item_target(target_root: Option<SkillRoot>, instance: SkillInstance) -> Option<Seq<char>> {
    match target_root {
        Some(t) => Some(path_join_spec(t.path@, instance.relative_path@)),
        None => None,
    }
}

/// The state of planning: the ids handled, the case-folded targets taken,
/// and for each planned item its request position, instance, source root,
/// source and target.
pub open spec fn plan_state(
    request: FileOperationRequest,
    snapshot: WorkspaceSnapshot,
    target_root: Option<SkillRoot>,
    obs: Seq<ItemObservation>,
    n: int,
) -> Result<
    (Set<Seq<char>>, Set<Seq<char>>, Seq<(int, SkillInstance, SkillRoot, Seq<char>, Option<Seq<char>>)>),
    PlanFailure,
>
    decreases n,
{
    if n <= 0 || n > request.instance_ids@.len() {
        Ok((Set::empty(), Set::empty(), seq![]))
    } else {
        match plan_state(request, snapshot, target_root, obs, n - 1) {
            Err(f) => Err(f),
            Ok((seen, targets, picks)) => {
                let id = request.instance_ids@[n - 1]@;
                let o = obs[n - 1];
                if seen.contains(id) {
                    Ok((seen, targets, picks))
                } else {
                    match crate::detail::found_instance(snapshot.instances@, id) {
                        None => Err(PlanFailure::Unknown(id)),
                        Some(instance) => match crate::detail::found_root(snapshot.roots@, instance.root_id) {
                            None => Err(PlanFailure::Root("找不到来源 Skill 根目录。"@)),
                            Some(source_root) => if target_root matches Some(t) && t.id == instance.root_id {
                                Err(PlanFailure::Operation("来源与目标 Skill 根目录不能相同。"@))
                            } else {
                                match source_outcome(instance, request.kind, source_root.path@, o) {
                                    Err(f) => Err(f),
                                    Ok(source) => {
                                        let target = item_target(target_root, instance);
                                        let checked = match target {
                                            Some(tp) => match o.target_check {
                                                Err(e) => Err(PlanFailure::Observed(e)),
                                                Ok(_) => if targets.contains(crate::similarity::lowercase(tp)) {
                                                    Err(PlanFailure::Operation(collision_message(tp)))
                                                } else {
                                                    Ok(targets.insert(crate::similarity::lowercase(tp)))
                                                },
                                            },
                                            None => Ok(targets),
                                        };
                                        match checked {
                                            Err(f) => Err(f),
                                            Ok(new_targets) => match o.impact {
                                                Err(e) => Err(PlanFailure::Observed(e)),
                                                Ok(_) => match o.source_fingerprint {
                                                    Err(e) => Err(PlanFailure::Observed(e)),
                                                    Ok(_) => if target is Some && o.target_exists
                                                        && o.target_fingerprint is Err {
                                                        Err(PlanFailure::Observed(o.target_fingerprint->Err_0))
                                                    } else {
                                                        Ok(
                                                            (
                                                                seen.insert(id),
                                                                new_targets,
                                                                picks.push(
                                                                    (n - 1, instance, source_root, source, target),
                                                                ),
                                                            ),
                                                        )
                                                    },
                                                },
                                            },
                                        }
                                    },
                                }
                            },
                        },
                    }
                }
            },
        }
    }
}

/// The case-folded targets of the planned items.
pub open spec fn picked_targets(
    picks: Seq<(int, SkillInstance, SkillRoot, Seq<char>, Option<Seq<char>>)>,
) -> Set<Seq<char>>
    decreases picks.len(),
{
    if picks.len() == 0 {
        Set::empty()
    } else {
        let rest = picked_targets(picks.drop_last());
        match picks.last().4 {
            Some(t) => rest.insert(crate::similarity::lowercase(t)),
            None => rest,
        }
    }
}

/// The ids of the planned instances.
pub open spec fn picked_ids(
    picks: Seq<(int, SkillInstance, SkillRoot, Seq<char>, Option<Seq<char>>)>,
) -> Set<Seq<char>>
    decreases picks.len(),
{
    if picks.len() == 0 {
        Set::empty()
    } else {
        picked_ids(picks.drop_last()).insert(picks.last().1.id@)
    }
}

proof fn lemma_plan_state_sets(
    request: FileOperationRequest,
    snapshot: WorkspaceSnapshot,
    target_root: Option<SkillRoot>,
    obs: Seq<ItemObservation>,
    n: int,
)
    requires
        0 <= n <= request.instance_ids@.len(),
        plan_state(request, snapshot, target_root, obs, n) is Ok,
    ensures
        ({
            let state = plan_state(request, snapshot, target_root, obs, n)->Ok_0;
            &&& state.1 == picked_targets(state.2)
            &&& state.0.subset_of(picked_ids(state.2)) && picked_ids(state.2).subset_of(state.0)
            &&& forall|i: int, j: int|
                0 <= i < j < state.2.len() ==> (#[trigger] state.2[i]).1.id@ != (#[trigger] state.2[j]).1.id@
            &&& forall|i: int, j: int|
                0 <= i < j < state.2.len() && state.2[i].4 is Some && state.2[j].4 is Some
                    ==> crate::similarity::lowercase((#[trigger] state.2[i]).4->0)
                    != crate::similarity::lowercase((#[trigger] state.2[j]).4->0)
        }),
    decreases n,
{
    if n > 0 {
        lemma_plan_state_sets(request, snapshot, target_root, obs, n - 1);
        let prev = plan_state(request, snapshot, target_root, obs, n - 1)->Ok_0;
        let state = plan_state(request, snapshot, target_root, obs, n)->Ok_0;
        if state.2.len() > prev.2.len() {
            let last = state.2.last();
            assert(state.2.drop_last() == prev.2);
            assert forall|i: int| 0 <= i < prev.2.len() implies (#[trigger] prev.2[i]).1.id@ != last.1.id@ by {
                assert(picked_ids(prev.2).contains(prev.2[i].1.id@)) by {
                    lemma_picked_ids_contains(prev.2, i);
                }
            }
            assert forall|i: int|
                0 <= i < prev.2.len() && prev.2[i].4 is Some && last.4 is Some implies crate::similarity::lowercase(
                (#[trigger] prev.2[i]).4->0,
            ) != crate::similarity::lowercase(last.4->0) by {
                lemma_picked_targets_contains(prev.2, i);
            }
            assert(state.0 =~= prev.0.insert(last.1.id@));
        } else {
            assert(state == prev);
        }
    } else {
        assert(picked_targets(seq![]) =~= Set::<Seq<char>>::empty());
    }
}

proof fn lemma_picked_ids_contains(
    picks: Seq<(int, SkillInstance, SkillRoot, Seq<char>, Option<Seq<char>>)>,
    i: int,
)
    requires
        0 <= i < picks.len(),
    ensures
        picked_ids(picks).contains(picks[i].1.id@),
    decreases picks.len(),
{
    if i < picks.len() - 1 {
        lemma_picked_ids_contains(picks.drop_last(), i);
    }
}

proof fn lemma_picked_targets_contains(
    picks: Seq<(int, SkillInstance, SkillRoot, Seq<char>, Option<Seq<char>>)>,
    i: int,
)
    requires
        0 <= i < picks.len(),
        picks[i].4 is Some,
    ensures
        picked_targets(picks).contains(crate::similarity::lowercase(picks[i].4->0)),
    decreases picks.len(),
{
    if i < picks.len() - 1 {
        lemma_picked_targets_contains(picks.drop_last(), i);
    }
}

/// A plan never names one instance twice, and never sends two items to
/// targets that are the same up to case.
pub proof fn planned_items_are_distinct(
    request: FileOperationRequest,
    snapshot: WorkspaceSnapshot,
    target_root: Option<SkillRoot>,
    obs: Seq<ItemObservation>,
)
    requires
        plan_state(request, snapshot, target_root, obs, request.instance_ids@.len() as int) is Ok,
    ensures
        ({
            let picks = plan_state(request, snapshot, target_root, obs, request.instance_ids@.len() as int)->Ok_0.2;
            &&& forall|i: int, j: int|
                0 <= i < j < picks.len() ==> (#[trigger] picks[i]).1.id@ != (#[trigger] picks[j]).1.id@
            &&& forall|i: int, j: int|
                0 <= i < j < picks.len() && picks[i].4 is Some && picks[j].4 is Some
                    ==> crate::similarity::lowercase((#[trigger] picks[i]).4->0)
                    != crate::similarity::lowercase((#[trigger] picks[j]).4->0)
        }),
{
    lemma_plan_state_sets(request, snapshot, target_root, obs, request.instance_ids@.len() as int);
}

/// A stored item describes the planned move of `instance` from `source` to
/// `target`, with what was observed of it.
pub open spec fn item_holds(
    item: PendingFileOperationItem,
    instance: SkillInstance,
    source_root: SkillRoot,
    target_root: Option<SkillRoot>,
    source: Seq<char>,
    target: Option<Seq<char>>,
    o: ItemObservation,
) -> bool {
    &&& item.instance_id == Some(instance.id)
    &&& item.source_root_id == Some(instance.root_id)
    &&& item.source_root == Some(source_root.path)
    &&& item.source_relative_path == Some(instance.relative_path)
    &&& item.target_root_id == (match target_root {
        Some(t) => Some(t.id),
        None => None,
    })
    &&& item.target_root == (match target_root {
        Some(t) => Some(t.path),
        None => None,
    })
    &&& item.target_relative_path == (match target_root {
        Some(_) => Some(instance.relative_path),
        None => None,
    })
    &&& item.source@ == source
    &&& crate::catalog::opt_view(item.target) == target
    &&& o.impact matches Ok((count, size)) && item.file_count == count && item.total_size == size
    &&& o.source_fingerprint matches Ok(f) && item.source_fingerprint == f
    &&& item.conflict == (target is Some && o.target_exists)
    &&& item.target_fingerprint == (if target is Some && o.target_exists {
        Some(o.target_fingerprint->Ok_0)
    } else {
        None
    })
}

fn linked_skill_error(name: &str) -> (e: WorkspaceError)
    ensures
        e matches WorkspaceError::InvalidFileOperation(m) && m@ == linked_skill_message(name@),
{
    WorkspaceError::InvalidFileOperation(
        crate::text::concat3("Skill“", name, "”位于符号链接目录下；为避免破坏共享真实目录，不能移动或删除。"),
    )
}

/// Where an operation reads an instance from (`operation_source_path`),
/// given what the file system says about its catalog path and link path.
pub fn operation_source_path(
    instance: &SkillInstance,
    kind: FileOperationKind,
    root_path: &str,
    observation: &ItemObservation,
) -> (r: Result<String, WorkspaceError>)
    ensures
        match source_outcome(*instance, kind, root_path@, *observation) {
            Ok(p) => r matches Ok(q) && q@ == p,
            Err(f) => r matches Err(e) && failure_is(e, f),
        },
{
    let relative = safe_relative_path(instance.relative_path.as_str())?;
    let removes = match kind {
        FileOperationKind::Move | FileOperationKind::Trash => true,
        _ => false,
    };
    if removes && !observation.source_guard_ok {
        return Err(linked_skill_error(instance.name.as_str()));
    }
    match &instance.link_path {
        None => Ok(path_join(root_path, relative.as_str())),
        Some(link) => match &observation.link_is_symlink {
            Err(e) => Err(e.copy()),
            Ok(true) => Ok(link.clone()),
            Ok(false) => if removes {
                Err(linked_skill_error(instance.name.as_str()))
            } else {
                Ok(instance.real_path.clone())
            },
        },
    }
}

fn open_plan(request: &FileOperationRequest, snapshot: &WorkspaceSnapshot) -> (r: Result<Option<SkillRoot>, WorkspaceError>)
    ensures
        match opening(*request, *snapshot) {
            Ok(t) => r == Ok::<Option<SkillRoot>, WorkspaceError>(t),
            Err(f) => r matches Err(e) && failure_is(e, f),
        },
{
    match request.kind {
        FileOperationKind::Import => {
            return Err(invalid_operation("ZIP 导入必须通过 ZIP 预览创建计划。"));
        },
        _ => {},
    }
    if request.instance_ids.len() == 0 {
        return Err(invalid_operation("至少选择一个 Skill 实例。"));
    }
    let target = match request.target_root_id {
        Some(id) => match crate::detail::find_root(&snapshot.roots, id) {
            Some(r) => Some(r),
            None => {
                return Err(WorkspaceError::InvalidRoot("找不到目标 Skill 根目录。".to_owned()));
            },
        },
        None => None,
    };
    let needs_target = match request.kind {
        FileOperationKind::Copy | FileOperationKind::Move => true,
        _ => false,
    };
    if needs_target && target.is_none() {
        return Err(invalid_operation("复制或移动必须选择目标 Skill 根目录。"));
    }
    Ok(target)
}

proof fn lemma_plan_failure_persists(
    request: FileOperationRequest,
    snapshot: WorkspaceSnapshot,
    target_root: Option<SkillRoot>,
    obs: Seq<ItemObservation>,
    n: int,
    m: int,
)
    requires
        0 <= n <= m <= request.instance_ids@.len(),
        plan_state(request, snapshot, target_root, obs, n) is Err,
    ensures
        plan_state(request, snapshot, target_root, obs, m) == plan_state(request, snapshot, target_root, obs, n),
    decreases m - n,
{
    if n < m {
        lemma_plan_failure_persists(request, snapshot, target_root, obs, n, m - 1);
    }
}

impl SkillWorkspace {
    /// Plans copying, moving or trashing the selected instances, given the
    /// catalog `snapshot` and, for each selected id in order, what the file
    /// system says about it. Each instance is planned once, from the
    /// source its catalog entry names to the same relative path under the
    /// target root; the plan is refused for an unknown instance or root, a
    /// source and target in the same root, a linked Skill that would be
    /// moved or trashed, or two Skills bound for one target.
    pub fn plan_file_operations(
        &self,
        request: &FileOperationRequest,
        snapshot: &WorkspaceSnapshot,
        observations: &Vec<ItemObservation>,
    ) -> (r: Result<PendingFileOperationPlan, WorkspaceError>)
        requires
            observations@.len() == request.instance_ids@.len(),
        ensures
            match opening(*request, *snapshot) {
                Err(f) => r matches Err(e) && failure_is(e, f),
                Ok(t) => match plan_state(
                    *request,
                    *snapshot,
                    t,
                    observations@,
                    request.instance_ids@.len() as int,
                ) {
                    Err(f) => r matches Err(e) && failure_is(e, f),
                    Ok(state) => r matches Ok(p) && {
                        &&& p.kind == request.kind
                        &&& p.conflict_policy == request.conflict_policy
                        &&& p.staging_root is None
                        &&& p.items@.len() == state.2.len()
                        &&& forall|j: int|
                            0 <= j < p.items@.len() ==> item_holds(
                                #[trigger] p.items@[j],
                                state.2[j].1,
                                state.2[j].2,
                                t,
                                state.2[j].3,
                                state.2[j].4,
                                observations@[state.2[j].0],
                            )
                    },
                },
            },
    {
        let target_root = open_plan(request, snapshot)?;
        let ghost obs = observations@;
        let ghost req = *request;
        let ghost snap = *snapshot;
        let ghost mut picks: Seq<(int, SkillInstance, SkillRoot, Seq<char>, Option<Seq<char>>)> = seq![];
        let mut seen: Vec<String> = Vec::new();
        let mut targets: Vec<String> = Vec::new();
        let mut items: Vec<PendingFileOperationItem> = Vec::new();
        proof {
            assert(views(seen@).to_set() =~= Set::<Seq<char>>::empty());
            assert(views(targets@).to_set() =~= Set::<Seq<char>>::empty());
        }
        let mut i: usize = 0;
        while i < request.instance_ids.len()
            invariant
                i <= req.instance_ids@.len(),
                req == *request,
                snap == *snapshot,
                obs == observations@,
                obs.len() == req.instance_ids@.len(),
                opening(req, snap) == Ok::<Option<SkillRoot>, PlanFailure>(target_root),
                crate::text::strictly_sorted(views(seen@)),
                crate::text::strictly_sorted(views(targets@)),
                plan_state(req, snap, target_root, obs, i as int) == Ok::<
                    (Set<Seq<char>>, Set<Seq<char>>, Seq<(int, SkillInstance, SkillRoot, Seq<char>, Option<Seq<char>>)>),
                    PlanFailure,
                >((views(seen@).to_set(), views(targets@).to_set(), picks)),
                items@.len() == picks.len(),
                forall|j: int|
                    0 <= j < items@.len() ==> item_holds(
                        #[trigger] items@[j],
                        picks[j].1,
                        picks[j].2,
                        target_root,
                        picks[j].3,
                        picks[j].4,
                        obs[picks[j].0],
                    ),
            decreases req.instance_ids@.len() - i,
        {
            let id = &request.instance_ids[i];
            let o = &observations[i];
            if !crate::text::contains_text(&seen, id.as_str()) {
                let instance = match crate::detail::find_instance(&snapshot.instances, id.as_str()) {
                    Some(x) => x,
                    None => {
                        proof {
                            lemma_plan_failure_persists(req, snap, target_root, obs, i + 1, obs.len() as int);
                        }
                        return Err(WorkspaceError::UnknownInstance(id.clone()));
                    },
                };
                let source_root = match crate::detail::find_root(&snapshot.roots, instance.root_id) {
                    Some(x) => x,
                    None => {
                        proof {
                            lemma_plan_failure_persists(req, snap, target_root, obs, i + 1, obs.len() as int);
                        }
                        return Err(WorkspaceError::InvalidRoot("找不到来源 Skill 根目录。".to_owned()));
                    },
                };
                let same_root = match &target_root {
                    Some(t) => t.id == instance.root_id,
                    None => false,
                };
                if same_root {
                    proof {
                        lemma_plan_failure_persists(req, snap, target_root, obs, i + 1, obs.len() as int);
                    }
                    return Err(invalid_operation("来源与目标 Skill 根目录不能相同。"));
                }
                let source = match operation_source_path(&instance, request.kind, source_root.path.as_str(), o) {
                    Ok(p) => p,
                    Err(e) => {
                        proof {
                            lemma_plan_failure_persists(req, snap, target_root, obs, i + 1, obs.len() as int);
                        }
                        return Err(e);
                    },
                };
                let target: Option<String> = match &target_root {
                    Some(t) => Some(path_join(t.path.as_str(), instance.relative_path.as_str())),
                    None => None,
                };
                let ghost targets_before = views(targets@).to_set();
                match &target {
                    Some(tp) => {
                        match &o.target_check {
                            Err(e) => {
                                proof {
                                    lemma_plan_failure_persists(req, snap, target_root, obs, i + 1, obs.len() as int);
                                }
                                return Err(e.copy());
                            },
                            Ok(_) => {},
                        }
                        let key = lower_key(tp.as_str());
                        if crate::text::contains_text(&targets, key.as_str()) {
                            proof {
                                lemma_plan_failure_persists(req, snap, target_root, obs, i + 1, obs.len() as int);
                            }
                            return Err(
                                WorkspaceError::InvalidFileOperation(
                                    crate::text::concat3(
                                        "多个所选 Skill 会写入同一目标“",
                                        tp.as_str(),
                                        "”；请拆分操作或只保留一个来源。",
                                    ),
                                ),
                            );
                        }
                        crate::text::insert_sorted(&mut targets, key);
                    },
                    None => {},
                }
                let (count, size) = match &o.impact {
                    Ok((c, s)) => (*c, *s),
                    Err(e) => {
                        proof {
                            lemma_plan_failure_persists(req, snap, target_root, obs, i + 1, obs.len() as int);
                        }
                        return Err(e.copy());
                    },
                };
                let source_fingerprint = match &o.source_fingerprint {
                    Ok(f) => *f,
                    Err(e) => {
                        proof {
                            lemma_plan_failure_persists(req, snap, target_root, obs, i + 1, obs.len() as int);
                        }
                        return Err(e.copy());
                    },
                };
                let conflict = target.is_some() && o.target_exists;
                let target_fingerprint = if conflict {
                    match &o.target_fingerprint {
                        Ok(f) => Some(*f),
                        Err(e) => {
                            proof {
                                lemma_plan_failure_persists(req, snap, target_root, obs, i + 1, obs.len() as int);
                            }
                            return Err(e.copy());
                        },
                    }
                } else {
                    None
                };
                crate::text::insert_sorted(&mut seen, id.clone());
                let ghost pick = (i as int, instance, source_root, source@, crate::catalog::opt_view(target));
                let item = PendingFileOperationItem {
                    instance_id: Some(instance.id.clone()),
                    source_root_id: Some(instance.root_id),
                    source_root: Some(source_root.path.clone()),
                    source_relative_path: Some(instance.relative_path.clone()),
                    target_root_id: match &target_root {
                        Some(t) => Some(t.id),
                        None => None,
                    },
                    target_root: match &target_root {
                        Some(t) => Some(t.path.clone()),
                        None => None,
                    },
                    target_relative_path: match &target_root {
                        Some(_) => Some(instance.relative_path.clone()),
                        None => None,
                    },
                    source,
                    target,
                    source_fingerprint,
                    target_fingerprint,
                    conflict,
                    file_count: count,
                    total_size: size,
                };
                items.push(item);
                proof {
                    picks = picks.push(pick);
                }
            }
            i += 1;
        }
        Ok(
            PendingFileOperationPlan {
                kind: request.kind,
                conflict_policy: request.conflict_policy,
                items,
                staging_root: None,
            },
        )
    }
}

/// The names of the directories between `root` and `target`, when
/// `target` lies under `root` (the parent of `target` relative to `root`).
pub open spec fn ancestor_names(root: Seq<char>, target: Seq<char>) -> Option<Seq<Seq<char>>> {
    if is_prefix_of(components(root), components(target)) {
        let rel = components(target).skip(components(root).len() as int);
        Some(
            if rel.len() == 0 {
                seq![]
            } else {
                rel.drop_last()
            },
        )
    } else {
        None
    }
}

/// How many of the names come before the first one that is not a name.
pub open spec fn named_prefix_len(names: Seq<Seq<char>>) -> int
    decreases names.len(),
{
    if names.len() == 0 || !is_name(names[0]) {
        0
    } else {
        1 + named_prefix_len(names.drop_first())
    }
}

/// The directories reached from `base` by descending through `names`.
pub open spec fn descend(base: Seq<char>, names: Seq<Seq<char>>) -> Seq<Seq<char>>
    decreases names.len(),
{
    if names.len() == 0 {
        seq![]
    } else {
        let next = path_join_spec(base, names[0]);
        seq![next] + descend(next, names.drop_first())
    }
}

/// The directories that lead from `root` down to `target`, as far as they
/// are names, and whether a component that is not a name follows them.
#[derive(Debug, Clone, PartialEq, Eq)]
pub struct AncestorChain {
    pub directories: Vec<String>,
    pub unsafe_component: bool,
}

/// The directories to check between `root` and `target` before writing
/// `target`; refuses a target outside `root`.
pub fn ancestor_chain(root: &str, target: &str) -> (r: Result<AncestorChain, WorkspaceError>)
    ensures
        match ancestor_names(root@, target@) {
            None => r matches Err(WorkspaceError::InvalidFileOperation(m)) && m@ == "目标路径超出 Skill 根目录。"@,
            Some(names) => r matches Ok(c) && views(c.directories@) == descend(
                root@,
                names.take(named_prefix_len(names)),
            ) && c.unsafe_component == (named_prefix_len(names) < names.len()),
        },
{
    let rc = path_components(root);
    let tc = path_components(target);
    if !crate::path::components_equal_prefix(&rc, &tc) {
        return Err(invalid_operation("目标路径超出 Skill 根目录。"));
    }
    let ghost names = ancestor_names(root@, target@)->0;
    let end: usize = if tc.len() > rc.len() {
        tc.len() - 1
    } else {
        rc.len()
    };
    proof {
        assert(names =~= views(tc@).subrange(rc@.len() as int, end as int));
    }
    let mut directories: Vec<String> = Vec::new();
    let mut current = copy_text(root);
    let mut i: usize = rc.len();
    let ghost mut base = root@;
    proof {
        assert(names.skip(0) =~= names);
        lemma_named_prefix_bounds(names);
    }
    while i < end
        invariant
            rc@.len() <= i <= end <= tc@.len(),
            names == views(tc@).subrange(rc@.len() as int, end as int),
            ancestor_names(root@, target@) == Some(names),
            current@ == base,
            forall|k: int| 0 <= k < i - rc@.len() ==> is_name(#[trigger] names[k]),
            descend(root@, names.take(named_prefix_len(names))) == views(directories@) + descend(
                base,
                names.skip(i - rc@.len()).take(named_prefix_len(names.skip(i - rc@.len()))),
            ),
            named_prefix_len(names) == (i - rc@.len()) + named_prefix_len(names.skip(i - rc@.len())),
        decreases end - i,
    {
        let k: usize = i - rc.len();
        let c = chars_of(tc[i].as_str());
        let named = !((c.len() == 1 && c[0] == '/') || (c.len() == 1 && c[0] == '.') || (c.len() == 2
            && c[0] == '.' && c[1] == '.'));
        let ghost rest = names.skip(k as int);
        proof {
            assert(rest[0] == tc@[i as int]@);
            let t = tc@[i as int]@;
            assert(c@ == t);
            if c.len() == 1 && c[0] == '/' {
                assert(t =~= seq!['/']);
            }
            if c.len() == 1 && c[0] == '.' {
                assert(t =~= seq!['.']);
            }
            if c.len() == 2 && c[0] == '.' && c[1] == '.' {
                assert(t =~= seq!['.', '.']);
            }
            if t == seq!['/'] || t == seq!['.'] {
                assert(t.len() == 1 && t[0] == c[0]);
            }
            if t == seq!['.', '.'] {
                assert(t.len() == 2 && t[0] == c[0] && t[1] == c[1]);
            }
            assert(named == is_name(t));
            assert(rest.drop_first() =~= names.skip(k + 1));
        }
        if !named {
            proof {
                assert(rest.len() > 0);
                assert(named_prefix_len(rest) == 0);
                assert(rest.take(0) =~= Seq::<Seq<char>>::empty());
                assert(views(directories@) + descend(base, rest.take(0)) =~= views(directories@));
            }
            return Ok(AncestorChain { directories, unsafe_component: true });
        }
        let next = path_join(current.as_str(), tc[i].as_str());
        proof {
            assert(rest.len() > 0);
            lemma_named_prefix_bounds(rest.drop_first());
            assert(named_prefix_len(rest) == 1 + named_prefix_len(rest.drop_first()));
            assert(rest.take(named_prefix_len(rest)).drop_first() =~= rest.drop_first().take(
                named_prefix_len(rest.drop_first()),
            ));
            assert(rest.take(named_prefix_len(rest))[0] == rest[0]);
        }
        let ghost dirs_before = views(directories@);
        directories.push(copy_text(next.as_str()));
        proof {
            assert(views(directories@) =~= dirs_before.push(next@));
            assert(descend(base, rest.take(named_prefix_len(rest))) =~= seq![next@] + descend(
                next@,
                rest.drop_first().take(named_prefix_len(rest.drop_first())),
            ));
            base = next@;
        }
        current = next;
        i += 1;
    }
    proof {
        assert(names.skip(end - rc@.len()) =~= Seq::<Seq<char>>::empty());
        assert(names.skip(end - rc@.len()).take(0) =~= Seq::<Seq<char>>::empty());
        assert(views(directories@) + descend(base, seq![]) =~= views(directories@));
    }
    Ok(AncestorChain { directories, unsafe_component: false })
}

fn copy_text(s: &str) -> (r: String)
    ensures
        r@ == s@,
{
    s.to_owned()
}

proof fn lemma_named_prefix_bounds(names: Seq<Seq<char>>)
    ensures
        0 <= named_prefix_len(names) <= names.len(),
    decreases names.len(),
{
    if names.len() > 0 && is_name(names[0]) {
        lemma_named_prefix_bounds(names.drop_first());
    }
}

/// What is at a path, as `symlink_metadata` tells it.
#[derive(Debug, Clone, Copy, PartialEq, Eq)]
pub enum EntryState {
    Missing,
    Symlink,
    Directory,
    Other,
}

/// What to do at one directory on the way to a target.
#[derive(Debug, Clone, Copy, PartialEq, Eq)]
pub enum AncestorStep {
    Continue,
    Create,
}

/// Checks the root a target is written under: it must be a real directory.
pub fn check_target_root(state: EntryState) -> (r: Result<(), WorkspaceError>)
    ensures
        r is Ok <==> state == EntryState::Directory,
        r matches Err(e) ==> (e matches WorkspaceError::InvalidFileOperation(m) && m@
            == "目标 Skill 根目录不是安全的真实目录。"@),
{
    match state {
        EntryState::Directory => Ok(()),
        _ => Err(invalid_operation("目标 Skill 根目录不是安全的真实目录。")),
    }
}

/// What to do at the directory `path` on the way to a target: a link or
/// something other than a directory is refused, a missing one is created
/// when asked for.
pub fn ancestor_verdict(path: &str, state: EntryState, create_missing: bool) -> (r: Result<AncestorStep, WorkspaceError>)
    ensures
        state == EntryState::Symlink ==> (r matches Err(WorkspaceError::InvalidFileOperation(m)) && m@
            == "目标路径经过符号链接目录“"@ + path@ + "”，已拒绝操作。"@),
        state == EntryState::Other ==> (r matches Err(WorkspaceError::InvalidFileOperation(m)) && m@
            == "目标路径的父级不是目录：“"@ + path@ + "”。"@),
        state == EntryState::Directory ==> r == Ok::<AncestorStep, WorkspaceError>(AncestorStep::Continue),
        state == EntryState::Missing ==> r == Ok::<AncestorStep, WorkspaceError>(
            if create_missing {
                AncestorStep::Create
            } else {
                AncestorStep::Continue
            },
        ),
{
    match state {
        EntryState::Symlink => Err(
            WorkspaceError::InvalidFileOperation(
                crate::text::concat3("目标路径经过符号链接目录“", path, "”，已拒绝操作。"),
            ),
        ),
        EntryState::Other => Err(
            WorkspaceError::InvalidFileOperation(
                crate::text::concat3("目标路径的父级不是目录：“", path, "”。"),
            ),
        ),
        EntryState::Directory => Ok(AncestorStep::Continue),
        EntryState::Missing => Ok(
            if create_missing {
                AncestorStep::Create
            } else {
                AncestorStep::Continue
            },
        ),
    }
}

/// Checks a directory just created on the way to a target: it must be a
/// real directory, or something replaced it.
pub fn check_created_ancestor(state: EntryState) -> (r: Result<(), WorkspaceError>)
    ensures
        r is Ok <==> state == EntryState::Directory,
        r matches Err(e) ==> (e matches WorkspaceError::InvalidFileOperation(m) && m@
            == "创建目标父目录时检测到路径被替换，已取消操作。"@),
{
    match state {
        EntryState::Directory => Ok(()),
        _ => Err(invalid_operation("创建目标父目录时检测到路径被替换，已取消操作。")),
    }
}

/// The message of a path below the target root that is not a plain name.
pub fn unsafe_component_error() -> (e: WorkspaceError)
    ensures
        e matches WorkspaceError::InvalidFileOperation(m) && m@ == "目标路径包含不安全的目录片段。"@,
{
    invalid_operation("目标路径包含不安全的目录片段。")
}

impl SkillWorkspace {
    /// Where a ZIP import goes: its relative path, which must be safe, under
    /// its target root, which must be in the catalog `snapshot`.
    pub fn zip_import_target(&self, request: &ZipImportRequest, snapshot: &WorkspaceSnapshot) -> (r: Result<
        (SkillRoot, String),
        WorkspaceError,
    >)
        ensures
            !is_safe_relative(request.relative_path@) ==> (r matches Err(WorkspaceError::InvalidSkillPath(m))
                && m@ == outside_skill_message()),
            is_safe_relative(request.relative_path@) ==> match crate::detail::found_root(
                snapshot.roots@,
                request.target_root_id,
            ) {
                None => r matches Err(WorkspaceError::InvalidRoot(m)) && m@ == "找不到目标 Skill 根目录。"@,
                Some(root) => r matches Ok((x, t)) && x == root && t@ == path_join_spec(
                    root.path@,
                    request.relative_path@,
                ),
            },
    {
        let relative = safe_relative_path(request.relative_path.as_str())?;
        match crate::detail::find_root(&snapshot.roots, request.target_root_id) {
            None => Err(WorkspaceError::InvalidRoot("找不到目标 Skill 根目录。".to_owned())),
            Some(root) => {
                let target = path_join(root.path.as_str(), relative.as_str());
                Ok((root, target))
            },
        }
    }
}

/// The stored plan of a ZIP import: one item from the unpacked Skill
/// `extracted` to `target` under `root`, kept with its staging directory.
pub fn zip_import_pending(
    request: &ZipImportRequest,
    root: &SkillRoot,
    target: &str,
    staging_root: &str,
    extracted: &str,
    impact: (usize, u64),
    source_fingerprint: u64,
    target_fingerprint: Option<u64>,
) -> (r: PendingFileOperationPlan)
    ensures
        r.kind == FileOperationKind::Import,
        r.conflict_policy == request.conflict_policy,
        crate::catalog::opt_view(r.staging_root) == Some(staging_root@),
        r.items@.len() == 1,
        r.items@[0].instance_id is None && r.items@[0].source_root_id is None,
        r.items@[0].source_root is None && r.items@[0].source_relative_path is None,
        r.items@[0].target_root_id == Some(root.id),
        r.items@[0].target_root == Some(root.path),
        r.items@[0].target_relative_path == Some(request.relative_path),
        r.items@[0].source@ == extracted@,
        crate::catalog::opt_view(r.items@[0].target) == Some(target@),
        r.items@[0].source_fingerprint == source_fingerprint,
        r.items@[0].target_fingerprint == target_fingerprint,
        r.items@[0].conflict == target_fingerprint is Some,
        r.items@[0].file_count == impact.0 && r.items@[0].total_size == impact.1,
{
    let item = PendingFileOperationItem {
        instance_id: None,
        source_root_id: None,
        source_root: None,
        source_relative_path: None,
        target_root_id: Some(root.id),
        target_root: Some(root.path.clone()),
        target_relative_path: Some(request.relative_path.clone()),
        source: copy_text(extracted),
        target: Some(copy_text(target)),
        source_fingerprint,
        target_fingerprint,
        conflict: target_fingerprint.is_some(),
        file_count: impact.0,
        total_size: impact.1,
    };
    let mut items: Vec<PendingFileOperationItem> = Vec::new();
    items.push(item);
    PendingFileOperationPlan {
        kind: FileOperationKind::Import,
        conflict_policy: request.conflict_policy,
        items,
        staging_root: Some(copy_text(staging_root)),
    }
}

/// An item is skipped when its target exists and the plan skips conflicts.
pub fn skips_item(item: &PendingFileOperationItem, policy: FileConflictPolicy) -> (r: bool)
    ensures
        r == (item.conflict && policy == FileConflictPolicy::Skip),
{
    item.conflict && match policy {
        FileConflictPolicy::Skip => true,
        FileConflictPolicy::Overwrite => false,
    }
}

/// How running one item went.
#[derive(Debug, Clone, PartialEq, Eq)]
pub enum ItemRun {
    Skipped,
    Done(bool),
    Failed(String),
    Interrupted,
}

/// The message of an item that was run as `run` in a batch of `kind`.
pub open spec fn run_message(kind: FileOperationKind, run: ItemRun) -> Seq<char> {
    match run {
        ItemRun::Skipped => "目标已存在，已按计划跳过。"@,
        ItemRun::Done(_) => if kind == FileOperationKind::Trash {
            "已移入系统废纸篓；可在访达的废纸篓中恢复。"@
        } else {
            "操作完成。"@
        },
        ItemRun::Failed(m) => m@,
        ItemRun::Interrupted => "应用在确认废纸篓结果前中断时，请在访达的废纸篓中核对此项。"@,
    }
}

/// The result of an item of a batch of `kind` that was run as `run`: a
/// skip, a success (with whether a backup was made), a failure with its
/// message, or a trash whose outcome is not yet known.
pub fn item_result(item: &PendingFileOperationItem, kind: FileOperationKind, run: ItemRun) -> (r: FileOperationItemResult)
    ensures
        r.instance_id == item.instance_id,
        r.source == item.source,
        r.target == item.target,
        r.status == (match run {
            ItemRun::Skipped => FileOperationResultStatus::Skipped,
            ItemRun::Done(_) => FileOperationResultStatus::Success,
            _ => FileOperationResultStatus::Failed,
        }),
        r.message@ == run_message(kind, run),
        r.backup_created == (run matches ItemRun::Done(b) && b),
{
    match run {
        ItemRun::Skipped => result_for(item, FileOperationResultStatus::Skipped, "目标已存在，已按计划跳过。", false),
        ItemRun::Done(backup) => match kind {
            FileOperationKind::Trash => result_for(
                item,
                FileOperationResultStatus::Success,
                "已移入系统废纸篓；可在访达的废纸篓中恢复。",
                backup,
            ),
            _ => result_for(item, FileOperationResultStatus::Success, "操作完成。", backup),
        },
        ItemRun::Failed(message) => result_for(item, FileOperationResultStatus::Failed, message.as_str(), false),
        ItemRun::Interrupted => result_for(
            item,
            FileOperationResultStatus::Failed,
            "应用在确认废纸篓结果前中断时，请在访达的废纸篓中核对此项。",
            false,
        ),
    }
}

/// The identifier of the work directories of item `index` of batch
/// `batch_id`.
pub fn stage_identifier(batch_id: i64, index: usize) -> (r: i64)
    requires
        i64::MIN <= batch_id * 10000 <= i64::MAX,
        index <= i64::MAX,
        i64::MIN <= batch_id * 10000 + index <= i64::MAX,
    ensures
        r == batch_id * 10000 + index,
{
    batch_id * 10000 + (index as i64)
}

/// Checks that the source of an item is as planned: present, with the
/// planned fingerprint.
pub fn check_source_unchanged(item: &PendingFileOperationItem, present: bool, fingerprint: Option<u64>) -> (r:
    Result<(), WorkspaceError>)
    ensures
        r is Ok <==> present && fingerprint == Some(item.source_fingerprint),
        r matches Err(e) ==> e == WorkspaceError::StaleFileOperationPlan(item.source),
{
    let same = match fingerprint {
        Some(f) => f == item.source_fingerprint,
        None => false,
    };
    if !present || !same {
        return Err(WorkspaceError::StaleFileOperationPlan(item.source.clone()));
    }
    Ok(())
}

/// The target and target root of an item that writes somewhere.
pub fn item_destination(item: &PendingFileOperationItem) -> (r: Result<(String, String), WorkspaceError>)
    ensures
        match item.target {
            None => r matches Err(WorkspaceError::InvalidFileOperation(m)) && m@ == "操作计划缺少目标路径。"@,
            Some(t) => match item.target_root {
                None => r matches Err(WorkspaceError::InvalidFileOperation(m)) && m@
                    == "操作计划缺少目标根目录。"@,
                Some(root) => r == Ok::<(String, String), WorkspaceError>((t, root)),
            },
        },
{
    let target = match &item.target {
        Some(t) => t.clone(),
        None => {
            return Err(invalid_operation("操作计划缺少目标路径。"));
        },
    };
    match &item.target_root {
        Some(root) => Ok((target, root.clone())),
        None => Err(invalid_operation("操作计划缺少目标根目录。")),
    }
}

/// Checks that the target of an item is as planned: absent when it was
/// absent, with the planned fingerprint otherwise.
pub fn check_target_unchanged(item: &PendingFileOperationItem, target: &str, current: Option<u64>) -> (r: Result<
    (),
    WorkspaceError,
>)
    ensures
        r is Ok <==> current == item.target_fingerprint,
        r matches Err(e) ==> (e matches WorkspaceError::StaleFileOperationPlan(m) && m@ == target@),
{
    let same = match (current, item.target_fingerprint) {
        (Some(a), Some(b)) => a == b,
        (None, None) => true,
        _ => false,
    };
    if !same {
        return Err(WorkspaceError::StaleFileOperationPlan(copy_text(target)));
    }
    Ok(())
}

/// The undo record of an applied item: backups of an existing target and,
/// for a move, of the source, both under `backup_root`.
pub fn undo_entry(kind: FileOperationKind, item: &PendingFileOperationItem, target: &str, backup_root: &str) -> (r:
    UndoItem)
    ensures
        r.kind == kind,
        r.source == item.source,
        r.target@ == target@,
        crate::catalog::opt_view(r.target_backup) == (if item.target_fingerprint is Some {
            Some(path_join_spec(backup_root@, "target"@))
        } else {
            None
        }),
        r.target_was_new == item.target_fingerprint is None,
        crate::catalog::opt_view(r.source_backup) == (if kind == FileOperationKind::Move {
            Some(path_join_spec(backup_root@, "source"@))
        } else {
            None
        }),
        r.source_root_id == item.source_root_id,
        r.target_root_id == item.target_root_id,
        r.source_root == item.source_root,
        r.source_relative_path == item.source_relative_path,
        r.target_root == item.target_root,
        r.target_relative_path == item.target_relative_path,
        r.applied_target_fingerprint is None,
{
    let target_backup = if item.target_fingerprint.is_some() {
        Some(path_join(backup_root, "target"))
    } else {
        None
    };
    let source_backup = match kind {
        FileOperationKind::Move => Some(path_join(backup_root, "source")),
        _ => None,
    };
    UndoItem {
        kind,
        source: item.source.clone(),
        target: copy_text(target),
        target_backup,
        target_was_new: item.target_fingerprint.is_none(),
        source_backup,
        source_root_id: item.source_root_id,
        target_root_id: item.target_root_id,
        source_root: crate::copy_opt(&item.source_root),
        source_relative_path: crate::copy_opt(&item.source_relative_path),
        target_root: crate::copy_opt(&item.target_root),
        target_relative_path: crate::copy_opt(&item.target_relative_path),
        applied_target_fingerprint: None,
    }
}

/// Checks that a batch can be undone: a trash cannot, nor a batch already
/// undone.
pub fn check_batch_undo(undoable: bool, undone: bool) -> (r: Result<(), WorkspaceError>)
    ensures
        !undoable ==> (r matches Err(WorkspaceError::InvalidFileOperation(m)) && m@
            == "移入系统废纸篓的操作请在访达中恢复。"@),
        undoable && undone ==> r == Err::<(), WorkspaceError>(WorkspaceError::FileOperationAlreadyUndone),
        undoable && !undone ==> r is Ok,
{
    if !undoable {
        return Err(invalid_operation("移入系统废纸篓的操作请在访达中恢复。"));
    }
    if undone {
        return Err(WorkspaceError::FileOperationAlreadyUndone);
    }
    Ok(())
}

/// What the file system says about one undo item before it is undone.
#[derive(Debug, Clone, Copy, PartialEq, Eq)]
pub struct UndoObservation {
    pub target_fingerprint: Option<u64>,
    pub source_exists: bool,
    pub target_backup_exists: bool,
    pub source_backup_exists: bool,
}

/// An undo record with the fingerprint its target had once applied.
pub open spec fn with_applied(item: UndoItem, fingerprint: u64) -> UndoItem {
    UndoItem { applied_target_fingerprint: Some(fingerprint), ..item }
}

/// Settles the undo record of the item just applied, the last one: when the
/// item succeeded it records the fingerprint its target now has, when it
/// failed the record is dropped.
pub fn settle_undo_record(undo: &mut Vec<UndoItem>, applied: Option<u64>)
    requires
        old(undo)@.len() > 0,
    ensures
        match applied {
            Some(f) => final(undo)@ == old(undo)@.drop_last().push(with_applied(old(undo)@.last(), f)),
            None => final(undo)@ == old(undo)@.drop_last(),
        },
{
    let last = undo.pop();
    match applied {
        Some(f) => {
            match last {
                Some(mut item) => {
                    item.applied_target_fingerprint = Some(f);
                    undo.push(item);
                },
                None => {},
            }
        },
        None => {},
    }
}

/// One step of undoing an applied item.
#[derive(Debug, Clone, PartialEq, Eq)]
pub enum UndoAction {
    /// Remove the target, which the operation created.
    RemoveTarget,
    /// Put the backup of the target back in its place.
    RestoreTarget(String),
    /// Put the backup of a moved source back in its place.
    RestoreSource(String),
}

/// The steps that undo an applied item: the target goes back to what it
/// was (removed when it was new, restored from its backup otherwise), then
/// a moved source whose backup is there is restored.
pub open spec fn undo_actions_spec(item: UndoItem, source_backup_exists: bool) -> Seq<UndoAction> {
    (if item.target_was_new {
        seq![UndoAction::RemoveTarget]
    } else {
        match item.target_backup {
            Some(b) => seq![UndoAction::RestoreTarget(b)],
            None => seq![],
        }
    }) + (match item.source_backup {
        Some(b) => if item.kind == FileOperationKind::Move && source_backup_exists {
            seq![UndoAction::RestoreSource(b)]
        } else {
            seq![]
        },
        None => seq![],
    })
}

/// The steps that undo an applied item, given whether its source backup is
/// there.
pub fn undo_actions(item: &UndoItem, source_backup_exists: bool) -> (r: Vec<UndoAction>)
    ensures
        r@ == undo_actions_spec(*item, source_backup_exists),
{
    let mut r: Vec<UndoAction> = Vec::new();
    if item.target_was_new {
        r.push(UndoAction::RemoveTarget);
    } else {
        match &item.target_backup {
            Some(b) => r.push(UndoAction::RestoreTarget(b.clone())),
            None => {},
        }
    }
    let moved = match item.kind {
        FileOperationKind::Move => true,
        _ => false,
    };
    match &item.source_backup {
        Some(b) => {
            if moved && source_backup_exists {
                r.push(UndoAction::RestoreSource(b.clone()));
            }
        },
        None => {},
    }
    proof {
        let it: UndoItem = *item;
        let first: Seq<UndoAction> = if it.target_was_new {
            seq![UndoAction::RemoveTarget]
        } else {
            match it.target_backup {
                Some(b) => seq![UndoAction::RestoreTarget(b)],
                None => seq![],
            }
        };
        let second: Seq<UndoAction> = match it.source_backup {
            Some(b) => if it.kind == FileOperationKind::Move && source_backup_exists {
                seq![UndoAction::RestoreSource(b)]
            } else {
                seq![]
            },
            None => seq![],
        };
        assert(r@ =~= first + second);
    }
    r
}

/// A file system as a map from paths to what is at them: `to` becomes what
/// is at `from`, or nothing.
pub open spec fn copy_entry<C>(fs: Map<Seq<char>, C>, from: Seq<char>, to: Seq<char>) -> Map<Seq<char>, C> {
    if fs.contains_key(from) {
        fs.insert(to, fs[from])
    } else {
        fs.remove(to)
    }
}

/// What carrying out an item does, as the application does it: back up an
/// existing target and a moved source, put the source at the target, and
/// remove a moved source.
pub open spec fn operation_effect<C>(fs: Map<Seq<char>, C>, item: UndoItem) -> Map<Seq<char>, C> {
    let fs1 = match item.target_backup {
        Some(b) => copy_entry(fs, item.target@, b@),
        None => fs,
    };
    let fs2 = match item.source_backup {
        Some(b) => copy_entry(fs1, item.source@, b@),
        None => fs1,
    };
    let fs3 = copy_entry(fs2, item.source@, item.target@);
    if item.kind == FileOperationKind::Move {
        fs3.remove(item.source@)
    } else {
        fs3
    }
}

/// What the undo steps of an item do, in order.
pub open spec fn undo_effect<C>(fs: Map<Seq<char>, C>, actions: Seq<UndoAction>, item: UndoItem) -> Map<
    Seq<char>,
    C,
>
    decreases actions.len(),
{
    if actions.len() == 0 {
        fs
    } else {
        let next = match actions[0] {
            UndoAction::RemoveTarget => fs.remove(item.target@),
            UndoAction::RestoreTarget(b) => copy_entry(fs, b@, item.target@),
            UndoAction::RestoreSource(b) => copy_entry(fs, b@, item.source@),
        };
        undo_effect(next, actions.drop_first(), item)
    }
}

/// Undoing an applied item gives its source and target back what they
/// held before: for an item recorded as `undo_entry` records it (a backup of
/// the target exactly when there was one, a backup of the source exactly
/// for a move), with source, target and backups at different paths.
pub proof fn undo_restores_the_files<C>(fs: Map<Seq<char>, C>, item: UndoItem)
    requires
        fs.contains_key(item.source@),
        item.target_was_new == !fs.contains_key(item.target@),
        item.target_backup is Some <==> !item.target_was_new,
        item.source_backup is Some <==> item.kind == FileOperationKind::Move,
        item.source@ != item.target@,
        item.target_backup matches Some(b) ==> b@ != item.source@ && b@ != item.target@,
        item.source_backup matches Some(b) ==> b@ != item.source@ && b@ != item.target@,
        item.target_backup matches Some(b) ==> item.source_backup matches Some(c) ==> b@ != c@,
    ensures
        ({
            let after = operation_effect(fs, item);
            let exists = match item.source_backup {
                Some(b) => after.contains_key(b@),
                None => false,
            };
            let back = undo_effect(after, undo_actions_spec(item, exists), item);
            &&& back.contains_key(item.target@) == fs.contains_key(item.target@)
            &&& fs.contains_key(item.target@) ==> back[item.target@] == fs[item.target@]
            &&& back.contains_key(item.source@)
            &&& back[item.source@] == fs[item.source@]
        }),
{
    let after = operation_effect(fs, item);
    let exists = match item.source_backup {
        Some(b) => after.contains_key(b@),
        None => false,
    };
    let acts = undo_actions_spec(item, exists);
    let t = item.target@;
    let src = item.source@;
    if item.kind == FileOperationKind::Move {
        let sb = item.source_backup->0;
        assert(after.contains_key(sb@));
        assert(after[sb@] == fs[src]);
        if item.target_was_new {
            assert(acts =~= seq![UndoAction::RemoveTarget, UndoAction::RestoreSource(sb)]);
            let m1 = after.remove(t);
            assert(acts.drop_first() =~= seq![UndoAction::RestoreSource(sb)]);
            assert(acts.drop_first().drop_first() =~= Seq::<UndoAction>::empty());
            assert(undo_effect(after, acts, item) == undo_effect(m1, acts.drop_first(), item));
            let m2 = copy_entry(m1, sb@, src);
            assert(undo_effect(m1, acts.drop_first(), item) == undo_effect(m2, acts.drop_first().drop_first(), item));
        } else {
            let tb = item.target_backup->0;
            assert(after[tb@] == fs[t]);
            assert(acts =~= seq![UndoAction::RestoreTarget(tb), UndoAction::RestoreSource(sb)]);
            let m1 = copy_entry(after, tb@, t);
            assert(acts.drop_first() =~= seq![UndoAction::RestoreSource(sb)]);
            assert(acts.drop_first().drop_first() =~= Seq::<UndoAction>::empty());
            assert(undo_effect(after, acts, item) == undo_effect(m1, acts.drop_first(), item));
            let m2 = copy_entry(m1, sb@, src);
            assert(undo_effect(m1, acts.drop_first(), item) == undo_effect(m2, acts.drop_first().drop_first(), item));
        }
    } else {
        if item.target_was_new {
            assert(acts =~= seq![UndoAction::RemoveTarget]);
            assert(acts.drop_first() =~= Seq::<UndoAction>::empty());
            assert(undo_effect(after, acts, item) == undo_effect(after.remove(t), acts.drop_first(), item));
        } else {
            let tb = item.target_backup->0;
            assert(after[tb@] == fs[t]);
            assert(acts =~= seq![UndoAction::RestoreTarget(tb)]);
            assert(acts.drop_first() =~= Seq::<UndoAction>::empty());
            assert(undo_effect(after, acts, item) == undo_effect(copy_entry(after, tb@, t), acts.drop_first(), item));
        }
    }
}

/// Checks that an applied item can still be undone: its target is as the
/// operation left it, a moved source has not come back, and its backups
/// are there.
pub fn check_undo_item(item: &UndoItem, o: UndoObservation) -> (r: Result<(), WorkspaceError>)
    ensures
        o.target_fingerprint != item.applied_target_fingerprint ==> r == Err::<(), WorkspaceError>(
            WorkspaceError::StaleFileOperationPlan(item.target),
        ),
        o.target_fingerprint == item.applied_target_fingerprint && item.kind == FileOperationKind::Move
            && o.source_exists ==> r == Err::<(), WorkspaceError>(
            WorkspaceError::StaleFileOperationPlan(item.source),
        ),
        o.target_fingerprint == item.applied_target_fingerprint && !(item.kind == FileOperationKind::Move
            && o.source_exists) ==> {
            if item.target_backup is Some && !o.target_backup_exists {
                r matches Err(WorkspaceError::InvalidFileOperation(m)) && m@ == "撤销所需的目标备份不存在。"@
            } else if item.source_backup is Some && !o.source_backup_exists {
                r matches Err(WorkspaceError::InvalidFileOperation(m)) && m@ == "撤销所需的来源备份不存在。"@
            } else {
                r is Ok
            }
        },
{
    let same = match (o.target_fingerprint, item.applied_target_fingerprint) {
        (Some(a), Some(b)) => a == b,
        (None, None) => true,
        _ => false,
    };
    if !same {
        return Err(WorkspaceError::StaleFileOperationPlan(item.target.clone()));
    }
    let moved = match item.kind {
        FileOperationKind::Move => true,
        _ => false,
    };
    if moved && o.source_exists {
        return Err(WorkspaceError::StaleFileOperationPlan(item.source.clone()));
    }
    if item.target_backup.is_some() && !o.target_backup_exists {
        return Err(invalid_operation("撤销所需的目标备份不存在。"));
    }
    if item.source_backup.is_some() && !o.source_backup_exists {
        return Err(invalid_operation("撤销所需的来源备份不存在。"));
    }
    Ok(())
}

/// What recovery does with a batch that was interrupted.
#[derive(Debug, Clone, Copy, PartialEq, Eq)]
pub enum BatchRecovery {
    Nothing,
    MarkTrashCompleted,
    RollBack,
}

/// What recovery does with a batch: an unfinished trash is marked finished
/// (what went to the trash stays there), any other unfinished or half-undone
/// batch is rolled back.
pub fn batch_recovery(completed: bool, undoing: bool, kind: &str) -> (r: BatchRecovery)
    ensures
        completed && !undoing ==> r == BatchRecovery::Nothing,
        !(completed && !undoing) && kind@ == "trash"@ && !completed ==> r == BatchRecovery::MarkTrashCompleted,
        !(completed && !undoing) && !(kind@ == "trash"@ && !completed) ==> r == BatchRecovery::RollBack,
{
    if completed && !undoing {
        return BatchRecovery::Nothing;
    }
    if str_eq(kind, "trash") && !completed {
        return BatchRecovery::MarkTrashCompleted;
    }
    BatchRecovery::RollBack
}

/// The name an entry gets in the application's own trash directory.
pub open spec fn trash_entry_name_spec(batch_id: i64, index: usize, name: Option<Seq<char>>) -> Seq<char> {
    crate::text::decimal(batch_id as int) + "-"@ + crate::text::decimal(index as int) + "-"@ + match name {
        Some(n) => n,
        None => "skill"@,
    }
}

proof fn lemma_numeral_then_dash(a: int, b: int, s: Seq<char>, t: Seq<char>)
    requires
        crate::text::decimal(a) + "-"@ + s == crate::text::decimal(b) + "-"@ + t,
    ensures
        a == b,
        s == t,
{
    reveal_strlit("-");
    let da = crate::text::decimal(a);
    let db = crate::text::decimal(b);
    let x = da + "-"@ + s;
    crate::text::lemma_decimal_shape(a);
    crate::text::lemma_decimal_shape(b);
    assert(x[da.len() as int] == '-');
    assert(x[db.len() as int] == '-');
    if da.len() < db.len() {
        assert(x[da.len() as int] == db[da.len() as int]);
    }
    if db.len() < da.len() {
        assert(x[db.len() as int] == da[db.len() as int]);
    }
    assert(da =~= x.take(da.len() as int));
    assert(db =~= x.take(db.len() as int));
    crate::text::lemma_decimal_injective(a, b);
    assert(s =~= x.skip(da.len() as int + 1));
    assert(t =~= x.skip(db.len() as int + 1));
}

/// Entries of different items get different names in the application's
/// own trash directory: the name gives back the batch, the index and the
/// entry's name.
pub proof fn trash_entry_names_are_distinct(
    b1: i64,
    i1: usize,
    n1: Option<Seq<char>>,
    b2: i64,
    i2: usize,
    n2: Option<Seq<char>>,
)
    ensures
        trash_entry_name_spec(b1, i1, n1) == trash_entry_name_spec(b2, i2, n2) ==> b1 == b2 && i1
            == i2 && trash_entry_name_spec(b1, i1, n1) == trash_entry_name_spec(b1, i1, n2),
{
    if trash_entry_name_spec(b1, i1, n1) == trash_entry_name_spec(b2, i2, n2) {
        let m1 = match n1 {
            Some(n) => n,
            None => "skill"@,
        };
        let m2 = match n2 {
            Some(n) => n,
            None => "skill"@,
        };
        let r1 = crate::text::decimal(i1 as int) + "-"@ + m1;
        let r2 = crate::text::decimal(i2 as int) + "-"@ + m2;
        assert(trash_entry_name_spec(b1, i1, n1) =~= crate::text::decimal(b1 as int) + "-"@ + r1);
        assert(trash_entry_name_spec(b2, i2, n2) =~= crate::text::decimal(b2 as int) + "-"@ + r2);
        lemma_numeral_then_dash(b1 as int, b2 as int, r1, r2);
        lemma_numeral_then_dash(i1 as int, i2 as int, m1, m2);
    }
}

/// The name an entry gets in the application's own trash directory:
/// batch, index and the entry's name (`skill` when it has none).
pub fn trash_entry_name(batch_id: i64, index: usize, name: Option<&str>) -> (r: String)
    ensures
        r@ == trash_entry_name_spec(
            batch_id,
            index,
            match name {
                Some(n) => Some(n@),
                None => None,
            },
        ),
{
    let mut r = crate::text::i64_decimal(batch_id);
    crate::text::append_str(&mut r, "-");
    crate::text::append_str(&mut r, crate::text::usize_decimal(index).as_str());
    crate::text::append_str(&mut r, "-");
    match name {
        Some(n) => crate::text::append_str(&mut r, n),
        None => crate::text::append_str(&mut r, "skill"),
    }
    proof {
        reveal_strlit("-");
        reveal_strlit("skill");
    }
    r
}

/// The batch directory a recorded backup belongs to: the backup directory
/// joined with the first name below it, when the backup lies there.
pub open spec fn backup_batch_dir_spec(database_path: Seq<char>, backup: Seq<char>) -> Option<Seq<char>> {
    let base = backup_base_spec(database_path);
    if is_prefix_of(components(base), components(backup)) && components(backup).len() > components(
        base,
    ).len() && is_name(components(backup)[components(base).len() as int]) {
        Some(path_join_spec(base, components(backup)[components(base).len() as int]))
    } else {
        None
    }
}

/// The batch directory a recorded backup belongs to, if it lies in the
/// application's backup directory.
pub fn backup_batch_dir(database_path: &str, backup: &str) -> (r: Option<String>)
    ensures
        match r {
            Some(d) => backup_batch_dir_spec(database_path@, backup@) == Some(d@),
            None => backup_batch_dir_spec(database_path@, backup@) is None,
        },
{
    let base = application_backup_base(database_path);
    let bc = path_components(base.as_str());
    let pc = path_components(backup);
    if !crate::path::components_equal_prefix(&bc, &pc) || pc.len() <= bc.len() {
        return None;
    }
    let first = &pc[bc.len()];
    let c = chars_of(first.as_str());
    let named = !((c.len() == 1 && c[0] == '/') || (c.len() == 1 && c[0] == '.') || (c.len() == 2 && c[0]
        == '.' && c[1] == '.'));
    proof {
        let t = pc@[bc@.len() as int]@;
        assert(c@ == t);
        if c.len() == 1 && c[0] == '/' {
            assert(t =~= seq!['/']);
        }
        if c.len() == 1 && c[0] == '.' {
            assert(t =~= seq!['.']);
        }
        if c.len() == 2 && c[0] == '.' && c[1] == '.' {
            assert(t =~= seq!['.', '.']);
        }
        if t == seq!['/'] || t == seq!['.'] {
            assert(t.len() == 1 && t[0] == c[0]);
        }
        if t == seq!['.', '.'] {
            assert(t.len() == 2 && t[0] == c[0] && t[1] == c[1]);
        }
    }
    if !named {
        return None;
    }
    Some(path_join(base.as_str(), first.as_str()))
}

} // verus!
