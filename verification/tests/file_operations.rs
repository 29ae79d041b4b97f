use skill_workspace::file_operations::{
    ancestor_chain, ancestor_verdict, application_backup_base, backup_batch_dir, batch_backup_root,
    batch_recovery, check_archive_entries, check_backup_item, check_backup_path,
    check_backup_root, check_batch_undo, check_created_ancestor, check_link_target,
    check_source_unchanged, check_staging_root, check_target_root, check_target_unchanged,
    check_undo_item, database_parent, item_backup_root, item_destination, item_result,
    operation_kind_database, operation_kind_from_database, public_plan, resolve_lexical_link,
    result_for, safe_zip_entry_path, settle_undo_record, undo_actions, UndoAction, single_skill_directory, skips_item, stage_identifier,
    trash_entry_name, undo_entry, unsafe_component_error, validated_recorded_path,
    zip_import_pending, AncestorStep, ArchiveEntry, BatchRecovery, EntryState, ExtractionEntry,
    FileConflictPolicy, FileOperationItemResult, FileOperationKind, FileOperationPlan,
    FileOperationRecord, FileOperationRequest, FileOperationResultStatus, ItemObservation,
    ItemRun, PendingFileOperationItem, PendingFileOperationPlan, UndoObservation,
    ZipImportRequest,
};
use skill_workspace::{
    SkillInstance, SkillRoot, SkillRootStatus, SkillStatus, SkillWorkspace, WorkspaceError,
    WorkspaceSnapshot,
};

fn workspace() -> SkillWorkspace {
    SkillWorkspace { database_path: "/data/app/index.sqlite3".to_owned() }
}

fn root(id: i64, path: &str) -> SkillRoot {
    SkillRoot { id, path: path.to_owned(), status: SkillRootStatus::Ready, error: None, recovery_hint: None }
}

fn instance(id: &str, root_id: i64, relative: &str, real: &str, link: Option<&str>) -> SkillInstance {
    SkillInstance {
        id: id.to_owned(),
        root_id,
        name: relative.to_owned(),
        description: String::new(),
        relative_path: relative.to_owned(),
        skill_file_path: format!("{real}/SKILL.md"),
        link_path: link.map(str::to_owned),
        real_path: real.to_owned(),
        status: SkillStatus::Ready,
        error: None,
    }
}

fn snapshot() -> WorkspaceSnapshot {
    WorkspaceSnapshot {
        authorized_root: None,
        roots: vec![root(1, "/left"), root(2, "/right")],
        instances: vec![
            instance("1:alpha", 1, "alpha", "/left/alpha", None),
            instance("1:beta", 1, "beta", "/left/beta", None),
            instance("1:Alpha", 1, "Alpha", "/left/Alpha", None),
            instance("1:linked", 1, "linked", "/shared/linked", Some("/left/linked")),
            instance("2:gamma", 2, "gamma", "/right/gamma", None),
        ],
    }
}

fn observation(target_exists: bool) -> ItemObservation {
    ItemObservation {
        source_guard_ok: true,
        link_is_symlink: Ok(false),
        target_check: Ok(()),
        impact: Ok((2, 30)),
        source_fingerprint: Ok(11),
        target_exists,
        target_fingerprint: Ok(22),
    }
}

fn request(ids: &[&str], kind: FileOperationKind, target: Option<i64>) -> FileOperationRequest {
    FileOperationRequest {
        instance_ids: ids.iter().map(|s| s.to_string()).collect(),
        kind,
        target_root_id: target,
        conflict_policy: FileConflictPolicy::Overwrite,
    }
}

fn pending_item(conflict: bool) -> PendingFileOperationItem {
    PendingFileOperationItem {
        instance_id: Some("1:alpha".to_owned()),
        source_root_id: Some(1),
        source_root: Some("/left".to_owned()),
        source_relative_path: Some("alpha".to_owned()),
        target_root_id: Some(2),
        target_root: Some("/right".to_owned()),
        target_relative_path: Some("alpha".to_owned()),
        source: "/left/alpha".to_owned(),
        target: Some("/right/alpha".to_owned()),
        source_fingerprint: 11,
        target_fingerprint: if conflict { Some(22) } else { None },
        conflict,
        file_count: 2,
        total_size: 30,
    }
}

#[test]
fn copy_plans_each_selected_instance_once() {
    let req = request(&["1:alpha", "1:beta", "1:alpha"], FileOperationKind::Copy, Some(2));
    let observations = vec![observation(true), observation(false), observation(false)];
    let plan = workspace().plan_file_operations(&req, &snapshot(), &observations).unwrap();
    assert_eq!(plan.kind, FileOperationKind::Copy);
    assert_eq!(plan.staging_root, None);
    assert_eq!(plan.items.len(), 2);
    assert_eq!(plan.items[0], pending_item(true));
    assert_eq!(plan.items[1].source, "/left/beta");
    assert_eq!(plan.items[1].target.as_deref(), Some("/right/beta"));
    assert!(!plan.items[1].conflict);
    assert_eq!(plan.items[1].target_fingerprint, None);

    let public = public_plan(5, &plan);
    assert_eq!(public.id, 5);
    assert!(public.undoable);
    assert!(public.items[0].will_overwrite);
    assert!(!public.items[0].will_remove_source);
    assert!(!public.items[1].will_overwrite);
}

#[test]
fn plans_refuse_bad_requests() {
    let ws = workspace();
    let snap = snapshot();
    let obs = |n: usize| (0..n).map(|_| observation(false)).collect::<Vec<_>>();
    let cases = vec![
        (request(&["1:alpha"], FileOperationKind::Import, Some(2)), WorkspaceError::InvalidFileOperation("ZIP 导入必须通过 ZIP 预览创建计划。".to_owned())),
        (request(&[], FileOperationKind::Copy, Some(2)), WorkspaceError::InvalidFileOperation("至少选择一个 Skill 实例。".to_owned())),
        (request(&["1:alpha"], FileOperationKind::Copy, Some(7)), WorkspaceError::InvalidRoot("找不到目标 Skill 根目录。".to_owned())),
        (request(&["1:alpha"], FileOperationKind::Move, None), WorkspaceError::InvalidFileOperation("复制或移动必须选择目标 Skill 根目录。".to_owned())),
        (request(&["9:none"], FileOperationKind::Copy, Some(2)), WorkspaceError::UnknownInstance("9:none".to_owned())),
        (request(&["2:gamma"], FileOperationKind::Copy, Some(2)), WorkspaceError::InvalidFileOperation("来源与目标 Skill 根目录不能相同。".to_owned())),
        (
            request(&["1:linked"], FileOperationKind::Move, Some(2)),
            WorkspaceError::InvalidFileOperation("Skill“linked”位于符号链接目录下；为避免破坏共享真实目录，不能移动或删除。".to_owned()),
        ),
        (
            request(&["1:alpha", "1:Alpha"], FileOperationKind::Copy, Some(2)),
            WorkspaceError::InvalidFileOperation("多个所选 Skill 会写入同一目标“/right/Alpha”；请拆分操作或只保留一个来源。".to_owned()),
        ),
    ];
    for (req, expected) in cases {
        let n = req.instance_ids.len();
        assert_eq!(ws.plan_file_operations(&req, &snap, &obs(n)), Err(expected));
    }
}

#[test]
fn linked_instances_are_copied_from_their_real_directory_or_link() {
    let req = request(&["1:linked"], FileOperationKind::Copy, Some(2));
    let plan = workspace().plan_file_operations(&req, &snapshot(), &vec![observation(false)]).unwrap();
    assert_eq!(plan.items[0].source, "/shared/linked");
    let mut leaf_link = observation(false);
    leaf_link.link_is_symlink = Ok(true);
    let plan = workspace().plan_file_operations(&req, &snapshot(), &vec![leaf_link]).unwrap();
    assert_eq!(plan.items[0].source, "/left/linked");
    let trash = request(&["1:alpha"], FileOperationKind::Trash, None);
    let plan = workspace().plan_file_operations(&trash, &snapshot(), &vec![observation(false)]).unwrap();
    assert_eq!(plan.items[0].target, None);
    assert!(!public_plan(1, &plan).undoable);
    assert!(public_plan(1, &plan).items[0].will_remove_source);
    let mut failing = observation(true);
    failing.target_fingerprint = Err(WorkspaceError::Io("disk".to_owned()));
    assert_eq!(
        workspace().plan_file_operations(&request(&["1:beta"], FileOperationKind::Copy, Some(2)), &snapshot(), &vec![failing]),
        Err(WorkspaceError::Io("disk".to_owned()))
    );
}

fn record(batch: i64, undoable: bool, undone: bool, statuses: &[FileOperationResultStatus]) -> FileOperationRecord {
    FileOperationRecord {
        batch_id: batch,
        plan_id: batch,
        kind: FileOperationKind::Copy,
        created_at: batch,
        undoable,
        undone,
        plan: FileOperationPlan { id: batch, kind: FileOperationKind::Copy, items: Vec::new(), undoable },
        results: statuses
            .iter()
            .map(|status| FileOperationItemResult {
                instance_id: None,
                source: String::new(),
                target: None,
                status: *status,
                message: String::new(),
                backup_created: false,
            })
            .collect(),
    }
}

#[test]
fn latest_undoable_batch_needs_a_success() {
    let history = vec![
        record(5, true, false, &[FileOperationResultStatus::Failed]),
        record(4, false, false, &[FileOperationResultStatus::Success]),
        record(3, true, true, &[FileOperationResultStatus::Success]),
        record(2, true, false, &[FileOperationResultStatus::Skipped, FileOperationResultStatus::Success]),
        record(1, true, false, &[FileOperationResultStatus::Success]),
    ];
    assert_eq!(workspace().latest_undoable_file_operation(history).map(|r| r.batch_id), Some(2));
    assert_eq!(workspace().latest_undoable_file_operation(Vec::new()), None);
}

#[test]
fn operation_kinds_are_stored_as_their_texts() {
    for kind in [FileOperationKind::Import, FileOperationKind::Copy, FileOperationKind::Move, FileOperationKind::Trash] {
        assert_eq!(operation_kind_from_database(operation_kind_database(&kind)), kind);
    }
    assert_eq!(operation_kind_database(&FileOperationKind::Trash), "trash");
    assert_eq!(operation_kind_from_database("unknown"), FileOperationKind::Copy);
}

#[test]
fn application_directories_sit_beside_the_database() {
    assert_eq!(database_parent("/data/app/index.sqlite3"), "/data/app");
    assert_eq!(database_parent("index.sqlite3"), ".");
    assert_eq!(application_backup_base("/data/app/index.sqlite3"), "/data/app/file-operation-backups");
    assert_eq!(batch_backup_root("/data/app/index.sqlite3", 3), "/data/app/file-operation-backups/batch-3");
    assert_eq!(item_backup_root("/data/app/index.sqlite3", 3, 4), "/data/app/file-operation-backups/batch-3/item-4");
    let db = "/data/app/index.sqlite3";
    assert_eq!(check_backup_path(db, "/data/app/file-operation-backups/batch-3/item-4/target"), Ok(()));
    assert_eq!(
        check_backup_path(db, "/data/app/file-operation-backups/batch-3/item-4/other"),
        Err(WorkspaceError::InvalidFileOperation("撤销备份路径格式无效。".to_owned()))
    );
    assert_eq!(
        check_backup_path(db, "/elsewhere/batch-3/item-4/target"),
        Err(WorkspaceError::InvalidFileOperation("撤销备份不在应用管理目录内。".to_owned()))
    );
    assert_eq!(check_backup_item(db, "/data/app/file-operation-backups/batch-1/item-0"), Ok(()));
    assert_eq!(
        check_backup_item(db, "/data/app/file-operation-backups/batch-1"),
        Err(WorkspaceError::InvalidFileOperation("单项备份路径格式无效。".to_owned()))
    );
    assert_eq!(check_backup_root(db, "/data/app/file-operation-backups/batch-9"), Ok(()));
    assert!(check_backup_root(db, "/data/app/file-operation-backups/other").is_err());
    assert_eq!(check_staging_root(db, "/data/app/import-staging/zip-1-0"), Ok(()));
    assert_eq!(
        check_staging_root(db, "/tmp/zip-1-0"),
        Err(WorkspaceError::InvalidFileOperation("ZIP 暂存目录不在应用管理范围内，已拒绝清理。".to_owned()))
    );
    assert_eq!(
        backup_batch_dir(db, "/data/app/file-operation-backups/batch-2/item-0/target"),
        Some("/data/app/file-operation-backups/batch-2".to_owned())
    );
    assert_eq!(backup_batch_dir(db, "/other/batch-2"), None);
}

#[test]
fn recorded_paths_must_match_their_root() {
    assert_eq!(validated_recorded_path(Some("/r"), Some("a/b"), "/r/a/b/"), Ok("/r/a/b".to_owned()));
    assert_eq!(
        validated_recorded_path(None, Some("a"), "/r/a"),
        Err(WorkspaceError::InvalidFileOperation("撤销记录缺少根目录。".to_owned()))
    );
    assert_eq!(
        validated_recorded_path(Some("/r"), None, "/r/a"),
        Err(WorkspaceError::InvalidFileOperation("撤销记录缺少相对路径。".to_owned()))
    );
    assert_eq!(
        validated_recorded_path(Some("/r"), Some("../a"), "/a"),
        Err(WorkspaceError::InvalidSkillPath("路径指向 Skill 目录之外".to_owned()))
    );
    assert_eq!(
        validated_recorded_path(Some("/r"), Some("a"), "/r/b"),
        Err(WorkspaceError::InvalidFileOperation("撤销记录的路径与根目录不一致。".to_owned()))
    );
}

#[test]
fn zip_entry_names_are_relative_and_stay_inside() {
    assert_eq!(safe_zip_entry_path("skill/SKILL.md").unwrap(), "skill/SKILL.md");
    assert_eq!(safe_zip_entry_path("skill\\docs\\a.md").unwrap(), "skill/docs/a.md");
    assert_eq!(safe_zip_entry_path("./skill/./x").unwrap(), "skill/x");
    for absolute in ["/etc/passwd", "C:/evil", "\\evil"] {
        assert_eq!(safe_zip_entry_path(absolute), Err(WorkspaceError::InvalidArchive("ZIP 包含绝对路径。".to_owned())));
    }
    for climbing in ["", "../evil", "skill/../../evil"] {
        assert_eq!(safe_zip_entry_path(climbing), Err(WorkspaceError::InvalidArchive("ZIP 包含路径穿越。".to_owned())));
    }
}

#[test]
fn links_inside_archives_resolve_lexically() {
    assert_eq!(resolve_lexical_link("skill/docs", "../assets/a.png").unwrap(), "skill/assets/a.png");
    assert_eq!(resolve_lexical_link("", "./x").unwrap(), "x");
    let escaping = Err(WorkspaceError::InvalidArchive("ZIP 包含越界符号链接。".to_owned()));
    assert_eq!(resolve_lexical_link("skill", "../../outside"), escaping);
    assert_eq!(resolve_lexical_link("skill", "/etc"), escaping);
}

fn archive<T>(message: &str) -> Result<T, WorkspaceError> {
    Err(WorkspaceError::InvalidArchive(message.to_owned()))
}

fn entry(name: &str, size: u64, is_dir: bool, mode: u32) -> ArchiveEntry {
    ArchiveEntry { name: name.to_owned(), size, is_dir, unix_mode: mode }
}

#[test]
fn archives_are_checked_before_unpacking() {
    let ok = check_archive_entries(&vec![
        entry("skill/", 0, true, 0o040755),
        entry("skill/SKILL.md", 10, false, 0o100644),
        entry("skill/link", 4, false, 0o120777),
    ])
    .unwrap();
    assert_eq!(
        ok,
        vec![
            ExtractionEntry { index: 0, relative_path: "skill".to_owned(), is_directory: true, is_symlink: false },
            ExtractionEntry { index: 1, relative_path: "skill/SKILL.md".to_owned(), is_directory: false, is_symlink: false },
            ExtractionEntry { index: 2, relative_path: "skill/link".to_owned(), is_directory: false, is_symlink: true },
        ]
    );
    assert_eq!(
        check_archive_entries(&vec![entry("a/SKILL.md", 1, false, 0), entry("A/skill.md", 1, false, 0)]),
        archive("ZIP 包含重复或大小写冲突路径。")
    );
    assert_eq!(
        check_archive_entries(&vec![entry("a", 60 * 1024 * 1024, false, 0), entry("b", 60 * 1024 * 1024, false, 0)]),
        archive("ZIP 解包后超过 100 MB 限制。")
    );
    assert_eq!(
        check_archive_entries(&vec![entry("skill/link", 1, false, 0o120777), entry("skill/link/inner", 1, false, 0)]),
        archive("ZIP 文件路径经过符号链接。")
    );
    assert_eq!(check_archive_entries(&vec![entry("../x", 1, false, 0)]), archive("ZIP 包含路径穿越。"));
    let many: Vec<ArchiveEntry> = (0..10_001).map(|i| entry(&format!("f{i}"), 0, false, 0)).collect();
    assert_eq!(check_archive_entries(&many), archive("ZIP 文件条目过多。"));

    let link = ok[2].clone();
    assert_eq!(check_link_target(&ok, &link, b"SKILL.md").unwrap(), "SKILL.md");
    assert_eq!(check_link_target(&ok, &link, b"../elsewhere"), archive("ZIP 包含越界符号链接。"));
    assert_eq!(check_link_target(&ok, &link, &[0xff]), archive("ZIP 符号链接目标不是 UTF-8 文本。"));
    assert_eq!(single_skill_directory(vec!["/s/a".to_owned()]), Ok("/s/a".to_owned()));
    assert_eq!(
        single_skill_directory(Vec::new()),
        archive("ZIP 必须且只能包含一个带 SKILL.md 的本地 Skill。")
    );
}

#[test]
fn zip_imports_target_a_safe_path_under_a_known_root() {
    let req = ZipImportRequest {
        zip_path: "/tmp/a.zip".to_owned(),
        target_root_id: 2,
        relative_path: "imported".to_owned(),
        conflict_policy: FileConflictPolicy::Skip,
    };
    let (target_root, target) = workspace().zip_import_target(&req, &snapshot()).unwrap();
    assert_eq!(target_root.id, 2);
    assert_eq!(target, "/right/imported");
    let plan = zip_import_pending(&req, &target_root, &target, "/data/app/import-staging/zip-1-0", "/data/app/import-staging/zip-1-0/s", (1, 5), 7, None);
    assert_eq!(plan.kind, FileOperationKind::Import);
    assert_eq!(plan.staging_root.as_deref(), Some("/data/app/import-staging/zip-1-0"));
    assert!(!plan.items[0].conflict);
    let mut bad = req.clone();
    bad.relative_path = "../x".to_owned();
    assert_eq!(
        workspace().zip_import_target(&bad, &snapshot()),
        Err(WorkspaceError::InvalidSkillPath("路径指向 Skill 目录之外".to_owned()))
    );
    bad.relative_path = "x".to_owned();
    bad.target_root_id = 8;
    assert_eq!(
        workspace().zip_import_target(&bad, &snapshot()),
        Err(WorkspaceError::InvalidRoot("找不到目标 Skill 根目录。".to_owned()))
    );
}

#[test]
fn targets_are_reached_through_real_directories_only() {
    let chain = ancestor_chain("/right", "/right/team/skills/alpha").unwrap();
    assert_eq!(chain.directories, vec!["/right/team", "/right/team/skills"]);
    assert!(!chain.unsafe_component);
    let climbing = ancestor_chain("/right", "/right/../x/alpha").unwrap();
    assert!(climbing.directories.is_empty());
    assert!(climbing.unsafe_component);
    assert_eq!(
        ancestor_chain("/right", "/left/alpha"),
        Err(WorkspaceError::InvalidFileOperation("目标路径超出 Skill 根目录。".to_owned()))
    );
    assert_eq!(check_target_root(EntryState::Directory), Ok(()));
    assert!(check_target_root(EntryState::Symlink).is_err());
    assert_eq!(ancestor_verdict("/r/a", EntryState::Missing, true), Ok(AncestorStep::Create));
    assert_eq!(ancestor_verdict("/r/a", EntryState::Missing, false), Ok(AncestorStep::Continue));
    assert_eq!(
        ancestor_verdict("/r/a", EntryState::Symlink, true),
        Err(WorkspaceError::InvalidFileOperation("目标路径经过符号链接目录“/r/a”，已拒绝操作。".to_owned()))
    );
    assert_eq!(
        ancestor_verdict("/r/a", EntryState::Other, false),
        Err(WorkspaceError::InvalidFileOperation("目标路径的父级不是目录：“/r/a”。".to_owned()))
    );
    assert!(check_created_ancestor(EntryState::Other).is_err());
    assert_eq!(
        unsafe_component_error(),
        WorkspaceError::InvalidFileOperation("目标路径包含不安全的目录片段。".to_owned())
    );
}

#[test]
fn execution_records_results_and_undo_entries() {
    let item = pending_item(true);
    assert!(skips_item(&item, FileConflictPolicy::Skip));
    assert!(!skips_item(&item, FileConflictPolicy::Overwrite));
    assert!(!skips_item(&pending_item(false), FileConflictPolicy::Skip));
    let skipped = item_result(&item, FileOperationKind::Copy, ItemRun::Skipped);
    assert_eq!(skipped.status, FileOperationResultStatus::Skipped);
    assert_eq!(skipped.message, "目标已存在，已按计划跳过。");
    let trashed = item_result(&item, FileOperationKind::Trash, ItemRun::Done(false));
    assert_eq!(trashed.message, "已移入系统废纸篓；可在访达的废纸篓中恢复。");
    let copied = item_result(&item, FileOperationKind::Copy, ItemRun::Done(true));
    assert_eq!((copied.status, copied.message.as_str(), copied.backup_created), (FileOperationResultStatus::Success, "操作完成。", true));
    let failed = item_result(&item, FileOperationKind::Move, ItemRun::Failed("坏了".to_owned()));
    assert_eq!((failed.status, failed.message.as_str()), (FileOperationResultStatus::Failed, "坏了"));
    let interrupted = item_result(&item, FileOperationKind::Trash, ItemRun::Interrupted);
    assert_eq!(interrupted.message, "应用在确认废纸篓结果前中断时，请在访达的废纸篓中核对此项。");
    assert_eq!(result_for(&item, FileOperationResultStatus::Failed, "m", false).source, "/left/alpha");

    assert_eq!(check_source_unchanged(&item, true, Some(11)), Ok(()));
    assert_eq!(
        check_source_unchanged(&item, true, Some(12)),
        Err(WorkspaceError::StaleFileOperationPlan("/left/alpha".to_owned()))
    );
    assert_eq!(item_destination(&item), Ok(("/right/alpha".to_owned(), "/right".to_owned())));
    assert_eq!(check_target_unchanged(&item, "/right/alpha", Some(22)), Ok(()));
    assert_eq!(
        check_target_unchanged(&item, "/right/alpha", None),
        Err(WorkspaceError::StaleFileOperationPlan("/right/alpha".to_owned()))
    );
    assert_eq!(stage_identifier(3, 4), 30_004);

    let undo = undo_entry(FileOperationKind::Move, &item, "/right/alpha", "/b/batch-1/item-0");
    assert_eq!(undo.target_backup.as_deref(), Some("/b/batch-1/item-0/target"));
    assert_eq!(undo.source_backup.as_deref(), Some("/b/batch-1/item-0/source"));
    assert!(!undo.target_was_new);
    let mut applied = undo.clone();
    applied.applied_target_fingerprint = Some(33);
    let fine = UndoObservation { target_fingerprint: Some(33), source_exists: false, target_backup_exists: true, source_backup_exists: true };
    assert_eq!(check_undo_item(&applied, fine), Ok(()));
    assert_eq!(
        check_undo_item(&applied, UndoObservation { target_fingerprint: Some(34), ..fine }),
        Err(WorkspaceError::StaleFileOperationPlan("/right/alpha".to_owned()))
    );
    assert_eq!(
        check_undo_item(&applied, UndoObservation { source_exists: true, ..fine }),
        Err(WorkspaceError::StaleFileOperationPlan("/left/alpha".to_owned()))
    );
    assert_eq!(
        check_undo_item(&applied, UndoObservation { target_backup_exists: false, ..fine }),
        Err(WorkspaceError::InvalidFileOperation("撤销所需的目标备份不存在。".to_owned()))
    );
    assert_eq!(
        check_batch_undo(false, false),
        Err(WorkspaceError::InvalidFileOperation("移入系统废纸篓的操作请在访达中恢复。".to_owned()))
    );
    assert_eq!(check_batch_undo(true, true), Err(WorkspaceError::FileOperationAlreadyUndone));
    assert_eq!(check_batch_undo(true, false), Ok(()));
    assert_eq!(batch_recovery(true, false, "copy"), BatchRecovery::Nothing);
    assert_eq!(batch_recovery(false, false, "trash"), BatchRecovery::MarkTrashCompleted);
    assert_eq!(batch_recovery(true, true, "trash"), BatchRecovery::RollBack);
    assert_eq!(batch_recovery(false, false, "move"), BatchRecovery::RollBack);
    assert_eq!(trash_entry_name(3, 1, Some("alpha")), "3-1-alpha");
    assert_eq!(trash_entry_name(3, 1, None), "3-1-skill");
}

#[test]
fn pending_plans_keep_the_policy_of_the_request() {
    let pending = PendingFileOperationPlan {
        kind: FileOperationKind::Move,
        conflict_policy: FileConflictPolicy::Skip,
        items: vec![pending_item(true)],
        staging_root: None,
    };
    let public = public_plan(9, &pending);
    assert!(!public.items[0].will_overwrite);
    assert!(public.items[0].will_remove_source);
    assert!(public.undoable);
}

#[test]
fn backups_the_application_makes_pass_its_undo_checks() {
    for db in ["/data/app/index.sqlite3", "relative/dir/index.sqlite3", "/index.sqlite3"] {
        for (batch, index) in [(1_i64, 0_usize), (-5, 12), (i64::MAX, usize::MAX)] {
            let item = item_backup_root(db, batch, index);
            assert_eq!(check_backup_item(db, &item), Ok(()));
            assert_eq!(check_backup_path(db, &format!("{item}/target")), Ok(()));
            assert_eq!(check_backup_path(db, &format!("{item}/source")), Ok(()));
            assert_eq!(check_backup_root(db, &batch_backup_root(db, batch)), Ok(()));
            assert_eq!(backup_batch_dir(db, &format!("{item}/target")), Some(batch_backup_root(db, batch)));
        }
    }
}

#[test]
fn accepted_zip_entries_stay_inside_the_destination() {
    for name in ["a/./b.md", "./", "dir\\file.md", "x/y/", "skill/SKILL.md"] {
        let path = safe_zip_entry_path(name).unwrap();
        assert!(path.is_empty() || skill_workspace::path::safe_relative_path(&path).is_ok(), "{name} -> {path}");
    }
    assert_eq!(safe_zip_entry_path("./").unwrap(), "");
    assert_eq!(safe_zip_entry_path("dir\\file.md").unwrap(), "dir/file.md");
}

#[test]
fn trash_entries_of_different_items_get_different_names() {
    let entries = [(1_i64, 23_usize, Some("x")), (12, 3, Some("x")), (1, 2, Some("3-x")), (-1, 2, Some("x")), (1, 2, None)];
    for (i, (b1, i1, n1)) in entries.iter().enumerate() {
        for (j, (b2, i2, n2)) in entries.iter().enumerate() {
            assert_eq!(trash_entry_name(*b1, *i1, *n1) == trash_entry_name(*b2, *i2, *n2), i == j);
        }
    }
    assert_eq!(trash_entry_name(-1, 2, None), "-1-2-skill");
}

#[test]
fn settling_an_undo_record_keeps_or_drops_the_last_entry() {
    let item = pending_item(true);
    let first = undo_entry(FileOperationKind::Copy, &item, "/right/a", "/b/batch-1/item-0");
    let second = undo_entry(FileOperationKind::Move, &item, "/right/b", "/b/batch-1/item-1");
    let mut undo = vec![first.clone(), second.clone()];
    settle_undo_record(&mut undo, Some(7));
    assert_eq!(undo.len(), 2);
    assert_eq!(undo[0], first);
    assert_eq!(undo[1].applied_target_fingerprint, Some(7));
    assert_eq!(undo[1].target, "/right/b");
    settle_undo_record(&mut undo, None);
    assert_eq!(undo, vec![first]);
}

#[test]
fn undo_puts_back_the_target_and_a_moved_source() {
    let item = pending_item(true);
    let moved = undo_entry(FileOperationKind::Move, &item, "/right/alpha", "/b/batch-1/item-0");
    assert_eq!(
        undo_actions(&moved, true),
        vec![
            UndoAction::RestoreTarget("/b/batch-1/item-0/target".to_owned()),
            UndoAction::RestoreSource("/b/batch-1/item-0/source".to_owned()),
        ]
    );
    assert_eq!(undo_actions(&moved, false), vec![UndoAction::RestoreTarget("/b/batch-1/item-0/target".to_owned())]);
    let created = undo_entry(FileOperationKind::Copy, &pending_item(false), "/right/alpha", "/b/batch-1/item-0");
    assert!(created.target_was_new);
    assert_eq!(undo_actions(&created, true), vec![UndoAction::RemoveTarget]);
}
