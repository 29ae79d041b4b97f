use skill_workspace::edit::{
    compose_skill_document, confirm_draft_target, draft_file_paths, invalid_draft_error,
    plan_draft_changes, plan_write, rollback_step, sibling_work_path, skill_document, undo_step,
    validation_issue, FileObservation, PendingWrite, ResolvedDraftTarget, RestoreStep, SkillChangeKind,
    SkillDraft, SkillDraftTarget, SkillFileDraftChange, SkillFileDraftOperation, SkillPlannedChange,
};
use skill_workspace::{
    SkillInstance, SkillRoot, SkillRootStatus, SkillStatus, SkillWorkspace, WorkspaceError,
    WorkspaceSnapshot,
};

fn workspace() -> SkillWorkspace {
    SkillWorkspace { database_path: "/data/index.sqlite3".to_owned() }
}

fn draft(target: SkillDraftTarget, changes: Vec<SkillFileDraftChange>) -> SkillDraft {
    SkillDraft {
        target,
        name: "demo".to_owned(),
        description: "A skill".to_owned(),
        markdown_body: "\n\n# Demo\n".to_owned(),
        file_changes: changes,
    }
}

fn change(path: &str, operation: SkillFileDraftOperation) -> SkillFileDraftChange {
    SkillFileDraftChange { relative_path: path.to_owned(), operation }
}

fn snapshot() -> WorkspaceSnapshot {
    WorkspaceSnapshot {
        authorized_root: None,
        roots: vec![SkillRoot {
            id: 1,
            path: "/roots/main".to_owned(),
            status: SkillRootStatus::Ready,
            error: None,
            recovery_hint: None,
        }],
        instances: vec![SkillInstance {
            id: "1:demo".to_owned(),
            root_id: 1,
            name: "demo".to_owned(),
            description: "A skill".to_owned(),
            relative_path: "demo".to_owned(),
            skill_file_path: "/roots/main/demo/SKILL.md".to_owned(),
            link_path: Some("/roots/main/demo".to_owned()),
            real_path: "/real/demo".to_owned(),
            status: SkillStatus::Ready,
            error: None,
        }],
    }
}

fn observed(current: Option<&[u8]>, exists: bool, is_file: bool, size: u64) -> FileObservation {
    FileObservation { current: current.map(|b| b.to_vec()), exists, is_file, size }
}

#[test]
fn validation_lists_every_issue_in_order() {
    let mut bad = draft(
        SkillDraftTarget::New { root_id: 1, relative_path: "../escape".to_owned() },
        vec![
            change("/abs", SkillFileDraftOperation::Delete),
            change("skill.MD", SkillFileDraftOperation::Delete),
            change("notes/a.md", SkillFileDraftOperation::Delete),
            change("notes//a.md", SkillFileDraftOperation::WriteText { content: "x".to_owned() }),
        ],
    );
    bad.name = "  ".to_owned();
    bad.description = "\n".to_owned();
    let validation = workspace().validate_skill_draft(&bad);
    assert!(!validation.valid);
    let pairs: Vec<(&str, &str)> =
        validation.issues.iter().map(|i| (i.field.as_str(), i.message.as_str())).collect();
    assert_eq!(
        pairs,
        vec![
            ("name", "Skill 名称不能为空。"),
            ("description", "Skill 描述不能为空。"),
            ("relativePath", "新 Skill 路径必须位于所选 Skill 根目录内。"),
            ("fileChanges", "文件路径不安全：/abs。"),
            ("fileChanges", "请通过元数据表单和 Markdown 编辑器修改 SKILL.md。"),
            ("fileChanges", "同一文件不能重复修改：notes//a.md。"),
        ]
    );
    match invalid_draft_error(&validation) {
        WorkspaceError::InvalidDraft(message) => assert!(message.starts_with("Skill 名称不能为空。；Skill 描述不能为空。；")),
        other => panic!("{other:?}"),
    }
    let good = draft(
        SkillDraftTarget::Existing { instance_id: "1:demo".to_owned() },
        vec![change("notes/a.md", SkillFileDraftOperation::Delete)],
    );
    let validation = workspace().validate_skill_draft(&good);
    assert!(validation.valid);
    assert!(validation.issues.is_empty());
    assert_eq!(validation_issue("name", "m".to_owned()).field, "name");
}

#[test]
fn draft_targets_resolve_against_the_catalog() {
    let existing = workspace()
        .resolve_draft_target(&snapshot(), &SkillDraftTarget::Existing { instance_id: "1:demo".to_owned() })
        .unwrap();
    assert_eq!(
        existing,
        ResolvedDraftTarget { root_id: 1, instance_id: Some("1:demo".to_owned()), directory: "/real/demo".to_owned() }
    );
    let created = workspace()
        .resolve_draft_target(
            &snapshot(),
            &SkillDraftTarget::New { root_id: 1, relative_path: "team/new".to_owned() },
        )
        .unwrap();
    assert_eq!(created.directory, "/roots/main/team/new");
    assert_eq!(created.instance_id, None);
    assert_eq!(
        workspace().resolve_draft_target(&snapshot(), &SkillDraftTarget::New { root_id: 5, relative_path: "x".to_owned() }),
        Err(WorkspaceError::InvalidRoot("找不到所选 Skill 根目录".to_owned()))
    );
    assert_eq!(
        workspace().resolve_draft_target(&snapshot(), &SkillDraftTarget::Existing { instance_id: "2:x".to_owned() }),
        Err(WorkspaceError::UnknownInstance("2:x".to_owned()))
    );
    assert_eq!(
        confirm_draft_target(created.clone(), true),
        Err(WorkspaceError::InvalidDraft("新 Skill 的目标目录已经存在。".to_owned()))
    );
    assert_eq!(confirm_draft_target(created.clone(), false), Ok(created));
    assert_eq!(confirm_draft_target(existing.clone(), true), Ok(existing));
}

#[test]
fn skill_documents_hold_yaml_metadata_and_the_trimmed_body() {
    let d = draft(SkillDraftTarget::Existing { instance_id: "1:demo".to_owned() }, Vec::new());
    assert_eq!(
        compose_skill_document(&d).unwrap(),
        "---\nname: demo\ndescription: A skill\n---\n\n# Demo\n"
    );
    assert_eq!(skill_document("a: b\n", "  body"), "---\na: b\n---\n\nbody");
}

#[test]
fn plans_write_only_changed_files_and_delete_existing_ones() {
    let d = draft(
        SkillDraftTarget::Existing { instance_id: "1:demo".to_owned() },
        vec![
            change("notes/./b.md", SkillFileDraftOperation::WriteText { content: "same".to_owned() }),
            change("assets/logo.bin", SkillFileDraftOperation::ReplaceBinary { content: vec![1, 2, 3] }),
            change("old.md", SkillFileDraftOperation::Delete),
            change("absent.md", SkillFileDraftOperation::Delete),
        ],
    );
    assert_eq!(
        draft_file_paths(&d),
        vec!["SKILL.md", "notes/b.md", "assets/logo.bin", "old.md", "absent.md"]
    );
    let document = compose_skill_document(&d).unwrap();
    let observations = vec![
        observed(Some(b"old document"), true, true, 12),
        observed(Some(b"same"), true, true, 4),
        observed(None, false, false, 0),
        observed(Some(&[0xff, 0x00]), true, true, 2),
        observed(None, false, false, 0),
    ];
    let (writes, deletes, changes) = plan_draft_changes(&document, &d, &observations).unwrap();
    assert_eq!(
        writes,
        vec![
            PendingWrite { relative_path: "SKILL.md".to_owned(), content: document.as_bytes().to_vec() },
            PendingWrite { relative_path: "assets/logo.bin".to_owned(), content: vec![1, 2, 3] },
        ]
    );
    assert_eq!(deletes, vec!["old.md"]);
    assert_eq!(
        changes,
        vec![
            SkillPlannedChange {
                relative_path: "SKILL.md".to_owned(),
                kind: SkillChangeKind::Overwrite,
                binary: false,
                size: document.len() as u64,
            },
            SkillPlannedChange {
                relative_path: "assets/logo.bin".to_owned(),
                kind: SkillChangeKind::Create,
                binary: true,
                size: 3,
            },
            SkillPlannedChange { relative_path: "old.md".to_owned(), kind: SkillChangeKind::Delete, binary: true, size: 2 },
        ]
    );
}

#[test]
fn plan_write_refuses_unsafe_paths() {
    let mut writes = Vec::new();
    let mut changes = Vec::new();
    assert_eq!(
        plan_write("../x", vec![1], false, &None, &mut writes, &mut changes),
        Err(WorkspaceError::InvalidSkillPath("路径指向 Skill 目录之外".to_owned()))
    );
    assert!(writes.is_empty() && changes.is_empty());
    assert_eq!(plan_write("a.md", vec![1], false, &Some(vec![1]), &mut writes, &mut changes), Ok(()));
    assert!(writes.is_empty());
}

#[test]
fn work_paths_sit_beside_the_target() {
    assert_eq!(
        sibling_work_path("/roots/main/demo", "stage", 42).unwrap(),
        "/roots/main/.skill-management-stage-42-demo"
    );
    assert_eq!(
        sibling_work_path("/", "undo", 1),
        Err(WorkspaceError::InvalidSkillPath("Skill 目标目录缺少父目录".to_owned()))
    );
    assert_eq!(sibling_work_path("/a/..", "old", -7).unwrap(), "/a/.skill-management-old--7-skill");
}

#[test]
fn restoring_removes_new_targets_and_needs_a_backup_otherwise() {
    assert_eq!(rollback_step(true, None), Ok(RestoreStep::RemoveTarget));
    assert_eq!(
        rollback_step(false, Some("/b".to_owned())),
        Ok(RestoreStep::RestoreFrom("/b".to_owned()))
    );
    assert_eq!(
        rollback_step(false, None),
        Err(WorkspaceError::InvalidDraft("保存失败后找不到可恢复的本地备份。".to_owned()))
    );
    assert_eq!(
        undo_step(false, None),
        Err(WorkspaceError::InvalidDraft("编辑操作的本地备份不存在。".to_owned()))
    );
}

#[test]
fn planning_a_change_validates_resolves_and_composes() {
    let d = draft(
        SkillDraftTarget::New { root_id: 1, relative_path: "fresh".to_owned() },
        vec![change("notes.md", SkillFileDraftOperation::WriteText { content: "hi".to_owned() })],
    );
    let observations = vec![observed(None, false, false, 0), observed(None, false, false, 0)];
    let (pending, changes) = workspace().plan_skill_change(&d, &snapshot(), false, &observations, None).unwrap();
    assert_eq!(pending.root_id, 1);
    assert_eq!(pending.instance_id, None);
    assert_eq!(pending.target_directory, "/roots/main/fresh");
    assert_eq!(pending.baseline_fingerprint, None);
    assert_eq!(pending.writes.len(), 2);
    assert_eq!(pending.writes[0].content, compose_skill_document(&d).unwrap().into_bytes());
    assert_eq!(changes.iter().map(|c| c.kind).collect::<Vec<_>>(), vec![SkillChangeKind::Create, SkillChangeKind::Create]);
    assert_eq!(
        workspace().plan_skill_change(&d, &snapshot(), true, &observations, None),
        Err(WorkspaceError::InvalidDraft("新 Skill 的目标目录已经存在。".to_owned()))
    );
    let mut blank = d.clone();
    blank.name = String::new();
    assert_eq!(
        workspace().plan_skill_change(&blank, &snapshot(), false, &observations, None),
        Err(WorkspaceError::InvalidDraft("Skill 名称不能为空。".to_owned()))
    );
    let elsewhere = draft(SkillDraftTarget::Existing { instance_id: "3:none".to_owned() }, Vec::new());
    assert_eq!(
        workspace().plan_skill_change(&elsewhere, &snapshot(), true, &vec![observed(None, false, false, 0)], None),
        Err(WorkspaceError::UnknownInstance("3:none".to_owned()))
    );
}

#[test]
fn planned_paths_are_normalized_and_stay_inside() {
    let d = draft(
        SkillDraftTarget::Existing { instance_id: "1:demo".to_owned() },
        vec![
            change("refs//./guide.md", SkillFileDraftOperation::WriteText { content: "guide".to_owned() }),
            change("old//./x.md", SkillFileDraftOperation::Delete),
        ],
    );
    let document = compose_skill_document(&d).unwrap();
    let observations = vec![
        observed(None, false, false, 0),
        observed(None, false, false, 0),
        observed(Some(b"old"), true, true, 3),
    ];
    let (writes, deletes, _) = plan_draft_changes(&document, &d, &observations).unwrap();
    let paths: Vec<&str> = writes.iter().map(|w| w.relative_path.as_str()).collect();
    assert_eq!(paths, vec!["SKILL.md", "refs/guide.md"]);
    assert_eq!(deletes, vec!["old/x.md"]);
}
