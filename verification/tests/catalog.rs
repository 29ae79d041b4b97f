use skill_workspace::catalog::{
    completed_scan, descends_into, document_from_metadata, frontmatter, inaccessible_root,
    instance_id, invalid_utf8_document, is_ignored_directory, missing_frontmatter_document,
    non_empty, paths_equal, scan_warning, skill_instance, unavailable_root,
    unparsable_frontmatter_document, unreadable_document, ParsedSkillDocument, RootProblem,
    ScanWarning,
};
use skill_workspace::{SkillInstance, SkillRootStatus, SkillStatus, WorkspaceError};

fn instance(relative_path: &str) -> SkillInstance {
    SkillInstance {
        id: format!("1:{relative_path}"),
        root_id: 1,
        name: relative_path.to_owned(),
        description: String::new(),
        relative_path: relative_path.to_owned(),
        skill_file_path: format!("/root/{relative_path}/SKILL.md"),
        link_path: None,
        real_path: format!("/root/{relative_path}"),
        status: SkillStatus::Ready,
        error: None,
    }
}

#[test]
fn statuses_are_stored_as_their_texts_and_read_back() {
    for status in [SkillStatus::Ready, SkillStatus::NeedsRepair] {
        assert_eq!(SkillStatus::from_database(status.as_database()), status);
    }
    assert_eq!(SkillStatus::Ready.as_database(), "ready");
    assert_eq!(SkillStatus::NeedsRepair.as_database(), "needs_repair");
    assert_eq!(SkillStatus::from_database("anything"), SkillStatus::NeedsRepair);
    for status in [
        SkillRootStatus::Ready,
        SkillRootStatus::PartialFailure,
        SkillRootStatus::Missing,
        SkillRootStatus::PermissionDenied,
    ] {
        assert_eq!(SkillRootStatus::from_database(status.as_database()), status);
    }
    assert_eq!(SkillRootStatus::PermissionDenied.as_database(), "permission_denied");
    assert_eq!(SkillRootStatus::from_database("unknown"), SkillRootStatus::Ready);
}

#[test]
fn frontmatter_is_the_text_between_the_leading_markers() {
    assert_eq!(
        frontmatter("---\nname: demo\ndescription: d\n---\n\nbody"),
        Some("name: demo\ndescription: d".to_owned())
    );
    assert_eq!(frontmatter("name: demo\n---\n"), None);
    assert_eq!(frontmatter("---\nname: demo\n"), None);
    assert_eq!(frontmatter("---\n\n---\n"), Some(String::new()));
}

#[test]
fn metadata_needs_a_name_and_a_description() {
    let complete = document_from_metadata(Some("  Demo ".to_owned()), Some("Does it".to_owned()));
    assert_eq!(
        complete,
        ParsedSkillDocument {
            name: Some("Demo".to_owned()),
            description: Some("Does it".to_owned()),
            error: None,
        }
    );
    let nameless = document_from_metadata(Some("   ".to_owned()), Some("d".to_owned()));
    assert_eq!(nameless.name, None);
    assert_eq!(nameless.error.as_deref(), Some("YAML frontmatter 缺少 name"));
    let undescribed = document_from_metadata(Some("n".to_owned()), None);
    assert_eq!(undescribed.error.as_deref(), Some("YAML frontmatter 缺少 description"));
    assert_eq!(non_empty(Some(" x ".to_owned())), Some("x".to_owned()));
    assert_eq!(non_empty(Some("\t\n".to_owned())), None);
}

#[test]
fn unusable_documents_carry_their_problem() {
    assert_eq!(
        missing_frontmatter_document().error.as_deref(),
        Some("SKILL.md 缺少 YAML frontmatter")
    );
    assert_eq!(
        unparsable_frontmatter_document("bad indent").error.as_deref(),
        Some("YAML frontmatter 无法解析：bad indent")
    );
    assert_eq!(invalid_utf8_document().error.as_deref(), Some("SKILL.md 不是有效的 UTF-8 文本"));
    assert_eq!(
        unreadable_document("denied").error.as_deref(),
        Some("无法读取 SKILL.md：denied")
    );
}

#[test]
fn scanner_skips_tool_and_cache_directories() {
    for name in [".git", "node_modules", "__pycache__", "target", "build_cache", "$RECYCLE.BIN"] {
        assert!(is_ignored_directory(name), "{name}");
    }
    for name in ["skills", "cache", "git", "Target"] {
        assert!(!is_ignored_directory(name), "{name}");
    }
    assert!(descends_into(true, false, Some("skills")));
    assert!(descends_into(false, true, Some("linked")));
    assert!(!descends_into(false, false, Some("file.md")));
    assert!(!descends_into(true, false, Some(".git")));
    assert!(descends_into(true, false, None));
}

#[test]
fn instances_are_named_by_document_or_directory() {
    assert_eq!(instance_id(7, "team/review"), "7:team/review");
    assert_eq!(instance_id(-3, "a"), "-3:a");
    let parsed = document_from_metadata(Some("Checker".to_owned()), Some("Checks".to_owned()));
    let found = skill_instance(
        2,
        "/roots/main",
        "/roots/main/team/review",
        "/roots/main/team/review",
        "/roots/main/team/review/SKILL.md",
        Some("review".to_owned()),
        parsed,
    );
    assert_eq!(found.id, "2:team/review");
    assert_eq!(found.name, "Checker");
    assert_eq!(found.relative_path, "team/review");
    assert_eq!(found.link_path, None);
    assert_eq!(found.status, SkillStatus::Ready);

    let linked = skill_instance(
        2,
        "/roots/main",
        "/roots/main/linked",
        "/elsewhere/real",
        "/roots/main/linked/SKILL.md",
        Some("linked".to_owned()),
        missing_frontmatter_document(),
    );
    assert_eq!(linked.name, "linked");
    assert_eq!(linked.description, "");
    assert_eq!(linked.link_path.as_deref(), Some("/roots/main/linked"));
    assert_eq!(linked.real_path, "/elsewhere/real");
    assert_eq!(linked.status, SkillStatus::NeedsRepair);

    let unnamed = skill_instance(1, "/r", "/r", "/r/", "/r/SKILL.md", None, invalid_utf8_document());
    assert_eq!(unnamed.name, "未命名 Skill");
    assert_eq!(unnamed.link_path, None);
    assert!(paths_equal("/r", "/r/"));
    assert!(!paths_equal("/r/a", "/r/b"));
}

#[test]
fn scans_sort_instances_and_report_warnings() {
    let outcome = completed_scan(vec![instance("b"), instance("a/z"), instance("a")], &Vec::new());
    let paths: Vec<&str> = outcome.instances.iter().map(|i| i.relative_path.as_str()).collect();
    assert_eq!(paths, vec!["a", "a/z", "b"]);
    assert_eq!(outcome.status, SkillRootStatus::Ready);
    assert_eq!(outcome.error, None);
    assert_eq!(outcome.recovery_hint, None);

    let partial = completed_scan(vec![instance("x")], &vec!["one".to_owned(), "two".to_owned()]);
    assert_eq!(partial.status, SkillRootStatus::PartialFailure);
    assert_eq!(partial.error.as_deref(), Some("one；two"));
    assert_eq!(
        partial.recovery_hint.as_deref(),
        Some("检查提示中的目录或符号链接后重新扫描。")
    );
}

#[test]
fn unreachable_roots_explain_status_and_recovery() {
    let missing = inaccessible_root("/gone", RootProblem::NotFound);
    assert!(missing.instances.is_empty());
    assert_eq!(missing.status, SkillRootStatus::Missing);
    assert_eq!(missing.error.as_deref(), Some("Skill 根目录不存在：/gone"));
    assert_eq!(
        missing.recovery_hint.as_deref(),
        Some("确认目录未被移动或删除，然后重新添加该目录。")
    );
    let denied = inaccessible_root("/locked", RootProblem::PermissionDenied);
    assert_eq!(denied.status, SkillRootStatus::PermissionDenied);
    assert_eq!(denied.error.as_deref(), Some("没有权限访问 Skill 根目录：/locked"));
    let listing = inaccessible_root("/locked", RootProblem::ListingDenied);
    assert_eq!(listing.error.as_deref(), Some("没有权限读取 Skill 根目录：/locked"));
    let file = inaccessible_root("/file", RootProblem::NotDirectory);
    assert_eq!(file.status, SkillRootStatus::Missing);
    assert_eq!(file.error.as_deref(), Some("Skill 根目录已不是文件夹：/file"));
    let other = inaccessible_root("/disk", RootProblem::Unreachable("I/O".to_owned()));
    assert_eq!(other.status, SkillRootStatus::PartialFailure);
    assert_eq!(other.error.as_deref(), Some("无法访问 Skill 根目录 /disk：I/O"));
    assert_eq!(other.recovery_hint.as_deref(), Some("检查磁盘和目录状态后重新扫描。"));
    let custom = unavailable_root(SkillRootStatus::Missing, "e".to_owned(), "h");
    assert_eq!(custom.error.as_deref(), Some("e"));
    assert_eq!(custom.recovery_hint.as_deref(), Some("h"));
}

#[test]
fn scan_warnings_name_the_path_and_the_cause() {
    assert_eq!(
        scan_warning(ScanWarning::LinkTargetUnreachable, "/r/link", "missing"),
        "符号链接 /r/link 的目标不可访问：missing"
    );
    assert_eq!(scan_warning(ScanWarning::EntryUnreadable, "/r", "bad"), "读取目录项失败：bad");
    assert_eq!(
        scan_warning(ScanWarning::DirectoryUnreadable, "/r/a", "denied"),
        "无法读取目录 /r/a：denied"
    );
    assert_eq!(scan_warning(ScanWarning::ChildUnreachable, "/r/b", "x"), "目录 /r/b 不可访问：x");
}

#[test]
fn different_roots_or_paths_get_different_ids() {
    let pairs = [(1_i64, "2:x"), (12, "x"), (1, "2x"), (-1, "2:x"), (1, "-2:x"), (0, "x")];
    for (i, (a, p)) in pairs.iter().enumerate() {
        for (j, (b, q)) in pairs.iter().enumerate() {
            assert_eq!(instance_id(*a, p) == instance_id(*b, q), i == j);
        }
    }
}

#[test]
fn scans_sort_stably_and_leave_sorted_results_alone() {
    let mut first = instance("same");
    first.name = "first".to_owned();
    let mut second = instance("same");
    second.name = "second".to_owned();
    let outcome = completed_scan(vec![instance("z"), first.clone(), second.clone(), instance("a")], &Vec::new());
    let names: Vec<&str> = outcome.instances.iter().map(|i| i.name.as_str()).collect();
    assert_eq!(names, vec!["a", "first", "second", "z"]);
    let again = completed_scan(outcome.instances.clone(), &Vec::new());
    assert_eq!(again.instances, outcome.instances);
}

#[test]
fn errors_show_localized_messages_without_platform_detail() {
    assert_eq!(
        WorkspaceError::Io("No such file or directory (os error 2)".to_owned()).message(),
        "读取本地文件失败，请检查路径、权限或磁盘状态。"
    );
    assert!(WorkspaceError::StaleFileOperationPlan("/r/a".to_owned()).message().contains("计划已过期"));
    assert!(WorkspaceError::StaleChangePlan.message().contains("过期"));
    assert_eq!(WorkspaceError::UnknownChangePlan(-7).message(), "找不到修改计划：-7");
    assert_eq!(WorkspaceError::InvalidArchive("ZIP 包含路径穿越。".to_owned()).message(), "ZIP 包含路径穿越。");
}
