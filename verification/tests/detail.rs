use skill_workspace::detail::{
    check_preview_target, entry_kind, file_preview, locate_instance, previewable_media_type,
    SkillFileEntry, SkillFileKind, SkillFilePreview, MAX_PREVIEW_BYTES,
};
use skill_workspace::{
    SkillInstance, SkillRoot, SkillRootStatus, SkillStatus, SkillWorkspace, WorkspaceError,
    WorkspaceSnapshot,
};

fn snapshot() -> WorkspaceSnapshot {
    WorkspaceSnapshot {
        authorized_root: None,
        roots: vec![SkillRoot {
            id: 1,
            path: "/roots/main".to_owned(),
            status: SkillRootStatus::Ready,
            error: None,
            recovery_hint: None,
        }],
        instances: vec![
            SkillInstance {
                id: "1:review".to_owned(),
                root_id: 1,
                name: "Review".to_owned(),
                description: "Reviews".to_owned(),
                relative_path: "review".to_owned(),
                skill_file_path: "/roots/main/review/SKILL.md".to_owned(),
                link_path: None,
                real_path: "/roots/main/review".to_owned(),
                status: SkillStatus::Ready,
                error: None,
            },
            SkillInstance {
                id: "9:orphan".to_owned(),
                root_id: 9,
                name: "Orphan".to_owned(),
                description: String::new(),
                relative_path: "orphan".to_owned(),
                skill_file_path: "/gone/orphan/SKILL.md".to_owned(),
                link_path: None,
                real_path: "/gone/orphan".to_owned(),
                status: SkillStatus::Ready,
                error: None,
            },
        ],
    }
}

fn entry(path: &str, kind: SkillFileKind) -> SkillFileEntry {
    SkillFileEntry { relative_path: path.to_owned(), kind, size: 3, modified_at: 1 }
}

#[test]
fn detail_lists_sorted_files_tags_and_groups() {
    let workspace = SkillWorkspace { database_path: "/data/index.sqlite3".to_owned() };
    let files = vec![
        entry("scripts/run.sh", SkillFileKind::Text),
        entry("SKILL.md", SkillFileKind::Text),
        entry("scripts", SkillFileKind::Directory),
        entry("logo.png", SkillFileKind::Binary),
    ];
    let detail = workspace
        .skill_detail(&snapshot(), "1:review", files, "写作\n 审阅 \n", "团队")
        .unwrap();
    assert_eq!(detail.instance.name, "Review");
    assert_eq!(detail.root.id, 1);
    let paths: Vec<&str> = detail.files.iter().map(|f| f.relative_path.as_str()).collect();
    assert_eq!(paths, vec!["SKILL.md", "logo.png", "scripts", "scripts/run.sh"]);
    assert_eq!(detail.file_count, 3);
    assert_eq!(detail.tags, vec!["写作", "审阅"]);
    assert_eq!(detail.skill_groups, vec!["团队"]);
}

#[test]
fn detail_reports_unknown_instances_and_missing_roots() {
    let workspace = SkillWorkspace { database_path: "/data/index.sqlite3".to_owned() };
    match workspace.skill_detail(&snapshot(), "1:missing", Vec::new(), "", "") {
        Err(WorkspaceError::UnknownInstance(id)) => assert_eq!(id, "1:missing"),
        other => panic!("{other:?}"),
    }
    match locate_instance(&snapshot(), "9:orphan") {
        Err(WorkspaceError::InvalidRoot(message)) => assert_eq!(message, "Skill 实例缺少根目录"),
        other => panic!("{other:?}"),
    }
}

#[test]
fn previews_show_text_images_and_sizes() {
    assert_eq!(
        file_preview("# 标题\n".as_bytes().to_vec()),
        SkillFilePreview::Text { content: "# 标题\n".to_owned() }
    );
    let png = vec![0x89, b'P', b'N', b'G', 0xff, 0x00];
    assert_eq!(previewable_media_type(&png), Some("image/png"));
    assert_eq!(
        file_preview(png.clone()),
        SkillFilePreview::Binary {
            size: 6,
            media_type: Some("image/png".to_owned()),
            preview_content: Some(png),
        }
    );
    assert_eq!(previewable_media_type(&[0xff, 0xd8, 0xff, 0x00]), Some("image/jpeg"));
    assert_eq!(previewable_media_type(b"GIF89a\x00"), Some("image/gif"));
    assert_eq!(previewable_media_type(b"RIFF\x00\x00\x00\x00WEBPVP8 "), Some("image/webp"));
    assert_eq!(previewable_media_type(&[0x00, 0xff]), None);
    assert_eq!(
        file_preview(vec![0x00, 0xff, 0xfe]),
        SkillFilePreview::Binary { size: 3, media_type: None, preview_content: None }
    );
    let mut large = vec![0x89, b'P', b'N', b'G'];
    large.resize(MAX_PREVIEW_BYTES + 1, 0xff);
    match file_preview(large) {
        SkillFilePreview::Binary { media_type, preview_content, size } => {
            assert_eq!(media_type.as_deref(), Some("image/png"));
            assert_eq!(preview_content, None);
            assert_eq!(size, (MAX_PREVIEW_BYTES + 1) as u64);
        }
        other => panic!("{other:?}"),
    }
}

#[test]
fn entries_are_links_directories_text_or_binary() {
    assert_eq!(entry_kind(true, true, b"text"), SkillFileKind::SymbolicLink);
    assert_eq!(entry_kind(false, true, b""), SkillFileKind::Directory);
    assert_eq!(entry_kind(false, false, "说明".as_bytes()), SkillFileKind::Text);
    assert_eq!(entry_kind(false, false, b"a\x00b"), SkillFileKind::Binary);
    assert_eq!(entry_kind(false, false, &[0xff]), SkillFileKind::Binary);
}

#[test]
fn previews_stay_inside_the_skill_and_name_files() {
    assert_eq!(check_preview_target("/s/review", "/s/review/a.md", true), Ok(()));
    assert_eq!(
        check_preview_target("/s/review", "/s/other/a.md", true),
        Err(WorkspaceError::InvalidSkillPath("路径指向 Skill 目录之外".to_owned()))
    );
    assert_eq!(
        check_preview_target("/s/review", "/s/review/dir", false),
        Err(WorkspaceError::InvalidSkillPath("所选路径不是文件".to_owned()))
    );
}
