use skill_workspace::duplicate::{
    check_decision_instances,
    component_labels, component_members, CandidatePair,
    compare_contents, compare_files, decision_kind_database, decision_kind_from_database,
    duplicate_statuses, group_display_name, group_key, instance_content, is_ignored_file,
    normalized_decision_ids, pair_key, readable_text_diff, review_groups, review_instance,
    similar_enough, stable_fingerprint, suppressed_pairs, DuplicateCheckStatus,
    DuplicateDecisionKind, DuplicateDecisionRecord, DuplicateFileDifferenceStatus,
    DuplicateFileNodeKind, DuplicateHitRule, DuplicateTextDiffLineKind, EffectiveFile, FileTree,
    InstanceContent, SimilarityScore, MAX_TEXT_DIFF_LINES,
};
use skill_workspace::similarity::normalized_name;
use skill_workspace::{SkillInstance, SkillStatus, WorkspaceError};

fn skill_file(name: &str, description: &str, body: &str) -> Vec<u8> {
    format!("---\nname: {name}\ndescription: {description}\n---\n\n{body}").into_bytes()
}

fn instance(id: &str, name: &str) -> SkillInstance {
    SkillInstance {
        id: id.to_owned(),
        root_id: 1,
        name: name.to_owned(),
        description: String::new(),
        relative_path: id.to_owned(),
        skill_file_path: format!("/s/{id}/SKILL.md"),
        link_path: None,
        real_path: format!("/s/{id}"),
        status: SkillStatus::Ready,
        error: None,
    }
}

fn content(id: &str, name: &str, files: Vec<(&str, Vec<u8>)>) -> InstanceContent {
    let mut tree = FileTree::new();
    for (path, bytes) in files {
        tree.insert(path.to_owned(), EffectiveFile::new(bytes, DuplicateFileNodeKind::File));
    }
    instance_content(instance(id, name), tree)
}

#[test]
fn fingerprints_are_fnv1a_in_hex() {
    assert_eq!(stable_fingerprint(b""), "cbf29ce484222325");
    assert_eq!(stable_fingerprint(b"a"), "af63dc4c8601ec8c");
    assert_eq!(group_key(&vec!["a".to_owned(), "b".to_owned()]), stable_fingerprint(b"a\0b"));
    assert_eq!(pair_key("b", "a"), "a\0b");
    assert_eq!(pair_key("a", "b"), pair_key("b", "a"));
}

#[test]
fn names_compare_without_case_and_punctuation() {
    assert_eq!(normalized_name("Release Notes"), "releasenotes");
    assert_eq!(normalized_name("release-notes"), "releasenotes");
    assert_eq!(normalized_name("Ärger_2"), "ärger2");
    assert!(is_ignored_file(Some(".DS_Store")));
    assert!(is_ignored_file(Some("._icon.png")));
    assert!(!is_ignored_file(Some("SKILL.md")));
    assert!(!is_ignored_file(None));
}

#[test]
fn similarity_threshold_is_point_eight_two() {
    assert!(similar_enough(SimilarityScore { exact: false, common: 41, total: 100 }));
    assert!(!similar_enough(SimilarityScore { exact: false, common: 40, total: 100 }));
    assert!(similar_enough(SimilarityScore { exact: true, common: 0, total: 0 }));
    assert!(!similar_enough(SimilarityScore { exact: false, common: 0, total: 0 }));
}

#[test]
fn similarity_threshold_includes_exact_point_eight_two_and_excludes_the_lower_fixture() {
    let at = |a: &str, b: &str| {
        let left = content("l", "boundary-review", vec![("SKILL.md", skill_file("boundary-review", "检查边界。", a))]);
        let right = content("r", "boundary-review", vec![("SKILL.md", skill_file("boundary-review", "检查边界。", b))]);
        compare_contents(&left, &right)
    };
    let exactly = at(&format!("{}{}", "共".repeat(24), "甲".repeat(17)), &format!("{}{}", "共".repeat(24), "乙".repeat(17)));
    assert_eq!(exactly.similarity.common * 100, exactly.similarity.total * 41);
    assert_eq!(exactly.status, DuplicateCheckStatus::Suspected);
    assert!(exactly.hit_rules.contains(&DuplicateHitRule::ContentSimilarity));
    let below = at(&format!("{}{}", "共".repeat(24), "甲".repeat(18)), &format!("{}{}", "共".repeat(24), "乙".repeat(18)));
    assert!(below.similarity.common * 100 < below.similarity.total * 41);
    assert_eq!(below.status, DuplicateCheckStatus::NameConflict);
    assert!(!below.hit_rules.contains(&DuplicateHitRule::ContentSimilarity));
}

#[test]
fn long_diffs_are_bounded_and_flag_truncation() {
    let left: String = (0..1_100).map(|line| format!("左侧第 {line} 行\n")).collect();
    let right: String = (0..1_100).map(|line| format!("右侧第 {line} 行\n")).collect();
    let (lines, truncated) = readable_text_diff(Some(&left), Some(&right));
    assert!(truncated);
    assert!(lines.len() <= MAX_TEXT_DIFF_LINES);
    let (small, cut) = readable_text_diff(Some("a\nb\n"), Some("a\nc\n"));
    assert!(!cut);
    assert_eq!(small[0].kind, DuplicateTextDiffLineKind::Equal);
    assert_eq!(small[1].kind, DuplicateTextDiffLineKind::Modified);
    assert_eq!(small[1].left.as_deref(), Some("b"));
    assert_eq!(small[1].right.as_deref(), Some("c"));
    assert_eq!(small[1].left_line_number, Some(2));
}

#[test]
fn reviews_group_exact_suspected_and_name_conflicts() {
    let api = skill_file("api-review", "审查 API 安全边界。", "# API Review\n\n检查鉴权、幂等性、重放保护与错误响应。\n");
    let notes_body = format!("# 发布说明\n\n{}", "收集功能、修复、兼容性和升级步骤，并输出清晰的版本摘要。\n".repeat(6));
    let contents = vec![
        content("tools:api-review", "api-review", vec![("SKILL.md", api.clone())]),
        content("agent:api-review-copy", "api-review", vec![("SKILL.md", api)]),
        content(
            "tools:release-notes",
            "release-notes",
            vec![
                ("SKILL.md", skill_file("release-notes", "整理清晰的版本发布说明。", &notes_body)),
                ("references/template.md", b"## \xe5\x8a\x9f\xe8\x83\xbd\n".to_vec()),
            ],
        ),
        content(
            "shared:release-notes-v2",
            "Release Notes",
            vec![
                ("SKILL.md", skill_file("Release Notes", "整理清晰且可核对的版本发布说明。", &notes_body)),
                ("references/template.md", b"## \xe5\x8a\x9f\xe8\x83\xbd\n".to_vec()),
            ],
        ),
        content("agent:auth-helper", "auth-helper", vec![("SKILL.md", skill_file("auth-helper", "生成 OAuth 鉴权流程。", "# OAuth\n\n生成登录、令牌刷新和退出流程。\n")), ("icon.bin", vec![0, 1, 2, 3])]),
        content("shared:auth-helper-other", "Auth Helper", vec![("SKILL.md", skill_file("Auth Helper", "管理本地图片素材。", "# 图片整理\n\n压缩 PNG，重命名截图并生成缩略图。\n")), ("icon.bin", vec![9, 8, 7, 6, 5])]),
    ];
    let review = review_groups(&contents, &Vec::new());
    assert_eq!(review.groups.len(), 3);
    assert_eq!(review.suppressed_count, 0);
    let exact = review.groups.iter().find(|g| g.status == DuplicateCheckStatus::Exact).unwrap();
    assert_eq!(exact.instances.len(), 2);
    assert!(exact.hit_rules.contains(&DuplicateHitRule::ExactContent));
    assert_eq!(exact.fingerprint_files, vec!["SKILL.md"]);
    assert!(exact.comparisons[0].files.iter().all(|f| f.status == DuplicateFileDifferenceStatus::Identical));
    let suspected = review.groups.iter().find(|g| g.status == DuplicateCheckStatus::Suspected).unwrap();
    assert!(suspected.hit_rules.contains(&DuplicateHitRule::NormalizedName));
    let conflict = review.groups.iter().find(|g| g.status == DuplicateCheckStatus::NameConflict).unwrap();
    assert_eq!(conflict.name, "auth-helper");
    let icon = conflict.comparisons[0].files.iter().find(|f| f.relative_path == "icon.bin").unwrap();
    assert_eq!(icon.status, DuplicateFileDifferenceStatus::Modified);
    assert_eq!(icon.left_size, Some(4));
    assert_eq!(icon.right_size, Some(5));
    let mean = |scores: &[SimilarityScore]| {
        scores
            .iter()
            .map(|s| if s.exact { 1.0 } else if s.total == 0 { 0.0 } else { 2.0 * s.common as f64 / s.total as f64 })
            .sum::<f64>()
            / scores.len() as f64
    };
    assert_eq!(mean(&exact.similarity.scores), 1.0);
    assert!(mean(&suspected.similarity.scores) >= 0.82);
    assert!(mean(&conflict.similarity.scores) < 0.82);
    assert_eq!(conflict.similarity.scores.len(), conflict.comparisons.len());

    let instances: Vec<SkillInstance> = contents.iter().map(|c| c.instance.clone()).collect();
    let statuses = duplicate_statuses(&instances, &review.groups);
    assert_eq!(statuses.len(), 6);
    assert_eq!(statuses[0].status, DuplicateCheckStatus::Exact);

    let decision = DuplicateDecisionRecord {
        id: 1,
        instance_ids: vec!["agent:auth-helper".to_owned(), "shared:auth-helper-other".to_owned()],
        kind: DuplicateDecisionKind::NotDuplicate,
        created_at: 0,
    };
    let reviewed = review_groups(&contents, &vec![decision.clone()]);
    assert_eq!(reviewed.groups.len(), 2);
    assert_eq!(reviewed.suppressed_count, 1);
    assert_eq!(suppressed_pairs(&vec![decision]), vec!["agent:auth-helper\0shared:auth-helper-other"]);
}

#[test]
fn group_names_and_decisions_follow_their_rules() {
    let a = review_instance(&instance("1", "Release Notes"));
    let b = review_instance(&instance("2", "release-notes"));
    let c = review_instance(&instance("3", "auth"));
    assert_eq!(group_display_name(&vec![a.clone(), b.clone()]), "Release Notes");
    assert_eq!(group_display_name(&vec![a.clone(), c.clone(), b]), "Release Notes / auth");
    assert_eq!(decision_kind_database(&DuplicateDecisionKind::NotDuplicate), "not_duplicate");
    assert_eq!(decision_kind_from_database("ignored"), DuplicateDecisionKind::Ignored);
    assert_eq!(decision_kind_from_database("x"), DuplicateDecisionKind::Ignored);
    assert_eq!(
        normalized_decision_ids(&vec!["b".to_owned(), "a".to_owned(), "b".to_owned()]).unwrap(),
        vec!["a", "b"]
    );
    assert_eq!(
        normalized_decision_ids(&vec!["a".to_owned(), "a".to_owned()]),
        Err(WorkspaceError::InvalidDraft("重复检查裁决至少需要两个 Skill 实例。".to_owned()))
    );
}

#[test]
fn tree_comparisons_list_every_path_once() {
    let mut left = FileTree::new();
    left.insert("a.md".to_owned(), EffectiveFile::new(b"same".to_vec(), DuplicateFileNodeKind::File));
    left.insert("b.md".to_owned(), EffectiveFile::new(b"left".to_vec(), DuplicateFileNodeKind::File));
    let mut right = FileTree::new();
    right.insert("a.md".to_owned(), EffectiveFile::new(b"same".to_vec(), DuplicateFileNodeKind::SymbolicLink));
    right.insert("c.md".to_owned(), EffectiveFile::new(b"right".to_vec(), DuplicateFileNodeKind::File));
    let differences = compare_files(&left, &right);
    let summary: Vec<(&str, DuplicateFileDifferenceStatus)> =
        differences.iter().map(|d| (d.relative_path.as_str(), d.status)).collect();
    assert_eq!(
        summary,
        vec![
            ("a.md", DuplicateFileDifferenceStatus::Modified),
            ("b.md", DuplicateFileDifferenceStatus::OnlyLeft),
            ("c.md", DuplicateFileDifferenceStatus::OnlyRight),
        ]
    );
}

#[test]
fn comparing_in_either_order_gives_the_same_score_and_status() {
    let left = content("l", "Release Notes", vec![("SKILL.md", skill_file("Release Notes", "写发布说明。", "abcabcab"))]);
    let right = content("r", "release-notes", vec![("SKILL.md", skill_file("release-notes", "写发布说明。", "abcxyz"))]);
    let forward = compare_contents(&left, &right);
    let backward = compare_contents(&right, &left);
    assert_eq!(forward.similarity, backward.similarity);
    assert_eq!(forward.status, backward.status);
    assert_eq!(forward.hit_rules, backward.hit_rules);
    assert!(forward.similarity.common * 2 <= forward.similarity.total);
    assert!(forward.similarity.common > 0);
}

#[test]
fn oversized_text_diffs_are_bounded_and_report_truncation() {
    let large_left: String = (0..1_100).map(|line| format!("左侧第 {line} 行\n")).collect();
    let large_right: String = (0..1_100).map(|line| format!("右侧第 {line} 行\n")).collect();
    let left = content(
        "left:long",
        "long-review",
        vec![
            ("SKILL.md", skill_file("long-review", "长文本审阅。", "共同正文。\n")),
            ("large.md", large_left.into_bytes()),
        ],
    );
    let right = content(
        "right:long",
        "Long Review",
        vec![
            ("SKILL.md", skill_file("Long Review", "长文本审阅。", "共同正文。\n")),
            ("large.md", large_right.into_bytes()),
        ],
    );
    let comparison = compare_contents(&left, &right);
    let large_diff = comparison
        .files
        .iter()
        .find(|file| file.relative_path == "large.md")
        .expect("超长文本差异");
    assert!(large_diff.text_diff_truncated);
    assert!(large_diff.text_diff.as_ref().is_some_and(|lines| lines.len() <= 1_000));
}

#[test]
fn duplicate_groups_hold_each_instance_at_most_once() {
    let contents: Vec<InstanceContent> = (0..6)
        .map(|i| content(&format!("i{i}"), &format!("n{i}"), vec![("SKILL.md", skill_file("n", "d", "b"))]))
        .collect();
    let pair = |left: usize, right: usize| CandidatePair {
        left,
        right,
        comparison: compare_contents(&contents[left], &contents[right]),
    };
    let candidates = vec![pair(0, 3), pair(4, 5), pair(3, 5), pair(1, 2)];
    let labels = component_labels(6, &candidates);
    let groups = component_members(&labels);
    assert_eq!(groups, vec![vec![0, 3, 4, 5], vec![1, 2]]);
    let mut seen = std::collections::BTreeSet::new();
    for group in &groups {
        assert!(group.len() >= 2);
        for member in group {
            assert!(seen.insert(*member));
        }
    }
}

#[test]
fn decisions_are_keyed_by_their_set_of_instances() {
    let ids = |values: &[&str]| values.iter().map(|v| v.to_string()).collect::<Vec<_>>();
    let first = normalized_decision_ids(&ids(&["2:b", "1:a", "2:b"])).unwrap();
    let second = normalized_decision_ids(&ids(&["1:a", "2:b"])).unwrap();
    assert_eq!(first, second);
    assert_eq!(group_key(&first), group_key(&second));
}

#[test]
fn a_text_against_itself_or_nothing_shows_each_line_once() {
    let text = "a\nb\nb\n";
    let (same, cut) = readable_text_diff(Some(text), Some(text));
    assert!(!cut);
    assert_eq!(same.len(), 3);
    assert!(same.iter().all(|line| line.kind == DuplicateTextDiffLineKind::Equal));
    let (left_only, _) = readable_text_diff(Some(text), None);
    assert_eq!(left_only.len(), 3);
    assert!(left_only.iter().all(|line| line.kind == DuplicateTextDiffLineKind::OnlyLeft));
    let (right_only, _) = readable_text_diff(None, Some(text));
    assert_eq!(right_only.len(), 3);
    assert!(right_only.iter().all(|line| line.kind == DuplicateTextDiffLineKind::OnlyRight));
}

#[test]
fn decisions_name_only_catalog_instances() {
    let instances = vec![instance("1:a", "a"), instance("1:b", "b")];
    let ids = |values: &[&str]| values.iter().map(|v| v.to_string()).collect::<Vec<_>>();
    assert_eq!(check_decision_instances(&instances, &ids(&["1:a", "1:b"])), Ok(()));
    assert_eq!(
        check_decision_instances(&instances, &ids(&["1:a", "2:x", "3:y"])),
        Err(WorkspaceError::UnknownInstance("2:x".to_owned()))
    );
}

#[test]
fn a_last_line_keeps_a_bare_carriage_return() {
    let (lines, _) = readable_text_diff(Some("a\r"), Some("a"));
    assert_eq!(lines.len(), 1);
    assert_eq!(lines[0].kind, DuplicateTextDiffLineKind::Modified);
}
