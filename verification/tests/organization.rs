use skill_workspace::organization::{
    check_group_order, group_change_outcome, new_memberships, normalized_term, normalized_terms, tags_after,
    prepare_organization_change, unique_group_ids, unique_instance_ids, validate_disjoint,
    validate_disjoint_ids, SkillOrganizationChange,
};
use skill_workspace::WorkspaceError;

fn texts(values: &[&str]) -> Vec<String> {
    values.iter().map(|v| v.to_string()).collect()
}

#[test]
fn selections_keep_first_appearances() {
    assert_eq!(unique_instance_ids(&texts(&["b", "a", "b", "c", "a"])).unwrap(), texts(&["b", "a", "c"]));
    assert_eq!(
        unique_instance_ids(&Vec::new()),
        Err(WorkspaceError::InvalidOrganization("至少选择一个 Skill 实例。".to_owned()))
    );
    assert_eq!(unique_group_ids(&vec![5, -1, 5, 3]), vec![-1, 3, 5]);
}

#[test]
fn terms_are_trimmed_single_line_and_short() {
    assert_eq!(normalized_term("  写作 ", "Skill 标签").unwrap(), "写作");
    let refused = Err(WorkspaceError::InvalidOrganization("Skill 标签不能为空、不能换行，且最多 80 个字符。".to_owned()));
    assert_eq!(normalized_term("   ", "Skill 标签"), refused);
    assert_eq!(normalized_term("a\nb", "Skill 标签"), refused);
    assert_eq!(normalized_term(&"字".repeat(81), "Skill 标签"), refused);
    assert_eq!(normalized_term(&"字".repeat(80), "Skill 标签").unwrap().chars().count(), 80);
    assert_eq!(normalized_terms(&texts(&[" b", "a ", "b"]), "Skill 标签").unwrap(), texts(&["a", "b"]));
    assert_eq!(
        normalized_terms(&texts(&["ok", ""]), "Skill 组名称"),
        Err(WorkspaceError::InvalidOrganization("Skill 组名称不能为空、不能换行，且最多 80 个字符。".to_owned()))
    );
}

#[test]
fn changes_may_not_add_and_remove_the_same_thing() {
    assert_eq!(validate_disjoint(&texts(&["a"]), &texts(&["b"]), "Skill 标签"), Ok(()));
    assert_eq!(
        validate_disjoint(&texts(&["a", "b"]), &texts(&["b"]), "Skill 标签"),
        Err(WorkspaceError::InvalidOrganization("同一个Skill 标签不能同时添加和移除。".to_owned()))
    );
    assert_eq!(
        validate_disjoint_ids(&vec![1, 2], &vec![2], "Skill 组"),
        Err(WorkspaceError::InvalidOrganization("同一个Skill 组不能同时添加和移除。".to_owned()))
    );
    let prepared = prepare_organization_change(&SkillOrganizationChange {
        instance_ids: texts(&["x", "x", "y"]),
        add_tags: texts(&[" beta ", "alpha"]),
        remove_tags: texts(&["gamma"]),
        add_group_ids: vec![3, 1, 3],
        remove_group_ids: vec![2],
    })
    .unwrap();
    assert_eq!(prepared.instance_ids, texts(&["x", "y"]));
    assert_eq!(prepared.add_tags, texts(&["alpha", "beta"]));
    assert_eq!(prepared.add_group_ids, vec![1, 3]);
    assert_eq!(
        prepare_organization_change(&SkillOrganizationChange {
            instance_ids: texts(&["x"]),
            add_tags: texts(&["t"]),
            remove_tags: texts(&[" t"]),
            ..Default::default()
        }),
        Err(WorkspaceError::InvalidOrganization("同一个Skill 标签不能同时添加和移除。".to_owned()))
    );
}

#[test]
fn custom_orders_rearrange_exactly_the_members() {
    assert_eq!(check_group_order(&texts(&["a", "b"]), &texts(&["b", "a"])), Ok(()));
    let refused = Err(WorkspaceError::InvalidOrganization(
        "自定义顺序必须包含 Skill 组中的全部实例，且不能包含其他实例。".to_owned(),
    ));
    assert_eq!(check_group_order(&texts(&["a", "b"]), &texts(&["a"])), refused);
    assert_eq!(check_group_order(&texts(&["a"]), &texts(&["a", "c"])), refused);
    assert_eq!(group_change_outcome(0, 4), Err(WorkspaceError::UnknownSkillGroup(4)));
    assert_eq!(group_change_outcome(1, 4), Ok(()));
}

#[test]
fn normalized_terms_normalize_to_themselves() {
    for value in ["  发布  ", "release\t", "\n review"] {
        let once = normalized_term(value, "标签").unwrap();
        assert_eq!(normalized_term(&once, "标签").unwrap(), once);
    }
}

#[test]
fn organization_changes_are_refused_in_order_with_their_messages() {
    let refused = |change: SkillOrganizationChange| prepare_organization_change(&change).unwrap_err();
    assert_eq!(
        refused(SkillOrganizationChange { add_tags: texts(&["   "]), ..Default::default() }),
        WorkspaceError::InvalidOrganization("至少选择一个 Skill 实例。".to_owned())
    );
    assert_eq!(
        refused(SkillOrganizationChange {
            instance_ids: texts(&["x"]),
            remove_tags: texts(&["a\nb"]),
            add_group_ids: vec![1],
            remove_group_ids: vec![1],
            ..Default::default()
        }),
        WorkspaceError::InvalidOrganization("Skill 标签不能为空、不能换行，且最多 80 个字符。".to_owned())
    );
    assert_eq!(
        refused(SkillOrganizationChange {
            instance_ids: texts(&["x"]),
            add_group_ids: vec![4, 1],
            remove_group_ids: vec![1],
            ..Default::default()
        }),
        WorkspaceError::InvalidOrganization("同一个Skill 组不能同时添加和移除。".to_owned())
    );
    assert!(prepare_organization_change(&SkillOrganizationChange {
        instance_ids: texts(&["x"]),
        add_group_ids: vec![4],
        remove_group_ids: vec![1],
        ..Default::default()
    })
    .is_ok());
}

#[test]
fn changes_update_tags_and_append_new_members_in_order() {
    assert_eq!(tags_after(&texts(&["b", "a", "c"]), &texts(&["d", "a"]), &texts(&["c"])), texts(&["a", "b", "d"]));
    assert_eq!(
        new_memberships(5, &texts(&["x", "y", "z"]), &texts(&["y"])),
        vec![("x".to_owned(), 5), ("z".to_owned(), 6)]
    );
    assert_eq!(new_memberships(0, &texts(&["x"]), &texts(&["x"])), Vec::new());
}
