use skill_workspace::path::{
    normalized_path, normalized_relative_path, path_components, path_file_name, path_join,
    path_parent, path_starts_with, safe_relative_path,
};
use skill_workspace::text::{join_strings, split_terms, trim_string, words};
use skill_workspace::WorkspaceError;

#[test]
fn path_components_follow_the_standard_library() {
    assert_eq!(path_components("/a//b/./c/"), vec!["/", "a", "b", "c"]);
    assert_eq!(path_components("./a/../b"), vec![".", "a", "..", "b"]);
    assert_eq!(path_components(""), Vec::<String>::new());
}

#[test]
fn safe_relative_paths_stay_inside_the_skill() {
    assert_eq!(safe_relative_path("docs/readme.md").unwrap(), "docs/readme.md");
    for bad in ["", "/etc/passwd", "../x", "a/../../b", "./a"] {
        match safe_relative_path(bad) {
            Err(WorkspaceError::InvalidSkillPath(message)) => {
                assert_eq!(message, "路径指向 Skill 目录之外")
            }
            other => panic!("{bad}: {other:?}"),
        }
    }
}

#[test]
fn joins_parents_and_names_are_lexical() {
    assert_eq!(path_join("/root", "a/b"), "/root/a/b");
    assert_eq!(path_join("/root/", "a"), "/root/a");
    assert_eq!(path_join("/root", "/abs"), "/abs");
    assert_eq!(path_join("", "a"), "a");
    assert_eq!(path_parent("/a/b"), Some("/a".to_owned()));
    assert_eq!(path_parent("/"), None);
    assert_eq!(path_parent("index.sqlite3"), Some(String::new()));
    assert_eq!(path_file_name("/a/b.md"), Some("b.md".to_owned()));
    assert_eq!(path_file_name("/a/.."), None);
    assert_eq!(normalized_path("a//b/./c"), "a/b/c");
    assert!(path_starts_with("/root/a/b", "/root/a"));
    assert!(!path_starts_with("/root/ab", "/root/a"));
    assert_eq!(normalized_relative_path("/root", "/root/team/skill"), "team/skill");
    assert_eq!(normalized_relative_path("/other", "/root/x"), "//root/x");
}

#[test]
fn stored_lists_split_into_trimmed_terms() {
    assert_eq!(split_terms(" alpha \n\n beta\r\ngamma "), vec!["alpha", "beta", "gamma"]);
    assert!(split_terms("").is_empty());
    assert_eq!(trim_string("\u{3000} x \t"), "x");
    assert_eq!(words(" a  b\tc\n"), vec!["a", "b", "c"]);
    assert_eq!(join_strings(&vec!["a".to_owned(), "b".to_owned()], "；"), "a；b");
}

#[test]
fn normalizing_a_safe_path_twice_is_normalizing_once() {
    for path in ["a//b/./c", "refs/guide.md", "x/./y/"] {
        let once = normalized_path(path);
        assert_eq!(normalized_path(&once), once);
        assert!(safe_relative_path(&once).is_ok());
    }
}

#[test]
fn a_bare_carriage_return_ends_no_line() {
    assert_eq!(skill_workspace::text::lines("a\r\nb\r"), vec!["a", "b\r"]);
    assert_eq!(skill_workspace::text::lines("a\r\n"), vec!["a"]);
}
