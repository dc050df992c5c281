use blog_server::hub::{
    body_after_front_matter, categories_input, commit_message, date_from_output, date_text, is_yes, join_lines,
    menu_action, parse_csv, pick_post, post_file_content, post_file_name, rewrite_post_body, slugify,
    title_from_content, word_count, MenuAction, Pick,
};

#[test]
fn csv_fields_trimmed_and_nonempty() {
    assert_eq!(parse_csv("a, b,,c ,"), vec!["a".to_string(), "b".to_string(), "c".to_string()]);
    assert_eq!(parse_csv(""), Vec::<String>::new());
    assert_eq!(parse_csv(" , "), Vec::<String>::new());
    assert_eq!(parse_csv("生活"), vec!["生活".to_string()]);
}

#[test]
fn file_slug_may_be_empty() {
    assert_eq!(slugify("  a  b "), "a-b");
    assert_eq!(slugify(""), "");
    assert_eq!(slugify("---"), "");
}

#[test]
fn dates_are_zero_padded() {
    assert_eq!(date_text(2024, 3, 5), "2024-03-05");
    assert_eq!(date_text(5, 1, 1), "0005-01-01");
    assert_eq!(date_text(-1, 1, 1), "-001-01-01");
    assert_eq!(date_text(12345, 12, 31), "12345-12-31");
    assert_eq!(date_text(2024, 100, 7), "2024-100-07");
}

#[test]
fn new_post_file_text() {
    let cats = vec!["a".to_string(), "b".to_string()];
    let tags = vec!["x".to_string()];
    assert_eq!(
        post_file_content("T", "2024-01-02", &cats, &tags, true, "body"),
        "---\nlayout: post\ntitle: \"T\"\ndate: 2024-01-02\ncategories: [\"a\", \"b\"]\ntags: [\"x\"]\npinned: true\n---\n\n# T\n\nbody\n"
    );
    assert_eq!(
        post_file_content("T", "d", &Vec::new(), &Vec::new(), false, ""),
        "---\nlayout: post\ntitle: \"T\"\ndate: d\ncategories: []\ntags: []\n---\n\n# T\n\n\n"
    );
}

#[test]
fn lines_join_with_newlines() {
    assert_eq!(join_lines(&vec!["a".to_string(), "b".to_string()]), "a\nb");
    assert_eq!(join_lines(&vec!["only".to_string()]), "only");
    assert_eq!(join_lines(&Vec::new()), "");
}

#[test]
fn word_count_ignores_blanks() {
    assert_eq!(word_count("a b\tc\nd"), 4);
    assert_eq!(word_count("你好 世界"), 4);
    assert_eq!(word_count(""), 0);
    assert_eq!(word_count("a\r\n"), 2);
}

#[test]
fn titles_from_files() {
    assert_eq!(title_from_content("---\ntitle: \"Hi\"\n---", Some("x")), "Hi");
    assert_eq!(title_from_content("  title:   'quoted'  ", None), "quoted");
    assert_eq!(title_from_content("title: \"'mixed'\"", None), "mixed");
    assert_eq!(title_from_content("no title here", Some("my-post")), "my post");
    assert_eq!(title_from_content("", None), "<未命名>");
    assert_eq!(title_from_content("x\ntitle:\ntitle: second", None), "");
}

#[test]
fn bodies_after_front_matter() {
    assert_eq!(body_after_front_matter("---\nt\n---\nbody\nmore"), "body\nmore");
    assert_eq!(body_after_front_matter("no separator"), "");
    assert_eq!(body_after_front_matter("---\nt\n---\n"), "");
}

#[test]
fn rewriting_bodies() {
    assert_eq!(rewrite_post_body("---\nt\n---\n\nold\n", "new"), "---\nt\n---\n\n\nnew\n");
    assert_eq!(rewrite_post_body("plain", "new"), "\n\nnew\n");
    assert_eq!(rewrite_post_body("a\n\n---\n", "b"), "a\n\n---\n\n\nb\n");
    assert_eq!(rewrite_post_body("x\n---\n---\n", "b"), "x\n---\n\n\nb\n");
}

#[test]
fn yes_answers() {
    assert!(is_yes(" Y "));
    assert!(is_yes("yes"));
    assert!(is_yes("YeS\n"));
    assert!(!is_yes("no"));
    assert!(!is_yes("ye"));
    assert!(!is_yes(""));
}

#[test]
fn menu_choices() {
    assert!(matches!(menu_action(" 1 "), MenuAction::Write));
    assert!(matches!(menu_action("2"), MenuAction::Edit));
    assert!(matches!(menu_action("3"), MenuAction::Delete));
    assert!(matches!(menu_action("4"), MenuAction::List));
    assert!(matches!(menu_action("5\n"), MenuAction::Publish));
    assert!(matches!(menu_action("6"), MenuAction::Status));
    assert!(matches!(menu_action("0"), MenuAction::Quit));
    assert!(matches!(menu_action("7"), MenuAction::Unknown));
    assert!(matches!(menu_action(""), MenuAction::Unknown));
}

#[test]
fn picking_posts() {
    assert!(matches!(pick_post("2", 3), Pick::Index(1)));
    assert!(matches!(pick_post(" 3 ", 3), Pick::Index(2)));
    assert!(matches!(pick_post("+1", 3), Pick::Index(0)));
    assert!(matches!(pick_post("0", 3), Pick::OutOfRange));
    assert!(matches!(pick_post("4", 3), Pick::OutOfRange));
    assert!(matches!(pick_post("x", 3), Pick::NotANumber));
    assert!(matches!(pick_post("", 3), Pick::NotANumber));
}

#[test]
fn category_and_commit_defaults() {
    assert_eq!(categories_input("  "), vec!["随笔".to_string()]);
    assert_eq!(categories_input("a,b"), vec!["a".to_string(), "b".to_string()]);
    assert_eq!(commit_message("  "), "手机发布");
    assert_eq!(commit_message(" fix typo "), "fix typo");
}

#[test]
fn dates_from_command_output() {
    assert_eq!(date_from_output("2024-05-06\n"), (2024, 5, 6));
    assert_eq!(date_from_output("garbage"), (2026, 8, 23));
    assert_eq!(date_from_output("2024-xx-06"), (2026, 8, 23));
    assert_eq!(date_from_output("abcd-05-06"), (2026, 8, 23));
    assert_eq!(date_from_output("+999/01/02"), (999, 1, 2));
}

#[test]
fn post_file_names() {
    assert_eq!(post_file_name("hello", None), "hello.md");
    assert_eq!(post_file_name("hello", Some(2)), "hello-2.md");
    assert_eq!(post_file_name("", Some(3)), "-3.md");
}
