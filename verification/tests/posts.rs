use blog_server::post::{
    build_log_query, derive_desc, list_or_empty, slug_candidate, slugify, string_list_from_json, string_list_json,
};

#[test]
fn slugify_titles() {
    assert_eq!(slugify("Hello World"), "Hello-World");
    assert_eq!(slugify("  a   b  "), "a-b");
    assert_eq!(slugify("你好\u{3000}世界"), "你好-世界");
    assert_eq!(slugify("a - b"), "a---b");
    assert_eq!(slugify("trail -"), "trail");
}

#[test]
fn slugify_blank_and_dashes() {
    assert_eq!(slugify(""), "post");
    assert_eq!(slugify(" \t\n "), "post");
    assert_eq!(slugify("---"), "");
}

#[test]
fn law_slug_has_no_whitespace_on_samples() {
    for t in ["a b\tc", "  x\u{3000}y  ", "\n\nz", "one"] {
        assert!(!slugify(t).chars().any(|c| c.is_whitespace()));
    }
}

#[test]
fn slug_candidates_number_the_base() {
    assert_eq!(slug_candidate("hello", 2), "hello-2");
    assert_eq!(slug_candidate("", 10), "-10");
}

#[test]
fn description_from_first_line() {
    assert_eq!(derive_desc("\n\n  First line here\nSecond", ""), "First line here");
    assert_eq!(derive_desc("Title   \nmore", "   "), "Title   ");
    assert_eq!(derive_desc("a\r\nb", ""), "a");
    assert_eq!(derive_desc("x", " keep "), " keep ");
    assert_eq!(derive_desc("", ""), "");
    assert_eq!(derive_desc(&"a".repeat(100), ""), "a".repeat(80));
    assert_eq!(derive_desc(&"字".repeat(90), ""), "字".repeat(80));
}

#[test]
fn json_lists_round_trip() {
    let items = vec!["a".to_string(), "b\"c".to_string()];
    let text = string_list_json(&items);
    assert_eq!(text, "[\"a\",\"b\\\"c\"]");
    assert_eq!(string_list_from_json(&text), items);
    assert_eq!(string_list_json(&Vec::new()), "[]");
}

#[test]
fn json_lists_default_to_empty() {
    assert_eq!(string_list_from_json("not json"), Vec::<String>::new());
    assert_eq!(string_list_from_json("[1]"), Vec::<String>::new());
    assert_eq!(string_list_from_json("[\"x\",\"y\"]"), vec!["x".to_string(), "y".to_string()]);
    assert_eq!(list_or_empty(None), Vec::<String>::new());
    assert_eq!(list_or_empty(Some(vec!["q".to_string()])), vec!["q".to_string()]);
}

#[test]
fn log_query_with_all_filters() {
    let q = build_log_query(2, 20, "scan", "10.0", "GET");
    assert_eq!(
        q.count_sql,
        "SELECT COUNT(*) FROM request_logs WHERE 1=1 AND category=?1 AND ip LIKE ?2 AND method=?3"
    );
    assert_eq!(
        q.data_sql,
        "SELECT id,timestamp,ip,method,path,status_code,user_agent,category FROM request_logs WHERE 1=1 AND category=?1 AND ip LIKE ?2 AND method=?3 ORDER BY id DESC LIMIT ?4 OFFSET ?5"
    );
    assert_eq!(q.params, vec!["scan".to_string(), "%10.0%".to_string(), "GET".to_string()]);
    assert_eq!(q.limit, 20);
    assert_eq!(q.offset, 20);
}

#[test]
fn log_query_numbers_placeholders_in_order() {
    let q = build_log_query(1, 50, "", "1.2", "");
    assert_eq!(q.count_sql, "SELECT COUNT(*) FROM request_logs WHERE 1=1 AND ip LIKE ?1");
    assert!(q.data_sql.ends_with("WHERE 1=1 AND ip LIKE ?1 ORDER BY id DESC LIMIT ?2 OFFSET ?3"));
    assert_eq!(q.params, vec!["%1.2%".to_string()]);
    assert_eq!(q.offset, 0);
    let none = build_log_query(3, 10, "", "", "");
    assert_eq!(none.count_sql, "SELECT COUNT(*) FROM request_logs WHERE 1=1");
    assert!(none.data_sql.ends_with("WHERE 1=1 ORDER BY id DESC LIMIT ?1 OFFSET ?2"));
    assert!(none.params.is_empty());
    assert_eq!(none.offset, 20);
}

#[test]
fn law_log_sql_independent_of_values_on_samples() {
    let a = build_log_query(1, 20, "scan", "1.1.1.1", "");
    let b = build_log_query(9, 5, "x'; DROP TABLE posts;--", "?", "");
    assert_eq!(a.count_sql, b.count_sql);
    assert_eq!(a.data_sql, b.data_sql);
    assert_eq!(b.params[0], "x'; DROP TABLE posts;--");
}

#[test]
fn json_lists_escape_control_characters() {
    let items = vec!["\u{1}\n\t\\".to_string(), "é\u{7f}".to_string()];
    let text = string_list_json(&items);
    assert_eq!(text, "[\"\\u0001\\n\\t\\\\\",\"é\u{7f}\"]");
    assert_eq!(string_list_from_json(&text), items);
}
