use std::path::PathBuf;

use blog_server::config::{default_config_text, parse_config, DEFAULT_PASSWORD, DEFAULT_USERNAME};
use blog_server::cpus::parse_cpu_list;
use blog_server::page::post_page;
use blog_server::procfs::{split_words, stat_ticks, vmrss_kb};
use blog_server::sha256::sha256_hex;

#[test]
fn config_reads_keys() {
    let cfg = parse_config("username = bob\npassword_sha256= abc \n", PathBuf::from("/srv")).unwrap();
    assert_eq!(cfg.username, "bob");
    assert_eq!(cfg.password_sha256, "abc");
    assert_eq!(cfg.root, PathBuf::from("/srv"));
}

#[test]
fn config_defaults_and_overrides() {
    let cfg = parse_config("# comment\n\njunk line\nfoo=bar\npassword_sha256=a\r\npassword_sha256=b", PathBuf::new()).unwrap();
    assert_eq!(cfg.username, "admin");
    assert_eq!(cfg.password_sha256, "b");
    let cfg = parse_config("  # username=eve\npassword_sha256=h=x", PathBuf::new()).unwrap();
    assert_eq!(cfg.username, "admin");
    assert_eq!(cfg.password_sha256, "h=x");
}

#[test]
fn config_refused_without_hash() {
    assert_eq!(
        parse_config("# c\n\nusername=x", PathBuf::new()).err(),
        Some("password_sha256 is empty".to_string())
    );
    assert_eq!(
        parse_config("password_sha256=   ", PathBuf::new()).err(),
        Some("password_sha256 is empty".to_string())
    );
    assert!(parse_config("", PathBuf::new()).is_err());
}

#[test]
fn default_config_reads_back() {
    let hash = sha256_hex(DEFAULT_PASSWORD.as_bytes());
    let text = default_config_text(&hash);
    assert!(text.starts_with("# JerryHang blog static server config\n"));
    assert!(text.ends_with(&format!("username=admin\npassword_sha256={hash}\n")));
    let cfg = parse_config(&text, PathBuf::from("site")).unwrap();
    assert_eq!(cfg.username, DEFAULT_USERNAME);
    assert_eq!(cfg.password_sha256, hash);
}

#[test]
fn post_page_escapes_title_and_date() {
    let page = post_page("<T>", "2024 & co", "<p>x</p>");
    assert!(page.starts_with("<!DOCTYPE html><html lang=zh><head><meta charset=\"utf-8\">"));
    assert!(page.contains("<title>&lt;T&gt;</title><style>"));
    assert!(page.ends_with(
        "<h1>&lt;T&gt;</h1><p class=date>2024 &amp; co</p><article><p>x</p></article></div></body></html>"
    ));
}

#[test]
fn words_split_on_whitespace() {
    assert_eq!(split_words("  a b\t c\n"), vec!["a".to_string(), "b".to_string(), "c".to_string()]);
    assert_eq!(split_words(""), Vec::<String>::new());
    assert_eq!(split_words("x\u{3000}y"), vec!["x".to_string(), "y".to_string()]);
}

#[test]
fn vmrss_from_status_text() {
    assert_eq!(vmrss_kb("Name:\tx\nVmRSS:\t  12345 kB\nVmSwap: 0 kB\n"), Some(12345));
    assert_eq!(vmrss_kb("Name:\tx\n"), None);
    assert_eq!(vmrss_kb("VmRSS:"), None);
    assert_eq!(vmrss_kb("VmRSS: abc kB\nVmRSS: 5 kB"), None);
    assert_eq!(vmrss_kb("VmRSS:\t7 kB\r\n"), Some(7));
}

#[test]
fn cpu_ticks_from_stat_text() {
    assert_eq!(stat_ticks("1 (bash) S 0 0 0 0 0 0 0 0 0 0 250 40 0 0"), (250, 40));
    assert_eq!(stat_ticks("1 (bash) S 0 0 0 0 0 0 0 0 0 0 x 40 0 0"), (0, 40));
    assert_eq!(stat_ticks("1 2 3"), (0, 0));
    assert_eq!(stat_ticks("0 1 2 3 4 5 6 7 8 9 10 11 12 13"), (0, 0));
}

#[test]
fn cpu_lists() {
    assert_eq!(parse_cpu_list("0-3,6"), vec![0, 1, 2, 3, 6]);
    assert_eq!(parse_cpu_list(""), Vec::<usize>::new());
    assert_eq!(parse_cpu_list("3-1"), Vec::<usize>::new());
    assert_eq!(parse_cpu_list("a,2"), vec![2]);
    assert_eq!(parse_cpu_list("1-x,4"), vec![4]);
    assert_eq!(parse_cpu_list(" 1"), Vec::<usize>::new());
    assert_eq!(parse_cpu_list("5-5"), vec![5]);
}
