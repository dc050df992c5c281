use blog_server::html::{
    escape_attr, escape_tag, extract_name, html_escape, is_tag_name, render_markdown, sanitize_html, scrub_open,
    tokenize_attrs, try_render_markdown,
};

#[test]
fn html_escape_all_five() {
    assert_eq!(
        html_escape("<a href=\"x\">'&'</a>"),
        "&lt;a href=&quot;x&quot;&gt;&#39;&amp;&#39;&lt;/a&gt;"
    );
    assert_eq!(html_escape("plain 文本"), "plain 文本");
}

#[test]
fn law_escape_has_no_markup_on_sample() {
    let e = html_escape("<script>alert('x')</script> & \"q\"");
    assert!(!e.contains('<') && !e.contains('>') && !e.contains('"') && !e.contains('\''));
}

#[test]
fn escape_tag_keeps_single_quote() {
    assert_eq!(escape_tag("<b class='x'>"), "&lt;b class='x'&gt;");
    assert_eq!(escape_attr("a'b\"c"), "a&#39;b&quot;c");
}

#[test]
fn tag_names() {
    assert!(is_tag_name("h1"));
    assert!(is_tag_name("fig-caption"));
    assert!(!is_tag_name(""));
    assert!(!is_tag_name("a b"));
    assert!(!is_tag_name("é"));
    assert_eq!(extract_name("</DIV class=x>"), "div");
    assert_eq!(extract_name("<<//Span-1>"), "span-1");
    assert_eq!(extract_name("< p>"), "");
}

#[test]
fn tokenize_attribute_lists() {
    let t = tokenize_attrs("a=1 b=\"x y\" c='z' d");
    let want = vec![
        ("a".to_string(), "1".to_string()),
        ("b".to_string(), "x y".to_string()),
        ("c".to_string(), "z".to_string()),
        ("d".to_string(), String::new()),
    ];
    assert_eq!(t, want);
    assert_eq!(tokenize_attrs("=x k = v"), vec![("k".to_string(), "v".to_string())]);
    assert_eq!(tokenize_attrs("   "), Vec::<(String, String)>::new());
    assert_eq!(tokenize_attrs("t=\"open"), vec![("t".to_string(), "open".to_string())]);
}

#[test]
fn scrub_open_drops_handlers() {
    assert_eq!(scrub_open("<a href=x onclick=y>", "a"), "<a href=\"x\">");
    assert_eq!(scrub_open("<IMG SRC=\"a.png\">", "img"), "<img>");
}

#[test]
fn sanitize_keeps_safe_markup() {
    assert_eq!(sanitize_html("<p>Hello <b>World</b></p>"), "<p>Hello <b>World</b></p>");
    assert_eq!(sanitize_html("x > y"), "x > y");
    assert_eq!(sanitize_html(""), "");
}

#[test]
fn sanitize_escapes_script() {
    assert_eq!(
        sanitize_html("<script>alert(1)</script>"),
        "&lt;script&gt;alert(1)&lt;/script&gt;"
    );
    assert_eq!(sanitize_html("<iframe src=x>"), "&lt;iframe src=x&gt;");
    assert_eq!(sanitize_html("<style>b{}</style>"), "&lt;style&gt;b{}&lt;/style&gt;");
}

#[test]
fn sanitize_filters_attributes() {
    assert_eq!(
        sanitize_html("<a href=\"https://x.y\" onclick=\"evil()\">t</a>"),
        "<a href=\"https://x.y\">t</a>"
    );
    assert_eq!(sanitize_html("<a href=\"javascript:alert(1)\">x</a>"), "<a>x</a>");
    assert_eq!(sanitize_html("<a href=\"JavaScript:x\">x</a>"), "<a>x</a>");
    assert_eq!(sanitize_html("<a href=\"data:text/html,x\">x</a>"), "<a>x</a>");
    assert_eq!(sanitize_html("<p style=\"EXPRESSION(x)\" title=\"expression\">"), "<p>");
    assert_eq!(sanitize_html("<p onmouseover=alert(1)>"), "<p>");
    assert_eq!(sanitize_html("<img src=x.png alt=Cat>"), "<img src=\"x.png\" alt=\"Cat\">");
    assert_eq!(sanitize_html("<div data-x=\"1\" class=c>"), "<div class=\"c\">");
    assert_eq!(sanitize_html("<a target=_blank rel=noopener>"), "<a target=\"_blank\" rel=\"noopener\">");
    assert_eq!(sanitize_html("<p class>"), "<p class>");
    assert_eq!(sanitize_html("<p title='a\"b'>"), "<p title=\"a&quot;b\">");
    assert_eq!(sanitize_html("<br/>"), "<br>");
    assert_eq!(sanitize_html("<IMG SRC=\"a.png\">"), "<img>");
}

#[test]
fn law_sanitize_only_allowed_tags_on_samples() {
    assert_eq!(
        sanitize_html("<script>x</script><p onclick=y>ok</p>"),
        "&lt;script&gt;x&lt;/script&gt;<p>ok</p>"
    );
    assert_eq!(sanitize_html("<svg onload=alert(1)><b>x</b>"), "&lt;svg onload=alert(1)&gt;<b>x</b>");
    assert_eq!(
        sanitize_html("<a href='javascript:void(0)'>l</a><img src=x onerror=y>"),
        "<a>l</a><img src=\"x\">"
    );
    assert_eq!(sanitize_html("<a href=\"DATA:text/html\" title=t>"), "<a title=\"t\">");
}

#[test]
fn sanitize_keeps_end_tag_verbatim() {
    // A whitelisted end tag is copied as it is, including what follows its name.
    assert_eq!(sanitize_html("</p<script>"), "</p<script>");
}

#[test]
fn markdown_renders_and_sanitises() {
    assert_eq!(render_markdown("# Title\n\nHello *world*"), "<h1>Title</h1>\n<p>Hello <em>world</em></p>\n");
    let r = try_render_markdown("<script>alert(1)</script>").unwrap();
    assert!(r.contains("&lt;script&gt;") && !r.contains("<script"));
    assert_eq!(try_render_markdown("a < b"), Some("<p>a &lt; b</p>\n".to_string()));
}

#[test]
fn markdown_with_unclosed_raw_tag_is_refused() {
    assert_eq!(try_render_markdown("<div"), None);
}

#[test]
fn sanitize_sees_through_control_characters() {
    assert_eq!(sanitize_html("<a href=\"java\tscript:alert(1)\">x</a>"), "<a>x</a>");
    assert_eq!(sanitize_html("<a href=\"jav\r\nascript:x\" title=ok>"), "<a title=\"ok\">");
    assert_eq!(sanitize_html("<img src=\"da\u{1}ta:x\">"), "<img>");
    assert_eq!(sanitize_html("<p title=\"a\tb\">"), "<p title=\"a\tb\">");
}

#[test]
fn law_escape_unescape_on_samples() {
    let unescape = |t: &str| {
        t.replace("&quot;", "\"").replace("&#39;", "'").replace("&lt;", "<").replace("&gt;", ">").replace("&amp;", "&")
    };
    for s in ["<a href=\"x\">'&'</a>", "&amp;lt;", "plain", "&#39;\"'"] {
        assert_eq!(unescape(&html_escape(s)), s);
    }
    assert_ne!(html_escape("&lt;"), html_escape("<"));
}
