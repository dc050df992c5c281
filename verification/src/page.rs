//! The standalone page of one post.

use vstd::prelude::*;
use crate::html::{escape_seq, html_escape};
use crate::text::{push_str_chars, string_of};

verus! {

/// Start of a post page, up to its `<title>`.
pub open spec fn page_head() -> Seq<char> {
    "<!DOCTYPE html><html lang=zh><head><meta charset=\"utf-8\"><meta name=viewport content=\"width=device-width,initial-scale=1\"><title>"@
}

/// From the `</title>` to the heading: the page style and the card.
pub open spec fn page_style() -> Seq<char> {
    "</title><style>:root{--font:-apple-system,BlinkMacSystemFont,Segoe UI,Roboto,PingFang SC,Microsoft YaHei,sans-serif}body{margin:0;min-height:100vh;font-family:var(--font);color:#e2e8f0;color:#e2e8f0;background:#05070f;background-image:radial-gradient(1100px 750px at 12% 8%,rgba(56,189,248,.3),transparent 55%),radial-gradient(1000px 700px at 88% 16%,rgba(168,85,247,.26),transparent 55%),radial-gradient(900px 900px at 50% 105%,rgba(16,185,129,.2),transparent 55%),linear-gradient(180deg,#070b18,#0d1226);background-attachment:fixed}body::before{content:\"\";position:fixed;inset:0;pointer-events:none;opacity:.05;background-image:url(\"data:image/svg+xml,%3Csvg xmlns='http://www.w3.org/2000/svg' width='120' height='120'%3E%3Cfilter id='n'%3E%3CfeTurbulence type='fractalNoise' baseFrequency='0.9' numOctaves='2'/%3E%3C/filter%3E%3Crect width='100%25' height='100%25' filter='url(%23n)'/%3E%3C/svg%3E\")}.card{max-width:820px;margin:32px auto;padding:28px;background:rgba(255,255,255,.08);border:1px solid rgba(255,255,255,.15);border-radius:24px;backdrop-filter:blur(16px) saturate(150%);-webkit-backdrop-filter:blur(16px) saturate(150%);box-shadow:0 10px 40px rgba(0,0,0,.35);position:relative;overflow:hidden}.card::before{content:\"\";position:absolute;top:-40px;right:-40px;width:160px;height:160px;border-radius:50%;background:radial-gradient(circle,rgba(56,189,248,.35),transparent 70%);filter:blur(10px);pointer-events:none}h1{margin:.2em 0 .3em;background:linear-gradient(90deg,#38bdf8,#a855f7);-webkit-background-clip:text;background-clip:text;color:transparent;font-size:1.8rem}.date{color:rgba(226,232,240,.66);font-size:.85rem;margin-bottom:1em}article p{line-height:1.75;color:#e2e8f0} article a{color:#38bdf8} article code,pre{background:rgba(0,0,0,.3);border-radius:8px;padding:2px 6px} article pre{padding:10px;overflow:auto}img{max-width:100%;border-radius:12px}</style></head><body><div class=card><h1>"@
}

/// Between the heading and the date line.
pub open spec fn page_after_title() -> Seq<char> {
    "</h1><p class=date>"@
}

/// Between the date line and the article.
pub open spec fn page_after_date() -> Seq<char> {
    "</p><article>"@
}

/// End of a post page.
pub open spec fn page_tail() -> Seq<char> {
    "</article></div></body></html>"@
}

/// A post page: the escaped title (in `<title>` and as heading), the
/// escaped date and the stored, already sanitised HTML.
pub open spec fn post_page_spec(title: Seq<char>, date: Seq<char>, content_html: Seq<char>) -> Seq<char> {
    page_head() + escape_seq(title, true) + page_style() + escape_seq(title, true) + page_after_title()
        + escape_seq(date, true) + page_after_date() + content_html + page_tail()
}

/// The page served at `/post/<slug>`.
pub fn post_page(title: &str, date: &str, content_html: &str) -> (r: String)
    ensures
        r@ == post_page_spec(title@, date@, content_html@),
{
    let t = html_escape(title);
    let d = html_escape(date);
    let mut out: Vec<char> = Vec::new();
    push_str_chars(&mut out, "<!DOCTYPE html><html lang=zh><head><meta charset=\"utf-8\"><meta name=viewport content=\"width=device-width,initial-scale=1\"><title>");
    push_str_chars(&mut out, t.as_str());
    push_str_chars(&mut out, "</title><style>:root{--font:-apple-system,BlinkMacSystemFont,Segoe UI,Roboto,PingFang SC,Microsoft YaHei,sans-serif}body{margin:0;min-height:100vh;font-family:var(--font);color:#e2e8f0;color:#e2e8f0;background:#05070f;background-image:radial-gradient(1100px 750px at 12% 8%,rgba(56,189,248,.3),transparent 55%),radial-gradient(1000px 700px at 88% 16%,rgba(168,85,247,.26),transparent 55%),radial-gradient(900px 900px at 50% 105%,rgba(16,185,129,.2),transparent 55%),linear-gradient(180deg,#070b18,#0d1226);background-attachment:fixed}body::before{content:\"\";position:fixed;inset:0;pointer-events:none;opacity:.05;background-image:url(\"data:image/svg+xml,%3Csvg xmlns='http://www.w3.org/2000/svg' width='120' height='120'%3E%3Cfilter id='n'%3E%3CfeTurbulence type='fractalNoise' baseFrequency='0.9' numOctaves='2'/%3E%3C/filter%3E%3Crect width='100%25' height='100%25' filter='url(%23n)'/%3E%3C/svg%3E\")}.card{max-width:820px;margin:32px auto;padding:28px;background:rgba(255,255,255,.08);border:1px solid rgba(255,255,255,.15);border-radius:24px;backdrop-filter:blur(16px) saturate(150%);-webkit-backdrop-filter:blur(16px) saturate(150%);box-shadow:0 10px 40px rgba(0,0,0,.35);position:relative;overflow:hidden}.card::before{content:\"\";position:absolute;top:-40px;right:-40px;width:160px;height:160px;border-radius:50%;background:radial-gradient(circle,rgba(56,189,248,.35),transparent 70%);filter:blur(10px);pointer-events:none}h1{margin:.2em 0 .3em;background:linear-gradient(90deg,#38bdf8,#a855f7);-webkit-background-clip:text;background-clip:text;color:transparent;font-size:1.8rem}.date{color:rgba(226,232,240,.66);font-size:.85rem;margin-bottom:1em}article p{line-height:1.75;color:#e2e8f0} article a{color:#38bdf8} article code,pre{background:rgba(0,0,0,.3);border-radius:8px;padding:2px 6px} article pre{padding:10px;overflow:auto}img{max-width:100%;border-radius:12px}</style></head><body><div class=card><h1>");
    push_str_chars(&mut out, t.as_str());
    push_str_chars(&mut out, "</h1><p class=date>");
    push_str_chars(&mut out, d.as_str());
    push_str_chars(&mut out, "</p><article>");
    push_str_chars(&mut out, content_html);
    push_str_chars(&mut out, "</article></div></body></html>");
    assert(out@ =~= post_page_spec(title@, date@, content_html@));
    string_of(&out)
}

} // verus!
