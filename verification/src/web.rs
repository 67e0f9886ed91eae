//! The text of the built-in web UI that does not depend on numbers: HTML
//! escaping, the page shell, page titles, path decoding and stratum colours,
//! and the hash lists the sync endpoints exchange.

use vstd::prelude::*;
use vstd::utf8::*;
use crate::docmap::{lookup, DocMap};
use crate::sync::{increasing, strings_view, Relation};
use crate::text::{
    has_prefix, chars_of, copy_string, find_char, owned, push_char, push_str, same_text, string_of_range, trim,
    trimmed,
};
use crate::wire::first_index;

verus! {

// ------------------------------------------------------------ escaping ---

/// How one character is written in HTML text or a quoted attribute.
pub open spec fn html_char(c: char) -> Seq<char> {
    if c == '&' {
        "&amp;"@
    } else if c == '<' {
        "&lt;"@
    } else if c == '>' {
        "&gt;"@
    } else if c == '"' {
        "&quot;"@
    } else if c == '\'' {
        "&#39;"@
    } else {
        seq![c]
    }
}

pub open spec fn html_escaped(s: Seq<char>) -> Seq<char>
    decreases s.len(),
{
    if s.len() == 0 {
        seq![]
    } else {
        html_escaped(s.drop_last()) + html_char(s.last())
    }
}

/// Escapes text for use in HTML element content or a quoted attribute.
pub fn escape(text: &str) -> (r: String)
    ensures
        r@ == html_escaped(text@),
{
    let cs = chars_of(text);
    let mut out = String::new();
    let mut i: usize = 0;
    while i < cs.len()
        invariant
            i <= cs@.len(),
            cs@ == text@,
            out@ == html_escaped(cs@.take(i as int)),
        decreases cs@.len() - i,
    {
        let c = cs[i];
        if c == '&' {
            push_str(&mut out, "&amp;");
        } else if c == '<' {
            push_str(&mut out, "&lt;");
        } else if c == '>' {
            push_str(&mut out, "&gt;");
        } else if c == '"' {
            push_str(&mut out, "&quot;");
        } else if c == '\'' {
            push_str(&mut out, "&#39;");
        } else {
            push_char(&mut out, c);
        }
        proof {
            let p = cs@.take(i + 1);
            assert(p.drop_last() =~= cs@.take(i as int));
            assert(p.last() == c);
        }
        assert(out@ =~= html_escaped(cs@.take(i + 1)));
        i = i + 1;
    }
    assert(cs@.take(cs@.len() as int) =~= cs@);
    out
}

// ---------------------------------------------------------- page shell ---

pub const STYLE: &'static str = r#"
:root {
  --bg: #fbfaf8;
  --panel: #ffffff;
  --ink: #1c1a17;
  --muted: #6b6459;
  --line: #ddd8d0;
  --accent: #7a4b1e;
  --water: #2f6fa8;
  --error: #a3261f;
  --warn: #8a6414;
  color-scheme: light dark;
}
@media (prefers-color-scheme: dark) {
  :root {
    --bg: #171614;
    --panel: #201e1b;
    --ink: #ece7df;
    --muted: #9a9287;
    --line: #363330;
    --accent: #d09a63;
    --water: #6fa8d8;
    --error: #e2837c;
    --warn: #d9b166;
  }
}
* { box-sizing: border-box; }
body {
  margin: 0;
  background: var(--bg);
  color: var(--ink);
  font: 15px/1.55 ui-sans-serif, system-ui, -apple-system, "Segoe UI", sans-serif;
}
header.top {
  border-bottom: 1px solid var(--line);
  background: var(--panel);
  padding: 14px 24px;
  display: flex;
  align-items: baseline;
  gap: 20px;
  flex-wrap: wrap;
  position: sticky;
  top: 0;
  z-index: 2;
}
header.top h1 { font-size: 16px; margin: 0; font-weight: 650; letter-spacing: .01em; }
header.top h1 a { color: var(--ink); text-decoration: none; }
nav a { color: var(--muted); text-decoration: none; margin-right: 16px; font-size: 14px; }
nav a:hover, nav a.on { color: var(--accent); }
main { max-width: 1000px; margin: 0 auto; padding: 24px; }
h2 { font-size: 15px; text-transform: uppercase; letter-spacing: .06em;
     color: var(--muted); font-weight: 600; margin: 32px 0 10px; }
h2:first-child { margin-top: 0; }
a { color: var(--accent); }
table { border-collapse: collapse; width: 100%; font-size: 14px; }
th {
  text-align: left; font-weight: 600; color: var(--muted); padding: 6px 12px 6px 0;
  border-bottom: 1px solid var(--line); font-size: 12px;
  text-transform: uppercase; letter-spacing: .05em; white-space: nowrap;
}
td { padding: 7px 12px 7px 0; border-bottom: 1px solid var(--line); vertical-align: top; }
td.num, th.num { text-align: right; font-variant-numeric: tabular-nums;
                 font-family: ui-monospace, SFMono-Regular, Menlo, monospace; }
.panel { background: var(--panel); border: 1px solid var(--line);
         border-radius: 8px; padding: 18px 20px; }
.cols { display: flex; gap: 28px; align-items: flex-start; flex-wrap: wrap; }
.cols > .grow { flex: 1 1 340px; min-width: 0; }
dl.facts { display: grid; grid-template-columns: max-content 1fr; gap: 4px 18px; margin: 0; font-size: 14px; }
dl.facts dt { color: var(--muted); }
dl.facts dd { margin: 0; }
code, .mono { font-family: ui-monospace, SFMono-Regular, Menlo, monospace; font-size: 13px; }
.hash { color: var(--muted); font-family: ui-monospace, SFMono-Regular, Menlo, monospace; font-size: 13px; }
.note { color: var(--muted); font-size: 14px; }
.tag { display: inline-block; padding: 1px 7px; border-radius: 999px;
       border: 1px solid var(--line); font-size: 12px; color: var(--muted); }
.sev-error { color: var(--error); font-weight: 600; }
.sev-warning { color: var(--warn); font-weight: 600; }
.empty { color: var(--muted); font-style: italic; }
.swatch { display: inline-block; width: 10px; height: 10px; border-radius: 2px;
          margin-right: 7px; vertical-align: baseline; border: 1px solid rgba(0,0,0,.18); }

/* Section drawing */
svg.section { display: block; max-width: 100%; height: auto; }
svg.section .layer { fill: var(--fill); stroke: none; }
@media (prefers-color-scheme: dark) { svg.section .layer { fill: var(--fill-dark); } }
svg.section .boundary { stroke: var(--ink); stroke-width: 1; opacity: .55; }
svg.section .boundary.base { stroke-width: 1.6; opacity: .8; }
svg.section .ground { stroke: var(--ink); stroke-width: 2.2; }
svg.section .level { fill: var(--ink); font-size: 12px; text-anchor: end;
                     font-family: ui-monospace, Menlo, monospace; }
svg.section .depth { fill: var(--muted); font-size: 10.5px; text-anchor: end;
                     font-family: ui-monospace, Menlo, monospace; }
svg.section .stratum { fill: var(--ink); font-size: 12px; text-anchor: middle; }
svg.section .stratum-outside { fill: var(--muted); font-size: 11px; }
svg.section .water { stroke: var(--water); stroke-width: 1.4; stroke-dasharray: 5 3; }
svg.section .water-mark { fill: var(--water); }
svg.section .water-label { fill: var(--water); font-size: 11px;
                           font-family: ui-monospace, Menlo, monospace; }
"#;

/// One navigation link, marked when it is the active section.
pub open spec fn nav_link(href: Seq<char>, label: Seq<char>, key: Seq<char>, active: Seq<char>) -> Seq<char> {
    "<a href=\""@ + href + "\""@ + (if key == active {
        " class=\"on\""@
    } else {
        Seq::<char>::empty()
    }) + ">"@ + label + "</a>"@
}

/// The full page around `body`.
pub open spec fn page(file_name: Seq<char>, title: Seq<char>, active: Seq<char>, body: Seq<char>) -> Seq<char> {
    "<!doctype html><html lang=\"en\"><head><meta charset=\"utf-8\"><meta name=\"viewport\" content=\"width=device-width, initial-scale=1\"><title>"@
        + html_escaped(title) + " \u{2014} "@ + html_escaped(file_name) + "</title><style>"@ + STYLE@
        + "</style></head><body>"@ + "<header class=\"top\"><h1><a href=\"/\">"@ + html_escaped(file_name)
        + "</a></h1><nav>"@ + nav_link("/"@, "Models"@, "models"@, active) + nav_link(
        "/materials"@,
        "Materials"@,
        "materials"@,
        active,
    ) + nav_link("/history"@, "History"@, "history"@, active) + nav_link(
        "/validate"@,
        "Validation"@,
        "validate"@,
        active,
    ) + "</nav></header><main>"@ + body + "</main></body></html>"@
}

fn push_nav(out: &mut String, href: &str, label: &str, key: &str, active: &str)
    ensures
        final(out)@ == old(out)@ + nav_link(href@, label@, key@, active@),
{
    push_str(out, "<a href=\"");
    push_str(out, href);
    push_str(out, "\"");
    if same_text(key, active) {
        push_str(out, " class=\"on\"");
    }
    push_str(out, ">");
    push_str(out, label);
    push_str(out, "</a>");
    assert(final(out)@ =~= old(out)@ + nav_link(href@, label@, key@, active@));
}

/// Wraps body content in the full page shell.
pub fn render(file_name: &str, title: &str, active: &str, body: &str) -> (r: String)
    ensures
        r@ == page(file_name@, title@, active@, body@),
{
    let mut out = owned(
        "<!doctype html><html lang=\"en\"><head><meta charset=\"utf-8\"><meta name=\"viewport\" content=\"width=device-width, initial-scale=1\"><title>",
    );
    let t = escape(title);
    push_str(&mut out, t.as_str());
    push_str(&mut out, " \u{2014} ");
    let f = escape(file_name);
    push_str(&mut out, f.as_str());
    push_str(&mut out, "</title><style>");
    push_str(&mut out, STYLE);
    push_str(&mut out, "</style></head><body>");
    push_str(&mut out, "<header class=\"top\"><h1><a href=\"/\">");
    push_str(&mut out, f.as_str());
    push_str(&mut out, "</a></h1><nav>");
    push_nav(&mut out, "/", "Models", "models", active);
    push_nav(&mut out, "/materials", "Materials", "materials", active);
    push_nav(&mut out, "/history", "History", "history", active);
    push_nav(&mut out, "/validate", "Validation", "validate", active);
    push_str(&mut out, "</nav></header><main>");
    push_str(&mut out, body);
    push_str(&mut out, "</main></body></html>");
    assert(out@ =~= page(file_name@, title@, active@, body@));
    out
}

/// A response of the web UI.
#[derive(Debug)]
pub struct Reply {
    pub status: u16,
    pub content_type: &'static str,
    pub body: String,
}

impl Reply {
    pub fn html(status: u16, body: &str) -> (r: Reply)
        ensures
            r.status == status,
            r.content_type@ == "text/html; charset=utf-8"@,
            r.body@ == body@,
    {
        Reply { status, content_type: "text/html; charset=utf-8", body: owned(body) }
    }

    pub fn json(body: String) -> (r: Reply)
        ensures
            r.status == 200,
            r.content_type@ == "application/json; charset=utf-8"@,
            r.body@ == body@,
    {
        Reply { status: 200, content_type: "application/json; charset=utf-8", body }
    }

    pub fn text(status: u16, body: &str) -> (r: Reply)
        ensures
            r.status == status,
            r.content_type@ == "text/plain; charset=utf-8"@,
            r.body@ == body@,
    {
        Reply { status, content_type: "text/plain; charset=utf-8", body: owned(body) }
    }
}

/// The body of a page that does not exist.
pub open spec fn not_found_body(kind: Seq<char>, key: Seq<char>) -> Seq<char> {
    "<h2>Not found</h2><p class=\"note\">No "@ + html_escaped(kind) + " called <code>"@
        + html_escaped(key) + "</code>.</p>"@
}

/// The reply for a page, model or material that does not exist.
pub fn not_found(file_name: &str, kind: &str, key: &str) -> (r: Reply)
    ensures
        r.status == 404,
        r.content_type@ == "text/html; charset=utf-8"@,
        r.body@ == page(file_name@, "Not found"@, ""@, not_found_body(kind@, key@)),
{
    let mut body = owned("<h2>Not found</h2><p class=\"note\">No ");
    let k = escape(kind);
    push_str(&mut body, k.as_str());
    push_str(&mut body, " called <code>");
    let e = escape(key);
    push_str(&mut body, e.as_str());
    push_str(&mut body, "</code>.</p>");
    assert(body@ =~= not_found_body(kind@, key@));
    let page_text = render(file_name, "Not found", "", body.as_str());
    Reply::html(404, page_text.as_str())
}

/// The title of a page and the navigation section it belongs to, from the
/// segments of its path.
pub open spec fn title_spec(s: Seq<Seq<char>>) -> (Seq<char>, Seq<char>) {
    if s.len() == 0 {
        ("Models"@, "models"@)
    } else if s.len() == 1 && s[0] == "materials"@ {
        ("Materials"@, "materials"@)
    } else if s.len() == 1 && s[0] == "history"@ {
        ("History"@, "history"@)
    } else if s.len() == 1 && s[0] == "validate"@ {
        ("Validation"@, "validate"@)
    } else if s.len() == 2 && s[0] == "model"@ {
        (s[1], "models"@)
    } else if s.len() == 2 && s[0] == "material"@ {
        (s[1], "materials"@)
    } else if s.len() == 2 && s[0] == "commit"@ {
        ("Commit "@ + s[1], "history"@)
    } else {
        ("Not found"@, ""@)
    }
}

pub fn title_for(segments: &Vec<String>) -> (r: (String, &'static str))
    ensures
        (r.0@, r.1@) == title_spec(strings_view(segments@)),
{
    let ghost sv = strings_view(segments@);
    let n = segments.len();
    if n == 0 {
        return (owned("Models"), "models");
    }
    assert(sv[0] == segments@[0]@);
    let first = segments[0].as_str();
    if n == 1 {
        if same_text(first, "materials") {
            return (owned("Materials"), "materials");
        } else if same_text(first, "history") {
            return (owned("History"), "history");
        } else if same_text(first, "validate") {
            return (owned("Validation"), "validate");
        }
    }
    if n == 2 {
        assert(sv[1] == segments@[1]@);
        if same_text(first, "model") {
            return (copy_string(&segments[1]), "models");
        } else if same_text(first, "material") {
            return (copy_string(&segments[1]), "materials");
        } else if same_text(first, "commit") {
            let mut t = owned("Commit ");
            push_str(&mut t, segments[1].as_str());
            return (t, "history");
        }
    }
    (owned("Not found"), "")
}

// ------------------------------------------------------ path segments ---

/// An ASCII hexadecimal digit.
pub open spec fn is_hex_byte(b: u8) -> bool {
    (48 <= b <= 57) || (65 <= b <= 70) || (97 <= b <= 102)
}

pub open spec fn hex_value(b: u8) -> int {
    if 48 <= b <= 57 {
        b - 48
    } else if 65 <= b <= 70 {
        b - 55
    } else {
        b - 87
    }
}

/// The byte a `%` escape at `i` stands for, when the two bytes after it are
/// what `u8::from_str_radix(_, 16)` accepts: two hex digits, or `+` and one.
pub open spec fn escape_at(b: Seq<u8>, i: int) -> Option<u8> {
    if b[i] == 37 && i + 2 < b.len() {
        if is_hex_byte(b[i + 1]) && is_hex_byte(b[i + 2]) {
            Some((hex_value(b[i + 1]) * 16 + hex_value(b[i + 2])) as u8)
        } else if b[i + 1] == 43 && is_hex_byte(b[i + 2]) {
            Some(hex_value(b[i + 2]) as u8)
        } else {
            None
        }
    } else {
        None
    }
}

/// The decoded bytes of `b[i..]`: escapes replaced, `+` read as a space.
pub open spec fn decoded(b: Seq<u8>, i: int) -> Seq<u8>
    decreases b.len() - i,
{
    if i >= b.len() || i < 0 {
        seq![]
    } else {
        match escape_at(b, i) {
            Some(v) => seq![v] + decoded(b, i + 3),
            None => seq![if b[i] == 43 { 32u8 } else { b[i] }] + decoded(b, i + 1),
        }
    }
}

/// Reading the two bytes after a `%` never splits a character: the byte
/// after them does not continue one.
pub open spec fn percent_safe(b: Seq<u8>) -> bool {
    forall|i: int| 0 <= i && i + 3 < b.len() && #[trigger] b[i] == 37 ==> !(0x80 <= b[i + 3] < 0xC0)
}

/// What `String::from_utf8_lossy` gives for some bytes.
pub uninterp spec fn lossy_utf8(b: Seq<u8>) -> Seq<char>;

/// The text of some bytes as `String::from_utf8_lossy` gives it: valid
/// UTF-8 decoded unchanged, anything else as [`lossy_utf8`] names it.
pub open spec fn lossy_text(b: Seq<u8>) -> Seq<char> {
    if valid_utf8(b) {
        decode_utf8(b)
    } else {
        lossy_utf8(b)
    }
}

/// `String::from_utf8_lossy`: the text of the bytes, with each invalid
/// sequence replaced by U+FFFD; valid UTF-8 is decoded unchanged.
#[verifier::external_body]
pub(crate) fn utf8_lossy(b: &[u8]) -> (r: String)
    ensures
        r@ == lossy_utf8(b@),
        valid_utf8(b@) ==> r@ == decode_utf8(b@),
{
    String::from_utf8_lossy(b).into_owned()
}

fn hex_of(b: u8) -> (v: u8)
    requires
        is_hex_byte(b),
    ensures
        v as int == hex_value(b),
{
    if b <= 57 {
        b - 48
    } else if b <= 70 {
        b - 55
    } else {
        b - 87
    }
}

/// Whether a path segment can be decoded (see [`percent_safe`]).
pub fn percent_decodable(segment: &str) -> (r: bool)
    ensures
        r == percent_safe(encode_utf8(segment@)),
{
    let bytes = segment.as_bytes();
    let mut i: usize = 0;
    while i < bytes.len()
        invariant
            i <= bytes@.len(),
            bytes@ == encode_utf8(segment@),
            forall|k: int| 0 <= k < i && k + 3 < bytes@.len() && #[trigger] bytes@[k] == 37 ==> !(0x80 <= bytes@[k + 3] < 0xC0),
        decreases bytes@.len() - i,
    {
        if bytes[i] == 37 && bytes.len() > 3 && i < bytes.len() - 3 && 0x80 <= bytes[i + 3] && bytes[i + 3] < 0xC0 {
            return false;
        }
        i = i + 1;
    }
    true
}

/// Minimal percent-decoding for a path segment: `%XX` escapes and `+` for a
/// space; an escape that is not one is left alone.
pub fn percent_decode(segment: &str) -> (r: String)
    requires
        percent_safe(encode_utf8(segment@)),
    ensures
        r@ == lossy_text(decoded(encode_utf8(segment@), 0)),
{
    let bytes = segment.as_bytes();
    let ghost b = bytes@;
    let mut out: Vec<u8> = Vec::new();
    let mut i: usize = 0;
    while i < bytes.len()
        invariant
            i <= bytes@.len(),
            b == bytes@,
            decoded(b, 0) == out@ + decoded(b, i as int),
        decreases bytes@.len() - i,
    {
        let c = bytes[i];
        if c == 37 && bytes.len() > 2 && i < bytes.len() - 2 {
            let b1 = bytes[i + 1];
            let b2 = bytes[i + 2];
            let h1 = b1 <= 57 && b1 >= 48 || (65 <= b1 && b1 <= 70) || (97 <= b1 && b1 <= 102);
            let h2 = b2 <= 57 && b2 >= 48 || (65 <= b2 && b2 <= 70) || (97 <= b2 && b2 <= 102);
            if h1 && h2 {
                let v = hex_of(b1) * 16 + hex_of(b2);
                out.push(v);
                assert(out@ + decoded(b, i + 3) =~= (out@.drop_last() + (seq![v] + decoded(b, i + 3))));
                i = i + 3;
                continue;
            } else if b1 == 43 && h2 {
                let v = hex_of(b2);
                out.push(v);
                assert(out@ + decoded(b, i + 3) =~= (out@.drop_last() + (seq![v] + decoded(b, i + 3))));
                i = i + 3;
                continue;
            }
        }
        let o = if c == 43 {
            32u8
        } else {
            c
        };
        out.push(o);
        assert(out@ + decoded(b, i + 1) =~= (out@.drop_last() + (seq![o] + decoded(b, i + 1))));
        i = i + 1;
    }
    assert(out@ + decoded(b, i as int) =~= out@);
    utf8_lossy(out.as_slice())
}

// ------------------------------------------------------------- colours ---

/// FNV-1a over bytes.
pub open spec fn fnv1a(b: Seq<u8>) -> u32
    decreases b.len(),
{
    if b.len() == 0 {
        2_166_136_261u32
    } else {
        (fnv1a(b.drop_last()) ^ (b.last() as u32)).wrapping_mul(16_777_619u32)
    }
}

/// The hue of a material key: FNV-1a of its bytes, times 137 (the golden
/// angle), modulo 360, and never 0.
pub open spec fn hue_spec(key: Seq<char>) -> u32 {
    let h = fnv1a(encode_utf8(key)).wrapping_mul(137u32) % 360;
    if h < 1 {
        1
    } else {
        h
    }
}

/// A stable, well-spread hue for a material key, so a stratum keeps its
/// colour across every model, page and session.
pub fn hue(key: &str) -> (r: u32)
    ensures
        r == hue_spec(key@),
        1 <= r < 360,
{
    let bytes = key.as_bytes();
    let mut hash: u32 = 2_166_136_261;
    let mut i: usize = 0;
    while i < bytes.len()
        invariant
            i <= bytes@.len(),
            bytes@ == encode_utf8(key@),
            hash == fnv1a(bytes@.take(i as int)),
        decreases bytes@.len() - i,
    {
        proof {
            let p = bytes@.take(i + 1);
            assert(p.drop_last() =~= bytes@.take(i as int));
            assert(p.last() == bytes@[i as int]);
        }
        hash = (hash ^ (bytes[i] as u32)).wrapping_mul(16_777_619);
        i = i + 1;
    }
    assert(bytes@.take(bytes@.len() as int) =~= bytes@);
    let h = hash.wrapping_mul(137) % 360;
    if h < 1 {
        1
    } else {
        h
    }
}

/// The hue of a swatch in a table, the same as the stratum in a drawing.
pub fn section_hue(key: &str) -> (r: u32)
    ensures
        r == hue_spec(key@),
{
    hue(key)
}

// ----------------------------------------------------------- hash lists ---

/// The pieces of a text between newlines.
pub open spec fn split_lines(s: Seq<char>) -> Seq<Seq<char>>
    decreases s.len(),
{
    match first_index(s, '\n') {
        None => seq![s],
        Some(i) => seq![s.take(i)] + split_lines(s.skip(i + 1)),
    }
}

/// The distinct non-blank lines of a text, trimmed, in increasing order.
pub open spec fn line_set_ok(s: Seq<char>, r: Seq<Seq<char>>) -> bool {
    &&& increasing(r)
    &&& forall|x: Seq<char>| r.contains(x) <==> (x.len() > 0 && exists|p: Seq<char>|
        split_lines(s).contains(p) && #[trigger] trimmed(p) == x)
}

/// The keys of `set` are the trimmed non-blank lines among `seen`.
#[verifier::opaque]
pub open spec fn lines_noted(set: Seq<(Seq<char>, Seq<char>)>, seen: Seq<Seq<char>>) -> bool {
    forall|x: Seq<char>| (lookup(set, x) is Some) <==> (x.len() > 0 && exists|p: Seq<char>|
        seen.contains(p) && #[trigger] trimmed(p) == x)
}

/// Adding a piece's trimmed text to a set of the trimmed non-blank pieces seen
/// so far gives the set of the trimmed non-blank pieces seen with it.
proof fn lemma_seen_step(
    old_set: Seq<(Seq<char>, Seq<char>)>,
    new_set: Seq<(Seq<char>, Seq<char>)>,
    old_seen: Seq<Seq<char>>,
    piece: Seq<char>,
)
    requires
        lines_noted(old_set, old_seen),
        forall|x: Seq<char>| (#[trigger] lookup(new_set, x) is Some) <==> ((lookup(old_set, x) is Some)
            || (x == trimmed(piece) && x.len() > 0)),
    ensures
        lines_noted(new_set, old_seen.push(piece)),
{
    reveal(lines_noted);
    let seen = old_seen.push(piece);
    assert forall|x: Seq<char>| (lookup(new_set, x) is Some) <==> (x.len() > 0 && exists|p: Seq<char>|
        seen.contains(p) && #[trigger] trimmed(p) == x) by {
        assert(seen[old_seen.len() as int] == piece);
        if lookup(old_set, x) is Some {
            let p = choose|p: Seq<char>| old_seen.contains(p) && #[trigger] trimmed(p) == x;
            let q = choose|q: int| 0 <= q < old_seen.len() && old_seen[q] == p;
            assert(seen[q] == p);
        }
        if exists|p: Seq<char>| seen.contains(p) && #[trigger] trimmed(p) == x {
            let p = choose|p: Seq<char>| seen.contains(p) && #[trigger] trimmed(p) == x;
            let q = choose|q: int| 0 <= q < seen.len() && seen[q] == p;
            if q < old_seen.len() {
                assert(old_seen[q] == p);
                assert(old_seen.contains(p));
            }
        }
    }
}

/// Adds a line's trimmed text to `set`, unless it is blank.
fn note_line(set: &mut DocMap, line: &str)
    ensures
        forall|x: Seq<char>| (#[trigger] lookup(final(set).pairs(), x) is Some) <==> ((lookup(old(set).pairs(), x) is Some)
            || (x == trimmed(line@) && x.len() > 0)),
{
    let t = trim(line);
    if !t.as_str().is_empty() {
        set.insert(t.as_str(), "");
    }
}

/// Where the line starting at `pos` ends, and where the next one starts:
/// both at the end of the text when it is the last line.
fn next_line(cs: &Vec<char>, pos: usize) -> (r: (usize, usize))
    requires
        pos <= cs@.len(),
    ensures
        pos <= r.0 <= cs@.len(),
        r.0 == cs@.len() && r.1 == cs@.len() ==> split_lines(cs@.skip(pos as int)) == seq![cs@.subrange(pos as int, r.0 as int)],
        !(r.0 == cs@.len() && r.1 == cs@.len()) ==> r.1 == r.0 + 1 && r.1 <= cs@.len() && split_lines(
            cs@.skip(pos as int),
        ) == seq![cs@.subrange(pos as int, r.0 as int)] + split_lines(cs@.skip(r.1 as int)),
{
    let ghost s = cs@;
    let ghost rest = s.skip(pos as int);
    let _len: usize = cs.len();
    match find_char(cs, pos, '\n') {
        Some(i) => {
            proof {
                assert(crate::wire::is_first(rest, '\n', i - pos));
                assert forall|k: int| crate::wire::is_first(rest, '\n', k) implies k == i - pos by {
                    if k < i - pos {
                        assert(rest[k] == s[pos + k]);
                    }
                    if k > i - pos {
                        assert(rest[i - pos] == '\n');
                    }
                }
                assert(rest.take(i - pos) =~= s.subrange(pos as int, i as int));
                assert(rest.skip(i - pos + 1) =~= s.skip(i + 1));
                assert(split_lines(rest) == seq![rest.take(i - pos)] + split_lines(rest.skip(i - pos + 1)));
            }
            (i, i + 1)
        },
        None => {
            proof {
                assert forall|k: int| !crate::wire::is_first(rest, '\n', k) by {
                    if 0 <= k < rest.len() {
                        assert(rest[k] == s[pos + k]);
                    }
                }
                assert(rest =~= s.subrange(pos as int, s.len() as int));
                assert(split_lines(rest) == seq![rest]);
            }
            (cs.len(), cs.len())
        },
    }
}

/// One hash per line, blanks ignored, each once, in increasing order. The
/// list is a hint about what not to send, so a stray line costs nothing.
pub fn parse_hashes(body: &[u8]) -> (r: Vec<String>)
    ensures
        line_set_ok(lossy_text(body@), strings_view(r@)),
{
    let text = utf8_lossy(body);
    let cs = chars_of(text.as_str());
    let ghost s = cs@;
    let cl = cs.len();
    let mut set = DocMap::new();
    let mut pos: usize = 0;
    let mut done = false;
    let ghost mut seen: Seq<Seq<char>> = seq![];
    assert(cs@.skip(0) =~= s);
    proof {
        reveal(lines_noted);
    }
    while !done
        invariant
            cs@ == s,
            cl == cs@.len(),
            s == lossy_text(body@),
            pos <= cs@.len(),
            !done ==> split_lines(s) == seen + split_lines(s.skip(pos as int)),
            done ==> split_lines(s) == seen,
            lines_noted(set.pairs(), seen),
        decreases cs@.len() - pos + if done { 0int } else { 1int },
    {
        let ghost rest = s.skip(pos as int);
        let (piece_end, next) = next_line(&cs, pos);
        let piece = string_of_range(&cs, pos, piece_end);
        let ghost old_seen = seen;
        let ghost old_pairs = set.pairs();
        note_line(&mut set, piece.as_str());
        proof {
            seen = seen.push(piece@);
            lemma_seen_step(old_pairs, set.pairs(), old_seen, piece@);
        }
        if next == cs.len() && piece_end == cs.len() {
            done = true;
            proof {
                assert(seen =~= old_seen + seq![piece@]);
            }
        } else {
            proof {
                assert(old_seen + split_lines(rest) =~= seen + split_lines(s.skip(next as int)));
            }
            pos = next;
        }
    }
    let r = set.keys();
    proof {
        reveal(lines_noted);
        let rv = strings_view(r@);
        let ps = set.pairs();
        assert forall|i: int, j: int| 0 <= i < j < rv.len() implies crate::text::chars_lt(#[trigger] rv[i], #[trigger] rv[j]) by {
            assert(rv[i] == ps[i].0);
            assert(rv[j] == ps[j].0);
        }
        assert forall|x: Seq<char>| rv.contains(x) <==> (lookup(ps, x) is Some) by {
            if rv.contains(x) {
                let i = choose|i: int| 0 <= i < rv.len() && rv[i] == x;
                assert(ps[i].0 == x);
            }
            if lookup(ps, x) is Some {
                let i = choose|i: int| 0 <= i < ps.len() && #[trigger] ps[i].0 == x;
                assert(rv[i] == x);
            }
        }
    }
    r
}


/// The endpoint a `/sync/...` request names, or `None` when the request is
/// not one for the sync endpoints.
pub fn handle(route: &str) -> (r: Option<String>)
    ensures
        match r {
            Some(e) => has_prefix(route@, "/sync/"@) && e@ == route@.skip(6),
            None => !has_prefix(route@, "/sync/"@),
        },
{
    proof {
        reveal_strlit("/sync/");
    }
    if !crate::text::starts_with(route, "/sync/") {
        return None;
    }
    let cs = chars_of(route);
    let e = string_of_range(&cs, 6, cs.len());
    assert(e@ =~= route@.skip(6));
    Some(e)
}

// ------------------------------------------------------ sync endpoints ---

/// What a request to one of the sync endpoints asks for.
#[derive(Debug)]
pub enum SyncRequest {
    /// `GET /sync/info`: who this file is, and where its head is.
    Info,
    /// `GET /sync/commits`: every commit hash it holds.
    Commits,
    /// `POST /sync/bundle`: the objects the caller lacks.
    Bundle,
    /// `POST /sync/push`: a bundle and a new head.
    Push,
    /// A request answered with this reply and nothing else.
    Refused(Reply),
}

/// A real endpoint asked with the other method.
pub open spec fn wrong_method(method: Seq<char>, endpoint: Seq<char>) -> bool {
    ||| method == "GET"@ && (endpoint == "bundle"@ || endpoint == "push"@)
    ||| method == "POST"@ && (endpoint == "info"@ || endpoint == "commits"@)
}

/// A plain-text reply with this status and body.
pub open spec fn text_reply(r: Reply, status: u16, body: Seq<char>) -> bool {
    &&& r.status == status
    &&& r.content_type@ == "text/plain; charset=utf-8"@
    &&& r.body@ == body
}

/// Routes a request for `/sync/<endpoint>`. A wrong method on a real
/// endpoint is answered 405, anything else unknown 404.
pub fn sync_request(method: &str, endpoint: &str) -> (r: SyncRequest)
    ensures
        r is Info <==> (method@ == "GET"@ && endpoint@ == "info"@),
        r is Commits <==> (method@ == "GET"@ && endpoint@ == "commits"@),
        r is Bundle <==> (method@ == "POST"@ && endpoint@ == "bundle"@),
        r is Push <==> (method@ == "POST"@ && endpoint@ == "push"@),
        match r {
            SyncRequest::Refused(reply) => if wrong_method(method@, endpoint@) {
                text_reply(reply, 405, "/sync/"@ + endpoint@ + " does not accept "@ + method@)
            } else {
                text_reply(reply, 404, "no such endpoint: /sync/"@ + endpoint@)
            },
            _ => true,
        },
{
    proof {
        reveal_strlit("GET");
        reveal_strlit("POST");
        reveal_strlit("info");
        reveal_strlit("commits");
        reveal_strlit("bundle");
        reveal_strlit("push");
        assert("GET"@.len() == 3 && "POST"@.len() == 4);
        assert("info"@.len() == 4 && "commits"@.len() == 7 && "bundle"@.len() == 6);
        assert("push"@.len() == 4 && "info"@[0] == 'i' && "push"@[0] == 'p');
    }
    let get = same_text(method, "GET");
    let post = same_text(method, "POST");
    let info = same_text(endpoint, "info");
    let commits = same_text(endpoint, "commits");
    let bundle = same_text(endpoint, "bundle");
    let push = same_text(endpoint, "push");
    if get && info {
        return SyncRequest::Info;
    }
    if get && commits {
        return SyncRequest::Commits;
    }
    if post && bundle {
        return SyncRequest::Bundle;
    }
    if post && push {
        return SyncRequest::Push;
    }
    if (get && (bundle || push)) || (post && (info || commits)) {
        let mut m = owned("/sync/");
        push_str(&mut m, endpoint);
        push_str(&mut m, " does not accept ");
        push_str(&mut m, method);
        return SyncRequest::Refused(Reply::text(405, m.as_str()));
    }
    let mut m = owned("no such endpoint: /sync/");
    push_str(&mut m, endpoint);
    SyncRequest::Refused(Reply::text(404, m.as_str()))
}

/// Whether a request carries the token a server was started with: any
/// request does when it was started with none.
pub fn authorized(token: Option<&str>, authorization: Option<&str>) -> (r: bool)
    ensures
        r == match token {
            None => true,
            Some(t) => match authorization {
                Some(a) => a@ == "Bearer "@ + t@,
                None => false,
            },
        },
{
    match token {
        None => true,
        Some(t) => match authorization {
            Some(a) => {
                let mut expected = owned("Bearer ");
                push_str(&mut expected, t);
                same_text(a, expected.as_str())
            },
            None => false,
        },
    }
}

/// The checks a push passes before its bundle is read: the server accepts
/// pushes, the push names its new head, and the working tree here is clean.
/// Their refusals, in that order; the new head when all pass.
pub fn push_precheck(allow_push: bool, head_header: Option<&str>, dirty: bool) -> (r: Result<String, Reply>)
    ensures
        !allow_push ==> (r matches Err(reply) && text_reply(
            reply,
            403,
            "this remote is read-only; it was not started with --allow-push"@,
        )),
        allow_push && head_header is None ==> (r matches Err(reply) && text_reply(
            reply,
            400,
            "missing "@ + crate::net::HEAD_HEADER@ + " header: a push must say what its new head is"@,
        )),
        allow_push && head_header is Some && dirty ==> (r matches Err(reply) && text_reply(
            reply,
            409,
            "this remote has uncommitted changes in its working tree; pushing would overwrite them"@,
        )),
        allow_push && !dirty && head_header is Some ==> (r matches Ok(h) && head_header matches Some(g)
            && h@ == g@),
{
    if !allow_push {
        return Err(Reply::text(403, "this remote is read-only; it was not started with --allow-push"));
    }
    let head = match head_header {
        Some(h) => h,
        None => {
            let mut m = owned("missing ");
            push_str(&mut m, crate::net::HEAD_HEADER);
            push_str(&mut m, " header: a push must say what its new head is");
            return Err(Reply::text(400, m.as_str()));
        },
    };
    if dirty {
        return Err(
            Reply::text(409, "this remote has uncommitted changes in its working tree; pushing would overwrite them"),
        );
    }
    Ok(owned(head))
}

/// What a push that has landed does to the head here.
#[derive(Debug)]
pub enum PushStep {
    /// This copy had no head: the pushed one becomes it.
    Created,
    /// The pushed head descends from ours: move to it.
    FastForward,
    /// The pushed head is already in our history: nothing moves.
    UpToDate,
    /// The histories diverged: refused, not forced.
    Refused(Reply),
}

impl PushStep {
    /// The outcome a push reports.
    pub fn outcome(&self) -> (r: &'static str)
        ensures
            r@ == match self {
                PushStep::Created => "created"@,
                PushStep::FastForward => "fast-forward"@,
                PushStep::UpToDate => "up-to-date"@,
                PushStep::Refused(_) => "refused"@,
            },
    {
        match self {
            PushStep::Created => "created",
            PushStep::FastForward => "fast-forward",
            PushStep::UpToDate => "up-to-date",
            PushStep::Refused(_) => "refused",
        }
    }
}

/// Decides a push from how our head relates to the pushed one (`None` when
/// this copy has no head yet). Only a fast-forward is applied.
pub fn push_step(relation: Option<&Relation>) -> (r: PushStep)
    ensures
        match relation {
            None => r is Created,
            Some(Relation::Same) => r is UpToDate,
            Some(Relation::Ahead) => r is UpToDate,
            Some(Relation::Behind) => r is FastForward,
            Some(Relation::Diverged { .. }) => r matches PushStep::Refused(reply) && text_reply(
                reply,
                409,
                "this remote has commits you do not: pull and merge before pushing"@,
            ),
        },
{
    match relation {
        None => PushStep::Created,
        Some(Relation::Same) => PushStep::UpToDate,
        Some(Relation::Ahead) => PushStep::UpToDate,
        Some(Relation::Behind) => PushStep::FastForward,
        Some(Relation::Diverged { .. }) => PushStep::Refused(
            Reply::text(409, "this remote has commits you do not: pull and merge before pushing"),
        ),
    }
}

} // verus!
