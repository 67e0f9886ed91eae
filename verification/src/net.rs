//! The client side of sync over HTTP: what a remote's URL means, the request
//! a command sends, and what the reply says. The sockets belong to the program
//! around this library.
//!
//! **Plain HTTP only.** `https://` is refused rather than silently
//! downgraded, and a token guards access but does not encrypt anything.

use vstd::prelude::*;
use crate::error::Error;
use crate::sync::strings_view;
use crate::text::{
    chars_of, copy_string, decimal, decimal_string, find_char, has_prefix, is_white, owned,
    push_char, push_str, starts_with, string_of, string_of_range, trim, trimmed, trim_start_at,
};
use crate::web::{lossy_text, split_lines, utf8_lossy};
use crate::wire::{copy_bytes, first_index, parse_usize, parse_usize_spec};

verus! {

/// The header that carries the new head of a push.
pub const HEAD_HEADER: &'static str = "X-GM-Head";

pub struct HttpRemote {
    pub url: String,
    pub host: String,
    pub port: u16,
    /// Path the server is mounted under, without a trailing slash.
    pub prefix: String,
    /// The shared secret sent as `Authorization: Bearer`.
    pub token: Option<String>,
}

/// `i` is the position of the last `c` in `s`.
pub open spec fn is_last(s: Seq<char>, c: char, i: int) -> bool {
    0 <= i < s.len() && s[i] == c && forall|j: int| i < j < s.len() ==> s[j] != c
}

/// `s` without its trailing `/` characters.
pub open spec fn trim_slashes(s: Seq<char>) -> Seq<char>
    decreases s.len(),
{
    if s.len() > 0 && s.last() == '/' {
        trim_slashes(s.drop_last())
    } else {
        s
    }
}

/// What `u16::from_str` accepts.
pub open spec fn parse_u16_spec(t: Seq<char>) -> Option<nat> {
    match parse_usize_spec(t) {
        Some(v) => if v <= 65535 {
            Some(v)
        } else {
            None
        },
        None => None,
    }
}

/// The authority of an address after its scheme: up to the first `/`.
pub open spec fn url_authority(rest: Seq<char>) -> Seq<char> {
    match first_index(rest, '/') {
        Some(i) => rest.take(i),
        None => rest,
    }
}

/// The path of an address after its scheme: from the first `/` on.
pub open spec fn url_path(rest: Seq<char>) -> Seq<char> {
    match first_index(rest, '/') {
        Some(i) => rest.skip(i),
        None => Seq::<char>::empty(),
    }
}

/// Host and port of an authority: split at its last `:`, port 80 when there
/// is none.
pub open spec fn host_port(authority: Seq<char>, url: Seq<char>) -> Result<(Seq<char>, nat), Seq<char>> {
    if exists|j: int| is_last(authority, ':', j) {
        let j = choose|j: int| is_last(authority, ':', j);
        match parse_u16_spec(authority.skip(j + 1)) {
            Some(p) => Ok((authority.take(j), p)),
            None => Err("bad port in "@ + url),
        }
    } else {
        Ok((authority, 80nat))
    }
}

proof fn lemma_last_unique(s: Seq<char>, c: char, j: int)
    requires
        is_last(s, c, j),
    ensures
        (choose|k: int| is_last(s, c, k)) == j,
{
    let k = choose|k: int| is_last(s, c, k);
    if k < j {
        assert(s[j] == c);
    } else if k > j {
        assert(s[k] == c);
    }
}

proof fn lemma_host_port_bad(authority: Seq<char>, url: Seq<char>, j: int)
    requires
        is_last(authority, ':', j),
        parse_u16_spec(authority.skip(j + 1)) is None,
    ensures
        host_port(authority, url) == Err::<(Seq<char>, nat), Seq<char>>("bad port in "@ + url),
{
    lemma_last_unique(authority, ':', j);
}

/// The parts of a remote URL: host, port and path prefix; or the message of
/// why it is not one.
pub open spec fn url_parts(url: Seq<char>) -> Result<(Seq<char>, nat, Seq<char>), Seq<char>> {
    if has_prefix(url, "https://"@) {
        Err(
            "https is not supported: gm speaks plain HTTP and is meant for a network you already trust. Use http://, or put a tunnel in front."@,
        )
    } else if !has_prefix(url, "http://"@) {
        Err("not an http:// URL: "@ + url)
    } else {
        match host_port(url_authority(url.skip(7)), url) {
            Err(m) => Err(m),
            Ok(hp) => if hp.0.len() == 0 {
                Err("no host in "@ + url)
            } else {
                Ok((hp.0, hp.1, trim_slashes(url_path(url.skip(7)))))
            },
        }
    }
}

/// True when this string names an HTTP remote rather than a file path.
pub fn looks_like_url(text: &str) -> (r: bool)
    ensures
        r == (has_prefix(text@, "http://"@) || has_prefix(text@, "https://"@)),
{
    starts_with(text, "http://") || starts_with(text, "https://")
}

/// Whether `c` occurs in `v[from..to]`, and its last position there.
fn find_last(v: &Vec<char>, from: usize, to: usize, c: char) -> (r: Option<usize>)
    requires
        from <= to <= v@.len(),
    ensures
        match r {
            Some(i) => from <= i < to && v@[i as int] == c && forall|j: int| i < j < to ==> v@[j] != c,
            None => forall|j: int| from <= j < to ==> v@[j] != c,
        },
{
    let mut i = to;
    while i > from
        invariant
            from <= i <= to <= v@.len(),
            forall|j: int| i <= j < to ==> v@[j] != c,
        decreases i,
    {
        if v[i - 1] == c {
            return Some(i - 1);
        }
        i = i - 1;
    }
    None
}

impl HttpRemote {
    pub open spec fn token_view(&self) -> Option<Seq<char>> {
        match self.token {
            Some(t) => Some(t@),
            None => None,
        }
    }

    /// Whether requests to this remote carry a token.
    pub fn has_token(&self) -> (r: bool)
        ensures
            r == self.token_view() is Some,
    {
        self.token.is_some()
    }

    /// True when this string names an HTTP remote rather than a file path.
    pub fn looks_like_url(text: &str) -> (r: bool)
        ensures
            r == (has_prefix(text@, "http://"@) || has_prefix(text@, "https://"@)),
    {
        looks_like_url(text)
    }

    /// Reads a remote URL: `http://host[:port][/prefix]`.
    pub fn parse(url: &str, token: Option<String>) -> (r: Result<HttpRemote, Error>)
        ensures
            match r {
                Ok(remote) => remote.token_view() == (match token {
                    Some(t) => Some(t@),
                    None => None::<Seq<char>>,
                }) && url_parts(url@) == Ok::<(Seq<char>, nat, Seq<char>), Seq<char>>(
                    (remote.host@, remote.port as nat, remote.prefix@),
                ) && remote.url@ == "http://"@ + remote.host@ + ":"@ + decimal(remote.port as nat)
                    + remote.prefix@,
                Err(e) => match e {
                    Error::Invalid(m) => url_parts(url@) == Err::<(Seq<char>, nat, Seq<char>), Seq<char>>(m@),
                    _ => false,
                },
            },
    {
        proof {
            reveal_strlit("http://");
            reveal_strlit("https://");
        }
        if starts_with(url, "https://") {
            return Err(Error::Invalid(owned(
                "https is not supported: gm speaks plain HTTP and is meant for a network you already trust. Use http://, or put a tunnel in front.",
            )));
        }
        if !starts_with(url, "http://") {
            let mut m = owned("not an http:// URL: ");
            push_str(&mut m, url);
            return Err(Error::Invalid(m));
        }
        let cs = chars_of(url);
        let n = cs.len();
        let ghost rest = url@.skip(7);
        let (auth_end, path_start) = match find_char(&cs, 7, '/') {
            Some(i) => {
                proof {
                    assert(crate::wire::is_first(rest, '/', i - 7));
                    assert forall|k: int| crate::wire::is_first(rest, '/', k) implies k == i - 7 by {
                        if k < i - 7 {
                            assert(rest[k] == url@[7 + k]);
                        }
                        if k > i - 7 {
                            assert(rest[i - 7] == '/');
                        }
                    }
                }
                (i, i)
            },
            None => {
                proof {
                    assert forall|k: int| !crate::wire::is_first(rest, '/', k) by {
                        if 0 <= k < rest.len() {
                            assert(rest[k] == url@[7 + k]);
                        }
                    }
                }
                (n, n)
            },
        };
        let ghost authority = url@.subrange(7, auth_end as int);
        let ghost path = url@.subrange(path_start as int, n as int);
        assert(authority =~= (match first_index(rest, '/') {
            Some(i) => rest.take(i),
            None => rest,
        }));
        assert(path =~= (match first_index(rest, '/') {
            Some(i) => rest.skip(i),
            None => Seq::<char>::empty(),
        }));
        let (host_end, port) = match find_last(&cs, 7, auth_end, ':') {
            Some(j) => {
                let port_text = {
                    let t = string_of_range(&cs, j + 1, auth_end);
                    chars_of(t.as_str())
                };
                proof {
                    assert(is_last(authority, ':', j - 7));
                    assert forall|k: int| is_last(authority, ':', k) implies k == j - 7 by {
                        if k > j - 7 {
                            assert(authority[k] == url@[7 + k]);
                        }
                        if k < j - 7 {
                            assert(authority[j - 7] == ':');
                        }
                    }
                    assert(port_text@ =~= authority.skip(j - 7 + 1));
                }
                proof {
                    lemma_last_unique(authority, ':', j - 7);
                }
                match parse_usize(&port_text) {
                    Some(p) => if p <= 65535 {
                        assert(authority.take(j - 7) =~= url@.subrange(7, j as int));
                        (j, p as u16)
                    } else {
                        assert(parse_u16_spec(authority.skip(j - 7 + 1)) is None);
                        assert(!has_prefix(url@, "https://"@) && has_prefix(url@, "http://"@));
                        assert(authority == url_authority(url@.skip(7)));
                        let mut m = owned("bad port in ");
                        push_str(&mut m, url);
                        proof {
                            lemma_host_port_bad(authority, url@, j - 7);
                        }
                        assert(url_parts(url@) == Err::<(Seq<char>, nat, Seq<char>), Seq<char>>(m@));
                        return Err(Error::Invalid(m));
                    },
                    None => {
                        assert(parse_u16_spec(authority.skip(j - 7 + 1)) is None);
                        assert(!has_prefix(url@, "https://"@) && has_prefix(url@, "http://"@));
                        assert(authority == url_authority(url@.skip(7)));
                        let mut m = owned("bad port in ");
                        push_str(&mut m, url);
                        proof {
                            lemma_host_port_bad(authority, url@, j - 7);
                        }
                        assert(url_parts(url@) == Err::<(Seq<char>, nat, Seq<char>), Seq<char>>(m@));
                        return Err(Error::Invalid(m));
                    },
                }
            },
            None => {
                proof {
                    assert forall|k: int| !is_last(authority, ':', k) by {
                        if 0 <= k < authority.len() {
                            assert(authority[k] == url@[7 + k]);
                        }
                    }
                }
                (auth_end, 80u16)
            },
        };
        if host_end == 7 {
            let mut m = owned("no host in ");
            push_str(&mut m, url);
            return Err(Error::Invalid(m));
        }
        let host = string_of_range(&cs, 7, host_end);
        let mut pe = n;
        while pe > path_start && cs[pe - 1] == '/'
            invariant
                path_start <= pe <= n == cs@.len(),
                cs@ == url@,
                trim_slashes(path) == trim_slashes(url@.subrange(path_start as int, pe as int)),
            decreases pe,
        {
            assert(url@.subrange(path_start as int, pe as int).drop_last() =~= url@.subrange(path_start as int, pe - 1));
            pe = pe - 1;
        }
        let prefix = string_of_range(&cs, path_start, pe);
        let mut full = owned("http://");
        push_str(&mut full, host.as_str());
        push_char(&mut full, ':');
        let ps = decimal_string(port as u64);
        push_str(&mut full, ps.as_str());
        push_str(&mut full, prefix.as_str());
        proof {
            reveal_strlit(":");
            assert(host@ =~= url@.subrange(7, host_end as int));
            assert(prefix@ == trim_slashes(path));
            assert(full@ =~= "http://"@ + host@ + ":"@ + decimal(port as nat) + prefix@);
        }
        Ok(HttpRemote { url: full, host, port, prefix, token })
    }

    /// The head of a request to `path` on this remote.
    pub fn request_head(
        &self,
        method: &str,
        path: &str,
        content_type: Option<&str>,
        content_length: usize,
        head: Option<&str>,
    ) -> (r: String)
        ensures
            r@ == method@ + " "@ + self.prefix@ + path@ + " HTTP/1.1\r\nHost: "@ + self.host@ + ":"@
                + decimal(self.port as nat) + "\r\nConnection: close\r\n"@ + token_part(self.token_view())
                + head_part(head) + content_part(content_type, content_length) + "\r\n"@,
    {
        let mut r = owned(method);
        push_str(&mut r, " ");
        push_str(&mut r, self.prefix.as_str());
        push_str(&mut r, path);
        push_str(&mut r, " HTTP/1.1\r\nHost: ");
        push_str(&mut r, self.host.as_str());
        push_str(&mut r, ":");
        let p = decimal_string(self.port as u64);
        push_str(&mut r, p.as_str());
        push_str(&mut r, "\r\nConnection: close\r\n");
        let t = token_text(&self.token);
        push_str(&mut r, t.as_str());
        let h = head_text(head);
        push_str(&mut r, h.as_str());
        let c = content_text(content_type, content_length);
        push_str(&mut r, c.as_str());
        push_str(&mut r, "\r\n");
        r
    }
}

pub open spec fn token_part(t: Option<Seq<char>>) -> Seq<char> {
    match t {
        Some(t) => "Authorization: Bearer "@ + t + "\r\n"@,
        None => Seq::<char>::empty(),
    }
}

pub open spec fn head_part(h: Option<&str>) -> Seq<char> {
    match h {
        Some(h) => HEAD_HEADER@ + ": "@ + h@ + "\r\n"@,
        None => Seq::<char>::empty(),
    }
}

pub open spec fn content_part(c: Option<&str>, len: usize) -> Seq<char> {
    match c {
        Some(c) => "Content-Type: "@ + c@ + "\r\nContent-Length: "@ + decimal(len as nat) + "\r\n"@,
        None => Seq::<char>::empty(),
    }
}

fn token_text(t: &Option<String>) -> (r: String)
    ensures
        r@ == token_part(match t {
            Some(t) => Some(t@),
            None => None,
        }),
{
    let mut r = String::new();
    match t {
        Some(t) => {
            push_str(&mut r, "Authorization: Bearer ");
            push_str(&mut r, t.as_str());
            push_str(&mut r, "\r\n");
        },
        None => {},
    }
    r
}

fn head_text(h: Option<&str>) -> (r: String)
    ensures
        r@ == head_part(h),
{
    let mut r = String::new();
    match h {
        Some(h) => {
            push_str(&mut r, HEAD_HEADER);
            push_str(&mut r, ": ");
            push_str(&mut r, h);
            push_str(&mut r, "\r\n");
        },
        None => {},
    }
    r
}

fn content_text(c: Option<&str>, len: usize) -> (r: String)
    ensures
        r@ == content_part(c, len),
{
    let mut r = String::new();
    match c {
        Some(c) => {
            push_str(&mut r, "Content-Type: ");
            push_str(&mut r, c);
            push_str(&mut r, "\r\nContent-Length: ");
            let l = decimal_string(len as u64);
            push_str(&mut r, l.as_str());
            push_str(&mut r, "\r\n");
        },
        None => {},
    }
    r
}

/// The non-blank lines of a text, trimmed, in order.
pub open spec fn nonblank(ps: Seq<Seq<char>>) -> Seq<Seq<char>>
    decreases ps.len(),
{
    if ps.len() == 0 {
        seq![]
    } else if trimmed(ps.last()).len() > 0 {
        nonblank(ps.drop_last()).push(trimmed(ps.last()))
    } else {
        nonblank(ps.drop_last())
    }
}

/// The commit hashes a remote lists, one per line, blanks ignored, in the
/// order given.
pub fn parse_commit_list(body: &[u8]) -> (r: Vec<String>)
    ensures
        strings_view(r@) == nonblank(split_lines(lossy_text(body@))),
{
    let text = utf8_lossy(body);
    let cs = chars_of(text.as_str());
    let ghost s = cs@;
    let cl = cs.len();
    let mut out: Vec<String> = Vec::new();
    let mut pos: usize = 0;
    let mut done = false;
    let ghost mut seen: Seq<Seq<char>> = seq![];
    assert(cs@.skip(0) =~= s);
    while !done
        invariant
            cs@ == s,
            cl == cs@.len(),
            s == lossy_text(body@),
            pos <= cs@.len(),
            !done ==> split_lines(s) == seen + split_lines(s.skip(pos as int)),
            done ==> split_lines(s) == seen,
            strings_view(out@) == nonblank(seen),
        decreases cs@.len() - pos + if done { 0int } else { 1int },
    {
        let ghost rest = s.skip(pos as int);
        let (piece_end, next) = match find_char(&cs, pos, '\n') {
            Some(i) => {
                proof {
                    assert(crate::wire::is_first(rest, '\n', i - pos));
                    assert forall|k: int| crate::wire::is_first(rest, '\n', k) implies k == i - pos by {
                        if k < i - pos {
                            assert(rest[k] == s[pos + k]);
                        }
                        if k > i - pos {
                            assert(rest[i - pos] == '\n');
                        }
                    }
                    assert(rest.take(i - pos) =~= s.subrange(pos as int, i as int));
                    assert(rest.skip(i - pos + 1) =~= s.skip(i + 1));
                }
                (i, i + 1)
            },
            None => {
                proof {
                    assert forall|k: int| !crate::wire::is_first(rest, '\n', k) by {
                        if 0 <= k < rest.len() {
                            assert(rest[k] == s[pos + k]);
                        }
                    }
                    assert(rest =~= s.subrange(pos as int, s.len() as int));
                }
                (cl, cl)
            },
        };
        let piece = string_of_range(&cs, pos, piece_end);
        let t = trim(piece.as_str());
        let ghost old_seen = seen;
        proof {
            seen = seen.push(piece@);
            assert(seen.drop_last() =~= old_seen);
        }
        if !t.as_str().is_empty() {
            out.push(t);
        }
        assert(strings_view(out@) =~= nonblank(seen));
        if next == cl && piece_end == cl {
            done = true;
            proof {
                assert(split_lines(rest) == seq![rest]);
                assert(seen =~= old_seen + seq![piece@]);
            }
        } else {
            proof {
                assert(split_lines(rest) == seq![rest.take(piece_end - pos)] + split_lines(rest.skip(piece_end - pos + 1)));
                assert(old_seen + split_lines(rest) =~= seen + split_lines(s.skip(next as int)));
            }
            pos = next;
        }
    }
    out
}

/// Lines joined with newlines.
pub open spec fn joined_lines(v: Seq<Seq<char>>) -> Seq<char>
    decreases v.len(),
{
    if v.len() == 0 {
        seq![]
    } else if v.len() == 1 {
        v[0]
    } else {
        joined_lines(v.drop_last()) + seq!['\n'] + v.last()
    }
}

/// The hashes a client already has, one per line.
pub fn join_lines(v: &Vec<String>) -> (r: String)
    ensures
        r@ == joined_lines(strings_view(v@)),
{
    let ghost sv = strings_view(v@);
    let mut r = String::new();
    let mut i: usize = 0;
    while i < v.len()
        invariant
            i <= v@.len(),
            sv == strings_view(v@),
            r@ == joined_lines(sv.take(i as int)),
        decreases v@.len() - i,
    {
        if i > 0 {
            push_char(&mut r, '\n');
        }
        push_str(&mut r, v[i].as_str());
        proof {
            let p = sv.take(i + 1);
            assert(p.drop_last() =~= sv.take(i as int));
            assert(p.last() == sv[i as int]);
            if i == 0 {
                assert(sv.take(0) =~= Seq::<Seq<char>>::empty());
            }
        }
        assert(r@ =~= joined_lines(sv.take(i + 1)));
        i = i + 1;
    }
    assert(sv.take(sv.len() as int) =~= sv);
    r
}

/// What a remote answers to an accepted push.
#[derive(Debug)]
pub struct PushAccepted {
    pub outcome: String,
    pub head: String,
    pub received: usize,
    pub commits: usize,
}


/// A reply from a remote: its status and body.
#[derive(Debug)]
pub struct HttpResponse {
    pub status: u16,
    pub body: Vec<u8>,
    pub url: String,
}

/// The four bytes `\r\n\r\n` start at `k`.
pub open spec fn blank_line_at(b: Seq<u8>, k: int) -> bool {
    0 <= k && k + 4 <= b.len() && b[k] == 13 && b[k + 1] == 10 && b[k + 2] == 13 && b[k + 3] == 10
}

/// `k` is where the head of a reply ends: the first blank line.
pub open spec fn first_blank_line(b: Seq<u8>, k: int) -> bool {
    blank_line_at(b, k) && forall|j: int| 0 <= j < k ==> !blank_line_at(b, j)
}

/// The first line of a text, without a trailing `\r`; none for empty text.
pub open spec fn first_line(h: Seq<char>) -> Option<Seq<char>> {
    if h.len() == 0 {
        None
    } else {
        let l = match first_index(h, '\n') {
            Some(i) => h.take(i),
            None => h,
        };
        Some(
            if l.len() > 0 && l.last() == '\r' {
                l.drop_last()
            } else {
                l
            },
        )
    }
}

/// Where the run of non-white-space characters starting at `i` ends.
pub open spec fn word_end(s: Seq<char>, i: int) -> int
    decreases s.len() - i,
{
    if i >= s.len() || i < 0 || is_white(s[i]) {
        i
    } else {
        word_end(s, i + 1)
    }
}

/// The second white-space separated word of a line.
pub open spec fn second_word(l: Seq<char>) -> Option<Seq<char>> {
    let a = trim_start_at(l, 0, l.len() as int);
    let b = word_end(l, a);
    let c = trim_start_at(l, b, l.len() as int);
    let d = word_end(l, c);
    if a >= l.len() || c >= l.len() {
        None
    } else {
        Some(l.subrange(c, d))
    }
}

/// What a reply says: its status and body; or the message of why it cannot
/// be read.
pub open spec fn reply_parts(raw: Seq<u8>, url: Seq<char>) -> Result<(nat, Seq<u8>), Seq<char>> {
    if !exists|k: int| first_blank_line(raw, k) {
        Err(url + " sent a malformed reply"@)
    } else {
        let k = choose|k: int| first_blank_line(raw, k);
        let status = match first_line(lossy_text(raw.take(k))) {
            Some(l) => match second_word(l) {
                Some(w) => parse_u16_spec(w),
                None => None,
            },
            None => None,
        };
        match status {
            Some(st) => Ok((st, raw.skip(k + 4))),
            None => Err(url + " sent a reply with no status line"@),
        }
    }
}

/// The hint added to an error from a remote, by status.
pub open spec fn status_hint(status: u16) -> Seq<char> {
    if status == 401 {
        "  (this remote needs --token)"@
    } else if status == 403 {
        "  (start it with --allow-push to accept pushes)"@
    } else if status == 404 {
        "  (is it running `gm serve` rather than `gm ui`?)"@
    } else {
        ""@
    }
}

/// Where the run of non-white-space characters starting at `i` ends.
fn word_end_at(v: &Vec<char>, i: usize) -> (r: usize)
    requires
        i <= v@.len(),
    ensures
        r as int == word_end(v@, i as int),
        i <= r <= v@.len(),
{
    let mut j = i;
    while j < v.len() && !crate::text::char_is_white(v[j])
        invariant
            i <= j <= v@.len(),
            word_end(v@, i as int) == word_end(v@, j as int),
        decreases v@.len() - j,
    {
        j = j + 1;
    }
    j
}

/// The first position at or after `i` that is not white space.
fn skip_white(v: &Vec<char>, i: usize) -> (r: usize)
    requires
        i <= v@.len(),
    ensures
        r as int == trim_start_at(v@, i as int, v@.len() as int),
        i <= r <= v@.len(),
{
    let (a, _) = crate::text::trim_range(v, i, v.len());
    a
}

fn hint_text(status: u16) -> (r: &'static str)
    ensures
        r@ == status_hint(status),
{
    if status == 401 {
        "  (this remote needs --token)"
    } else if status == 403 {
        "  (start it with --allow-push to accept pushes)"
    } else if status == 404 {
        "  (is it running `gm serve` rather than `gm ui`?)"
    } else {
        ""
    }
}

impl HttpResponse {
    /// Splits a raw reply into its status and body.
    pub fn parse(raw: &[u8], url: &str) -> (r: Result<HttpResponse, Error>)
        ensures
            match r {
                Ok(resp) => reply_parts(raw@, url@) == Ok::<(nat, Seq<u8>), Seq<char>>(
                    (resp.status as nat, resp.body@),
                ) && resp.url@ == url@,
                Err(e) => match e {
                    Error::Invalid(m) => reply_parts(raw@, url@) == Err::<(nat, Seq<u8>), Seq<char>>(m@),
                    _ => false,
                },
            },
    {
        let n = raw.len();
        let mut k: usize = 0;
        let mut found = false;
        while n >= 4 && k <= n - 4 && !found
            invariant
                n == raw@.len(),
                k <= n,
                found ==> first_blank_line(raw@, k as int),
                !found ==> forall|j: int| 0 <= j < k ==> !blank_line_at(raw@, j),
            decreases n - k + if found { 0int } else { 1int },
        {
            if raw[k] == 13 && raw[k + 1] == 10 && raw[k + 2] == 13 && raw[k + 3] == 10 {
                found = true;
            } else {
                k = k + 1;
            }
        }
        if !found {
            proof {
                assert forall|q: int| !first_blank_line(raw@, q) by {
                    if first_blank_line(raw@, q) {
                        assert(!blank_line_at(raw@, q));
                    }
                }
            }
            let mut m = owned(url);
            push_str(&mut m, " sent a malformed reply");
            return Err(Error::Invalid(m));
        }
        proof {
            let q = choose|q: int| first_blank_line(raw@, q);
            if q < k {
                assert(!blank_line_at(raw@, q));
            } else if q > k {
                assert(blank_line_at(raw@, k as int));
            }
        }
        let head_bytes = copy_bytes(raw, 0, k);
        assert(head_bytes@ =~= raw@.take(k as int));
        let head = utf8_lossy(head_bytes.as_slice());
        let hv = chars_of(head.as_str());
        let hl = hv.len();
        let mut status: Option<u16> = None;
        if hl > 0 {
            let line_end = match find_char(&hv, 0, '\n') {
                Some(i) => {
                    proof {
                        assert(crate::wire::is_first(hv@, '\n', i as int));
                        assert forall|q: int| crate::wire::is_first(hv@, '\n', q) implies q == i by {
                            if q > i {
                                assert(hv@[i as int] == '\n');
                            }
                        }
                    }
                    i
                },
                None => {
                    proof {
                        assert forall|q: int| !crate::wire::is_first(hv@, '\n', q) by {}
                    }
                    hl
                },
            };
            let cut = if line_end > 0 && hv[line_end - 1] == '\r' {
                line_end - 1
            } else {
                line_end
            };
            let line = {
                let t = string_of_range(&hv, 0, cut);
                chars_of(t.as_str())
            };
            proof {
                let l0 = hv@.take(line_end as int);
                assert(line@ =~= (if l0.len() > 0 && l0.last() == '\r' {
                    l0.drop_last()
                } else {
                    l0
                }));
                assert(first_line(head@) == Some(line@));
            }
            let ll = line.len();
            let a = skip_white(&line, 0);
            let b = word_end_at(&line, a);
            let c = skip_white(&line, b);
            let d = word_end_at(&line, c);
            if a < ll && c < ll {
                let word = {
                    let t = string_of_range(&line, c, d);
                    chars_of(t.as_str())
                };
                status = match parse_usize(&word) {
                    Some(v) => if v <= 65535 {
                        Some(v as u16)
                    } else {
                        None
                    },
                    None => None,
                };
            }
        }
        match status {
            None => {
                let mut m = owned(url);
                push_str(&mut m, " sent a reply with no status line");
                Err(Error::Invalid(m))
            },
            Some(st) => {
                let body = copy_bytes(raw, k + 4, n);
                assert(body@ =~= raw@.skip(k + 4));
                Ok(HttpResponse { status: st, body, url: owned(url) })
            },
        }
    }

    /// The body, or an error carrying whatever the server said went wrong.
    pub fn expect_ok(self, endpoint: &str) -> (r: Result<Vec<u8>, Error>)
        ensures
            self.status == 200 ==> (r matches Ok(b) && b@ == self.body@),
            self.status != 200 ==> (r matches Err(Error::Invalid(m)) && m@ == if trimmed(
                lossy_text(self.body@),
            ).len() == 0 {
                self.url@ + endpoint@ + " returned "@ + decimal(self.status as nat) + status_hint(self.status)
            } else {
                self.url@ + ": "@ + trimmed(lossy_text(self.body@)) + status_hint(self.status)
            }),
    {
        if self.status == 200 {
            return Ok(self.body);
        }
        let text = utf8_lossy(self.body.as_slice());
        let detail = trim(text.as_str());
        let hint = hint_text(self.status);
        let mut m = copy_string(&self.url);
        if detail.as_str().is_empty() {
            push_str(&mut m, endpoint);
            push_str(&mut m, " returned ");
            let st = decimal_string(self.status as u64);
            push_str(&mut m, st.as_str());
        } else {
            push_str(&mut m, ": ");
            push_str(&mut m, detail.as_str());
        }
        push_str(&mut m, hint);
        Err(Error::Invalid(m))
    }
}

} // verus!
