//! The sync wire format.
//!
//! A bundle is a bag of objects: no ordering guarantees, no deltas, no
//! compression. Every object carries its own hash, so a receiver verifies each
//! one independently and a truncated transfer is caught rather than
//! half-applied.
//!
//! ```text
//! gm-bundle/1\n
//! sha256-<hex> <byte length>\n
//! <that many bytes>
//! ...
//! ```
//!
//! Lengths are byte counts, so the payload needs no escaping and the decoder
//! never has to guess where an object ends.

use vstd::prelude::*;
use vstd::utf8::*;
use crate::error::Error;
use crate::text::{
    chars_of, copy_string, decimal, decimal_string, digit_char, digit_value, find_char, is_digit, owned, push_char,
    push_str, same_text, string_of, string_of_range,
};

verus! {

pub const BUNDLE_MAGIC: &'static str = "gm-bundle/1";

/// An object on the wire, by its view: its hash and its bytes.
pub open spec fn object_view(o: (String, Vec<u8>)) -> (Seq<char>, Seq<u8>) {
    (o.0@, o.1@)
}

pub open spec fn objects_view(s: Seq<(String, Vec<u8>)>) -> Seq<(Seq<char>, Seq<u8>)> {
    s.map_values(|o: (String, Vec<u8>)| object_view(o))
}

/// The header line of one object: its hash, a space, its length in decimal.
pub open spec fn header_line(hash: Seq<char>, len: nat) -> Seq<char> {
    hash + seq![' '] + decimal(len) + seq!['\n']
}

pub open spec fn object_bytes(o: (Seq<char>, Seq<u8>)) -> Seq<u8> {
    encode_utf8(header_line(o.0, o.1.len())) + o.1
}

pub open spec fn objects_bytes(objs: Seq<(Seq<char>, Seq<u8>)>) -> Seq<u8>
    decreases objs.len(),
{
    if objs.len() == 0 {
        seq![]
    } else {
        object_bytes(objs[0]) + objects_bytes(objs.drop_first())
    }
}

/// The bytes of a bundle holding `objs`, in order.
pub open spec fn bundle_bytes(objs: Seq<(Seq<char>, Seq<u8>)>) -> Seq<u8> {
    encode_utf8(BUNDLE_MAGIC@ + seq!['\n']) + objects_bytes(objs)
}

/// `i` is the position of the first `x` in `s`.
pub open spec fn is_first<T>(s: Seq<T>, x: T, i: int) -> bool {
    0 <= i < s.len() && s[i] == x && forall|j: int| 0 <= j < i ==> s[j] != x
}

/// The position of the first `x` in `s`, if there is one.
pub open spec fn first_index<T>(s: Seq<T>, x: T) -> Option<int> {
    if exists|i: int| is_first(s, x, i) {
        Some(choose|i: int| is_first(s, x, i))
    } else {
        None
    }
}

/// Splitting off one line: the text before the first newline, decoded as
/// UTF-8, and the bytes after it.
pub open spec fn split_line_spec(b: Seq<u8>) -> Result<(Seq<char>, Seq<u8>), Seq<char>> {
    match first_index(b, 10u8) {
        None => Err("bundle ended mid-line"@),
        Some(e) => if valid_utf8(b.subrange(0, e)) {
            Ok((decode_utf8(b.subrange(0, e)), b.subrange(e + 1, b.len() as int)))
        } else {
            Err("bundle header is not valid UTF-8"@)
        },
    }
}

/// Every character is an ASCII digit.
pub open spec fn all_digits(d: Seq<char>) -> bool {
    forall|i: int| 0 <= i < d.len() ==> is_digit(#[trigger] d[i])
}

/// The value of a string of decimal digits.
pub open spec fn digits_value(d: Seq<char>) -> nat
    decreases d.len(),
{
    if d.len() == 0 {
        0
    } else {
        digits_value(d.drop_last()) * 10 + digit_value(d.last())
    }
}

/// What `usize::from_str` accepts: an optional `+`, then one or more ASCII
/// digits whose value fits in a `usize`.
pub open spec fn parse_usize_spec(t: Seq<char>) -> Option<nat> {
    let d = if t.len() > 0 && t[0] == '+' {
        t.drop_first()
    } else {
        t
    };
    if d.len() > 0 && all_digits(d) && digits_value(d) <= usize::MAX {
        Some(digits_value(d))
    } else {
        None
    }
}

/// At most the first `n` characters of `s`.
pub open spec fn first_chars(s: Seq<char>, n: nat) -> Seq<char> {
    if s.len() <= n {
        s
    } else {
        s.take(n as int)
    }
}

/// Decoding the objects that follow the magic line.
pub open spec fn decode_entries(rest: Seq<u8>) -> Result<Seq<(Seq<char>, Seq<u8>)>, Seq<char>>
    decreases rest.len(),
{
    if rest.len() == 0 {
        Ok(seq![])
    } else {
        match split_line_spec(rest) {
            Err(m) => Err(m),
            Ok((header, after)) => match first_index(header, ' ') {
                None => Err("malformed bundle entry: '"@ + header + "'"@),
                Some(i) => {
                    let hash = header.subrange(0, i);
                    match parse_usize_spec(header.subrange(i + 1, header.len() as int)) {
                        None => Err("malformed object length in '"@ + header + "'"@),
                        Some(len) => if after.len() < len {
                            Err(
                                "bundle is truncated: "@ + hash + " claims "@ + decimal(len)
                                    + " bytes, "@ + decimal(after.len()) + " remain"@,
                            )
                        } else {
                            match decode_entries(after.subrange(len as int, after.len() as int)) {
                                Err(m) => Err(m),
                                Ok(tail) => Ok(seq![(hash, after.subrange(0, len as int))] + tail),
                            }
                        },
                    }
                },
            },
        }
    }
}

/// What decoding a bundle gives: its objects, or the message of the error.
pub open spec fn decode_spec(b: Seq<u8>) -> Result<Seq<(Seq<char>, Seq<u8>)>, Seq<char>> {
    match split_line_spec(b) {
        Err(m) => Err(m),
        Ok((magic, after)) => if magic != BUNDLE_MAGIC@ {
            Err(
                "not a ground-model bundle: expected '"@ + BUNDLE_MAGIC@ + "', found '"@
                    + first_chars(magic, 40) + "'"@,
            )
        } else {
            decode_entries(after)
        },
    }
}

/// Prefixing the objects already decoded to what the rest decodes to.
pub open spec fn prepend(
    acc: Seq<(Seq<char>, Seq<u8>)>,
    r: Result<Seq<(Seq<char>, Seq<u8>)>, Seq<char>>,
) -> Result<Seq<(Seq<char>, Seq<u8>)>, Seq<char>> {
    match r {
        Ok(v) => Ok(acc + v),
        Err(m) => Err(m),
    }
}

/// `std::str::from_utf8`: the text the bytes encode, or `None` when they are
/// not valid UTF-8.
#[verifier::external_body]
fn utf8_text(bytes: &[u8]) -> (r: Option<String>)
    ensures
        match r {
            Some(s) => valid_utf8(bytes@) && s@ == decode_utf8(bytes@),
            None => !valid_utf8(bytes@),
        },
{
    match std::str::from_utf8(bytes) {
        Ok(s) => Some(s.to_string()),
        Err(_) => None,
    }
}

/// The bytes `b[from..to]`.
pub fn copy_bytes(b: &[u8], from: usize, to: usize) -> (r: Vec<u8>)
    requires
        from <= to <= b@.len(),
    ensures
        r@ == b@.subrange(from as int, to as int),
{
    let mut r: Vec<u8> = Vec::new();
    let mut i = from;
    while i < to
        invariant
            from <= i <= to <= b@.len(),
            r@ == b@.subrange(from as int, i as int),
        decreases to - i,
    {
        r.push(b[i]);
        assert(b@.subrange(from as int, i + 1) == b@.subrange(from as int, i as int).push(b@[i as int]));
        i = i + 1;
    }
    r
}

/// Appends the bytes of `b` to `out`.
pub fn append_bytes(out: &mut Vec<u8>, b: &[u8])
    ensures
        final(out)@ == old(out)@ + b@,
{
    let mut i: usize = 0;
    while i < b.len()
        invariant
            i <= b@.len(),
            out@ == old(out)@ + b@.subrange(0, i as int),
        decreases b@.len() - i,
    {
        out.push(b[i]);
        assert(b@.subrange(0, i + 1) == b@.subrange(0, i as int).push(b@[i as int]));
        i = i + 1;
    }
    assert(b@.subrange(0, b@.len() as int) == b@);
}

/// Appends the UTF-8 bytes of `s` to `out`.
pub fn append_text(out: &mut Vec<u8>, s: &str)
    ensures
        final(out)@ == old(out)@ + encode_utf8(s@),
{
    append_bytes(out, s.as_bytes());
}

proof fn lemma_objects_bytes_push(objs: Seq<(Seq<char>, Seq<u8>)>, o: (Seq<char>, Seq<u8>))
    ensures
        objects_bytes(objs.push(o)) == objects_bytes(objs) + object_bytes(o),
    decreases objs.len(),
{
    if objs.len() == 0 {
        let p = objs.push(o);
        assert(p.drop_first() =~= seq![]);
        assert(objects_bytes(p.drop_first()) == Seq::<u8>::empty());
        assert(p[0] == o);
        assert(objects_bytes(p) =~= object_bytes(o));
        assert(objects_bytes(objs) == Seq::<u8>::empty());
    } else {
        lemma_objects_bytes_push(objs.drop_first(), o);
        assert(objs.push(o).drop_first() =~= objs.drop_first().push(o));
        assert(objects_bytes(objs.push(o)) =~= object_bytes(objs[0]) + (objects_bytes(
            objs.drop_first(),
        ) + object_bytes(o)));
    }
}

/// Encodes objects as a bundle.
pub fn encode_bundle(objects: &[(String, Vec<u8>)]) -> (out: Vec<u8>)
    ensures
        out@ == bundle_bytes(objects_view(objects@)),
{
    let mut first = owned(BUNDLE_MAGIC);
    push_char(&mut first, '\n');
    let mut out: Vec<u8> = Vec::new();
    assert(first@ =~= BUNDLE_MAGIC@ + seq!['\n']);
    append_text(&mut out, first.as_str());
    assert(out@ =~= encode_utf8(BUNDLE_MAGIC@ + seq!['\n']));
    let ghost start = out@;
    let mut i: usize = 0;
    while i < objects.len()
        invariant
            i <= objects@.len(),
            out@ == start + objects_bytes(objects_view(objects@.take(i as int))),
            start == encode_utf8(BUNDLE_MAGIC@ + seq!['\n']),
        decreases objects@.len() - i,
    {
        let (hash, bytes) = &objects[i];
        let mut header = copy_string(hash);
        push_char(&mut header, ' ');
        let digits = decimal_string(bytes.len() as u64);
        push_str(&mut header, digits.as_str());
        push_char(&mut header, '\n');
        append_text(&mut out, header.as_str());
        append_bytes(&mut out, bytes.as_slice());
        proof {
            let o = object_view(objects@[i as int]);
            assert(header@ =~= header_line(o.0, o.1.len()));
            assert(objects_view(objects@.take(i + 1)) =~= objects_view(objects@.take(i as int)).push(o));
            lemma_objects_bytes_push(objects_view(objects@.take(i as int)), o);
        }
        i = i + 1;
    }
    assert(objects@.take(objects@.len() as int) =~= objects@);
    out
}

/// Splits off the line that starts at `from`: its text, and where the next
/// line starts.
pub fn split_line(bytes: &[u8], from: usize) -> (r: Result<(String, usize), Error>)
    requires
        from <= bytes@.len(),
    ensures
        match r {
            Ok((line, next)) => from < next <= bytes@.len() && split_line_spec(
                bytes@.subrange(from as int, bytes@.len() as int),
            ) == Ok::<(Seq<char>, Seq<u8>), Seq<char>>((line@, bytes@.subrange(next as int, bytes@.len() as int))),
            Err(e) => match e {
                Error::Invalid(m) => split_line_spec(
                    bytes@.subrange(from as int, bytes@.len() as int),
                ) == Err::<(Seq<char>, Seq<u8>), Seq<char>>(m@),
                _ => false,
            },
        },
{
    let ghost rest = bytes@.subrange(from as int, bytes@.len() as int);
    let mut end = from;
    while end < bytes.len() && bytes[end] != 10u8
        invariant
            from <= end <= bytes@.len(),
            forall|j: int| from <= j < end ==> bytes@[j] != 10u8,
        decreases bytes@.len() - end,
    {
        end = end + 1;
    }
    if end == bytes.len() {
        assert forall|i: int| !is_first(rest, 10u8, i) by {
            if 0 <= i < rest.len() {
                assert(rest[i] == bytes@[from + i]);
            }
        }
        return Err(Error::Invalid(owned("bundle ended mid-line")));
    }
    let ghost e = end - from;
    assert(is_first(rest, 10u8, e)) by {
        assert forall|j: int| 0 <= j < e implies rest[j] != 10u8 by {
            assert(rest[j] == bytes@[from + j]);
        }
    }
    assert forall|k: int| is_first(rest, 10u8, k) implies k == e by {
        if k < e {
            assert(rest[k] == bytes@[from + k]);
        }
        if k > e {
            assert(rest[e] == 10u8);
        }
    }
    assert(first_index(rest, 10u8) == Some(e));
    let line_bytes = copy_bytes(bytes, from, end);
    assert(line_bytes@ =~= rest.subrange(0, e));
    assert(bytes@.subrange(end + 1, bytes@.len() as int) =~= rest.subrange(e + 1, rest.len() as int));
    match utf8_text(line_bytes.as_slice()) {
        Some(line) => Ok((line, end + 1)),
        None => Err(Error::Invalid(owned("bundle header is not valid UTF-8"))),
    }
}

pub proof fn lemma_digits_value_prefix(d: Seq<char>, k: int)
    requires
        0 <= k <= d.len(),
    ensures
        digits_value(d.take(k)) <= digits_value(d),
    decreases d.len(),
{
    if k < d.len() {
        lemma_digits_value_prefix(d.drop_last(), k);
        assert(d.drop_last().take(k) =~= d.take(k));
    } else {
        assert(d.take(k) =~= d);
    }
}

/// Parses a length the way `usize::from_str` does.
pub fn parse_usize(t: &Vec<char>) -> (r: Option<usize>)
    ensures
        match r {
            Some(v) => parse_usize_spec(t@) == Some(v as nat),
            None => parse_usize_spec(t@) is None,
        },
{
    let n = t.len();
    let start: usize = if n > 0 && t[0] == '+' {
        1
    } else {
        0
    };
    let ghost d = if t@.len() > 0 && t@[0] == '+' {
        t@.drop_first()
    } else {
        t@
    };
    assert(d =~= t@.subrange(start as int, n as int));
    assert(parse_usize_spec(t@) == (if d.len() > 0 && all_digits(d) && digits_value(d)
        <= usize::MAX {
        Some(digits_value(d))
    } else {
        None
    }));
    if start == n {
        return None;
    }
    let mut acc: usize = 0;
    let mut i = start;
    while i < n
        invariant
            start <= i <= n == t@.len(),
            d == t@.subrange(start as int, n as int),
            parse_usize_spec(t@) == (if d.len() > 0 && all_digits(d) && digits_value(d)
                <= usize::MAX {
                Some(digits_value(d))
            } else {
                None
            }),
            all_digits(t@.subrange(start as int, i as int)),
            acc as nat == digits_value(t@.subrange(start as int, i as int)),
        decreases n - i,
    {
        let c = t[i];
        if !('0' <= c && c <= '9') {
            assert(d[i - start] == c);
            assert(!is_digit(d[i - start]));
            assert(!all_digits(d));
            return None;
        }
        let dv = (c as u32 - '0' as u32) as usize;
        let ghost prefix = t@.subrange(start as int, i + 1);
        assert(prefix.drop_last() =~= t@.subrange(start as int, i as int));
        assert(prefix.last() == c);
        let m = acc.checked_mul(10);
        match m {
            None => {
                proof {
                    assert(d.take(i + 1 - start) =~= prefix);
                    if all_digits(d) {
                        lemma_digits_value_prefix(d, i + 1 - start);
                    }
                }
                return None;
            },
            Some(m) => {
                match m.checked_add(dv) {
                    None => {
                        proof {
                            assert(d.take(i + 1 - start) =~= prefix);
                            if all_digits(d) {
                                lemma_digits_value_prefix(d, i + 1 - start);
                            }
                        }
                        return None;
                    },
                    Some(v) => {
                        acc = v;
                    },
                }
            },
        }
        i = i + 1;
    }
    Some(acc)
}

/// Decodes a bundle into its objects.
pub fn decode_bundle(bytes: &[u8]) -> (r: Result<Vec<(String, Vec<u8>)>, Error>)
    ensures
        match r {
            Ok(v) => decode_spec(bytes@) == Ok::<Seq<(Seq<char>, Seq<u8>)>, Seq<char>>(
                objects_view(v@),
            ),
            Err(e) => match e {
                Error::Invalid(m) => decode_spec(bytes@) == Err::<
                    Seq<(Seq<char>, Seq<u8>)>,
                    Seq<char>,
                >(m@),
                _ => false,
            },
        },
{
    assert(bytes@.subrange(0, bytes@.len() as int) =~= bytes@);
    let (magic, mut pos) = match split_line(bytes, 0) {
        Ok(p) => p,
        Err(e) => return Err(e),
    };
    if !same_text(magic.as_str(), BUNDLE_MAGIC) {
        let mc = chars_of(magic.as_str());
        let shown = if mc.len() <= 40 {
            string_of(&mc)
        } else {
            string_of_range(&mc, 0, 40)
        };
        let mut msg = owned("not a ground-model bundle: expected '");
        push_str(&mut msg, BUNDLE_MAGIC);
        push_str(&mut msg, "', found '");
        push_str(&mut msg, shown.as_str());
        push_str(&mut msg, "'");
        return Err(Error::Invalid(msg));
    }
    let mut objects: Vec<(String, Vec<u8>)> = Vec::new();
    assert(objects_view(objects@) =~= seq![]);
    while pos < bytes.len()
        invariant
            0 < pos <= bytes@.len(),
            decode_spec(bytes@) == prepend(
                objects_view(objects@),
                decode_entries(bytes@.subrange(pos as int, bytes@.len() as int)),
            ),
        decreases bytes@.len() - pos,
    {
        let ghost rest = bytes@.subrange(pos as int, bytes@.len() as int);
        let (header, after) = match split_line(bytes, pos) {
            Ok(p) => p,
            Err(e) => return Err(e),
        };
        let hv = chars_of(header.as_str());
        let hl = hv.len();
        let space = find_char(&hv, 0, ' ');
        let i = match space {
            None => {
                assert forall|k: int| !is_first(header@, ' ', k) by {}
                let mut msg = owned("malformed bundle entry: '");
                push_str(&mut msg, header.as_str());
                push_str(&mut msg, "'");
                return Err(Error::Invalid(msg));
            },
            Some(i) => i,
        };
        assert(is_first(header@, ' ', i as int));
        assert forall|k: int| is_first(header@, ' ', k) implies k == i by {}
        assert(first_index(header@, ' ') == Some(i as int));
        let hash = string_of_range(&hv, 0, i);
        let len_text: Vec<char> = {
            let s = string_of_range(&hv, i + 1, hl);
            chars_of(s.as_str())
        };
        let len = match parse_usize(&len_text) {
            None => {
                let mut msg = owned("malformed object length in '");
                push_str(&mut msg, header.as_str());
                push_str(&mut msg, "'");
                return Err(Error::Invalid(msg));
            },
            Some(len) => len,
        };
        let remain = bytes.len() - after;
        if remain < len {
            let mut msg = owned("bundle is truncated: ");
            push_str(&mut msg, hash.as_str());
            push_str(&mut msg, " claims ");
            let a = decimal_string(len as u64);
            push_str(&mut msg, a.as_str());
            push_str(&mut msg, " bytes, ");
            let b = decimal_string(remain as u64);
            push_str(&mut msg, b.as_str());
            push_str(&mut msg, " remain");
            return Err(Error::Invalid(msg));
        }
        let body = copy_bytes(bytes, after, after + len);
        proof {
            let aft = bytes@.subrange(after as int, bytes@.len() as int);
            assert(body@ =~= aft.subrange(0, len as int));
            assert(bytes@.subrange((after + len) as int, bytes@.len() as int) =~= aft.subrange(
                len as int,
                aft.len() as int,
            ));
            assert(objects_view(objects@.push((hash, body))) =~= objects_view(objects@).push(
                (hash@, body@),
            ));
            assert(forall|x: Seq<(Seq<char>, Seq<u8>)>| #[trigger] (objects_view(objects@) + (seq![(hash@, body@)] + x))
                =~= objects_view(objects@).push((hash@, body@)) + x);
        }
        objects.push((hash, body));
        pos = after + len;
    }
    assert(bytes@.subrange(pos as int, bytes@.len() as int) =~= seq![]);
    assert(objects_view(objects@) + seq![] =~= objects_view(objects@));
    Ok(objects)
}


proof fn lemma_encode_concat(a: Seq<char>, b: Seq<char>)
    ensures
        encode_utf8(a + b) == encode_utf8(a) + encode_utf8(b),
    decreases a.len(),
{
    if a.len() == 0 {
        assert(a + b =~= b);
        assert(encode_utf8(a) + encode_utf8(b) =~= encode_utf8(b));
    } else {
        lemma_encode_concat(a.drop_first(), b);
        assert((a + b).drop_first() =~= a.drop_first() + b);
        assert((a + b)[0] == a[0]);
        assert(encode_utf8(a + b) =~= encode_scalar(a[0] as u32) + (encode_utf8(a.drop_first())
            + encode_utf8(b)));
    }
}

proof fn lemma_high_bytes(v: u32)
    by (bit_vector)
    ensures
        (0xC0u8 | ((v >> 6u32) & 0x1Fu32) as u8) >= 0x80u8,
        (0xE0u8 | ((v >> 12u32) & 0x0Fu32) as u8) >= 0x80u8,
        (0xF0u8 | ((v >> 18u32) & 0x7u32) as u8) >= 0x80u8,
        (0x80u8 | (v & 0x3Fu32) as u8) >= 0x80u8,
        (0x80u8 | ((v >> 6u32) & 0x3Fu32) as u8) >= 0x80u8,
        (0x80u8 | ((v >> 12u32) & 0x3Fu32) as u8) >= 0x80u8,
{
}

proof fn lemma_low_byte(v: u32)
    by (bit_vector)
    requires
        v <= 0x7Fu32,
    ensures
        ((v & 0x7Fu32) as u8) as u32 == v,
{
}

/// An ASCII character's byte occurs in the UTF-8 encoding of a text only
/// where the text holds that very character.
proof fn lemma_encode_avoids(s: Seq<char>, x: char)
    requires
        (x as u32) < 0x80,
        !s.contains(x),
    ensures
        forall|i: int| 0 <= i < encode_utf8(s).len() ==> encode_utf8(s)[i] != x as u8,
    decreases s.len(),
{
    if s.len() > 0 {
        assert(!s.drop_first().contains(x)) by {
            if s.drop_first().contains(x) {
                let k = choose|k: int| 0 <= k < s.drop_first().len() && s.drop_first()[k] == x;
                assert(s[k + 1] == x);
            }
        }
        lemma_encode_avoids(s.drop_first(), x);
        let v = s[0] as u32;
        vstd::utf8::char_u32_cast(s[0], v);
        vstd::utf8::char_u32_cast(x, x as u32);
        assert(s[0] != x);
        assert(v != x as u32);
        lemma_high_bytes(v);
        lemma_low_byte(x as u32);
        if v <= 0x7F {
            lemma_low_byte(v);
        }
        let e = encode_scalar(v);
        assert(forall|i: int| 0 <= i < e.len() ==> e[i] != x as u8);
        assert(encode_utf8(s) == e + encode_utf8(s.drop_first()));
    }
}

proof fn lemma_encode_newline()
    ensures
        encode_utf8(seq!['\n']) == seq![10u8],
{
    lemma_low_byte(10u32);
    assert(seq!['\n'].drop_first() =~= Seq::<char>::empty());
    assert(encode_utf8(seq!['\n']) =~= encode_scalar(10u32) + encode_utf8(Seq::<char>::empty()));
}

proof fn lemma_decimal_digits(n: nat)
    ensures
        decimal(n).len() > 0,
        all_digits(decimal(n)),
        digits_value(decimal(n)) == n,
    decreases n,
{
    let c = digit_char(n % 10);
    assert(c as u32 == ('0' as u32) + n % 10);
    assert(digit_value(c) == n % 10);
    if n < 10 {
        let d = decimal(n);
        assert(d.drop_last() =~= Seq::<char>::empty());
        assert(d.last() == c);
        assert(digits_value(d.drop_last()) == 0);
        assert(digits_value(d) == digits_value(d.drop_last()) * 10 + digit_value(d.last()));
    } else {
        lemma_decimal_digits(n / 10);
        let d = decimal(n);
        assert(d.drop_last() =~= decimal(n / 10));
        assert(d.last() == c);
        assert(n == (n / 10) * 10 + n % 10);
        assert(digits_value(d) == digits_value(d.drop_last()) * 10 + digit_value(d.last()));
        assert forall|i: int| 0 <= i < d.len() implies is_digit(#[trigger] d[i]) by {
            if i < d.len() - 1 {
                assert(d[i] == decimal(n / 10)[i]);
            }
        }
    }
}

proof fn lemma_parse_decimal(n: nat)
    requires
        n <= usize::MAX,
    ensures
        parse_usize_spec(decimal(n)) == Some(n),
{
    lemma_decimal_digits(n);
    assert(is_digit(decimal(n)[0]));
}

/// Reading back one encoded object, followed by anything at all.
proof fn lemma_read_object(o: (Seq<char>, Seq<u8>), rest: Seq<u8>)
    requires
        !o.0.contains(' '),
        !o.0.contains('\n'),
        o.1.len() <= usize::MAX,
    ensures
        ({
            let b = object_bytes(o) + rest;
            let h = o.0 + seq![' '] + decimal(o.1.len());
            &&& split_line_spec(b) == Ok::<(Seq<char>, Seq<u8>), Seq<char>>((h, o.1 + rest))
            &&& first_index(h, ' ') == Some(o.0.len() as int)
            &&& h.subrange(0, o.0.len() as int) == o.0
            &&& h.subrange(o.0.len() as int + 1, h.len() as int) == decimal(o.1.len())
        }),
{
    let h = o.0 + seq![' '] + decimal(o.1.len());
    let b = object_bytes(o) + rest;
    lemma_decimal_digits(o.1.len());
    assert(!h.contains('\n')) by {
        if h.contains('\n') {
            let i = choose|i: int| 0 <= i < h.len() && h[i] == '\n';
            if i < o.0.len() {
                assert(h[i] == o.0[i]);
            } else if i > o.0.len() {
                let d = decimal(o.1.len());
                assert(h[i] == d[i - o.0.len() - 1]);
                assert(is_digit(d[i - o.0.len() - 1]));
            }
        }
    }
    lemma_encode_avoids(h, '\n');
    lemma_encode_concat(h, seq!['\n']);
    lemma_encode_newline();
    assert(header_line(o.0, o.1.len()) =~= h + seq!['\n']);
    let eh = encode_utf8(h);
    let e = eh.len() as int;
    assert(b =~= eh + (seq![10u8] + (o.1 + rest)));
    assert(is_first(b, 10u8, e));
    assert forall|k: int| is_first(b, 10u8, k) implies k == e by {
        if k < e {
            assert(b[k] == eh[k]);
        }
    }
    assert(first_index(b, 10u8) == Some(e));
    assert(b.subrange(0, e) =~= eh);
    assert(b.subrange(e + 1, b.len() as int) =~= o.1 + rest);
    vstd::utf8::encode_utf8_valid_utf8(h);
    vstd::utf8::encode_utf8_decode_utf8(h);
    let i = o.0.len() as int;
    assert(is_first(h, ' ', i)) by {
        assert forall|j: int| 0 <= j < i implies h[j] != ' ' by {
            assert(h[j] == o.0[j]);
        }
    }
    assert forall|k: int| is_first(h, ' ', k) implies k == i by {
        if k < i {
            assert(h[k] == o.0[k]);
        }
    }
    assert(h.subrange(0, i) =~= o.0);
    assert(h.subrange(i + 1, h.len() as int) =~= decimal(o.1.len()));
}

proof fn lemma_entries_round_trip(objs: Seq<(Seq<char>, Seq<u8>)>)
    requires
        forall|i: int|
            0 <= i < objs.len() ==> !(#[trigger] objs[i]).0.contains(' ') && !objs[i].0.contains(
                '\n',
            ) && objs[i].1.len() <= usize::MAX,
    ensures
        decode_entries(objects_bytes(objs)) == Ok::<Seq<(Seq<char>, Seq<u8>)>, Seq<char>>(objs),
    decreases objs.len(),
{
    if objs.len() == 0 {
        assert(objects_bytes(objs) =~= Seq::<u8>::empty());
        assert(objs =~= Seq::<(Seq<char>, Seq<u8>)>::empty());
    } else {
        let o = objs[0];
        let tail = objs.drop_first();
        assert(forall|i: int| 0 <= i < tail.len() ==> #[trigger] tail[i] == objs[i + 1]);
        lemma_entries_round_trip(tail);
        lemma_read_object(o, objects_bytes(tail));
        lemma_parse_decimal(o.1.len());
        let b = objects_bytes(objs);
        assert(b == object_bytes(o) + objects_bytes(tail));
        assert(b.len() > 0) by {
            assert(header_line(o.0, o.1.len()).len() > 0);
            lemma_encode_concat(o.0 + seq![' '] + decimal(o.1.len()), seq!['\n']);
            lemma_encode_newline();
        }
        let after = o.1 + objects_bytes(tail);
        let h = o.0 + seq![' '] + decimal(o.1.len());
        let i = o.0.len() as int;
        assert(split_line_spec(b) == Ok::<(Seq<char>, Seq<u8>), Seq<char>>((h, after)));
        assert(first_index(h, ' ') == Some(i));
        assert(parse_usize_spec(h.subrange(i + 1, h.len() as int)) == Some(o.1.len()));
        assert(after.subrange(o.1.len() as int, after.len() as int) =~= objects_bytes(tail));
        assert(after.subrange(0, o.1.len() as int) =~= o.1);
        assert(decode_entries(after.subrange(o.1.len() as int, after.len() as int)) == Ok::<
            Seq<(Seq<char>, Seq<u8>)>,
            Seq<char>,
        >(tail));
        assert(seq![(o.0, o.1)] + tail =~= objs);
        assert(decode_entries(b) == Ok::<Seq<(Seq<char>, Seq<u8>)>, Seq<char>>(
            seq![(h.subrange(0, i), after.subrange(0, o.1.len() as int))] + tail,
        ));
        assert((h.subrange(0, i), after.subrange(0, o.1.len() as int)) == (o.0, o.1));
        assert(seq![(h.subrange(0, i), after.subrange(0, o.1.len() as int))] + tail =~= objs);
    }
}

/// Decoding an encoded bundle gives back exactly the objects that were
/// encoded, in order, whenever no hash contains a space or a newline.
pub proof fn lemma_bundle_round_trip(objs: Seq<(Seq<char>, Seq<u8>)>)
    requires
        forall|i: int|
            0 <= i < objs.len() ==> !(#[trigger] objs[i]).0.contains(' ') && !objs[i].0.contains(
                '\n',
            ) && objs[i].1.len() <= usize::MAX,
    ensures
        decode_spec(bundle_bytes(objs)) == Ok::<Seq<(Seq<char>, Seq<u8>)>, Seq<char>>(objs),
{
    reveal_strlit("gm-bundle/1");
    let m = BUNDLE_MAGIC@;
    assert(!m.contains('\n'));
    lemma_encode_avoids(m, '\n');
    lemma_encode_concat(m, seq!['\n']);
    lemma_encode_newline();
    let b = bundle_bytes(objs);
    let em = encode_utf8(m);
    let e = em.len() as int;
    assert(b =~= em + (seq![10u8] + objects_bytes(objs)));
    assert(is_first(b, 10u8, e));
    assert forall|k: int| is_first(b, 10u8, k) implies k == e by {
        if k < e {
            assert(b[k] == em[k]);
        }
    }
    assert(b.subrange(0, e) =~= em);
    assert(b.subrange(e + 1, b.len() as int) =~= objects_bytes(objs));
    vstd::utf8::encode_utf8_valid_utf8(m);
    vstd::utf8::encode_utf8_decode_utf8(m);
    lemma_entries_round_trip(objs);
}

/// What a remote says about itself, before any objects move.
#[derive(Debug, Clone)]
pub struct RemoteInfo {
    /// Wire protocol version. Bumped only for an incompatible change.
    pub protocol: u32,
    /// Identifies the project. Two copies may only sync if these match.
    pub file_id: String,
    pub schema_version: String,
    pub head: Option<String>,
    pub name: String,
    /// Whether this remote will accept a push.
    pub accepts_push: bool,
}

/// ASCII letters and digits: what a file name keeps of a project's name.
pub open spec fn name_char(c: char) -> bool {
    ('a' <= c && c <= 'z') || ('A' <= c && c <= 'Z') || ('0' <= c && c <= '9')
}

/// A character in lower case, for ASCII letters.
pub open spec fn lower_char(c: char) -> char {
    if 'A' <= c && c <= 'Z' {
        (((c as u32) + 32) as u8) as char
    } else {
        c
    }
}

/// Reading a name left to right: the runs of ASCII letters and digits seen
/// so far, lower-cased and joined by single hyphens, and whether a separator
/// has been seen since the last of them.
pub open spec fn slug_state(s: Seq<char>) -> (Seq<char>, bool)
    decreases s.len(),
{
    if s.len() == 0 {
        (seq![], false)
    } else {
        let (out, pending) = slug_state(s.drop_last());
        let c = s.last();
        if name_char(c) {
            let sep = if pending && out.len() > 0 {
                out.push('-')
            } else {
                out
            };
            (sep.push(lower_char(c)), false)
        } else {
            (out, true)
        }
    }
}

impl RemoteInfo {
    pub const PROTOCOL: u32 = 1;

    /// The file a clone of this remote is called when no name is given: the
    /// project's name in lower case, each run of other characters made one
    /// hyphen, with the `.gm` extension.
    pub fn clone_name(&self) -> (r: String)
        ensures
            r@ == (if slug_state(self.name@).0.len() == 0 {
                "ground-model"@
            } else {
                slug_state(self.name@).0
            }) + ".gm"@,
    {
        let cs = chars_of(self.name.as_str());
        let mut out = String::new();
        let mut pending = false;
        let mut started = false;
        let mut i: usize = 0;
        while i < cs.len()
            invariant
                i <= cs@.len(),
                cs@ == self.name@,
                (out@, pending) == slug_state(cs@.take(i as int)),
                started == (out@.len() > 0),
            decreases cs@.len() - i,
        {
            let c = cs[i];
            proof {
                assert(cs@.take(i + 1).drop_last() =~= cs@.take(i as int));
                assert(cs@.take(i + 1).last() == c);
            }
            if ('a' <= c && c <= 'z') || ('A' <= c && c <= 'Z') || ('0' <= c && c <= '9') {
                if pending && started {
                    push_char(&mut out, '-');
                }
                let l = if 'A' <= c && c <= 'Z' {
                    (((c as u32) + 32) as u8) as char
                } else {
                    c
                };
                push_char(&mut out, l);
                pending = false;
                started = true;
            } else {
                pending = true;
            }
            i = i + 1;
        }
        assert(cs@.take(cs@.len() as int) =~= cs@);
        let mut r = if started {
            out
        } else {
            owned("ground-model")
        };
        push_str(&mut r, ".gm");
        r
    }
}

} // verus!
