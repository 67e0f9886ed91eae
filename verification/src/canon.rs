//! Canonical JSON serialisation (RFC 8785 JCS) and content addressing.
//!
//! Every object in the store is identified by the SHA-256 of its canonical
//! form. The rules:
//!
//! * UTF-8, no insignificant whitespace.
//! * Object keys sorted by their UTF-16 code units.
//! * Numbers formatted by the ECMAScript `Number::toString` algorithm.
//! * Strings escaped with the shortest legal escape.

use vstd::prelude::*;
use sha2::Digest;
use crate::error::Error;
use crate::sorting::{insert_sorted, lemma_insert_sorted_at, sort_by};
use crate::text::{chars_of, copy_string, decimal, decimal_string, owned, push_char, push_str, string_of_range};
use crate::wire::{all_digits, digits_value, first_index, is_first};

verus! {

// ---------------------------------------------------------------- UTF-16 ---

/// The UTF-16 code units of one character.
pub open spec fn char_units(c: char) -> Seq<u16> {
    let v = c as u32;
    if v < 0x10000 {
        seq![v as u16]
    } else {
        let w = (v - 0x10000) as int;
        seq![(0xD800 + w / 0x400) as u16, (0xDC00 + w % 0x400) as u16]
    }
}

/// The UTF-16 encoding of a text (what `str::encode_utf16` yields).
pub open spec fn utf16(s: Seq<char>) -> Seq<u16>
    decreases s.len(),
{
    if s.len() == 0 {
        seq![]
    } else {
        utf16(s.drop_last()) + char_units(s.last())
    }
}

/// The UTF-16 code units of `s`.
pub fn utf16_units(s: &str) -> (r: Vec<u16>)
    ensures
        r@ == utf16(s@),
{
    let cs = chars_of(s);
    let mut r: Vec<u16> = Vec::new();
    let mut i: usize = 0;
    while i < cs.len()
        invariant
            i <= cs@.len(),
            cs@ == s@,
            r@ == utf16(cs@.take(i as int)),
        decreases cs@.len() - i,
    {
        let v = cs[i] as u32;
        if v < 0x10000 {
            r.push(v as u16);
        } else {
            let w = v - 0x10000;
            r.push((0xD800 + w / 0x400) as u16);
            r.push((0xDC00 + w % 0x400) as u16);
        }
        proof {
            let t = cs@.take(i + 1);
            assert(t.drop_last() =~= cs@.take(i as int));
            assert(t.last() == cs@[i as int]);
        }
        assert(r@ =~= utf16(cs@.take(i + 1)));
        i = i + 1;
    }
    assert(cs@.take(cs@.len() as int) =~= cs@);
    r
}

/// Lexicographic order on code unit sequences.
pub open spec fn units_lt(a: Seq<u16>, b: Seq<u16>) -> bool
    decreases a.len(),
{
    if b.len() == 0 {
        false
    } else if a.len() == 0 {
        true
    } else if a[0] < b[0] {
        true
    } else if a[0] == b[0] {
        units_lt(a.drop_first(), b.drop_first())
    } else {
        false
    }
}

/// Whether `a` sorts strictly before `b`.
pub fn units_less(a: &Vec<u16>, b: &Vec<u16>) -> (r: bool)
    ensures
        r == units_lt(a@, b@),
{
    let mut i: usize = 0;
    assert(a@.skip(0) =~= a@);
    assert(b@.skip(0) =~= b@);
    while i < a.len() && i < b.len() && a[i] == b[i]
        invariant
            i <= a@.len(),
            i <= b@.len(),
            units_lt(a@, b@) == units_lt(a@.skip(i as int), b@.skip(i as int)),
        decreases a@.len() - i,
    {
        assert(a@.skip(i as int).drop_first() =~= a@.skip(i + 1));
        assert(b@.skip(i as int).drop_first() =~= b@.skip(i + 1));
        i = i + 1;
    }
    if i == b.len() {
        assert(b@.skip(i as int).len() == 0);
        false
    } else if i == a.len() {
        assert(a@.skip(i as int).len() == 0);
        true
    } else {
        assert(a@.skip(i as int)[0] == a@[i as int]);
        assert(b@.skip(i as int)[0] == b@[i as int]);
        a[i] < b[i]
    }
}

// ------------------------------------------------------------- strings ---

/// The lowercase hexadecimal digit for `d < 16`.
pub open spec fn hex_digit(d: nat) -> char {
    if d < 10 {
        (('0' as u32) + d) as char
    } else {
        (('a' as u32) + d - 10) as char
    }
}

/// The hexadecimal digit character for `d < 16`.
pub fn hex_digit_char(d: u32) -> (c: char)
    requires
        d < 16,
    ensures
        c == hex_digit(d as nat),
{
    if d < 10 {
        char_of(0x30 + d)
    } else {
        char_of(0x61 + d - 10)
    }
}

/// The character with an ASCII code.
fn char_of(v: u32) -> (c: char)
    requires
        v < 0x80,
    ensures
        c == v as char,
{
    let b = v as u8;
    b as char
}

/// How one character of a string is written inside the quotes.
pub open spec fn escape_char(c: char) -> Seq<char> {
    if c == '"' {
        "\\\""@
    } else if c == '\\' {
        "\\\\"@
    } else if c == '\u{8}' {
        "\\b"@
    } else if c == '\u{c}' {
        "\\f"@
    } else if c == '\n' {
        "\\n"@
    } else if c == '\r' {
        "\\r"@
    } else if c == '\t' {
        "\\t"@
    } else if (c as u32) < 0x20 {
        "\\u00"@ + seq![hex_digit((c as u32 / 16) as nat), hex_digit((c as u32 % 16) as nat)]
    } else {
        seq![c]
    }
}

/// The escaped characters of a string, without the quotes.
pub open spec fn escaped(s: Seq<char>) -> Seq<char>
    decreases s.len(),
{
    if s.len() == 0 {
        seq![]
    } else {
        escaped(s.drop_last()) + escape_char(s.last())
    }
}

/// A string as canonical JSON writes it.
pub open spec fn json_string(s: Seq<char>) -> Seq<char> {
    seq!['"'] + escaped(s) + seq!['"']
}

/// A character that a JSON string may hold as itself: at or above U+0020,
/// and neither the quote nor the backslash.
pub open spec fn literal_char(c: char) -> bool {
    (c as u32) >= 0x20 && c != '"' && c != '\\'
}

/// Every character at or above U+0020 other than `"` and `\` is written into a
/// canonical string as itself, whatever script it belongs to; only the quote,
/// the backslash and the control characters are escaped.
pub proof fn lemma_literal_chars_unescaped(s: Seq<char>)
    requires
        forall|i: int| 0 <= i < s.len() ==> literal_char(#[trigger] s[i]),
    ensures
        escaped(s) == s,
        json_string(s) == seq!['"'] + s + seq!['"'],
    decreases s.len(),
{
    if s.len() > 0 {
        let p = s.drop_last();
        assert forall|i: int| 0 <= i < p.len() implies literal_char(#[trigger] p[i]) by {
            assert(p[i] == s[i]);
        }
        lemma_literal_chars_unescaped(p);
        let c = s.last();
        assert(literal_char(s[s.len() - 1]));
        assert(c != '\u{8}' && c != '\u{c}' && c != '\n' && c != '\r' && c != '\t') by {
            assert((c as u32) >= 0x20);
        }
        assert(escape_char(c) == seq![c]);
        assert(s =~= p.push(c));
        assert(escaped(s) =~= s);
    }
}

/// Escaping never leaves a control character in the text: every character
/// written inside the quotes is at or above U+0020.
pub proof fn lemma_escaped_has_no_controls(s: Seq<char>)
    ensures
        forall|i: int| 0 <= i < escaped(s).len() ==> (#[trigger] escaped(s)[i] as u32) >= 0x20,
    decreases s.len(),
{
    if s.len() > 0 {
        let p = s.drop_last();
        lemma_escaped_has_no_controls(p);
        let c = s.last();
        let e = escape_char(c);
        assert forall|i: int| 0 <= i < e.len() implies (#[trigger] e[i] as u32) >= 0x20 by {
            if (c as u32) < 0x20 && c != '\u{8}' && c != '\u{c}' && c != '\n' && c != '\r' && c != '\t' {
                let hi = (c as u32 / 16) as nat;
                let lo = (c as u32 % 16) as nat;
                assert(e =~= "\\u00"@ + seq![hex_digit(hi), hex_digit(lo)]);
                reveal_strlit("\\u00");
                if i >= 4 {
                    assert(hi < 10 && lo < 16);
                }
            } else if c == '"' {
                reveal_strlit("\\\"");
            } else if c == '\\' {
                reveal_strlit("\\\\");
            } else if c == '\u{8}' {
                reveal_strlit("\\b");
            } else if c == '\u{c}' {
                reveal_strlit("\\f");
            } else if c == '\n' {
                reveal_strlit("\\n");
            } else if c == '\r' {
                reveal_strlit("\\r");
            } else if c == '\t' {
                reveal_strlit("\\t");
            }
        }
        let q = escaped(p);
        assert(escaped(s) == q + e);
        assert forall|i: int| 0 <= i < escaped(s).len() implies (#[trigger] escaped(s)[i] as u32) >= 0x20 by {
            if i < q.len() {
                assert(escaped(s)[i] == q[i]);
            } else {
                assert(escaped(s)[i] == e[i - q.len()]);
            }
        }
    }
}

/// Writes `s` as a JSON string literal.
pub fn write_string(s: &str, out: &mut String)
    ensures
        final(out)@ == old(out)@ + json_string(s@),
        (forall|i: int| 0 <= i < s@.len() ==> literal_char(#[trigger] s@[i])) ==> final(out)@ == old(out)@
            + seq!['"'] + s@ + seq!['"'],
{
    let cs = chars_of(s);
    push_char(out, '"');
    let ghost start = out@;
    let mut i: usize = 0;
    while i < cs.len()
        invariant
            i <= cs@.len(),
            cs@ == s@,
            out@ == start + escaped(cs@.take(i as int)),
        decreases cs@.len() - i,
    {
        let c = cs[i];
        if c == '"' {
            push_str(out, "\\\"");
        } else if c == '\\' {
            push_str(out, "\\\\");
        } else if c == '\u{8}' {
            push_str(out, "\\b");
        } else if c == '\u{c}' {
            push_str(out, "\\f");
        } else if c == '\n' {
            push_str(out, "\\n");
        } else if c == '\r' {
            push_str(out, "\\r");
        } else if c == '\t' {
            push_str(out, "\\t");
        } else if (c as u32) < 0x20 {
            push_str(out, "\\u00");
            push_char(out, hex_digit_char(c as u32 / 16));
            push_char(out, hex_digit_char(c as u32 % 16));
        } else {
            push_char(out, c);
        }
        proof {
            let t = cs@.take(i + 1);
            assert(t.drop_last() =~= cs@.take(i as int));
            assert(t.last() == c);
        }
        assert(out@ =~= start + escaped(cs@.take(i + 1)));
        i = i + 1;
    }
    assert(cs@.take(cs@.len() as int) =~= cs@);
    push_char(out, '"');
    assert(out@ =~= old(out)@ + json_string(s@));
    proof {
        if forall|i: int| 0 <= i < s@.len() ==> literal_char(#[trigger] s@[i]) {
            lemma_literal_chars_unescaped(s@);
            assert(out@ =~= old(out)@ + seq!['"'] + s@ + seq!['"']);
        }
    }
}

// ------------------------------------------------------------- numbers ---

/// What `i32::from_str` accepts: an optional sign, then one or more ASCII
/// digits whose value fits in an `i32`.
pub open spec fn parse_i32_spec(t: Seq<char>) -> Option<int> {
    if t.len() > 0 && t[0] == '-' {
        let d = t.drop_first();
        if d.len() > 0 && all_digits(d) && digits_value(d) <= 0x8000_0000 {
            Some(-digits_value(d))
        } else {
            None
        }
    } else {
        let d = if t.len() > 0 && t[0] == '+' {
            t.drop_first()
        } else {
            t
        };
        if d.len() > 0 && all_digits(d) && digits_value(d) <= 0x7fff_ffff {
            Some(digits_value(d) as int)
        } else {
            None
        }
    }
}

/// The value of the digits `t[from..]`, when they are one or more ASCII
/// digits whose value fits in a `u64`.
fn digits_u64(t: &Vec<char>, from: usize) -> (r: Option<u64>)
    requires
        from <= t@.len(),
    ensures
        ({
            let d = t@.subrange(from as int, t@.len() as int);
            match r {
                Some(v) => d.len() > 0 && all_digits(d) && v as nat == digits_value(d),
                None => !(d.len() > 0 && all_digits(d) && digits_value(d) <= u64::MAX),
            }
        }),
{
    let n = t.len();
    let ghost d = t@.subrange(from as int, n as int);
    if from == n {
        return None;
    }
    let mut acc: u64 = 0;
    let mut i = from;
    while i < n
        invariant
            from <= i <= n == t@.len(),
            d == t@.subrange(from as int, n as int),
            all_digits(t@.subrange(from as int, i as int)),
            acc as nat == digits_value(t@.subrange(from as int, i as int)),
        decreases n - i,
    {
        let c = t[i];
        if !('0' <= c && c <= '9') {
            assert(d[i - from] == c);
            assert(!all_digits(d));
            return None;
        }
        let dv = (c as u32 - '0' as u32) as u64;
        let ghost prefix = t@.subrange(from as int, i + 1);
        assert(prefix.drop_last() =~= t@.subrange(from as int, i as int));
        assert(prefix.last() == c);
        if acc > (u64::MAX - dv) / 10 {
            proof {
                assert(d.take(i + 1 - from) =~= prefix);
                if all_digits(d) {
                    crate::wire::lemma_digits_value_prefix(d, i + 1 - from);
                }
            }
            return None;
        }
        acc = acc * 10 + dv;
        i = i + 1;
    }
    Some(acc)
}

/// Parses an exponent the way `i32::from_str` does.
pub fn parse_i32(t: &Vec<char>) -> (r: Option<i32>)
    ensures
        match r {
            Some(v) => parse_i32_spec(t@) == Some(v as int),
            None => parse_i32_spec(t@) is None,
        },
{
    let n = t.len();
    if n > 0 && t[0] == '-' {
        assert(t@.drop_first() =~= t@.subrange(1, n as int));
        match digits_u64(t, 1) {
            Some(v) => if v <= 0x8000_0000 {
                Some((0 - v as i64) as i32)
            } else {
                None
            },
            None => None,
        }
    } else {
        let start: usize = if n > 0 && t[0] == '+' {
            1
        } else {
            0
        };
        assert(t@.subrange(start as int, n as int) =~= (if n > 0 && t@[0] == '+' {
            t@.drop_first()
        } else {
            t@
        }));
        match digits_u64(t, start) {
            Some(v) => if v <= 0x7fff_ffff {
                Some(v as i32)
            } else {
                None
            },
            None => None,
        }
    }
}

/// A mantissa with its decimal point taken out.
pub open spec fn remove_dots(m: Seq<char>) -> Seq<char>
    decreases m.len(),
{
    if m.len() == 0 {
        seq![]
    } else if m.last() == '.' {
        remove_dots(m.drop_last())
    } else {
        remove_dots(m.drop_last()).push(m.last())
    }
}

/// Digits with their trailing zeros taken off.
pub open spec fn trim_zeros(d: Seq<char>) -> Seq<char>
    decreases d.len(),
{
    if d.len() > 0 && d.last() == '0' {
        trim_zeros(d.drop_last())
    } else {
        d
    }
}

/// The significant digits of a mantissa: no point, no trailing zeros, and
/// `0` when nothing is left.
pub open spec fn significant(m: Seq<char>) -> Seq<char> {
    let t = trim_zeros(remove_dots(m));
    if t.len() == 0 {
        seq!['0']
    } else {
        t
    }
}

/// `n` zeros.
pub open spec fn zeros(n: nat) -> Seq<char> {
    Seq::new(n, |i: int| '0')
}

/// The ECMAScript placement of the significant digits `digits` of a value
/// `0.<digits> * 10^n`.
pub open spec fn ecma_body(digits: Seq<char>, n: int) -> Seq<char> {
    let k = digits.len() as int;
    if k <= n && n <= 21 {
        digits + zeros((n - k) as nat)
    } else if 0 < n && n <= 21 {
        digits.take(n) + seq!['.'] + digits.skip(n)
    } else if -6 < n && n <= 0 {
        seq!['0', '.'] + zeros((-n) as nat) + digits
    } else {
        let e = n - 1;
        let esign = if e >= 0 {
            '+'
        } else {
            '-'
        };
        let ae = if e >= 0 {
            e
        } else {
            -e
        };
        if k == 1 {
            digits + seq!['e', esign] + decimal(ae as nat)
        } else {
            digits.take(1) + seq!['.'] + digits.skip(1) + seq!['e', esign] + decimal(ae as nat)
        }
    }
}

/// The mantissa and exponent of an exponential text `<mantissa>e<exponent>`.
pub open spec fn exponential_parts(sci: Seq<char>) -> Option<(Seq<char>, int)> {
    match first_index(sci, 'e') {
        None => None,
        Some(i) => match parse_i32_spec(sci.subrange(i + 1, sci.len() as int)) {
            None => None,
            Some(e) => Some((sci.subrange(0, i), e)),
        },
    }
}

/// ECMAScript `Number::toString` of the number whose magnitude `{:e}`
/// printed as `sci`, negated when `negative`; `None` when `sci` has no
/// exponent, which is how `{:e}` prints infinities and NaN.
pub open spec fn ecma_spec(negative: bool, sci: Seq<char>) -> Option<Seq<char>> {
    match exponential_parts(sci) {
        None => None,
        Some((m, e)) => Some(
            (if negative {
                seq!['-']
            } else {
                seq![]
            }) + ecma_body(significant(m), e + 1),
        ),
    }
}

/// Appends `n` zeros.
fn push_zeros(out: &mut String, n: u64)
    ensures
        final(out)@ == old(out)@ + zeros(n as nat),
{
    let mut i: u64 = 0;
    while i < n
        invariant
            i <= n,
            out@ == old(out)@ + zeros(i as nat),
        decreases n - i,
    {
        push_char(out, '0');
        assert(zeros((i + 1) as nat) =~= zeros(i as nat).push('0'));
        i = i + 1;
    }
}

/// Appends `v[from..to]`.
fn push_range(out: &mut String, v: &Vec<char>, from: usize, to: usize)
    requires
        from <= to <= v@.len(),
    ensures
        final(out)@ == old(out)@ + v@.subrange(from as int, to as int),
{
    let s = string_of_range(v, from, to);
    push_str(out, s.as_str());
}

/// ECMAScript `Number::toString`, from the shortest round-trip digits that
/// `{:e}` prints for the magnitude of a number (RFC 8785 adopts it
/// wholesale). A text without an exponent is how `{:e}` prints a non-finite
/// number, which has no canonical form.
pub fn ecma_from_exponential(negative: bool, sci: &str) -> (r: Result<String, Error>)
    ensures
        match r {
            Ok(s) => ecma_spec(negative, sci@) == Some(s@),
            Err(e) => e is NonFiniteNumber && ecma_spec(negative, sci@) is None,
        },
{
    let cs = chars_of(sci);
    let cl = cs.len();
    let i = match crate::text::find_char(&cs, 0, 'e') {
        None => {
            assert forall|k: int| !is_first(sci@, 'e', k) by {}
            return Err(Error::NonFiniteNumber);
        },
        Some(i) => i,
    };
    assert(is_first(sci@, 'e', i as int));
    assert forall|k: int| is_first(sci@, 'e', k) implies k == i by {}
    assert(first_index(sci@, 'e') == Some(i as int));
    let exp_text = {
        let t = string_of_range(&cs, i + 1, cl);
        chars_of(t.as_str())
    };
    let exp = match parse_i32(&exp_text) {
        None => return Err(Error::NonFiniteNumber),
        Some(e) => e,
    };
    let ghost m = cs@.subrange(0, i as int);
    let digits = significant_digits(&cs, i);
    let n: i64 = exp as i64 + 1;
    let out = place_digits(negative, &digits, n);
    Ok(out)
}

/// The significant digits of the mantissa `cs[..i]`.
fn significant_digits(cs: &Vec<char>, i: usize) -> (digits: Vec<char>)
    requires
        i <= cs@.len(),
    ensures
        digits@ == significant(cs@.subrange(0, i as int)),
{
    let ghost m = cs@.subrange(0, i as int);
    let mut digs: Vec<char> = Vec::new();
    let mut j: usize = 0;
    while j < i
        invariant
            j <= i <= cs@.len(),
            digs@ == remove_dots(cs@.subrange(0, j as int)),
        decreases i - j,
    {
        let c = cs[j];
        proof {
            let t = cs@.subrange(0, j + 1);
            assert(t.drop_last() =~= cs@.subrange(0, j as int));
            assert(t.last() == c);
        }
        if c != '.' {
            digs.push(c);
        }
        j = j + 1;
    }
    let mut k = digs.len();
    assert(digs@.take(k as int) =~= digs@);
    while k > 0 && digs[k - 1] == '0'
        invariant
            k <= digs@.len(),
            trim_zeros(digs@) == trim_zeros(digs@.take(k as int)),
        decreases k,
    {
        assert(digs@.take(k as int).drop_last() =~= digs@.take(k - 1));
        k = k - 1;
    }
    assert(trim_zeros(digs@.take(k as int)) == digs@.take(k as int));
    if k == 0 {
        let mut z: Vec<char> = Vec::new();
        z.push('0');
        assert(z@ =~= seq!['0']);
        z
    } else {
        let mut z: Vec<char> = Vec::new();
        let mut q: usize = 0;
        while q < k
            invariant
                q <= k <= digs@.len(),
                z@ == digs@.take(q as int),
            decreases k - q,
        {
            z.push(digs[q]);
            assert(digs@.take(q + 1) =~= digs@.take(q as int).push(digs@[q as int]));
            q = q + 1;
        }
        z
    }
}

/// The signed ECMAScript text of `0.<digits> * 10^n`.
fn place_digits(negative: bool, digits: &Vec<char>, n: i64) -> (out: String)
    requires
        digits@.len() >= 1,
        -0x8000_0000 < n <= 0x8000_0000,
    ensures
        out@ == (if negative {
            seq!['-']
        } else {
            seq![]
        }) + ecma_body(digits@, n as int),
{
    let mut out = String::new();
    if negative {
        push_char(&mut out, '-');
    }
    let ghost sign = out@;
    assert(sign =~= (if negative {
        seq!['-']
    } else {
        seq![]
    }));
    let dl = digits.len();
    assert(digits@.subrange(0, dl as int) =~= digits@);
    if 0 <= n && n <= 21 && dl <= n as usize {
        push_range(&mut out, digits, 0, dl);
        push_zeros(&mut out, (n as usize - dl) as u64);
        assert(out@ =~= sign + ecma_body(digits@, n as int));
    } else if 0 < n && n <= 21 {
        push_range(&mut out, digits, 0, n as usize);
        push_char(&mut out, '.');
        push_range(&mut out, digits, n as usize, dl);
        assert(out@ =~= sign + ecma_body(digits@, n as int));
    } else if -6 < n && n <= 0 {
        push_char(&mut out, '0');
        push_char(&mut out, '.');
        push_zeros(&mut out, (0 - n) as u64);
        push_range(&mut out, digits, 0, dl);
        assert(out@ =~= sign + ecma_body(digits@, n as int));
    } else {
        place_exponential(&mut out, digits, n);
    }
    out
}

/// Appends the exponential form of `0.<digits> * 10^n`.
fn place_exponential(out: &mut String, digits: &Vec<char>, n: i64)
    requires
        digits@.len() >= 1,
        -0x8000_0000 < n <= 0x8000_0000,
        !(digits@.len() <= n && n <= 21),
        !(0 < n && n <= 21),
        !(-6 < n && n <= 0),
    ensures
        final(out)@ == old(out)@ + ecma_body(digits@, n as int),
{
    let dl = digits.len();
    assert(digits@.subrange(0, dl as int) =~= digits@);
    let e: i64 = n - 1;
    if dl == 1 {
        push_range(out, digits, 0, dl);
    } else {
        push_range(out, digits, 0, 1);
        push_char(out, '.');
        push_range(out, digits, 1, dl);
    }
    push_char(out, 'e');
    if e >= 0 {
        push_char(out, '+');
    } else {
        push_char(out, '-');
    }
    let ae: u64 = if e >= 0 {
        e as u64
    } else {
        (0 - e) as u64
    };
    let ds = decimal_string(ae);
    push_str(out, ds.as_str());
    assert(final(out)@ =~= old(out)@ + ecma_body(digits@, n as int));
}

// ---------------------------------------------------------------- values ---

/// A JSON value, as the canonical form sees it. A number is kept the way it
/// arrived: an integer, or the `{:e}` text of a double's magnitude and its
/// sign.
#[derive(Debug)]
pub enum Json {
    Null,
    Bool(bool),
    Int(i64),
    UInt(u64),
    Float { negative: bool, exponential: String },
    String(String),
    Array(Vec<Json>),
    Object(Vec<(String, Json)>),
}

/// An integer as `Display` prints it.
pub open spec fn int_text(i: int) -> Seq<char> {
    if i < 0 {
        seq!['-'] + decimal((-i) as nat)
    } else {
        decimal(i as nat)
    }
}

/// Texts joined with commas.
pub open spec fn join(ts: Seq<Seq<char>>) -> Seq<char>
    decreases ts.len(),
{
    if ts.len() == 0 {
        seq![]
    } else if ts.len() == 1 {
        ts[0]
    } else {
        join(ts.drop_last()) + seq![','] + ts.last()
    }
}

/// Object members are ordered by the UTF-16 code units of their keys.
pub open spec fn member_lt() -> spec_fn((Seq<char>, Seq<char>), (Seq<char>, Seq<char>)) -> bool {
    |a: (Seq<char>, Seq<char>), b: (Seq<char>, Seq<char>)| units_lt(utf16(a.0), utf16(b.0))
}

/// The `"key":value` texts of members, in order.
pub open spec fn member_texts(ps: Seq<(Seq<char>, Seq<char>)>) -> Seq<Seq<char>>
    decreases ps.len(),
{
    if ps.len() == 0 {
        seq![]
    } else {
        member_texts(ps.drop_last()).push(json_string(ps.last().0) + seq![':'] + ps.last().1)
    }
}

/// The canonical text of a value; `None` when it holds a non-finite number.
pub open spec fn canon(v: Json) -> Option<Seq<char>>
    decreases v, 2nat,
{
    match v {
        Json::Null => Some("null"@),
        Json::Bool(b) => Some(
            if b {
                "true"@
            } else {
                "false"@
            },
        ),
        Json::Int(i) => Some(int_text(i as int)),
        Json::UInt(u) => Some(decimal(u as nat)),
        Json::Float { negative, exponential } => ecma_spec(negative, exponential@),
        Json::String(s) => Some(json_string(s@)),
        Json::Array(items) => match canon_items(items@) {
            None => None,
            Some(ts) => Some(seq!['['] + join(ts) + seq![']']),
        },
        Json::Object(ms) => canon_object(ms@),
    }
}

/// The canonical text of an object with the members `ms`.
pub open spec fn canon_object(ms: Seq<(String, Json)>) -> Option<Seq<char>>
    decreases ms, 1nat,
{
    match canon_members(ms) {
        None => None,
        Some(ps) => Some(seq!['{'] + join(member_texts(sort_by(ps, member_lt()))) + seq!['}']),
    }
}

/// The canonical texts of the items of an array.
pub open spec fn canon_items(s: Seq<Json>) -> Option<Seq<Seq<char>>>
    decreases s, 0nat,
{
    if s.len() == 0 {
        Some(seq![])
    } else {
        match canon_items(s.drop_last()) {
            None => None,
            Some(ts) => match canon(s.last()) {
                None => None,
                Some(t) => Some(ts.push(t)),
            },
        }
    }
}

/// Each member's key with the canonical text of its value, in the order given.
pub open spec fn canon_members(s: Seq<(String, Json)>) -> Option<Seq<(Seq<char>, Seq<char>)>>
    decreases s, 0nat,
{
    if s.len() == 0 {
        Some(seq![])
    } else {
        match canon_members(s.drop_last()) {
            None => None,
            Some(ps) => match canon(s.last().1) {
                None => None,
                Some(t) => Some(ps.push((s.last().0@, t))),
            },
        }
    }
}

pub open spec fn pairs_view(v: Seq<(String, String)>) -> Seq<(Seq<char>, Seq<char>)> {
    v.map_values(|p: (String, String)| (p.0@, p.1@))
}

/// Sorts members by the UTF-16 code units of their keys, keeping members
/// with equal keys in the order given.
fn sort_members(v: &Vec<(String, String)>) -> (r: Vec<(String, String)>)
    ensures
        pairs_view(r@) == sort_by(pairs_view(v@), member_lt()),
{
    let mut r: Vec<(String, String)> = Vec::new();
    let mut i: usize = 0;
    while i < v.len()
        invariant
            i <= v@.len(),
            pairs_view(r@) == sort_by(pairs_view(v@).take(i as int), member_lt()),
        decreases v@.len() - i,
    {
        let x = (copy_string(&v[i].0), copy_string(&v[i].1));
        let xu = utf16_units(x.0.as_str());
        let ghost xv = (x.0@, x.1@);
        let ghost rv = pairs_view(r@);
        let mut j = r.len();
        while j > 0 && units_less(&xu, &utf16_units(r[j - 1].0.as_str()))
            invariant
                j <= r@.len(),
                rv == pairs_view(r@),
                xu@ == utf16(xv.0),
                forall|k: int| j <= k < rv.len() ==> (member_lt())(xv, #[trigger] rv[k]),
            decreases j,
        {
            j = j - 1;
        }
        proof {
            lemma_insert_sorted_at(rv, xv, member_lt(), j as int);
            let t = pairs_view(v@).take(i + 1);
            assert(t.drop_last() =~= pairs_view(v@).take(i as int));
            assert(t.last() == xv);
        }
        r.insert(j, x);
        assert(pairs_view(r@) =~= rv.insert(j as int, xv));
        i = i + 1;
    }
    assert(pairs_view(v@).take(v@.len() as int) =~= pairs_view(v@));
    r
}

/// Writes an integer as `Display` does.
fn int_string(i: i64) -> (s: String)
    ensures
        s@ == int_text(i as int),
{
    if i < 0 {
        let m = (0 - (i as i128)) as u64;
        let d = decimal_string(m);
        let mut s = String::new();
        push_char(&mut s, '-');
        push_str(&mut s, d.as_str());
        s
    } else {
        decimal_string(i as u64)
    }
}

/// The canonical text of a value.
fn write_value(v: &Json) -> (r: Result<String, Error>)
    ensures
        match r {
            Ok(s) => canon(*v) == Some(s@),
            Err(e) => e is NonFiniteNumber && canon(*v) is None,
        },
    decreases v,
{
    match v {
        Json::Null => Ok(owned("null")),
        Json::Bool(b) => Ok(
            if *b {
                owned("true")
            } else {
                owned("false")
            },
        ),
        Json::Int(i) => Ok(int_string(*i)),
        Json::UInt(u) => Ok(decimal_string(*u)),
        Json::Float { negative, exponential } => ecma_from_exponential(*negative, exponential.as_str()),
        Json::String(s) => {
            let mut out = String::new();
            write_string(s.as_str(), &mut out);
            Ok(out)
        },
        Json::Array(items) => {
            let mut out = String::new();
            push_char(&mut out, '[');
            let ghost mut ts: Seq<Seq<char>> = seq![];
            let mut i: usize = 0;
            while i < items.len()
                invariant
                    i <= items@.len(),
                    *v == Json::Array(*items),
                    canon_items(items@.take(i as int)) == Some(ts),
                    ts.len() == i,
                    out@ == seq!['['] + join(ts),
                decreases items@.len() - i,
            {
                assert(decreases_to!(*v => items@[i as int]));
                let t = match write_value(&items[i]) {
                    Ok(t) => t,
                    Err(e) => {
                        proof {
                            let p = items@.take(i + 1);
                            assert(p.drop_last() =~= items@.take(i as int));
                            lemma_items_none_extends(items@, i as int + 1);
                        }
                        return Err(e);
                    },
                };
                if i > 0 {
                    push_char(&mut out, ',');
                }
                push_str(&mut out, t.as_str());
                proof {
                    let p = items@.take(i + 1);
                    assert(p.drop_last() =~= items@.take(i as int));
                    assert(p.last() == items@[i as int]);
                    if i == 0 {
                        assert(ts.len() == 0) by {
                            assert(items@.take(0) =~= Seq::<Json>::empty());
                        }
                    }
                    assert(ts.push(t@).drop_last() =~= ts);
                    ts = ts.push(t@);
                }
                assert(out@ =~= seq!['['] + join(ts));
                i = i + 1;
            }
            push_char(&mut out, ']');
            assert(items@.take(items@.len() as int) =~= items@);
            Ok(out)
        },
        Json::Object(ms) => {
            let mut pairs: Vec<(String, String)> = Vec::new();
            let mut i: usize = 0;
            while i < ms.len()
                invariant
                    i <= ms@.len(),
                    *v == Json::Object(*ms),
                    canon_members(ms@.take(i as int)) == Some(pairs_view(pairs@)),
                decreases ms@.len() - i,
            {
                assert(decreases_to!(*v => ms@[i as int].1));
                let t = match write_value(&ms[i].1) {
                    Ok(t) => t,
                    Err(e) => {
                        proof {
                            let p = ms@.take(i + 1);
                            assert(p.drop_last() =~= ms@.take(i as int));
                            lemma_members_none_extends(ms@, i as int + 1);
                        }
                        return Err(e);
                    },
                };
                let ghost before = pairs_view(pairs@);
                pairs.push((copy_string(&ms[i].0), t));
                proof {
                    let p = ms@.take(i + 1);
                    assert(p.drop_last() =~= ms@.take(i as int));
                    assert(p.last() == ms@[i as int]);
                    assert(pairs_view(pairs@) =~= before.push((ms@[i as int].0@, t@)));
                }
                i = i + 1;
            }
            assert(ms@.take(ms@.len() as int) =~= ms@);
            let sorted = sort_members(&pairs);
            let ghost sv = pairs_view(sorted@);
            let mut out = String::new();
            push_char(&mut out, '{');
            let mut k: usize = 0;
            while k < sorted.len()
                invariant
                    k <= sorted@.len(),
                    sv == pairs_view(sorted@),
                    out@ == seq!['{'] + join(member_texts(sv.take(k as int))),
                decreases sorted@.len() - k,
            {
                if k > 0 {
                    push_char(&mut out, ',');
                }
                write_string(sorted[k].0.as_str(), &mut out);
                push_char(&mut out, ':');
                push_str(&mut out, sorted[k].1.as_str());
                proof {
                    let p = sv.take(k + 1);
                    assert(p.drop_last() =~= sv.take(k as int));
                    assert(p.last() == sv[k as int]);
                    if k == 0 {
                        assert(sv.take(0) =~= Seq::<(Seq<char>, Seq<char>)>::empty());
                    }
                    lemma_member_texts_len(sv.take(k as int));
                    let mt = member_texts(sv.take(k as int));
                    assert(member_texts(p) == mt.push(json_string(sv[k as int].0) + seq![':'] + sv[k as int].1));
                    assert(mt.push(json_string(sv[k as int].0) + seq![':'] + sv[k as int].1).drop_last() =~= mt);
                }
                assert(out@ =~= seq!['{'] + join(member_texts(sv.take(k + 1))));
                k = k + 1;
            }
            push_char(&mut out, '}');
            assert(sv.take(sv.len() as int) =~= sv);
            Ok(out)
        },
    }
}

proof fn lemma_member_texts_len(ps: Seq<(Seq<char>, Seq<char>)>)
    ensures
        member_texts(ps).len() == ps.len(),
    decreases ps.len(),
{
    if ps.len() > 0 {
        lemma_member_texts_len(ps.drop_last());
    }
}

proof fn lemma_items_none_extends(s: Seq<Json>, n: int)
    requires
        0 <= n <= s.len(),
        canon_items(s.take(n)) is None,
    ensures
        canon_items(s) is None,
    decreases s.len() - n,
{
    if n < s.len() {
        let p = s.take(n + 1);
        assert(p.drop_last() =~= s.take(n));
        lemma_items_none_extends(s, n + 1);
    } else {
        assert(s.take(n) =~= s);
    }
}

proof fn lemma_members_none_extends(s: Seq<(String, Json)>, n: int)
    requires
        0 <= n <= s.len(),
        canon_members(s.take(n)) is None,
    ensures
        canon_members(s) is None,
    decreases s.len() - n,
{
    if n < s.len() {
        let p = s.take(n + 1);
        assert(p.drop_last() =~= s.take(n));
        lemma_members_none_extends(s, n + 1);
    } else {
        assert(s.take(n) =~= s);
    }
}

/// Serialises a value to its canonical form.
pub fn canonicalize(value: &Json) -> (r: Result<String, Error>)
    ensures
        match r {
            Ok(s) => canon(*value) == Some(s@),
            Err(e) => e is NonFiniteNumber && canon(*value) is None,
        },
{
    write_value(value)
}

// ------------------------------------------------------------- hashing ---

/// What SHA-256 gives for a byte sequence.
pub uninterp spec fn sha256_spec(data: Seq<u8>) -> Seq<u8>;

/// SHA-256 of `data` (`sha2::Sha256::digest`): 32 bytes, a function of the
/// input alone.
#[verifier::external_body]
fn sha256(data: &[u8]) -> (r: Vec<u8>)
    ensures
        r@ == sha256_spec(data@),
        r@.len() == 32,
{
    sha2::Sha256::digest(data).to_vec()
}

/// Lowercase hexadecimal, two digits per byte, high nibble first.
pub open spec fn hex_spec(b: Seq<u8>) -> Seq<char>
    decreases b.len(),
{
    if b.len() == 0 {
        seq![]
    } else {
        hex_spec(b.drop_last()) + seq![
            hex_digit((b.last() / 16) as nat),
            hex_digit((b.last() % 16) as nat),
        ]
    }
}

/// `hex::encode`: each byte as two lowercase hexadecimal digits, high nibble
/// first.
#[verifier::external_body]
fn hex_encode(data: &[u8]) -> (r: String)
    ensures
        r@ == hex_spec(data@),
{
    hex::encode(data)
}

/// The object id of some bytes: `sha256-` and the hex of their SHA-256.
pub open spec fn object_id(bytes: Seq<u8>) -> Seq<char> {
    "sha256-"@ + hex_spec(sha256_spec(bytes))
}

/// Hashes raw canonical bytes into a `sha256-<64 hex chars>` object id.
pub fn hash_bytes(bytes: &[u8]) -> (r: String)
    ensures
        r@ == object_id(bytes@),
        r@.len() == 71,
{
    let digest = sha256(bytes);
    let hex = hex_encode(digest.as_slice());
    proof {
        lemma_hex_len(digest@);
    }
    let mut r = owned("sha256-");
    push_str(&mut r, hex.as_str());
    proof {
        reveal_strlit("sha256-");
    }
    r
}

/// Checks that stored bytes hash to the id they are stored under. Objects
/// are copied between files as raw bytes and checked on arrival, so a corrupt
/// object cannot be laundered into a copy by being re-written on the way.
pub fn verify_object(hash: &str, bytes: &[u8]) -> (r: Result<(), Error>)
    ensures
        r is Ok <==> object_id(bytes@) == hash@,
        match r {
            Err(Error::CorruptObject { hash: h, actual }) => h@ == hash@ && actual@ == object_id(bytes@),
            Err(_) => false,
            Ok(_) => true,
        },
{
    let actual = hash_bytes(bytes);
    if crate::text::same_text(actual.as_str(), hash) {
        Ok(())
    } else {
        Err(Error::CorruptObject { hash: owned(hash), actual })
    }
}

proof fn lemma_hex_len(b: Seq<u8>)
    ensures
        hex_spec(b).len() == 2 * b.len(),
    decreases b.len(),
{
    if b.len() > 0 {
        lemma_hex_len(b.drop_last());
    }
}


/// Canonicalises a value and hashes it, yielding its object id.
pub fn hash_value(value: &Json) -> (r: Result<String, Error>)
    ensures
        match r {
            Ok(h) => canon(*value) is Some && h@ == object_id(
                vstd::utf8::encode_utf8(canon(*value)->Some_0),
            ),
            Err(e) => e is NonFiniteNumber && canon(*value) is None,
        },
{
    let text = canonicalize(value)?;
    Ok(hash_bytes(text.as_str().as_bytes()))
}

// ----------------------------------------------------------- key order ---

proof fn lemma_units_lt_irreflexive(a: Seq<u16>)
    ensures
        !units_lt(a, a),
    decreases a.len(),
{
    if a.len() > 0 {
        lemma_units_lt_irreflexive(a.drop_first());
    }
}

proof fn lemma_units_lt_total(a: Seq<u16>, b: Seq<u16>)
    ensures
        a != b ==> (units_lt(a, b) || units_lt(b, a)),
        !(units_lt(a, b) && units_lt(b, a)),
    decreases a.len(),
{
    if a.len() > 0 && b.len() > 0 {
        lemma_units_lt_total(a.drop_first(), b.drop_first());
        if a != b && a[0] == b[0] {
            assert(a =~= seq![a[0]] + a.drop_first());
            assert(b =~= seq![b[0]] + b.drop_first());
        }
    } else if a.len() == 0 && b.len() == 0 {
        assert(a =~= b);
    }
}

proof fn lemma_units_lt_trans(a: Seq<u16>, b: Seq<u16>, c: Seq<u16>)
    requires
        units_lt(a, b),
        units_lt(b, c),
    ensures
        units_lt(a, c),
    decreases a.len(),
{
    if a.len() > 0 && b.len() > 0 && c.len() > 0 && a[0] == b[0] && b[0] == c[0] {
        lemma_units_lt_trans(a.drop_first(), b.drop_first(), c.drop_first());
    }
}

proof fn lemma_char_units(c: char)
    ensures
        char_units(c).len() >= 1,
        (c as u32) < 0x10000 ==> char_units(c) == seq![(c as u32) as u16] && !(0xDC00 <= (c
            as u32) <= 0xDFFF),
        (c as u32) >= 0x10000 ==> char_units(c).len() == 2 && 0xDC00 <= char_units(c)[1]
            <= 0xDFFF,
        (c as u32) < 0x10000 ==> char_units(c)[0] as int == c as u32,
        (c as u32) >= 0x10000 ==> char_units(c)[0] as int == 0xD800 + ((c as u32) - 0x10000)
            / 0x400 && char_units(c)[1] as int == 0xDC00 + ((c as u32) - 0x10000) % 0x400,
{
    vstd::utf8::char_is_scalar(c);
    let v = c as u32;
    if v >= 0x10000 {
        let w = (v - 0x10000) as int;
        assert(0 <= w % 0x400 < 0x400);
        assert(0 <= w / 0x400 < 0x400);
        assert(char_units(c)[0] as int == 0xD800 + w / 0x400);
        assert(char_units(c)[1] as int == 0xDC00 + w % 0x400);
    } else {
        assert(char_units(c)[0] as int == v as int);
    }
}

proof fn lemma_char_units_injective(c: char, d: char)
    requires
        char_units(c) == char_units(d),
    ensures
        c == d,
{
    lemma_char_units(c);
    lemma_char_units(d);
    vstd::utf8::char_u32_cast(c, c as u32);
    vstd::utf8::char_u32_cast(d, d as u32);
    let v = c as u32;
    let u = d as u32;
    if v >= 0x10000 && u >= 0x10000 {
        let w = (v - 0x10000) as int;
        let x = (u - 0x10000) as int;
        assert(char_units(c)[0] == char_units(d)[0]);
        assert(char_units(c)[1] == char_units(d)[1]);
        assert(0 <= w / 0x400 < 0x400);
        assert(0 <= x / 0x400 < 0x400);
        assert(w / 0x400 == x / 0x400);
        assert(w % 0x400 == x % 0x400);
        assert(w == (w / 0x400) * 0x400 + w % 0x400) by (nonlinear_arith);
        assert(x == (x / 0x400) * 0x400 + x % 0x400) by (nonlinear_arith);
    }
}

proof fn lemma_utf16_len(s: Seq<char>)
    ensures
        utf16(s).len() >= s.len(),
    decreases s.len(),
{
    if s.len() > 0 {
        lemma_utf16_len(s.drop_last());
        lemma_char_units(s.last());
    }
}

/// Different texts have different UTF-16 encodings.
proof fn lemma_utf16_injective(a: Seq<char>, b: Seq<char>)
    requires
        utf16(a) == utf16(b),
    ensures
        a == b,
    decreases a.len() + b.len(),
{
    lemma_utf16_len(a);
    lemma_utf16_len(b);
    if a.len() == 0 || b.len() == 0 {
        if a.len() > 0 {
            lemma_char_units(a.last());
        }
        if b.len() > 0 {
            lemma_char_units(b.last());
        }
        assert(a =~= b);
    } else {
        let ca = a.last();
        let cb = b.last();
        lemma_char_units(ca);
        lemma_char_units(cb);
        let ua = char_units(ca);
        let ub = char_units(cb);
        let pa = utf16(a.drop_last());
        let pb = utf16(b.drop_last());
        let all = utf16(a);
        assert(all == pa + ua);
        assert(all == pb + ub);
        assert(all.last() == ua.last());
        assert(all.last() == ub.last());
        assert(ua.len() == ub.len());
        assert(ua =~= all.subrange(pa.len() as int, all.len() as int));
        assert(ub =~= all.subrange(pb.len() as int, all.len() as int));
        lemma_char_units_injective(ca, cb);
        assert(pa =~= all.subrange(0, pa.len() as int));
        assert(pb =~= all.subrange(0, pb.len() as int));
        lemma_utf16_injective(a.drop_last(), b.drop_last());
        assert(a =~= a.drop_last().push(ca));
        assert(b =~= b.drop_last().push(cb));
    }
}

/// The UTF-16 encoding of a text is that of its first character followed by
/// that of the rest.
pub proof fn lemma_utf16_first(s: Seq<char>)
    requires
        s.len() > 0,
    ensures
        utf16(s) == char_units(s[0]) + utf16(s.drop_first()),
    decreases s.len(),
{
    if s.len() == 1 {
        assert(s.drop_last() =~= Seq::<char>::empty());
        assert(s.drop_first() =~= Seq::<char>::empty());
        assert(utf16(s) =~= char_units(s[0]) + utf16(s.drop_first()));
    } else {
        let p = s.drop_last();
        lemma_utf16_first(p);
        assert(p.drop_first() =~= s.drop_first().drop_last());
        assert(s.drop_first().last() == s.last());
        assert(p[0] == s[0]);
        assert(utf16(s) =~= char_units(s[0]) + utf16(s.drop_first()));
    }
}

/// How two keys that start with ASCII characters compare: by their first
/// characters when these differ, else by what follows.
pub proof fn lemma_ascii_key_lt(a: Seq<char>, b: Seq<char>)
    requires
        a.len() > 0,
        b.len() > 0,
        (a[0] as u32) < 0x80,
        (b[0] as u32) < 0x80,
    ensures
        (a[0] as u32) < (b[0] as u32) ==> units_lt(utf16(a), utf16(b)),
        (a[0] as u32) > (b[0] as u32) ==> !units_lt(utf16(a), utf16(b)),
        a[0] == b[0] ==> units_lt(utf16(a), utf16(b)) == units_lt(utf16(a.drop_first()), utf16(b.drop_first())),
{
    lemma_utf16_first(a);
    lemma_utf16_first(b);
    lemma_char_units(a[0]);
    lemma_char_units(b[0]);
    let ua = utf16(a);
    let ub = utf16(b);
    assert(ua[0] as int == a[0] as u32);
    assert(ub[0] as int == b[0] as u32);
    assert(ua.drop_first() =~= utf16(a.drop_first()));
    assert(ub.drop_first() =~= utf16(b.drop_first()));
}

/// Each member's key with the text of its value, when every value has one.
pub open spec fn member_pair(m: (String, Json)) -> (Seq<char>, Seq<char>) {
    (
        m.0@,
        match canon(m.1) {
            Some(t) => t,
            None => seq![],
        },
    )
}

pub proof fn lemma_canon_members_map(s: Seq<(String, Json)>)
    ensures
        canon_members(s) == if (forall|i: int| 0 <= i < s.len() ==> canon((#[trigger] s[i]).1) is Some) {
            Some(s.map_values(|m: (String, Json)| member_pair(m)))
        } else {
            None::<Seq<(Seq<char>, Seq<char>)>>
        },
    decreases s.len(),
{
    if s.len() > 0 {
        let p = s.drop_last();
        lemma_canon_members_map(p);
        assert(forall|i: int| 0 <= i < p.len() ==> #[trigger] p[i] == s[i]);
        if forall|i: int| 0 <= i < s.len() ==> canon((#[trigger] s[i]).1) is Some {
            assert(s.map_values(|m: (String, Json)| member_pair(m)) =~= p.map_values(
                |m: (String, Json)| member_pair(m),
            ).push(member_pair(s.last())));
        } else {
            let k = choose|k: int| 0 <= k < s.len() && canon((#[trigger] s[k]).1) is None;
            if k < s.len() - 1 {
                assert(canon(p[k].1) is None);
            }
        }
    } else {
        assert(s.map_values(|m: (String, Json)| member_pair(m)) =~= seq![]);
    }
}

proof fn lemma_map_permutation(a: Seq<(String, Json)>, b: Seq<(String, Json)>)
    requires
        a.to_multiset() == b.to_multiset(),
    ensures
        a.map_values(|m: (String, Json)| member_pair(m)).to_multiset() == b.map_values(
            |m: (String, Json)| member_pair(m),
        ).to_multiset(),
    decreases a.len(),
{
    broadcast use {vstd::seq_lib::group_to_multiset_ensures, vstd::multiset::group_multiset_axioms};

    assert(a.len() == a.to_multiset().len());
    assert(b.len() == b.to_multiset().len());
    if a.len() > 0 {
        let x = a.last();
        let al = a.drop_last();
        assert(a =~= al.push(x));
        assert(a.to_multiset().count(x) > 0);
        assert(b.to_multiset().count(x) > 0);
        let k = choose|k: int| 0 <= k < b.len() && b[k] == x;
        let bk = b.remove(k);
        assert(bk.to_multiset() =~= b.to_multiset().remove(x));
        assert(al.to_multiset() =~= a.to_multiset().remove(x));
        lemma_map_permutation(al, bk);
        let fa = a.map_values(|m: (String, Json)| member_pair(m));
        let fb = b.map_values(|m: (String, Json)| member_pair(m));
        assert(fa =~= al.map_values(|m: (String, Json)| member_pair(m)).push(member_pair(x)));
        assert(fb.remove(k) =~= bk.map_values(|m: (String, Json)| member_pair(m)));
        assert(fb[k] == member_pair(x));
        assert(fb.remove(k).to_multiset() =~= fb.to_multiset().remove(member_pair(x)));
        assert(fb.to_multiset().count(member_pair(x)) > 0) by {
            assert(fb.contains(member_pair(x)));
        }
        assert(fb.to_multiset() =~= fb.to_multiset().remove(member_pair(x)).insert(member_pair(x)));
    } else {
        assert(b.len() == 0);
        assert(a.map_values(|m: (String, Json)| member_pair(m)) =~= seq![]);
        assert(b.map_values(|m: (String, Json)| member_pair(m)) =~= seq![]);
    }
}

/// The canonical text of an object does not depend on the order in which its
/// members are given, when no key occurs twice: two objects holding the same
/// members hash alike.
pub proof fn lemma_member_order_irrelevant(a: Seq<(String, Json)>, b: Seq<(String, Json)>)
    requires
        a.to_multiset() == b.to_multiset(),
        forall|i: int, j: int| 0 <= i < j < a.len() ==> (#[trigger] a[i]).0@ != (#[trigger] a[j]).0@,
    ensures
        canon_object(a) == canon_object(b),
{
    broadcast use {vstd::seq_lib::group_to_multiset_ensures, vstd::multiset::group_multiset_axioms};

    lemma_canon_members_map(a);
    lemma_canon_members_map(b);
    let all_a = forall|i: int| 0 <= i < a.len() ==> canon((#[trigger] a[i]).1) is Some;
    let all_b = forall|i: int| 0 <= i < b.len() ==> canon((#[trigger] b[i]).1) is Some;
    assert(all_a == all_b) by {
        if all_a {
            assert forall|i: int| 0 <= i < b.len() implies canon((#[trigger] b[i]).1) is Some by {
                assert(b.to_multiset().count(b[i]) > 0);
                assert(a.to_multiset().count(b[i]) > 0);
                let k = choose|k: int| 0 <= k < a.len() && a[k] == b[i];
            }
        }
        if all_b {
            assert forall|i: int| 0 <= i < a.len() implies canon((#[trigger] a[i]).1) is Some by {
                assert(a.to_multiset().count(a[i]) > 0);
                assert(b.to_multiset().count(a[i]) > 0);
                let k = choose|k: int| 0 <= k < b.len() && b[k] == a[i];
            }
        }
    }
    if all_a {
        let fa = a.map_values(|m: (String, Json)| member_pair(m));
        let fb = b.map_values(|m: (String, Json)| member_pair(m));
        lemma_map_permutation(a, b);
        let lt = member_lt();
        assert forall|p: (Seq<char>, Seq<char>)| #[trigger] fa.contains(p) implies !lt(p, p) by {
            lemma_units_lt_irreflexive(utf16(p.0));
        }
        assert forall|p: (Seq<char>, Seq<char>), q: (Seq<char>, Seq<char>), r: (
            Seq<char>,
            Seq<char>,
        )|
            fa.contains(p) && fa.contains(q) && fa.contains(r) && #[trigger] lt(p, q) && #[trigger] lt(
                q,
                r,
            ) implies lt(p, r) by {
            lemma_units_lt_trans(utf16(p.0), utf16(q.0), utf16(r.0));
        }
        assert forall|p: (Seq<char>, Seq<char>), q: (Seq<char>, Seq<char>)|
            #[trigger] fa.contains(p) && #[trigger] fa.contains(q) implies p == q || lt(p, q) || lt(
                q,
                p,
            ) by {
            let i = choose|i: int| 0 <= i < fa.len() && fa[i] == p;
            let j = choose|j: int| 0 <= j < fa.len() && fa[j] == q;
            if i != j {
                let (x, y) = if i < j {
                    (i, j)
                } else {
                    (j, i)
                };
                assert(a[x].0@ != a[y].0@);
                if utf16(p.0) == utf16(q.0) {
                    lemma_utf16_injective(p.0, q.0);
                }
                lemma_units_lt_total(utf16(p.0), utf16(q.0));
            }
        }
        crate::sorting::lemma_sort_by_permutation(fa, fb, lt);
    }
}

} // verus!
