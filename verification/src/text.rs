//! Characters, UTF-16 code units and the conversions between them.

use vstd::prelude::*;

verus! {

/// The UTF-16 code units that encode `c`: one unit below U+10000, else a
/// surrogate pair.
pub open spec fn utf16_units(c: char) -> Seq<u16> {
    let v = c as u32;
    if v < 0x10000 {
        seq![v as u16]
    } else {
        seq![(0xD800 + (v - 0x10000) / 0x400) as u16, (0xDC00 + (v - 0x10000) % 0x400) as u16]
    }
}

/// The UTF-16 encoding of a character sequence.
pub open spec fn encode_utf16(s: Seq<char>) -> Seq<u16>
    decreases s.len(),
{
    if s.len() == 0 {
        seq![]
    } else {
        encode_utf16(s.drop_last()) + utf16_units(s.last())
    }
}

/// UTF-16 length of a character sequence, the unit JavaScript `String.length`
/// reports.
pub open spec fn utf16_length(s: Seq<char>) -> nat {
    encode_utf16(s).len()
}

pub open spec fn is_high_surrogate(u: u16) -> bool {
    0xD800 <= u < 0xDC00
}

pub open spec fn is_low_surrogate(u: u16) -> bool {
    0xDC00 <= u < 0xE000
}

/// The character that a surrogate pair encodes.
pub open spec fn pair_char(hi: u16, lo: u16) -> char {
    ((0x10000 + (hi - 0xD800) * 0x400 + (lo - 0xDC00)) as u32) as char
}

/// Decodes UTF-16 code units. A well-formed surrogate pair gives one
/// character; a surrogate that is not part of one gives U+FFFD.
pub open spec fn decode_utf16_lossy(u: Seq<u16>) -> Seq<char>
    decreases u.len(),
{
    if u.len() == 0 {
        seq![]
    } else if u.len() >= 2 && is_high_surrogate(u[0]) && is_low_surrogate(u[1]) {
        seq![pair_char(u[0], u[1])] + decode_utf16_lossy(u.skip(2))
    } else if is_high_surrogate(u[0]) || is_low_surrogate(u[0]) {
        seq!['\u{FFFD}'] + decode_utf16_lossy(u.skip(1))
    } else {
        seq![(u[0] as u32) as char] + decode_utf16_lossy(u.skip(1))
    }
}

/// The part of `s` between UTF-16 code-unit offsets `start` and `end`, both
/// clamped to the length; a surrogate cut in half becomes U+FFFD.
pub open spec fn utf16_slice_spec(s: Seq<char>, start: int, end: int) -> Seq<char> {
    let u = encode_utf16(s);
    let a = if start < u.len() {
        start
    } else {
        u.len() as int
    };
    let b = if end < u.len() {
        end
    } else {
        u.len() as int
    };
    if a >= b {
        seq![]
    } else {
        decode_utf16_lossy(u.subrange(a, b))
    }
}

pub proof fn lemma_encode_utf16_concat(a: Seq<char>, b: Seq<char>)
    ensures
        encode_utf16(a + b) == encode_utf16(a) + encode_utf16(b),
    decreases b.len(),
{
    if b.len() == 0 {
        assert(a + b =~= a);
        assert(encode_utf16(a) + encode_utf16(b) =~= encode_utf16(a));
    } else {
        assert((a + b).drop_last() =~= a + b.drop_last());
        lemma_encode_utf16_concat(a, b.drop_last());
        assert(encode_utf16(a + b) =~= encode_utf16(a) + encode_utf16(b));
    }
}

/// `char::from_u32`: the character whose scalar value is `v`, or `None` when
/// `v` is a surrogate or above U+10FFFF.
#[verifier::external_body]
fn char_from_u32(v: u32) -> (r: Option<char>)
    ensures
        (v < 0xD800 || (0xE000 <= v && v <= 0x10FFFF)) ==> r == Some(v as char),
        !(v < 0xD800 || (0xE000 <= v && v <= 0x10FFFF)) ==> r is None,
{
    char::from_u32(v)
}

/// `String::push`: appends `c` to `s`.
#[verifier::external_body]
pub(crate) fn push_char(s: &mut String, c: char)
    ensures
        final(s)@ == old(s)@.push(c),
{
    s.push(c)
}

/// Collects the characters of `s` into a vector.
pub fn chars_of(s: &str) -> (v: Vec<char>)
    ensures
        v@ == s@,
{
    let mut v: Vec<char> = Vec::new();
    for c in it: s.chars()
        invariant
            v@ == it.seq().take(it.index() as int),
    {
        v.push(c);
    }
    v
}

/// The string made of `t[a..b]`.
pub fn string_of(t: &[char], a: usize, b: usize) -> (s: String)
    requires
        a <= b <= t@.len(),
    ensures
        s@ == t@.subrange(a as int, b as int),
{
    let mut s = String::new();
    let mut i = a;
    while i < b
        invariant
            a <= i <= b <= t@.len(),
            s@ == t@.subrange(a as int, i as int),
        decreases b - i,
    {
        push_char(&mut s, t[i]);
        assert(t@.subrange(a as int, i + 1) =~= t@.subrange(a as int, i as int).push(t@[i as int]));
        i = i + 1;
    }
    s
}

/// Appends the UTF-16 encoding of `t[a..b]` to `out`.
pub fn encode_utf16_into(t: &[char], a: usize, b: usize, out: &mut Vec<u16>)
    requires
        a <= b <= t@.len(),
    ensures
        final(out)@ == old(out)@ + encode_utf16(t@.subrange(a as int, b as int)),
{
    let mut i = a;
    assert(encode_utf16(t@.subrange(a as int, a as int)) =~= Seq::<u16>::empty());
    assert(out@ =~= old(out)@ + encode_utf16(t@.subrange(a as int, a as int)));
    while i < b
        invariant
            a <= i <= b <= t@.len(),
            out@ == old(out)@ + encode_utf16(t@.subrange(a as int, i as int)),
        decreases b - i,
    {
        let c = t[i];
        let v = c as u32;
        if v < 0x10000 {
            out.push(v as u16);
        } else {
            out.push((0xD800 + (v - 0x10000) / 0x400) as u16);
            out.push((0xDC00 + (v - 0x10000) % 0x400) as u16);
        }
        proof {
            let s = t@.subrange(a as int, i + 1);
            assert(s.drop_last() =~= t@.subrange(a as int, i as int));
            assert(s.last() == c);
            assert(out@ =~= old(out)@ + encode_utf16(s));
        }
        i = i + 1;
    }
}

/// Decodes `u[a..b]` as UTF-16, replacing unpaired surrogates with U+FFFD.
pub fn decode_utf16_range(u: &[u16], a: usize, b: usize) -> (s: String)
    requires
        a <= b <= u@.len(),
    ensures
        s@ == decode_utf16_lossy(u@.subrange(a as int, b as int)),
{
    let mut s = String::new();
    let mut i = a;
    while i < b
        invariant
            a <= i <= b <= u@.len(),
            s@ + decode_utf16_lossy(u@.subrange(i as int, b as int)) == decode_utf16_lossy(
                u@.subrange(a as int, b as int),
            ),
        decreases b - i,
    {
        let ghost rest = u@.subrange(i as int, b as int);
        let x = u[i];
        let c;
        let step: usize;
        if i + 1 < b && 0xD800 <= x && x < 0xDC00 && 0xDC00 <= u[i + 1] && u[i + 1] < 0xE000 {
            let y = u[i + 1];
            let v: u32 = 0x10000 + (x as u32 - 0xD800) * 0x400 + (y as u32 - 0xDC00);
            c = match char_from_u32(v) {
                Some(ch) => ch,
                None => '\u{FFFD}',
            };
            step = 2;
            assert(rest.skip(2) =~= u@.subrange(i + 2, b as int));
        } else if 0xD800 <= x && x < 0xE000 {
            c = '\u{FFFD}';
            step = 1;
            assert(rest.skip(1) =~= u@.subrange(i + 1, b as int));
        } else {
            c = match char_from_u32(x as u32) {
                Some(ch) => ch,
                None => '\u{FFFD}',
            };
            step = 1;
            assert(rest.skip(1) =~= u@.subrange(i + 1, b as int));
        }
        push_char(&mut s, c);
        i = i + step;
    }
    assert(decode_utf16_lossy(u@.subrange(i as int, b as int)) =~= Seq::<char>::empty());
    assert(s@ =~= s@ + decode_utf16_lossy(u@.subrange(i as int, b as int)));
    s
}

/// UTF-16 code-unit length of `s`, the unit JavaScript `String.length`
/// reports.
pub fn utf16_len(s: &str) -> (n: usize)
    ensures
        n == utf16_length(s@),
{
    let t = chars_of(s);
    let mut u: Vec<u16> = Vec::new();
    encode_utf16_into(t.as_slice(), 0, t.len(), &mut u);
    assert(t@.subrange(0, t@.len() as int) =~= t@);
    assert(u@ =~= encode_utf16(s@));
    u.len()
}

/// Number of Unicode scalar values in `s`, the unit `Array.from(s).length`
/// reports.
pub fn char_count(s: &str) -> (n: usize)
    ensures
        n == s@.len(),
{
    let v = chars_of(s);
    v.len()
}

/// Slices `s` on UTF-16 code-unit offsets, like `String.prototype.slice`.
///
/// Offsets are clamped to the length, and a start at or past the end gives
/// the empty string. Where an offset falls inside a surrogate pair, the lone
/// surrogate becomes U+FFFD.
pub fn utf16_slice(s: &str, start: usize, end: usize) -> (r: String)
    ensures
        r@ == utf16_slice_spec(s@, start as int, end as int),
{
    let t = chars_of(s);
    let mut u: Vec<u16> = Vec::new();
    encode_utf16_into(t.as_slice(), 0, t.len(), &mut u);
    assert(t@.subrange(0, t@.len() as int) =~= t@);
    assert(u@ =~= encode_utf16(s@));
    let a = if start < u.len() {
        start
    } else {
        u.len()
    };
    let b = if end < u.len() {
        end
    } else {
        u.len()
    };
    if a >= b {
        return String::new();
    }
    decode_utf16_range(u.as_slice(), a, b)
}

} // verus!

verus! {

proof fn lemma_decode_units(c: char, x: Seq<u16>)
    ensures
        decode_utf16_lossy(utf16_units(c) + x) == seq![c] + decode_utf16_lossy(x),
{
    let v = c as u32;
    vstd::utf8::char_u32_cast(c, v);
    let u = utf16_units(c) + x;
    if v < 0x10000 {
        assert(u[0] == v as u16);
        assert((v as u16) as u32 == v);
        assert(!is_high_surrogate(u[0]) && !is_low_surrogate(u[0]));
        assert(u.skip(1) =~= x);
    } else {
        let hi = (0xD800 + (v - 0x10000) / 0x400) as u16;
        let lo = (0xDC00 + (v - 0x10000) % 0x400) as u16;
        assert(u[0] == hi && u[1] == lo);
        assert(is_high_surrogate(hi) && is_low_surrogate(lo));
        assert(0x10000 + (hi - 0xD800) * 0x400 + (lo - 0xDC00) == v);
        assert(u.skip(2) =~= x);
    }
}

/// Decoding the UTF-16 encoding of a character sequence gives it back.
pub proof fn lemma_decode_encode(s: Seq<char>)
    ensures
        decode_utf16_lossy(encode_utf16(s)) == s,
    decreases s.len(),
{
    if s.len() == 0 {
        assert(encode_utf16(s) =~= Seq::<u16>::empty());
    } else {
        let rest = s.drop_first();
        assert(s =~= seq![s[0]] + rest);
        lemma_encode_utf16_concat(seq![s[0]], rest);
        let one = seq![s[0]];
        assert(one.drop_last() =~= Seq::<char>::empty());
        assert(encode_utf16(one.drop_last()) =~= Seq::<u16>::empty());
        assert(one.last() == s[0]);
        assert(encode_utf16(one) == encode_utf16(one.drop_last()) + utf16_units(one.last()));
        assert(encode_utf16(one) =~= utf16_units(s[0]));
        lemma_decode_units(s[0], encode_utf16(rest));
        lemma_decode_encode(rest);
        assert(seq![s[0]] + rest =~= s);
    }
}

} // verus!

verus! {

/// Every character of `s` lies in the Basic Multilingual Plane.
pub open spec fn in_bmp(s: Seq<char>) -> bool {
    forall|i: int| 0 <= i < s.len() ==> (#[trigger] s[i] as u32) < 0x10000
}

pub proof fn lemma_encode_bmp(s: Seq<char>)
    requires
        in_bmp(s),
    ensures
        encode_utf16(s) == Seq::new(s.len(), |i: int| (s[i] as u32) as u16),
    decreases s.len(),
{
    if s.len() > 0 {
        let p = s.drop_last();
        assert(in_bmp(p)) by {
            assert forall|i: int| 0 <= i < p.len() implies (#[trigger] p[i] as u32) < 0x10000 by {
                assert(p[i] == s[i]);
            }
        }
        lemma_encode_bmp(p);
        assert((s.last() as u32) < 0x10000);
        assert(encode_utf16(s) =~= Seq::new(s.len(), |i: int| (s[i] as u32) as u16));
    } else {
        assert(encode_utf16(s) =~= Seq::new(s.len(), |i: int| (s[i] as u32) as u16));
    }
}

} // verus!
