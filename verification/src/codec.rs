//! Self-describing text codec for stream descriptors.
//!
//! A descriptor crosses the boundary as a byte string shaped like
//! `{"width":W,"height":H,"pixfmt":F}` where `W` and `H` are decimal
//! numbers without leading zeros, and `F` is either the bare tag `"Jpeg"`
//! or a single-key object pairing one of the tags `Custom`, `Depth`,
//! `Gray`, `Bgr`, `Rgb` with its payload (a quoted name for `Custom`, a
//! decimal number for the rest). Inside the quoted name the quote and the
//! backslash stand behind a backslash and control bytes as `\u00..`
//! escapes, so every name free of interior `NUL` can cross. Unknown tags
//! are rejected, never defaulted. The encoding is canonical: `spec_decode`
//! accepts exactly the strings `spec_encode` produces, which makes the
//! round trip exact.

use vstd::prelude::*;
use crate::format::{Descriptor, DescriptorModel, PixelFormat, PixelFormatModel};
use crate::errors::CaptureError;

verus! {

// ---------------------------------------------------------------------------
// Spec model of the wire format
// ---------------------------------------------------------------------------

/// Decimal digits of `n`, most significant first, no leading zeros.
pub open spec fn spec_digits(n: nat) -> Seq<u8>
    decreases n,
{
    if n < 10 {
        seq![(48 + n) as u8]
    } else {
        spec_digits(n / 10).push((48 + n % 10) as u8)
    }
}

/// The bytes of `{"width":`.
pub open spec fn lit_width() -> Seq<u8> {
    seq![123u8, 34, 119, 105, 100, 116, 104, 34, 58]
}

/// The bytes of `,"height":`.
pub open spec fn lit_height() -> Seq<u8> {
    seq![44u8, 34, 104, 101, 105, 103, 104, 116, 34, 58]
}

/// The bytes of `,"pixfmt":`.
pub open spec fn lit_pixfmt() -> Seq<u8> {
    seq![44u8, 34, 112, 105, 120, 102, 109, 116, 34, 58]
}

/// The bytes of `"Jpeg"`.
pub open spec fn lit_jpeg() -> Seq<u8> {
    seq![34u8, 74, 112, 101, 103, 34]
}

/// The bytes of `{"Custom":"`.
pub open spec fn lit_custom() -> Seq<u8> {
    seq![123u8, 34, 67, 117, 115, 116, 111, 109, 34, 58, 34]
}

/// The bytes of `{"Depth":`.
pub open spec fn lit_depth() -> Seq<u8> {
    seq![123u8, 34, 68, 101, 112, 116, 104, 34, 58]
}

/// The bytes of `{"Gray":`.
pub open spec fn lit_gray() -> Seq<u8> {
    seq![123u8, 34, 71, 114, 97, 121, 34, 58]
}

/// The bytes of `{"Bgr":`.
pub open spec fn lit_bgr() -> Seq<u8> {
    seq![123u8, 34, 66, 103, 114, 34, 58]
}

/// The bytes of `{"Rgb":`.
pub open spec fn lit_rgb() -> Seq<u8> {
    seq![123u8, 34, 82, 103, 98, 34, 58]
}

/// The lowercase hexadecimal digit of a value below sixteen.
pub open spec fn lower_hex_digit(v: u8) -> u8
    recommends
        v < 16,
{
    if v < 10 {
        (48 + v) as u8
    } else {
        (87 + v) as u8
    }
}

/// A lowercase hexadecimal digit byte.
pub open spec fn is_lower_hex(b: u8) -> bool {
    (48 <= b && b <= 57) || (97 <= b && b <= 102)
}

/// Value of a lowercase hexadecimal digit byte.
pub open spec fn hex_val(b: u8) -> u8
    recommends
        is_lower_hex(b),
{
    if 48 <= b && b <= 57 {
        (b - 48) as u8
    } else {
        (b - 87) as u8
    }
}

/// Value of a two-digit lowercase hexadecimal pair.
pub open spec fn hex_pair_val(hi: u8, lo: u8) -> u8
    recommends
        is_lower_hex(hi),
        is_lower_hex(lo),
{
    (hex_val(hi) * 16 + hex_val(lo)) as u8
}

/// How one name byte stands inside the quoted string: the quote and the
/// backslash behind a backslash, a control byte as a six-byte `\u00..`
/// escape with lowercase hexadecimal digits, every other byte verbatim.
pub open spec fn spec_escape_byte(b: u8) -> Seq<u8> {
    if b == 34 {
        seq![92u8, 34]
    } else if b == 92 {
        seq![92u8, 92]
    } else if b < 32 {
        seq![92u8, 117, 48, 48, lower_hex_digit(b / 16), lower_hex_digit(b % 16)]
    } else {
        seq![b]
    }
}

/// The escaped form of a whole name.
pub open spec fn spec_escape(s: Seq<u8>) -> Seq<u8>
    decreases s.len(),
{
    if s.len() == 0 {
        Seq::empty()
    } else {
        spec_escape_byte(s[0]) + spec_escape(s.subrange(1, s.len() as int))
    }
}

/// A custom-format name that the encoding can carry: everything except a
/// name holding an interior `NUL` byte, which the null-terminated target
/// representation cannot express.
pub open spec fn representable_name(s: Seq<u8>) -> bool {
    forall|i: int| 0 <= i < s.len() ==> s[i] != 0
}

/// A descriptor that the encoding can carry.
pub open spec fn representable(d: DescriptorModel) -> bool {
    match d.pixfmt {
        PixelFormatModel::Custom(name) => representable_name(name),
        _ => true,
    }
}

/// Encoded form of the pixel-format field.
pub open spec fn spec_encode_fmt(f: PixelFormatModel) -> Seq<u8> {
    match f {
        PixelFormatModel::Custom(name) => lit_custom() + spec_escape(name) + seq![34u8, 125],
        PixelFormatModel::Depth(bits) => lit_depth() + spec_digits(bits as nat) + seq![125u8],
        PixelFormatModel::Gray(bits) => lit_gray() + spec_digits(bits as nat) + seq![125u8],
        PixelFormatModel::Bgr(bits) => lit_bgr() + spec_digits(bits as nat) + seq![125u8],
        PixelFormatModel::Rgb(bits) => lit_rgb() + spec_digits(bits as nat) + seq![125u8],
        PixelFormatModel::Jpeg => lit_jpeg(),
    }
}

/// Encoded form of a whole descriptor.
pub open spec fn spec_encode(d: DescriptorModel) -> Seq<u8> {
    lit_width() + spec_digits(d.width as nat) + lit_height() + spec_digits(d.height as nat)
        + lit_pixfmt() + spec_encode_fmt(d.pixfmt) + seq![125u8]
}

// ---------------------------------------------------------------------------
// Spec model of the decoder
// ---------------------------------------------------------------------------

/// An ASCII decimal digit.
pub open spec fn is_digit(b: u8) -> bool {
    48 <= b && b <= 57
}

/// First index at or after `i` that does not hold a digit.
pub open spec fn digit_run_end(s: Seq<u8>, i: int) -> int
    decreases s.len() - i,
{
    if 0 <= i && i < s.len() && is_digit(s[i]) {
        digit_run_end(s, i + 1)
    } else {
        i
    }
}

/// Reads an escaped name starting at `i` up to, not including, its closing
/// quote, returning the unescaped bytes and the quote's index. Anything the
/// escaping scheme does not produce — a raw control byte, a stray
/// backslash, an out-of-range or malformed `\u00..` escape (`\u0000`
/// included), a missing closing quote — reads as `None`.
pub open spec fn spec_parse_name(s: Seq<u8>, i: int) -> Option<(Seq<u8>, int)>
    decreases s.len() - i,
{
    if i < 0 || i >= s.len() {
        None
    } else if s[i] == 34 {
        Some((Seq::empty(), i))
    } else if s[i] == 92 {
        if i + 2 <= s.len() && (s[i + 1] == 34 || s[i + 1] == 92) {
            match spec_parse_name(s, i + 2) {
                Some((t, e)) => Some((seq![s[i + 1]] + t, e)),
                None => None,
            }
        } else if i + 6 <= s.len() && s[i + 1] == 117 && s[i + 2] == 48 && s[i + 3] == 48
            && is_lower_hex(s[i + 4]) && is_lower_hex(s[i + 5])
            && 1 <= hex_pair_val(s[i + 4], s[i + 5]) < 32 {
            match spec_parse_name(s, i + 6) {
                Some((t, e)) => Some((seq![hex_pair_val(s[i + 4], s[i + 5])] + t, e)),
                None => None,
            }
        } else {
            None
        }
    } else if s[i] >= 32 {
        match spec_parse_name(s, i + 1) {
            Some((t, e)) => Some((seq![s[i]] + t, e)),
            None => None,
        }
    } else {
        None
    }
}

/// Every byte of `s` is a digit.
pub open spec fn all_digits(s: Seq<u8>) -> bool {
    forall|i: int| 0 <= i < s.len() ==> is_digit(s[i])
}

/// A canonical decimal number: non-empty, digits only, no leading zero.
pub open spec fn canonical_digits(s: Seq<u8>) -> bool {
    s.len() > 0 && all_digits(s) && (s[0] == 48 ==> s.len() == 1)
}

/// Value of a digit string, most significant digit first.
pub open spec fn digits_val(s: Seq<u8>) -> int
    decreases s.len(),
{
    if s.len() == 0 {
        0
    } else {
        digits_val(s.drop_last()) * 10 + (s.last() - 48)
    }
}

/// Ten to the power `k`.
pub open spec fn pow10(k: nat) -> int
    decreases k,
{
    if k == 0 {
        1
    } else {
        10 * pow10((k - 1) as nat)
    }
}

/// `pat` stands in `s` at position `i`.
pub open spec fn matches_at(s: Seq<u8>, i: int, pat: Seq<u8>) -> bool {
    0 <= i && i + pat.len() <= s.len() && s.subrange(i, i + pat.len()) == pat
}

/// Reads a canonical decimal number that fits a `u32`, returning its value
/// and the index just past its digits.
pub open spec fn spec_read_u32(s: Seq<u8>, i: int) -> Option<(u32, int)> {
    let j = digit_run_end(s, i);
    let ds = s.subrange(i, j);
    if canonical_digits(ds) && digits_val(ds) <= u32::MAX as int {
        Some((digits_val(ds) as u32, j))
    } else {
        None
    }
}

/// Reads the pixel-format field at position `i`, returning the format and
/// the index just past it. Unknown tags read as `None`.
pub open spec fn spec_decode_fmt(s: Seq<u8>, i: int) -> Option<(PixelFormatModel, int)> {
    if matches_at(s, i, lit_jpeg()) {
        Some((PixelFormatModel::Jpeg, i + 6))
    } else if matches_at(s, i, lit_custom()) {
        match spec_parse_name(s, i + 11) {
            Some((name, e)) => if e + 2 <= s.len() && s[e + 1] == 125 {
                Some((PixelFormatModel::Custom(name), e + 2))
            } else {
                None
            },
            None => None,
        }
    } else if matches_at(s, i, lit_depth()) {
        match spec_read_u32(s, i + 9) {
            Some((v, j)) => if j < s.len() && s[j] == 125 {
                Some((PixelFormatModel::Depth(v), j + 1))
            } else {
                None
            },
            None => None,
        }
    } else if matches_at(s, i, lit_gray()) {
        match spec_read_u32(s, i + 8) {
            Some((v, j)) => if j < s.len() && s[j] == 125 {
                Some((PixelFormatModel::Gray(v), j + 1))
            } else {
                None
            },
            None => None,
        }
    } else if matches_at(s, i, lit_bgr()) {
        match spec_read_u32(s, i + 7) {
            Some((v, j)) => if j < s.len() && s[j] == 125 {
                Some((PixelFormatModel::Bgr(v), j + 1))
            } else {
                None
            },
            None => None,
        }
    } else if matches_at(s, i, lit_rgb()) {
        match spec_read_u32(s, i + 7) {
            Some((v, j)) => if j < s.len() && s[j] == 125 {
                Some((PixelFormatModel::Rgb(v), j + 1))
            } else {
                None
            },
            None => None,
        }
    } else {
        None
    }
}

/// Decodes a whole descriptor. Accepts exactly the canonical strings that
/// `spec_encode` produces.
pub open spec fn spec_decode(s: Seq<u8>) -> Option<DescriptorModel> {
    if !matches_at(s, 0, lit_width()) {
        None
    } else {
        match spec_read_u32(s, 9) {
            None => None,
            Some((w, j1)) => if !matches_at(s, j1, lit_height()) {
                None
            } else {
                match spec_read_u32(s, j1 + 10) {
                    None => None,
                    Some((h, j2)) => if !matches_at(s, j2, lit_pixfmt()) {
                        None
                    } else {
                        match spec_decode_fmt(s, j2 + 10) {
                            None => None,
                            Some((f, j3)) => if j3 + 1 == s.len() && s[j3] == 125 {
                                Some(DescriptorModel { width: w, height: h, pixfmt: f })
                            } else {
                                None
                            },
                        }
                    },
                }
            },
        }
    }
}

// ---------------------------------------------------------------------------
// Executable encoder
// ---------------------------------------------------------------------------

/// Appends the decimal digits of `n`.
fn push_u32(out: &mut Vec<u8>, n: u32)
    ensures
        final(out)@ == old(out)@ + spec_digits(n as nat),
    decreases n,
{
    if n >= 10 {
        push_u32(out, n / 10);
        out.push(48 + (n % 10) as u8);
        proof {
            assert(out@ =~= old(out)@ + spec_digits(n as nat));
        }
    } else {
        out.push(48 + n as u8);
        proof {
            assert(out@ =~= old(out)@ + spec_digits(n as nat));
        }
    }
}

/// Appends the bytes of `{"width":`.
fn push_lit_width(out: &mut Vec<u8>)
    ensures
        final(out)@ == old(out)@ + lit_width(),
{
    out.push(123); out.push(34); out.push(119); out.push(105); out.push(100);
    out.push(116); out.push(104); out.push(34); out.push(58);
    proof {
        assert(out@ =~= old(out)@ + lit_width());
    }
}

/// Appends the bytes of `,"height":`.
fn push_lit_height(out: &mut Vec<u8>)
    ensures
        final(out)@ == old(out)@ + lit_height(),
{
    out.push(44); out.push(34); out.push(104); out.push(101); out.push(105);
    out.push(103); out.push(104); out.push(116); out.push(34); out.push(58);
    proof {
        assert(out@ =~= old(out)@ + lit_height());
    }
}

/// Appends the bytes of `,"pixfmt":`.
fn push_lit_pixfmt(out: &mut Vec<u8>)
    ensures
        final(out)@ == old(out)@ + lit_pixfmt(),
{
    out.push(44); out.push(34); out.push(112); out.push(105); out.push(120);
    out.push(102); out.push(109); out.push(116); out.push(34); out.push(58);
    proof {
        assert(out@ =~= old(out)@ + lit_pixfmt());
    }
}

/// Appends the bytes of `"Jpeg"`.
fn push_lit_jpeg(out: &mut Vec<u8>)
    ensures
        final(out)@ == old(out)@ + lit_jpeg(),
{
    out.push(34); out.push(74); out.push(112); out.push(101); out.push(103);
    out.push(34);
    proof {
        assert(out@ =~= old(out)@ + lit_jpeg());
    }
}

/// Appends the bytes of `{"Custom":"`.
fn push_lit_custom(out: &mut Vec<u8>)
    ensures
        final(out)@ == old(out)@ + lit_custom(),
{
    out.push(123); out.push(34); out.push(67); out.push(117); out.push(115);
    out.push(116); out.push(111); out.push(109); out.push(34); out.push(58);
    out.push(34);
    proof {
        assert(out@ =~= old(out)@ + lit_custom());
    }
}

/// Appends the bytes of `{"Depth":`.
fn push_lit_depth(out: &mut Vec<u8>)
    ensures
        final(out)@ == old(out)@ + lit_depth(),
{
    out.push(123); out.push(34); out.push(68); out.push(101); out.push(112);
    out.push(116); out.push(104); out.push(34); out.push(58);
    proof {
        assert(out@ =~= old(out)@ + lit_depth());
    }
}

/// Appends the bytes of `{"Gray":`.
fn push_lit_gray(out: &mut Vec<u8>)
    ensures
        final(out)@ == old(out)@ + lit_gray(),
{
    out.push(123); out.push(34); out.push(71); out.push(114); out.push(97);
    out.push(121); out.push(34); out.push(58);
    proof {
        assert(out@ =~= old(out)@ + lit_gray());
    }
}

/// Appends the bytes of `{"Bgr":`.
fn push_lit_bgr(out: &mut Vec<u8>)
    ensures
        final(out)@ == old(out)@ + lit_bgr(),
{
    out.push(123); out.push(34); out.push(66); out.push(103); out.push(114);
    out.push(34); out.push(58);
    proof {
        assert(out@ =~= old(out)@ + lit_bgr());
    }
}

/// Appends the bytes of `{"Rgb":`.
fn push_lit_rgb(out: &mut Vec<u8>)
    ensures
        final(out)@ == old(out)@ + lit_rgb(),
{
    out.push(123); out.push(34); out.push(82); out.push(103); out.push(98);
    out.push(34); out.push(58);
    proof {
        assert(out@ =~= old(out)@ + lit_rgb());
    }
}

/// Escaping distributes over concatenation.
proof fn lemma_escape_append(a: Seq<u8>, b: Seq<u8>)
    ensures
        spec_escape(a + b) == spec_escape(a) + spec_escape(b),
    decreases a.len(),
{
    if a.len() == 0 {
        assert(a + b =~= b);
        assert(spec_escape(a) + spec_escape(b) =~= spec_escape(b));
    } else {
        assert((a + b).subrange(1, (a + b).len() as int) =~= a.subrange(1, a.len() as int) + b);
        lemma_escape_append(a.subrange(1, a.len() as int), b);
        assert((a + b)[0] == a[0]);
        assert(spec_escape_byte(a[0]) + (spec_escape(a.subrange(1, a.len() as int))
            + spec_escape(b)) =~= (spec_escape_byte(a[0]) + spec_escape(
            a.subrange(1, a.len() as int),
        )) + spec_escape(b));
    }
}

/// The escaped form of a single byte.
proof fn lemma_escape_singleton(b: u8)
    ensures
        spec_escape(seq![b]) == spec_escape_byte(b),
{
    assert(seq![b].subrange(1, 1) =~= Seq::<u8>::empty());
    assert(spec_escape(Seq::<u8>::empty()) == Seq::<u8>::empty());
    assert(spec_escape_byte(b) + Seq::<u8>::empty() =~= spec_escape_byte(b));
}

/// Appends the escaped form of `name`.
fn push_escaped(out: &mut Vec<u8>, name: &Vec<u8>)
    ensures
        final(out)@ == old(out)@ + spec_escape(name@),
{
    let mut i: usize = 0;
    proof {
        assert(name@.take(0) =~= Seq::<u8>::empty());
        assert(out@ =~= old(out)@ + spec_escape(name@.take(0)));
    }
    while i < name.len()
        invariant
            i <= name.len(),
            out@ == old(out)@ + spec_escape(name@.take(i as int)),
        decreases name.len() - i,
    {
        let b = name[i];
        proof {
            assert(name@.take(i as int + 1) =~= name@.take(i as int) + seq![b]);
            lemma_escape_append(name@.take(i as int), seq![b]);
            lemma_escape_singleton(b);
        }
        if b == 34 {
            out.push(92);
            out.push(34);
        } else if b == 92 {
            out.push(92);
            out.push(92);
        } else if b < 32 {
            out.push(92);
            out.push(117);
            out.push(48);
            out.push(48);
            let hi = b / 16;
            let lo = b % 16;
            if hi < 10 {
                out.push(48 + hi);
            } else {
                out.push(87 + hi);
            }
            if lo < 10 {
                out.push(48 + lo);
            } else {
                out.push(87 + lo);
            }
        } else {
            out.push(b);
        }
        i += 1;
        proof {
            assert(out@ =~= old(out)@ + spec_escape(name@.take(i as int)));
        }
    }
    proof {
        assert(name@.take(name@.len() as int) =~= name@);
    }
}

/// Checks that `name` holds no interior `NUL` byte.
pub fn name_ok(name: &Vec<u8>) -> (r: bool)
    ensures
        r <==> representable_name(name@),
{
    let mut i: usize = 0;
    while i < name.len()
        invariant
            i <= name.len(),
            forall|k: int| 0 <= k < i ==> name@[k] != 0,
        decreases name.len() - i,
    {
        if name[i] == 0 {
            return false;
        }
        i += 1;
    }
    true
}

/// Serializes a descriptor to its canonical encoded form. Fails exactly
/// when the descriptor is not representable (a custom-format name holding
/// an interior `NUL` byte).
pub fn encode(d: &Descriptor) -> (r: Result<Vec<u8>, CaptureError>)
    ensures
        r is Ok <==> representable(d@),
        r matches Ok(v) ==> v@ == spec_encode(d@),
        r matches Err(e) ==> e == CaptureError::Encoding,
{
    let mut out: Vec<u8> = Vec::new();
    push_lit_width(&mut out);
    push_u32(&mut out, d.width);
    push_lit_height(&mut out);
    push_u32(&mut out, d.height);
    push_lit_pixfmt(&mut out);
    let ghost head: Seq<u8> = lit_width() + spec_digits(d.width as nat) + lit_height()
        + spec_digits(d.height as nat) + lit_pixfmt();
    proof {
        assert(out@ =~= head);
    }
    match &d.pixfmt {
        PixelFormat::Custom(name) => {
            if !name_ok(name) {
                return Err(CaptureError::Encoding);
            }
            push_lit_custom(&mut out);
            push_escaped(&mut out, name);
            out.push(34);
            out.push(125);
            proof {
                assert(out@ =~= head + spec_encode_fmt(d.pixfmt@));
            }
        }
        PixelFormat::Depth(bits) => {
            push_lit_depth(&mut out);
            push_u32(&mut out, *bits);
            out.push(125);
            proof {
                assert(out@ =~= head + spec_encode_fmt(d.pixfmt@));
            }
        }
        PixelFormat::Gray(bits) => {
            push_lit_gray(&mut out);
            push_u32(&mut out, *bits);
            out.push(125);
            proof {
                assert(out@ =~= head + spec_encode_fmt(d.pixfmt@));
            }
        }
        PixelFormat::Bgr(bits) => {
            push_lit_bgr(&mut out);
            push_u32(&mut out, *bits);
            out.push(125);
            proof {
                assert(out@ =~= head + spec_encode_fmt(d.pixfmt@));
            }
        }
        PixelFormat::Rgb(bits) => {
            push_lit_rgb(&mut out);
            push_u32(&mut out, *bits);
            out.push(125);
            proof {
                assert(out@ =~= head + spec_encode_fmt(d.pixfmt@));
            }
        }
        PixelFormat::Jpeg => {
            push_lit_jpeg(&mut out);
            proof {
                assert(out@ =~= head + spec_encode_fmt(d.pixfmt@));
            }
        }
    }
    out.push(125);
    proof {
        assert(out@ =~= spec_encode(d@));
    }
    Ok(out)
}

// ---------------------------------------------------------------------------
// Executable decoder
// ---------------------------------------------------------------------------

/// Tests whether `pat` stands in `s` at position `i`.
fn match_at(s: &Vec<u8>, i: usize, pat: &Vec<u8>) -> (r: bool)
    requires
        i <= s@.len(),
    ensures
        r == matches_at(s@, i as int, pat@),
{
    let n = s.len();
    let m = pat.len();
    if n - i < m {
        return false;
    }
    let ghost gi = i as int;
    let ghost gn = pat@.len() as int;
    let mut k: usize = 0;
    while k < m
        invariant
            k <= m,
            m == pat@.len(),
            n == s@.len(),
            gi == i as int,
            gn == pat@.len() as int,
            i + m <= n,
            forall|t: int| 0 <= t < k ==> s@[gi + t] == pat@[t],
        decreases m - k,
    {
        if s[i + k] != pat[k] {
            proof {
                assert(s@.subrange(gi, gi + gn)[k as int] == s@[gi + k as int]);
            }
            return false;
        }
        k += 1;
    }
    proof {
        assert(s@.subrange(gi, gi + gn) =~= pat@);
    }
    true
}

/// Tests whether the byte at `k` is a decimal digit.
fn digit_at(s: &Vec<u8>, k: usize) -> (r: bool)
    requires
        k < s@.len(),
    ensures
        r == is_digit(s@[k as int]),
{
    let b = s[k];
    48 <= b && b <= 57
}

/// The continuation form of `spec_parse_name`: what the whole parse yields
/// once the bytes before `i` have already been unescaped into `acc`.
pub open spec fn spec_parse_name_from(s: Seq<u8>, i: int, acc: Seq<u8>) -> Option<(Seq<u8>, int)> {
    match spec_parse_name(s, i) {
        Some((t, e)) => Some((acc + t, e)),
        None => None,
    }
}

/// Finds the end of the digit run starting at `i`.
fn scan_digits(s: &Vec<u8>, i: usize) -> (j: usize)
    requires
        i <= s@.len(),
    ensures
        j as int == digit_run_end(s@, i as int),
        i <= j <= s@.len(),
{
    let mut k: usize = i;
    while k < s.len() && digit_at(s, k)
        invariant
            i <= k <= s@.len(),
            digit_run_end(s@, i as int) == digit_run_end(s@, k as int),
        decreases s@.len() - k,
    {
        k += 1;
    }
    k
}

/// Reads an escaped name at position `i`, as `spec_parse_name`.
fn parse_name(s: &Vec<u8>, i: usize) -> (r: Option<(Vec<u8>, usize)>)
    requires
        i <= s@.len(),
    ensures
        match r {
            Some(p) => spec_parse_name(s@, i as int) == Some((p.0@, p.1 as int))
                && p.1 < s@.len(),
            None => spec_parse_name(s@, i as int) is None,
        },
{
    let n = s.len();
    let mut acc: Vec<u8> = Vec::new();
    let mut k: usize = i;
    proof {
        match spec_parse_name(s@, i as int) {
            Some((t, e)) => {
                assert(Seq::<u8>::empty() + t =~= t);
            }
            None => {}
        }
    }
    while k < n
        invariant
            i <= s@.len(),
            k <= s@.len(),
            n == s@.len(),
            spec_parse_name(s@, i as int) == spec_parse_name_from(s@, k as int, acc@),
        decreases s@.len() - k,
    {
        let b = s[k];
        if b == 34 {
            proof {
                assert(acc@ + Seq::<u8>::empty() =~= acc@);
            }
            return Some((acc, k));
        }
        let ghost acc0 = acc@;
        if b == 92 {
            if n - k >= 2 && (s[k + 1] == 34 || s[k + 1] == 92) {
                let c = s[k + 1];
                proof {
                    match spec_parse_name(s@, k as int + 2) {
                        Some((t, e)) => {
                            assert(acc0 + (seq![c] + t) =~= (acc0 + seq![c]) + t);
                        }
                        None => {}
                    }
                }
                acc.push(c);
                proof {
                    assert(acc@ =~= acc0 + seq![c]);
                }
                k += 2;
            } else if n - k >= 6 && s[k + 1] == 117 && s[k + 2] == 48 && s[k + 3] == 48 {
                let h4 = s[k + 4];
                let h5 = s[k + 5];
                let hex4 = (48 <= h4 && h4 <= 57) || (97 <= h4 && h4 <= 102);
                let hex5 = (48 <= h5 && h5 <= 57) || (97 <= h5 && h5 <= 102);
                if !(hex4 && hex5) {
                    return None;
                }
                let v4: u8 = if h4 <= 57 { h4 - 48 } else { h4 - 87 };
                let v5: u8 = if h5 <= 57 { h5 - 48 } else { h5 - 87 };
                let v: u8 = v4 * 16 + v5;
                if v == 0 || v >= 32 {
                    return None;
                }
                proof {
                    match spec_parse_name(s@, k as int + 6) {
                        Some((t, e)) => {
                            assert(acc0 + (seq![v] + t) =~= (acc0 + seq![v]) + t);
                        }
                        None => {}
                    }
                }
                acc.push(v);
                proof {
                    assert(acc@ =~= acc0 + seq![v]);
                }
                k += 6;
            } else {
                return None;
            }
        } else if b >= 32 {
            proof {
                match spec_parse_name(s@, k as int + 1) {
                    Some((t, e)) => {
                        assert(acc0 + (seq![b] + t) =~= (acc0 + seq![b]) + t);
                    }
                    None => {}
                }
            }
            acc.push(b);
            proof {
                assert(acc@ =~= acc0 + seq![b]);
            }
            k += 1;
        } else {
            return None;
        }
    }
    None
}


/// Reads a canonical decimal `u32` at position `i`, as `spec_read_u32`.
fn read_u32(s: &Vec<u8>, i: usize) -> (r: Option<(u32, usize)>)
    requires
        i <= s@.len(),
    ensures
        match r {
            Some(p) => spec_read_u32(s@, i as int) == Some((p.0, p.1 as int))
                && i <= p.1 <= s@.len(),
            None => spec_read_u32(s@, i as int) is None,
        },
{
    let j = scan_digits(s, i);
    let ghost ds = s@.subrange(i as int, j as int);
    proof {
        lemma_digit_run_end_bounds(s@, i as int);
        assert(all_digits(ds));
    }
    if j == i {
        return None;
    }
    proof {
        assert(ds[0] == s@[i as int]);
    }
    if s[i] == 48 && j - i > 1 {
        return None;
    }
    proof {
        assert(canonical_digits(ds));
    }
    if j - i > 10 {
        proof {
            lemma_digits_val_lower(ds);
            lemma_pow10_ten();
            lemma_pow10_mono(10, (ds.len() - 1) as nat);
        }
        return None;
    }
    let mut acc: u64 = 0;
    let mut k: usize = i;
    proof {
        assert(s@.subrange(i as int, i as int) =~= Seq::<u8>::empty());
        assert(digits_val(Seq::<u8>::empty()) == 0);
    }
    while k < j
        invariant
            i <= k <= j <= s@.len(),
            j - i <= 10,
            ds == s@.subrange(i as int, j as int),
            all_digits(ds),
            acc as int == digits_val(s@.subrange(i as int, k as int)),
            (acc as int) < pow10((k - i) as nat),
        decreases j - k,
    {
        let ghost before = s@.subrange(i as int, k as int);
        proof {
            lemma_pow10_ten();
            lemma_pow10_mono((k - i) as nat, 10);
            assert(s@.subrange(i as int, k as int + 1).drop_last() =~= before);
            assert(s@.subrange(i as int, k as int + 1).last() == s@[k as int]);
            assert(is_digit(s@[k as int])) by {
                assert(ds[k as int - i as int] == s@[k as int]);
            }
        }
        let d = s[k] - 48;
        acc = acc * 10 + d as u64;
        k += 1;
        proof {
            assert(all_digits(s@.subrange(i as int, k as int))) by {
                assert(forall|t: int| 0 <= t < k as int - i as int
                    ==> s@.subrange(i as int, k as int)[t] == ds[t]);
            }
            lemma_digits_val_bounds(s@.subrange(i as int, k as int));
        }
    }
    proof {
        assert(s@.subrange(i as int, k as int) == ds);
    }
    if acc > 0xFFFF_FFFF {
        return None;
    }
    Some((acc as u32, j))
}

/// Reads the pixel-format field at position `i`, as `spec_decode_fmt`.
fn decode_fmt(s: &Vec<u8>, i: usize) -> (r: Option<(PixelFormat, usize)>)
    requires
        i <= s@.len(),
    ensures
        match r {
            Some(p) => spec_decode_fmt(s@, i as int) == Some((p.0@, p.1 as int))
                && p.1 <= s@.len(),
            None => spec_decode_fmt(s@, i as int) is None,
        },
{
    let n = s.len();
    let mut pat: Vec<u8> = Vec::new();
    push_lit_jpeg(&mut pat);
    if match_at(s, i, &pat) {
        proof {
            assert(i + 6 <= n);
        }
        return Some((PixelFormat::Jpeg, i + 6));
    }
    let mut pat: Vec<u8> = Vec::new();
    push_lit_custom(&mut pat);
    if match_at(s, i, &pat) {
        proof {
            assert(i + 11 <= n);
        }
        let q = i + 11;
        match parse_name(s, q) {
            Some((name, e)) => {
                if s.len() - e >= 2 {
                    if s[e + 1] == 125 {
                        return Some((PixelFormat::Custom(name), e + 2));
                    }
                }
                return None;
            }
            None => {
                return None;
            }
        }
    }
    let mut pat: Vec<u8> = Vec::new();
    push_lit_depth(&mut pat);
    if match_at(s, i, &pat) {
        proof {
            assert(i + 9 <= n);
        }
        match read_u32(s, i + 9) {
            Some((v, j)) => {
                if j < s.len() {
                    if s[j] == 125 {
                        return Some((PixelFormat::Depth(v), j + 1));
                    }
                }
                return None;
            }
            None => {
                return None;
            }
        }
    }
    let mut pat: Vec<u8> = Vec::new();
    push_lit_gray(&mut pat);
    if match_at(s, i, &pat) {
        proof {
            assert(i + 8 <= n);
        }
        match read_u32(s, i + 8) {
            Some((v, j)) => {
                if j < s.len() {
                    if s[j] == 125 {
                        return Some((PixelFormat::Gray(v), j + 1));
                    }
                }
                return None;
            }
            None => {
                return None;
            }
        }
    }
    let mut pat: Vec<u8> = Vec::new();
    push_lit_bgr(&mut pat);
    if match_at(s, i, &pat) {
        proof {
            assert(i + 7 <= n);
        }
        match read_u32(s, i + 7) {
            Some((v, j)) => {
                if j < s.len() {
                    if s[j] == 125 {
                        return Some((PixelFormat::Bgr(v), j + 1));
                    }
                }
                return None;
            }
            None => {
                return None;
            }
        }
    }
    let mut pat: Vec<u8> = Vec::new();
    push_lit_rgb(&mut pat);
    if match_at(s, i, &pat) {
        proof {
            assert(i + 7 <= n);
        }
        match read_u32(s, i + 7) {
            Some((v, j)) => {
                if j < s.len() {
                    if s[j] == 125 {
                        return Some((PixelFormat::Rgb(v), j + 1));
                    }
                }
                return None;
            }
            None => {
                return None;
            }
        }
    }
    None
}

/// Parses an encoded descriptor. Returns `Some` exactly on the canonical
/// strings that `encode` produces, and then gives back the encoded value;
/// anything else, unknown tags included, is rejected as `None`.
pub fn decode(s: &Vec<u8>) -> (r: Option<Descriptor>)
    ensures
        match r {
            Some(d) => spec_decode(s@) == Some(d@),
            None => spec_decode(s@) is None,
        },
{
    let n = s.len();
    let mut pat: Vec<u8> = Vec::new();
    push_lit_width(&mut pat);
    if !match_at(s, 0, &pat) {
        return None;
    }
    let (w, j1) = match read_u32(s, 9) {
        Some(p) => p,
        None => {
            return None;
        }
    };
    let mut pat: Vec<u8> = Vec::new();
    push_lit_height(&mut pat);
    if !match_at(s, j1, &pat) {
        return None;
    }
    proof {
        assert(j1 + 10 <= n);
    }
    let (h, j2) = match read_u32(s, j1 + 10) {
        Some(p) => p,
        None => {
            return None;
        }
    };
    let mut pat: Vec<u8> = Vec::new();
    push_lit_pixfmt(&mut pat);
    if !match_at(s, j2, &pat) {
        return None;
    }
    proof {
        assert(j2 + 10 <= n);
    }
    let (f, j3) = match decode_fmt(s, j2 + 10) {
        Some(p) => p,
        None => {
            return None;
        }
    };
    if j3 < s.len() && s.len() - j3 == 1 {
        if s[j3] == 125 {
            return Some(Descriptor { width: w, height: h, pixfmt: f });
        }
    }
    None
}

// ---------------------------------------------------------------------------
// Lemmas about digits and runs
// ---------------------------------------------------------------------------

/// The digits of `n` form a canonical number whose value is `n`.
pub proof fn lemma_spec_digits_form(n: nat)
    ensures
        spec_digits(n).len() >= 1,
        all_digits(spec_digits(n)),
        canonical_digits(spec_digits(n)),
        digits_val(spec_digits(n)) == n,
        n >= 1 ==> spec_digits(n)[0] != 48,
    decreases n,
{
    if n < 10 {
        let s = spec_digits(n);
        assert(s =~= seq![(48 + n) as u8]);
        assert(s.drop_last() =~= Seq::<u8>::empty());
        assert(digits_val(Seq::<u8>::empty()) == 0);
        assert(digits_val(s) == digits_val(s.drop_last()) * 10 + (s.last() - 48));
    } else {
        lemma_spec_digits_form(n / 10);
        let p = spec_digits(n / 10);
        let s = spec_digits(n);
        assert(s == p.push((48 + n % 10) as u8));
        assert(s.drop_last() =~= p);
        assert(s.last() == (48 + n % 10) as u8);
        assert(forall|i: int| 0 <= i < s.len() ==> is_digit(#[trigger] s[i])) by {
            assert(forall|i: int| 0 <= i < p.len() ==> s[i] == p[i]);
        }
        assert(digits_val(s) == digits_val(p) * 10 + (n % 10));
        assert(n / 10 >= 1);
        assert(s[0] == p[0]);
    }
}

/// A run of digits in `[i, j)` stopped by a non-digit (or the end) at `j`
/// pins `digit_run_end` to `j`.
pub proof fn lemma_digit_run_end_is(s: Seq<u8>, i: int, j: int)
    requires
        0 <= i <= j <= s.len(),
        forall|k: int| i <= k < j ==> is_digit(s[k]),
        j == s.len() || !is_digit(s[j]),
    ensures
        digit_run_end(s, i) == j,
    decreases j - i,
{
    if i < j {
        lemma_digit_run_end_is(s, i + 1, j);
    }
}

/// A hexadecimal digit byte reads back as its value.
pub proof fn lemma_hex_digit_round(v: u8)
    requires
        v < 16,
    ensures
        is_lower_hex(lower_hex_digit(v)),
        hex_val(lower_hex_digit(v)) == v,
{
}

/// An escaped name placed between two fixed neighbours, with the closing
/// quote just after it, reads back as itself.
#[verifier::rlimit(100)]
pub proof fn lemma_parse_escaped(buf: Seq<u8>, i: int, name: Seq<u8>)
    requires
        0 <= i,
        representable_name(name),
        i + spec_escape(name).len() < buf.len(),
        buf.subrange(i, i + spec_escape(name).len() as int) == spec_escape(name),
        buf[i + spec_escape(name).len()] == 34,
    ensures
        spec_parse_name(buf, i) == Some((name, i + spec_escape(name).len() as int)),
    decreases name.len(),
{
    let esc = spec_escape(name);
    if name.len() == 0 {
        assert(buf[i] == 34);
    } else {
        let b = name[0];
        let rest = name.subrange(1, name.len() as int);
        let eb = spec_escape_byte(b);
        let ebl = eb.len() as int;
        assert(esc == eb + spec_escape(rest));
        assert(representable_name(rest)) by {
            assert(forall|k: int| 0 <= k < rest.len() ==> rest[k] == name[k + 1]);
        }
        assert forall|k: int| 0 <= k < esc.len() implies buf[i + k] == #[trigger] esc[k] by {
            assert(buf.subrange(i, i + esc.len() as int)[k] == buf[i + k]);
        }
        assert(buf.subrange(i + ebl, i + ebl + spec_escape(rest).len() as int)
            =~= spec_escape(rest)) by {
            assert forall|k: int| 0 <= k < spec_escape(rest).len() implies #[trigger] buf.subrange(
                i + ebl,
                i + ebl + spec_escape(rest).len() as int,
            )[k] == spec_escape(rest)[k] by {
                assert(buf[i + (ebl + k)] == esc[ebl + k]);
                assert(esc[ebl + k] == spec_escape(rest)[k]);
            }
        }
        lemma_parse_escaped(buf, i + ebl, rest);
        assert(seq![b] + rest =~= name);
        if b == 34 {
            assert(buf[i + 0] == esc[0] && buf[i + 1] == esc[1]);
            assert(buf[i] == 92 && buf[i + 1] == 34);
        } else if b == 92 {
            assert(buf[i + 0] == esc[0] && buf[i + 1] == esc[1]);
            assert(buf[i] == 92 && buf[i + 1] == 92);
        } else if b < 32 {
            assert(b != 0);
            lemma_hex_digit_round(b / 16);
            lemma_hex_digit_round(b % 16);
            assert(buf[i + 0] == esc[0] && buf[i + 1] == esc[1] && buf[i + 2] == esc[2]
                && buf[i + 3] == esc[3] && buf[i + 4] == esc[4] && buf[i + 5] == esc[5]);
            assert(buf[i] == 92 && buf[i + 1] == 117 && buf[i + 2] == 48 && buf[i + 3] == 48);
            assert(buf[i + 4] == lower_hex_digit(b / 16));
            assert(buf[i + 5] == lower_hex_digit(b % 16));
            assert(hex_pair_val(buf[i + 4], buf[i + 5]) == b);
        } else {
            assert(buf[i + 0] == esc[0]);
            assert(buf[i] == b);
        }
    }
}

/// Where `spec_parse_name` succeeds, what it consumed is exactly the
/// escaped form of the representable name it returns, and it stopped at a
/// quote.
#[verifier::rlimit(100)]
pub proof fn lemma_parse_name_sound(s: Seq<u8>, i: int)
    requires
        0 <= i,
        spec_parse_name(s, i) is Some,
    ensures
        ({
            let (name, e) = spec_parse_name(s, i)->Some_0;
            i <= e < s.len() && s[e] == 34 && representable_name(name)
                && s.subrange(i, e) == spec_escape(name)
        }),
    decreases s.len() - i,
{
    let (name, e) = spec_parse_name(s, i)->Some_0;
    if s[i] == 34 {
        assert(s.subrange(i, i) =~= Seq::<u8>::empty());
    } else if s[i] == 92 {
        if i + 2 <= s.len() && (s[i + 1] == 34 || s[i + 1] == 92) {
            let c = s[i + 1];
            lemma_parse_name_sound(s, i + 2);
            let (t, e2) = spec_parse_name(s, i + 2)->Some_0;
            lemma_escape_append(seq![c], t);
            lemma_escape_singleton(c);
            assert(s.subrange(i, e) =~= spec_escape_byte(c) + spec_escape(t)) by {
                assert(forall|k: int| 0 <= k < e2 - i - 2
                    ==> #[trigger] s.subrange(i + 2, e2)[k] == s[i + 2 + k]);
            }
        } else {
            let v = hex_pair_val(s[i + 4], s[i + 5]);
            lemma_parse_name_sound(s, i + 6);
            let (t, e2) = spec_parse_name(s, i + 6)->Some_0;
            lemma_escape_append(seq![v], t);
            lemma_escape_singleton(v);
            assert(hex_val(s[i + 4]) <= 1) by {
                if hex_val(s[i + 4]) >= 2 {
                    assert(v >= 32);
                }
            }
            assert(lower_hex_digit(v as u8 / 16) == s[i + 4]);
            assert(lower_hex_digit(v as u8 % 16) == s[i + 5]);
            assert(spec_escape_byte(v) =~= seq![92u8, 117, 48, 48, s[i + 4], s[i + 5]]);
            assert(s.subrange(i, e) =~= spec_escape_byte(v) + spec_escape(t)) by {
                assert(forall|k: int| 0 <= k < e2 - i - 6
                    ==> #[trigger] s.subrange(i + 6, e2)[k] == s[i + 6 + k]);
            }
        }
    } else {
        lemma_parse_name_sound(s, i + 1);
        let (t, e2) = spec_parse_name(s, i + 1)->Some_0;
        lemma_escape_append(seq![s[i]], t);
        lemma_escape_singleton(s[i]);
        assert(s.subrange(i, e) =~= spec_escape_byte(s[i]) + spec_escape(t)) by {
            assert(forall|k: int| 0 <= k < e2 - i - 1
                ==> #[trigger] s.subrange(i + 1, e2)[k] == s[i + 1 + k]);
        }
    }
}

/// `digit_run_end` stays within bounds and marks a maximal digit run.
pub proof fn lemma_digit_run_end_bounds(s: Seq<u8>, i: int)
    requires
        0 <= i <= s.len(),
    ensures
        i <= digit_run_end(s, i) <= s.len(),
        forall|k: int| i <= k < digit_run_end(s, i) ==> is_digit(s[k]),
        digit_run_end(s, i) == s.len() || !is_digit(s[digit_run_end(s, i)]),
    decreases s.len() - i,
{
    if i < s.len() && is_digit(s[i]) {
        lemma_digit_run_end_bounds(s, i + 1);
    }
}

/// A digit string's value is bounded by ten to its length.
pub proof fn lemma_digits_val_bounds(s: Seq<u8>)
    requires
        all_digits(s),
    ensures
        0 <= digits_val(s) < pow10(s.len() as nat),
    decreases s.len(),
{
    if s.len() > 0 {
        assert(all_digits(s.drop_last())) by {
            assert(forall|i: int| 0 <= i < s.len() - 1 ==> s.drop_last()[i] == s[i]);
        }
        lemma_digits_val_bounds(s.drop_last());
        assert(is_digit(s.last()));
        assert(pow10(s.len() as nat) == 10 * pow10((s.len() - 1) as nat));
    }
}

/// A digit string with a leading non-zero digit has a value of at least ten
/// to its length less one.
pub proof fn lemma_digits_val_lower(s: Seq<u8>)
    requires
        all_digits(s),
        s.len() >= 1,
        s[0] != 48,
    ensures
        digits_val(s) >= pow10((s.len() - 1) as nat),
    decreases s.len(),
{
    if s.len() == 1 {
        assert(is_digit(s[0]));
        assert(s.drop_last() =~= Seq::<u8>::empty());
        assert(digits_val(Seq::<u8>::empty()) == 0);
        assert(digits_val(s) == digits_val(s.drop_last()) * 10 + (s.last() - 48));
        assert(s.last() == s[0]);
    } else {
        assert(all_digits(s.drop_last())) by {
            assert(forall|i: int| 0 <= i < s.len() - 1 ==> s.drop_last()[i] == s[i]);
        }
        assert(s.drop_last()[0] == s[0]);
        lemma_digits_val_lower(s.drop_last());
        assert(is_digit(s.last()));
        assert(pow10((s.len() - 1) as nat) == 10 * pow10((s.len() - 2) as nat));
    }
}

/// Ten to any power is at least one.
pub proof fn lemma_pow10_pos(k: nat)
    ensures
        pow10(k) >= 1,
    decreases k,
{
    if k > 0 {
        lemma_pow10_pos((k - 1) as nat);
    }
}

/// `pow10` grows with its argument.
pub proof fn lemma_pow10_mono(a: nat, b: nat)
    requires
        a <= b,
    ensures
        pow10(a) <= pow10(b),
    decreases b,
{
    if a < b {
        lemma_pow10_mono(a, (b - 1) as nat);
        lemma_pow10_pos((b - 1) as nat);
    }
}

/// The concrete value of ten to the tenth, the bound that separates
/// numbers of at most ten digits from the rest.
pub proof fn lemma_pow10_ten()
    ensures
        pow10(10) == 10000000000,
{
    reveal_with_fuel(pow10, 11);
}

// ---------------------------------------------------------------------------
// The decoder inverts the encoder
// ---------------------------------------------------------------------------

/// A pattern placed between two fixed neighbours is found at its offset.
pub proof fn lemma_matches_at_concat(pre: Seq<u8>, pat: Seq<u8>, suf: Seq<u8>)
    ensures
        matches_at(pre + pat + suf, pre.len() as int, pat),
{
    let s = pre + pat + suf;
    assert(s.subrange(pre.len() as int, pre.len() as int + pat.len() as int) =~= pat);
}

/// Canonical digits placed between two fixed neighbours read back as their
/// value, provided a non-digit follows.
pub proof fn lemma_read_digits_at(pre: Seq<u8>, n: u32, rest: Seq<u8>)
    requires
        rest.len() > 0,
        !is_digit(rest[0]),
    ensures
        spec_read_u32(pre + spec_digits(n as nat) + rest, pre.len() as int)
            == Some((n, pre.len() as int + spec_digits(n as nat).len() as int)),
{
    let ds = spec_digits(n as nat);
    let s = pre + ds + rest;
    let i = pre.len() as int;
    let j = i + ds.len() as int;
    lemma_spec_digits_form(n as nat);
    assert(forall|k: int| i <= k < j ==> is_digit(#[trigger] s[k])) by {
        assert(forall|k: int| i <= k < j ==> s[k] == ds[k - i]);
    }
    assert(s[j] == rest[0]);
    lemma_digit_run_end_is(s, i, j);
    assert(s.subrange(i, j) =~= ds);
}

/// An encoded pixel format placed after a fixed prefix and before the final
/// closing byte reads back as itself.
#[verifier::rlimit(100)]
pub proof fn lemma_decode_fmt_at(pre: Seq<u8>, f: PixelFormatModel)
    requires
        match f {
            PixelFormatModel::Custom(name) => representable_name(name),
            _ => true,
        },
    ensures
        spec_decode_fmt(pre + spec_encode_fmt(f) + seq![125u8], pre.len() as int)
            == Some((f, pre.len() as int + spec_encode_fmt(f).len() as int)),
{
    let enc = spec_encode_fmt(f);
    let s = pre + enc + seq![125u8];
    let i = pre.len() as int;
    lemma_matches_at_concat(pre, enc, seq![125u8]);
    match f {
        PixelFormatModel::Jpeg => {
            assert(matches_at(s, i, lit_jpeg())) by {
                assert(s.subrange(i, i + 6) =~= lit_jpeg());
            }
        }
        PixelFormatModel::Custom(name) => {
            assert(!matches_at(s, i, lit_jpeg())) by {
                if matches_at(s, i, lit_jpeg()) {
                    assert(s.subrange(i, i + 6)[0] == s[i]);
                    assert(s[i] == 123);
                }
            }
            assert(matches_at(s, i, lit_custom())) by {
                assert(s.subrange(i, i + 11) =~= lit_custom());
            }
            let q = i + 11;
            let esc = spec_escape(name);
            let e = q + esc.len() as int;
            assert(s.subrange(q, e) =~= esc) by {
                assert(forall|k: int| 0 <= k < esc.len()
                    ==> #[trigger] s.subrange(q, e)[k] == s[q + k]);
            }
            assert(s[e] == 34);
            lemma_parse_escaped(s, q, name);
            assert(s[e + 1] == 125);
        }
        PixelFormatModel::Depth(bits) => {
            assert(!matches_at(s, i, lit_jpeg())) by {
                if matches_at(s, i, lit_jpeg()) {
                    assert(s.subrange(i, i + 6)[0] == s[i]);
                    assert(s[i] == 123);
                }
            }
            assert(!matches_at(s, i, lit_custom())) by {
                if matches_at(s, i, lit_custom()) {
                    assert(s.subrange(i, i + 11)[2] == s[i + 2]);
                    assert(s[i + 2] == 68);
                }
            }
            assert(matches_at(s, i, lit_depth())) by {
                assert(s.subrange(i, i + 9) =~= lit_depth());
            }
            assert(s =~= (pre + lit_depth()) + spec_digits(bits as nat)
                + (seq![125u8] + seq![125u8]));
            lemma_read_digits_at(pre + lit_depth(), bits, seq![125u8] + seq![125u8]);
            let j = i + 9 + spec_digits(bits as nat).len() as int;
            assert(s[j] == 125);
        }
        PixelFormatModel::Gray(bits) => {
            assert(!matches_at(s, i, lit_jpeg())) by {
                if matches_at(s, i, lit_jpeg()) {
                    assert(s.subrange(i, i + 6)[0] == s[i]);
                    assert(s[i] == 123);
                }
            }
            assert(!matches_at(s, i, lit_custom())) by {
                if matches_at(s, i, lit_custom()) {
                    assert(s.subrange(i, i + 11)[2] == s[i + 2]);
                    assert(s[i + 2] == 71);
                }
            }
            assert(!matches_at(s, i, lit_depth())) by {
                if matches_at(s, i, lit_depth()) {
                    assert(s.subrange(i, i + 9)[2] == s[i + 2]);
                    assert(s[i + 2] == 71);
                }
            }
            assert(matches_at(s, i, lit_gray())) by {
                assert(s.subrange(i, i + 8) =~= lit_gray());
            }
            assert(s =~= (pre + lit_gray()) + spec_digits(bits as nat)
                + (seq![125u8] + seq![125u8]));
            lemma_read_digits_at(pre + lit_gray(), bits, seq![125u8] + seq![125u8]);
            let j = i + 8 + spec_digits(bits as nat).len() as int;
            assert(s[j] == 125);
        }
        PixelFormatModel::Bgr(bits) => {
            assert(!matches_at(s, i, lit_jpeg())) by {
                if matches_at(s, i, lit_jpeg()) {
                    assert(s.subrange(i, i + 6)[0] == s[i]);
                    assert(s[i] == 123);
                }
            }
            assert(!matches_at(s, i, lit_custom())) by {
                if matches_at(s, i, lit_custom()) {
                    assert(s.subrange(i, i + 11)[2] == s[i + 2]);
                    assert(s[i + 2] == 66);
                }
            }
            assert(!matches_at(s, i, lit_depth())) by {
                if matches_at(s, i, lit_depth()) {
                    assert(s.subrange(i, i + 9)[2] == s[i + 2]);
                    assert(s[i + 2] == 66);
                }
            }
            assert(!matches_at(s, i, lit_gray())) by {
                if matches_at(s, i, lit_gray()) {
                    assert(s.subrange(i, i + 8)[2] == s[i + 2]);
                    assert(s[i + 2] == 66);
                }
            }
            assert(matches_at(s, i, lit_bgr())) by {
                assert(s.subrange(i, i + 7) =~= lit_bgr());
            }
            assert(s =~= (pre + lit_bgr()) + spec_digits(bits as nat)
                + (seq![125u8] + seq![125u8]));
            lemma_read_digits_at(pre + lit_bgr(), bits, seq![125u8] + seq![125u8]);
            let j = i + 7 + spec_digits(bits as nat).len() as int;
            assert(s[j] == 125);
        }
        PixelFormatModel::Rgb(bits) => {
            assert(!matches_at(s, i, lit_jpeg())) by {
                if matches_at(s, i, lit_jpeg()) {
                    assert(s.subrange(i, i + 6)[0] == s[i]);
                    assert(s[i] == 123);
                }
            }
            assert(!matches_at(s, i, lit_custom())) by {
                if matches_at(s, i, lit_custom()) {
                    assert(s.subrange(i, i + 11)[2] == s[i + 2]);
                    assert(s[i + 2] == 82);
                }
            }
            assert(!matches_at(s, i, lit_depth())) by {
                if matches_at(s, i, lit_depth()) {
                    assert(s.subrange(i, i + 9)[2] == s[i + 2]);
                    assert(s[i + 2] == 82);
                }
            }
            assert(!matches_at(s, i, lit_gray())) by {
                if matches_at(s, i, lit_gray()) {
                    assert(s.subrange(i, i + 8)[2] == s[i + 2]);
                    assert(s[i + 2] == 82);
                }
            }
            assert(!matches_at(s, i, lit_bgr())) by {
                if matches_at(s, i, lit_bgr()) {
                    assert(s.subrange(i, i + 7)[2] == s[i + 2]);
                    assert(s[i + 2] == 82);
                }
            }
            assert(matches_at(s, i, lit_rgb())) by {
                assert(s.subrange(i, i + 7) =~= lit_rgb());
            }
            assert(s =~= (pre + lit_rgb()) + spec_digits(bits as nat)
                + (seq![125u8] + seq![125u8]));
            lemma_read_digits_at(pre + lit_rgb(), bits, seq![125u8] + seq![125u8]);
            let j = i + 7 + spec_digits(bits as nat).len() as int;
            assert(s[j] == 125);
        }
    }
}

/// Round trip: decoding a canonical encoding gives back the descriptor.
/// This is the law that makes the codec lossless.
#[verifier::rlimit(60)]
pub proof fn lemma_decode_inverts_encode(d: DescriptorModel)
    requires
        representable(d),
    ensures
        spec_decode(spec_encode(d)) == Some(d),
{
    let wd = spec_digits(d.width as nat);
    let hd = spec_digits(d.height as nat);
    let fe = spec_encode_fmt(d.pixfmt);
    let s = spec_encode(d);
    lemma_spec_digits_form(d.width as nat);
    lemma_spec_digits_form(d.height as nat);

    assert(matches_at(s, 0, lit_width())) by {
        assert(s.subrange(0, 9) =~= lit_width());
    }

    assert(s =~= lit_width() + wd + (lit_height() + hd + lit_pixfmt() + fe + seq![125u8]));
    lemma_read_digits_at(lit_width(), d.width,
        lit_height() + hd + lit_pixfmt() + fe + seq![125u8]);
    let j1 = 9 + wd.len() as int;

    assert(s =~= (lit_width() + wd) + lit_height() + (hd + lit_pixfmt() + fe + seq![125u8]));
    lemma_matches_at_concat(lit_width() + wd, lit_height(),
        hd + lit_pixfmt() + fe + seq![125u8]);

    assert(s =~= (lit_width() + wd + lit_height()) + hd + (lit_pixfmt() + fe + seq![125u8]));
    lemma_read_digits_at(lit_width() + wd + lit_height(), d.height,
        lit_pixfmt() + fe + seq![125u8]);
    let j2 = j1 + 10 + hd.len() as int;

    assert(s =~= (lit_width() + wd + lit_height() + hd) + lit_pixfmt() + (fe + seq![125u8]));
    lemma_matches_at_concat(lit_width() + wd + lit_height() + hd, lit_pixfmt(),
        fe + seq![125u8]);

    assert(s =~= (lit_width() + wd + lit_height() + hd + lit_pixfmt()) + fe + seq![125u8]);
    lemma_decode_fmt_at(lit_width() + wd + lit_height() + hd + lit_pixfmt(), d.pixfmt);
    let j3 = j2 + 10 + fe.len() as int;

    assert(j3 + 1 == s.len());
    assert(s[j3] == 125);
    assert(DescriptorModel { width: d.width, height: d.height, pixfmt: d.pixfmt } =~= d);
    assert(spec_decode(s) == Some(d));
}

/// A canonical digit string is the digit string of its own value.
pub proof fn lemma_canonical_digits_reconstruct(s: Seq<u8>)
    requires
        canonical_digits(s),
    ensures
        digits_val(s) >= 0,
        spec_digits(digits_val(s) as nat) == s,
    decreases s.len(),
{
    lemma_digits_val_bounds(s);
    if s.len() == 1 {
        assert(s.drop_last() =~= Seq::<u8>::empty());
        assert(digits_val(Seq::<u8>::empty()) == 0);
        assert(digits_val(s) == s[0] - 48);
        assert(spec_digits(digits_val(s) as nat) =~= s);
    } else {
        let p = s.drop_last();
        assert(p[0] == s[0]);
        assert(all_digits(p)) by {
            assert(forall|k: int| 0 <= k < p.len() ==> p[k] == s[k]);
        }
        assert(canonical_digits(p));
        lemma_canonical_digits_reconstruct(p);
        lemma_digits_val_lower(p);
        lemma_pow10_pos((p.len() - 1) as nat);
        let v = digits_val(s);
        assert(v == digits_val(p) * 10 + (s.last() - 48));
        assert(digits_val(p) >= 1);
        assert(v >= 10);
        assert(v / 10 == digits_val(p) && v % 10 == s.last() - 48);
        assert(spec_digits(v as nat) == spec_digits(digits_val(p) as nat).push(
            (48 + v as nat % 10) as u8,
        ));
        assert(spec_digits(v as nat) =~= s);
    }
}

/// Where `spec_read_u32` succeeds, the digits it consumed are exactly the
/// canonical digit string of the value it returns.
pub proof fn lemma_read_u32_sound(s: Seq<u8>, i: int)
    requires
        0 <= i <= s.len(),
        spec_read_u32(s, i) is Some,
    ensures
        ({
            let (v, j) = spec_read_u32(s, i)->Some_0;
            i < j <= s.len() && s.subrange(i, j) == spec_digits(v as nat)
        }),
{
    let (v, j) = spec_read_u32(s, i)->Some_0;
    lemma_digit_run_end_bounds(s, i);
    lemma_canonical_digits_reconstruct(s.subrange(i, j));
}

/// Where `spec_decode_fmt` succeeds, the bytes it consumed are exactly the
/// encoding of the format it returns, and that format is representable.
#[verifier::rlimit(100)]
pub proof fn lemma_decode_fmt_sound(s: Seq<u8>, i: int)
    requires
        0 <= i <= s.len(),
        spec_decode_fmt(s, i) is Some,
    ensures
        ({
            let (f, j) = spec_decode_fmt(s, i)->Some_0;
            i < j <= s.len() && s.subrange(i, j) == spec_encode_fmt(f) && match f {
                PixelFormatModel::Custom(name) => representable_name(name),
                _ => true,
            }
        }),
{
    let (f, j) = spec_decode_fmt(s, i)->Some_0;
    if matches_at(s, i, lit_jpeg()) {
        assert(s.subrange(i, j) == lit_jpeg());
    } else if matches_at(s, i, lit_custom()) {
        let q = i + 11;
        lemma_parse_name_sound(s, q);
        let (name, e) = spec_parse_name(s, q)->Some_0;
        assert(s.subrange(i, j) =~= lit_custom() + spec_escape(name) + seq![34u8, 125]) by {
            assert(forall|k: int| 0 <= k < 11 ==> #[trigger] s.subrange(i, i + 11)[k] == s[i + k]);
            assert(forall|k: int| 0 <= k < e - q ==> #[trigger] s.subrange(q, e)[k] == s[q + k]);
        }
    } else if matches_at(s, i, lit_depth()) {
        lemma_read_u32_sound(s, i + 9);
        let (v, dj) = spec_read_u32(s, i + 9)->Some_0;
        assert(s.subrange(i, j) =~= lit_depth() + spec_digits(v as nat) + seq![125u8]) by {
            assert(forall|k: int| 0 <= k < 9 ==> #[trigger] s.subrange(i, i + 9)[k] == s[i + k]);
            assert(forall|k: int| 0 <= k < dj - i - 9
                ==> #[trigger] s.subrange(i + 9, dj)[k] == s[i + 9 + k]);
        }
    } else if matches_at(s, i, lit_gray()) {
        lemma_read_u32_sound(s, i + 8);
        let (v, dj) = spec_read_u32(s, i + 8)->Some_0;
        assert(s.subrange(i, j) =~= lit_gray() + spec_digits(v as nat) + seq![125u8]) by {
            assert(forall|k: int| 0 <= k < 8 ==> #[trigger] s.subrange(i, i + 8)[k] == s[i + k]);
            assert(forall|k: int| 0 <= k < dj - i - 8
                ==> #[trigger] s.subrange(i + 8, dj)[k] == s[i + 8 + k]);
        }
    } else if matches_at(s, i, lit_bgr()) {
        lemma_read_u32_sound(s, i + 7);
        let (v, dj) = spec_read_u32(s, i + 7)->Some_0;
        assert(s.subrange(i, j) =~= lit_bgr() + spec_digits(v as nat) + seq![125u8]) by {
            assert(forall|k: int| 0 <= k < 7 ==> #[trigger] s.subrange(i, i + 7)[k] == s[i + k]);
            assert(forall|k: int| 0 <= k < dj - i - 7
                ==> #[trigger] s.subrange(i + 7, dj)[k] == s[i + 7 + k]);
        }
    } else {
        lemma_read_u32_sound(s, i + 7);
        let (v, dj) = spec_read_u32(s, i + 7)->Some_0;
        assert(s.subrange(i, j) =~= lit_rgb() + spec_digits(v as nat) + seq![125u8]) by {
            assert(forall|k: int| 0 <= k < 7 ==> #[trigger] s.subrange(i, i + 7)[k] == s[i + k]);
            assert(forall|k: int| 0 <= k < dj - i - 7
                ==> #[trigger] s.subrange(i + 7, dj)[k] == s[i + 7 + k]);
        }
    }
}

/// The other half of the round trip: a string the decoder accepts is the
/// canonical encoding of what it returns, so re-encoding gives the input
/// back byte for byte.
#[verifier::rlimit(100)]
pub proof fn lemma_encode_inverts_decode(s: Seq<u8>, d: DescriptorModel)
    requires
        spec_decode(s) == Some(d),
    ensures
        representable(d),
        spec_encode(d) == s,
{
    let (w, j1) = spec_read_u32(s, 9)->Some_0;
    let (h, j2) = spec_read_u32(s, j1 + 10)->Some_0;
    let (f, j3) = spec_decode_fmt(s, j2 + 10)->Some_0;
    lemma_read_u32_sound(s, 9);
    lemma_read_u32_sound(s, j1 + 10);
    lemma_decode_fmt_sound(s, j2 + 10);
    assert(spec_encode(d) =~= s) by {
        assert(forall|k: int| 0 <= k < 9 ==> #[trigger] s.subrange(0, 9)[k] == s[k]);
        assert(forall|k: int| 0 <= k < 10 ==> #[trigger] s.subrange(j1, j1 + 10)[k] == s[j1 + k]);
        assert(forall|k: int| 0 <= k < 10 ==> #[trigger] s.subrange(j2, j2 + 10)[k] == s[j2 + k]);
        assert(forall|k: int| 0 <= k < j1 - 9 ==> #[trigger] s.subrange(9, j1)[k] == s[9 + k]);
        assert(forall|k: int| 0 <= k < j2 - j1 - 10
            ==> #[trigger] s.subrange(j1 + 10, j2)[k] == s[j1 + 10 + k]);
        assert(forall|k: int| 0 <= k < j3 - j2 - 10
            ==> #[trigger] s.subrange(j2 + 10, j3)[k] == s[j2 + 10 + k]);
    }
}

/// The canonical encoding is injective on representable descriptors.
pub proof fn lemma_encode_injective(a: DescriptorModel, b: DescriptorModel)
    requires
        representable(a),
        representable(b),
        spec_encode(a) == spec_encode(b),
    ensures
        a == b,
{
    lemma_decode_inverts_encode(a);
    lemma_decode_inverts_encode(b);
}

} // verus!

