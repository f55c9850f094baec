//! The mathematical model of the wire format: what a value's bytes are at a
//! given absolute position, and what a byte window plus a signature decodes
//! to. Every codec contract is stated against these functions.

use vstd::prelude::*;
use vstd::utf8::{decode_utf8, encode_utf8, valid_utf8};

use crate::error::VariantError;
use crate::format::EncodingFormat;
use crate::signature::{is_basic_char, spec_slice_signature};

verus! {

/// The mathematical shape of a typed D-Bus value. Text is a character
/// sequence; a double is carried as its IEEE-754 binary64 bit pattern.
pub enum VariantView {
    Byte(u8),
    Boolean(bool),
    Int16(i16),
    Uint16(u16),
    Int32(i32),
    Uint32(u32),
    Int64(i64),
    Uint64(u64),
    Double(u64),
    Str(Seq<char>),
    ObjectPath(Seq<char>),
    Signature(Seq<char>),
    Array(Seq<char>, Seq<VariantView>),
    Structure(Seq<VariantView>),
    DictEntry(Box<VariantView>, Box<VariantView>),
    Variant(Box<VariantView>),
    UnixFd(u32),
}

/// Alignment of the type a signature character introduces.
pub open spec fn spec_alignment(c: char, f: EncodingFormat) -> int {
    if c == 'y' || c == 'g' || c == 'v' {
        1
    } else if c == 'b' {
        if f is DBus {
            4
        } else {
            1
        }
    } else if c == 'n' || c == 'q' {
        2
    } else if c == 'i' || c == 'u' || c == 'h' || c == 's' || c == 'o' || c == 'a' {
        4
    } else {
        8
    }
}

/// The signature of a value.
pub open spec fn spec_sig_of(v: VariantView) -> Seq<char>
    decreases v, 0int,
{
    match v {
        VariantView::Byte(_) => seq!['y'],
        VariantView::Boolean(_) => seq!['b'],
        VariantView::Int16(_) => seq!['n'],
        VariantView::Uint16(_) => seq!['q'],
        VariantView::Int32(_) => seq!['i'],
        VariantView::Uint32(_) => seq!['u'],
        VariantView::Int64(_) => seq!['x'],
        VariantView::Uint64(_) => seq!['t'],
        VariantView::Double(_) => seq!['d'],
        VariantView::Str(_) => seq!['s'],
        VariantView::ObjectPath(_) => seq!['o'],
        VariantView::Signature(_) => seq!['g'],
        VariantView::Array(es, _) => seq!['a'] + es,
        VariantView::Structure(fs) => seq!['('] + spec_sigs_of(fs, 0) + seq![')'],
        VariantView::DictEntry(k, w) => seq!['{'] + spec_sig_of(*k) + spec_sig_of(*w) + seq!['}'],
        VariantView::Variant(_) => seq!['v'],
        VariantView::UnixFd(_) => seq!['h'],
    }
}

/// The concatenated signatures of the values from index `i` on.
pub open spec fn spec_sigs_of(vs: Seq<VariantView>, i: int) -> Seq<char>
    decreases vs, vs.len() - i + 1,
{
    if i < 0 || i >= vs.len() {
        Seq::empty()
    } else {
        spec_sig_of(vs[i]) + spec_sigs_of(vs, i + 1)
    }
}

/// True of the tags whose payload is not a container.
pub open spec fn spec_is_scalar(v: VariantView) -> bool {
    match v {
        VariantView::Array(_, _) => false,
        VariantView::Structure(_) => false,
        VariantView::DictEntry(_, _) => false,
        VariantView::Variant(_) => false,
        _ => true,
    }
}

/// Alignment of a value, by its outermost tag.
pub open spec fn spec_align_of(v: VariantView, f: EncodingFormat) -> int {
    match v {
        VariantView::Byte(_) => 1,
        VariantView::Boolean(_) => if f is DBus {
            4
        } else {
            1
        },
        VariantView::Int16(_) => 2,
        VariantView::Uint16(_) => 2,
        VariantView::Int32(_) => 4,
        VariantView::Uint32(_) => 4,
        VariantView::Int64(_) => 8,
        VariantView::Uint64(_) => 8,
        VariantView::Double(_) => 8,
        VariantView::Str(_) => 4,
        VariantView::ObjectPath(_) => 4,
        VariantView::Signature(_) => 1,
        VariantView::Array(_, _) => 4,
        VariantView::Structure(_) => 8,
        VariantView::DictEntry(_, _) => 8,
        VariantView::Variant(_) => 1,
        VariantView::UnixFd(_) => 4,
    }
}

/// Bytes of padding owed before a value of alignment `a` at position `pos`.
pub open spec fn spec_pad(pos: int, a: int) -> int {
    if pos % a == 0 {
        0
    } else {
        a - pos % a
    }
}

/// Padding makes the position a multiple of the alignment, inserting fewer
/// bytes than one alignment unit. This is the alignment guarantee every
/// container relies on.
pub proof fn lemma_pad_aligns(pos: int, a: int)
    requires
        pos >= 0,
        a >= 1,
    ensures
        0 <= spec_pad(pos, a) < a,
        (pos + spec_pad(pos, a)) % a == 0,
{
    if pos % a != 0 {
        assert((pos + (a - pos % a)) % a == 0) by (nonlinear_arith)
            requires
                pos >= 0 && a >= 1,
        ;
    }
}

/// `n` zero bytes.
pub open spec fn zero_bytes(n: int) -> Seq<u8> {
    Seq::new(n as nat, |i: int| 0u8)
}

/// 256 to the `n`.
pub open spec fn pow256(n: int) -> int
    decreases n,
{
    if n <= 0 {
        1
    } else {
        256 * pow256(n - 1)
    }
}

/// `x` written as `n` little-endian bytes.
pub open spec fn spec_le(x: int, n: int) -> Seq<u8>
    decreases n,
{
    if n <= 0 {
        Seq::empty()
    } else {
        seq![(x % 256) as u8] + spec_le(x / 256, n - 1)
    }
}

/// The value of the first `n` bytes of `b` read little-endian.
pub open spec fn spec_read_le(b: Seq<u8>, n: int) -> int
    decreases n,
{
    if n <= 0 {
        0
    } else {
        b[0] + 256 * spec_read_le(b.skip(1), n - 1)
    }
}

pub proof fn lemma_le_len(x: int, n: int)
    ensures
        spec_le(x, n).len() == if n <= 0 {
            0int
        } else {
            n
        },
    decreases n,
{
    if n > 0 {
        lemma_le_len(x / 256, n - 1);
    }
}

pub proof fn lemma_read_le_bound(b: Seq<u8>, n: int)
    requires
        n <= b.len(),
    ensures
        0 <= spec_read_le(b, n) < pow256(n),
    decreases n,
{
    if n <= 0 {
    } else {
        lemma_read_le_bound(b.skip(1), n - 1);
        assert(b[0] + 256 * spec_read_le(b.skip(1), n - 1) < 256 * pow256(n - 1)) by (
        nonlinear_arith)
            requires
                0 <= b[0] < 256 && 0 <= spec_read_le(b.skip(1), n - 1) <= pow256(n - 1) - 1,
        ;
    }
}

/// Reading back `n` little-endian bytes of `x` yields `x`.
pub proof fn lemma_le_read(x: int, n: int)
    requires
        0 <= x < pow256(n),
        n >= 0,
    ensures
        spec_read_le(spec_le(x, n), n) == x,
    decreases n,
{
    if n == 0 {
    } else {
        assert(0 <= x / 256 < pow256(n - 1)) by (nonlinear_arith)
            requires
                0 <= x < 256 * pow256(n - 1) && pow256(n - 1) >= 1,
        ;
        lemma_le_read(x / 256, n - 1);
        assert((seq![(x % 256) as u8] + spec_le(x / 256, n - 1)).skip(1) =~= spec_le(
            x / 256,
            n - 1,
        ));
        assert(x % 256 + 256 * (x / 256) == x);
    }
}

pub proof fn lemma_pow256_pos(n: int)
    ensures
        pow256(n) >= 1,
    decreases n,
{
    if n > 0 {
        lemma_pow256_pos(n - 1);
    }
}

/// Reading is insensitive to bytes past the first `n`.
pub proof fn lemma_read_le_prefix(b1: Seq<u8>, b2: Seq<u8>, n: int)
    requires
        0 <= n <= b1.len(),
        n <= b2.len(),
        b1.subrange(0, n) == b2.subrange(0, n),
    ensures
        spec_read_le(b1, n) == spec_read_le(b2, n),
    decreases n,
{
    if n > 0 {
        assert(b1[0] == b1.subrange(0, n)[0]);
        assert(b2[0] == b2.subrange(0, n)[0]);
        assert(b1.skip(1).subrange(0, n - 1) =~= b1.subrange(0, n).skip(1));
        assert(b2.skip(1).subrange(0, n - 1) =~= b2.subrange(0, n).skip(1));
        lemma_read_le_prefix(b1.skip(1), b2.skip(1), n - 1);
    }
}

/// Whether this value can be framed at `pos`: every length field fits its
/// width, and every child fits where it falls.
pub open spec fn spec_fits(v: VariantView, pos: int, f: EncodingFormat) -> bool
    decreases v, 0int,
{
    let start = pos + spec_pad(pos, spec_align_of(v, f));
    match v {
        VariantView::Str(s) => encode_utf8(s).len() < 0x1_0000_0000,
        VariantView::ObjectPath(s) => encode_utf8(s).len() < 0x1_0000_0000,
        VariantView::Signature(s) => encode_utf8(s).len() <= 255,
        VariantView::Array(es, elems) => {
            let body_pos = start + 4 + spec_pad(start + 4, spec_alignment(es[0], f));
            spec_fits_seq(elems, 0, body_pos, f) && spec_encode_seq(elems, 0, body_pos, f).len()
                < 0x1_0000_0000
        },
        VariantView::Structure(fs) => spec_fits_seq(fs, 0, start, f),
        VariantView::DictEntry(k, w) => spec_fits(*k, start, f) && spec_fits(
            *w,
            start + spec_encode(*k, start, f).len(),
            f,
        ),
        VariantView::Variant(b) => {
            let sb = encode_utf8(spec_sig_of(*b));
            let nul: int = if f is DBus {
                1
            } else {
                0
            };
            sb.len() <= 255 && spec_fits(*b, start + 1 + sb.len() + nul, f)
        },
        _ => true,
    }
}

/// Whether the values from index `i` on fit, laid out one after another
/// from `pos`.
pub open spec fn spec_fits_seq(vs: Seq<VariantView>, i: int, pos: int, f: EncodingFormat) -> bool
    decreases vs, vs.len() - i + 1,
{
    if i < 0 || i >= vs.len() {
        true
    } else {
        spec_fits(vs[i], pos, f) && spec_fits_seq(
            vs,
            i + 1,
            pos + spec_encode(vs[i], pos, f).len(),
            f,
        )
    }
}

/// The bytes of `v` encoded at absolute position `pos`: alignment padding,
/// then the payload.
pub open spec fn spec_encode(v: VariantView, pos: int, f: EncodingFormat) -> Seq<u8>
    decreases v, 0int,
{
    let p = spec_pad(pos, spec_align_of(v, f));
    let start = pos + p;
    zero_bytes(p) + match v {
        VariantView::Byte(b) => seq![b],
        VariantView::Boolean(x) => {
            let raw: int = if x {
                1
            } else {
                0
            };
            if f is DBus {
                spec_le(raw, 4)
            } else {
                spec_le(raw, 1)
            }
        },
        VariantView::Int16(x) => spec_le(x as u16 as int, 2),
        VariantView::Uint16(x) => spec_le(x as int, 2),
        VariantView::Int32(x) => spec_le(x as u32 as int, 4),
        VariantView::Uint32(x) => spec_le(x as int, 4),
        VariantView::Int64(x) => spec_le(x as u64 as int, 8),
        VariantView::Uint64(x) => spec_le(x as int, 8),
        VariantView::Double(bits) => spec_le(bits as int, 8),
        VariantView::Str(s) => spec_str_bytes(s, 4, f),
        VariantView::ObjectPath(s) => spec_str_bytes(s, 4, f),
        VariantView::Signature(s) => spec_str_bytes(s, 1, f),
        VariantView::Array(es, elems) => {
            let p2 = spec_pad(start + 4, spec_alignment(es[0], f));
            let body = spec_encode_seq(elems, 0, start + 4 + p2, f);
            spec_le(body.len() as int, 4) + zero_bytes(p2) + body
        },
        VariantView::Structure(fs) => spec_encode_seq(fs, 0, start, f),
        VariantView::DictEntry(k, w) => {
            let kb = spec_encode(*k, start, f);
            kb + spec_encode(*w, start + kb.len(), f)
        },
        VariantView::Variant(b) => {
            let sb = encode_utf8(spec_sig_of(*b));
            let nul: Seq<u8> = if f is DBus {
                seq![0u8]
            } else {
                Seq::empty()
            };
            let head = spec_le(sb.len() as int, 1) + sb + nul;
            head + spec_encode(*b, start + head.len(), f)
        },
        VariantView::UnixFd(x) => spec_le(x as int, 4),
    }
}

/// Alignment of a string whose length field is `lenw` bytes wide.
pub open spec fn spec_len_align(lenw: int) -> int {
    if lenw == 1 {
        1
    } else {
        4
    }
}

/// A string value's bytes at position `pos`: padding for the length
/// field's alignment, then the string payload.
pub open spec fn spec_str_tail(pos: int, s: Seq<char>, lenw: int, f: EncodingFormat) -> Seq<u8> {
    zero_bytes(spec_pad(pos, spec_len_align(lenw))) + spec_str_bytes(s, lenw, f)
}

/// A string payload: its byte length in `lenw` little-endian bytes, the
/// UTF-8 bytes, and, in the native format, a trailing NUL.
pub open spec fn spec_str_bytes(s: Seq<char>, lenw: int, f: EncodingFormat) -> Seq<u8> {
    let b = encode_utf8(s);
    let nul: Seq<u8> = if f is DBus {
        seq![0u8]
    } else {
        Seq::empty()
    };
    spec_le(b.len() as int, lenw) + b + nul
}

/// The values from index `i` on, encoded one after another from `pos`.
pub open spec fn spec_encode_seq(vs: Seq<VariantView>, i: int, pos: int, f: EncodingFormat) -> Seq<
    u8,
>
    decreases vs, vs.len() - i + 1,
{
    if i < 0 || i >= vs.len() {
        Seq::empty()
    } else {
        let e = spec_encode(vs[i], pos, f);
        e + spec_encode_seq(vs, i + 1, pos + e.len(), f)
    }
}

/// A well-formed value: arrays homogeneous over one complete element type,
/// dict keys basic, structures non-empty, signatures within one length byte.
pub open spec fn spec_wf(v: VariantView) -> bool
    decreases v, 0int,
{
    match v {
        VariantView::Array(es, elems) => {
            &&& spec_slice_signature(es) == Ok::<int, VariantError>(es.len() as int)
            &&& es.len() >= 1
            &&& forall|j: int|
                0 <= j < elems.len() ==> spec_wf(#[trigger] elems[j]) && spec_sig_of(elems[j])
                    == es
        },
        VariantView::Structure(fs) => fs.len() >= 1 && forall|j: int|
            0 <= j < fs.len() ==> spec_wf(#[trigger] fs[j]),
        VariantView::DictEntry(k, w) => spec_wf(*k) && spec_wf(*w) && spec_sig_of(*k).len() == 1
            && is_basic_char(spec_sig_of(*k)[0]),
        VariantView::Variant(b) => spec_wf(*b) && encode_utf8(spec_sig_of(*b)).len() <= 255,
        VariantView::Signature(s) => encode_utf8(s).len() <= 255,
        _ => true,
    }
}

/// Checks that `inner` is a concatenation of complete child signatures.
pub open spec fn spec_sig_children_ok(inner: Seq<char>) -> Result<(), VariantError>
    decreases inner.len(),
{
    if inner.len() == 0 {
        Ok(())
    } else {
        match spec_slice_signature(inner) {
            Err(e) => Err(e),
            Ok(n) => {
                if n < 1 || n > inner.len() {
                    Err(VariantError::IncorrectType)
                } else {
                    spec_sig_children_ok(inner.skip(n))
                }
            },
        }
    }
}

/// What a byte window decodes to under one complete signature: the value
/// and the count of bytes consumed, or the owed error. `pos` is the
/// absolute position of the window's first byte.
pub open spec fn spec_decode(bytes: Seq<u8>, pos: int, sig: Seq<char>, f: EncodingFormat) -> Result<
    (VariantView, int),
    VariantError,
>
    decreases bytes.len(), sig.len(), 1int,
{
    if sig.len() == 0 {
        Err(VariantError::InsufficientData)
    } else {
        let c = sig[0];
        if is_basic_char(c) && c != 's' && c != 'o' && c != 'g' {
            spec_decode_fixed(bytes, pos, c, f)
        } else if c == 's' || c == 'o' {
            spec_decode_str(bytes, pos, c, f)
        } else if c == 'g' {
            spec_decode_sig_str(bytes, f)
        } else if c == 'v' {
            spec_decode_variant(bytes, pos, f)
        } else if c == 'a' {
            spec_decode_array(bytes, pos, sig.skip(1), f)
        } else if c == '(' {
            spec_decode_struct(bytes, pos, sig, f)
        } else if c == '{' {
            spec_decode_dict(bytes, pos, sig, f)
        } else {
            Err(VariantError::IncorrectType)
        }
    }
}

/// A structure: padding to eight, then the children of the inner
/// signature, which must be well formed.
pub open spec fn spec_decode_struct(bytes: Seq<u8>, pos: int, sig: Seq<char>, f: EncodingFormat) -> Result<
    (VariantView, int),
    VariantError,
>
    decreases bytes.len(), sig.len(), 0int,
{
    let p = spec_pad(pos, 8);
    if bytes.len() < p || sig.len() < 3 {
        Err(VariantError::InsufficientData)
    } else if sig[sig.len() - 1] != ')' {
        Err(VariantError::IncorrectType)
    } else {
        let inner = sig.subrange(1, sig.len() - 1);
        match spec_sig_children_ok(inner) {
            Err(e) => Err(e),
            Ok(_) => {
                match spec_decode_fields(bytes.skip(p), pos + p, inner, f) {
                    Err(e) => Err(e),
                    Ok((fs, l)) => Ok((VariantView::Structure(fs), p + l)),
                }
            },
        }
    }
}

/// A dict entry: padding to eight, a basic key, then the value.
pub open spec fn spec_decode_dict(bytes: Seq<u8>, pos: int, sig: Seq<char>, f: EncodingFormat) -> Result<
    (VariantView, int),
    VariantError,
>
    decreases bytes.len(), sig.len(), 0int,
{
    let p = spec_pad(pos, 8);
    if bytes.len() < p || sig.len() < 4 {
        Err(VariantError::InsufficientData)
    } else if sig[sig.len() - 1] != '}' {
        Err(VariantError::IncorrectType)
    } else {
        let inner = sig.subrange(1, sig.len() - 1);
        if !is_basic_char(inner[0]) {
            Err(VariantError::IncorrectType)
        } else {
            let vsig = inner.skip(1);
            match spec_slice_signature(vsig) {
                Err(e) => Err(e),
                Ok(vn) => {
                    if vn != vsig.len() {
                        Err(VariantError::IncorrectType)
                    } else {
                        match spec_decode(bytes.skip(p), pos + p, inner.subrange(0, 1), f) {
                            Err(e) => Err(e),
                            Ok((kv, kl)) => {
                                if kl < 1 || p + kl > bytes.len() {
                                    Err(VariantError::IncorrectType)
                                } else {
                                    match spec_decode(bytes.skip(p + kl), pos + p + kl, vsig, f) {
                                        Err(e) => Err(e),
                                        Ok((wv, wl)) => Ok(
                                            (
                                                VariantView::DictEntry(
                                                    Box::new(kv),
                                                    Box::new(wv),
                                                ),
                                                p + kl + wl,
                                            ),
                                        ),
                                    }
                                }
                            },
                        }
                    }
                },
            }
        }
    }
}

/// Fixed-width basic values.
pub open spec fn spec_decode_fixed(bytes: Seq<u8>, pos: int, c: char, f: EncodingFormat) -> Result<
    (VariantView, int),
    VariantError,
> {
    let a = spec_alignment(c, f);
    let w: int = if c == 'y' {
        1
    } else if c == 'b' {
        if f is DBus {
            4
        } else {
            1
        }
    } else if c == 'n' || c == 'q' {
        2
    } else if c == 'i' || c == 'u' || c == 'h' {
        4
    } else {
        8
    };
    let p = spec_pad(pos, a);
    if bytes.len() < p + w {
        Err(VariantError::InsufficientData)
    } else {
        let raw = spec_read_le(bytes.skip(p), w);
        let v = if c == 'y' {
            VariantView::Byte(raw as u8)
        } else if c == 'b' {
            VariantView::Boolean(raw != 0)
        } else if c == 'n' {
            VariantView::Int16(raw as u16 as i16)
        } else if c == 'q' {
            VariantView::Uint16(raw as u16)
        } else if c == 'i' {
            VariantView::Int32(raw as u32 as i32)
        } else if c == 'u' {
            VariantView::Uint32(raw as u32)
        } else if c == 'h' {
            VariantView::UnixFd(raw as u32)
        } else if c == 'x' {
            VariantView::Int64(raw as u64 as i64)
        } else if c == 't' {
            VariantView::Uint64(raw as u64)
        } else {
            VariantView::Double(raw as u64)
        };
        Ok((v, p + w))
    }
}

/// Strings and object paths: a 4-byte length, the payload, and in the
/// native format a trailing NUL that is consumed but not counted.
pub open spec fn spec_decode_str(bytes: Seq<u8>, pos: int, c: char, f: EncodingFormat) -> Result<
    (VariantView, int),
    VariantError,
> {
    let p = spec_pad(pos, 4);
    let nul: int = if f is DBus {
        1
    } else {
        0
    };
    if bytes.len() < p + 4 {
        Err(VariantError::InsufficientData)
    } else {
        let l = spec_read_le(bytes.skip(p), 4);
        if bytes.len() < p + 4 + l + nul {
            Err(VariantError::InsufficientData)
        } else {
            let payload = bytes.subrange(p + 4, p + 4 + l);
            if !valid_utf8(payload) {
                Err(VariantError::InvalidUtf8)
            } else {
                let text = decode_utf8(payload);
                let v = if c == 's' {
                    VariantView::Str(text)
                } else {
                    VariantView::ObjectPath(text)
                };
                Ok((v, p + 4 + l + nul))
            }
        }
    }
}

/// Signature strings: a 1-byte length, the payload, and in the native
/// format a trailing NUL.
pub open spec fn spec_decode_sig_str(bytes: Seq<u8>, f: EncodingFormat) -> Result<
    (VariantView, int),
    VariantError,
> {
    let nul: int = if f is DBus {
        1
    } else {
        0
    };
    if bytes.len() < 1 {
        Err(VariantError::InsufficientData)
    } else {
        let l = bytes[0] as int;
        if bytes.len() < 1 + l + nul {
            Err(VariantError::InsufficientData)
        } else {
            let payload = bytes.subrange(1, 1 + l);
            if !valid_utf8(payload) {
                Err(VariantError::InvalidUtf8)
            } else {
                Ok((VariantView::Signature(decode_utf8(payload)), 1 + l + nul))
            }
        }
    }
}

/// A variant: its signature string, then the value it describes.
pub open spec fn spec_decode_variant(bytes: Seq<u8>, pos: int, f: EncodingFormat) -> Result<
    (VariantView, int),
    VariantError,
>
    decreases bytes.len(), 0int, 0int,
{
    let nul: int = if f is DBus {
        1
    } else {
        0
    };
    if bytes.len() < 1 {
        Err(VariantError::InsufficientData)
    } else {
        let l = bytes[0] as int;
        let head = 1 + l + nul;
        if bytes.len() < head {
            Err(VariantError::InsufficientData)
        } else {
            let payload = bytes.subrange(1, 1 + l);
            if !valid_utf8(payload) {
                Err(VariantError::InvalidUtf8)
            } else {
                let isig = decode_utf8(payload);
                if spec_slice_signature(isig) != Ok::<int, VariantError>(isig.len() as int)
                    || isig.len() < 1 {
                    Err(VariantError::IncorrectType)
                } else {
                    match spec_decode(bytes.skip(head), pos + head, isig, f) {
                        Err(e) => Err(e),
                        Ok((v, l2)) => Ok((VariantView::Variant(Box::new(v)), head + l2)),
                    }
                }
            }
        }
    }
}

/// An array: a 4-byte element-byte count, padding to the element type's
/// alignment, then elements that fill the counted bytes exactly.
pub open spec fn spec_decode_array(
    bytes: Seq<u8>,
    pos: int,
    elem_sig: Seq<char>,
    f: EncodingFormat,
) -> Result<(VariantView, int), VariantError>
    decreases bytes.len(), elem_sig.len() + 1, 0int,
{
    if elem_sig.len() == 0 {
        Err(VariantError::InsufficientData)
    } else {
        let p = spec_pad(pos, 4);
        if bytes.len() < p + 4 {
            Err(VariantError::InsufficientData)
        } else {
            let l = spec_read_le(bytes.skip(p), 4);
            let p2 = spec_pad(pos + p + 4, spec_alignment(elem_sig[0], f));
            let start = p + 4 + p2;
            if l < 0 {
                Err(VariantError::IncorrectType)
            } else if bytes.len() < start + l {
                Err(VariantError::InsufficientData)
            } else {
                let region = bytes.subrange(start, start + l);
                match spec_decode_elems(region, pos + start, elem_sig, f) {
                    Err(e) => Err(e),
                    Ok(elems) => Ok((VariantView::Array(elem_sig, elems), start + l)),
                }
            }
        }
    }
}

/// The elements filling a region exactly, each aligned at its own absolute
/// position.
pub open spec fn spec_decode_elems(
    region: Seq<u8>,
    pos: int,
    elem_sig: Seq<char>,
    f: EncodingFormat,
) -> Result<Seq<VariantView>, VariantError>
    decreases region.len(), elem_sig.len(), 2int,
{
    if region.len() == 0 {
        Ok(Seq::empty())
    } else {
        match spec_decode(region, pos, elem_sig, f) {
            Err(e) => Err(e),
            Ok((v, l)) => {
                if l < 1 || l > region.len() {
                    Err(VariantError::IncorrectType)
                } else {
                    match spec_decode_elems(region.skip(l), pos + l, elem_sig, f) {
                        Err(e) => Err(e),
                        Ok(vs) => Ok(seq![v] + vs),
                    }
                }
            },
        }
    }
}

/// A decoded value spans at least one byte and never more than the window.
#[verifier::rlimit(100)]
pub proof fn lemma_decode_consumes(bytes: Seq<u8>, pos: int, sig: Seq<char>, f: EncodingFormat)
    ensures
        spec_decode(bytes, pos, sig, f) matches Ok((v, l)) ==> 1 <= l <= bytes.len(),
    decreases bytes.len(), sig.len(), 1int,
{
    if sig.len() == 0 {
    } else {
        let c = sig[0];
        if is_basic_char(c) && c != 's' && c != 'o' && c != 'g' {
        } else if c == 's' || c == 'o' {
            let p = spec_pad(pos, 4);
            if bytes.len() >= p + 4 {
                lemma_read_le_bound(bytes.skip(p), 4);
            }
        } else if c == 'g' {
        } else if c == 'v' {
            lemma_decode_variant_consumes(bytes, pos, f);
        } else if c == 'a' {
            lemma_decode_array_consumes(bytes, pos, sig.skip(1), f);
        } else if c == '(' {
            lemma_decode_struct_consumes(bytes, pos, sig, f);
        } else if c == '{' {
            lemma_decode_dict_consumes(bytes, pos, sig, f);
        }
    }
}

/// The structure helper's consumption bound.
pub proof fn lemma_decode_struct_consumes(bytes: Seq<u8>, pos: int, sig: Seq<char>, f: EncodingFormat)
    ensures
        spec_decode_struct(bytes, pos, sig, f) matches Ok((v, l)) ==> 1 <= l <= bytes.len(),
    decreases bytes.len(), sig.len(), 0int,
{
    let p = spec_pad(pos, 8);
    if bytes.len() >= p && sig.len() >= 3 && sig[sig.len() - 1] == ')' {
        lemma_decode_fields_consumes(bytes.skip(p), pos + p, sig.subrange(1, sig.len() - 1), f);
    }
}

/// The dict-entry helper's consumption bound.
pub proof fn lemma_decode_dict_consumes(bytes: Seq<u8>, pos: int, sig: Seq<char>, f: EncodingFormat)
    ensures
        spec_decode_dict(bytes, pos, sig, f) matches Ok((v, l)) ==> 1 <= l <= bytes.len(),
    decreases bytes.len(), sig.len(), 0int,
{
    let p = spec_pad(pos, 8);
    if bytes.len() >= p && sig.len() >= 4 && sig[sig.len() - 1] == '}' {
        let inner = sig.subrange(1, sig.len() - 1);
        if is_basic_char(inner[0]) {
            let vsig = inner.skip(1);
            if spec_slice_signature(vsig) == Ok::<int, VariantError>(vsig.len() as int) {
                lemma_decode_consumes(bytes.skip(p), pos + p, inner.subrange(0, 1), f);
                if let Ok((kv, kl)) = spec_decode(bytes.skip(p), pos + p, inner.subrange(0, 1), f) {
                    if 1 <= kl && p + kl <= bytes.len() {
                        lemma_decode_consumes(bytes.skip(p + kl), pos + p + kl, vsig, f);
                    }
                }
            }
        }
    }
}

/// The array helper's consumption bound.
pub proof fn lemma_decode_array_consumes(
    bytes: Seq<u8>,
    pos: int,
    elem_sig: Seq<char>,
    f: EncodingFormat,
)
    ensures
        spec_decode_array(bytes, pos, elem_sig, f) matches Ok((v, l)) ==> 1 <= l <= bytes.len(),
{
}

/// The variant helper's consumption bound.
pub proof fn lemma_decode_variant_consumes(bytes: Seq<u8>, pos: int, f: EncodingFormat)
    ensures
        spec_decode_variant(bytes, pos, f) matches Ok((v, l)) ==> 1 <= l <= bytes.len(),
    decreases bytes.len(), 0int, 0int,
{
    if bytes.len() >= 1 {
        let nul: int = if f is DBus {
            1
        } else {
            0
        };
        let l = bytes[0] as int;
        let head = 1 + l + nul;
        if bytes.len() >= head {
            let payload = bytes.subrange(1, 1 + l);
            if valid_utf8(payload) {
                let isig = decode_utf8(payload);
                lemma_decode_consumes(bytes.skip(head), pos + head, isig, f);
            }
        }
    }
}

/// The field helper's consumption bound.
pub proof fn lemma_decode_fields_consumes(
    bytes: Seq<u8>,
    pos: int,
    inner: Seq<char>,
    f: EncodingFormat,
)
    ensures
        spec_decode_fields(bytes, pos, inner, f) matches Ok((vs, l)) ==> 0 <= l <= bytes.len() && (
        inner.len() > 0 ==> l >= 1),
    decreases bytes.len(), inner.len(), 2int,
{
    if inner.len() > 0 {
        if let Ok(n) = spec_slice_signature(inner) {
            if 1 <= n <= inner.len() {
                let child = inner.subrange(0, n);
                if let Ok((v, l)) = spec_decode(bytes, pos, child, f) {
                    if 1 <= l <= bytes.len() {
                        lemma_decode_fields_consumes(bytes.skip(l), pos + l, inner.skip(n), f);
                    }
                }
            }
        }
    }
}

/// Prepends already-decoded elements to the rest of an element decode.
pub open spec fn combine_elems(acc: Seq<VariantView>, inner: Result<Seq<VariantView>, VariantError>) -> Result<Seq<VariantView>, VariantError> {
    match inner {
        Ok(vs) => Ok(acc + vs),
        Err(e) => Err(e),
    }
}

/// Prepends already-decoded fields and their span to the rest of a field
/// decode.
pub open spec fn combine_fields(
    acc: Seq<VariantView>,
    consumed: int,
    inner: Result<(Seq<VariantView>, int), VariantError>,
) -> Result<(Seq<VariantView>, int), VariantError> {
    match inner {
        Ok((vs, l)) => Ok((acc + vs, consumed + l)),
        Err(e) => Err(e),
    }
}

/// The fields of a structure: children of `inner` laid out one after
/// another.
pub open spec fn spec_decode_fields(
    bytes: Seq<u8>,
    pos: int,
    inner: Seq<char>,
    f: EncodingFormat,
) -> Result<(Seq<VariantView>, int), VariantError>
    decreases bytes.len(), inner.len(), 2int,
{
    if inner.len() == 0 {
        Ok((Seq::empty(), 0))
    } else {
        match spec_slice_signature(inner) {
            Err(e) => Err(e),
            Ok(n) => {
                if n < 1 || n > inner.len() {
                    Err(VariantError::IncorrectType)
                } else {
                    let child = inner.subrange(0, n);
                    match spec_decode(bytes, pos, child, f) {
                        Err(e) => Err(e),
                        Ok((v, l)) => {
                            if l < 1 || l > bytes.len() {
                                Err(VariantError::IncorrectType)
                            } else {
                                match spec_decode_fields(bytes.skip(l), pos + l, inner.skip(n), f) {
                                    Err(e) => Err(e),
                                    Ok((vs, l2)) => Ok((seq![v] + vs, l + l2)),
                                }
                            }
                        },
                    }
                }
            },
        }
    }
}


/// Round trip for the fixed-width basic types: decoding what was encoded,
/// with anything at all appended, yields the value back and consumes
/// exactly the encoded bytes.
#[verifier::rlimit(100)]
pub proof fn lemma_roundtrip_fixed(v: VariantView, pos: int, rest: Seq<u8>, f: EncodingFormat)
    requires
        pos >= 0,
        spec_is_scalar(v),
        !(v is Str),
        !(v is ObjectPath),
        !(v is Signature),
    ensures
        spec_decode(spec_encode(v, pos, f) + rest, pos, spec_sig_of(v), f) == Ok::<
            (VariantView, int),
            VariantError,
        >((v, spec_encode(v, pos, f).len() as int)),
{
    reveal_with_fuel(pow256, 9);
    let c = spec_sig_of(v)[0];
    let a = spec_align_of(v, f);
    let p = spec_pad(pos, a);
    let enc = spec_encode(v, pos, f);
    let bytes = enc + rest;
    let w: int = if v is Byte {
        1
    } else if v is Boolean {
        if f is DBus {
            4
        } else {
            1
        }
    } else if v is Int16 || v is Uint16 {
        2
    } else if v is Int32 || v is Uint32 || v is UnixFd {
        4
    } else {
        8
    };
    let u: int = match v {
        VariantView::Byte(b) => b as int,
        VariantView::Boolean(x) => if x {
            1
        } else {
            0
        },
        VariantView::Int16(x) => x as u16 as int,
        VariantView::Uint16(x) => x as int,
        VariantView::Int32(x) => x as u32 as int,
        VariantView::Uint32(x) => x as int,
        VariantView::Int64(x) => x as u64 as int,
        VariantView::Uint64(x) => x as int,
        VariantView::Double(b) => b as int,
        VariantView::UnixFd(x) => x as int,
        _ => 0,
    };
    lemma_pad_aligns(pos, a);
    lemma_le_len(u, w);
    assert(enc =~= zero_bytes(p) + spec_le(u, w));
    assert(bytes.len() == p + w + rest.len());
    assert(bytes.skip(p).subrange(0, w) =~= spec_le(u, w));
    assert(spec_le(u, w).subrange(0, w) =~= spec_le(u, w));
    lemma_read_le_prefix(bytes.skip(p), spec_le(u, w), w);
    assert(0 <= u < pow256(w));
    lemma_le_read(u, w);
    let raw = spec_read_le(bytes.skip(p), w);
    assert(raw == u);
    match v {
        VariantView::Int16(x) => {
            assert((x as u16) as i16 == x) by (bit_vector);
        },
        VariantView::Int32(x) => {
            assert((x as u32) as i32 == x) by (bit_vector);
        },
        VariantView::Int64(x) => {
            assert((x as u64) as i64 == x) by (bit_vector);
        },
        _ => {},
    }
    assert(spec_decode(bytes, pos, spec_sig_of(v), f) == spec_decode_fixed(bytes, pos, c, f));
}

/// Round trip for strings, object paths and signature strings.
#[verifier::rlimit(100)]
pub proof fn lemma_roundtrip_text(v: VariantView, pos: int, rest: Seq<u8>, f: EncodingFormat)
    requires
        pos >= 0,
        v is Str || v is ObjectPath || v is Signature,
        spec_wf(v),
        spec_fits(v, pos, f),
    ensures
        spec_decode(spec_encode(v, pos, f) + rest, pos, spec_sig_of(v), f) == Ok::<
            (VariantView, int),
            VariantError,
        >((v, spec_encode(v, pos, f).len() as int)),
{
    broadcast use vstd::utf8::encode_utf8_valid_utf8, vstd::utf8::encode_utf8_decode_utf8;

    reveal_with_fuel(pow256, 9);
    let text = match v {
        VariantView::Str(s) => s,
        VariantView::ObjectPath(s) => s,
        VariantView::Signature(s) => s,
        _ => Seq::empty(),
    };
    let lenw: int = if v is Signature {
        1
    } else {
        4
    };
    let a = spec_align_of(v, f);
    let p = spec_pad(pos, a);
    let b = encode_utf8(text);
    let nulw: int = if f is DBus {
        1
    } else {
        0
    };
    let nul: Seq<u8> = if f is DBus {
        seq![0u8]
    } else {
        Seq::empty()
    };
    let enc = spec_encode(v, pos, f);
    let bytes = enc + rest;
    lemma_pad_aligns(pos, a);
    lemma_le_len(b.len() as int, lenw);
    assert(enc =~= zero_bytes(p) + (spec_le(b.len() as int, lenw) + b + nul));
    assert(enc.len() == p + lenw + b.len() + nulw);
    if v is Signature {
        assert(bytes[0] == spec_le(b.len() as int, 1)[0]);
        assert(spec_le(b.len() as int, 1)[0] == (b.len() as int % 256) as u8);
        assert(b.len() as int % 256 == b.len());
        assert(bytes.subrange(1, 1 + b.len() as int) =~= b);
        assert(spec_decode(bytes, pos, spec_sig_of(v), f) == spec_decode_sig_str(bytes, f));
    } else {
        assert(bytes.skip(p).subrange(0, 4) =~= spec_le(b.len() as int, 4));
        assert(spec_le(b.len() as int, 4).subrange(0, 4) =~= spec_le(b.len() as int, 4));
        lemma_read_le_prefix(bytes.skip(p), spec_le(b.len() as int, 4), 4);
        lemma_le_read(b.len() as int, 4);
        assert(bytes.subrange(p + 4, p + 4 + b.len() as int) =~= b);
        let c = spec_sig_of(v)[0];
        assert(spec_decode(bytes, pos, spec_sig_of(v), f) == spec_decode_str(bytes, pos, c, f));
    }
    assert(valid_utf8(b));
    assert(decode_utf8(b) == text);
}

/// Round trip for every basic value: one direction of the codec round
/// trip, stated over the wire model. Decoding the encoded bytes, whatever
/// follows them, gives back the value, and consumes exactly the encoded
/// length; slicing therefore spans exactly the encoded bytes too.
pub proof fn lemma_roundtrip_scalar(v: VariantView, pos: int, rest: Seq<u8>, f: EncodingFormat)
    requires
        pos >= 0,
        spec_is_scalar(v),
        spec_wf(v),
        spec_fits(v, pos, f),
    ensures
        spec_decode(spec_encode(v, pos, f) + rest, pos, spec_sig_of(v), f) == Ok::<
            (VariantView, int),
            VariantError,
        >((v, spec_encode(v, pos, f).len() as int)),
{
    if v is Str || v is ObjectPath || v is Signature {
        lemma_roundtrip_text(v, pos, rest, f);
    } else {
        lemma_roundtrip_fixed(v, pos, rest, f);
    }
}


/// A scalar value's signature is one basic character.
pub proof fn lemma_scalar_sig(v: VariantView)
    requires
        spec_is_scalar(v),
    ensures
        spec_sig_of(v).len() == 1,
        is_basic_char(spec_sig_of(v)[0]),
        spec_slice_signature(spec_sig_of(v)) == Ok::<int, VariantError>(1),
{
}

/// Concatenated scalar signatures have one character per value.
pub proof fn lemma_scalar_sigs_len(fs: Seq<VariantView>, i: int)
    requires
        0 <= i <= fs.len(),
        forall|j: int| 0 <= j < fs.len() ==> spec_is_scalar(#[trigger] fs[j]),
    ensures
        spec_sigs_of(fs, i).len() == fs.len() - i,
        forall|k: int|
            0 <= k < fs.len() - i ==> #[trigger] spec_sigs_of(fs, i)[k] == spec_sig_of(fs[i + k])[0],
    decreases fs.len() - i,
{
    if i < fs.len() {
        lemma_scalar_sig(fs[i]);
        lemma_scalar_sigs_len(fs, i + 1);
        assert forall|k: int| 0 <= k < fs.len() - i implies #[trigger] spec_sigs_of(fs, i)[k]
            == spec_sig_of(fs[i + k])[0] by {
            if k > 0 {
                assert(spec_sigs_of(fs, i)[k] == spec_sigs_of(fs, i + 1)[k - 1]);
            }
        }
    }
}

/// Concatenated scalar signatures are well-formed children.
pub proof fn lemma_scalar_children_ok(fs: Seq<VariantView>, i: int)
    requires
        0 <= i <= fs.len(),
        forall|j: int| 0 <= j < fs.len() ==> spec_is_scalar(#[trigger] fs[j]),
    ensures
        spec_sig_children_ok(spec_sigs_of(fs, i)) == Ok::<(), VariantError>(()),
    decreases fs.len() - i,
{
    if i < fs.len() {
        let inner = spec_sigs_of(fs, i);
        lemma_scalar_sig(fs[i]);
        lemma_scalar_sigs_len(fs, i);
        assert(inner[0] == spec_sig_of(fs[i])[0]);
        assert(spec_slice_signature(inner) == Ok::<int, VariantError>(1));
        lemma_scalar_children_ok(fs, i + 1);
        assert(inner.skip(1) =~= spec_sigs_of(fs, i + 1));
    } else {
        assert(spec_sigs_of(fs, i) =~= Seq::<char>::empty());
    }
}

/// Round trip for a run of scalar fields laid out one after another.
#[verifier::rlimit(100)]
pub proof fn lemma_roundtrip_scalar_fields(
    fs: Seq<VariantView>,
    i: int,
    pos: int,
    rest: Seq<u8>,
    f: EncodingFormat,
)
    requires
        0 <= i <= fs.len(),
        pos >= 0,
        forall|j: int| 0 <= j < fs.len() ==> spec_is_scalar(#[trigger] fs[j]),
        forall|j: int| 0 <= j < fs.len() ==> spec_wf(#[trigger] fs[j]),
        spec_fits_seq(fs, i, pos, f),
    ensures
        spec_decode_fields(
            spec_encode_seq(fs, i, pos, f) + rest,
            pos,
            spec_sigs_of(fs, i),
            f,
        ) == Ok::<(Seq<VariantView>, int), VariantError>(
            (fs.skip(i), spec_encode_seq(fs, i, pos, f).len() as int),
        ),
    decreases fs.len() - i,
{
    let inner = spec_sigs_of(fs, i);
    let bytes = spec_encode_seq(fs, i, pos, f) + rest;
    if i == fs.len() {
        assert(inner =~= Seq::<char>::empty());
        assert(fs.skip(i) =~= Seq::<VariantView>::empty());
        assert(spec_encode_seq(fs, i, pos, f) =~= Seq::<u8>::empty());
    } else {
        lemma_scalar_sig(fs[i]);
        lemma_scalar_sigs_len(fs, i);
        assert(inner[0] == spec_sig_of(fs[i])[0]);
        assert(spec_slice_signature(inner) == Ok::<int, VariantError>(1));
        let child = inner.subrange(0, 1);
        assert(child =~= spec_sig_of(fs[i]));
        let e = spec_encode(fs[i], pos, f);
        let tail_enc = spec_encode_seq(fs, i + 1, pos + e.len(), f);
        assert(bytes =~= e + (tail_enc + rest));
        lemma_roundtrip_scalar(fs[i], pos, tail_enc + rest, f);
        assert(spec_decode(bytes, pos, child, f) == Ok::<(VariantView, int), VariantError>(
            (fs[i], e.len() as int),
        ));
        lemma_encode_len_pos(fs[i], pos, f);
        assert(bytes.skip(e.len() as int) =~= tail_enc + rest);
        assert(inner.skip(1) =~= spec_sigs_of(fs, i + 1));
        lemma_roundtrip_scalar_fields(fs, i + 1, pos + e.len(), rest, f);
        assert(seq![fs[i]] + fs.skip(i + 1) =~= fs.skip(i));
    }
}

/// A scalar encoding is never empty.
pub proof fn lemma_encode_len_pos(v: VariantView, pos: int, f: EncodingFormat)
    requires
        spec_is_scalar(v),
    ensures
        spec_encode(v, pos, f).len() >= 1,
{
    match v {
        VariantView::Byte(_) => {},
        VariantView::Boolean(_) => {
            lemma_le_len(0, 1);
            lemma_le_len(0, 4);
            lemma_le_len(1, 1);
            lemma_le_len(1, 4);
        },
        VariantView::Int16(x) => {
            lemma_le_len(x as u16 as int, 2);
        },
        VariantView::Uint16(x) => {
            lemma_le_len(x as int, 2);
        },
        VariantView::Int32(x) => {
            lemma_le_len(x as u32 as int, 4);
        },
        VariantView::Uint32(x) => {
            lemma_le_len(x as int, 4);
        },
        VariantView::Int64(x) => {
            lemma_le_len(x as u64 as int, 8);
        },
        VariantView::Uint64(x) => {
            lemma_le_len(x as int, 8);
        },
        VariantView::Double(b) => {
            lemma_le_len(b as int, 8);
        },
        VariantView::Str(s) => {
            lemma_le_len(encode_utf8(s).len() as int, 4);
        },
        VariantView::ObjectPath(s) => {
            lemma_le_len(encode_utf8(s).len() as int, 4);
        },
        VariantView::Signature(s) => {
            lemma_le_len(encode_utf8(s).len() as int, 1);
        },
        VariantView::UnixFd(x) => {
            lemma_le_len(x as int, 4);
        },
        _ => {},
    }
}

/// Round trip for a structure of basic fields: one more level of the codec
/// round trip, stated over the wire model. Decoding the encoded structure,
/// whatever follows it, gives back the fields and consumes exactly the
/// encoded length.
#[verifier::rlimit(100)]
pub proof fn lemma_roundtrip_flat_structure(
    fs: Seq<VariantView>,
    pos: int,
    rest: Seq<u8>,
    f: EncodingFormat,
)
    requires
        pos >= 0,
        fs.len() >= 1,
        forall|j: int| 0 <= j < fs.len() ==> spec_is_scalar(#[trigger] fs[j]),
        forall|j: int| 0 <= j < fs.len() ==> spec_wf(#[trigger] fs[j]),
        spec_fits(VariantView::Structure(fs), pos, f),
    ensures
        spec_decode(
            spec_encode(VariantView::Structure(fs), pos, f) + rest,
            pos,
            spec_sig_of(VariantView::Structure(fs)),
            f,
        ) == Ok::<(VariantView, int), VariantError>(
            (
                VariantView::Structure(fs),
                spec_encode(VariantView::Structure(fs), pos, f).len() as int,
            ),
        ),
{
    let v = VariantView::Structure(fs);
    let sig = spec_sig_of(v);
    let inner = spec_sigs_of(fs, 0);
    lemma_scalar_sigs_len(fs, 0);
    assert(sig == seq!['('] + inner + seq![')']);
    assert(sig.len() == fs.len() + 2);
    assert(sig[0] == '(');
    assert(sig[sig.len() - 1] == ')');
    assert(sig.subrange(1, sig.len() - 1) =~= inner);
    let p = spec_pad(pos, 8);
    lemma_pad_aligns(pos, 8);
    let body = spec_encode_seq(fs, 0, pos + p, f);
    let enc = spec_encode(v, pos, f);
    assert(enc =~= zero_bytes(p) + body);
    let bytes = enc + rest;
    assert(bytes.len() >= p);
    assert(bytes.skip(p) =~= body + rest);
    lemma_scalar_children_ok(fs, 0);
    lemma_roundtrip_scalar_fields(fs, 0, pos + p, rest, f);
    assert(fs.skip(0) =~= fs);
    assert(spec_decode(bytes, pos, sig, f) == spec_decode_struct(bytes, pos, sig, f));
}


/// Round trip for a dict entry whose key and value are basic: decoding the
/// encoded entry, whatever follows it, gives back both halves and consumes
/// exactly the encoded length.
#[verifier::rlimit(100)]
pub proof fn lemma_roundtrip_scalar_dict(
    k: VariantView,
    w: VariantView,
    pos: int,
    rest: Seq<u8>,
    f: EncodingFormat,
)
    requires
        pos >= 0,
        spec_is_scalar(k),
        spec_is_scalar(w),
        spec_wf(k),
        spec_wf(w),
        spec_fits(VariantView::DictEntry(Box::new(k), Box::new(w)), pos, f),
    ensures
        spec_decode(
            spec_encode(VariantView::DictEntry(Box::new(k), Box::new(w)), pos, f) + rest,
            pos,
            spec_sig_of(VariantView::DictEntry(Box::new(k), Box::new(w))),
            f,
        ) == Ok::<(VariantView, int), VariantError>(
            (
                VariantView::DictEntry(Box::new(k), Box::new(w)),
                spec_encode(VariantView::DictEntry(Box::new(k), Box::new(w)), pos, f).len() as int,
            ),
        ),
{
    let v = VariantView::DictEntry(Box::new(k), Box::new(w));
    let sig = spec_sig_of(v);
    lemma_scalar_sig(k);
    lemma_scalar_sig(w);
    assert(sig == seq!['{'] + spec_sig_of(k) + spec_sig_of(w) + seq!['}']);
    assert(sig.len() == 4);
    assert(sig[0] == '{');
    assert(sig[3] == '}');
    let inner = sig.subrange(1, 3);
    assert(inner =~= spec_sig_of(k) + spec_sig_of(w));
    assert(inner[0] == spec_sig_of(k)[0]);
    let vsig = inner.skip(1);
    assert(vsig =~= spec_sig_of(w));
    let p = spec_pad(pos, 8);
    lemma_pad_aligns(pos, 8);
    let kb = spec_encode(k, pos + p, f);
    let wb = spec_encode(w, pos + p + kb.len(), f);
    let enc = spec_encode(v, pos, f);
    assert(enc =~= zero_bytes(p) + (kb + wb));
    let bytes = enc + rest;
    assert(bytes.skip(p) =~= kb + (wb + rest));
    lemma_roundtrip_scalar(k, pos + p, wb + rest, f);
    assert(inner.subrange(0, 1) =~= spec_sig_of(k));
    lemma_encode_len_pos(k, pos + p, f);
    assert(bytes.skip(p + kb.len() as int) =~= wb + rest);
    lemma_roundtrip_scalar(w, pos + p + kb.len(), rest, f);
    assert(spec_decode(bytes.skip(p), pos + p, inner.subrange(0, 1), f) == Ok::<
        (VariantView, int),
        VariantError,
    >((k, kb.len() as int)));
    assert(spec_decode(bytes.skip(p + kb.len() as int), pos + p + kb.len(), vsig, f) == Ok::<
        (VariantView, int),
        VariantError,
    >((w, wb.len() as int)));
    assert(1 <= kb.len() && p + kb.len() <= bytes.len());
    assert(enc.len() == p + kb.len() + wb.len());
    assert(spec_decode_dict(bytes, pos, sig, f) == Ok::<(VariantView, int), VariantError>(
        (v, p + kb.len() + wb.len()),
    ));
    assert(spec_decode(bytes, pos, sig, f) == spec_decode_dict(bytes, pos, sig, f));
}

/// Round trip for a variant carrying a basic value: decoding the encoded
/// variant, whatever follows it, gives back the wrapped value and consumes
/// exactly the encoded length.
#[verifier::rlimit(100)]
pub proof fn lemma_roundtrip_scalar_variant(
    b: VariantView,
    pos: int,
    rest: Seq<u8>,
    f: EncodingFormat,
)
    requires
        pos >= 0,
        spec_is_scalar(b),
        spec_wf(b),
        spec_fits(VariantView::Variant(Box::new(b)), pos, f),
    ensures
        spec_decode(
            spec_encode(VariantView::Variant(Box::new(b)), pos, f) + rest,
            pos,
            spec_sig_of(VariantView::Variant(Box::new(b))),
            f,
        ) == Ok::<(VariantView, int), VariantError>(
            (
                VariantView::Variant(Box::new(b)),
                spec_encode(VariantView::Variant(Box::new(b)), pos, f).len() as int,
            ),
        ),
{
    broadcast use vstd::utf8::encode_utf8_valid_utf8, vstd::utf8::encode_utf8_decode_utf8;

    let v = VariantView::Variant(Box::new(b));
    let sig = spec_sig_of(v);
    assert(sig == seq!['v']);
    lemma_scalar_sig(b);
    let sb = encode_utf8(spec_sig_of(b));
    let nulw: int = if f is DBus {
        1
    } else {
        0
    };
    let nul: Seq<u8> = if f is DBus {
        seq![0u8]
    } else {
        Seq::empty()
    };
    let head = spec_le(sb.len() as int, 1) + sb + nul;
    lemma_le_len(sb.len() as int, 1);
    assert(spec_pad(pos, 1) == 0);
    let ib = spec_encode(b, pos + head.len(), f);
    let enc = spec_encode(v, pos, f);
    assert(enc =~= head + ib);
    let bytes = enc + rest;
    assert(bytes[0] == spec_le(sb.len() as int, 1)[0]);
    assert(spec_le(sb.len() as int, 1)[0] == (sb.len() as int % 256) as u8);
    assert(sb.len() as int % 256 == sb.len());
    assert(bytes.subrange(1, 1 + sb.len() as int) =~= sb);
    assert(valid_utf8(sb));
    assert(decode_utf8(sb) == spec_sig_of(b));
    assert(bytes.skip(head.len() as int) =~= ib + rest);
    lemma_roundtrip_scalar(b, pos + head.len(), rest, f);
    assert(spec_decode(bytes, pos, sig, f) == spec_decode_variant(bytes, pos, f));
}


/// Round trip for a run of basic elements that fill a region exactly.
#[verifier::rlimit(100)]
pub proof fn lemma_roundtrip_scalar_elems(
    es: Seq<char>,
    elems: Seq<VariantView>,
    i: int,
    pos: int,
    f: EncodingFormat,
)
    requires
        pos >= 0,
        0 <= i <= elems.len(),
        forall|j: int| 0 <= j < elems.len() ==> spec_is_scalar(#[trigger] elems[j]),
        forall|j: int| 0 <= j < elems.len() ==> spec_wf(#[trigger] elems[j]),
        forall|j: int| 0 <= j < elems.len() ==> spec_sig_of(#[trigger] elems[j]) == es,
        spec_fits_seq(elems, i, pos, f),
    ensures
        spec_decode_elems(spec_encode_seq(elems, i, pos, f), pos, es, f) == Ok::<
            Seq<VariantView>,
            VariantError,
        >(elems.skip(i)),
    decreases elems.len() - i,
{
    let region = spec_encode_seq(elems, i, pos, f);
    if i == elems.len() {
        assert(region =~= Seq::<u8>::empty());
        assert(elems.skip(i) =~= Seq::<VariantView>::empty());
    } else {
        let e = spec_encode(elems[i], pos, f);
        let tail_enc = spec_encode_seq(elems, i + 1, pos + e.len(), f);
        assert(region =~= e + tail_enc);
        lemma_encode_len_pos(elems[i], pos, f);
        lemma_roundtrip_scalar(elems[i], pos, tail_enc, f);
        assert(spec_decode(region, pos, es, f) == Ok::<(VariantView, int), VariantError>(
            (elems[i], e.len() as int),
        ));
        assert(region.skip(e.len() as int) =~= tail_enc);
        lemma_roundtrip_scalar_elems(es, elems, i + 1, pos + e.len(), f);
        assert(seq![elems[i]] + elems.skip(i + 1) =~= elems.skip(i));
    }
}

/// Round trip for an array of basic elements: decoding the encoded array,
/// whatever follows it, gives back the elements and consumes exactly the
/// encoded length.
#[verifier::rlimit(100)]
pub proof fn lemma_roundtrip_scalar_array(
    es: Seq<char>,
    elems: Seq<VariantView>,
    pos: int,
    rest: Seq<u8>,
    f: EncodingFormat,
)
    requires
        pos >= 0,
        es.len() == 1,
        is_basic_char(es[0]),
        forall|j: int| 0 <= j < elems.len() ==> spec_is_scalar(#[trigger] elems[j]),
        forall|j: int| 0 <= j < elems.len() ==> spec_wf(#[trigger] elems[j]),
        forall|j: int| 0 <= j < elems.len() ==> spec_sig_of(#[trigger] elems[j]) == es,
        spec_fits(VariantView::Array(es, elems), pos, f),
    ensures
        spec_decode(
            spec_encode(VariantView::Array(es, elems), pos, f) + rest,
            pos,
            spec_sig_of(VariantView::Array(es, elems)),
            f,
        ) == Ok::<(VariantView, int), VariantError>(
            (
                VariantView::Array(es, elems),
                spec_encode(VariantView::Array(es, elems), pos, f).len() as int,
            ),
        ),
{
    reveal_with_fuel(pow256, 6);
    let v = VariantView::Array(es, elems);
    let sig = spec_sig_of(v);
    assert(sig == seq!['a'] + es);
    assert(sig[0] == 'a');
    assert(sig.skip(1) =~= es);
    let p = spec_pad(pos, 4);
    lemma_pad_aligns(pos, 4);
    let start0 = pos + p;
    let p2 = spec_pad(start0 + 4, spec_alignment(es[0], f));
    lemma_pad_aligns(start0 + 4, spec_alignment(es[0], f));
    let body = spec_encode_seq(elems, 0, start0 + 4 + p2, f);
    let enc = spec_encode(v, pos, f);
    lemma_le_len(body.len() as int, 4);
    assert(enc =~= zero_bytes(p) + (spec_le(body.len() as int, 4) + zero_bytes(p2) + body));
    assert(enc.len() == p + 4 + p2 + body.len());
    let bytes = enc + rest;
    assert(bytes.skip(p).subrange(0, 4) =~= spec_le(body.len() as int, 4));
    assert(spec_le(body.len() as int, 4).subrange(0, 4) =~= spec_le(body.len() as int, 4));
    lemma_read_le_prefix(bytes.skip(p), spec_le(body.len() as int, 4), 4);
    lemma_le_read(body.len() as int, 4);
    let start = p + 4 + p2;
    assert(bytes.subrange(start, start + body.len() as int) =~= body);
    lemma_roundtrip_scalar_elems(es, elems, 0, pos + start, f);
    assert(elems.skip(0) =~= elems);
    assert(spec_decode_array(bytes, pos, es, f) == Ok::<(VariantView, int), VariantError>(
        (v, start + body.len()),
    ));
    assert(spec_decode(bytes, pos, sig, f) == spec_decode_array(bytes, pos, sig.skip(1), f));
}

} // verus!
