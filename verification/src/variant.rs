//! The tagged sum over all D-Bus types, and the codec entry points that
//! encode, slice and decode values against the wire model.

use vstd::prelude::*;
use vstd::string::StrSliceExecFns;
use vstd::string::StringExecFns;
use vstd::utf8::{decode_utf8, valid_utf8};

use crate::error::VariantError;
use crate::format::EncodingFormat;
use crate::shared_data::SharedData;
use crate::signature::{is_basic, is_basic_char, lemma_slice_signature_bound, slice_signature,
    spec_slice_signature};
use crate::structure::Structure;
use crate::wire::{
    lemma_decode_consumes, lemma_le_len, lemma_pow256_pos, lemma_read_le_bound, pow256,
    spec_alignment, spec_decode, spec_decode_array, spec_decode_elems, spec_decode_fields,
    spec_decode_fixed, spec_decode_sig_str, spec_decode_str, spec_decode_variant, spec_encode,
    spec_encode_seq, spec_fits, spec_fits_seq, spec_le, spec_pad, spec_read_le, spec_sig_of,
    spec_sigs_of, spec_str_tail, spec_wf, zero_bytes, combine_elems,
    combine_fields, lemma_decode_fields_consumes, spec_decode_dict, spec_decode_struct,
    spec_is_scalar, VariantView,
};

verus! {

broadcast use vstd::std_specs::vec::axiom_vec_index_decreases;

/// A homogeneous list of values together with its element signature.
#[derive(Debug, PartialEq)]
pub struct ArrayValue {
    pub elem_signature: String,
    pub elements: Vec<Variant>,
}

/// A typed D-Bus value. A double is carried as its IEEE-754 binary64 bit
/// pattern, so the codec stays exact.
#[derive(Debug, PartialEq)]
pub enum Variant {
    Byte(u8),
    Boolean(bool),
    Int16(i16),
    Uint16(u16),
    Int32(i32),
    Uint32(u32),
    Int64(i64),
    Uint64(u64),
    Double(u64),
    Str(String),
    ObjectPath(String),
    Signature(String),
    Array(ArrayValue),
    Structure(Structure),
    DictEntry(Box<Variant>, Box<Variant>),
    Variant(Box<Variant>),
    UnixFd(u32),
}

/// The shapes of the values from index `i` on.
pub open spec fn views_of_seq(vs: Vec<Variant>, i: int) -> Seq<VariantView>
    decreases vs, vs@.len() - i + 1,
{
    if i < 0 || i >= vs@.len() {
        Seq::empty()
    } else {
        seq![vs[i]@] + views_of_seq(vs, i + 1)
    }
}

impl View for Variant {
    type V = VariantView;

    open spec fn view(&self) -> VariantView
        decreases self,
    {
        match self {
            Variant::Byte(b) => VariantView::Byte(*b),
            Variant::Boolean(x) => VariantView::Boolean(*x),
            Variant::Int16(x) => VariantView::Int16(*x),
            Variant::Uint16(x) => VariantView::Uint16(*x),
            Variant::Int32(x) => VariantView::Int32(*x),
            Variant::Uint32(x) => VariantView::Uint32(*x),
            Variant::Int64(x) => VariantView::Int64(*x),
            Variant::Uint64(x) => VariantView::Uint64(*x),
            Variant::Double(bits) => VariantView::Double(*bits),
            Variant::Str(s) => VariantView::Str(s@),
            Variant::ObjectPath(s) => VariantView::ObjectPath(s@),
            Variant::Signature(s) => VariantView::Signature(s@),
            Variant::Array(av) => VariantView::Array(
                av.elem_signature@,
                views_of_seq(av.elements, 0),
            ),
            Variant::Structure(st) => VariantView::Structure(st@),
            Variant::DictEntry(k, w) => VariantView::DictEntry(Box::new((**k)@), Box::new((**w)@)),
            Variant::Variant(b) => VariantView::Variant(Box::new((**b)@)),
            Variant::UnixFd(x) => VariantView::UnixFd(*x),
        }
    }
}

/// The shape list is as long as the value list, element for element.
pub proof fn lemma_views_of_seq(vs: Vec<Variant>, i: int)
    requires
        0 <= i <= vs@.len(),
    ensures
        views_of_seq(vs, i).len() == vs@.len() - i,
        forall|j: int|
            0 <= j < vs@.len() - i ==> #[trigger] views_of_seq(vs, i)[j] == vs@[i + j]@,
    decreases vs@.len() - i,
{
    if i < vs@.len() {
        lemma_views_of_seq(vs, i + 1);
        assert(views_of_seq(vs, i) == seq![vs[i]@] + views_of_seq(vs, i + 1));
        assert(views_of_seq(vs, i).len() == vs@.len() - i);
        assert forall|j: int| 0 <= j < vs@.len() - i implies #[trigger] views_of_seq(vs, i)[j]
            == vs@[i + j]@ by {
            if j == 0 {
                assert(views_of_seq(vs, i)[0] == vs[i]@);
            } else {
                assert(views_of_seq(vs, i)[j] == views_of_seq(vs, i + 1)[j - 1]);
            }
        }
    } else {
        assert(views_of_seq(vs, i) == Seq::<VariantView>::empty());
    }
}

/// Appending a value appends its shape.
pub proof fn lemma_views_push(a: Vec<Variant>, b: Vec<Variant>, x: Variant, i: int)
    requires
        b@ == a@.push(x),
        0 <= i <= a@.len(),
    ensures
        views_of_seq(b, i) == views_of_seq(a, i).push(x@),
{
    lemma_views_of_seq(a, i);
    lemma_views_of_seq(b, i);
    assert(b@[a@.len() as int] == x);
    assert forall|j: int| 0 <= j < a@.len() - i implies #[trigger] b@[i + j] == a@[i + j] by {
        assert(a@.push(x)[i + j] == a@[i + j]);
    }
    assert(views_of_seq(b, i) =~= views_of_seq(a, i).push(x@));
}

/// Computes alignment padding owed at `pos`.
pub fn pad_for(pos: usize, a: usize) -> (r: usize)
    requires
        1 <= a <= 8,
    ensures
        r as int == spec_pad(pos as int, a as int),
        r < a,
{
    let rem = pos % a;
    if rem == 0 {
        0
    } else {
        a - rem
    }
}

/// Alignment of the type a signature character introduces.
pub fn alignment_for(c: char, f: EncodingFormat) -> (r: usize)
    ensures
        r as int == spec_alignment(c, f),
        1 <= r <= 8,
{
    if c == 'y' || c == 'g' || c == 'v' {
        1
    } else if c == 'b' {
        match f {
            EncodingFormat::DBus => 4,
            EncodingFormat::GVariant => 1,
        }
    } else if c == 'n' || c == 'q' {
        2
    } else if c == 'i' || c == 'u' || c == 'h' || c == 's' || c == 'o' || c == 'a' {
        4
    } else {
        8
    }
}

/// Reads `n` little-endian bytes of the window starting at `off`.
pub fn read_le(data: &SharedData, off: usize, n: usize) -> (r: u64)
    requires
        data.wf(),
        off + n <= data@.len(),
        n <= 8,
    ensures
        r as int == spec_read_le(data@.skip(off as int), n as int),
        (r as int) < pow256(n as int),
        n == 4 ==> (r as int) < 0x1_0000_0000,
    decreases n,
{
    proof {
        data.lemma_len_bound();
        lemma_read_le_bound(data@.skip(off as int), n as int);
        if n == 4 {
            reveal_with_fuel(pow256, 6);
            assert(pow256(4) == 0x1_0000_0000);
        }
    }
    if n == 0 {
        0
    } else {
        let rest = read_le(data, off + 1, n - 1);
        proof {
            assert(data@.skip(off as int).skip(1) =~= data@.skip(off as int + 1));
            lemma_read_le_bound(data@.skip(off as int + 1), n as int - 1);
            lemma_pow256_pos(n as int - 1);
            assert(256 * spec_read_le(data@.skip(off as int + 1), n as int - 1) <= 256 * (pow256(
                n as int - 1,
            ) - 1)) by (nonlinear_arith)
                requires
                    spec_read_le(data@.skip(off as int + 1), n as int - 1) <= pow256(n as int - 1)
                        - 1,
            ;
            assert(256 * pow256(n as int - 1) == pow256(n as int));
            assert(pow256(8) == 0x1_0000_0000_0000_0000) by {
                reveal_with_fuel(pow256, 9);
            }
            assert(pow256(n as int) <= pow256(8)) by {
                if n < 8 {
                    lemma_pow256_mono(n as int, 8);
                }
            }
        }
        data.get(off) as u64 + 256 * rest
    }
}

/// 256 to the `n` grows with `n`.
pub proof fn lemma_pow256_mono(m: int, n: int)
    requires
        m <= n,
    ensures
        pow256(m) <= pow256(n),
    decreases n - m,
{
    if m < n {
        lemma_pow256_mono(m, n - 1);
        lemma_pow256_pos(n - 1);
    }
}

/// Relies on `String::from_utf8`: succeeds exactly on valid UTF-8, and the
/// returned string holds the decoded characters.
#[verifier::external_body]
fn string_from_utf8(bytes: Vec<u8>) -> (r: Option<String>)
    ensures
        match r {
            Some(s) => valid_utf8(bytes@) && s@ == decode_utf8(bytes@),
            None => !valid_utf8(bytes@),
        },
{
    String::from_utf8(bytes).ok()
}


/// Appends `n` zero bytes.
pub(crate) fn push_zeros(bytes: &mut Vec<u8>, n: usize)
    ensures
        final(bytes)@ == old(bytes)@ + zero_bytes(n as int),
{
    let mut i: usize = 0;
    loop
        invariant
            i <= n,
            bytes@ == old(bytes)@ + zero_bytes(i as int),
        decreases n - i,
    {
        if i >= n {
            proof {
                assert(bytes@ =~= old(bytes)@ + zero_bytes(n as int));
            }
            return ;
        }
        bytes.push(0u8);
        proof {
            assert(bytes@ =~= old(bytes)@ + zero_bytes(i as int + 1));
        }
        i = i + 1;
    }
}

/// Appends `x` as `n` little-endian bytes.
fn push_le(bytes: &mut Vec<u8>, x: u64, n: usize)
    ensures
        final(bytes)@ == old(bytes)@ + spec_le(x as int, n as int),
    decreases n,
{
    if n == 0 {
        proof {
            assert(bytes@ =~= old(bytes)@ + spec_le(x as int, 0int));
        }
    } else {
        bytes.push((x % 256) as u8);
        push_le(bytes, x / 256, n - 1);
        proof {
            assert(bytes@ =~= old(bytes)@ + spec_le(x as int, n as int));
        }
    }
}

/// Overwrites `n` bytes at `at` with `x` little-endian; the rest stays.
fn store_le_at(bytes: &mut Vec<u8>, at: usize, x: u64, n: usize)
    requires
        at + n <= old(bytes)@.len(),
    ensures
        final(bytes)@ == old(bytes)@.subrange(0, at as int) + spec_le(x as int, n as int) + old(
            bytes,
        )@.skip(at as int + n as int),
        final(bytes)@.len() == old(bytes)@.len(),
    decreases n,
{
    let total = bytes.len();
    proof {
        lemma_le_len(x as int, n as int);
    }
    if n == 0 {
        proof {
            assert(bytes@ =~= old(bytes)@.subrange(0, at as int) + spec_le(x as int, 0int) + old(
                bytes,
            )@.skip(at as int));
        }
    } else {
        let b0: u8 = (x % 256) as u8;
        bytes[at] = b0;
        let ghost mid = bytes@;
        store_le_at(bytes, at + 1, x / 256, n - 1);
        proof {
            lemma_le_len(x as int / 256, n as int - 1);
            assert(mid.subrange(0, at as int + 1) =~= old(bytes)@.subrange(0, at as int) + seq![
                b0,
            ]);
            assert(mid.skip(at as int + n as int) =~= old(bytes)@.skip(at as int + n as int));
            assert(bytes@ =~= old(bytes)@.subrange(0, at as int) + spec_le(x as int, n as int)
                + old(bytes)@.skip(at as int + n as int));
        }
    }
}

impl Variant {
    /// Produce the dynamic signature of this value.
    pub fn value_signature(&self) -> (r: String)
        ensures
            r@ == spec_sig_of(self@),
        decreases self,
    {
        match self {
            Variant::Byte(_) => {
                proof {
                    reveal_strlit("y");
                    assert("y"@ =~= seq!['y']);
                }
                String::from_str("y")
            },
            Variant::Boolean(_) => {
                proof {
                    reveal_strlit("b");
                    assert("b"@ =~= seq!['b']);
                }
                String::from_str("b")
            },
            Variant::Int16(_) => {
                proof {
                    reveal_strlit("n");
                    assert("n"@ =~= seq!['n']);
                }
                String::from_str("n")
            },
            Variant::Uint16(_) => {
                proof {
                    reveal_strlit("q");
                    assert("q"@ =~= seq!['q']);
                }
                String::from_str("q")
            },
            Variant::Int32(_) => {
                proof {
                    reveal_strlit("i");
                    assert("i"@ =~= seq!['i']);
                }
                String::from_str("i")
            },
            Variant::Uint32(_) => {
                proof {
                    reveal_strlit("u");
                    assert("u"@ =~= seq!['u']);
                }
                String::from_str("u")
            },
            Variant::Int64(_) => {
                proof {
                    reveal_strlit("x");
                    assert("x"@ =~= seq!['x']);
                }
                String::from_str("x")
            },
            Variant::Uint64(_) => {
                proof {
                    reveal_strlit("t");
                    assert("t"@ =~= seq!['t']);
                }
                String::from_str("t")
            },
            Variant::Double(_) => {
                proof {
                    reveal_strlit("d");
                    assert("d"@ =~= seq!['d']);
                }
                String::from_str("d")
            },
            Variant::Str(_) => {
                proof {
                    reveal_strlit("s");
                    assert("s"@ =~= seq!['s']);
                }
                String::from_str("s")
            },
            Variant::ObjectPath(_) => {
                proof {
                    reveal_strlit("o");
                    assert("o"@ =~= seq!['o']);
                }
                String::from_str("o")
            },
            Variant::Signature(_) => {
                proof {
                    reveal_strlit("g");
                    assert("g"@ =~= seq!['g']);
                }
                String::from_str("g")
            },
            Variant::UnixFd(_) => {
                proof {
                    reveal_strlit("h");
                    assert("h"@ =~= seq!['h']);
                }
                String::from_str("h")
            },
            Variant::Variant(_) => {
                proof {
                    reveal_strlit("v");
                    assert("v"@ =~= seq!['v']);
                }
                String::from_str("v")
            },
            Variant::Array(av) => {
                let mut r = String::from_str("a");
                r.append(av.elem_signature.as_str());
                proof {
                    reveal_strlit("a");
                    assert("a"@ =~= seq!['a']);
                    assert(r@ =~= seq!['a'] + av.elem_signature@);
                }
                r
            },
            Variant::Structure(st) => st.signature(),
            Variant::DictEntry(k, w) => {
                let mut r = String::from_str("{");
                let ks = k.value_signature();
                let ws = w.value_signature();
                r.append(ks.as_str());
                r.append(ws.as_str());
                r.append("}");
                proof {
                    reveal_strlit("{");
                    reveal_strlit("}");
                    assert("{"@ =~= seq!['{']);
                    assert("}"@ =~= seq!['}']);
                    assert(r@ =~= seq!['{'] + spec_sig_of((**k)@) + spec_sig_of((**w)@) + seq![
                        '}',
                    ]);
                }
                r
            },
        }
    }

    /// Appends a value of one of the scalar tags.
    #[verifier::rlimit(100)]
    fn encode_scalar_into(&self, bytes: &mut Vec<u8>, format: EncodingFormat)
        requires
            spec_is_scalar(self@),
            spec_wf(self@),
            spec_fits(self@, old(bytes)@.len() as int, format),
        ensures
            final(bytes)@ == old(bytes)@ + spec_encode(self@, old(bytes)@.len() as int, format),
    {
        let ghost pos = bytes@.len() as int;
        match self {
            Variant::Byte(b) => {
                bytes.push(*b);
                proof {
                    assert(bytes@ =~= old(bytes)@ + spec_encode(self@, pos, format));
                }
            },
            Variant::Boolean(x) => {
                let raw: u64 = if *x {
                    1
                } else {
                    0
                };
                match format {
                    EncodingFormat::DBus => {
                        let p = pad_for(bytes.len(), 4);
                        push_zeros(bytes, p);
                        push_le(bytes, raw, 4);
                    },
                    EncodingFormat::GVariant => {
                        push_le(bytes, raw, 1);
                    },
                }
                proof {
                    assert(bytes@ =~= old(bytes)@ + spec_encode(self@, pos, format));
                }
            },
            Variant::Int16(v) => {
                let p = pad_for(bytes.len(), 2);
                push_zeros(bytes, p);
                let u: u16 = #[verifier::truncate] (*v as u16);
                push_le(bytes, u as u64, 2);
                proof {
                    assert(bytes@ =~= old(bytes)@ + spec_encode(self@, pos, format));
                }
            },
            Variant::Uint16(v) => {
                let p = pad_for(bytes.len(), 2);
                push_zeros(bytes, p);
                push_le(bytes, *v as u64, 2);
                proof {
                    assert(bytes@ =~= old(bytes)@ + spec_encode(self@, pos, format));
                }
            },
            Variant::Int32(v) => {
                let p = pad_for(bytes.len(), 4);
                push_zeros(bytes, p);
                let u: u32 = #[verifier::truncate] (*v as u32);
                push_le(bytes, u as u64, 4);
                proof {
                    assert(bytes@ =~= old(bytes)@ + spec_encode(self@, pos, format));
                }
            },
            Variant::Uint32(v) => {
                let p = pad_for(bytes.len(), 4);
                push_zeros(bytes, p);
                push_le(bytes, *v as u64, 4);
                proof {
                    assert(bytes@ =~= old(bytes)@ + spec_encode(self@, pos, format));
                }
            },
            Variant::Int64(v) => {
                let p = pad_for(bytes.len(), 8);
                push_zeros(bytes, p);
                let u: u64 = #[verifier::truncate] (*v as u64);
                push_le(bytes, u, 8);
                proof {
                    assert(bytes@ =~= old(bytes)@ + spec_encode(self@, pos, format));
                }
            },
            Variant::Uint64(v) => {
                let p = pad_for(bytes.len(), 8);
                push_zeros(bytes, p);
                push_le(bytes, *v, 8);
                proof {
                    assert(bytes@ =~= old(bytes)@ + spec_encode(self@, pos, format));
                }
            },
            Variant::Double(bits) => {
                let p = pad_for(bytes.len(), 8);
                push_zeros(bytes, p);
                push_le(bytes, *bits, 8);
                proof {
                    assert(bytes@ =~= old(bytes)@ + spec_encode(self@, pos, format));
                }
            },
            Variant::Str(s) => {
                encode_string_payload(bytes, s.as_str(), 4, format);
                proof {
                    assert(bytes@ =~= old(bytes)@ + spec_encode(self@, pos, format));
                }
            },
            Variant::ObjectPath(s) => {
                encode_string_payload(bytes, s.as_str(), 4, format);
                proof {
                    assert(bytes@ =~= old(bytes)@ + spec_encode(self@, pos, format));
                }
            },
            Variant::Signature(s) => {
                encode_string_payload(bytes, s.as_str(), 1, format);
                proof {
                    assert(bytes@ =~= old(bytes)@ + spec_encode(self@, pos, format));
                }
            },
            Variant::UnixFd(v) => {
                let p = pad_for(bytes.len(), 4);
                push_zeros(bytes, p);
                push_le(bytes, *v as u64, 4);
                proof {
                    assert(bytes@ =~= old(bytes)@ + spec_encode(self@, pos, format));
                }
            },
            _ => {
                proof {
                    assert(false);
                }
            },
        }
    }

    /// Produce the dynamic signature of this value, for values whose shape
    /// varies.
    pub fn signature(&self) -> (r: String)
        ensures
            r@ == spec_sig_of(self@),
    {
        self.value_signature()
    }

    /// Append this value's alignment padding, then its payload.
    #[verifier::rlimit(100)]
    pub fn encode_value_into(&self, bytes: &mut Vec<u8>, format: EncodingFormat)
        requires
            spec_wf(self@),
            spec_fits(self@, old(bytes)@.len() as int, format),
        ensures
            final(bytes)@ == old(bytes)@ + spec_encode(self@, old(bytes)@.len() as int, format),
        decreases self,
    {
        let ghost pos = bytes@.len() as int;
        match self {
            Variant::Array(av) => {
                proof {
                    assert(self@ == array_view(*av));
                }
                encode_array_value(av, bytes, format);
                proof {
                    assert(bytes@ =~= old(bytes)@ + spec_encode(self@, pos, format));
                }
            },
            Variant::Structure(st) => {
                st.encode_into(bytes, format);
                proof {
                    assert(bytes@ =~= old(bytes)@ + spec_encode(self@, pos, format));
                }
            },
            Variant::DictEntry(k, w) => {
                let p = pad_for(bytes.len(), 8);
                push_zeros(bytes, p);
                k.encode_value_into(bytes, format);
                w.encode_value_into(bytes, format);
                proof {
                    assert(bytes@ =~= old(bytes)@ + spec_encode(self@, pos, format));
                }
            },
            Variant::Variant(inner) => {
                let sig = inner.value_signature();
                let mut sb = sig.as_str().as_bytes_vec();
                let slen = sb.len();
                push_le(bytes, slen as u64, 1);
                bytes.append(&mut sb);
                let wants_nul = match format {
                    EncodingFormat::DBus => true,
                    EncodingFormat::GVariant => false,
                };
                if wants_nul {
                    bytes.push(0u8);
                }
                proof {
                    let sbs = vstd::utf8::encode_utf8(spec_sig_of((**inner)@));
                    let nul: int = if format is DBus {
                        1
                    } else {
                        0
                    };
                    lemma_le_len(slen as int, 1);
                    assert(slen == sbs.len());
                    assert(bytes@.len() as int == pos + 1 + sbs.len() + nul);
                    assert(spec_fits((**inner)@, bytes@.len() as int, format));
                }
                inner.encode_value_into(bytes, format);
                proof {
                    assert(bytes@ =~= old(bytes)@ + spec_encode(self@, pos, format));
                }
            },
            _ => {
                self.encode_scalar_into(bytes, format);
            },
        }
    }

    /// The bytes of this value encoded from position zero.
    pub fn encode(&self, format: EncodingFormat) -> (r: Vec<u8>)
        requires
            spec_wf(self@),
            spec_fits(self@, 0, format),
        ensures
            r@ == spec_encode(self@, 0, format),
    {
        let mut bytes: Vec<u8> = Vec::new();
        self.encode_value_into(&mut bytes, format);
        proof {
            assert(bytes@ =~= spec_encode(self@, 0, format));
        }
        bytes
    }
}

/// Appends a string payload: its byte length in `lenw` bytes, the UTF-8
/// bytes, and, in the native format, a trailing NUL.
fn encode_string_payload(bytes: &mut Vec<u8>, s: &str, lenw: usize, fmt: EncodingFormat)
    requires
        lenw == 1 || lenw == 4,
    ensures
        final(bytes)@ == old(bytes)@ + spec_str_tail(old(bytes)@.len() as int, s@, lenw as int, fmt),
{
    let mut a: usize = 4;
    if lenw == 1 {
        a = 1;
    }
    let p = pad_for(bytes.len(), a);
    push_zeros(bytes, p);
    let mut b = s.as_bytes_vec();
    let blen = b.len();
    push_le(bytes, blen as u64, lenw);
    bytes.append(&mut b);
    let wants_nul = match fmt {
        EncodingFormat::DBus => true,
        EncodingFormat::GVariant => false,
    };
    if wants_nul {
        bytes.push(0u8);
    }
    proof {
        assert(bytes@ =~= old(bytes)@ + spec_str_tail(old(bytes)@.len() as int, s@, lenw as int, fmt));
    }
}


/// The shape of an array value.
pub open spec fn array_view(av: ArrayValue) -> VariantView {
    VariantView::Array(av.elem_signature@, views_of_seq(av.elements, 0))
}

/// Appends an array: padding, the element-byte count, padding to the
/// element type's alignment, then the elements.
#[verifier::loop_isolation(false)]
#[verifier::rlimit(100)]
fn encode_array_value(av: &ArrayValue, bytes: &mut Vec<u8>, format: EncodingFormat)
    requires
        spec_wf(array_view(*av)),
        spec_fits(array_view(*av), old(bytes)@.len() as int, format),
    ensures
        final(bytes)@ == old(bytes)@ + spec_encode(array_view(*av), old(bytes)@.len() as int, format),
    decreases av,
{
    let ghost pos = bytes@.len() as int;
                let ec = av.elem_signature.as_str().get_char(0);
                let a2 = alignment_for(ec, format);
                let p = pad_for(bytes.len(), 4);
                push_zeros(bytes, p);
                let idx0 = bytes.len();
                push_zeros(bytes, 4);
                let p2 = pad_for(bytes.len(), a2);
                push_zeros(bytes, p2);
                let body_start = bytes.len();
                let ghost vws = views_of_seq(av.elements, 0);
                let ghost pre = bytes@;
                proof {
                    lemma_views_of_seq(av.elements, 0);
                }
                let n = av.elements.len();
                let mut i: usize = 0;
                loop
                    invariant
                        i <= n,
                        bytes@.len() >= body_start,
                        bytes@.subrange(0, body_start as int) == pre,
                        spec_encode_seq(vws, 0, body_start as int, format) == bytes@.skip(
                            body_start as int,
                        ) + spec_encode_seq(vws, i as int, bytes@.len() as int, format),
                        spec_fits_seq(vws, i as int, bytes@.len() as int, format),
                    decreases n - i,
                {
                    if i >= n {
                        break ;
                    }
                    let ghost before = bytes@;
                    av.elements[i].encode_value_into(bytes, format);
                    proof {
                        assert(vws[i as int] == av.elements@[i as int]@);
                        assert(bytes@.subrange(0, body_start as int) =~= pre);
                        assert(bytes@.skip(body_start as int) =~= before.skip(body_start as int)
                            + spec_encode(vws[i as int], before.len() as int, format));
                    }
                    i = i + 1;
                }
                let body_len = bytes.len() - body_start;
                proof {
                    assert(spec_encode_seq(vws, n as int, bytes@.len() as int, format)
                        == Seq::<u8>::empty());
                    assert(spec_encode_seq(vws, 0, body_start as int, format) =~= bytes@.skip(
                        body_start as int,
                    ));
                    lemma_le_len(body_len as int, 4);
                }
                let ghost filled = bytes@;
                store_le_at(bytes, idx0, body_len as u64, 4);
                proof {
                    let body = spec_encode_seq(vws, 0, body_start as int, format);
                    assert(body_start == idx0 + 4 + p2);
                    assert(pre =~= old(bytes)@ + zero_bytes(p as int) + zero_bytes(4) + zero_bytes(
                        p2 as int,
                    ));
                    assert(filled =~= pre + body);
                    assert(filled.subrange(0, idx0 as int) =~= old(bytes)@ + zero_bytes(p as int));
                    assert(filled.skip(idx0 as int + 4) =~= zero_bytes(p2 as int) + body);
                    assert(bytes@ =~= old(bytes)@ + (zero_bytes(p as int) + (spec_le(
                        body_len as int,
                        4,
                    ) + zero_bytes(p2 as int) + body)));
                    assert(bytes@ =~= old(bytes)@ + spec_encode(array_view(*av), pos, format));
                }
            
}


/// How an executable decode relates to the wire model: the decoded value's
/// shape and its span on success, the owed error on failure.
pub open spec fn decode_result_matches(r: Result<(Variant, usize), VariantError>, sr: Result<
    (VariantView, int),
    VariantError,
>) -> bool {
    match sr {
        Ok((vv, l)) => r matches Ok(p) && p.0@ == vv && p.1 as int == l,
        Err(e) => r matches Err(e2) && e2 == e,
    }
}

/// Checks that `inner` is a concatenation of complete child signatures.
#[verifier::loop_isolation(false)]
pub fn check_children(inner: &str) -> (r: Result<(), VariantError>)
    ensures
        match crate::wire::spec_sig_children_ok(inner@) {
            Ok(u) => r is Ok,
            Err(e) => r matches Err(e2) && e2 == e,
        },
{
    let mut rem = inner;
    loop
        invariant
            crate::wire::spec_sig_children_ok(inner@) == crate::wire::spec_sig_children_ok(rem@),
        decreases rem@.len(),
    {
        let n = rem.unicode_len();
        if n == 0 {
            return Ok(());
        }
        match slice_signature(rem) {
            Err(e) => {
                return Err(e);
            },
            Ok(child) => {
                proof {
                    lemma_slice_signature_bound(rem@);
                }
                let clen = child.unicode_len();
                let next = rem.substring_char(clen, n);
                proof {
                    assert(next@ =~= rem@.skip(clen as int));
                }
                rem = next;
            },
        }
    }
}

/// Decodes a string or object path.
#[verifier::rlimit(100)]
fn decode_str_value(data: &SharedData, c: char, format: EncodingFormat) -> (r: Result<
    (Variant, usize),
    VariantError,
>)
    requires
        data.wf(),
        c == 's' || c == 'o',
    ensures
        decode_result_matches(r, spec_decode_str(data@, data.spec_position(), c, format)),
{
    proof {
        data.lemma_len_bound();
    }
    let pos = data.position();
    let dlen = data.len();
    let p = pad_for(pos, 4);
    if dlen < p + 4 {
        return Err(VariantError::InsufficientData);
    }
    let l64 = read_le(data, p, 4);
    let nul: u64 = match format {
        EncodingFormat::DBus => 1,
        EncodingFormat::GVariant => 0,
    };
    if (dlen as u64) < p as u64 + 4 + l64 + nul {
        return Err(VariantError::InsufficientData);
    }
    let l = l64 as usize;
    let payload = data.range_vec(p + 4, p + 4 + l);
    match string_from_utf8(payload) {
        None => Err(VariantError::InvalidUtf8),
        Some(text) => {
            let v: Variant = if c == 's' {
                Variant::Str(text)
            } else {
                Variant::ObjectPath(text)
            };
            Ok((v, p + 4 + l + nul as usize))
        },
    }
}

/// Decodes a signature string.
#[verifier::rlimit(100)]
fn decode_sig_value(data: &SharedData, format: EncodingFormat) -> (r: Result<
    (Variant, usize),
    VariantError,
>)
    requires
        data.wf(),
    ensures
        decode_result_matches(r, spec_decode_sig_str(data@, format)),
{
    proof {
        data.lemma_len_bound();
    }
    let dlen = data.len();
    if dlen < 1 {
        return Err(VariantError::InsufficientData);
    }
    let l = data.get(0) as usize;
    let nul: usize = match format {
        EncodingFormat::DBus => 1,
        EncodingFormat::GVariant => 0,
    };
    if dlen < 1 + l + nul {
        return Err(VariantError::InsufficientData);
    }
    let payload = data.range_vec(1, 1 + l);
    match string_from_utf8(payload) {
        None => Err(VariantError::InvalidUtf8),
        Some(text) => Ok((Variant::Signature(text), 1 + l + nul)),
    }
}

/// Decodes a variant: the signature string, then the value it describes.
#[verifier::rlimit(100)]
fn decode_variant_value(data: &SharedData, format: EncodingFormat) -> (r: Result<
    (Variant, usize),
    VariantError,
>)
    requires
        data.wf(),
    ensures
        decode_result_matches(r, spec_decode_variant(data@, data.spec_position(), format)),
    decreases data@.len(), 0int, 0int,
{
    proof {
        data.lemma_len_bound();
    }
    let dlen = data.len();
    if dlen < 1 {
        return Err(VariantError::InsufficientData);
    }
    let l = data.get(0) as usize;
    let nul: usize = match format {
        EncodingFormat::DBus => 1,
        EncodingFormat::GVariant => 0,
    };
    let head = 1 + l + nul;
    if dlen < head {
        return Err(VariantError::InsufficientData);
    }
    let payload = data.range_vec(1, 1 + l);
    match string_from_utf8(payload) {
        None => Err(VariantError::InvalidUtf8),
        Some(isig) => {
            let itotal = isig.as_str().unicode_len();
            let complete = match slice_signature(isig.as_str()) {
                Err(_) => false,
                Ok(prefix) => {
                    proof {
                        lemma_slice_signature_bound(isig@);
                    }
                    prefix.unicode_len() == itotal && itotal >= 1
                },
            };
            if !complete {
                return Err(VariantError::IncorrectType);
            }
            let tail = data.tail(head);
            match decode_value(&tail, isig.as_str(), format) {
                Err(e) => Err(e),
                Ok((v2, l2)) => {
                    proof {
                        lemma_decode_consumes(tail@, tail.spec_position(), isig@, format);
                    }
                    Ok((Variant::Variant(Box::new(v2)), head + l2))
                },
            }
        },
    }
}

/// Decodes an array: the element-byte count, padding to the element type's
/// alignment, then the elements filling the counted bytes exactly.
#[verifier::rlimit(100)]
fn decode_array_value(data: &SharedData, elem_sig: &str, format: EncodingFormat) -> (r: Result<
    (Variant, usize),
    VariantError,
>)
    requires
        data.wf(),
    ensures
        decode_result_matches(
            r,
            spec_decode_array(data@, data.spec_position(), elem_sig@, format),
        ),
    decreases data@.len(), elem_sig@.len() + 1, 0int,
{
    proof {
        data.lemma_len_bound();
    }
    let elen = elem_sig.unicode_len();
    if elen == 0 {
        return Err(VariantError::InsufficientData);
    }
    let ec = elem_sig.get_char(0);
    let pos = data.position();
    let dlen = data.len();
    let p = pad_for(pos, 4);
    if dlen < p + 4 {
        return Err(VariantError::InsufficientData);
    }
    let l64 = read_le(data, p, 4);
    let a2 = alignment_for(ec, format);
    let p2 = pad_for(pos + p + 4, a2);
    let start = p + 4 + p2;
    if (dlen as u64) < start as u64 + l64 {
        return Err(VariantError::InsufficientData);
    }
    let l = l64 as usize;
    let whole_tail = data.tail(start);
    let region = whole_tail.head(l);
    proof {
        assert(region@ =~= data@.subrange(start as int, start as int + l as int));
    }
    match decode_elems(&region, elem_sig, format) {
        Err(e) => Err(e),
        Ok(elements) => {
            let av = ArrayValue { elem_signature: String::from_str(elem_sig), elements };
            Ok((Variant::Array(av), start + l))
        },
    }
}

/// Decodes one value of the given complete signature from the start of the
/// window; also returns how many bytes it spanned.
#[verifier::loop_isolation(false)]
#[verifier::rlimit(100)]
pub fn decode_value(data: &SharedData, signature: &str, format: EncodingFormat) -> (r: Result<
    (Variant, usize),
    VariantError,
>)
    requires
        data.wf(),
    ensures
        decode_result_matches(r, spec_decode(data@, data.spec_position(), signature@, format)),
    decreases data@.len(), signature@.len(), 1int,
{
    proof {
        data.lemma_len_bound();
    }
    let slen = signature.unicode_len();
    if slen == 0 {
        return Err(VariantError::InsufficientData);
    }
    let c = signature.get_char(0);
    let pos = data.position();
    let dlen = data.len();
    if is_basic(c) && c != 's' && c != 'o' && c != 'g' {
        let a = alignment_for(c, format);
        let w: usize = if c == 'y' {
            1
        } else if c == 'b' {
            match format {
                EncodingFormat::DBus => 4,
                EncodingFormat::GVariant => 1,
            }
        } else if c == 'n' || c == 'q' {
            2
        } else if c == 'i' || c == 'u' || c == 'h' {
            4
        } else {
            8
        };
        let p = pad_for(pos, a);
        if dlen < p + w {
            return Err(VariantError::InsufficientData);
        }
        let raw = read_le(data, p, w);
        let v: Variant = if c == 'y' {
            Variant::Byte(raw as u8)
        } else if c == 'b' {
            Variant::Boolean(raw != 0)
        } else if c == 'n' {
            Variant::Int16(#[verifier::truncate] ((raw as u16) as i16))
        } else if c == 'q' {
            Variant::Uint16(raw as u16)
        } else if c == 'i' {
            Variant::Int32(#[verifier::truncate] ((raw as u32) as i32))
        } else if c == 'u' {
            Variant::Uint32(raw as u32)
        } else if c == 'h' {
            Variant::UnixFd(raw as u32)
        } else if c == 'x' {
            Variant::Int64(#[verifier::truncate] (raw as i64))
        } else if c == 't' {
            Variant::Uint64(raw)
        } else {
            Variant::Double(raw)
        };
        return Ok((v, p + w));
    } else if c == 's' || c == 'o' {
        return decode_str_value(data, c, format);
    } else if c == 'g' {
        return decode_sig_value(data, format);
    } else if c == 'v' {
        return decode_variant_value(data, format);
    } else if c == 'a' {
        let elem_sig = signature.substring_char(1, slen);
        proof {
            assert(elem_sig@ =~= signature@.skip(1));
        }
        return decode_array_value(data, elem_sig, format);
    } else if c == '(' {
        return decode_struct_value(data, signature, format);
    } else if c == '{' {
        return decode_dict_value(data, signature, format);
    } else {
        return Err(VariantError::IncorrectType);
    }
}

/// Decodes a structure: padding to eight, then the fields of the inner
/// signature.
#[verifier::rlimit(100)]
fn decode_struct_value(data: &SharedData, signature: &str, format: EncodingFormat) -> (r: Result<
    (Variant, usize),
    VariantError,
>)
    requires
        data.wf(),
        signature@.len() >= 1,
        signature@[0] == '(',
    ensures
        decode_result_matches(
            r,
            spec_decode_struct(data@, data.spec_position(), signature@, format),
        ),
    decreases data@.len(), signature@.len(), 0int,
{
    proof {
        data.lemma_len_bound();
    }
    let slen = signature.unicode_len();
    let pos = data.position();
    let dlen = data.len();
    let p = pad_for(pos, 8);
    if dlen < p || slen < 3 {
        return Err(VariantError::InsufficientData);
    }
    if signature.get_char(slen - 1) != ')' {
        return Err(VariantError::IncorrectType);
    }
    let inner_str = signature.substring_char(1, slen - 1);
    match check_children(inner_str) {
        Err(e) => {
            return Err(e);
        },
        Ok(_) => {},
    }
    let tail = data.tail(p);
    match decode_fields(&tail, inner_str, format) {
        Err(e) => Err(e),
        Ok((fields, l)) => {
            proof {
                lemma_decode_fields_consumes(tail@, tail.spec_position(), inner_str@, format);
            }
            Ok((Variant::Structure(Structure::from_fields(fields)), p + l))
        },
    }
}

/// Decodes a dict entry: padding to eight, a basic key, then the value.
#[verifier::rlimit(100)]
fn decode_dict_value(data: &SharedData, signature: &str, format: EncodingFormat) -> (r: Result<
    (Variant, usize),
    VariantError,
>)
    requires
        data.wf(),
        signature@.len() >= 1,
        signature@[0] == '{',
    ensures
        decode_result_matches(
            r,
            spec_decode_dict(data@, data.spec_position(), signature@, format),
        ),
    decreases data@.len(), signature@.len(), 0int,
{
    proof {
        data.lemma_len_bound();
    }
    let slen = signature.unicode_len();
    let pos = data.position();
    let dlen = data.len();
    let p = pad_for(pos, 8);
    if dlen < p || slen < 4 {
        return Err(VariantError::InsufficientData);
    }
    if signature.get_char(slen - 1) != '}' {
        return Err(VariantError::IncorrectType);
    }
    let ghost inner = signature@.subrange(1, slen as int - 1);
    let kc = signature.get_char(1);
    if !is_basic(kc) {
        proof {
            assert(inner[0] == signature@[1]);
        }
        return Err(VariantError::IncorrectType);
    }
    let vsig = signature.substring_char(2, slen - 1);
    proof {
        assert(inner[0] == signature@[1]);
        assert(vsig@ =~= inner.skip(1));
    }
    let vtotal = vsig.unicode_len();
    match slice_signature(vsig) {
        Err(e) => {
            return Err(e);
        },
        Ok(prefix) => {
            proof {
                lemma_slice_signature_bound(vsig@);
            }
            if prefix.unicode_len() != vtotal {
                return Err(VariantError::IncorrectType);
            }
        },
    }
    let ksig = signature.substring_char(1, 2);
    proof {
        assert(ksig@ =~= inner.subrange(0, 1));
    }
    let taila = data.tail(p);
    match decode_value(&taila, ksig, format) {
        Err(e) => Err(e),
        Ok((kv, kl)) => {
            proof {
                lemma_decode_consumes(taila@, taila.spec_position(), ksig@, format);
            }
            let tailb = data.tail(p + kl);
            match decode_value(&tailb, vsig, format) {
                Err(e) => Err(e),
                Ok((wv, wl)) => {
                    proof {
                        lemma_decode_consumes(tailb@, tailb.spec_position(), vsig@, format);
                    }
                    Ok((Variant::DictEntry(Box::new(kv), Box::new(wv)), p + kl + wl))
                },
            }
        },
    }
}


/// Decodes the elements that fill the region exactly.
#[verifier::loop_isolation(false)]
#[verifier::rlimit(100)]
fn decode_elems(region: &SharedData, elem_sig: &str, format: EncodingFormat) -> (r: Result<
    Vec<Variant>,
    VariantError,
>)
    requires
        region.wf(),
    ensures
        match spec_decode_elems(region@, region.spec_position(), elem_sig@, format) {
            Ok(vs) => r matches Ok(vec) && views_of_seq(vec, 0) == vs,
            Err(e) => r matches Err(e2) && e2 == e,
        },
    decreases region@.len(), elem_sig@.len(), 2int,
{
    let mut out: Vec<Variant> = Vec::new();
    let mut rem = region.tail(0);
    proof {
        assert(rem@ =~= region@);
        lemma_views_of_seq(out, 0);
        assert(views_of_seq(out, 0) =~= Seq::<VariantView>::empty());
    }
    loop
        invariant
            rem.wf(),
            rem@.len() <= region@.len(),
            spec_decode_elems(region@, region.spec_position(), elem_sig@, format) == combine_elems(
                views_of_seq(out, 0),
                spec_decode_elems(rem@, rem.spec_position(), elem_sig@, format),
            ),
        decreases rem@.len(),
    {
        let rlen = rem.len();
        if rlen == 0 {
            proof {
                assert(spec_decode_elems(rem@, rem.spec_position(), elem_sig@, format)
                    == Ok::<Seq<VariantView>, VariantError>(Seq::empty()));
                assert(views_of_seq(out, 0) + Seq::<VariantView>::empty() =~= views_of_seq(
                    out,
                    0,
                ));
            }
            return Ok(out);
        }
        match decode_value(&rem, elem_sig, format) {
            Err(e) => {
                return Err(e);
            },
            Ok((v, l)) => {
                proof {
                    lemma_decode_consumes(rem@, rem.spec_position(), elem_sig@, format);
                }
                let ghost pre_out = out;
                let ghost pre_rem = rem;
                out.push(v);
                let next = rem.tail(l);
                proof {
                    lemma_views_push(pre_out, out, v, 0);
                    assert(spec_decode_elems(
                        pre_rem@,
                        pre_rem.spec_position(),
                        elem_sig@,
                        format,
                    ) == combine_elems(
                        seq![v@],
                        spec_decode_elems(next@, next.spec_position(), elem_sig@, format),
                    ));
                    assert(views_of_seq(out, 0) =~= views_of_seq(pre_out, 0) + seq![v@]);
                    match spec_decode_elems(next@, next.spec_position(), elem_sig@, format) {
                        Ok(vs) => {
                            assert(views_of_seq(pre_out, 0) + (seq![v@] + vs) =~= views_of_seq(
                                out,
                                0,
                            ) + vs);
                        },
                        Err(_) => {},
                    }
                }
                rem = next;
            },
        }
    }
}

/// Decodes the children of `inner_sig` laid out one after another; also
/// returns how many bytes they spanned together.
#[verifier::loop_isolation(false)]
#[verifier::rlimit(100)]
pub(crate) fn decode_fields(data: &SharedData, inner_sig: &str, format: EncodingFormat) -> (r: Result<
    (Vec<Variant>, usize),
    VariantError,
>)
    requires
        data.wf(),
    ensures
        match spec_decode_fields(data@, data.spec_position(), inner_sig@, format) {
            Ok((vs, l)) => r matches Ok(p) && views_of_seq(p.0, 0) == vs && p.1 as int == l,
            Err(e) => r matches Err(e2) && e2 == e,
        },
    decreases data@.len(), inner_sig@.len(), 2int,
{
    proof {
        data.lemma_len_bound();
    }
    let mut out: Vec<Variant> = Vec::new();
    let mut consumed: usize = 0;
    let mut rem_sig = inner_sig;
    let mut cursor = data.tail(0);
    proof {
        assert(cursor@ =~= data@);
        lemma_views_of_seq(out, 0);
        assert(views_of_seq(out, 0) =~= Seq::<VariantView>::empty());
    }
    loop
        invariant
            cursor.wf(),
            consumed <= data@.len(),
            rem_sig@.len() <= inner_sig@.len(),
            cursor@ == data@.skip(consumed as int),
            cursor.spec_position() == data.spec_position() + consumed,
            spec_decode_fields(data@, data.spec_position(), inner_sig@, format) == combine_fields(
                views_of_seq(out, 0),
                consumed as int,
                spec_decode_fields(cursor@, cursor.spec_position(), rem_sig@, format),
            ),
        decreases rem_sig@.len(),
    {
        let n = rem_sig.unicode_len();
        if n == 0 {
            proof {
                assert(views_of_seq(out, 0) + Seq::<VariantView>::empty() =~= views_of_seq(
                    out,
                    0,
                ));
            }
            return Ok((out, consumed));
        }
        match slice_signature(rem_sig) {
            Err(e) => {
                return Err(e);
            },
            Ok(child) => {
                proof {
                    lemma_slice_signature_bound(rem_sig@);
                }
                match decode_value(&cursor, child, format) {
                    Err(e) => {
                        return Err(e);
                    },
                    Ok((v, l)) => {
                        proof {
                            lemma_decode_consumes(cursor@, cursor.spec_position(), child@, format);
                        }
                        let ghost pre_out = out;
                        let ghost pre_cursor = cursor;
                        let ghost pre_consumed = consumed;
                        out.push(v);
                        let next_cursor = cursor.tail(l);
                        let clen = child.unicode_len();
                        let next_sig = rem_sig.substring_char(clen, n);
                        proof {
                            lemma_views_push(pre_out, out, v, 0);
                            assert(next_sig@ =~= rem_sig@.skip(clen as int));
                            assert(next_cursor@ =~= data@.skip(pre_consumed as int + l as int));
                            assert(spec_decode_fields(
                                pre_cursor@,
                                pre_cursor.spec_position(),
                                rem_sig@,
                                format,
                            ) == combine_fields(
                                seq![v@],
                                l as int,
                                spec_decode_fields(
                                    next_cursor@,
                                    next_cursor.spec_position(),
                                    next_sig@,
                                    format,
                                ),
                            ));
                            assert(views_of_seq(out, 0) =~= views_of_seq(pre_out, 0) + seq![v@]);
                            match spec_decode_fields(
                                next_cursor@,
                                next_cursor.spec_position(),
                                next_sig@,
                                format,
                            ) {
                                Ok((vs, l2)) => {
                                    assert(views_of_seq(pre_out, 0) + (seq![v@] + vs)
                                        =~= views_of_seq(out, 0) + vs);
                                },
                                Err(_) => {},
                            }
                        }
                        consumed = consumed + l;
                        cursor = next_cursor;
                        rem_sig = next_sig;
                    },
                }
            },
        }
    }
}

impl Variant {
    /// Parse one value of the given signature from the window.
    pub fn from_data(data: &SharedData, signature: &str, format: EncodingFormat) -> (r: Result<
        Variant,
        VariantError,
    >)
        requires
            data.wf(),
        ensures
            match spec_decode(data@, data.spec_position(), signature@, format) {
                Ok((vv, l)) => r matches Ok(v) && v@ == vv,
                Err(e) => r matches Err(e2) && e2 == e,
            },
    {
        match decode_value(data, signature, format) {
            Ok((v, _)) => Ok(v),
            Err(e) => Err(e),
        }
    }
}

/// The sub-view covering exactly the serialized form of one value of the
/// given signature, starting at the window's position.
pub fn slice_data(data: &SharedData, signature: &str, format: EncodingFormat) -> (r: Result<
    SharedData,
    VariantError,
>)
    requires
        data.wf(),
    ensures
        match spec_decode(data@, data.spec_position(), signature@, format) {
            Ok((vv, l)) => r matches Ok(s) && s.wf() && s@ == data@.subrange(0, l)
                && s.spec_position() == data.spec_position(),
            Err(e) => r matches Err(e2) && e2 == e,
        },
{
    match decode_value(data, signature, format) {
        Ok((_, l)) => {
            proof {
                lemma_decode_consumes(data@, data.spec_position(), signature@, format);
            }
            Ok(data.head(l))
        },
        Err(e) => Err(e),
    }
}

} // verus!
