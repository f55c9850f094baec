//! Container of heterogeneous fields with signature `(...)`.

use vstd::prelude::*;
use vstd::string::StrSliceExecFns;
use vstd::string::StringExecFns;

use crate::error::VariantError;
use crate::format::EncodingFormat;
use crate::shared_data::SharedData;
use crate::variant::{check_children, decode_value, lemma_views_of_seq, lemma_views_push,
    views_of_seq, Variant};
use crate::wire::{
    spec_decode_fields, spec_decode_struct, spec_encode,
    spec_encode_seq, spec_fits, spec_fits_seq, spec_pad, spec_sig_children_ok, spec_sig_of,
    spec_sigs_of, spec_wf, zero_bytes, VariantView,
};

verus! {

broadcast use vstd::std_specs::vec::axiom_vec_index_decreases;

/// An ordered list of fields; the signature is `(` followed by each field's
/// signature, then `)`.
#[derive(Debug, PartialEq)]
pub struct Structure {
    fields: Vec<Variant>,
}

impl View for Structure {
    type V = Seq<VariantView>;

    closed spec fn view(&self) -> Seq<VariantView>
        decreases self,
    {
        views_of_seq(self.fields, 0)
    }
}

impl Structure {
    /// An empty structure; fields are added one at a time.
    pub fn new() -> (r: Structure)
        ensures
            r@ == Seq::<VariantView>::empty(),
    {
        let r = Structure { fields: Vec::new() };
        proof {
            lemma_views_of_seq(r.fields, 0);
            assert(r@ =~= Seq::<VariantView>::empty());
        }
        r
    }

    /// Appends one field.
    pub fn add_field(self, field: Variant) -> (r: Structure)
        ensures
            r@ == self@.push(field@),
    {
        let ghost old_fields = self.fields;
        let mut fields = self.fields;
        fields.push(field);
        let r = Structure { fields };
        proof {
            lemma_views_push(old_fields, r.fields, field, 0);
        }
        r
    }

    /// Gives the fields away.
    pub fn take_fields(self) -> (r: Vec<Variant>)
        ensures
            views_of_seq(r, 0) == self@,
            r@.len() == self@.len(),
    {
        proof {
            lemma_views_of_seq(self.fields, 0);
        }
        self.fields
    }

    /// Borrows the fields.
    pub fn fields(&self) -> (r: &[Variant])
        ensures
            r@.len() == self@.len(),
            forall|i: int| 0 <= i < r@.len() ==> #[trigger] r@[i]@ == self@[i],
    {
        proof {
            lemma_views_of_seq(self.fields, 0);
        }
        self.fields.as_slice()
    }

    /// Produce the signature: `(`, each field's signature, `)`.
    #[verifier::loop_isolation(false)]
    pub fn signature(&self) -> (r: String)
        ensures
            r@ == spec_sig_of(VariantView::Structure(self@)),
        decreases self,
    {
        let mut s = String::from_str("(");
        proof {
            reveal_strlit("(");
            reveal_strlit(")");
            assert("("@ =~= seq!['(']);
            assert(")"@ =~= seq![')']);
            lemma_views_of_seq(self.fields, 0);
        }
        let n = self.fields.len();
        let mut i: usize = 0;
        loop
            invariant
                i <= n,
                seq!['('] + spec_sigs_of(self@, 0) == s@ + spec_sigs_of(self@, i as int),
            decreases n - i,
        {
            if i >= n {
                break ;
            }
            let fs = self.fields[i].value_signature();
            s.append(fs.as_str());
            proof {
                assert(self@[i as int] == self.fields@[i as int]@);
                assert(spec_sigs_of(self@, i as int) == spec_sig_of(self@[i as int])
                    + spec_sigs_of(self@, i as int + 1));
            }
            i = i + 1;
        }
        proof {
            assert(spec_sigs_of(self@, n as int) =~= Seq::<char>::empty());
            assert(s@ =~= seq!['('] + spec_sigs_of(self@, 0));
        }
        s.append(")");
        proof {
            assert(s@ =~= seq!['('] + spec_sigs_of(self@, 0) + seq![')']);
        }
        s
    }

    /// Align to eight, then emit each field's value in declaration order.
    #[verifier::loop_isolation(false)]
    pub fn encode_into(&self, bytes: &mut Vec<u8>, format: EncodingFormat)
        requires
            spec_wf(VariantView::Structure(self@)),
            spec_fits(VariantView::Structure(self@), old(bytes)@.len() as int, format),
        ensures
            final(bytes)@ == old(bytes)@ + spec_encode(
                VariantView::Structure(self@),
                old(bytes)@.len() as int,
                format,
            ),
        decreases self,
    {
        let ghost pos = bytes@.len() as int;
        let p = crate::variant::pad_for(bytes.len(), 8);
        crate::variant::push_zeros(bytes, p);
        let ghost start = bytes@.len() as int;
        proof {
            lemma_views_of_seq(self.fields, 0);
        }
        let n = self.fields.len();
        let mut i: usize = 0;
        loop
            invariant
                i <= n,
                bytes@.len() >= start,
                bytes@.subrange(0, start as int) == old(bytes)@ + zero_bytes(p as int),
                spec_encode_seq(self@, 0, start, format) == bytes@.skip(start) + spec_encode_seq(
                    self@,
                    i as int,
                    bytes@.len() as int,
                    format,
                ),
                spec_fits_seq(self@, i as int, bytes@.len() as int, format),
            decreases n - i,
        {
            if i >= n {
                break ;
            }
            let ghost before = bytes@;
            self.fields[i].encode_value_into(bytes, format);
            proof {
                assert(self@[i as int] == self.fields@[i as int]@);
                assert(bytes@.subrange(0, start as int) =~= old(bytes)@ + zero_bytes(p as int));
                assert(bytes@.skip(start) =~= before.skip(start) + spec_encode(
                    self@[i as int],
                    before.len() as int,
                    format,
                ));
            }
            i = i + 1;
        }
        proof {
            assert(spec_encode_seq(self@, n as int, bytes@.len() as int, format)
                =~= Seq::<u8>::empty());
            assert(spec_encode_seq(self@, 0, start, format) =~= bytes@.skip(start));
            assert(bytes@ =~= bytes@.subrange(0, start) + bytes@.skip(start));
            assert(bytes@ =~= old(bytes)@ + spec_encode(
                VariantView::Structure(self@),
                pos,
                format,
            ));
        }
    }

    /// The leading signature marker; the unused `r` is deliberately
    /// avoided in favour of the opening parenthesis.
    pub fn signature_char() -> (r: char)
        ensures
            r == '(',
    {
        '('
    }

    /// The leading signature marker as a string.
    pub fn signature_str() -> (r: &'static str)
        ensures
            r@ == seq!['('],
    {
        proof {
            reveal_strlit("(");
            assert("("@ =~= seq!['(']);
        }
        "("
    }

    /// Structures are eight-aligned regardless of content.
    pub fn alignment() -> (r: usize)
        ensures
            r == 8,
    {
        8
    }

    /// Return the sub-view covering exactly one serialized structure of the
    /// declared signature.
    pub fn slice_data(data: &SharedData, signature: &str, format: EncodingFormat) -> (r: Result<
        SharedData,
        VariantError,
    >)
        requires
            data.wf(),
        ensures
            signature@.len() >= 1 && signature@[0] == '(' ==> (match spec_decode_struct(
                data@,
                data.spec_position(),
                signature@,
                format,
            ) {
                Ok((vv, l)) => r matches Ok(s) && s.wf() && s@ == data@.subrange(0, l)
                    && s.spec_position() == data.spec_position(),
                Err(e) => r matches Err(e2) && e2 == e,
            }),
            !(signature@.len() >= 1 && signature@[0] == '(') ==> r == Err::<
                SharedData,
                VariantError,
            >(VariantError::IncorrectType),
    {
        if signature.unicode_len() == 0 || signature.get_char(0) != '(' {
            return Err(VariantError::IncorrectType);
        }
        crate::variant::slice_data(data, signature, format)
    }

    /// Parse one structure of the declared signature.
    pub fn decode(data: &SharedData, signature: &str, format: EncodingFormat) -> (r: Result<
        Structure,
        VariantError,
    >)
        requires
            data.wf(),
        ensures
            signature@.len() >= 1 && signature@[0] == '(' ==> (match spec_decode_struct(
                data@,
                data.spec_position(),
                signature@,
                format,
            ) {
                Ok((vv, l)) => r matches Ok(st) && VariantView::Structure(st@) == vv,
                Err(e) => r matches Err(e2) && e2 == e,
            }),
            !(signature@.len() >= 1 && signature@[0] == '(') ==> r == Err::<
                Structure,
                VariantError,
            >(VariantError::IncorrectType),
    {
        if signature.unicode_len() == 0 || signature.get_char(0) != '(' {
            return Err(VariantError::IncorrectType);
        }
        match decode_value(data, signature, format) {
            Err(e) => Err(e),
            Ok((v, l)) => {
                match v {
                    Variant::Structure(st) => Ok(st),
                    _ => {
                        proof {
                            assert(false);
                        }
                        Err(VariantError::IncorrectType)
                    },
                }
            },
        }
    }

    /// Returns `IncorrectType` unless the signature is a parenthesised list
    /// of well-formed child signatures.
    pub fn ensure_correct_signature(signature: &str) -> (r: Result<(), VariantError>)
        ensures
            signature@.len() >= 2 && signature@[0] == '(' && signature@[signature@.len() - 1]
                == ')' ==> (match spec_sig_children_ok(
                signature@.subrange(1, signature@.len() - 1),
            ) {
                Ok(u) => r is Ok,
                Err(e) => r matches Err(e2) && e2 == e,
            }),
            !(signature@.len() >= 2 && signature@[0] == '(' && signature@[signature@.len() - 1]
                == ')') ==> r == Err::<(), VariantError>(VariantError::IncorrectType),
    {
        let n = signature.unicode_len();
        if n < 2 || signature.get_char(0) != '(' || signature.get_char(n - 1) != ')' {
            return Err(VariantError::IncorrectType);
        }
        let inner = signature.substring_char(1, n - 1);
        check_children(inner)
    }

    /// Scan the longest prefix that is one parenthesis group.
    pub fn slice_signature<'a>(signature: &'a str) -> (r: Result<&'a str, VariantError>)
        ensures
            signature@.len() >= 1 && signature@[0] == '(' ==> (match
                crate::signature::spec_slice_signature(signature@) {
                Ok(m) => r matches Ok(p) && p@ == signature@.subrange(0, m),
                Err(e) => r matches Err(e2) && e2 == e,
            }),
            !(signature@.len() >= 1 && signature@[0] == '(') ==> r == Err::<
                &'a str,
                VariantError,
            >(VariantError::IncorrectType),
    {
        if signature.unicode_len() == 0 || signature.get_char(0) != '(' {
            return Err(VariantError::IncorrectType);
        }
        crate::signature::slice_signature(signature)
    }

    /// Whether the variant carries a structure.
    pub fn is(variant: &Variant) -> (r: bool)
        ensures
            r == (variant@ is Structure),
    {
        match variant {
            Variant::Structure(_) => true,
            _ => false,
        }
    }

    /// Takes the structure out of a variant.
    pub fn take_from_variant(variant: Variant) -> (r: Result<Structure, VariantError>)
        ensures
            variant@ is Structure ==> (r matches Ok(st) && VariantView::Structure(st@)
                == variant@),
            !(variant@ is Structure) ==> r == Err::<Structure, VariantError>(
                VariantError::IncorrectType,
            ),
    {
        match variant {
            Variant::Structure(st) => Ok(st),
            _ => Err(VariantError::IncorrectType),
        }
    }

    /// Borrows the structure in a variant.
    pub fn from_variant<'a>(variant: &'a Variant) -> (r: Result<&'a Structure, VariantError>)
        ensures
            variant@ is Structure ==> (r matches Ok(st) && VariantView::Structure(st@)
                == variant@),
            !(variant@ is Structure) ==> r == Err::<&'a Structure, VariantError>(
                VariantError::IncorrectType,
            ),
    {
        match variant {
            Variant::Structure(st) => Ok(st),
            _ => Err(VariantError::IncorrectType),
        }
    }

    /// Wraps the structure in a variant.
    pub fn to_variant(self) -> (r: Variant)
        ensures
            r@ == VariantView::Structure(self@),
    {
        Variant::Structure(self)
    }

    /// Wraps a ready field list.
    pub fn from_fields(fields: Vec<Variant>) -> (r: Structure)
        ensures
            r@ == views_of_seq(fields, 0),
    {
        Structure { fields }
    }
}


/// Decodes the fields of one structure from an already-padded window: each
/// child of the signature in order, or `ExcessData` where nothing at all
/// was consumed.
pub fn variants_from_struct_data(
    data: &SharedData,
    signature: &str,
    format: EncodingFormat,
) -> (r: Result<Vec<Variant>, VariantError>)
    requires
        data.wf(),
    ensures
        signature@.len() >= 2 ==> (match spec_decode_fields(
            data@,
            data.spec_position(),
            signature@.subrange(1, signature@.len() - 1),
            format,
        ) {
            Ok((vs, l)) => (l == 0 ==> r == Err::<Vec<Variant>, VariantError>(
                VariantError::ExcessData,
            )) && (l != 0 ==> (r matches Ok(fields) && views_of_seq(fields, 0) == vs)),
            Err(e) => r matches Err(e2) && e2 == e,
        }),
        signature@.len() < 2 ==> r == Err::<Vec<Variant>, VariantError>(
            VariantError::IncorrectType,
        ),
{
    let n = signature.unicode_len();
    if n < 2 {
        return Err(VariantError::IncorrectType);
    }
    let inner = signature.substring_char(1, n - 1);
    match crate::variant::decode_fields(data, inner, format) {
        Err(e) => Err(e),
        Ok((fields, extracted)) => {
            if extracted == 0 {
                return Err(VariantError::ExcessData);
            }
            Ok(fields)
        },
    }
}

} // verus!
