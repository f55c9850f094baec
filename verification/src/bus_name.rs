//! Bus-name validation and classification: unique names (`:` prefixed) and
//! well-known names, with owned and borrowed-free forms.

use vstd::prelude::*;
use vstd::string::StrSliceExecFns;
use vstd::string::StringExecFns;

use crate::error::{Error, VariantError};
use crate::text::is_digit;
use crate::variant::Variant;
use crate::wire::VariantView;

verus! {

/// A character an element of a bus name may hold.
pub open spec fn is_name_char(c: char) -> bool {
    ('A' <= c && c <= 'Z') || ('a' <= c && c <= 'z') || ('0' <= c && c <= '9') || c == '_' || c
        == '-'
}

/// The dotted part of a bus name: non-empty elements of name characters
/// separated by `.`, at least two of them, and, unless `digits_ok`, no
/// element starting with a digit.
pub open spec fn spec_valid_name_body(s: Seq<char>, digits_ok: bool) -> bool {
    &&& s.len() >= 1
    &&& forall|i: int| 0 <= i < s.len() ==> (is_name_char(s[i]) || s[i] == '.')
    &&& s[0] != '.'
    &&& s[s.len() - 1] != '.'
    &&& forall|i: int| 0 <= i < s.len() - 1 ==> !(#[trigger] s[i] == '.' && s[i + 1] == '.')
    &&& exists|i: int| 0 <= i < s.len() && s[i] == '.'
    &&& (!digits_ok ==> !is_digit(s[0]) && forall|i: int|
        0 <= i < s.len() - 1 ==> (#[trigger] s[i] == '.' ==> !is_digit(s[i + 1])))
}

/// A valid well-known bus name: at most 255 characters, elements not
/// starting with digits.
pub open spec fn spec_valid_well_known(s: Seq<char>) -> bool {
    s.len() <= 255 && spec_valid_name_body(s, false)
}

/// A valid unique bus name: a `:`, then elements that may start with
/// digits; at most 255 characters in all.
pub open spec fn spec_valid_unique(s: Seq<char>) -> bool {
    s.len() <= 255 && s.len() >= 1 && s[0] == ':' && spec_valid_name_body(s.skip(1), true)
}

/// Decides membership in the element alphabet.
fn name_char(c: char) -> (r: bool)
    ensures
        r == is_name_char(c),
{
    ('A' <= c && c <= 'Z') || ('a' <= c && c <= 'z') || ('0' <= c && c <= '9') || c == '_' || c
        == '-'
}

/// Checks the dotted part of `s` starting at character `from`.
#[verifier::loop_isolation(false)]
fn valid_name_body(s: &str, from: usize, digits_ok: bool) -> (r: bool)
    requires
        from <= s@.len(),
    ensures
        r == spec_valid_name_body(s@.skip(from as int), digits_ok),
{
    let ghost b = s@.skip(from as int);
    let n = s.unicode_len();
    if n - from < 1 {
        return false;
    }
    let c0 = s.get_char(from);
    if c0 == '.' {
        return false;
    }
    if !digits_ok && '0' <= c0 && c0 <= '9' {
        assert(is_digit(b[0]));
        return false;
    }
    let mut i: usize = from;
    let mut seen_dot = false;
    loop
        invariant
            from <= i <= n,
            forall|j: int| from <= j < i ==> (is_name_char(s@[j]) || s@[j] == '.'),
            forall|j: int|
                from <= j < i ==> (#[trigger] s@[j] == '.' ==> j + 1 < n && s@[j + 1] != '.' && (
                !digits_ok ==> !is_digit(s@[j + 1]))),
            seen_dot <==> exists|j: int| from <= j < i && s@[j] == '.',
        decreases n - i,
    {
        if i >= n {
            if !seen_dot {
                assert(!spec_valid_name_body(b, digits_ok)) by {
                    if spec_valid_name_body(b, digits_ok) {
                        let w = choose|w: int| 0 <= w < b.len() && b[w] == '.';
                        assert(s@[from + w] == '.');
                    }
                }
                return false;
            }
            proof {
                let w = choose|j: int| from <= j < i && s@[j] == '.';
                assert(b[w - from] == '.');
                assert forall|k: int| 0 <= k < b.len() implies (is_name_char(b[k]) || b[k]
                    == '.') by {
                    assert(b[k] == s@[from + k]);
                }
                assert forall|k: int| 0 <= k < b.len() - 1 implies !(#[trigger] b[k] == '.' && b[
                    k + 1
                ] == '.') by {
                    assert(b[k] == s@[from + k]);
                    assert(b[k + 1] == s@[from + k + 1]);
                }
                assert(b[b.len() - 1] == s@[n - 1]);
                if !digits_ok {
                    assert forall|k: int| 0 <= k < b.len() - 1 implies (#[trigger] b[k] == '.'
                        ==> !is_digit(b[k + 1])) by {
                        assert(b[k] == s@[from + k]);
                        assert(b[k + 1] == s@[from + k + 1]);
                    }
                }
            }
            return true;
        }
        let c = s.get_char(i);
        if !name_char(c) && c != '.' {
            assert(b[i - from] == s@[i as int]);
            return false;
        }
        if c == '.' {
            if i + 1 >= n {
                assert(b[b.len() - 1] == s@[i as int]);
                return false;
            }
            let c2 = s.get_char(i + 1);
            if c2 == '.' {
                assert(b[i - from] == '.' && b[i + 1 - from] == '.');
                return false;
            }
            if !digits_ok && '0' <= c2 && c2 <= '9' {
                assert(b[i - from] == '.' && is_digit(b[i + 1 - from]));
                return false;
            }
            seen_dot = true;
        }
        i = i + 1;
    }
}

/// A validated unique bus name.
#[derive(Clone, Debug, PartialEq)]
pub struct UniqueName {
    name: String,
}

impl View for UniqueName {
    type V = Seq<char>;

    closed spec fn view(&self) -> Seq<char> {
        self.name@
    }
}

impl UniqueName {
    /// The name this value was validated from.
    pub open spec fn wf(&self) -> bool {
        spec_valid_unique(self@)
    }

    /// Validates a unique bus name.
    pub fn try_from(value: &str) -> (r: Result<UniqueName, Error>)
        ensures
            spec_valid_unique(value@) ==> (r matches Ok(nm) && nm@ == value@),
            !spec_valid_unique(value@) ==> (r matches Err(e) && (e matches
                Error::InvalidUniqueName(m) && m@ == "invalid unique bus name: "@ + value@)),
    {
        let n = value.unicode_len();
        let valid = if n >= 1 && n <= 255 {
            let first = value.get_char(0);
            first == ':' && valid_name_body(value, 1, true)
        } else {
            false
        };
        if valid {
            Ok(UniqueName { name: String::from_str(value) })
        } else {
            let mut msg = String::from_str("invalid unique bus name: ");
            msg.append(value);
            Err(Error::InvalidUniqueName(msg))
        }
    }

    /// The name as a string.
    pub fn as_str(&self) -> (r: &str)
        ensures
            r@ == self@,
    {
        self.name.as_str()
    }

    /// An owning copy.
    pub fn to_owned(&self) -> (r: UniqueName)
        ensures
            r@ == self@,
    {
        UniqueName { name: self.name.clone() }
    }
}

/// A validated well-known bus name.
#[derive(Clone, Debug, PartialEq)]
pub struct WellKnownName {
    name: String,
}

impl View for WellKnownName {
    type V = Seq<char>;

    closed spec fn view(&self) -> Seq<char> {
        self.name@
    }
}

impl WellKnownName {
    /// The name this value was validated from.
    pub open spec fn wf(&self) -> bool {
        spec_valid_well_known(self@)
    }

    /// Validates a well-known bus name.
    pub fn try_from(value: &str) -> (r: Result<WellKnownName, Error>)
        ensures
            spec_valid_well_known(value@) ==> (r matches Ok(nm) && nm@ == value@),
            !spec_valid_well_known(value@) ==> (r matches Err(e) && (e matches
                Error::InvalidWellKnownName(m) && m@ == "invalid well-known bus name: "@
                + value@)),
    {
        let n = value.unicode_len();
        let valid = if n >= 1 && n <= 255 {
            proof {
                assert(value@.skip(0) =~= value@);
            }
            valid_name_body(value, 0, false)
        } else {
            false
        };
        if valid {
            Ok(WellKnownName { name: String::from_str(value) })
        } else {
            let mut msg = String::from_str("invalid well-known bus name: ");
            msg.append(value);
            Err(Error::InvalidWellKnownName(msg))
        }
    }

    /// The name as a string.
    pub fn as_str(&self) -> (r: &str)
        ensures
            r@ == self@,
    {
        self.name.as_str()
    }

    /// An owning copy.
    pub fn to_owned(&self) -> (r: WellKnownName)
        ensures
            r@ == self@,
    {
        WellKnownName { name: self.name.clone() }
    }
}

/// String that identifies a bus name: unique or well-known, by its shape.
#[derive(Clone, Debug, PartialEq)]
pub enum BusName {
    Unique(UniqueName),
    WellKnown(WellKnownName),
}

/// The mathematical shape of a bus name: its classification and its text.
pub enum BusNameView {
    Unique(Seq<char>),
    WellKnown(Seq<char>),
}

/// The text a bus name carries, whatever its classification.
pub open spec fn spec_name_text(v: BusNameView) -> Seq<char> {
    match v {
        BusNameView::Unique(s) => s,
        BusNameView::WellKnown(s) => s,
    }
}

impl View for BusName {
    type V = BusNameView;

    open spec fn view(&self) -> BusNameView {
        match self {
            BusName::Unique(nm) => BusNameView::Unique(nm@),
            BusName::WellKnown(nm) => BusNameView::WellKnown(nm@),
        }
    }
}

impl BusName {
    /// A unique name holds a valid unique name's text, a well-known name a
    /// valid well-known one's.
    pub open spec fn wf(&self) -> bool {
        match self {
            BusName::Unique(nm) => nm.wf(),
            BusName::WellKnown(nm) => nm.wf(),
        }
    }

    /// Classifies and validates a bus name: a valid unique name wins, then
    /// a valid well-known name; neither leaves both diagnostics.
    pub fn try_from(value: &str) -> (r: Result<BusName, Error>)
        ensures
            spec_valid_unique(value@) ==> (r matches Ok(b) && b@ == BusNameView::Unique(value@)
                && b.wf()),
            !spec_valid_unique(value@) && spec_valid_well_known(value@) ==> (r matches Ok(b) && b@
                == BusNameView::WellKnown(value@) && b.wf()),
            !spec_valid_unique(value@) && !spec_valid_well_known(value@) ==> (r matches Err(e) && (
            e matches Error::InvalidBusName(m1, m2) && m1@ == "invalid unique bus name: "@ + value@
                && m2@ == "invalid well-known bus name: "@ + value@)),
    {
        match UniqueName::try_from(value) {
            Ok(nm) => Ok(BusName::Unique(nm)),
            Err(unique_err) => {
                match WellKnownName::try_from(value) {
                    Ok(nm) => Ok(BusName::WellKnown(nm)),
                    Err(wk_err) => {
                        let m1 = match unique_err {
                            Error::InvalidUniqueName(m) => m,
                            _ => {
                                return Err(unique_err);
                            },
                        };
                        let m2 = match wk_err {
                            Error::InvalidWellKnownName(m) => m,
                            _ => {
                                return Err(wk_err);
                            },
                        };
                        Err(Error::InvalidBusName(m1, m2))
                    },
                }
            },
        }
    }

    /// The name as a string.
    pub fn as_str(&self) -> (r: &str)
        ensures
            r@ == spec_name_text(self@),
    {
        match self {
            BusName::Unique(nm) => nm.as_str(),
            BusName::WellKnown(nm) => nm.as_str(),
        }
    }

    /// Creates an owned clone of `self`.
    pub fn to_owned(&self) -> (r: BusName)
        ensures
            r@ == self@,
    {
        match self {
            BusName::Unique(nm) => BusName::Unique(nm.to_owned()),
            BusName::WellKnown(nm) => BusName::WellKnown(nm.to_owned()),
        }
    }

    /// Creates an owned clone of `self`, consuming it.
    pub fn into_owned(self) -> (r: BusName)
        ensures
            r@ == self@,
    {
        self
    }

    /// Classifies the text a string-typed value carries; any other tag is a
    /// codec error.
    pub fn try_from_variant(value: &Variant) -> (r: Result<BusName, Error>)
        ensures
            value@ matches VariantView::Str(s) ==> (spec_valid_unique(s) ==> (r matches Ok(b)
                && b@ == BusNameView::Unique(s))) && (!spec_valid_unique(s)
                && spec_valid_well_known(s) ==> (r matches Ok(b) && b@ == BusNameView::WellKnown(
                s,
            ))) && (!spec_valid_unique(s) && !spec_valid_well_known(s) ==> r is Err),
            !(value@ is Str) ==> r == Err::<BusName, Error>(
                Error::Variant(VariantError::IncorrectType),
            ),
    {
        match value {
            Variant::Str(s) => BusName::try_from(s.as_str()),
            _ => Err(Error::Variant(VariantError::IncorrectType)),
        }
    }

    /// Wraps the name's text in a string-typed value.
    pub fn to_variant(&self) -> (r: Variant)
        ensures
            r@ == VariantView::Str(spec_name_text(self@)),
    {
        Variant::Str(String::from_str(self.as_str()))
    }
}

/// Owned sibling of [`BusName`].
#[derive(Clone, Debug, PartialEq)]
pub struct OwnedBusName {
    inner: BusName,
}

impl View for OwnedBusName {
    type V = BusNameView;

    closed spec fn view(&self) -> BusNameView {
        self.inner@
    }
}

impl OwnedBusName {
    /// Wraps a bus name.
    pub fn new(name: BusName) -> (r: OwnedBusName)
        ensures
            r@ == name@,
    {
        OwnedBusName { inner: name }
    }

    /// Convert to the inner `BusName`, consuming `self`.
    pub fn into_inner(self) -> (r: BusName)
        ensures
            r@ == self@,
    {
        self.inner
    }
}

} // verus!
