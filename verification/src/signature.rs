//! The signature scanner: given a signature string starting at a type, return
//! the slice covering exactly one complete type (basic character, `a...`,
//! `(...)`, `{...}`, `v`).

use vstd::prelude::*;
use vstd::string::StrSliceExecFns;

use crate::error::VariantError;

verus! {

/// True of the thirteen one-character basic-type markers (`v` is handled
/// separately: it is a container, though it also spans one character).
pub open spec fn is_basic_char(c: char) -> bool {
    c == 'y' || c == 'b' || c == 'n' || c == 'q' || c == 'i' || c == 'u' || c == 'x' || c == 't'
        || c == 'd' || c == 's' || c == 'o' || c == 'g' || c == 'h'
}

/// Index of the closer matching the opener that put the scan at depth `depth`
/// just before index `i`; nested openers of the same kind raise the depth for
/// their own closer only. Running off the end means an unmatched opener.
pub open spec fn spec_find_closer(
    s: Seq<char>,
    open: char,
    close: char,
    i: int,
    depth: int,
) -> Result<int, VariantError>
    decreases s.len() - i,
{
    if i < 0 || i >= s.len() {
        Err(VariantError::IncorrectType)
    } else if s[i] == close {
        if depth == 1 {
            Ok(i)
        } else {
            spec_find_closer(s, open, close, i + 1, depth - 1)
        }
    } else if s[i] == open {
        spec_find_closer(s, open, close, i + 1, depth + 1)
    } else {
        spec_find_closer(s, open, close, i + 1, depth)
    }
}

/// Length of the longest prefix of `s` that is one complete type, or the
/// error the scanner owes: `InsufficientData` on a premature end,
/// `IncorrectType` on a foreign character or an unmatched opener.
pub open spec fn spec_slice_signature(s: Seq<char>) -> Result<int, VariantError>
    decreases s.len(),
{
    if s.len() == 0 {
        Err(VariantError::InsufficientData)
    } else if is_basic_char(s[0]) || s[0] == 'v' {
        Ok(1)
    } else if s[0] == 'a' {
        match spec_slice_signature(s.skip(1)) {
            Ok(n) => Ok(n + 1),
            Err(e) => Err(e),
        }
    } else if s[0] == '(' {
        match spec_find_closer(s, '(', ')', 1, 1) {
            Ok(i) => Ok(i + 1),
            Err(e) => Err(e),
        }
    } else if s[0] == '{' {
        match spec_find_closer(s, '{', '}', 1, 1) {
            Ok(i) => Ok(i + 1),
            Err(e) => Err(e),
        }
    } else {
        Err(VariantError::IncorrectType)
    }
}

/// A successful scan never reaches past the end of the string.
pub proof fn lemma_find_closer_bound(s: Seq<char>, open: char, close: char, i: int, depth: int)
    requires
        spec_find_closer(s, open, close, i, depth) is Ok,
    ensures
        i <= spec_find_closer(s, open, close, i, depth)->Ok_0 < s.len(),
    decreases s.len() - i,
{
    if 0 <= i < s.len() {
        if s[i] == close && depth == 1 {
        } else if s[i] == close {
            lemma_find_closer_bound(s, open, close, i + 1, depth - 1);
        } else if s[i] == open {
            lemma_find_closer_bound(s, open, close, i + 1, depth + 1);
        } else {
            lemma_find_closer_bound(s, open, close, i + 1, depth);
        }
    }
}

/// Text appended after the matching closer does not change where the scan
/// stops.
pub proof fn lemma_find_closer_extend(
    s: Seq<char>,
    t: Seq<char>,
    open: char,
    close: char,
    i: int,
    depth: int,
)
    requires
        spec_find_closer(s, open, close, i, depth) is Ok,
    ensures
        spec_find_closer(s + t, open, close, i, depth) == spec_find_closer(
            s,
            open,
            close,
            i,
            depth,
        ),
    decreases s.len() - i,
{
    if 0 <= i < s.len() {
        assert((s + t)[i] == s[i]);
        if s[i] == close && depth == 1 {
        } else if s[i] == close {
            lemma_find_closer_extend(s, t, open, close, i + 1, depth - 1);
        } else if s[i] == open {
            lemma_find_closer_extend(s, t, open, close, i + 1, depth + 1);
        } else {
            lemma_find_closer_extend(s, t, open, close, i + 1, depth);
        }
    }
}

/// The scan looks at no character beyond the matching closer: it gives the
/// same answer on the prefix ending there.
pub proof fn lemma_find_closer_restrict(
    s: Seq<char>,
    open: char,
    close: char,
    i: int,
    depth: int,
    cut: int,
)
    requires
        spec_find_closer(s, open, close, i, depth) is Ok,
        spec_find_closer(s, open, close, i, depth)->Ok_0 < cut <= s.len(),
    ensures
        spec_find_closer(s.subrange(0, cut), open, close, i, depth) == spec_find_closer(
            s,
            open,
            close,
            i,
            depth,
        ),
    decreases s.len() - i,
{
    lemma_find_closer_bound(s, open, close, i, depth);
    if 0 <= i < s.len() {
        assert(s.subrange(0, cut)[i] == s[i]);
        if s[i] == close && depth == 1 {
        } else if s[i] == close {
            lemma_find_closer_restrict(s, open, close, i + 1, depth - 1, cut);
        } else if s[i] == open {
            lemma_find_closer_restrict(s, open, close, i + 1, depth + 1, cut);
        } else {
            lemma_find_closer_restrict(s, open, close, i + 1, depth, cut);
        }
    }
}

/// A successful scan covers at least one and at most all of the characters.
pub proof fn lemma_slice_signature_bound(s: Seq<char>)
    requires
        spec_slice_signature(s) is Ok,
    ensures
        1 <= spec_slice_signature(s)->Ok_0 <= s.len(),
    decreases s.len(),
{
    if s.len() > 0 {
        if is_basic_char(s[0]) || s[0] == 'v' {
        } else if s[0] == 'a' {
            lemma_slice_signature_bound(s.skip(1));
        } else if s[0] == '(' {
            lemma_find_closer_bound(s, '(', ')', 1, 1);
        } else if s[0] == '{' {
            lemma_find_closer_bound(s, '{', '}', 1, 1);
        }
    }
}

/// Totality of the scanner over junk suffixes: once a prefix scans as one
/// complete type, appending anything after it leaves the result unchanged.
pub proof fn lemma_slice_signature_extend(s: Seq<char>, t: Seq<char>)
    requires
        spec_slice_signature(s) is Ok,
    ensures
        spec_slice_signature(s + t) == spec_slice_signature(s),
    decreases s.len(),
{
    lemma_slice_signature_bound(s);
    if s.len() > 0 {
        assert((s + t)[0] == s[0]);
        if is_basic_char(s[0]) || s[0] == 'v' {
        } else if s[0] == 'a' {
            lemma_slice_signature_extend(s.skip(1), t);
            assert((s + t).skip(1) =~= s.skip(1) + t);
        } else if s[0] == '(' {
            lemma_find_closer_extend(s, t, '(', ')', 1, 1);
        } else if s[0] == '{' {
            lemma_find_closer_extend(s, t, '{', '}', 1, 1);
        }
    }
}

/// The complete type found by the scanner is itself a complete type: run on
/// exactly the returned prefix, the scanner consumes all of it.
pub proof fn lemma_slice_signature_self(s: Seq<char>)
    requires
        spec_slice_signature(s) is Ok,
    ensures
        spec_slice_signature(s.subrange(0, spec_slice_signature(s)->Ok_0)) == spec_slice_signature(
            s,
        ),
    decreases s.len(),
{
    lemma_slice_signature_bound(s);
    let n = spec_slice_signature(s)->Ok_0;
    if s.len() > 0 {
        if n == s.len() {
            assert(s.subrange(0, n) =~= s);
        } else {
            assert(s.subrange(0, n)[0] == s[0]);
            if is_basic_char(s[0]) || s[0] == 'v' {
            } else if s[0] == 'a' {
                lemma_slice_signature_self(s.skip(1));
                lemma_slice_signature_bound(s.skip(1));
                assert(s.subrange(0, n).skip(1) =~= s.skip(1).subrange(0, n - 1));
            } else if s[0] == '(' {
                lemma_find_closer_restrict(s, '(', ')', 1, 1, n);
            } else if s[0] == '{' {
                lemma_find_closer_restrict(s, '{', '}', 1, 1, n);
            }
        }
    }
}

/// Decides membership of a character in the basic alphabet.
pub fn is_basic(c: char) -> (r: bool)
    ensures
        r == is_basic_char(c),
{
    c == 'y' || c == 'b' || c == 'n' || c == 'q' || c == 'i' || c == 'u' || c == 'x' || c == 't'
        || c == 'd' || c == 's' || c == 'o' || c == 'g' || c == 'h'
}

/// Walks `signature` from character `1` looking for the closer matching the
/// opener at character `0`, counting nested pairs of the same kind.
fn find_closer(signature: &str, open: char, close: char) -> (r: Result<usize, VariantError>)
    requires
        signature@.len() >= 1,
    ensures
        match spec_find_closer(signature@, open, close, 1, 1) {
            Ok(j) => r matches Ok(j2) && j2 == j,
            Err(e) => r matches Err(e2) && e2 == e,
        },
{
    let n = signature.unicode_len();
    let mut i: usize = 1;
    let mut depth: usize = 1;
    loop
        invariant
            1 <= i <= n,
            1 <= depth <= i,
            n == signature@.len(),
            spec_find_closer(signature@, open, close, 1, 1) == spec_find_closer(
                signature@,
                open,
                close,
                i as int,
                depth as int,
            ),
        decreases n - i,
    {
        if i >= n {
            return Err(VariantError::IncorrectType);
        }
        let c = signature.get_char(i);
        if c == close {
            if depth == 1 {
                return Ok(i);
            }
            depth = depth - 1;
        } else if c == open {
            depth = depth + 1;
        }
        i = i + 1;
    }
}

/// Returns the longest prefix of `signature` that is one complete type:
/// a basic character or `v` alone, `a` followed by one complete type, or a
/// parenthesis or brace group scanned to its matching closer.
pub fn slice_signature<'a>(signature: &'a str) -> (r: Result<&'a str, VariantError>)
    ensures
        match spec_slice_signature(signature@) {
            Ok(n) => r matches Ok(p) && p@ == signature@.subrange(0, n),
            Err(e) => r matches Err(e2) && e2 == e,
        },
{
    let n = signature.unicode_len();
    let mut skipped: usize = 0;
    proof {
        assert(signature@.skip(0) =~= signature@);
    }
    // Leading `a` markers: an array signature is `a` followed by one
    // complete child type, so the scan restarts past each `a`.
    loop
        invariant
            0 <= skipped <= n,
            n == signature@.len(),
            spec_slice_signature(signature@) matches Ok(m) ==> (spec_slice_signature(
                signature@.skip(skipped as int),
            ) matches Ok(k) && m == k + skipped),
            spec_slice_signature(signature@) matches Err(e) ==> spec_slice_signature(
                signature@.skip(skipped as int),
            ) == Err::<int, VariantError>(e),
            forall|k: int| 0 <= k < skipped ==> signature@[k] == 'a',
        decreases n - skipped,
    {
        if skipped >= n {
            return Err(VariantError::InsufficientData);
        }
        let c = signature.get_char(skipped);
        if c == 'a' {
            assert(signature@.skip(skipped as int).skip(1) =~= signature@.skip(skipped as int + 1));
            skipped = skipped + 1;
        } else if is_basic(c) || c == 'v' {
            let end = skipped + 1;
            return Ok(signature.substring_char(0, end));
        } else if c == '(' || c == '{' {
            let open = c;
            let close = if c == '(' {
                ')'
            } else {
                '}'
            };
            let rest = signature.substring_char(skipped, n);
            let tail_scan = find_closer(rest, open, close);
            proof {
                assert(signature@.skip(skipped as int) =~= signature@.subrange(
                    skipped as int,
                    n as int,
                ));
            }
            match tail_scan {
                Ok(j) => {
                    proof {
                        lemma_find_closer_bound(rest@, open, close, 1, 1);
                    }
                    let end = skipped + j + 1;
                    return Ok(signature.substring_char(0, end));
                },
                Err(e) => {
                    return Err(e);
                },
            }
        } else {
            return Err(VariantError::IncorrectType);
        }
    }
}

} // verus!
