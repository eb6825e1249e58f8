//! Recovery of a string literal's contents from its source text.
//!
//! A caller that receives a token holding a hex-float literal sees the
//! token's text: either a plain quoted form `"..."` or a raw form
//! `r##"..."##` with any number of matching `#` marks. `extract_string_value`
//! returns the text between the delimiters; escape sequences are not
//! interpreted, and a plain literal containing a backslash is rejected as
//! its own kind of error.

use vstd::prelude::*;
use vstd::string::StrSliceExecFns;

verus! {

/// Why a token's text was not a usable string literal.
#[derive(Clone, Copy, Debug, PartialEq, Eq, Structural)]
pub enum ExtractStringError {
    /// The text is not a plain or raw string literal.
    BadLiteral,
    /// The literal holds an escape sequence, which is never interpreted.
    EscapeSequence,
}

/// The text holds a backslash somewhere.
pub open spec fn has_backslash(s: Seq<char>) -> bool {
    exists|i: int| 0 <= i < s.len() && s[i] == '\\'
}

/// First index at or after `i` whose character is not `#`, or the length.
pub open spec fn hash_run(s: Seq<char>, i: int) -> int
    decreases s.len() - i,
{
    if i < 0 || i >= s.len() {
        s.len() as int
    } else if s[i] == '#' {
        hash_run(s, i + 1)
    } else {
        i
    }
}

proof fn lemma_hash_run_is(s: Seq<char>, i: int, e: int)
    requires
        0 <= i <= e <= s.len(),
        forall|j: int| i <= j < e ==> s[j] == '#',
        e == s.len() || s[e] != '#',
    ensures
        hash_run(s, i) == e,
    decreases e - i,
{
    if i < e {
        lemma_hash_run_is(s, i + 1, e);
    }
}

/// What extraction returns on a token text: the contents of a plain or raw
/// string literal, or the error that text earns.
pub open spec fn spec_extract(s: Seq<char>) -> Result<Seq<char>, ExtractStringError> {
    if s.len() > 0 && s[0] == '"' {
        if s.len() >= 2 && s[s.len() - 1] == '"' {
            if has_backslash(s) {
                Err(ExtractStringError::EscapeSequence)
            } else {
                Ok(s.subrange(1, s.len() - 1))
            }
        } else {
            Err(ExtractStringError::BadLiteral)
        }
    } else if s.len() > 0 && s[0] == 'r' {
        let e = hash_run(s, 1);
        let k = e - 1;
        if e < s.len() && s[e] == '"' && (forall|j: int|
            s.len() - k <= j <= s.len() - 1 ==> s[j] == '#') && s.len() - 1 - k > e && s[s.len()
            - 1 - k] == '"' {
            Ok(s.subrange(e + 1, s.len() - 1 - k))
        } else {
            Err(ExtractStringError::BadLiteral)
        }
    } else {
        Err(ExtractStringError::BadLiteral)
    }
}

/// Extract the contents of a plain (`"..."`) or raw (`r#"..."#`) string
/// literal's source text. Escape sequences are not supported: a plain
/// literal holding a backslash is rejected.
pub fn extract_string_value(literal: &str) -> (r: Result<&str, ExtractStringError>)
    ensures
        (match (r, spec_extract(literal@)) {
            (Ok(sub), Ok(spec_sub)) => sub@ == spec_sub,
            (Err(e1), Err(e2)) => e1 == e2,
            _ => false,
        }),
{
    let ghost sv = literal@;
    let n = literal.unicode_len();
    if n == 0 {
        return Err(ExtractStringError::BadLiteral);
    }
    let c0 = literal.get_char(0);
    if c0 == '"' {
        if n < 2 || literal.get_char(n - 1) != '"' {
            return Err(ExtractStringError::BadLiteral);
        }
        let mut i: usize = 0;
        while i < n
            invariant
                sv == literal@,
                n == sv.len(),
                n >= 2,
                sv[0] == '"',
                sv[n - 1] == '"',
                0 <= i <= n,
                forall|j: int| 0 <= j < i ==> sv[j] != '\\',
            decreases n - i,
        {
            if literal.get_char(i) == '\\' {
                return Err(ExtractStringError::EscapeSequence);
            }
            i = i + 1;
        }
        assert(!has_backslash(sv));
        Ok(literal.substring_char(1, n - 1))
    } else if c0 == 'r' {
        // Count the `#` marks after the `r`.
        let mut e: usize = 1;
        let mut stop = false;
        while e < n && !stop
            invariant
                sv == literal@,
                n == sv.len(),
                1 <= e <= n,
                forall|j: int| 1 <= j < e ==> sv[j] == '#',
                stop ==> e < n && sv[e as int] != '#',
            decreases n - e, (if stop { 0int } else { 1int }),
        {
            if literal.get_char(e) == '#' {
                e = e + 1;
            } else {
                stop = true;
            }
        }
        proof {
            lemma_hash_run_is(sv, 1, e as int);
        }
        if !stop {
            return Err(ExtractStringError::BadLiteral);
        }
        if literal.get_char(e) != '"' {
            return Err(ExtractStringError::BadLiteral);
        }
        let k = e - 1;
        // The closing delimiter must mirror the opening one.
        let mut i: usize = 0;
        while i < k
            invariant
                sv == literal@,
                n == sv.len(),
                sv[0] == 'r',
                hash_run(sv, 1) == e as int,
                sv[e as int] == '"',
                1 <= e < n,
                k == e - 1,
                0 <= i <= k,
                forall|j: int| n - i <= j <= n - 1 ==> sv[j] == '#',
            decreases k - i,
        {
            if literal.get_char(n - 1 - i) != '#' {
                return Err(ExtractStringError::BadLiteral);
            }
            i = i + 1;
        }
        if literal.get_char(n - 1 - k) != '"' {
            return Err(ExtractStringError::BadLiteral);
        }
        if !(e < n - 1 - k) {
            return Err(ExtractStringError::BadLiteral);
        }
        Ok(literal.substring_char(e + 1, n - 1 - k))
    } else {
        Err(ExtractStringError::BadLiteral)
    }
}

} // verus!
