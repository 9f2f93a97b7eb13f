//! Diagnostics about C source.
use vstd::prelude::*;

verus! {

/// A stretch of source text.
#[derive(Clone, Debug)]
pub struct Span {
    pub file: String,
}

/// A span with the label that goes with it.
#[derive(Clone, Debug)]
pub struct SpanLabel {
    pub span: Span,
}

/// How severe a diagnostic is.
#[derive(Clone, Copy, Debug, PartialEq, Eq)]
pub enum DiagnosticErrorLevel {
    Warning,
    Error,
}

/// A message about the source.
#[derive(Clone, Debug)]
pub struct Diagnostic {}

/// The ASCII upper case of `c`: `a` to `z` become `A` to `Z`, every other
/// character stays.
pub open spec fn ascii_upper(c: char) -> char {
    if 'a' <= c <= 'z' {
        ((c as u32 - 32) as u8) as char
    } else {
        c
    }
}

/// Relies on `str::to_ascii_uppercase`: each character mapped to its ASCII
/// upper case.
#[verifier::external_body]
fn ascii_uppercase(s: &str) -> (r: String)
    ensures
        r@ == s@.map_values(|c: char| ascii_upper(c)),
{
    s.to_ascii_uppercase()
}

/// Puts the first character of `s` in ASCII upper case.
pub fn make_ascii_title_case(s: &mut String)
    ensures
        final(s)@ == if old(s)@.len() > 0 {
            old(s)@.update(0, ascii_upper(old(s)@[0]))
        } else {
            old(s)@
        },
{
    let n = s.as_str().unicode_len();
    if n > 0 {
        let head = ascii_uppercase(s.as_str().substring_char(0, 1));
        let t = head.concat(s.as_str().substring_char(1, n));
        proof {
            assert(t@ =~= old(s)@.update(0, ascii_upper(old(s)@[0])));
        }
        *s = t;
    }
}

} // verus!
