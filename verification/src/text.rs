//! Turning stored bytes into text: NUL-terminated fields, UTF-8 decoding and
//! whitespace trimming.
use vstd::prelude::*;
use vstd::utf8::*;

verus! {

/// What `String::from_utf8_lossy` makes of `bytes`: the decoded text, with each
/// ill-formed sequence replaced by U+FFFD.
pub uninterp spec fn utf8_lossy(bytes: Seq<u8>) -> Seq<char>;

/// Whether `c` has the Unicode `White_Space` property (what `char::is_whitespace` tests).
pub open spec fn is_white_space(c: char) -> bool {
    let u = c as u32;
    ||| 0x09 <= u <= 0x0d
    ||| u == 0x20
    ||| u == 0x85
    ||| u == 0xa0
    ||| u == 0x1680
    ||| 0x2000 <= u <= 0x200a
    ||| u == 0x2028
    ||| u == 0x2029
    ||| u == 0x202f
    ||| u == 0x205f
    ||| u == 0x3000
}

/// `s` without its leading whitespace.
pub open spec fn trim_start(s: Seq<char>) -> Seq<char>
    decreases s.len(),
{
    if s.len() > 0 && is_white_space(s[0]) {
        trim_start(s.drop_first())
    } else {
        s
    }
}

/// `s` without its trailing whitespace.
pub open spec fn trim_end(s: Seq<char>) -> Seq<char>
    decreases s.len(),
{
    if s.len() > 0 && is_white_space(s.last()) {
        trim_end(s.drop_last())
    } else {
        s
    }
}

/// `s` without leading and trailing whitespace.
pub open spec fn trimmed(s: Seq<char>) -> Seq<char> {
    trim_end(trim_start(s))
}

/// The length of the part of `s` before its first NUL byte (all of `s` when it
/// has none).
pub open spec fn nul_free_len(s: Seq<u8>) -> nat
    decreases s.len(),
{
    if s.len() == 0 || s[0] == 0 {
        0
    } else {
        1 + nul_free_len(s.drop_first())
    }
}

/// The text `bytes` decode to: the decoded UTF-8 where they are well formed,
/// else what the lossy decoding makes of them.
pub open spec fn decoded_text(bytes: Seq<u8>) -> Seq<char> {
    if valid_utf8(bytes) {
        decode_utf8(bytes)
    } else {
        utf8_lossy(bytes)
    }
}

/// The text a fixed-size string field holds: the bytes before the first NUL,
/// decoded with replacement of ill-formed UTF-8, then trimmed.
pub open spec fn field_text(bytes: Seq<u8>) -> Seq<char> {
    trimmed(decoded_text(bytes.take(nul_free_len(bytes) as int)))
}

/// Decodes `bytes` as UTF-8, replacing ill-formed sequences, through
/// `String::from_utf8_lossy`. Claimed: the result is `utf8_lossy(bytes)`, and on
/// well-formed UTF-8 it is the decoded text.
#[verifier::external_body]
fn decode_lossy(bytes: &[u8]) -> (r: String)
    ensures
        r@ == utf8_lossy(bytes@),
        valid_utf8(bytes@) ==> r@ == decode_utf8(bytes@),
{
    String::from_utf8_lossy(bytes).into_owned()
}

/// Removes leading and trailing whitespace through `str::trim`. Claimed: the
/// result is `s` without its leading and trailing `White_Space` characters.
#[verifier::external_body]
fn trim_text(s: &str) -> (r: &str)
    ensures
        r@ == trimmed(s@),
{
    s.trim()
}

/// Whether `bytes` are well-formed UTF-8, through `std::str::from_utf8`.
/// Claimed: the call succeeds exactly on well-formed UTF-8.
#[verifier::external_body]
pub(crate) fn is_utf8(bytes: &[u8]) -> (r: bool)
    ensures
        r == valid_utf8(bytes@),
{
    std::str::from_utf8(bytes).is_ok()
}

proof fn lemma_nul_free_len(s: Seq<u8>, i: int)
    requires
        0 <= i <= s.len(),
        forall|j: int| 0 <= j < i ==> s[j] != 0,
        i == s.len() || s[i] == 0,
    ensures
        nul_free_len(s) == i,
    decreases i,
{
    if i > 0 {
        lemma_nul_free_len(s.drop_first(), i - 1);
    }
}

/// The text of a fixed-size string field: the bytes before the first NUL,
/// decoded and trimmed.
pub fn text_of_field(bytes: &[u8]) -> (r: String)
    ensures
        r@ == field_text(bytes@),
{
    let mut n: usize = 0;
    while n < bytes.len() && bytes[n] != 0
        invariant
            0 <= n <= bytes.len(),
            forall|j: int| 0 <= j < n ==> bytes@[j] != 0,
        decreases bytes.len() - n,
    {
        n += 1;
    }
    proof {
        lemma_nul_free_len(bytes@, n as int);
    }
    let s = decode_lossy(&bytes[0..n]);
    let t = trim_text(s.as_str());
    t.to_owned()
}

/// ASCII lower case of a byte.
pub open spec fn ascii_lower(b: u8) -> u8 {
    if 0x41 <= b <= 0x5a {
        (b + 0x20) as u8
    } else {
        b
    }
}

/// Whether `s`, with its ASCII letters lowered, is `lit`.
pub open spec fn eq_ignore_ascii_case(s: Seq<u8>, lit: Seq<u8>) -> bool {
    s.len() == lit.len() && forall|i: int| 0 <= i < s.len() ==> ascii_lower(#[trigger] s[i]) == lit[i]
}

/// Whether `s` equals the lower-case ASCII literal `lit` once its ASCII letters
/// are lowered.
pub fn matches_lower(s: &[u8], lit: &[u8]) -> (r: bool)
    ensures
        r == eq_ignore_ascii_case(s@, lit@),
{
    if s.len() != lit.len() {
        return false;
    }
    let mut i: usize = 0;
    while i < s.len()
        invariant
            s.len() == lit.len(),
            0 <= i <= s.len(),
            forall|j: int| 0 <= j < i ==> ascii_lower(#[trigger] s@[j]) == lit@[j],
        decreases s.len() - i,
    {
        let b = s[i];
        let lb = if 0x41 <= b && b <= 0x5a {
            b + 0x20
        } else {
            b
        };
        if lb != lit[i] {
            return false;
        }
        i += 1;
    }
    true
}

} // verus!
