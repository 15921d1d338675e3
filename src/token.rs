//! Reading a signed token: three segments separated by dots; the signing
//! input is the first two segments as they stand, the target tag is the third
//! segment decoded from base64.
use rustc_serialize::base64::{FromBase64, FromBase64Error};
use vstd::prelude::*;

verus! {

#[verifier::external_type_specification]
#[verifier::external_body]
pub struct ExFromBase64Error(FromBase64Error);

/// The byte that separates a token's segments.
pub const SEGMENT_DELIMITER: u8 = 0x2e;

/// The bytes that base64 text stands for, or `None` where it is not base64.
pub uninterp spec fn base64_decoded(text: Seq<u8>) -> Option<Seq<u8>>;

/// Relies on rustc-serialize's `FromBase64::from_base64` for `[u8]`, which takes
/// the standard and the URL-safe alphabet, padded or not: the decoded bytes, or
/// an error, depending on `text` alone.
#[verifier::external_body]
fn decode_base64(text: &[u8]) -> (r: Result<Vec<u8>, FromBase64Error>)
    ensures
        match r {
            Ok(v) => base64_decoded(text@) == Some(v@),
            Err(_) => base64_decoded(text@) is None,
        },
{
    text.from_base64()
}

/// How many delimiters `s` holds.
pub open spec fn delimiter_count(s: Seq<u8>) -> nat
    decreases s.len(),
{
    if s.len() == 0 {
        0
    } else {
        delimiter_count(s.drop_last()) + if s.last() == SEGMENT_DELIMITER {
            1nat
        } else {
            0nat
        }
    }
}

/// Position of the last delimiter of `s`, or -1 where it holds none.
pub open spec fn last_delimiter(s: Seq<u8>) -> int
    decreases s.len(),
{
    if s.len() == 0 {
        -1
    } else if s.last() == SEGMENT_DELIMITER {
        s.len() - 1
    } else {
        last_delimiter(s.drop_last())
    }
}

/// The bytes after the last delimiter of `s`.
pub open spec fn tag_segment(s: Seq<u8>) -> Seq<u8> {
    s.subrange(last_delimiter(s) + 1, s.len() as int)
}

/// What the search needs from a token.
pub struct SignedToken {
    /// The first two segments, delimiter included, as they stand in the token.
    pub signing_input: Vec<u8>,
    /// The decoded third segment.
    pub target_tag: Vec<u8>,
}

/// Why a token was refused.
#[derive(PartialEq, Eq, Structural, Debug, Clone, Copy)]
pub enum TokenError {
    /// The token does not have exactly three segments.
    SegmentCount,
    /// The third segment is not base64.
    TagEncoding,
}

/// The bytes `s[from..to]`.
fn copy_range(s: &[u8], from: usize, to: usize) -> (r: Vec<u8>)
    requires
        from <= to <= s@.len(),
    ensures
        r@ == s@.subrange(from as int, to as int),
{
    let mut r: Vec<u8> = Vec::new();
    let mut i: usize = from;
    while i < to
        invariant
            from <= i <= to <= s@.len(),
            r@ == s@.subrange(from as int, i as int),
        decreases to - i,
    {
        r.push(s[i]);
        proof {
            assert(r@ =~= s@.subrange(from as int, i + 1));
        }
        i = i + 1;
    }
    r
}

/// Splits `token` into its signing input and its decoded target tag.
pub fn parse_token(token: &[u8]) -> (r: Result<SignedToken, TokenError>)
    ensures
        delimiter_count(token@) != 2 ==> (r matches Err(e) && e == TokenError::SegmentCount),
        delimiter_count(token@) == 2 && base64_decoded(tag_segment(token@)) is None ==> (r matches Err(
            e,
        ) && e == TokenError::TagEncoding),
        delimiter_count(token@) == 2 && base64_decoded(tag_segment(token@)) is Some ==> (r matches Ok(
            t,
        ) && t.signing_input@ == token@.subrange(0, last_delimiter(token@)) && Some(
            t.target_tag@,
        ) == base64_decoded(tag_segment(token@))),
{
    let mut count: usize = 0;
    let mut last: usize = 0;
    let mut i: usize = 0;
    while i < token.len()
        invariant
            i <= token@.len(),
            count == delimiter_count(token@.subrange(0, i as int)),
            count <= i,
            count > 0 ==> last < i && last == last_delimiter(token@.subrange(0, i as int)),
            count == 0 ==> last_delimiter(token@.subrange(0, i as int)) == -1,
        decreases token@.len() - i,
    {
        proof {
            assert(token@.subrange(0, i + 1).drop_last() =~= token@.subrange(0, i as int));
        }
        if token[i] == SEGMENT_DELIMITER {
            count = count + 1;
            last = i;
        }
        i = i + 1;
    }
    proof {
        assert(token@.subrange(0, token@.len() as int) =~= token@);
    }
    if count != 2 {
        return Err(TokenError::SegmentCount);
    }
    let encoded_tag = copy_range(token, last + 1, token.len());
    match decode_base64(encoded_tag.as_slice()) {
        Ok(tag) => {
            let signing_input = copy_range(token, 0, last);
            Ok(SignedToken { signing_input, target_tag: tag })
        },
        Err(_) => Err(TokenError::TagEncoding),
    }
}

} // verus!
