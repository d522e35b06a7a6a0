use vstd::prelude::*;

use crate::engine::Kind;
use crate::errors::MutationError;

verus! {

/// A mutation as the gateway hands it over: already parsed, not yet
/// validated. `kind` is the wire encoding: `"d"` for a debit, `"c"` for a
/// credit.
pub struct MutationRequest {
    pub amount: i32,
    pub kind: String,
    pub description: String,
}

/// The mutation kind a wire string denotes, if any.
pub open spec fn kind_of(s: Seq<char>) -> Option<Kind> {
    if s == seq!['d'] {
        Some(Kind::Debit)
    } else if s == seq!['c'] {
        Some(Kind::Credit)
    } else {
        None
    }
}

/// A description is valid when it is non-empty and at most 10 characters.
pub open spec fn valid_description(s: Seq<char>) -> bool {
    1 <= s.len() <= 10
}

/// A request is valid when the amount is at least 1, the kind is a known
/// wire encoding, and the description is valid.
pub open spec fn valid_request(req: MutationRequest) -> bool {
    &&& 1 <= req.amount
    &&& kind_of(req.kind@) is Some
    &&& valid_description(req.description@)
}

/// Decodes a one-character wire string into a mutation kind.
fn parse_kind(s: &str) -> (r: Option<Kind>)
    ensures
        r == kind_of(s@),
{
    if s.unicode_len() == 1 {
        let c = s.get_char(0);
        if c == 'd' {
            proof {
                assert(s@ =~= seq!['d']);
            }
            Some(Kind::Debit)
        } else if c == 'c' {
            proof {
                assert(s@ =~= seq!['c']);
            }
            Some(Kind::Credit)
        } else {
            proof {
                assert(s@ != seq!['d'] && s@ != seq!['c']) by {
                    assert(s@[0] == c);
                }
            }
            None
        }
    } else {
        proof {
            assert(s@ != seq!['d'] && s@ != seq!['c']) by {
                assert(seq!['d'].len() == 1 && seq!['c'].len() == 1);
            }
        }
        None
    }
}

/// Validates a mutation request before any storage access.
///
/// Returns the decoded kind exactly when the request is valid, and
/// `InvalidRequest` otherwise.
pub fn validate_request(req: &MutationRequest) -> (r: Result<Kind, MutationError>)
    ensures
        valid_request(*req) ==> r == Ok::<Kind, MutationError>(kind_of(req.kind@)->Some_0),
        !valid_request(*req) ==> r == Err::<Kind, MutationError>(MutationError::InvalidRequest),
{
    let kind = match parse_kind(req.kind.as_str()) {
        Some(k) => k,
        None => {
            return Err(MutationError::InvalidRequest);
        },
    };
    let desc_len = req.description.as_str().unicode_len();
    if desc_len == 0 || desc_len > 10 {
        return Err(MutationError::InvalidRequest);
    }
    if req.amount < 1 {
        return Err(MutationError::InvalidRequest);
    }
    Ok(kind)
}

} // verus!
