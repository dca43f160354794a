//! The requests that the broker answers.

use vstd::prelude::*;

use crate::protocol::apikey;
use crate::protocol::header::flexible_since;

verus! {

/// The requests that the broker answers: key, lowest and highest version. The
/// highest versions are, but for `ApiVersions`, those before the requests took
/// on compact lengths.
pub const SUPPORTED_API_KEYS: [(i16, i16, i16); 17] = [
    (0, 0, 3),
    (1, 0, 5),
    (2, 0, 2),
    (3, 0, 4),
    (8, 0, 3),
    (9, 0, 3),
    (10, 0, 1),
    (11, 0, 2),
    (12, 0, 1),
    (13, 0, 1),
    (14, 0, 1),
    (18, 0, 4),
    (15, 0, 2),
    (16, 0, 2),
    (19, 0, 2),
    (20, 0, 1),
    (22, 0, 1),
];

/// No supported version but those of `ApiVersions` takes compact lengths.
pub proof fn law_supported_are_not_compact(i: int)
    requires
        0 <= i < SUPPORTED_API_KEYS@.len(),
        SUPPORTED_API_KEYS@[i].0 != apikey::API_VERSIONS,
    ensures
        flexible_since(SUPPORTED_API_KEYS@[i].0) matches Some(v) ==> SUPPORTED_API_KEYS@[i].2 < v,
{
}

} // verus!
