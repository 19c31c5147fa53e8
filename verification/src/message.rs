//! The response an unlock request is answered with.

use vstd::prelude::*;

verus! {

/// What the daemon tells an unlock client: success, with the time the
/// entry was last locked if one was recorded; or failure, with a cause
/// and the time the entry was last unlocked if one was recorded.
pub enum UnlockResponse {
    Success { locked_at: Option<i64> },
    Fail { cause: String, unlocked_at: Option<i64> },
}

/// The ghost shape of a response: the same data over sequence views.
pub enum ResponseModel {
    Success { locked_at: Option<i64> },
    Fail { cause: Seq<char>, unlocked_at: Option<i64> },
}

/// What a response denotes.
pub open spec fn response_model(r: UnlockResponse) -> ResponseModel {
    match r {
        UnlockResponse::Success { locked_at } => ResponseModel::Success { locked_at },
        UnlockResponse::Fail { cause, unlocked_at } => ResponseModel::Fail {
            cause: cause@,
            unlocked_at,
        },
    }
}

} // verus!
