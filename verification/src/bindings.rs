//! Rules of the language bindings that do not depend on the language.

use vstd::prelude::*;

use crate::text::{concat2, str_eq};

verus! {

/// Where storages lie if the caller does not say.
pub const DEFAULT_STORAGE_DIR: &'static str = "./storage";

/// How a queue is accessed if the caller does not say.
pub const DEFAULT_QUEUE_ACCESS: &'static str = "single";

/// The directory of all storages.
pub fn storage_dir_or_default(dir: Option<String>) -> (r: String)
    ensures
        r@ == match dir {
            Some(d) => d@,
            None => DEFAULT_STORAGE_DIR@,
        },
{
    match dir {
        Some(d) => d,
        None => DEFAULT_STORAGE_DIR.to_string(),
    }
}

/// How a queue is asked to be accessed.
pub open spec fn asked_access(value: Option<String>) -> Seq<char> {
    match value {
        Some(v) => v@,
        None => DEFAULT_QUEUE_ACCESS@,
    }
}

/// Whether a queue may be taken to have a single client: it does with `single`,
/// it does not with `shared`, and anything else is refused.
pub fn request_queue_access_to_sole_owner(value: Option<String>) -> (r: Result<bool, String>)
    ensures
        match r {
            Ok(sole) => asked_access(value) == if sole {
                "single"@
            } else {
                "shared"@
            },
            Err(text) => {
                &&& asked_access(value) != "single"@
                &&& asked_access(value) != "shared"@
                &&& text@ == "requestQueueAccess must be 'single' or 'shared', got '"@
                    + asked_access(value) + "'"@
            },
        },
{
    let access = match value {
        Some(v) => v,
        None => DEFAULT_QUEUE_ACCESS.to_string(),
    };
    if str_eq(access.as_str(), "single") {
        Ok(true)
    } else if str_eq(access.as_str(), "shared") {
        Ok(false)
    } else {
        let mut text = concat2(
            "requestQueueAccess must be 'single' or 'shared', got '",
            access.as_str(),
        );
        text.append("'");
        Err(text)
    }
}

} // verus!
