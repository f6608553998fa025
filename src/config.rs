//! Settings of a replica, from the values of its environment.

use crate::util::chars_of;
use crate::util::extract_ordinal_from_string;
use crate::util::ordinal_of;
use crate::util::parse_unsigned;
use crate::util::parse_unsigned_from;
use vstd::prelude::*;
use vstd::string::StringExecFns;

verus! {

/// Address template used when none is configured.
pub const DEFAULT_ADDRESS_TEMPLATE: &'static str =
    "statefulsetname-ORDINAL.headlessservicename.namespace.svc:9090";

/// Entry time-to-live, in seconds, used when none can be read.
pub const DEFAULT_TTL_SECONDS: u64 = 3600;

/// Microseconds in a second.
pub const MICROS_PER_SECOND: u64 = 1_000_000;

/// The time-to-live in microseconds for a configured value in seconds:
/// the value read as an unsigned number, else `DEFAULT_TTL_SECONDS`;
/// saturating at `u64::MAX`.
pub open spec fn ttl_micros_of(value: Option<Seq<char>>) -> u64 {
    let seconds: nat = match value {
        Some(v) => match parse_unsigned(v, u64::MAX as nat) {
            Some(s) => s,
            None => DEFAULT_TTL_SECONDS as nat,
        },
        None => DEFAULT_TTL_SECONDS as nat,
    };
    if seconds * MICROS_PER_SECOND > u64::MAX {
        u64::MAX
    } else {
        (seconds * MICROS_PER_SECOND) as u64
    }
}

/// The address template: the configured one, else the default.
pub fn address_template(value: Option<&str>) -> (r: String)
    ensures
        r@ == match value {
            Some(v) => v@,
            None => DEFAULT_ADDRESS_TEMPLATE@,
        },
{
    match value {
        Some(v) => String::from_str(v),
        None => String::from_str(DEFAULT_ADDRESS_TEMPLATE),
    }
}

/// The local ordinal, from the pod name: the number after its last `-`,
/// else zero.
pub fn local_node_id(pod_name: Option<&str>) -> (r: u32)
    ensures
        r == match pod_name {
            Some(p) => match ordinal_of(p@) {
                Some(o) => o,
                None => 0,
            },
            None => 0,
        },
{
    match pod_name {
        Some(p) => match extract_ordinal_from_string(p) {
            Some(o) => o,
            None => 0,
        },
        None => 0,
    }
}

/// The entry time-to-live in microseconds, from a value in seconds.
pub fn cache_item_time_to_live_micros(value: Option<&str>) -> (r: u64)
    ensures
        r == ttl_micros_of(
            match value {
                Some(v) => Some(v@),
                None => None,
            },
        ),
{
    let seconds = match value {
        Some(v) => {
            let chars = chars_of(v);
            proof {
                assert(chars@.subrange(0, chars@.len() as int) =~= v@);
            }
            match parse_unsigned_from(&chars, 0, u64::MAX) {
                Some(s) => s,
                None => DEFAULT_TTL_SECONDS,
            }
        },
        None => DEFAULT_TTL_SECONDS,
    };
    if seconds > u64::MAX / MICROS_PER_SECOND {
        proof {
            assert(seconds * MICROS_PER_SECOND > u64::MAX) by (nonlinear_arith)
                requires
                    seconds > u64::MAX / MICROS_PER_SECOND,
                    MICROS_PER_SECOND == 1_000_000,
            ;
        }
        u64::MAX
    } else {
        proof {
            assert(seconds * MICROS_PER_SECOND <= u64::MAX) by (nonlinear_arith)
                requires
                    seconds <= u64::MAX / MICROS_PER_SECOND,
                    MICROS_PER_SECOND == 1_000_000,
            ;
        }
        seconds * MICROS_PER_SECOND
    }
}

} // verus!
