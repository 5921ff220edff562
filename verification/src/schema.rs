//! The fixed, closed set of recognized permission kinds. A permission name
//! outside this set is a schema violation wherever it appears, and querying
//! it is an error rather than an empty result.

use vstd::prelude::*;

verus! {

/// The closed enumeration of permission kinds the schema recognizes.
pub open spec fn recognized_permission(n: Seq<char>) -> bool {
    ||| n == "perf"@
    ||| n == "crater"@
    ||| n == "core-permission"@
}

/// Whether `name` is one of the schema's recognized permission kinds.
pub fn permission_known(name: &String) -> (r: bool)
    ensures
        r == recognized_permission(name@),
{
    let perf = String::from_str("perf");
    let crater = String::from_str("crater");
    let core_permission = String::from_str("core-permission");
    name.eq(&perf) || name.eq(&crater) || name.eq(&core_permission)
}

/// The recognized permission kinds, each exactly once.
pub fn permission_kinds() -> (r: Vec<String>)
    ensures
        r@.len() == 3,
        r@[0]@ == "perf"@,
        r@[1]@ == "crater"@,
        r@[2]@ == "core-permission"@,
{
    let mut v: Vec<String> = Vec::new();
    v.push(String::from_str("perf"));
    v.push(String::from_str("crater"));
    v.push(String::from_str("core-permission"));
    v
}

} // verus!
