//! The packet classifier: the tag that marks traffic of excluded processes.
use vstd::prelude::*;
use crate::text::{decimal, decimal_bytes};

verus! {

/// Tag that the exclusion group stamps on every packet its members send.
pub const NETCLS_CLASSID: u32 = 0x4d9f41;

/// The tag as written into the group's `net_cls.classid` attribute.
pub open spec fn classid_spec() -> Seq<u8> {
    decimal(NETCLS_CLASSID as nat)
}

/// Decimal text of the tag.
pub fn classid_text() -> (r: Vec<u8>)
    ensures
        r@ == classid_spec(),
{
    decimal_bytes(NETCLS_CLASSID)
}

} // verus!
