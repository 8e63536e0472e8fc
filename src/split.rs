//! Errors of the process-exclusion subsystem.
use vstd::prelude::*;

verus! {

#[derive(Clone, Copy, Debug, PartialEq, Eq)]
pub enum Error {
    /// Unable to create cgroup.
    CreateCGroup,
    /// Unable to set class ID for cgroup.
    SetCGroupClassId,
    /// Unable to add PID to cgroup.procs.
    AddCGroupPid,
    /// Unable to move a PID out of the exclusion cgroup.
    RemoveCGroupPid,
    /// Unable to read cgroup.procs.
    ListCGroupPids,
    /// Unable to register or route through the exclusion routing table.
    RoutingTable,
}

impl Error {
    /// What went wrong, for a person to read.
    pub fn message(&self) -> (r: &'static str)
        ensures
            *self == Error::CreateCGroup ==> r@ == "Unable to create cgroup for excluded processes"@,
            *self == Error::SetCGroupClassId ==> r@ == "Unable to set cgroup class ID"@,
            *self == Error::AddCGroupPid ==> r@ == "Unable to add PID to cgroup.procs"@,
            *self == Error::RemoveCGroupPid ==> r@ == "Unable to move PID out of the exclusion cgroup"@,
            *self == Error::ListCGroupPids ==> r@ == "Unable to obtain PIDs from cgroup.procs"@,
            *self == Error::RoutingTable ==> r@ == "Unable to set up the exclusion routing table"@,
    {
        match self {
            Error::CreateCGroup => "Unable to create cgroup for excluded processes",
            Error::SetCGroupClassId => "Unable to set cgroup class ID",
            Error::AddCGroupPid => "Unable to add PID to cgroup.procs",
            Error::RemoveCGroupPid => "Unable to move PID out of the exclusion cgroup",
            Error::ListCGroupPids => "Unable to obtain PIDs from cgroup.procs",
            Error::RoutingTable => "Unable to set up the exclusion routing table",
        }
    }
}

} // verus!
