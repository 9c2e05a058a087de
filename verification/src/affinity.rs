//! Processor masks, for binding a thread to an operating system processor.

use nix::errno::Errno;
use nix::sched::CpuSet;
use vstd::prelude::*;

verus! {

/// `nix::sched::CpuSet`, a bit mask of operating system processors. It is opaque here: what it
/// holds is `cpu_set_members`.
#[verifier::external_type_specification]
#[verifier::external_body]
pub struct ExCpuSet(CpuSet);

/// `nix::errno::Errno`, the error that `CpuSet::set` gives back. It is opaque and only ever
/// dropped.
#[verifier::external_type_specification]
#[verifier::external_body]
pub struct ExErrno(Errno);

/// The processors whose bit is set in a mask.
pub uninterp spec fn cpu_set_members(set: CpuSet) -> Set<nat>;

/// The number of processors that a mask has a bit for, eight to the byte.
pub open spec fn cpu_set_size() -> nat {
    8 * vstd::layout::size_of::<CpuSet>()
}

/// Whether a mask has a bit for the processor.
pub open spec fn cpu_fits(cpu_id: u32) -> bool {
    (cpu_id as nat) < cpu_set_size()
}

/// `nix::sched::CpuSet::new`: the mask that it makes has no bit set.
pub assume_specification[ CpuSet::new ]() -> (set: CpuSet)
    ensures
        cpu_set_members(set) == Set::<nat>::empty(),
;

/// `nix::sched::CpuSet::set`: it sets the bit of the processor `field` and no other where the mask
/// has a bit for it, and otherwise fails and leaves the mask as it was. `CpuSet` is `repr(C)` over
/// a single `cpu_set_t`, so that the bound it compares with, the bits of a `cpu_set_t`, is the
/// bits of the mask itself. On every system that has `CpuSet`, those are at least 32.
pub assume_specification[ CpuSet::set ](set: &mut CpuSet, field: usize) -> (result: Result<
    (),
    Errno,
>)
    ensures
        result is Ok <==> (field as nat) < cpu_set_size(),
        field < 32 ==> result is Ok,
        result is Ok ==> cpu_set_members(*final(set)) == cpu_set_members(*old(set)).insert(
            field as nat,
        ),
        result is Err ==> cpu_set_members(*final(set)) == cpu_set_members(*old(set)),
;

/// The mask that holds the one processor `cpu_id`, or `None` where no mask has a bit for it.
pub fn cpu_mask(cpu_id: u32) -> (mask: Option<CpuSet>)
    ensures
        mask is Some <==> cpu_fits(cpu_id),
        cpu_id < 32 ==> mask is Some,
        mask is Some ==> cpu_set_members(mask->0) == set![cpu_id as nat],
{
    let mut cpus = CpuSet::new();
    match cpus.set(cpu_id as usize) {
        Ok(()) => Some(cpus),
        Err(_) => None,
    }
}

} // verus!
