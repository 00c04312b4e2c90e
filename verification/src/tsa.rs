//! Ordering chunks out of a log of timestamped accesses

use vstd::prelude::*;
use crate::jif::Jif;
use crate::ord::{OrdChunk, spec_sanitize, spec_written_to};
use crate::tracer::{ACCESS_FLAG_MASK, ACCESS_WRITE_FLAG, TimestampedAccess};
use crate::ord::ORD_WRITE_FLAG;
use crate::ord::ORD_FLAG_MASK;
use crate::utils::{PAGE_SIZE, spec_align_down};

verus! {

/// The memory address of an access (its address without the metadata bits)
pub open spec fn access_addr(a: TimestampedAccess) -> u64 {
    (a.addr as u64) & ACCESS_FLAG_MASK
}

/// The single-page ordering chunk of an access: its time, its page, and the kind of data the JIF
/// resolves its address to
pub open spec fn access_chunk(jif: Jif, a: TimestampedAccess) -> OrdChunk {
    OrdChunk {
        timestamp_us: a.usecs as u64,
        vaddr: spec_sanitize(a.addr as u64),
        n_pages: 1,
        kind: jif.spec_resolve(access_addr(a))->Some_0.source,
        is_written_to: spec_written_to(a.addr as u64),
    }
}

/// The ordering chunk of an access keeps the access's time, is a single page, covers the page of
/// the access's memory address (its address without the metadata bits), holds the kind of data
/// that address resolves to, and is written to exactly when the access is a write
pub proof fn law_access_chunk(jif: Jif, a: TimestampedAccess)
    ensures
        access_chunk(jif, a).timestamp_us == a.usecs,
        access_chunk(jif, a).n_pages == 1,
        access_chunk(jif, a).is_written_to == ((a.addr as u64) & ACCESS_WRITE_FLAG != 0),
        access_chunk(jif, a).vaddr % 4096 == 0,
        access_chunk(jif, a).vaddr <= (a.addr as u64) & ACCESS_FLAG_MASK,
        (a.addr as u64) & ACCESS_FLAG_MASK < access_chunk(jif, a).vaddr + 4096,
        jif.spec_resolve((a.addr as u64) & ACCESS_FLAG_MASK) matches Some(l) ==> access_chunk(jif, a).kind == l.source,
{
    let x = a.addr as u64;
    let y = spec_align_down(x as int, PAGE_SIZE as int);
    assert(y == x - x % 4096);
    let z = (x - x % 4096) as u64;
    assert(z == y);
    assert((z & ORD_FLAG_MASK) % 4096 == 0 && (z & ORD_FLAG_MASK) <= (x & ACCESS_FLAG_MASK) && (x & ACCESS_FLAG_MASK) < (z
        & ORD_FLAG_MASK) + 4096) by (bit_vector)
        requires
            z == x - x % 4096,
            ORD_FLAG_MASK == 0x0fff_ffff_ffff_ffffu64,
            ACCESS_FLAG_MASK == 0x0fff_ffff_ffff_ffffu64,
    ;
    assert(ORD_WRITE_FLAG == ACCESS_WRITE_FLAG);
}

/// The ordering chunk of an access
fn to_ord_chunk(jif: &Jif, access: TimestampedAccess) -> (r: OrdChunk)
    requires
        jif.wf(),
        jif.spec_resolve(access_addr(access)) is Some,
    ensures
        r == access_chunk(*jif, access),
{
    let addr: u64 = (access.raw_addr() as u64) & ACCESS_FLAG_MASK;
    let kind = match jif.resolve(addr) {
        Some(l) => l.source,
        None => {
            proof {
                assert(false);
            }
            crate::itree::interval::DataSource::Zero
        },
    };
    OrdChunk::new(access.usecs as u64, access.raw_addr() as u64, 1, kind)
}

/// Construct the ordering chunks from the timestamped log, one per access, in order; every
/// access must be at an address the JIF maps
pub fn construct_ord_chunks(jif: &Jif, log: Vec<TimestampedAccess>) -> (r: Vec<OrdChunk>)
    requires
        jif.wf(),
        forall|k: int| 0 <= k < log@.len() ==> (#[trigger] jif.spec_resolve(access_addr(log@[k]))) is Some,
    ensures
        r@.len() == log@.len(),
        forall|k: int| 0 <= k < log@.len() ==> #[trigger] r@[k] == access_chunk(*jif, log@[k]),
        forall|k: int| 0 <= k < log@.len() ==> (#[trigger] r@[k]).is_written_to == ((log@[k].addr as u64) & ACCESS_WRITE_FLAG
            != 0) && r@[k].timestamp_us == log@[k].usecs && r@[k].n_pages == 1,
{
    let mut out: Vec<OrdChunk> = Vec::new();
    let mut i: usize = 0;
    while i < log.len()
        invariant
            i <= log@.len(),
            jif.wf(),
            forall|k: int| 0 <= k < log@.len() ==> (#[trigger] jif.spec_resolve(access_addr(log@[k]))) is Some,
            out@.len() == i,
            forall|k: int| 0 <= k < i ==> #[trigger] out@[k] == access_chunk(*jif, log@[k]),
        decreases log@.len() - i,
    {
        let c = to_ord_chunk(jif, log[i]);
        out.push(c);
        i = i + 1;
    }
    proof {
        assert forall|k: int| 0 <= k < log@.len() implies (#[trigger] out@[k]).is_written_to == ((log@[k].addr as u64)
            & ACCESS_WRITE_FLAG != 0) && out@[k].timestamp_us == log@[k].usecs && out@[k].n_pages == 1 by {
            law_access_chunk(*jif, log@[k]);
        }
    }
    out
}

} // verus!
