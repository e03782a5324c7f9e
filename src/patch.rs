//! Which edits can be patched into a running target, and the memory writes
//! that do it.

use crate::diff::{Diff, DiffView};
use crate::gdb;
use crate::program::texts_equal;
use vstd::prelude::*;

verus! {

/// Errors of the patch applier.
#[derive(Debug, Clone, PartialEq, Eq)]
pub enum Error {
    /// The edit cannot be applied to a running target; restart it.
    NotSupported,
    /// The remote debug client failed.
    Gdb(gdb::Error),
}

impl From<gdb::Error> for Error {
    fn from(e: gdb::Error) -> (r: Error)
        ensures
            r == Error::Gdb(e),
    {
        Error::Gdb(e)
    }
}

impl vstd::std_specs::convert::FromSpecImpl<gdb::Error> for Error {
    open spec fn obeys_from_spec() -> bool {
        true
    }

    open spec fn from_spec(e: gdb::Error) -> Error {
        Error::Gdb(e)
    }
}

/// A write of `data` at `address` in target memory.
#[derive(Debug, Clone)]
pub struct MemoryWrite {
    pub address: u64,
    pub data: Vec<u8>,
}

/// The write that applies an edit in place, or `None` when the edit adds or
/// removes an item, or changes its size, its RAM address or its section.
pub open spec fn edit_write(d: DiffView) -> Option<(u64, Seq<u8>)> {
    match d {
        DiffView::Changed(o, n) => if o.content.len() == n.content.len() && o.ram_addr
            == n.ram_addr && o.section_name == n.section_name {
            Some((o.ram_addr, n.content))
        } else {
            None
        },
        _ => None,
    }
}

/// The writes for the first `n` edits, in order, stopping before the first
/// edit that cannot be applied; and whether all `n` can be.
pub open spec fn plan_upto(ds: Seq<DiffView>, n: nat) -> (Seq<(u64, Seq<u8>)>, bool)
    decreases n,
{
    if n == 0 {
        (Seq::empty(), true)
    } else {
        let (ws, ok) = plan_upto(ds, (n - 1) as nat);
        if !ok {
            (ws, false)
        } else {
            match edit_write(ds[n - 1]) {
                Some(w) => (ws.push(w), true),
                None => (ws, false),
            }
        }
    }
}

/// The writes for all edits of `ds`, up to the first that cannot be applied.
pub open spec fn plan_of(ds: Seq<DiffView>) -> (Seq<(u64, Seq<u8>)>, bool) {
    plan_upto(ds, ds.len())
}

/// The memory writes to issue, in order, and whether every edit is covered
/// by them. When not, the edit after the last write is not supported.
#[derive(Debug, Clone)]
pub struct Plan {
    pub writes: Vec<MemoryWrite>,
    pub supported: bool,
}

impl Plan {
    pub open spec fn write_views(&self) -> Seq<(u64, Seq<u8>)> {
        self.writes@.map_values(|w: MemoryWrite| (w.address, w.data@))
    }
}

/// The write for one edit, or `NotSupported`.
pub fn check_edit(d: &Diff) -> (r: Result<MemoryWrite, Error>)
    ensures
        match edit_write(d@) {
            Some((a, c)) => r matches Ok(w) && w.address == a && w.data@ == c,
            None => r matches Err(Error::NotSupported),
        },
{
    match d {
        Diff::Added(_) => Err(Error::NotSupported),
        Diff::Removed(_) => Err(Error::NotSupported),
        Diff::Changed(o, n) => {
            if o.size() != n.size() {
                return Err(Error::NotSupported);
            }
            if o.ram_addr != n.ram_addr {
                return Err(Error::NotSupported);
            }
            if !texts_equal(&o.section_name, &n.section_name) {
                return Err(Error::NotSupported);
            }
            let data = gdb::copy_range(n.content.as_slice(), 0, n.content.len());
            assert(data@ =~= n.content@);
            Ok(MemoryWrite { address: o.ram_addr, data })
        },
    }
}

/// The writes that apply `diff` in order, up to the first edit that is not
/// supported.
pub fn plan(diff: &[Diff]) -> (r: Plan)
    ensures
        (r.write_views(), r.supported) == plan_of(diff@.map_values(|d: Diff| d@)),
{
    let ghost ds = diff@.map_values(|d: Diff| d@);
    let mut writes: Vec<MemoryWrite> = Vec::new();
    let mut i: usize = 0;
    while i < diff.len()
        invariant
            ds == diff@.map_values(|d: Diff| d@),
            i <= diff@.len(),
            plan_upto(ds, i as nat) == (
                writes@.map_values(|w: MemoryWrite| (w.address, w.data@)),
                true,
            ),
        decreases diff@.len() - i,
    {
        assert(ds[i as int] == diff@[i as int]@);
        match check_edit(&diff[i]) {
            Ok(w) => {
                writes.push(w);
                assert(writes@.map_values(|w: MemoryWrite| (w.address, w.data@)) =~= plan_upto(
                    ds,
                    i as nat,
                ).0.push(plan_upto(ds, (i + 1) as nat).0.last()));
            },
            Err(_) => {
                proof {
                    lemma_refusal_persists(ds, (i + 1) as nat, ds.len());
                }
                return Plan { writes, supported: false };
            },
        }
        i += 1;
    }
    Plan { writes, supported: true }
}

/// Once an edit is refused, no later edit changes the plan.
pub proof fn lemma_refusal_persists(ds: Seq<DiffView>, i: nat, n: nat)
    requires
        i <= n,
        !plan_upto(ds, i).1,
    ensures
        plan_upto(ds, n) == plan_upto(ds, i),
    decreases n - i,
{
    if n > i {
        lemma_refusal_persists(ds, i, (n - 1) as nat);
    }
}

/// Once all of the first `n` edits are supported, there is one write for
/// each of them.
pub proof fn lemma_write_count(ds: Seq<DiffView>, n: nat)
    requires
        n <= ds.len(),
    ensures
        plan_upto(ds, n).0.len() <= n,
        plan_upto(ds, n).1 ==> plan_upto(ds, n).0.len() == n,
    decreases n,
{
    if n > 0 {
        lemma_write_count(ds, (n - 1) as nat);
    }
}

/// An edit that adds or removes an item, or changes its size, RAM address or
/// section, makes the whole diff unsupported, and no write is issued for it
/// or for anything after it: a diff that starts with one issues no write.
pub proof fn lemma_unsupported_edit_stops(ds: Seq<DiffView>, i: int)
    requires
        0 <= i < ds.len(),
        edit_write(ds[i]) is None,
    ensures
        !plan_of(ds).1,
        plan_of(ds).0.len() <= i,
{
    lemma_write_count(ds, i as nat);
    if plan_upto(ds, i as nat).1 {
        assert(!plan_upto(ds, (i + 1) as nat).1);
    }
    lemma_refusal_persists(ds, (i + 1) as nat, ds.len());
    if !plan_upto(ds, i as nat).1 {
        lemma_refusal_persists(ds, i as nat, (i + 1) as nat);
    }
}

} // verus!
