//! The holder of the current index. A refresh replaces the whole snapshot
//! in one step, or leaves it as it was; a reader that took a snapshot keeps
//! it, whole, for as long as it needs it.
use crate::index::{spec_lookup, ASNs, LoadError};
use crate::ip::IpAddress;
use crate::record::{AsnView, ASN};
use std::sync::Arc;
use vstd::prelude::*;

verus! {

/// Relies on `Arc::clone`: the new handle points to the same value.
#[verifier::external_body]
fn share(a: &Arc<ASNs>) -> (r: Arc<ASNs>)
    ensures
        *r == **a,
{
    Arc::clone(a)
}

/// The currently active index.
pub struct SnapshotHolder {
    current: Arc<ASNs>,
}

impl View for SnapshotHolder {
    type V = Seq<AsnView>;

    closed spec fn view(&self) -> Seq<AsnView> {
        self.current@
    }
}

impl SnapshotHolder {
    /// Starts with the index of the first successful load.
    pub fn new(first: ASNs) -> (r: SnapshotHolder)
        ensures
            r@ == first@,
    {
        SnapshotHolder { current: Arc::new(first) }
    }

    /// The active snapshot, shared: it stays valid after later refreshes.
    pub fn snapshot(&self) -> (r: Arc<ASNs>)
        ensures
            r@ == self@,
    {
        share(&self.current)
    }

    /// Looks `ip` up in the active snapshot.
    pub fn lookup_by_ip(&self, ip: IpAddress) -> (r: Option<&ASN>)
        ensures
            match r {
                Some(a) => spec_lookup(self@, ip) == Some(a@),
                None => spec_lookup(self@, ip) is None,
            },
    {
        self.current.lookup_by_ip(ip)
    }

    /// Installs `next` as the active snapshot, whole.
    pub fn install(&mut self, next: ASNs)
        ensures
            final(self)@ == next@,
    {
        self.current = Arc::new(next);
    }

    /// Ends a refresh attempt: a successful load becomes the active
    /// snapshot; a failed one leaves the active snapshot, and every answer
    /// it gives, as they were, and is reported to the caller.
    pub fn refresh_now(&mut self, loaded: Result<ASNs, LoadError>) -> (r: Result<(), LoadError>)
        ensures
            final(self)@ == old(self)@ || (loaded is Ok && final(self)@ == loaded->Ok_0@),
            match loaded {
                Ok(next) => r is Ok && final(self)@ == next@,
                Err(e) => r == Err::<(), LoadError>(e) && final(self)@ == old(self)@ && forall|ip: IpAddress|
                    spec_lookup(final(self)@, ip) == #[trigger] spec_lookup(old(self)@, ip),
            },
    {
        match loaded {
            Ok(next) => {
                self.install(next);
                Ok(())
            },
            Err(e) => Err(e),
        }
    }
}

} // verus!
