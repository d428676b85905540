//! Which received RPCs an observer is shown: filters by kind and by sender.
use vstd::prelude::*;
use crate::hash::{lemma_raw_ext, SubotaiHash};
use crate::rpc::{Kind, Rpc};

verus! {

/// Filters out all RPCs except those of a particular kind.
#[derive(Debug, Clone, Copy, PartialEq, Eq, Structural)]
pub enum KindFilter {
    Ping,
    PingResponse,
    Store,
    StoreResponse,
    Locate,
    LocateResponse,
    Retrieve,
    RetrieveResponse,
    Probe,
    ProbeResponse,
}

/// The filter that lets this kind of RPC through. Mass stores have none.
pub open spec fn filter_of(kind: Kind) -> Option<KindFilter> {
    match kind {
        Kind::Ping => Some(KindFilter::Ping),
        Kind::PingResponse => Some(KindFilter::PingResponse),
        Kind::Store(_) => Some(KindFilter::Store),
        Kind::MassStore(_) => None,
        Kind::StoreResponse(_) => Some(KindFilter::StoreResponse),
        Kind::Locate(_) => Some(KindFilter::Locate),
        Kind::LocateResponse(_) => Some(KindFilter::LocateResponse),
        Kind::Retrieve(_) => Some(KindFilter::Retrieve),
        Kind::RetrieveResponse(_) => Some(KindFilter::RetrieveResponse),
        Kind::Probe(_) => Some(KindFilter::Probe),
        Kind::ProbeResponse(_) => Some(KindFilter::ProbeResponse),
    }
}

/// Filters of a reception iterator: an optional kind, and an optional list
/// of the senders to keep.
#[derive(Debug, Clone)]
pub struct ReceptionFilter {
    pub kind_filter: Option<KindFilter>,
    pub sender_filter: Option<Vec<SubotaiHash>>,
}

impl ReceptionFilter {
    /// The RPC passes both filters.
    pub open spec fn passes(&self, rpc: Rpc) -> bool {
        &&& match self.kind_filter {
            Some(k) => filter_of(rpc.kind) == Some(k),
            None => true,
        }
        &&& match self.sender_filter {
            Some(senders) => senders@.contains(rpc.sender.id),
            None => true,
        }
    }

    /// A filter that lets everything through.
    pub fn new() -> (r: ReceptionFilter)
        ensures
            r.kind_filter is None,
            r.sender_filter is None,
    {
        ReceptionFilter { kind_filter: None, sender_filter: None }
    }

    /// Only produces a particular RPC kind.
    pub fn of_kind(self, filter: KindFilter) -> (r: ReceptionFilter)
        ensures
            r.kind_filter == Some(filter),
            r.sender_filter == self.sender_filter,
    {
        ReceptionFilter { kind_filter: Some(filter), ..self }
    }

    /// Only from a sender.
    pub fn from(self, sender: SubotaiHash) -> (r: ReceptionFilter)
        ensures
            r.kind_filter == self.kind_filter,
            r.sender_filter matches Some(v) && v@ == seq![sender],
    {
        let mut v: Vec<SubotaiHash> = Vec::new();
        v.push(sender);
        proof {
            assert(v@ =~= seq![sender]);
        }
        ReceptionFilter { sender_filter: Some(v), ..self }
    }

    /// Only from a set of senders.
    pub fn from_senders(self, senders: Vec<SubotaiHash>) -> (r: ReceptionFilter)
        ensures
            r.kind_filter == self.kind_filter,
            r.sender_filter == Some(senders),
    {
        ReceptionFilter { sender_filter: Some(senders), ..self }
    }

    /// Whether the RPC passes both filters.
    pub fn accepts(&self, rpc: &Rpc) -> (r: bool)
        ensures
            r == self.passes(*rpc),
    {
        let kind_ok = match self.kind_filter {
            Some(k) => {
                let f = match rpc.kind {
                    Kind::Ping => Some(KindFilter::Ping),
                    Kind::PingResponse => Some(KindFilter::PingResponse),
                    Kind::Store(_) => Some(KindFilter::Store),
                    Kind::MassStore(_) => None,
                    Kind::StoreResponse(_) => Some(KindFilter::StoreResponse),
                    Kind::Locate(_) => Some(KindFilter::Locate),
                    Kind::LocateResponse(_) => Some(KindFilter::LocateResponse),
                    Kind::Retrieve(_) => Some(KindFilter::Retrieve),
                    Kind::RetrieveResponse(_) => Some(KindFilter::RetrieveResponse),
                    Kind::Probe(_) => Some(KindFilter::Probe),
                    Kind::ProbeResponse(_) => Some(KindFilter::ProbeResponse),
                };
                match f {
                    Some(g) => g == k,
                    None => false,
                }
            },
            None => true,
        };
        if !kind_ok {
            return false;
        }
        match &self.sender_filter {
            Some(senders) => {
                let mut i: usize = 0;
                proof {
                    assert(self.passes(*rpc) == senders@.contains(rpc.sender.id));
                }
                while i < senders.len()
                    invariant
                        self.passes(*rpc) == senders@.contains(rpc.sender.id),
                        i <= senders@.len(),
                        forall|q: int| 0 <= q < i ==> senders@[q] != rpc.sender.id,
                    decreases senders@.len() - i,
                {
                    if senders[i] == rpc.sender.id {
                        proof {
                            lemma_raw_ext(senders@[i as int], rpc.sender.id);
                            assert(senders@.contains(rpc.sender.id));
                        }
                        return true;
                    }
                    i += 1;
                }
                false
            },
            None => true,
        }
    }
}

} // verus!
