//! The list of cluster members a process is started with.

use vstd::prelude::*;

use crate::kv::codec::copy_range;
use crate::raft::ids::NodeMap;
use crate::raft::types::NodeId;
use crate::text;
use crate::text::{find_byte, parse_decimal};

verus! {

/// What is wrong with an entry of the member list.
#[derive(Debug, Eq, PartialEq)]
pub enum PeersError {
    /// The entry has no `=`.
    MissingSeparator { entry: Vec<u8> },
    /// What stands before the `=` is no id.
    InvalidId { entry: Vec<u8> },
}

/// The view of a [`PeersError`].
#[verifier::ext_equal]
pub enum PeersErrorView {
    MissingSeparator { entry: Seq<u8> },
    InvalidId { entry: Seq<u8> },
}

impl DeepView for PeersError {
    type V = PeersErrorView;

    open spec fn deep_view(&self) -> PeersErrorView {
        match self {
            PeersError::MissingSeparator { entry } => PeersErrorView::MissingSeparator {
                entry: entry@,
            },
            PeersError::InvalidId { entry } => PeersErrorView::InvalidId { entry: entry@ },
        }
    }
}

/// One `id=address` entry.
pub open spec fn read_peer(entry: Seq<u8>) -> Result<(NodeId, Seq<u8>), PeersErrorView> {
    let at = text::find_from(entry, 61, 0);
    if at >= entry.len() {
        Err(PeersErrorView::MissingSeparator { entry })
    } else {
        match text::parsed(entry.take(at)) {
            Some(id) => Ok((NodeId(id), entry.skip(at + 1))),
            None => Err(PeersErrorView::InvalidId { entry }),
        }
    }
}

/// The entries from `from` on, separated by commas, added to `peers`: a later
/// entry takes the place of an earlier one of the same id.
pub open spec fn read_peers(raw: Seq<u8>, from: int, peers: Map<NodeId, Seq<u8>>) -> Result<
    Map<NodeId, Seq<u8>>,
    PeersErrorView,
>
    decreases raw.len() - from + 1,
{
    let end = text::find_from(raw, 44, from);
    match read_peer(raw.subrange(from, end)) {
        Ok((id, address)) => if end >= raw.len() || end < from {
            Ok(peers.insert(id, address))
        } else {
            read_peers(raw, end + 1, peers.insert(id, address))
        },
        Err(error) => Err(error),
    }
}

/// The views of addresses by id.
pub open spec fn view_addresses(peers: Map<NodeId, Vec<u8>>) -> Map<NodeId, Seq<u8>> {
    Map::new(|id: NodeId| peers.contains_key(id), |id: NodeId| peers[id]@)
}

/// Reads the member list: `id=host:port` entries separated by commas, this
/// node's own among them.
pub fn parse_peers(raw: &[u8]) -> (result: Result<NodeMap<Vec<u8>>, PeersError>)
    ensures
        match result {
            Ok(peers) => peers.wf() && read_peers(raw@, 0, Map::empty()) == Ok::<
                Map<NodeId, Seq<u8>>,
                PeersErrorView,
            >(view_addresses(peers@)),
            Err(error) => read_peers(raw@, 0, Map::empty()) == Err::<
                Map<NodeId, Seq<u8>>,
                PeersErrorView,
            >(error.deep_view()),
        },
{
    let mut peers: NodeMap<Vec<u8>> = NodeMap::new();
    let mut from: usize = 0;
    assert(view_addresses(peers@) =~= Map::empty());
    loop
        invariant
            from <= raw@.len(),
            peers.wf(),
            read_peers(raw@, 0, Map::empty()) == read_peers(
                raw@,
                from as int,
                view_addresses(peers@),
            ),
        decreases raw.len() - from,
    {
        let end: usize = find_byte(raw, 44, from);
        let entry = copy_range(raw, from, end);
        let at: usize = find_byte(&entry, 61, 0);
        if at == entry.len() {
            return Err(PeersError::MissingSeparator { entry });
        }
        proof {
            assert(entry@.subrange(0, at as int) =~= entry@.take(at as int));
        }
        let id = match parse_decimal(&copy_range(&entry, 0, at)) {
            Some(id) => NodeId(id),
            None => {
                return Err(PeersError::InvalidId { entry });
            },
        };
        let address = copy_range(&entry, at + 1, entry.len());
        let ghost before = view_addresses(peers@);
        assert(address@ =~= entry@.skip(at + 1));
        peers.insert(id, address);
        assert(view_addresses(peers@) =~= before.insert(id, address@));
        if end == raw.len() {
            return Ok(peers);
        }
        from = end + 1;
    }
}

} // verus!
