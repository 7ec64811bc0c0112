//! Peers and the datagrams that go to them.

use vstd::prelude::*;

verus! {

/// The address of a peer.
#[derive(Clone, Copy, Debug, PartialEq, Eq, Structural)]
pub enum PeerAddr {
    V4 { ip: u32, port: u16 },
    V6 { ip: u128, port: u16, flowinfo: u32, scope_id: u32 },
}

/// Bytes on their way to a peer.
#[derive(Clone, Debug)]
pub struct Datagram {
    pub to: PeerAddr,
    pub data: Vec<u8>,
}

/// A `Datagram` with its bytes as a sequence.
pub struct DatagramView {
    pub to: PeerAddr,
    pub data: Seq<u8>,
}

impl View for Datagram {
    type V = DatagramView;

    open spec fn view(&self) -> DatagramView {
        DatagramView { to: self.to, data: self.data@ }
    }
}

/// Datagrams with their bytes as sequences.
pub open spec fn sent(datagrams: Seq<Datagram>) -> Seq<DatagramView> {
    datagrams.map_values(|d: Datagram| d@)
}

/// The datagram to `to`, where there is a receiver.
pub open spec fn deliver(to: Option<PeerAddr>, data: Seq<u8>) -> Seq<DatagramView> {
    match to {
        Some(to) => seq![DatagramView { to, data }],
        None => Seq::empty(),
    }
}

/// Whether `order` lists every element of `s` once.
pub open spec fn enumerates<T>(order: Seq<T>, s: Set<T>) -> bool {
    order.no_duplicates() && order.to_set() == s
}

/// No datagrams.
pub fn nothing() -> (r: Vec<Datagram>)
    ensures
        sent(r@) == Seq::<DatagramView>::empty(),
{
    let r: Vec<Datagram> = Vec::new();
    proof {
        assert(sent(r@) =~= Seq::empty());
    }
    r
}

/// Adds a datagram, where there is a receiver.
pub fn push_delivery(datagrams: &mut Vec<Datagram>, to: Option<PeerAddr>, data: Vec<u8>)
    ensures
        sent(final(datagrams)@) == sent(old(datagrams)@) + deliver(to, data@),
{
    let ghost before = datagrams@;
    if let Some(to) = to {
        datagrams.push(Datagram { to, data });
    }
    proof {
        assert(sent(datagrams@) =~= sent(before) + deliver(to, data@));
    }
}

} // verus!
