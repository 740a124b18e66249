//! The message vocabulary of a TCP-like exchange described with session
//! types, and the projections the receiving side makes of its packets.
use vstd::prelude::*;

use crate::session::{Buffer, Close, HasDual, Offer, Packet, Rec, Recv, Send, Var, Z};

verus! {

/// Synchronize.
pub struct Syn;

/// Synchronize-acknowledgement.
pub struct SynAck;

/// Acknowledgement.
pub struct Ack;

/// Close the connection.
pub struct Fin;

/// Handshake phase.
pub type TCPHandshake<TCPRecv> = Recv<Syn, Send<SynAck, Recv<Ack, TCPRecv>>>;

/// Data transfer phase.
pub type TCPRecv<TCPClose> = Rec<Recv<Vec<Packet>, Send<Vec<usize>, Offer<TCPClose, Var<Z>>>>>;

/// Close phase.
pub type TCPClose = Send<Ack, Send<Fin, Recv<Ack, Close>>>;

/// The server's side of the whole exchange.
pub type TCPServer = TCPHandshake<TCPRecv<TCPClose>>;

/// The client's side: the dual of the server's.
pub type TCPClient = <TCPServer as HasDual>::Dual;

/// The sequence number of each packet, in order.
pub fn get_seq_nums(packets: &Vec<Packet>) -> (r: Vec<usize>)
    ensures
        r@.len() == packets@.len(),
        forall|i: int| 0 <= i < r@.len() ==> #[trigger] r@[i] == packets@[i].seqno,
{
    let mut r: Vec<usize> = Vec::new();
    let mut i: usize = 0;
    while i < packets.len()
        invariant
            0 <= i <= packets@.len(),
            r@.len() == i,
            forall|k: int| 0 <= k < i ==> #[trigger] r@[k] == packets@[k].seqno,
        decreases packets@.len() - i,
    {
        r.push(packets[i].seqno);
        i += 1;
    }
    r
}

/// A copy of the buffer of each packet, in order.
pub fn get_buffers(packets: &Vec<Packet>) -> (r: Vec<Buffer>)
    ensures
        r@.len() == packets@.len(),
        forall|i: int| 0 <= i < r@.len() ==> #[trigger] r@[i]@ == packets@[i].buf@,
{
    let mut r: Vec<Buffer> = Vec::new();
    let mut i: usize = 0;
    while i < packets.len()
        invariant
            0 <= i <= packets@.len(),
            r@.len() == i,
            forall|k: int| 0 <= k < i ==> #[trigger] r@[k]@ == packets@[k].buf@,
        decreases packets@.len() - i,
    {
        r.push(packets[i].buf.clone());
        i += 1;
    }
    r
}

/// Packets in order of non-decreasing sequence number.
pub open spec fn seqno_sorted(s: Seq<Packet>) -> bool {
    forall|i: int, j: int| 0 <= i < j < s.len() ==> #[trigger] s[i].seqno <= #[trigger] s[j].seqno
}

/// The same packets, ordered by sequence number.
pub fn sort_by_seqno(packets: Vec<Packet>) -> (r: Vec<Packet>)
    ensures
        seqno_sorted(r@),
        r@.to_multiset() == packets@.to_multiset(),
        r@.len() == packets@.len(),
{
    broadcast use vstd::multiset::group_multiset_axioms;

    let mut input = packets;
    let mut out: Vec<Packet> = Vec::new();
    proof {
        out@.to_multiset_ensures();
        vstd::multiset::lemma_multiset_empty_len(out@.to_multiset());
    }
    while input.len() > 0
        invariant
            seqno_sorted(out@),
            out@.to_multiset().add(input@.to_multiset()) == packets@.to_multiset(),
            out@.len() + input@.len() == packets@.len(),
        decreases input.len(),
    {
        let ghost in0 = input@;
        let ghost out0 = out@;
        let p = input.remove(0);
        let mut j: usize = out.len();
        while j > 0 && out[j - 1].seqno > p.seqno
            invariant
                j <= out@.len(),
                out@ == out0,
                forall|t: int| j <= t < out@.len() ==> #[trigger] out@[t].seqno > p.seqno,
            decreases j,
        {
            j -= 1;
        }
        let ghost pj = p;
        out.insert(j, p);
        proof {
            assert(out@ == out0.insert(j as int, pj));
            assert forall|a: int, b: int| 0 <= a < b < out@.len() implies #[trigger] out@[a].seqno
                <= #[trigger] out@[b].seqno by {
                if a < j && b == j {
                    assert(out0[a].seqno <= out0[j - 1].seqno);
                } else if a == j && b > j {
                    assert(out@[b] == out0[b - 1]);
                } else if b < j {
                } else if a < j {
                    assert(out@[b] == out0[b - 1]);
                } else {
                    assert(out@[a] == out0[a - 1]);
                    assert(out@[b] == out0[b - 1]);
                }
            }
            vstd::seq_lib::to_multiset_remove(in0, 0);
            vstd::seq_lib::to_multiset_insert(out0, j as int, pj);
            vstd::seq_lib::to_multiset_contains(in0, pj);
            assert(in0[0] == pj);
            assert(out@.to_multiset().add(input@.to_multiset()) =~= out0.to_multiset().add(
                in0.to_multiset(),
            ));
        }
    }
    proof {
        input@.to_multiset_ensures();
        vstd::multiset::lemma_multiset_empty_len(input@.to_multiset());
        assert(out@.to_multiset().add(input@.to_multiset()) =~= out@.to_multiset());
    }
    out
}

/// What the receiving side makes of the packets it got: their buffers, in
/// order of sequence number.
pub fn reassemble(packets: Vec<Packet>) -> (r: Vec<Buffer>)
    ensures
        exists|sorted: Seq<Packet>|
            {
                &&& seqno_sorted(sorted)
                &&& sorted.to_multiset() == packets@.to_multiset()
                &&& r@.len() == sorted.len()
                &&& forall|i: int| 0 <= i < r@.len() ==> #[trigger] r@[i]@ == sorted[i].buf@
            },
{
    let sorted = sort_by_seqno(packets);
    get_buffers(&sorted)
}

} // verus!
