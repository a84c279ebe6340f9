//! Packets of a connection that go out as one, for the socket to cut.
use vstd::prelude::*;

use crate::clock::Instant;
use crate::conn::transmit::batch::Emission;
use crate::conn::transmit::connection::Connection;
use crate::conn::transmit::crypto::Epoch;
use crate::conn::transmit::emission::all_bounded;
use crate::frame::put_bytes;
use crate::mux::output::{Outgoing, StorageModel};
use crate::mux::router::drive::sends;
use crate::secrets::PeerAddress;

verus! {

/// Packets, one behind the other.
pub open spec fn joined(packets: Seq<Seq<u8>>) -> Seq<u8>
    decreases packets.len(),
{
    if packets.len() == 0 {
        Seq::empty()
    } else {
        joined(packets.drop_last()) + packets.last()
    }
}

/// Packets whose first is not empty are not empty together.
pub proof fn lemma_joined_some(packets: Seq<Seq<u8>>)
    requires
        packets.len() > 0,
        packets[0].len() > 0,
    ensures
        joined(packets).len() > 0,
    decreases packets.len(),
{
    if packets.len() > 1 {
        lemma_joined_some(packets.drop_last());
    }
}

/// The packets of a turn that go out as one: all of the length of the first, but for the
/// last, which may be shorter.
pub struct Train {
    pub conn: Connection,
    pub packets: Seq<Seq<u8>>,
    /// How many packets may still be sent.
    pub left: int,
}

impl Train {
    /// Before the first packet.
    pub open spec fn begins(conn: Connection, left: int) -> Train {
        Train { conn, packets: Seq::empty(), left }
    }

    /// The length of the first packet.
    pub open spec fn segment(self) -> int {
        self.packets[0].len() as int
    }

    /// Whether another packet may follow. Probes with handshake bytes go first only: their
    /// length has no limit.
    pub open spec fn open(self) -> bool {
        &&& self.left > 0
        &&& self.packets.len() > 0 ==> {
            &&& 0 < self.segment() <= u16::MAX
            &&& self.packets.last().len() == self.segment()
            &&& all_bounded(self.conn@)
        }
    }

    /// How long the next packet may be.
    pub open spec fn ceiling(self, max_packet_bytes: int) -> int {
        if self.packets.len() == 0 {
            max_packet_bytes
        } else {
            self.segment()
        }
    }

    /// With one packet more.
    pub open spec fn with(self, conn: Connection, packet: Seq<u8>) -> Train {
        Train { conn, packets: self.packets.push(packet), left: self.left - 1 }
    }

    /// Whether one more packet follows.
    pub open spec fn goes_on(self, now: Instant, max_packet_bytes: int, next: Train) -> bool {
        &&& self.open()
        &&& exists|packet: Vec<u8>|
            {
                &&& #[trigger] sends(
                    self.conn,
                    now,
                    self.ceiling(max_packet_bytes),
                    next.conn,
                    Some(packet),
                )
                &&& self.packets.len() > 0 ==> packet@.len() <= self.segment()
                &&& next == self.with(next.conn, packet@)
            }
    }

    /// Whether none follows.
    pub open spec fn stops(self, now: Instant, max_packet_bytes: int, end: Train) -> bool {
        if self.open() {
            sends(self.conn, now, self.ceiling(max_packet_bytes), end.conn, None) && end == (
            Train { conn: end.conn, ..self })
        } else {
            end == self
        }
    }

    /// Whether some states are those of a train, each of which leads to the next.
    pub open spec fn steps(states: Seq<Train>, now: Instant, max_packet_bytes: int) -> bool {
        &&& states.len() > 0
        &&& forall|i: int|
            0 <= i < states.len() - 1 ==> (#[trigger] states[i]).goes_on(
                now,
                max_packet_bytes,
                states[i + 1],
            )
    }

    /// Whether a train that began so ended so.
    pub open spec fn ran(self, now: Instant, max_packet_bytes: int, end: Train) -> bool {
        exists|states: Seq<Train>|
            {
                &&& #[trigger] Train::steps(states, now, max_packet_bytes)
                &&& states[0] == self
                &&& states.last().stops(now, max_packet_bytes, end)
            }
    }

    /// What goes out of the packets: one alone goes plain, and several go as a batch.
    pub open spec fn goes_as(self, addr: PeerAddress, item: Outgoing) -> bool {
        match item {
            Outgoing::Plain(to, payload) => self.packets.len() == 1 && to == addr && payload@
                == joined(self.packets),
            Outgoing::Batch(to, payload, segment) => self.packets.len() > 1 && to == addr
                && payload@ == joined(self.packets) && segment == self.segment(),
            _ => false,
        }
    }

    /// Whether the packets were put in, and what became of what waits: in a buffer that was
    /// handed out, which is given back where there are none, or no room for them.
    pub open spec fn queued(
        self,
        before: StorageModel,
        addr: PeerAddress,
        after: StorageModel,
        produced: bool,
    ) -> bool {
        let out = before.buffer_taken();
        if self.packets.len() == 0 {
            !produced && after == out.recycled()
        } else {
            exists|item: Outgoing|
                {
                    &&& #[trigger] self.goes_as(addr, item)
                    &&& item.wf()
                    &&& produced == out.takes(item)
                    &&& after == if produced {
                        out.pushed(item)
                    } else {
                        out.recycled()
                    }
                }
        }
    }

    /// Whether the packets are of one length, but for the last, which is no longer.
    pub open spec fn even(self) -> bool {
        &&& forall|i: int|
            0 <= i < self.packets.len() - 1 ==> (#[trigger] self.packets[i]).len()
                == self.segment()
        &&& self.packets.len() > 0 ==> self.packets.last().len() <= self.segment()
    }
}

/// The packets that go out as one are those that the socket cuts them into: all are of one
/// length, but for the last, which is no longer, and no more than may go out.
pub proof fn law_train_is_even(
    conn: Connection,
    limit: int,
    now: Instant,
    max_packet_bytes: int,
    end: Train,
)
    requires
        limit >= 0,
        Train::begins(conn, limit).ran(now, max_packet_bytes, end),
    ensures
        end.even(),
        end.packets.len() + end.left == limit,
        end.left >= 0,
        end.packets.len() > 1 ==> 0 < end.segment() <= u16::MAX,
{
    let begin = Train::begins(conn, limit);
    let states = choose|states: Seq<Train>|
        {
            &&& #[trigger] Train::steps(states, now, max_packet_bytes)
            &&& states[0] == begin
            &&& states.last().stops(now, max_packet_bytes, end)
        };
    lemma_even(states, now, max_packet_bytes, limit, states.len() - 1);
}

proof fn lemma_even(
    states: Seq<Train>,
    now: Instant,
    max_packet_bytes: int,
    limit: int,
    i: int,
)
    requires
        Train::steps(states, now, max_packet_bytes),
        states[0].packets.len() == 0,
        states[0].left == limit >= 0,
        0 <= i < states.len(),
    ensures
        states[i].even(),
        states[i].packets.len() + states[i].left == limit,
        states[i].left >= 0,
        states[i].packets.len() > 1 ==> 0 < states[i].segment() <= u16::MAX,
    decreases i,
{
    if i > 0 {
        lemma_even(states, now, max_packet_bytes, limit, i - 1);
        let was = states[i - 1];
        let is = states[i];
        assert(was.goes_on(now, max_packet_bytes, states[i - 1 + 1]));
        let packet = is.packets.last();
        assert(is.packets == was.packets.push(packet));
        assert forall|k: int| 0 <= k < is.packets.len() - 1 implies (
        #[trigger] is.packets[k]).len() == is.segment() by {
            assert(is.packets[k] == was.packets[k]);
            if k == was.packets.len() - 1 {
                assert(was.packets[k] == was.packets.last());
            }
        }
    }
}

/// Sends packets of a connection that go out as one, and writes them one behind the other.
/// Gives how many they are, and the length of the first.
pub(crate) fn couple(
    conn: &mut Connection,
    now: Instant,
    max_packet_bytes: usize,
    limit: usize,
    payload: &mut Vec<u8>,
) -> (result: (usize, usize))
    requires
        old(conn).wf(),
        old(payload)@ == Seq::<u8>::empty(),
    ensures
        final(conn).wf(),
        exists|end: Train|
            {
                &&& #[trigger] Train::begins(*old(conn), limit as int).ran(
                    now,
                    max_packet_bytes as int,
                    end,
                )
                &&& end.conn == *final(conn)
                &&& final(payload)@ == joined(end.packets)
                &&& result.0 == end.packets.len()
                &&& end.packets.len() > 0 ==> result.1 == end.segment()
            },
{
    let ghost begin = Train::begins(*conn, limit as int);
    let ghost mut states: Seq<Train> = seq![begin];
    let mut left: usize = limit;
    let mut count: usize = 0;
    let mut segment: usize = 0;
    let mut full = true;
    loop
        invariant
            conn.wf(),
            Train::steps(states, now, max_packet_bytes as int),
            states[0] == begin,
            begin == Train::begins(*old(conn), limit as int),
            states.last().conn == *conn,
            states.last().left == left,
            states.last().packets.len() == count,
            count + left == limit,
            count > 0 ==> segment == states.last().segment() && full == (
            states.last().packets.last().len() == segment),
            payload@ == joined(states.last().packets),
        decreases left,
    {
        let ghost at = states.last();
        let quiet = conn.egress.pto_probe_allowance == 0 || match conn.egress.pto_probe_epoch {
            None => true,
            Some(epoch) => epoch == Epoch::Application,
        };
        let open = left > 0 && (count == 0 || (0 < segment && segment <= 65_535 && full && quiet));
        assert(open == at.open());
        if !open {
            assert(at.stops(now, max_packet_bytes as int, at));
            assert(begin.ran(now, max_packet_bytes as int, at));
            return (count, segment);
        }
        let ceiling: usize = if count == 0 {
            max_packet_bytes
        } else {
            segment
        };
        let ghost was = *conn;
        let mut emission = Emission::new(conn);
        let sent = emission.send_one(now, ceiling);
        assert(sends(was, now, ceiling as int, *conn, sent));
        let packet = match sent {
            Some(packet) => packet,
            None => {
                proof {
                    let end = Train { conn: *conn, ..at };
                    assert(at.stops(now, max_packet_bytes as int, end));
                    assert(begin.ran(now, max_packet_bytes as int, end));
                }
                return (count, segment);
            },
        };
        put_bytes(payload, packet.as_slice());
        if count == 0 {
            segment = packet.len();
        }
        full = packet.len() == segment;
        count = count + 1;
        left = left - 1;
        proof {
            let next = at.with(*conn, packet@);
            assert(at.packets.len() > 0 ==> packet@.len() <= at.segment());
            assert(sends(
                at.conn,
                now,
                at.ceiling(max_packet_bytes as int),
                next.conn,
                Some(packet),
            ));
            assert(at.goes_on(now, max_packet_bytes as int, next));
            assert(next.packets.drop_last() =~= at.packets);
            let more = states.push(next);
            assert forall|i: int| 0 <= i < more.len() - 1 implies (#[trigger] more[i]).goes_on(
                now,
                max_packet_bytes as int,
                more[i + 1],
            ) by {
                if i < states.len() - 1 {
                    assert(states[i].goes_on(now, max_packet_bytes as int, states[i + 1]));
                }
            }
            states = more;
        }
    }
}

/// The packets of a train come out in their order when what goes out is cut at the length of
/// the first.
pub proof fn law_train_is_cut_back(train: Train, i: int)
    requires
        train.even(),
        0 <= i < train.packets.len(),
    ensures
        joined(train.packets).subrange(
            i * train.segment(),
            i * train.segment() + train.packets[i].len(),
        ) == train.packets[i],
        joined(train.packets).len() == (train.packets.len() - 1) * train.segment()
            + train.packets.last().len(),
    decreases train.packets.len(),
{
    let n = train.packets.len() as int;
    let s = train.segment();
    let rest = Train { packets: train.packets.drop_last(), ..train };
    let all = joined(train.packets);
    if n == 1 {
        assert(joined(Seq::<Seq<u8>>::empty()) =~= Seq::empty());
        assert(train.packets.drop_last() =~= Seq::empty());
        assert(all =~= train.packets.last());
        assert(all.subrange(0, all.len() as int) =~= all);
        assert(0 * s == 0 && (n - 1) * s == 0) by (nonlinear_arith)
            requires
                n == 1,
        ;
        assert(i * s == 0) by (nonlinear_arith)
            requires
                i == 0,
        ;
    } else {
        assert(rest.packets[0] == train.packets[0]);
        assert(rest.segment() == s);
        assert forall|j: int| 0 <= j < rest.packets.len() - 1 implies (
        #[trigger] rest.packets[j]).len() == rest.segment() by {
            assert(rest.packets[j] == train.packets[j]);
        }
        assert(rest.packets.last() == train.packets[n - 2]);
        let front = joined(rest.packets);
        law_train_is_cut_back(rest, if i < n - 1 {
            i
        } else {
            0
        });
        assert(front.len() == (n - 1) * s) by (nonlinear_arith)
            requires
                front.len() == (n - 2) * s + s,
        ;
        if i < n - 1 {
            assert(train.packets[i] == rest.packets[i]);
            assert(i * s + train.packets[i].len() <= front.len()) by (nonlinear_arith)
                requires
                    i <= n - 2,
                    train.packets[i].len() == s,
                    front.len() == (n - 1) * s,
                    s >= 0,
            ;
            assert(i * s >= 0) by (nonlinear_arith)
                requires
                    i >= 0,
                    s >= 0,
            ;
            assert(all.subrange(i * s, i * s + train.packets[i].len()) =~= front.subrange(
                i * s,
                i * s + train.packets[i].len(),
            ));
        } else {
            assert(all.subrange(i * s, i * s + train.packets[i].len()) =~= train.packets.last());
        }
    }
}

} // verus!
