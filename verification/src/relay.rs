//! Relay-side decisions: per-room membership with its capacity cap and
//! replace-on-rejoin rule, the token-bucket rate limiter, Hello
//! validation, and the classification of incoming binary frames.  The
//! sockets, locks and mailboxes around these live outside the library.

use vstd::prelude::*;

use crate::codec::{p_wire, decode_frame, WireParse};
use crate::strings::{spec_trim, str_eq, trim_str};
use crate::types::{CoreError, EncryptedPayload, Hello, PeerInfo, PeerView, WireMessage, WireView};
use crate::{MAX_DEVICES_PER_ROOM, MAX_RELAY_MESSAGE_BYTES};

verus! {

/// Rate-limiter capacity, in thousandths of a token (24 tokens).
pub const BUCKET_CAPACITY_MILLI: u64 = 24_000;

/// Refill rate: 12 tokens per second, in thousandths per millisecond.
pub const BUCKET_REFILL_MILLI_PER_MS: u64 = 12;

/// One message costs one token.
pub const BUCKET_COST_MILLI: u64 = 1_000;

/// A token bucket over integer milli-tokens and millisecond timestamps.
pub struct TokenBucket {
    pub tokens_milli: u64,
    pub last_refill_ms: u64,
}

/// The bucket level after refilling at `now_ms`.
pub open spec fn refilled(b: TokenBucket, now_ms: u64) -> u64 {
    let elapsed: int = if now_ms >= b.last_refill_ms {
        now_ms - b.last_refill_ms
    } else {
        0
    };
    let filled: int = b.tokens_milli + elapsed * BUCKET_REFILL_MILLI_PER_MS;
    if filled >= BUCKET_CAPACITY_MILLI {
        BUCKET_CAPACITY_MILLI
    } else {
        filled as u64
    }
}

impl TokenBucket {
    /// A full bucket.
    pub fn new(now_ms: u64) -> (r: TokenBucket)
        ensures
            r.tokens_milli == BUCKET_CAPACITY_MILLI,
            r.last_refill_ms == now_ms,
    {
        TokenBucket { tokens_milli: BUCKET_CAPACITY_MILLI, last_refill_ms: now_ms }
    }

    /// Refill for the elapsed time, then charge one token if available.
    pub fn consume(&mut self, now_ms: u64) -> (r: bool)
        requires
            old(self).tokens_milli <= BUCKET_CAPACITY_MILLI,
        ensures
            final(self).tokens_milli <= BUCKET_CAPACITY_MILLI,
            r == (refilled(*old(self), now_ms) >= BUCKET_COST_MILLI),
            final(self).last_refill_ms == now_ms,
            final(self).tokens_milli == if r {
                (refilled(*old(self), now_ms) - BUCKET_COST_MILLI) as u64
            } else {
                refilled(*old(self), now_ms)
            },
    {
        let elapsed: u64 = if now_ms >= self.last_refill_ms {
            now_ms - self.last_refill_ms
        } else {
            0
        };
        let filled: u64 = if elapsed >= BUCKET_CAPACITY_MILLI {
            BUCKET_CAPACITY_MILLI
        } else if self.tokens_milli + elapsed * BUCKET_REFILL_MILLI_PER_MS
            >= BUCKET_CAPACITY_MILLI {
            BUCKET_CAPACITY_MILLI
        } else {
            self.tokens_milli + elapsed * BUCKET_REFILL_MILLI_PER_MS
        };
        self.last_refill_ms = now_ms;
        if filled >= BUCKET_COST_MILLI {
            self.tokens_milli = filled - BUCKET_COST_MILLI;
            true
        } else {
            self.tokens_milli = filled;
            false
        }
    }
}

/// Whether a Hello names a room, a device id and a device name, none of
/// them blank.
pub open spec fn hello_valid(h: PeerView, room_id: Seq<char>) -> bool {
    &&& spec_trim(room_id).len() > 0
    &&& spec_trim(h.device_id).len() > 0
    &&& spec_trim(h.device_name).len() > 0
}

/// Validate the one control frame a client may send.
pub fn check_hello(hello: &Hello) -> (r: bool)
    ensures
        r == hello_valid(hello.peer@, hello.room_id@),
{
    let room = trim_str(hello.room_id.as_str());
    let dev = trim_str(hello.peer.device_id.as_str());
    let name = trim_str(hello.peer.device_name.as_str());
    room.as_str().unicode_len() > 0 && dev.as_str().unicode_len() > 0 && name.as_str().unicode_len()
        > 0
}

/// Whether a device id occurs in a member list.
pub open spec fn has_id(s: Seq<PeerView>, id: Seq<char>) -> bool {
    exists|i: int| 0 <= i < s.len() && (#[trigger] s[i].device_id) == id
}

/// What a join does to the member list: a room already at the capacity
/// cap refuses every join, a present device id is replaced in place (it
/// never coexists with its predecessor), and a new device is appended.
pub open spec fn spec_insert(cur: Seq<PeerView>, p: PeerView) -> Seq<PeerView> {
    if cur.len() >= MAX_DEVICES_PER_ROOM {
        cur
    } else if has_id(cur, p.device_id) {
        Seq::new(cur.len(), |i: int| if cur[i].device_id == p.device_id {
            p
        } else {
            cur[i]
        })
    } else {
        cur.push(p)
    }
}

/// What a leave does to the member list: the entry with the id is
/// dropped, if present.
pub open spec fn spec_remove_ok(cur: Seq<PeerView>, new: Seq<PeerView>, id: Seq<char>) -> bool {
    if !has_id(cur, id) {
        new == cur
    } else {
        exists|j: int| 0 <= j < cur.len() && (#[trigger] cur[j].device_id) == id && new == cur.remove(j)
    }
}

/// One room's membership: at most ten devices, each id at most once.
pub struct Room {
    pub peers: Vec<PeerInfo>,
}

impl Room {
    /// The member list as a ghost sequence.
    pub open spec fn view_peers(&self) -> Seq<PeerView> {
        Seq::new(self.peers@.len(), |i: int| self.peers@[i]@)
    }

    /// Unique device ids, within the capacity cap.
    pub open spec fn wf(&self) -> bool {
        &&& self.peers@.len() <= MAX_DEVICES_PER_ROOM
        &&& forall|i: int, j: int|
            0 <= i < j < self.peers@.len() ==> (#[trigger] self.peers@[i].device_id@) != (
            #[trigger] self.peers@[j].device_id@)
    }

    /// Whether a device id is a member.
    pub open spec fn has_device(&self, id: Seq<char>) -> bool {
        exists|i: int|
            0 <= i < self.peers@.len() && (#[trigger] self.peers@[i].device_id@) == id
    }

    /// An empty room.
    pub fn new() -> (r: Room)
        ensures
            r.wf(),
            r.peers@.len() == 0,
            r.view_peers() == Seq::<PeerView>::empty(),
    {
        let r = Room { peers: Vec::new() };
        proof {
            assert(r.view_peers() =~= Seq::<PeerView>::empty());
        }
        r
    }

    /// How many devices are present.
    pub fn len(&self) -> (r: usize)
        ensures
            r == self.peers@.len(),
    {
        self.peers.len()
    }

    /// Join or rejoin.  A room already holding the capacity cap of
    /// distinct devices rejects any join; below it, an existing device id
    /// is replaced in place and a new device is appended.
    pub fn insert_peer(&mut self, peer: PeerInfo) -> (r: bool)
        requires
            old(self).wf(),
        ensures
            final(self).wf(),
            r == (old(self).peers@.len() < MAX_DEVICES_PER_ROOM),
            final(self).view_peers() == spec_insert(old(self).view_peers(), peer@),
    {
        if self.peers.len() >= MAX_DEVICES_PER_ROOM {
            return false;
        }
        let ghost oldv = old(self).view_peers();
        let n = self.peers.len();
        let mut i: usize = 0;
        while i < n
            invariant
                0 <= i <= n,
                old(self).wf(),
                old(self).peers@.len() < MAX_DEVICES_PER_ROOM,
                self == old(self),
                oldv == old(self).view_peers(),
                n == self.peers@.len(),
                forall|k: int|
                    0 <= k < i ==> (#[trigger] self.peers@[k].device_id@) != peer.device_id@,
            decreases n - i,
        {
            if str_eq(self.peers[i].device_id.as_str(), peer.device_id.as_str()) {
                proof {
                    assert(oldv[i as int].device_id == peer@.device_id);
                    assert(has_id(oldv, peer@.device_id));
                }
                let slot = vstd::std_specs::vec::vec_index_mut(&mut self.peers, i);
                *slot = peer;
                proof {
                    assert forall|a: int, b: int|
                        0 <= a < b < self.peers@.len() implies (
                    #[trigger] self.peers@[a].device_id@) != (
                    #[trigger] self.peers@[b].device_id@) by {
                        if a != i as int && b != i as int {
                            assert(self.peers@[a] == old(self).peers@[a]);
                            assert(self.peers@[b] == old(self).peers@[b]);
                        }
                    }
                    assert forall|k: int|
                        0 <= k < oldv.len() && oldv[k].device_id == peer@.device_id implies k == i as int by {
                        if k != i as int {
                            assert(old(self).peers@[k].device_id@ == old(
                                self,
                            ).peers@[i as int].device_id@);
                        }
                    }
                    assert(self.view_peers() =~= spec_insert(oldv, peer@));
                }
                return true;
            }
            i = i + 1;
        }
        proof {
            assert forall|k: int| 0 <= k < oldv.len() implies (#[trigger] oldv[k].device_id)
                != peer@.device_id by {
                assert(self.peers@[k].device_id@ != peer.device_id@);
            }
            assert(!has_id(oldv, peer@.device_id));
        }
        self.peers.push(peer);
        proof {
            assert forall|a: int, b: int| 0 <= a < b < self.peers@.len() implies (
            #[trigger] self.peers@[a].device_id@) != (#[trigger] self.peers@[b].device_id@) by {
                if b < self.peers@.len() - 1 {
                    assert(self.peers@[a] == old(self).peers@[a]);
                    assert(self.peers@[b] == old(self).peers@[b]);
                } else {
                    assert(self.peers@[a] == old(self).peers@[a]);
                }
            }
            assert(self.view_peers() =~= spec_insert(oldv, peer@));
        }
        true
    }

    /// Leave: drop the device's entry, if present.
    pub fn remove_peer(&mut self, device_id: &str) -> (r: bool)
        requires
            old(self).wf(),
        ensures
            final(self).wf(),
            !final(self).has_device(device_id@),
            r == has_id(old(self).view_peers(), device_id@),
            spec_remove_ok(old(self).view_peers(), final(self).view_peers(), device_id@),
    {
        let ghost oldv = old(self).view_peers();
        let n = self.peers.len();
        let mut i: usize = 0;
        while i < n
            invariant
                0 <= i <= n,
                old(self).wf(),
                self == old(self),
                oldv == old(self).view_peers(),
                n == self.peers@.len(),
                forall|k: int|
                    0 <= k < i ==> (#[trigger] self.peers@[k].device_id@) != device_id@,
            decreases n - i,
        {
            if str_eq(self.peers[i].device_id.as_str(), device_id) {
                proof {
                    assert(oldv[i as int].device_id == device_id@);
                    assert(has_id(oldv, device_id@));
                }
                let _ = self.peers.remove(i);
                proof {
                    assert(self.peers@ == old(self).peers@.remove(i as int));
                    assert forall|a: int, b: int|
                        0 <= a < b < self.peers@.len() implies (
                    #[trigger] self.peers@[a].device_id@) != (
                    #[trigger] self.peers@[b].device_id@) by {
                        let oa = if a < i as int {
                            a
                        } else {
                            a + 1
                        };
                        let ob = if b < i as int {
                            b
                        } else {
                            b + 1
                        };
                        assert(self.peers@[a] == old(self).peers@[oa]);
                        assert(self.peers@[b] == old(self).peers@[ob]);
                    }
                    assert forall|k: int|
                        0 <= k < self.peers@.len() implies (#[trigger] self.peers@[k].device_id@)
                        != device_id@ by {
                        let ok = if k < i as int {
                            k
                        } else {
                            k + 1
                        };
                        assert(self.peers@[k] == old(self).peers@[ok]);
                    }
                    assert(self.view_peers() =~= oldv.remove(i as int));
                }
                return true;
            }
            i = i + 1;
        }
        proof {
            assert forall|k: int| 0 <= k < oldv.len() implies (#[trigger] oldv[k].device_id)
                != device_id@ by {
                assert(self.peers@[k].device_id@ != device_id@);
            }
            assert(!has_id(oldv, device_id@));
            assert forall|k: int|
                0 <= k < self.peers@.len() implies (#[trigger] self.peers@[k].device_id@)
                != device_id@ by {}
        }
        false
    }

    /// The member device ids, in table order.
    pub fn device_ids(&self) -> (r: Vec<String>)
        ensures
            r@.len() == self.peers@.len(),
            forall|i: int| 0 <= i < r@.len() ==> r@[i]@ == self.peers@[i].device_id@,
    {
        let n = self.peers.len();
        let mut out: Vec<String> = Vec::new();
        let mut i: usize = 0;
        while i < n
            invariant
                0 <= i <= n,
                n == self.peers@.len(),
                out@.len() == i,
                forall|k: int| 0 <= k < i ==> out@[k]@ == self.peers@[k].device_id@,
            decreases n - i,
        {
            out.push(self.peers[i].device_id.clone());
            i = i + 1;
        }
        out
    }

    /// Everyone but the sender: the fan-out targets for one encrypted
    /// frame.  The sender never receives its own frame back; every other
    /// member does.
    pub fn fanout_targets(&self, sender_device_id: &str) -> (r: Vec<String>)
        ensures
            forall|k: int|
                0 <= k < r@.len() ==> (#[trigger] r@[k]@) != sender_device_id@ && self.has_device(
                    r@[k]@,
                ),
            forall|j: int|
                0 <= j < self.peers@.len() && (#[trigger] self.peers@[j].device_id@)
                    != sender_device_id@ ==> exists|k: int|
                    0 <= k < r@.len() && (#[trigger] r@[k]@) == self.peers@[j].device_id@,
    {
        let n = self.peers.len();
        let mut out: Vec<String> = Vec::new();
        let mut i: usize = 0;
        while i < n
            invariant
                0 <= i <= n,
                n == self.peers@.len(),
                forall|k: int|
                    0 <= k < out@.len() ==> (#[trigger] out@[k]@) != sender_device_id@
                        && self.has_device(out@[k]@),
                forall|j: int|
                    0 <= j < i && (#[trigger] self.peers@[j].device_id@) != sender_device_id@
                        ==> exists|k: int|
                        0 <= k < out@.len() && (#[trigger] out@[k]@) == self.peers@[j].device_id@,
            decreases n - i,
        {
            if !str_eq(self.peers[i].device_id.as_str(), sender_device_id) {
                let ghost before = out@;
                out.push(self.peers[i].device_id.clone());
                proof {
                    assert(out@[out@.len() - 1]@ == self.peers@[i as int].device_id@);
                    assert(self.has_device(self.peers@[i as int].device_id@)) by {
                        assert(self.peers@[i as int].device_id@ == self.peers@[i as int].device_id@);
                    }
                    assert forall|j: int|
                        0 <= j < i + 1 && (#[trigger] self.peers@[j].device_id@)
                            != sender_device_id@ implies exists|k: int|
                            0 <= k < out@.len() && (#[trigger] out@[k]@)
                            == self.peers@[j].device_id@ by {
                        if j < i {
                            let k0 = choose|k: int|
                                0 <= k < before.len() && (#[trigger] before[k]@)
                                    == self.peers@[j].device_id@;
                            assert(out@[k0]@ == self.peers@[j].device_id@);
                        } else {
                            assert(out@[out@.len() - 1]@ == self.peers@[j].device_id@);
                        }
                    }
                }
            }
            i = i + 1;
        }
        out
    }
}

/// The member list a full `PeerList` produces: each entry joined in
/// order into an empty room.
pub open spec fn spec_insert_all(list: Seq<PeerView>) -> Seq<PeerView>
    decreases list.len(),
{
    if list.len() == 0 {
        Seq::empty()
    } else {
        spec_insert(spec_insert_all(list.drop_last()), list.last())
    }
}

/// What the relay does with one incoming binary frame.
pub enum RelayDecision {
    /// Forward the frame bytes, unchanged, to every other member.
    Forward(EncryptedPayload),
    /// Longer than the frame-size cap: dropped silently.
    DropOversized,
    /// Not a well-formed frame: dropped.
    DropMalformed(CoreError),
    /// A control frame after the Hello: only the relay synthesizes those.
    DropControl,
    /// The envelope's sender is not this connection's device.
    DropSpoofed,
    /// The sender's token bucket is empty.
    DropRateLimited,
}

/// Decide what to do with one binary frame received after the Hello:
/// size cap, decode, sender identity, then the rate limiter, in that
/// order; only a frame passing all four is forwarded.
pub fn relay_classify(
    data: &[u8],
    conn_device_id: &str,
    bucket: &mut TokenBucket,
    now_ms: u64,
) -> (r: RelayDecision)
    requires
        old(bucket).tokens_milli <= BUCKET_CAPACITY_MILLI,
    ensures
        final(bucket).tokens_milli <= BUCKET_CAPACITY_MILLI,
        data@.len() > MAX_RELAY_MESSAGE_BYTES ==> r is DropOversized && *final(bucket) == *old(
            bucket,
        ),
        data@.len() <= MAX_RELAY_MESSAGE_BYTES ==> match p_wire(data@) {
            WireParse::Msg(w) => match w {
                WireView::Control(_) => r is DropControl && *final(bucket) == *old(bucket),
                WireView::Encrypted(p) => {
                    &&& p.sender_device_id != conn_device_id@ ==> r is DropSpoofed && *final(bucket)
                        == *old(bucket)
                    &&& p.sender_device_id == conn_device_id@ && refilled(*old(bucket), now_ms)
                        < BUCKET_COST_MILLI ==> r is DropRateLimited
                    &&& p.sender_device_id == conn_device_id@ && refilled(*old(bucket), now_ms)
                        >= BUCKET_COST_MILLI ==> (r matches RelayDecision::Forward(fp) && fp@ == p)
                },
            },
            _ => r is DropMalformed && *final(bucket) == *old(bucket),
        },
{
    if data.len() > MAX_RELAY_MESSAGE_BYTES {
        return RelayDecision::DropOversized;
    }
    let wire = match decode_frame(data) {
        Ok(w) => w,
        Err(e) => {
            return RelayDecision::DropMalformed(e);
        },
    };
    match wire {
        WireMessage::Control(_) => RelayDecision::DropControl,
        WireMessage::Encrypted(payload) => {
            if !str_eq(payload.sender_device_id.as_str(), conn_device_id) {
                return RelayDecision::DropSpoofed;
            }
            if !bucket.consume(now_ms) {
                return RelayDecision::DropRateLimited;
            }
            RelayDecision::Forward(payload)
        },
    }
}

} // verus!
