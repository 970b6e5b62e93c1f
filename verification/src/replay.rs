//! Replay protection: a per-sender table of the highest counter seen.
//! A frame whose counter does not strictly increase is rejected with the
//! structured `ReplayRejected` error.

use vstd::prelude::*;

use crate::strings::str_eq;
use crate::types::CoreError;

verus! {

/// The map a list of `(sender, counter)` entries denotes, later entries
/// winning.
pub open spec fn entries_map(s: Seq<(Seq<char>, u64)>) -> Map<Seq<char>, u64>
    decreases s.len(),
{
    if s.len() == 0 {
        Map::empty()
    } else {
        entries_map(s.drop_last()).insert(s.last().0, s.last().1)
    }
}

/// Per-sender highest-counter table.
pub struct ReplayTable {
    entries: Vec<(String, u64)>,
}

impl View for ReplayTable {
    type V = Map<Seq<char>, u64>;

    closed spec fn view(&self) -> Map<Seq<char>, u64> {
        entries_map(self.entries_view())
    }
}

impl ReplayTable {
    /// The entry list with both components as their views.
    closed spec fn entries_view(&self) -> Seq<(Seq<char>, u64)> {
        Seq::new(self.entries@.len(), |i: int| (self.entries@[i].0@, self.entries@[i].1))
    }

    /// Distinct senders only: the well-formedness every method keeps.
    pub closed spec fn wf(&self) -> bool {
        forall|i: int, j: int|
            0 <= i < j < self.entries_view().len() ==> (#[trigger] self.entries_view()[i].0) != (
            #[trigger] self.entries_view()[j].0)
    }

    /// An empty table.
    pub fn new() -> (r: ReplayTable)
        ensures
            r.wf(),
            r@ == Map::<Seq<char>, u64>::empty(),
    {
        let r = ReplayTable { entries: Vec::new() };
        proof {
            assert(r.entries_view() =~= Seq::<(Seq<char>, u64)>::empty());
        }
        r
    }
}

proof fn lemma_entries_map_get(s: Seq<(Seq<char>, u64)>, k: Seq<char>)
    ensures
        entries_map(s).contains_key(k) <==> exists|i: int| 0 <= i < s.len() && (#[trigger] s[i].0)
            == k,
        (forall|a: int, b: int|
            0 <= a < b < s.len() ==> (#[trigger] s[a].0) != (#[trigger] s[b].0)) ==> forall|i: int|
            0 <= i < s.len() && (#[trigger] s[i].0) == k ==> entries_map(s)[k] == s[i].1,
    decreases s.len(),
{
    if s.len() > 0 {
        lemma_entries_map_get(s.drop_last(), k);
        assert forall|i: int| 0 <= i < s.len() - 1 implies s.drop_last()[i] == s[i] by {}
        if s.last().0 == k {
            assert(s[s.len() - 1].0 == k);
        }
    }
}

proof fn lemma_entries_map_update(s: Seq<(Seq<char>, u64)>, i: int, v: u64)
    requires
        0 <= i < s.len(),
        forall|a: int, b: int| 0 <= a < b < s.len() ==> (#[trigger] s[a].0) != (#[trigger] s[b].0),
    ensures
        entries_map(s.update(i, (s[i].0, v))) == entries_map(s).insert(s[i].0, v),
    decreases s.len(),
{
    let t = s.update(i, (s[i].0, v));
    if i == s.len() - 1 {
        assert(t.drop_last() =~= s.drop_last());
        assert(t.last() == (s[i].0, v));
        assert(entries_map(t) =~= entries_map(s).insert(s[i].0, v));
    } else {
        assert(t.drop_last() =~= s.drop_last().update(i, (s[i].0, v)));
        assert(s.drop_last()[i] == s[i]);
        lemma_entries_map_update(s.drop_last(), i, v);
        assert(t.last() == s.last());
        assert(entries_map(t) == entries_map(s.drop_last()).insert(s[i].0, v).insert(
            s.last().0,
            s.last().1,
        ));
        assert(s[i].0 != s.last().0);
        assert(entries_map(s.drop_last()).insert(s[i].0, v).insert(s.last().0, s.last().1)
            =~= entries_map(s.drop_last()).insert(s.last().0, s.last().1).insert(s[i].0, v));
    }
}

/// Accept a counter exactly when it strictly exceeds everything seen from
/// this sender; record it on success, reject it with the previous high
/// mark otherwise.  A second call with the same or a lower counter is
/// always rejected.
pub fn validate_counter(
    last_seen_by_sender: &mut ReplayTable,
    sender_device_id: &str,
    counter: u64,
) -> (r: Result<(), CoreError>)
    requires
        old(last_seen_by_sender).wf(),
    ensures
        final(last_seen_by_sender).wf(),
        old(last_seen_by_sender)@.contains_key(sender_device_id@) && counter <= old(
            last_seen_by_sender,
        )@[sender_device_id@] ==> {
            &&& final(last_seen_by_sender)@ == old(last_seen_by_sender)@
            &&& r matches Err(CoreError::ReplayRejected { sender, counter: c, last_seen })
                && sender@ == sender_device_id@ && c == counter && last_seen == old(
                last_seen_by_sender,
            )@[sender_device_id@]
        },
        !(old(last_seen_by_sender)@.contains_key(sender_device_id@) && counter <= old(
            last_seen_by_sender,
        )@[sender_device_id@]) ==> {
            &&& r is Ok
            &&& final(last_seen_by_sender)@ == old(last_seen_by_sender)@.insert(
                sender_device_id@,
                counter,
            )
        },
{
    let ghost sv = old(last_seen_by_sender).entries_view();
    let n = last_seen_by_sender.entries.len();
    let mut i: usize = 0;
    while i < n
        invariant
            0 <= i <= n,
            old(last_seen_by_sender).wf(),
            last_seen_by_sender == old(last_seen_by_sender),
            n == last_seen_by_sender.entries@.len(),
            sv == last_seen_by_sender.entries_view(),
            forall|k: int| 0 <= k < i ==> (#[trigger] sv[k].0) != sender_device_id@,
        decreases n - i,
    {
        if str_eq(last_seen_by_sender.entries[i].0.as_str(), sender_device_id) {
            let previous = last_seen_by_sender.entries[i].1;
            proof {
                lemma_entries_map_get(sv, sender_device_id@);
                assert forall|a: int, b: int| 0 <= a < b < sv.len() implies (#[trigger] sv[a].0)
                    != (#[trigger] sv[b].0) by {
                    assert(old(last_seen_by_sender).entries_view()[a].0 != old(
                        last_seen_by_sender,
                    ).entries_view()[b].0);
                }
                assert(sv[i as int].0 == sender_device_id@);
                assert(sv[i as int].1 == previous);
                assert(last_seen_by_sender@ == entries_map(sv));
                assert(entries_map(sv).contains_key(sender_device_id@));
                assert(last_seen_by_sender@[sender_device_id@] == previous);
            }
            if counter <= previous {
                return Err(
                    CoreError::ReplayRejected {
                        sender: sender_device_id.to_owned(),
                        counter,
                        last_seen: previous,
                    },
                );
            }
            let entry = vstd::std_specs::vec::vec_index_mut(&mut last_seen_by_sender.entries, i);
            entry.1 = counter;
            proof {
                let sv2 = last_seen_by_sender.entries_view();
                assert(sv2 =~= sv.update(i as int, (sv[i as int].0, counter)));
                lemma_entries_map_update(sv, i as int, counter);
                assert(final(last_seen_by_sender)@ == entries_map(sv).insert(
                    sender_device_id@,
                    counter,
                ));
                assert forall|a: int, b: int|
                    0 <= a < b < last_seen_by_sender.entries_view().len() implies (
                #[trigger] last_seen_by_sender.entries_view()[a].0) != (
                #[trigger] last_seen_by_sender.entries_view()[b].0) by {
                    assert(last_seen_by_sender.entries_view()[a].0 == sv2[a].0);
                    assert(last_seen_by_sender.entries_view()[b].0 == sv2[b].0);
                    assert(sv2[a].0 == sv[a].0 && sv2[b].0 == sv[b].0);
                }
            }
            return Ok(());
        }
        i = i + 1;
    }
    proof {
        lemma_entries_map_get(sv, sender_device_id@);
        assert forall|a: int, b: int| 0 <= a < b < sv.len() implies (#[trigger] sv[a].0) != (
        #[trigger] sv[b].0) by {
            assert(old(last_seen_by_sender).entries_view()[a].0 != old(
                last_seen_by_sender,
            ).entries_view()[b].0);
        }
        assert forall|k: int| 0 <= k < sv.len() implies (#[trigger] sv[k].0)
            != sender_device_id@ by {}
        assert(last_seen_by_sender@ == entries_map(sv));
        assert(!entries_map(sv).contains_key(sender_device_id@));
    }
    last_seen_by_sender.entries.push((sender_device_id.to_owned(), counter));
    proof {
        let sv2 = last_seen_by_sender.entries_view();
        assert(sv2.drop_last() =~= sv);
        assert(sv2.last() == (sender_device_id@, counter));
        assert(entries_map(sv2) == entries_map(sv).insert(sender_device_id@, counter));
        assert(final(last_seen_by_sender)@ == entries_map(sv).insert(sender_device_id@, counter));
        assert forall|a: int, b: int|
            0 <= a < b < last_seen_by_sender.entries_view().len() implies (
        #[trigger] last_seen_by_sender.entries_view()[a].0) != (
        #[trigger] last_seen_by_sender.entries_view()[b].0) by {
            assert(last_seen_by_sender.entries_view()[a].0 == sv2[a].0);
            assert(last_seen_by_sender.entries_view()[b].0 == sv2[b].0);
            if b == sv2.len() - 1 {
                assert(sv2[a].0 == sv[a].0);
            } else {
                assert(sv2[a].0 == sv[a].0 && sv2[b].0 == sv[b].0);
            }
        }
    }
    Ok(())
}

} // verus!
