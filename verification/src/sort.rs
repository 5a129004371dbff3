//! The stable, by-timestamp sort applied to each trail at seal time.
//!
//! `stable_sort` is the mathematical specification: repeated stable
//! insertion, each element placed after every element with a timestamp less
//! than or equal to its own. The stably sorted permutation of a sequence is
//! unique, so this spec pins the result completely: `sort_events` is proved
//! to return exactly it, and the public lemmas state that it is sorted and a
//! permutation of its input.

use vstd::prelude::*;
use vstd::seq_lib::lemma_multiset_commutative;
use crate::event::{copy_event, Event, EventView, events_view};
use crate::Timestamp;

verus! {

/// Non-decreasing timestamp order.
pub open spec fn sorted_by_ts(s: Seq<EventView>) -> bool {
    forall|i: int, j: int| 0 <= i <= j < s.len() ==> s[i].timestamp <= s[j].timestamp
}

/// Where a stable insertion puts an element with timestamp `t`: the first
/// index whose event has a strictly larger timestamp.
pub open spec fn insert_pos(s: Seq<EventView>, t: Timestamp) -> int
    decreases s.len(),
{
    if s.len() == 0 {
        0
    } else if s[0].timestamp <= t {
        1 + insert_pos(s.drop_first(), t)
    } else {
        0
    }
}

/// Stable insertion of one event.
pub open spec fn insert_event(s: Seq<EventView>, e: EventView) -> Seq<EventView> {
    s.insert(insert_pos(s, e.timestamp), e)
}

/// The stable sort of a sequence of events, by timestamp: insert each
/// element, left to right, into the sorted prefix.
pub open spec fn stable_sort(s: Seq<EventView>) -> Seq<EventView>
    decreases s.len(),
{
    if s.len() == 0 {
        s
    } else {
        insert_event(stable_sort(s.drop_last()), s.last())
    }
}

/// `insert_pos` lands in bounds, after every earlier-or-equal timestamp and
/// before the first strictly larger one.
pub proof fn lemma_insert_pos_props(s: Seq<EventView>, t: Timestamp)
    ensures
        0 <= insert_pos(s, t) <= s.len(),
        forall|k: int| 0 <= k < insert_pos(s, t) ==> s[k].timestamp <= t,
        insert_pos(s, t) < s.len() ==> s[insert_pos(s, t)].timestamp > t,
    decreases s.len(),
{
    if s.len() != 0 && s[0].timestamp <= t {
        lemma_insert_pos_props(s.drop_first(), t);
        assert forall|k: int| 0 <= k < insert_pos(s, t) implies s[k].timestamp <= t by {
            if k > 0 {
                assert(s.drop_first()[k - 1].timestamp <= t);
            }
        }
    }
}

/// Stable insertion into a sorted sequence stays sorted.
pub proof fn lemma_insert_event_sorted(s: Seq<EventView>, e: EventView)
    requires
        sorted_by_ts(s),
    ensures
        sorted_by_ts(insert_event(s, e)),
        insert_event(s, e).len() == s.len() + 1,
{
    let p = insert_pos(s, e.timestamp);
    lemma_insert_pos_props(s, e.timestamp);
    s.insert_ensures(p, e);
    let r = insert_event(s, e);
    assert forall|i: int, j: int| 0 <= i <= j < r.len() implies r[i].timestamp <= r[j].timestamp by {
        if j < p {
            assert(r[i] == s[i] && r[j] == s[j]);
        } else if i > p {
            assert(r[i] == s[i - 1] && r[j] == s[j - 1]);
        } else if i < p && j == p {
            assert(r[i] == s[i] && s[i].timestamp <= e.timestamp);
        } else if i == p && j > p {
            assert(r[j] == s[j - 1] && s[j - 1].timestamp >= s[p].timestamp);
        } else if i < p && j > p {
            assert(r[i] == s[i] && r[j] == s[j - 1]);
            assert(s[i].timestamp <= e.timestamp);
            assert(s[j - 1].timestamp >= s[p].timestamp > e.timestamp);
        }
    }
}

/// Stable insertion adds exactly the inserted element to the multiset of
/// events.
pub proof fn lemma_insert_event_multiset(s: Seq<EventView>, e: EventView)
    ensures
        insert_event(s, e).to_multiset() =~= s.to_multiset().insert(e),
{
    broadcast use vstd::multiset::group_multiset_axioms;

    let p = insert_pos(s, e.timestamp);
    lemma_insert_pos_props(s, e.timestamp);
    let a = s.subrange(0, p);
    let b = s.subrange(p, s.len() as int);
    s.lemma_split_at(p);
    assert(insert_event(s, e) == a.push(e) + b);
    lemma_multiset_commutative(a.push(e), b);
    lemma_multiset_commutative(a, b);
    a.to_multiset_ensures();
    assert((a + b).to_multiset() == s.to_multiset());
    assert(a.to_multiset().insert(e).add(b.to_multiset()) =~= a.to_multiset().add(
        b.to_multiset(),
    ).insert(e));
}

/// The stable sort of any event sequence is sorted by timestamp and keeps
/// its length.
pub proof fn lemma_stable_sort_sorted(s: Seq<EventView>)
    ensures
        sorted_by_ts(stable_sort(s)),
        stable_sort(s).len() == s.len(),
    decreases s.len(),
{
    if s.len() != 0 {
        lemma_stable_sort_sorted(s.drop_last());
        lemma_insert_event_sorted(stable_sort(s.drop_last()), s.last());
    }
}

/// The stable sort of any event sequence is a permutation of it: both hold
/// the same multiset of events.
pub proof fn lemma_stable_sort_multiset(s: Seq<EventView>)
    ensures
        stable_sort(s).to_multiset() =~= s.to_multiset(),
    decreases s.len(),
{
    if s.len() != 0 {
        let pre = s.drop_last();
        lemma_stable_sort_multiset(pre);
        lemma_insert_event_multiset(stable_sort(pre), s.last());
        pre.to_multiset_ensures();
        assert(pre.push(s.last()) =~= s);
    }
}

/// Sort a trail buffer stably by timestamp; the result is exactly the
/// specified stable sort of the input.
pub fn sort_events(v: &Vec<Event>) -> (r: Vec<Event>)
    ensures
        events_view(r@) == stable_sort(events_view(v@)),
{
    let ghost whole = events_view(v@);
    let mut out: Vec<Event> = Vec::new();
    let mut i: usize = 0;
    while i < v.len()
        invariant
            i <= v@.len(),
            whole == events_view(v@),
            events_view(out@) == stable_sort(whole.subrange(0, i as int)),
        decreases v@.len() - i,
    {
        let e = copy_event(&v[i]);
        let ghost sout = events_view(out@);
        let mut j: usize = 0;
        while j < out.len() && out[j].timestamp <= e.timestamp
            invariant
                j <= out@.len(),
                sout == events_view(out@),
                e@ == v@[i as int]@,
                i < v@.len(),
                forall|k: int| 0 <= k < j ==> sout[k].timestamp <= e@.timestamp,
            decreases out@.len() - j,
        {
            proof {
                assert(sout[j as int].timestamp <= e@.timestamp);
            }
            j += 1;
        }
        proof {
            lemma_insert_pos_props(sout, e@.timestamp);
            let p = insert_pos(sout, e@.timestamp);
            if j < p {
                assert(sout[j as int].timestamp <= e@.timestamp);
                assert(false);
            }
            if p < j {
                assert(sout[p].timestamp > e@.timestamp);
                assert(false);
            }
        }
        out.insert(j, e);
        proof {
            assert(events_view(out@) =~= sout.insert(j as int, e@)) by {
                sout.insert_ensures(j as int, e@);
                assert(forall|k: int|
                    0 <= k < out@.len() ==> events_view(out@)[k] == #[trigger] out@[k]@);
            }
            assert(whole.subrange(0, i + 1).drop_last() =~= whole.subrange(0, i as int));
            assert(whole.subrange(0, i + 1).last() == e@);
            assert(events_view(out@) == stable_sort(whole.subrange(0, i + 1)));
        }
        i += 1;
    }
    proof {
        assert(whole.subrange(0, v@.len() as int) =~= whole);
    }
    out
}

} // verus!
