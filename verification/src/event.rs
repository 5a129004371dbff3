//! Events and their mathematical model.

use vstd::prelude::*;
use crate::item::Item;
use crate::Timestamp;

verus! {

/// One decoded event: a timestamp and one item per data field (the item's
/// value id is 0 where the field was unset).
#[derive(Debug, Clone)]
pub struct Event {
    pub timestamp: Timestamp,
    pub items: Vec<Item>,
}

/// The model of an event: the same data with the item vector abstracted to a
/// sequence.
pub ghost struct EventView {
    pub timestamp: Timestamp,
    pub items: Seq<Item>,
}

impl View for Event {
    type V = EventView;

    open spec fn view(&self) -> EventView {
        EventView { timestamp: self.timestamp, items: self.items@ }
    }
}

/// The model of a trail buffer: each event abstracted to its view.
pub open spec fn events_view(v: Seq<Event>) -> Seq<EventView> {
    Seq::new(v.len(), |i: int| v[i]@)
}

/// Duplicate an item vector.
pub(crate) fn copy_items(v: &Vec<Item>) -> (r: Vec<Item>)
    ensures
        r@ == v@,
{
    let mut r: Vec<Item> = Vec::new();
    let mut i: usize = 0;
    while i < v.len()
        invariant
            i <= v.len(),
            r@ == v@.subrange(0, i as int),
        decreases v.len() - i,
    {
        r.push(v[i]);
        proof {
            assert(r@ =~= v@.subrange(0, i + 1));
        }
        i += 1;
    }
    proof {
        assert(v@.subrange(0, v@.len() as int) =~= v@);
    }
    r
}

/// Duplicate an event; the copy has the same model.
pub(crate) fn copy_event(e: &Event) -> (r: Event)
    ensures
        r@ == e@,
{
    Event { timestamp: e.timestamp, items: copy_items(&e.items) }
}

/// Duplicate a trail buffer; the copy has the same model.
pub(crate) fn copy_events(v: &Vec<Event>) -> (r: Vec<Event>)
    ensures
        events_view(r@) == events_view(v@),
        r@.len() == v@.len(),
{
    let mut r: Vec<Event> = Vec::new();
    let mut i: usize = 0;
    while i < v.len()
        invariant
            i <= v.len(),
            r@.len() == i,
            forall|k: int| 0 <= k < i ==> r@[k]@ == v@[k]@,
        decreases v.len() - i,
    {
        r.push(copy_event(&v[i]));
        i += 1;
    }
    proof {
        assert(events_view(r@) =~= events_view(v@));
    }
    r
}

} // verus!
