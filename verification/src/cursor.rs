//! Cursors: stateful, reusable decoders that materialize one trail's events
//! lazily, in timestamp order, optionally through a filter.

use vstd::prelude::*;
use crate::errors::Error;
use crate::event::{copy_event, copy_events, Event, EventView, events_view};
use crate::filter::{spec_filter_matches, EventFilter, FilterView};
use crate::log::{lemma_db_repr, Db};
use crate::sort::sorted_by_ts;
use crate::TrailId;

verus! {

/// Whether an event passes an optional filter (no filter passes all).
pub open spec fn spec_event_matches(filter: Option<FilterView>, e: EventView) -> bool {
    match filter {
        Option::None => true,
        Option::Some(f) => spec_filter_matches(f, e.timestamp, e.items),
    }
}

/// The first index at or after `from` whose event passes the filter, or
/// the buffer's length when none does.
pub open spec fn first_match(events: Seq<EventView>, filter: Option<FilterView>, from: int) -> int
    decreases events.len() - from,
{
    if from >= events.len() {
        events.len() as int
    } else if spec_event_matches(filter, events[from]) {
        from
    } else {
        first_match(events, filter, from + 1)
    }
}

/// How many events of the buffer pass the filter.
pub open spec fn count_matches(events: Seq<EventView>, filter: Option<FilterView>) -> int
    decreases events.len(),
{
    if events.len() == 0 {
        0
    } else {
        count_matches(events.drop_last(), filter) + if spec_event_matches(filter, events.last()) {
            1int
        } else {
            0int
        }
    }
}

/// The model of a cursor: its decode buffer, its position in it, and the
/// attached filter.
pub ghost struct CursorView {
    pub events: Seq<EventView>,
    pub pos: int,
    pub filter: Option<FilterView>,
}

impl CursorView {
    /// The buffer is sorted, the position in bounds, the filter well
    /// formed.
    pub open spec fn wf(self) -> bool {
        &&& 0 <= self.pos <= self.events.len()
        &&& sorted_by_ts(self.events)
        &&& match self.filter {
            Option::Some(f) => f.wf(),
            Option::None => true,
        }
    }
}

/// A stateful, reusable decoder for one trail at a time. `get_trail`
/// repositions it; `next` yields the trail's events in non-decreasing
/// timestamp order, skipping those an attached filter rejects.
pub struct Cursor {
    events: Vec<Event>,
    pos: usize,
    filter: Option<EventFilter>,
}

impl View for Cursor {
    type V = CursorView;

    closed spec fn view(&self) -> CursorView {
        CursorView {
            events: events_view(self.events@),
            pos: self.pos as int,
            filter: match self.filter {
                Option::Some(f) => Option::Some(f@),
                Option::None => Option::None,
            },
        }
    }
}

impl Cursor {
    /// A well-formed cursor.
    pub open spec fn wf(&self) -> bool {
        self@.wf()
    }

    /// Whether the event at `i` passes the attached filter.
    fn matches_at(&self, i: usize) -> (r: bool)
        requires
            i < self@.events.len(),
        ensures
            r == spec_event_matches(self@.filter, self@.events[i as int]),
    {
        let e = &self.events[i];
        match &self.filter {
            Option::None => true,
            Option::Some(f) => f.matches_event(e.timestamp, &e.items),
        }
    }

    /// Reposition the cursor to decode the given trail of `db` from its
    /// start, discarding the prior position but keeping the attached
    /// filter. Fails with `InvalidTrailId`, changing nothing, when the id
    /// is out of range.
    pub fn get_trail(&mut self, db: &Db, trail_id: TrailId) -> (r: Result<(), Error>)
        requires
            old(self).wf(),
            db.wf(),
        ensures
            final(self).wf(),
            ({
                if (trail_id as int) < db@.trails.len() {
                    &&& r == Result::<(), Error>::Ok(())
                    &&& final(self)@.events == db@.trails[trail_id as int]
                    &&& final(self)@.pos == 0
                    &&& final(self)@.filter == old(self)@.filter
                } else {
                    &&& r == Result::<(), Error>::Err(Error::InvalidTrailId)
                    &&& *final(self) == *old(self)
                }
            }),
    {
        proof {
            lemma_db_repr(db);
        }
        if trail_id < db.trails.len() as u64 {
            self.events = copy_events(&db.trails[trail_id as usize]);
            self.pos = 0;
            proof {
                assert(events_view(db.trails@[trail_id as int]@) == db@.trails[trail_id as int]);
            }
            Result::Ok(())
        } else {
            Result::Err(Error::InvalidTrailId)
        }
    }

    /// The number of events the currently bound trail would yield through
    /// the attached filter; the cursor's position is untouched.
    pub fn len(&mut self) -> (r: u64)
        requires
            old(self).wf(),
        ensures
            *final(self) == *old(self),
            r as int == count_matches(old(self)@.events, old(self)@.filter),
    {
        let ghost ev = self@.events;
        let ghost fl = self@.filter;
        let mut count: usize = 0;
        let mut i: usize = 0;
        while i < self.events.len()
            invariant
                i <= ev.len(),
                ev == self@.events,
                fl == self@.filter,
                *self == *old(self),
                count <= i,
                count as int == count_matches(ev.subrange(0, i as int), fl),
            decreases ev.len() - i,
        {
            proof {
                assert(ev.subrange(0, i + 1).drop_last() =~= ev.subrange(0, i as int));
                assert(ev.subrange(0, i + 1).last() == ev[i as int]);
            }
            if self.matches_at(i) {
                count += 1;
            }
            i += 1;
        }
        proof {
            assert(ev.subrange(0, ev.len() as int) =~= ev);
        }
        count as u64
    }

    /// Attach a filter; the cursor keeps its own copy, so the association
    /// needs no shared lifetime. Never fails.
    pub fn set_filter(&mut self, filter: &EventFilter) -> (r: Result<(), Error>)
        requires
            old(self).wf(),
            filter.wf(),
        ensures
            r == Result::<(), Error>::Ok(()),
            final(self).wf(),
            final(self)@.events == old(self)@.events,
            final(self)@.pos == old(self)@.pos,
            final(self)@.filter == Option::Some(filter@),
    {
        self.filter = Option::Some(filter.duplicate());
        Result::Ok(())
    }

    /// Detach any filter, reverting to unfiltered iteration.
    pub fn unset_filter(&mut self)
        requires
            old(self).wf(),
        ensures
            final(self).wf(),
            final(self)@.events == old(self)@.events,
            final(self)@.pos == old(self)@.pos,
            final(self)@.filter is None,
    {
        self.filter = Option::None;
    }

    /// Yield the next event passing the filter, advancing past it, or
    /// nothing once the trail is exhausted (the position then rests at the
    /// buffer's end).
    pub fn next(&mut self) -> (r: Option<Event>)
        requires
            old(self).wf(),
        ensures
            final(self).wf(),
            final(self)@.events == old(self)@.events,
            final(self)@.filter == old(self)@.filter,
            ({
                let fm = first_match(old(self)@.events, old(self)@.filter, old(self)@.pos);
                match r {
                    Option::Some(e) => fm < old(self)@.events.len() && e@ == old(self)@.events[fm]
                        && final(self)@.pos == fm + 1,
                    Option::None => fm == old(self)@.events.len() && final(self)@.pos == fm,
                }
            }),
    {
        let ghost ev = self@.events;
        let ghost fl = self@.filter;
        let ghost from = self@.pos;
        while self.pos < self.events.len()
            invariant
                ev == self@.events,
                fl == self@.filter,
                ev == old(self)@.events,
                fl == old(self)@.filter,
                from == old(self)@.pos,
                self@.wf(),
                from <= self@.pos <= ev.len(),
                first_match(ev, fl, from) == first_match(ev, fl, self@.pos),
            decreases ev.len() - self@.pos,
        {
            if self.matches_at(self.pos) {
                proof {
                    assert(first_match(ev, fl, self@.pos) == self@.pos);
                }
                let e = copy_event(&self.events[self.pos]);
                self.pos += 1;
                return Option::Some(e);
            }
            proof {
                assert(first_match(ev, fl, self@.pos) == first_match(ev, fl, self@.pos + 1));
            }
            self.pos += 1;
        }
        proof {
            assert(first_match(ev, fl, self@.pos) == ev.len());
        }
        Option::None
    }
}

/// The timestamp of the next event a cursor would yield, if any.
pub open spec fn spec_peek(c: CursorView) -> Option<u64> {
    let fm = first_match(c.events, c.filter, c.pos);
    if fm < c.events.len() {
        Option::Some(c.events[fm].timestamp)
    } else {
        Option::None
    }
}

impl Cursor {
    /// Duplicate the cursor — buffer, position and filter; the copy has the
    /// same model.
    pub(crate) fn duplicate(&self) -> (r: Cursor)
        ensures
            r@ == self@,
    {
        Cursor {
            events: copy_events(&self.events),
            pos: self.pos,
            filter: match &self.filter {
                Option::Some(f) => Option::Some(f.duplicate()),
                Option::None => Option::None,
            },
        }
    }

    /// The cursor's position in its buffer.
    pub(crate) fn position(&self) -> (r: usize)
        ensures
            r as int == self@.pos,
    {
        self.pos
    }

    /// Rewind or advance the position without touching buffer or filter.
    pub(crate) fn set_pos(&mut self, p: usize)
        requires
            old(self).wf(),
            p <= old(self)@.events.len(),
        ensures
            final(self).wf(),
            final(self)@.events == old(self)@.events,
            final(self)@.filter == old(self)@.filter,
            final(self)@.pos == p,
    {
        self.pos = p;
    }

    /// The timestamp of the next event this cursor would yield, without
    /// advancing.
    pub(crate) fn peek(&self) -> (r: Option<u64>)
        requires
            self.wf(),
        ensures
            r == spec_peek(self@),
    {
        let ghost ev = self@.events;
        let ghost fl = self@.filter;
        let ghost from = self@.pos;
        let mut j: usize = self.pos;
        while j < self.events.len()
            invariant
                ev == self@.events,
                fl == self@.filter,
                from == self@.pos,
                self@.wf(),
                from <= j <= ev.len(),
                first_match(ev, fl, from) == first_match(ev, fl, j as int),
            decreases ev.len() - j,
        {
            if self.matches_at(j) {
                proof {
                    assert(first_match(ev, fl, j as int) == j);
                }
                return Option::Some(self.events[j].timestamp);
            }
            proof {
                assert(first_match(ev, fl, j as int) == first_match(ev, fl, j + 1));
            }
            j += 1;
        }
        proof {
            assert(first_match(ev, fl, j as int) == ev.len());
        }
        Option::None
    }
}

/// The model of a positioned trail: its id and its cursor.
pub ghost struct TrailView {
    pub id: TrailId,
    pub cursor: CursorView,
}

/// One trail's ordered event sequence, read through its own fresh cursor.
pub struct Trail {
    pub id: TrailId,
    cursor: Cursor,
}

impl View for Trail {
    type V = TrailView;

    closed spec fn view(&self) -> TrailView {
        TrailView { id: self.id, cursor: self.cursor@ }
    }
}

impl Trail {
    /// A well-formed positioned trail.
    pub open spec fn wf(&self) -> bool {
        self@.cursor.wf()
    }

    /// Yield the trail's next event, as the underlying cursor would.
    pub fn next(&mut self) -> (r: Option<Event>)
        requires
            old(self).wf(),
        ensures
            final(self).wf(),
            final(self)@.id == old(self)@.id,
            final(self)@.cursor.events == old(self)@.cursor.events,
            final(self)@.cursor.filter == old(self)@.cursor.filter,
            ({
                let c = old(self)@.cursor;
                let fm = first_match(c.events, c.filter, c.pos);
                match r {
                    Option::Some(e) => fm < c.events.len() && e@ == c.events[fm]
                        && final(self)@.cursor.pos == fm + 1,
                    Option::None => fm == c.events.len() && final(self)@.cursor.pos == fm,
                }
            }),
    {
        self.cursor.next()
    }
}

/// A lazy walk over a log's trails by ascending trail id; its model is the
/// next id it will hand out.
pub struct DbIter {
    pos: u64,
}

impl View for DbIter {
    type V = int;

    closed spec fn view(&self) -> int {
        self.pos as int
    }
}

impl DbIter {
    /// Yield the trail at the current id, with a fresh positioned cursor,
    /// or nothing once the ids are exhausted.
    pub fn next(&mut self, db: &Db) -> (r: Option<Trail>)
        requires
            db.wf(),
        ensures
            match r {
                Option::Some(tr) => old(self)@ < db@.trails.len() && final(self)@ == old(self)@ + 1
                    && tr.wf() && tr@.id == old(self)@
                    && tr@.cursor.events == db@.trails[old(self)@]
                    && tr@.cursor.pos == 0 && tr@.cursor.filter is None,
                Option::None => old(self)@ >= db@.trails.len() && *final(self) == *old(self),
            },
    {
        match db.get_trail(self.pos) {
            Option::Some(tr) => {
                proof {
                    lemma_db_repr(db);
                    vstd::std_specs::vec::axiom_spec_len(&db.trails);
                }
                self.pos = self.pos + 1;
                Option::Some(tr)
            },
            Option::None => Option::None,
        }
    }
}

impl Db {
    /// A fresh, unpositioned cursor; point it at a trail with `get_trail`.
    pub fn cursor(&self) -> (r: Cursor)
        requires
            self.wf(),
        ensures
            r.wf(),
            r@.events.len() == 0,
            r@.pos == 0,
            r@.filter is None,
    {
        Cursor { events: Vec::new(), pos: 0, filter: Option::None }
    }

    /// The trail with the given id, read through a fresh cursor, or
    /// nothing for an out-of-range id.
    pub fn get_trail(&self, trail_id: TrailId) -> (r: Option<Trail>)
        requires
            self.wf(),
        ensures
            match r {
                Option::Some(tr) => (trail_id as int) < self@.trails.len() && tr.wf() && tr@.id
                    == trail_id && tr@.cursor.events == self@.trails[trail_id as int]
                    && tr@.cursor.pos == 0 && tr@.cursor.filter is None,
                Option::None => (trail_id as int) >= self@.trails.len(),
            },
    {
        let mut cursor = self.cursor();
        match cursor.get_trail(self, trail_id) {
            Result::Ok(()) => Option::Some(Trail { id: trail_id, cursor }),
            Result::Err(_) => Option::None,
        }
    }

    /// A lazy walk over all trails, one fresh cursor per trail;
    /// correctness over efficiency — reuse one cursor via `Cursor::get_trail`
    /// when speed matters.
    pub fn iter(&self) -> (r: DbIter)
        requires
            self.wf(),
        ensures
            r@ == 0,
    {
        DbIter { pos: 0 }
    }
}

/// Events a cursor yields never go backwards in time: in a well-formed
/// cursor, any match at or after the position carries a timestamp no
/// smaller than any earlier event's, so successive `next` calls yield
/// non-decreasing timestamps regardless of the order events were added in.
pub proof fn lemma_cursor_order(c: CursorView, i: int, j: int)
    requires
        c.wf(),
        0 <= i <= j < c.events.len(),
    ensures
        c.events[i].timestamp <= c.events[j].timestamp,
{
}

} // verus!
