//! The k-way, timestamp-ordered merge over several positioned cursors.

use vstd::prelude::*;
use crate::cursor::{first_match, spec_peek, Cursor, CursorView};
use crate::event::Event;

verus! {

/// The best source among the first `n` cursors: the one whose next event
/// carries the smallest timestamp, the lowest index winning ties; `cs.len()`
/// when none of them has an event left.
pub open spec fn best_pre(cs: Seq<CursorView>, n: int) -> int
    decreases n,
{
    if n <= 0 {
        cs.len() as int
    } else {
        let b = best_pre(cs, n - 1);
        let i = n - 1;
        if spec_peek(cs[i]) is Some && (b == cs.len() || spec_peek(cs[i])->Some_0 < spec_peek(
            cs[b],
        )->Some_0) {
            i
        } else {
            b
        }
    }
}

/// The cursor a merge draws from next, over all sources.
pub open spec fn best_cursor(cs: Seq<CursorView>) -> int {
    best_pre(cs, cs.len() as int)
}

/// One merged event, tagged with the index of the cursor it came from.
#[derive(Debug)]
pub struct MultiEvent {
    pub cursor_idx: usize,
    pub event: Event,
}

/// The model of a multi-cursor: its source cursors' states and the
/// positions they held when the merge was built, to which `reset` rewinds.
pub ghost struct MultiView {
    pub cursors: Seq<CursorView>,
    pub starts: Seq<int>,
}

/// A k-way merge by ascending timestamp over several cursors, each already
/// positioned on a trail; equal timestamps are drawn in source order. The
/// merge keeps its own copy of each source cursor's state.
pub struct MultiCursor {
    cursors: Vec<Cursor>,
    starts: Vec<usize>,
}

impl View for MultiCursor {
    type V = MultiView;

    closed spec fn view(&self) -> MultiView {
        MultiView {
            cursors: Seq::new(self.cursors@.len(), |i: int| self.cursors@[i]@),
            starts: Seq::new(self.starts@.len(), |i: int| self.starts@[i] as int),
        }
    }
}

impl MultiCursor {
    /// A well-formed merge: sources well formed, captured start positions
    /// in bounds.
    pub open spec fn wf(&self) -> bool {
        &&& self@.cursors.len() == self@.starts.len()
        &&& forall|i: int| 0 <= i < self@.cursors.len() ==> (#[trigger] self@.cursors[i]).wf()
        &&& forall|i: int|
            0 <= i < self@.starts.len() ==> 0 <= #[trigger] self@.starts[i]
                <= self@.cursors[i].events.len()
    }

    /// Build a merge over the given cursors, in their order, from their
    /// current positions; the merge copies each cursor's state, so the
    /// sources stay usable.
    pub fn new(cursors: &Vec<Cursor>) -> (r: MultiCursor)
        requires
            forall|i: int| 0 <= i < cursors@.len() ==> (#[trigger] cursors@[i]).wf(),
        ensures
            r.wf(),
            r@.cursors.len() == cursors@.len(),
            forall|i: int| 0 <= i < cursors@.len() ==> r@.cursors[i] == (#[trigger] cursors@[i])@,
            forall|i: int| 0 <= i < cursors@.len() ==> r@.starts[i] == (#[trigger] cursors@[i])@.pos,
    {
        let mut own: Vec<Cursor> = Vec::new();
        let mut starts: Vec<usize> = Vec::new();
        let mut i: usize = 0;
        while i < cursors.len()
            invariant
                i <= cursors@.len(),
                forall|k: int| 0 <= k < cursors@.len() ==> (#[trigger] cursors@[k]).wf(),
                own@.len() == i,
                starts@.len() == i,
                forall|k: int| 0 <= k < i ==> (#[trigger] own@[k])@ == cursors@[k]@,
                forall|k: int| 0 <= k < i ==> (#[trigger] starts@[k]) as int == cursors@[k]@.pos,
            decreases cursors@.len() - i,
        {
            let c = &cursors[i];
            own.push(c.duplicate());
            starts.push(c.position());
            i += 1;
        }
        MultiCursor { cursors: own, starts }
    }

    /// Rewind the merge to the positions its sources held when it was
    /// built; buffers and filters are untouched.
    pub fn reset(&mut self)
        requires
            old(self).wf(),
        ensures
            final(self).wf(),
            final(self)@.starts == old(self)@.starts,
            final(self)@.cursors.len() == old(self)@.cursors.len(),
            forall|i: int|
                0 <= i < old(self)@.cursors.len() ==> {
                    let c0 = #[trigger] old(self)@.cursors[i];
                    let c1 = final(self)@.cursors[i];
                    c1.events == c0.events && c1.filter == c0.filter && c1.pos == old(
                        self,
                    )@.starts[i]
                },
    {
        let ghost mv = old(self)@;
        let mut i: usize = 0;
        while i < self.cursors.len()
            invariant
                i <= mv.cursors.len(),
                mv == old(self)@,
                old(self).wf(),
                self@.cursors.len() == mv.cursors.len(),
                self@.starts == mv.starts,
                self.wf(),
                forall|k: int|
                    i <= k < mv.cursors.len() ==> #[trigger] self@.cursors[k] == mv.cursors[k],
                forall|k: int|
                    0 <= k < i ==> {
                        let c0 = #[trigger] mv.cursors[k];
                        let c1 = self@.cursors[k];
                        c1.events == c0.events && c1.filter == c0.filter && c1.pos == mv.starts[k]
                    },
            decreases mv.cursors.len() - i,
        {
            let ghost before = self@.cursors;
            let ghost bv = self.cursors@;
            let p = self.starts[i];
            let c = &mut self.cursors[i];
            proof {
                assert(before[i as int] == c@);
                assert(mv.starts[i as int] <= mv.cursors[i as int].events.len());
            }
            c.set_pos(p);
            proof {
                assert forall|k: int| 0 <= k < self@.cursors.len() && k != i implies self@.cursors[
                    k
                ] == before[k] by {
                    assert(self.cursors@[k] == bv[k]);
                }
                assert forall|k: int| 0 <= k < self@.cursors.len() implies (
                #[trigger] self@.cursors[k]).wf() by {
                    if k != i {
                        assert(self@.cursors[k] == before[k]);
                        assert(before[k].wf());
                    }
                }
                assert forall|k: int| 0 <= k < self@.starts.len() implies 0 <= (
                #[trigger] self@.starts[k]) <= self@.cursors[k].events.len() by {
                    assert(self@.starts[k] == mv.starts[k]);
                    if k == i {
                        assert(self@.cursors[k].events == mv.cursors[k].events);
                    } else {
                        assert(self@.cursors[k] == before[k]);
                        assert(0 <= before[k].pos <= before[k].events.len());
                    }
                }
            }
            i += 1;
        }
    }

    /// Draw the next merged event: among the sources still holding events,
    /// the one whose next event has the smallest timestamp — the lowest
    /// index on ties — yields it and advances; nothing once every source is
    /// exhausted.
    pub fn next(&mut self) -> (r: Option<MultiEvent>)
        requires
            old(self).wf(),
        ensures
            final(self).wf(),
            final(self)@.starts == old(self)@.starts,
            ({
                let cs = old(self)@.cursors;
                let b = best_cursor(cs);
                match r {
                    Option::None => b == cs.len() && *final(self) == *old(self),
                    Option::Some(me) => {
                        let fm = first_match(cs[b].events, cs[b].filter, cs[b].pos);
                        &&& b < cs.len()
                        &&& me.cursor_idx == b
                        &&& fm < cs[b].events.len()
                        &&& me.event@ == cs[b].events[fm]
                        &&& final(self)@.cursors == cs.update(
                            b,
                            CursorView { events: cs[b].events, pos: fm + 1, filter: cs[b].filter },
                        )
                    },
                }
            }),
    {
        let ghost cs = old(self)@.cursors;
        let k = self.cursors.len();
        let mut best: usize = k;
        let mut best_ts: u64 = 0;
        let mut i: usize = 0;
        while i < k
            invariant
                i <= k,
                *self == *old(self),
                self.wf(),
                cs == self@.cursors,
                k == cs.len(),
                best <= k,
                best == k ==> best_pre(cs, i as int) == cs.len(),
                best < k ==> best_pre(cs, i as int) == best && spec_peek(cs[best as int])
                    == Option::Some(best_ts),
            decreases k - i,
        {
            let c = &self.cursors[i];
            proof {
                assert(cs[i as int] == c@);
                assert(cs[i as int].wf());
            }
            match c.peek() {
                Option::Some(ts) => {
                    if best == k || ts < best_ts {
                        best = i;
                        best_ts = ts;
                    }
                },
                Option::None => {},
            }
            i += 1;
        }
        if best == k {
            return Option::None;
        }
        let ghost csb = cs[best as int];
        let ghost before = self@.cursors;
        let c = &mut self.cursors[best];
        proof {
            assert(before[best as int] == c@);
            assert(csb.wf());
            assert(first_match(csb.events, csb.filter, csb.pos) < csb.events.len());
        }
        let drawn = c.next();
        proof {
            assert forall|t: int| 0 <= t < self@.cursors.len() && t != best implies self@.cursors[
                t
            ] == before[t] by {
            }
        }
        match drawn {
            Option::Some(event) => {
                proof {
                    let fm = first_match(csb.events, csb.filter, csb.pos);
                    assert(self@.cursors =~= cs.update(
                        best as int,
                        CursorView { events: csb.events, pos: fm + 1, filter: csb.filter },
                    ));
                }
                Option::Some(MultiEvent { cursor_idx: best, event })
            },
            Option::None => {
                proof {
                    assert(false);
                }
                Option::None
            },
        }
    }
}

} // verus!
