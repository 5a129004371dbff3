//! The boolean event-filter algebra: clauses of OR'd signed terms, AND'd
//! across clauses, plus an optional half-open time window.

use vstd::prelude::*;
use crate::item::Item;

verus! {

/// One signed term of a clause: an item to look for, possibly negated.
#[derive(Debug, Clone, Copy, PartialEq, Eq, Structural)]
pub struct FilterTerm {
    pub item: Item,
    pub negated: bool,
}

/// Which of the three filter shapes a filter has. `MatchAll` and `MatchNone`
/// are distinguished always-true / always-false predicates; terms or windows
/// attached to them are ignored.
#[derive(Debug, Clone, Copy, PartialEq, Eq, Structural)]
pub enum FilterKind {
    MatchAll,
    MatchNone,
    Clauses,
}

/// The model of a filter.
pub ghost struct FilterView {
    pub kind: FilterKind,
    pub clauses: Seq<Seq<FilterTerm>>,
    pub window: Option<(u64, u64)>,
}

/// A boolean predicate over events, built incrementally: `or`/`or_not` add a
/// term to the current (last) clause, `and` opens a new clause, `time_range`
/// sets the window (last write wins).
pub struct EventFilter {
    kind: FilterKind,
    clauses: Vec<Vec<FilterTerm>>,
    window: Option<(u64, u64)>,
}

impl View for EventFilter {
    type V = FilterView;

    closed spec fn view(&self) -> FilterView {
        FilterView {
            kind: self.kind,
            clauses: Seq::new(self.clauses@.len(), |i: int| self.clauses@[i]@),
            window: self.window,
        }
    }
}

impl FilterView {
    /// A filter always holds at least one clause (possibly empty).
    pub open spec fn wf(self) -> bool {
        self.clauses.len() >= 1
    }
}

/// Whether one term holds of an event's item list.
pub open spec fn spec_term_matches(t: FilterTerm, items: Seq<Item>) -> bool {
    if t.negated {
        !items.contains(t.item)
    } else {
        items.contains(t.item)
    }
}

/// Whether a clause holds: the OR of its terms; a clause with no terms is
/// false.
pub open spec fn spec_clause_matches(clause: Seq<FilterTerm>, items: Seq<Item>) -> bool {
    exists|i: int| 0 <= i < clause.len() && spec_term_matches(#[trigger] clause[i], items)
}

/// Whether every clause holds (clauses are AND'd).
pub open spec fn spec_clauses_match(clauses: Seq<Seq<FilterTerm>>, items: Seq<Item>) -> bool {
    forall|c: int| 0 <= c < clauses.len() ==> spec_clause_matches(#[trigger] clauses[c], items)
}

/// Whether no term was ever added to any clause.
pub open spec fn spec_no_terms(clauses: Seq<Seq<FilterTerm>>) -> bool {
    forall|c: int| 0 <= c < clauses.len() ==> #[trigger] clauses[c].len() == 0
}

/// Whether a timestamp passes the optional half-open window [start, end).
pub open spec fn spec_time_ok(window: Option<(u64, u64)>, ts: u64) -> bool {
    match window {
        Option::None => true,
        Option::Some((start, end)) => start <= ts && ts < end,
    }
}

/// The filter semantics, per event. A filter whose entire term set is empty
/// but whose window is set matches every event in the window (a filter that
/// is "just a time window"); with no window, an empty clause makes the
/// conjunction false, so a freshly built filter matches nothing.
pub open spec fn spec_filter_matches(f: FilterView, ts: u64, items: Seq<Item>) -> bool {
    match f.kind {
        FilterKind::MatchAll => true,
        FilterKind::MatchNone => false,
        FilterKind::Clauses => {
            let item_ok = if spec_no_terms(f.clauses) && f.window is Some {
                true
            } else {
                spec_clauses_match(f.clauses, items)
            };
            spec_time_ok(f.window, ts) && item_ok
        },
    }
}

/// The effect of `or`/`or_not` on the model: append a term to the last
/// clause of a clause filter; no effect on `all()`/`none()`.
pub open spec fn spec_add_term(f: FilterView, item: Item, negated: bool) -> FilterView {
    if f.kind == FilterKind::Clauses {
        let n = f.clauses.len() - 1;
        FilterView {
            kind: f.kind,
            clauses: f.clauses.update(n as int, f.clauses[n as int].push(FilterTerm { item, negated })),
            window: f.window,
        }
    } else {
        f
    }
}

/// The effect of `and` on the model: open a new, empty clause.
pub open spec fn spec_new_clause(f: FilterView) -> FilterView {
    if f.kind == FilterKind::Clauses {
        FilterView { kind: f.kind, clauses: f.clauses.push(Seq::empty()), window: f.window }
    } else {
        f
    }
}

/// The effect of `time_range` on the model: set the window, last write wins.
pub open spec fn spec_set_window(f: FilterView, start: u64, end: u64) -> FilterView {
    if f.kind == FilterKind::Clauses {
        FilterView { kind: f.kind, clauses: f.clauses, window: Option::Some((start, end)) }
    } else {
        f
    }
}

impl EventFilter {
    /// Well-formedness: the clause list is never empty.
    pub open spec fn wf(&self) -> bool {
        self@.wf()
    }

    /// A fresh filter: one empty clause, no time window. It matches nothing
    /// until a term or a time window is added.
    pub fn new() -> (r: EventFilter)
        ensures
            r@ == (FilterView {
                kind: FilterKind::Clauses,
                clauses: seq![Seq::<FilterTerm>::empty()],
                window: Option::<(u64, u64)>::None,
            }),
            r.wf(),
    {
        let mut clauses: Vec<Vec<FilterTerm>> = Vec::new();
        clauses.push(Vec::new());
        let r = EventFilter { kind: FilterKind::Clauses, clauses, window: Option::None };
        proof {
            assert(r@.clauses =~= seq![Seq::<FilterTerm>::empty()]);
        }
        r
    }

    /// The distinguished always-true filter; terms and windows attached to it
    /// are ignored.
    pub fn all() -> (r: EventFilter)
        ensures
            r@.kind == FilterKind::MatchAll,
            r@.clauses.len() == 1,
            r@.window is None,
            r.wf(),
    {
        let mut clauses: Vec<Vec<FilterTerm>> = Vec::new();
        clauses.push(Vec::new());
        EventFilter { kind: FilterKind::MatchAll, clauses, window: Option::None }
    }

    /// The distinguished always-false filter; terms and windows attached to
    /// it are ignored.
    pub fn none() -> (r: EventFilter)
        ensures
            r@.kind == FilterKind::MatchNone,
            r@.clauses.len() == 1,
            r@.window is None,
            r.wf(),
    {
        let mut clauses: Vec<Vec<FilterTerm>> = Vec::new();
        clauses.push(Vec::new());
        EventFilter { kind: FilterKind::MatchNone, clauses, window: Option::None }
    }

    /// Append a non-negated term for `item` to the current clause.
    pub fn or(&mut self, item: Item)
        requires
            old(self).wf(),
        ensures
            final(self)@ == spec_add_term(old(self)@, item, false),
            final(self).wf(),
    {
        self.add_term(item, false);
    }

    /// Append a negated term for `item` to the current clause: the term holds
    /// of events that do not carry `item`.
    pub fn or_not(&mut self, item: Item)
        requires
            old(self).wf(),
        ensures
            final(self)@ == spec_add_term(old(self)@, item, true),
            final(self).wf(),
    {
        self.add_term(item, true);
    }

    fn add_term(&mut self, item: Item, negated: bool)
        requires
            old(self).wf(),
        ensures
            final(self)@ == spec_add_term(old(self)@, item, negated),
            final(self).wf(),
    {
        match self.kind {
            FilterKind::Clauses => {
                let n = self.clauses.len() - 1;
                let clause = &mut self.clauses[n];
                clause.push(FilterTerm { item, negated });
                proof {
                    assert(self@.clauses =~= spec_add_term(old(self)@, item, negated).clauses);
                }
            },
            _ => {},
        }
    }

    /// Open a new, initially empty clause; later `or`/`or_not` calls target
    /// it. Clauses accumulate and are never removed.
    pub fn and(&mut self)
        requires
            old(self).wf(),
        ensures
            final(self)@ == spec_new_clause(old(self)@),
            final(self).wf(),
    {
        match self.kind {
            FilterKind::Clauses => {
                self.clauses.push(Vec::new());
                proof {
                    assert(self@.clauses =~= spec_new_clause(old(self)@).clauses);
                }
            },
            _ => {},
        }
    }

    /// Set the half-open time window [start, end); at most one window is
    /// active, a second call replaces the first.
    pub fn time_range(&mut self, start: u64, end: u64)
        requires
            old(self).wf(),
        ensures
            final(self)@ == spec_set_window(old(self)@, start, end),
            final(self).wf(),
    {
        match self.kind {
            FilterKind::Clauses => {
                self.window = Option::Some((start, end));
            },
            _ => {},
        }
    }

    /// How many clauses the filter holds; a fresh filter holds one.
    pub fn num_clauses(&mut self) -> (r: u64)
        ensures
            r == old(self)@.clauses.len(),
            *final(self) == *old(self),
    {
        self.clauses.len() as u64
    }

    /// Duplicate the filter; the copy has the same model. Cursors keep
    /// their own copy of an attached filter.
    pub fn duplicate(&self) -> (r: EventFilter)
        ensures
            r@ == self@,
    {
        let mut clauses: Vec<Vec<FilterTerm>> = Vec::new();
        let mut c: usize = 0;
        while c < self.clauses.len()
            invariant
                c <= self.clauses@.len(),
                clauses@.len() == c,
                forall|k: int| 0 <= k < c ==> (#[trigger] clauses@[k])@ == self.clauses@[k]@,
            decreases self.clauses@.len() - c,
        {
            let src = &self.clauses[c];
            let mut clause: Vec<FilterTerm> = Vec::new();
            let mut i: usize = 0;
            while i < src.len()
                invariant
                    i <= src@.len(),
                    clause@ == src@.subrange(0, i as int),
                decreases src@.len() - i,
            {
                clause.push(src[i]);
                proof {
                    assert(clause@ =~= src@.subrange(0, i + 1));
                }
                i += 1;
            }
            proof {
                assert(src@.subrange(0, src@.len() as int) =~= src@);
            }
            clauses.push(clause);
            c += 1;
        }
        let r = EventFilter { kind: self.kind, clauses, window: self.window };
        proof {
            assert(r@.clauses =~= self@.clauses);
        }
        r
    }

    /// Evaluate the filter on one event, given as its timestamp and items.
    pub fn matches_event(&self, ts: u64, items: &Vec<Item>) -> (r: bool)
        ensures
            r == spec_filter_matches(self@, ts, items@),
    {
        match self.kind {
            FilterKind::MatchAll => true,
            FilterKind::MatchNone => false,
            FilterKind::Clauses => {
                let time_ok = match self.window {
                    Option::None => true,
                    Option::Some((start, end)) => start <= ts && ts < end,
                };
                if !time_ok {
                    return false;
                }
                if self.window.is_some() && self.no_terms() {
                    return true;
                }
                let mut c: usize = 0;
                while c < self.clauses.len()
                    invariant
                        c <= self.clauses@.len(),
                        self@.kind == FilterKind::Clauses,
                        spec_time_ok(self@.window, ts),
                        !(spec_no_terms(self@.clauses) && self@.window is Some),
                        forall|k: int|
                            0 <= k < c ==> spec_clause_matches(#[trigger] self@.clauses[k], items@),
                    decreases self.clauses@.len() - c,
                {
                    if !clause_matches(&self.clauses[c], items) {
                        proof {
                            assert(!spec_clause_matches(self@.clauses[c as int], items@));
                            assert(!spec_clauses_match(self@.clauses, items@));
                            assert(!spec_filter_matches(self@, ts, items@));
                        }
                        return false;
                    }
                    c += 1;
                }
                true
            },
        }
    }

    /// Whether no clause holds any term.
    fn no_terms(&self) -> (r: bool)
        ensures
            r == spec_no_terms(self@.clauses),
    {
        let mut c: usize = 0;
        while c < self.clauses.len()
            invariant
                c <= self.clauses@.len(),
                forall|k: int| 0 <= k < c ==> #[trigger] self@.clauses[k].len() == 0,
            decreases self.clauses@.len() - c,
        {
            if self.clauses[c].len() > 0 {
                proof {
                    assert(self@.clauses[c as int].len() > 0);
                }
                return false;
            }
            c += 1;
        }
        true
    }
}

/// Whether an item list carries `item`.
fn items_contain(items: &Vec<Item>, item: Item) -> (r: bool)
    ensures
        r == items@.contains(item),
{
    let mut i: usize = 0;
    while i < items.len()
        invariant
            i <= items@.len(),
            forall|k: int| 0 <= k < i ==> items@[k] != item,
        decreases items@.len() - i,
    {
        if items[i].0 == item.0 {
            return true;
        }
        i += 1;
    }
    false
}

/// Evaluate one clause: the OR of its terms.
fn clause_matches(clause: &Vec<FilterTerm>, items: &Vec<Item>) -> (r: bool)
    ensures
        r == spec_clause_matches(clause@, items@),
{
    let mut i: usize = 0;
    while i < clause.len()
        invariant
            i <= clause@.len(),
            forall|k: int| 0 <= k < i ==> !spec_term_matches(#[trigger] clause@[k], items@),
        decreases clause@.len() - i,
    {
        let t = clause[i];
        let present = items_contain(items, t.item);
        if present != t.negated {
            proof {
                assert(spec_term_matches(clause@[i as int], items@));
            }
            return true;
        }
        i += 1;
    }
    false
}

/// A filter with at least one clause, none of whose clauses holds a term,
/// and no time window — in particular a freshly built filter — matches no
/// event whatsoever.
pub proof fn lemma_no_terms_no_window_matches_nothing(f: FilterView, ts: u64, items: Seq<Item>)
    requires
        f.kind == FilterKind::Clauses,
        f.wf(),
        spec_no_terms(f.clauses),
        f.window is None,
    ensures
        !spec_filter_matches(f, ts, items),
{
    assert(f.clauses[0].len() == 0);
    assert(!spec_clause_matches(f.clauses[0], items));
}

/// A filter that is only a time window — terms never added, window set —
/// matches exactly the events whose timestamp lies in [start, end).
pub proof fn lemma_window_only_matches_window(f: FilterView, start: u64, end: u64, ts: u64, items: Seq<Item>)
    requires
        f.kind == FilterKind::Clauses,
        f.wf(),
        spec_no_terms(f.clauses),
        f.window == Option::Some((start, end)),
    ensures
        spec_filter_matches(f, ts, items) == (start <= ts && ts < end),
{
}

/// Two terms in one clause disjoin: a single-clause filter holding
/// non-negated terms for `x` and `y` matches exactly the events carrying
/// `x` or `y`.
pub proof fn lemma_or_is_disjunction(x: Item, y: Item, ts: u64, items: Seq<Item>)
    ensures
        spec_filter_matches(
            FilterView {
                kind: FilterKind::Clauses,
                clauses: seq![
                    seq![
                        FilterTerm { item: x, negated: false },
                        FilterTerm { item: y, negated: false },
                    ],
                ],
                window: Option::None,
            },
            ts,
            items,
        ) == (items.contains(x) || items.contains(y)),
{
    let clause = seq![
        FilterTerm { item: x, negated: false },
        FilterTerm { item: y, negated: false },
    ];
    let clauses = seq![clause];
    if items.contains(x) {
        assert(spec_term_matches(clause[0], items));
    }
    if items.contains(y) {
        assert(spec_term_matches(clause[1], items));
    }
    if items.contains(x) || items.contains(y) {
        assert(spec_clause_matches(clause, items));
        assert forall|c: int| 0 <= c < clauses.len() implies spec_clause_matches(
            #[trigger] clauses[c],
            items,
        ) by {
            assert(clauses[c] == clause);
        }
        assert(spec_clauses_match(clauses, items));
    }
    if spec_clause_matches(clause, items) {
        assert(items.contains(x) || items.contains(y)) by {
            let i = choose|i: int| 0 <= i < clause.len() && spec_term_matches(#[trigger] clause[i], items);
            assert(i == 0 || i == 1);
        }
    }
    if !(items.contains(x) || items.contains(y)) {
        assert(!spec_clause_matches(clause, items));
        assert(clauses[0] == clause);
        assert(!spec_clauses_match(clauses, items));
    }
}

/// Clauses conjoin: a filter of two single-term clauses for `x` and `y`
/// matches exactly the events carrying both `x` and `y`.
pub proof fn lemma_and_is_conjunction(x: Item, y: Item, ts: u64, items: Seq<Item>)
    ensures
        spec_filter_matches(
            FilterView {
                kind: FilterKind::Clauses,
                clauses: seq![
                    seq![FilterTerm { item: x, negated: false }],
                    seq![FilterTerm { item: y, negated: false }],
                ],
                window: Option::None,
            },
            ts,
            items,
        ) == (items.contains(x) && items.contains(y)),
{
    let clauses = seq![
        seq![FilterTerm { item: x, negated: false }],
        seq![FilterTerm { item: y, negated: false }],
    ];
    if items.contains(x) && items.contains(y) {
        assert(spec_term_matches(clauses[0][0], items));
        assert(spec_term_matches(clauses[1][0], items));
        assert(spec_clauses_match(clauses, items)) by {
            assert forall|c: int| 0 <= c < clauses.len() implies spec_clause_matches(
                #[trigger] clauses[c],
                items,
            ) by {
                assert(c == 0 || c == 1);
                assert(spec_term_matches(clauses[c][0], items));
            }
        }
    }
    if spec_clauses_match(clauses, items) {
        assert(spec_clause_matches(clauses[0], items));
        assert(spec_clause_matches(clauses[1], items));
        assert(items.contains(x)) by {
            let i = choose|i: int| 0 <= i < clauses[0].len() && spec_term_matches(
                #[trigger] clauses[0][i],
                items,
            );
            assert(i == 0);
        }
        assert(items.contains(y)) by {
            let i = choose|i: int| 0 <= i < clauses[1].len() && spec_term_matches(
                #[trigger] clauses[1][i],
                items,
            );
            assert(i == 0);
        }
    }
}

/// `all()` matches every event, whatever clauses or window it carries;
/// `none()` matches no event.
pub proof fn lemma_all_and_none(f: FilterView, ts: u64, items: Seq<Item>)
    ensures
        f.kind == FilterKind::MatchAll ==> spec_filter_matches(f, ts, items),
        f.kind == FilterKind::MatchNone ==> !spec_filter_matches(f, ts, items),
{
}

} // verus!
