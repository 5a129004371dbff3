//! The mutable, in-memory accumulation of events, sealed into a `Db` by
//! `finalize`.

use vstd::prelude::*;
use vstd::string::StrSliceExecFns;
use crate::errors::Error;
use crate::event::{copy_events, Event, EventView, events_view};
use crate::item::{Item, spec_encode_item, spec_item_field, spec_item_val};
use crate::log::{
    assemble_db, clone_string_vec, Db, field_name_shape_ok, fields_distinct, find_string,
    find_uuid, lemma_db_repr, lemma_spec_find, lemma_total_len_bounds, lemma_total_len_pointwise,
    lemma_total_len_push, lemma_total_len_step, lemma_total_len_update, lexs_view, LogView,
    spec_find, strs_view, total_len, trails_view, uuids_view, valid_fields, valid_lexicon,
    valid_lexicons, valid_uuids, wf_event, wf_log, wf_trail,
};
use crate::sort::{
    lemma_stable_sort_multiset, lemma_stable_sort_sorted, sort_events, sorted_by_ts, stable_sort,
};
use crate::{Timestamp, Uuid, MAX_FIELD_NAME_LEN, MAX_LEXICON_SIZE, MAX_NUM_FIELDS, MAX_TIMESTAMP,
    MAX_VALUE_LEN};

verus! {

/// Well-formedness of a builder's state: like a sealed log's, except that
/// buffered trails need not be sorted yet.
pub open spec fn wf_cons(lv: LogView) -> bool {
    &&& valid_fields(lv.fields)
    &&& valid_lexicons(lv.lexicons, lv.fields.len() as int)
    &&& valid_uuids(lv.uuids)
    &&& lv.uuids.len() == lv.trails.len()
    &&& forall|t: int| 0 <= t < lv.trails.len() ==> wf_trail(#[trigger] lv.trails[t], lv.lexicons)
    &&& total_len(lv.trails) <= u64::MAX
}

/// The lexicon after recording one value: unchanged for the empty value or
/// one already present, extended by one entry otherwise.
pub open spec fn lex_after(lex: Seq<Seq<char>>, v: Seq<char>) -> Seq<Seq<char>> {
    if v.len() == 0 || spec_find(lex, v) < lex.len() {
        lex
    } else {
        lex.push(v)
    }
}

/// The id a value gets: 0 for the empty value, the existing dense id for a
/// known one, the next dense id for a new one.
pub open spec fn spec_value_id(lex: Seq<Seq<char>>, v: Seq<char>) -> int {
    if v.len() == 0 {
        0
    } else if spec_find(lex, v) < lex.len() {
        spec_find(lex, v) + 1
    } else {
        lex.len() as int + 1
    }
}

/// The items one add() buffers: slot `i` encodes field `i + 1` with the id
/// its value gets against the pre-add lexicons.
pub open spec fn spec_encoded_items(lexs: Seq<Seq<Seq<char>>>, values: Seq<Seq<char>>) -> Seq<
    Item,
> {
    Seq::new(
        lexs.len(),
        |i: int| Item(spec_encode_item((i + 1) as u32, spec_value_id(lexs[i], values[i]) as u64)),
    )
}

/// The effect of one successful add() on the builder's model: the uuid is
/// recorded if unseen, its trail gains one event holding the encoded items,
/// and each field's lexicon absorbs its value.
pub open spec fn spec_add(lv: LogView, u: Seq<u8>, ts: Timestamp, values: Seq<Seq<char>>) -> LogView {
    let fresh = spec_find(lv.uuids, u) == lv.uuids.len();
    let idx = spec_find(lv.uuids, u);
    let uuids2 = if fresh {
        lv.uuids.push(u)
    } else {
        lv.uuids
    };
    let trails1 = if fresh {
        lv.trails.push(Seq::empty())
    } else {
        lv.trails
    };
    let ev = EventView { timestamp: ts, items: spec_encoded_items(lv.lexicons, values) };
    LogView {
        fields: lv.fields,
        lexicons: Seq::new(lv.lexicons.len(), |i: int| lex_after(lv.lexicons[i], values[i])),
        uuids: uuids2,
        trails: trails1.update(idx, trails1[idx].push(ev)),
    }
}

/// The value strings one stored event decodes back to: the lexicon entry
/// each item's id selects, the empty string for id 0.
pub open spec fn spec_decoded_values(lexs: Seq<Seq<Seq<char>>>, items: Seq<Item>) -> Seq<
    Seq<char>,
> {
    Seq::new(
        items.len(),
        |i: int|
            {
                let v = spec_item_val(items[i].0) as int;
                if v == 0 {
                    Seq::<char>::empty()
                } else {
                    lexs[i][v - 1]
                }
            },
    )
}

/// The builder's model after re-adding a sequence of one trail's events,
/// decoded against the source log's lexicons, in order.
pub open spec fn spec_add_events(
    lv: LogView,
    u: Seq<u8>,
    evs: Seq<EventView>,
    lexs: Seq<Seq<Seq<char>>>,
) -> LogView
    decreases evs.len(),
{
    if evs.len() == 0 {
        lv
    } else {
        spec_add(
            spec_add_events(lv, u, evs.drop_last(), lexs),
            u,
            evs.last().timestamp,
            spec_decoded_values(lexs, evs.last().items),
        )
    }
}

/// The builder's model after appending the first `t` trails of a sealed
/// log, trail by trail, event by event.
pub open spec fn spec_append_upto(lv: LogView, dbv: LogView, t: int) -> LogView
    decreases t,
{
    if t <= 0 {
        lv
    } else {
        spec_add_events(
            spec_append_upto(lv, dbv, t - 1),
            dbv.uuids[t - 1],
            dbv.trails[t - 1],
            dbv.lexicons,
        )
    }
}

/// The builder's model after appending a whole sealed log.
pub open spec fn spec_append(lv: LogView, dbv: LogView) -> LogView {
    spec_append_upto(lv, dbv, dbv.trails.len() as int)
}

/// Whether merging the log would push the buffered-event total past what a
/// 64-bit count can hold.
pub open spec fn append_total_overflow(lv: LogView, dbv: LogView) -> bool {
    total_len(lv.trails) + total_len(dbv.trails) > u64::MAX
}

/// Whether merging the log would push some field's lexicon — the distinct
/// values of the builder's lexicon together with those decoded from the
/// log's events — past the id space.
pub open spec fn append_lexicon_overflow(lv: LogView, dbv: LogView) -> bool {
    exists|k: int|
        0 <= k < lv.lexicons.len() && (#[trigger] spec_append(lv, dbv).lexicons[k]).len()
            > MAX_LEXICON_SIZE
}

/// One add() keeps the lexicon count and never shrinks a lexicon.
proof fn lemma_add_lex_len(lv: LogView, u: Seq<u8>, ts: Timestamp, vs: Seq<Seq<char>>)
    ensures
        spec_add(lv, u, ts, vs).lexicons.len() == lv.lexicons.len(),
        forall|k: int|
            0 <= k < lv.lexicons.len() ==> (#[trigger] spec_add(lv, u, ts, vs).lexicons[k]).len()
                >= lv.lexicons[k].len(),
{
}

/// A run of adds keeps the lexicon count and never shrinks a lexicon.
proof fn lemma_add_events_lex_len(lv: LogView, u: Seq<u8>, evs: Seq<EventView>, lexs: Seq<Seq<Seq<char>>>)
    ensures
        spec_add_events(lv, u, evs, lexs).lexicons.len() == lv.lexicons.len(),
        forall|k: int|
            0 <= k < lv.lexicons.len() ==> (#[trigger] spec_add_events(
                lv,
                u,
                evs,
                lexs,
            ).lexicons[k]).len() >= lv.lexicons[k].len(),
    decreases evs.len(),
{
    if evs.len() > 0 {
        let pre = spec_add_events(lv, u, evs.drop_last(), lexs);
        lemma_add_events_lex_len(lv, u, evs.drop_last(), lexs);
        lemma_add_lex_len(pre, u, evs.last().timestamp, spec_decoded_values(lexs, evs.last().items));
    }
}

/// Along one trail's run of adds, a lexicon's length after a prefix never
/// exceeds its length after the whole run.
proof fn lemma_add_events_prefix_lex_len(
    lv: LogView,
    u: Seq<u8>,
    evs: Seq<EventView>,
    lexs: Seq<Seq<Seq<char>>>,
    e: int,
)
    requires
        0 <= e <= evs.len(),
    ensures
        forall|k: int|
            0 <= k < lv.lexicons.len() ==> (#[trigger] spec_add_events(
                lv,
                u,
                evs.subrange(0, e),
                lexs,
            ).lexicons[k]).len() <= spec_add_events(lv, u, evs, lexs).lexicons[k].len(),
    decreases evs.len() - e,
{
    if e == evs.len() {
        assert(evs.subrange(0, e) =~= evs);
    } else {
        let pre = spec_add_events(lv, u, evs.subrange(0, e), lexs);
        let vs = spec_decoded_values(lexs, evs[e].items);
        assert(evs.subrange(0, e + 1).drop_last() =~= evs.subrange(0, e));
        assert(evs.subrange(0, e + 1).last() == evs[e]);
        lemma_add_events_lex_len(lv, u, evs.subrange(0, e), lexs);
        lemma_add_lex_len(pre, u, evs[e].timestamp, vs);
        lemma_add_events_prefix_lex_len(lv, u, evs, lexs, e + 1);
        assert forall|k: int| 0 <= k < lv.lexicons.len() implies (#[trigger] spec_add_events(
            lv,
            u,
            evs.subrange(0, e),
            lexs,
        ).lexicons[k]).len() <= spec_add_events(lv, u, evs, lexs).lexicons[k].len() by {
            assert(spec_add_events(lv, u, evs.subrange(0, e + 1), lexs) == spec_add(
                pre,
                u,
                evs[e].timestamp,
                vs,
            ));
            assert(spec_add(pre, u, evs[e].timestamp, vs).lexicons[k].len() >= pre.lexicons[
                k
            ].len());
            assert(spec_add_events(lv, u, evs.subrange(0, e + 1), lexs).lexicons[k].len()
                <= spec_add_events(lv, u, evs, lexs).lexicons[k].len());
        }
    }
}

/// Appending trails keeps the lexicon count.
proof fn lemma_append_upto_count(lv: LogView, dbv: LogView, t: int)
    requires
        t >= 0,
    ensures
        spec_append_upto(lv, dbv, t).lexicons.len() == lv.lexicons.len(),
    decreases t,
{
    if t > 0 {
        lemma_append_upto_count(lv, dbv, t - 1);
        lemma_add_events_lex_len(
            spec_append_upto(lv, dbv, t - 1),
            dbv.uuids[t - 1],
            dbv.trails[t - 1],
            dbv.lexicons,
        );
    }
}

/// Appending more trails never shrinks a lexicon.
proof fn lemma_append_upto_lex_len(lv: LogView, dbv: LogView, t1: int, t2: int)
    requires
        0 <= t1 <= t2,
    ensures
        spec_append_upto(lv, dbv, t1).lexicons.len() == lv.lexicons.len(),
        forall|k: int|
            0 <= k < lv.lexicons.len() ==> (#[trigger] spec_append_upto(
                lv,
                dbv,
                t1,
            ).lexicons[k]).len() <= spec_append_upto(lv, dbv, t2).lexicons[k].len(),
    decreases t2 - t1,
{
    lemma_append_upto_count(lv, dbv, t1);
    if t1 < t2 {
        lemma_append_upto_lex_len(lv, dbv, t1, t2 - 1);
        lemma_append_upto_count(lv, dbv, t2 - 1);
        lemma_add_events_lex_len(
            spec_append_upto(lv, dbv, t2 - 1),
            dbv.uuids[t2 - 1],
            dbv.trails[t2 - 1],
            dbv.lexicons,
        );
    }
}

/// An add() that fails mid-merge pins the merge's own failure condition:
/// a `Nomem` means the merged event total cannot fit, a `LexiconTooLarge`
/// means some field's fully merged lexicon outgrows the id space, because
/// lexicons only ever grow along the merge.
proof fn lemma_append_failure_cause(
    lv0: LogView,
    dbv: LogView,
    lv_t: LogView,
    lv_pre: LogView,
    u: Seq<u8>,
    evs: Seq<EventView>,
    t: int,
    e: int,
    err: Error,
    vs: Seq<Seq<char>>,
)
    requires
        wf_cons(lv0),
        wf_log(dbv),
        0 <= t < dbv.trails.len(),
        0 <= e < evs.len(),
        evs == dbv.trails[t],
        u == dbv.uuids[t],
        lv_t == spec_append_upto(lv0, dbv, t),
        lv_pre == spec_add_events(lv_t, u, evs.subrange(0, e), dbv.lexicons),
        vs == spec_decoded_values(dbv.lexicons, evs[e].items),
        wf_cons(lv_pre),
        lv0.fields == dbv.fields,
        lv_pre.fields == dbv.fields,
        total_len(lv_pre.trails) == total_len(lv0.trails) + total_len(dbv.trails.subrange(0, t))
            + e,
        err == Error::Nomem ==> total_len(lv_pre.trails) == u64::MAX,
        err == Error::LexiconTooLarge ==> some_lexicon_full(lv_pre.lexicons, vs),
        err == Error::Nomem || err == Error::LexiconTooLarge,
    ensures
        err == Error::Nomem ==> append_total_overflow(lv0, dbv),
        err == Error::LexiconTooLarge ==> append_lexicon_overflow(lv0, dbv),
{
    if err == Error::Nomem {
        lemma_total_len_step(dbv.trails, t);
        lemma_total_len_bounds(dbv.trails, t + 1);
        assert(total_len(dbv.trails.subrange(0, t + 1)) == total_len(dbv.trails.subrange(0, t))
            + evs.len());
        assert(total_len(dbv.trails) >= total_len(dbv.trails.subrange(0, t)) + e + 1);
    } else {
        assert(wf_event(evs[e], dbv.lexicons)) by {
            assert(wf_trail(dbv.trails[t], dbv.lexicons));
        }
        assert(vs.len() == dbv.lexicons.len());
        assert(dbv.lexicons.len() == dbv.fields.len());
        assert(lv0.lexicons.len() == lv0.fields.len());
        assert(lv_pre.lexicons.len() == lv_pre.fields.len());
        assert(lv_pre.lexicons.len() == vs.len());
        let k = choose|k: int|
            0 <= k < vs.len() && (#[trigger] vs[k]).len() > 0 && spec_find(lv_pre.lexicons[k], vs[k])
                == lv_pre.lexicons[k].len() && lv_pre.lexicons[k].len() >= MAX_LEXICON_SIZE;
        assert(valid_lexicon(lv_pre.lexicons[k]));
        assert(lv_pre.lexicons[k].len() == MAX_LEXICON_SIZE);
        let nxt = spec_add(lv_pre, u, evs[e].timestamp, vs);
        assert(nxt.lexicons[k] == lex_after(lv_pre.lexicons[k], vs[k]));
        assert(nxt.lexicons[k].len() == MAX_LEXICON_SIZE + 1);
        assert(evs.subrange(0, e + 1).drop_last() =~= evs.subrange(0, e));
        assert(evs.subrange(0, e + 1).last() == evs[e]);
        assert(nxt == spec_add_events(lv_t, u, evs.subrange(0, e + 1), dbv.lexicons));
        lemma_append_upto_lex_len(lv0, dbv, t, t);
        assert(lv_t.lexicons.len() == lv0.lexicons.len());
        lemma_add_events_prefix_lex_len(lv_t, u, evs, dbv.lexicons, e + 1);
        assert(spec_add_events(lv_t, u, evs, dbv.lexicons) == spec_append_upto(lv0, dbv, t + 1));
        lemma_append_upto_lex_len(lv0, dbv, t + 1, dbv.trails.len() as int);
        assert(spec_append(lv0, dbv).lexicons[k].len() >= MAX_LEXICON_SIZE + 1);
        assert(append_lexicon_overflow(lv0, dbv));
    }
}

/// A value whose length exceeds the limit.
pub open spec fn some_value_too_long(values: Seq<Seq<char>>) -> bool {
    exists|i: int| 0 <= i < values.len() && (#[trigger] values[i]).len() > MAX_VALUE_LEN
}

/// A value that would need a lexicon id beyond the id space.
pub open spec fn some_lexicon_full(lexs: Seq<Seq<Seq<char>>>, values: Seq<Seq<char>>) -> bool {
    exists|i: int|
        0 <= i < values.len() && (#[trigger] values[i]).len() > 0 && spec_find(lexs[i], values[i])
            == lexs[i].len() && lexs[i].len() >= MAX_LEXICON_SIZE
}

/// One accepted add() keeps the builder well formed and buffers exactly one
/// more event; its uuid is recorded exactly once — appended when unseen,
/// found otherwise — so the trail count always equals the number of
/// distinct uuids added, and the event total counts the accepted add()
/// calls.
pub proof fn lemma_add_preserves_wf(lv: LogView, u: Seq<u8>, ts: Timestamp, vs: Seq<Seq<char>>)
    requires
        wf_cons(lv),
        vs.len() == lv.fields.len(),
        ts <= MAX_TIMESTAMP,
        !some_value_too_long(vs),
        !some_lexicon_full(lv.lexicons, vs),
        total_len(lv.trails) < u64::MAX,
    ensures
        wf_cons(spec_add(lv, u, ts, vs)),
        total_len(spec_add(lv, u, ts, vs).trails) == total_len(lv.trails) + 1,
        lv.uuids.contains(u) ==> spec_add(lv, u, ts, vs).uuids == lv.uuids,
        !lv.uuids.contains(u) ==> spec_add(lv, u, ts, vs).uuids == lv.uuids.push(u),
        spec_add(lv, u, ts, vs).uuids.contains(u),
        spec_add(lv, u, ts, vs).uuids.len() == lv.uuids.len() + (
            if lv.uuids.contains(u) { 0int } else { 1int }
        ),
{
    let r = spec_add(lv, u, ts, vs);
    lemma_spec_find(lv.uuids, u);
    let fresh = spec_find(lv.uuids, u) == lv.uuids.len();
    let idx = spec_find(lv.uuids, u);
    let trails1 = if fresh {
        lv.trails.push(Seq::<EventView>::empty())
    } else {
        lv.trails
    };
    let ev = EventView { timestamp: ts, items: spec_encoded_items(lv.lexicons, vs) };
    assert forall|k: int| 0 <= k < r.lexicons.len() implies valid_lexicon(
        #[trigger] r.lexicons[k],
    ) && lv.lexicons[k].len() <= r.lexicons[k].len() && spec_value_id(lv.lexicons[k], vs[k])
        <= r.lexicons[k].len() && 0 <= spec_value_id(lv.lexicons[k], vs[k])
        < 0x1_0000_0000 by {
        assert(valid_lexicon(lv.lexicons[k]));
        lemma_spec_find(lv.lexicons[k], vs[k]);
        let old_lex = lv.lexicons[k];
        let new_lex = r.lexicons[k];
        assert(new_lex == lex_after(old_lex, vs[k]));
        if vs[k].len() > 0 && spec_find(old_lex, vs[k]) == old_lex.len() {
            assert(old_lex.len() < MAX_LEXICON_SIZE) by {
                assert(!(vs[k].len() > 0 && spec_find(lv.lexicons[k], vs[k])
                    == lv.lexicons[k].len() && lv.lexicons[k].len() >= MAX_LEXICON_SIZE));
            }
            assert(vs[k].len() <= MAX_VALUE_LEN) by {
                assert(!(vs[k].len() > MAX_VALUE_LEN));
            }
            assert(new_lex == old_lex.push(vs[k]));
            assert forall|a: int, b: int| 0 <= a < b < new_lex.len() implies new_lex[a]
                != new_lex[b] by {
                if b < old_lex.len() {
                    assert(old_lex[a] != old_lex[b]);
                } else {
                    assert(new_lex[b] == vs[k]);
                    assert(old_lex[a] != vs[k]);
                }
            }
        }
    }
    assert(wf_event(ev, r.lexicons)) by {
        assert forall|k: int| 0 <= k < r.lexicons.len() implies spec_item_field(
            (#[trigger] ev.items[k]).0,
        ) as int == k + 1 && spec_item_val(ev.items[k].0) as int <= r.lexicons[k].len() by {
            assert(valid_lexicon(r.lexicons[k]));
            let id = spec_value_id(lv.lexicons[k], vs[k]) as u64;
            crate::item::lemma_encode_decode((k + 1) as u32, id);
            assert(ev.items[k] == Item(spec_encode_item((k + 1) as u32, id)));
        }
    }
    assert forall|t: int| 0 <= t < r.trails.len() implies wf_trail(
        #[trigger] r.trails[t],
        r.lexicons,
    ) by {
        if t == idx {
            assert(r.trails[t] == trails1[idx].push(ev));
            assert forall|e: int| 0 <= e < r.trails[t].len() implies wf_event(
                #[trigger] r.trails[t][e],
                r.lexicons,
            ) by {
                if e < trails1[idx].len() {
                    assert(r.trails[t][e] == trails1[idx][e]);
                    if !fresh {
                        assert(wf_event(lv.trails[idx][e], lv.lexicons));
                        lemma_wf_event_wider(lv.trails[idx][e], lv.lexicons, r.lexicons);
                    }
                } else {
                    assert(r.trails[t][e] == ev);
                }
            }
        } else {
            assert(r.trails[t] == trails1[t]);
            if t < lv.trails.len() {
                assert(trails1[t] == lv.trails[t]);
                assert(wf_trail(lv.trails[t], lv.lexicons));
                assert forall|e: int| 0 <= e < r.trails[t].len() implies wf_event(
                    #[trigger] r.trails[t][e],
                    r.lexicons,
                ) by {
                    lemma_wf_event_wider(lv.trails[t][e], lv.lexicons, r.lexicons);
                }
            }
        }
    }
    if fresh {
        assert forall|a: int, b: int| 0 <= a < b < r.uuids.len() implies r.uuids[a]
            != r.uuids[b] by {
            if b < lv.uuids.len() {
                assert(lv.uuids[a] != lv.uuids[b]);
            } else {
                assert(r.uuids[b] == u);
                assert(lv.uuids[a] != u);
            }
        }
        lemma_total_len_push(lv.trails, Seq::<EventView>::empty());
    }
    lemma_total_len_update(trails1, idx, trails1[idx].push(ev));
    if fresh {
        assert(r.uuids[lv.uuids.len() as int] == u);
        assert(r.uuids.contains(u));
    } else {
        assert(r.uuids[idx] == u);
        assert(r.uuids.contains(u));
    }
}

/// The stable sort of a well-formed trail is sorted, keeps its length, and
/// stays well formed: every sorted event came from the unsorted buffer.
proof fn lemma_stable_sort_wf_trail(s: Seq<EventView>, lexs: Seq<Seq<Seq<char>>>)
    requires
        wf_trail(s, lexs),
    ensures
        wf_trail(stable_sort(s), lexs),
        sorted_by_ts(stable_sort(s)),
        stable_sort(s).len() == s.len(),
{
    lemma_stable_sort_sorted(s);
    lemma_stable_sort_multiset(s);
    let r = stable_sort(s);
    assert forall|i: int| 0 <= i < r.len() implies wf_event(#[trigger] r[i], lexs) by {
        r.to_multiset_ensures();
        s.to_multiset_ensures();
        assert(r.contains(r[i]));
        assert(s.to_multiset().count(r[i]) > 0);
        assert(s.contains(r[i]));
        let w = choose|w: int| 0 <= w < s.len() && s[w] == r[i];
        assert(wf_event(s[w], lexs));
    }
}

/// An event well formed against some lexicons stays well formed against any
/// pointwise-extended lexicons.
proof fn lemma_wf_event_wider(e: EventView, lexs1: Seq<Seq<Seq<char>>>, lexs2: Seq<Seq<Seq<char>>>)
    requires
        wf_event(e, lexs1),
        lexs1.len() == lexs2.len(),
        forall|k: int| 0 <= k < lexs1.len() ==> (#[trigger] lexs1[k]).len() <= lexs2[k].len(),
    ensures
        wf_event(e, lexs2),
{
}

/// A mutable accumulation of (uuid, timestamp, field-values) triples. It
/// owns the evolving lexicons and trail index; `finalize` seals it into an
/// immutable `Db`, `close` discards it.
pub struct Constructor {
    fields: Vec<String>,
    lexicons: Vec<Vec<String>>,
    uuids: Vec<Uuid>,
    trails: Vec<Vec<Event>>,
    total_events: u64,
}

impl View for Constructor {
    type V = LogView;

    closed spec fn view(&self) -> LogView {
        LogView {
            fields: strs_view(self.fields@),
            lexicons: lexs_view(self.lexicons@),
            uuids: uuids_view(self.uuids@),
            trails: trails_view(self.trails@),
        }
    }
}

impl Constructor {
    /// The cached buffered-event total agrees with the trails.
    pub closed spec fn cache_ok(&self) -> bool {
        self.total_events as int == total_len(self@.trails)
    }

    /// A well-formed builder.
    pub open spec fn wf(&self) -> bool {
        &&& wf_cons(self@)
        &&& self.cache_ok()
    }

    /// Create a builder for the given schema. Fails with `TooManyFields`
    /// for an oversized schema, `InvalidFieldname` for an empty or
    /// overlong name, and `DuplicateFields` for a repeated name or one
    /// claiming the reserved time field.
    pub fn new(field_names: Vec<String>) -> (r: Result<Constructor, Error>)
        ensures
            ({
                let fv = strs_view(field_names@);
                match r {
                    Result::Ok(c) => valid_fields(fv) && c.wf() && c@ == (LogView {
                        fields: fv,
                        lexicons: Seq::new(fv.len(), |i: int| Seq::<Seq<char>>::empty()),
                        uuids: Seq::<Seq<u8>>::empty(),
                        trails: Seq::<Seq<EventView>>::empty(),
                    }),
                    Result::Err(e) => !valid_fields(fv) && (if fv.len() > MAX_NUM_FIELDS {
                        e == Error::TooManyFields
                    } else if exists|i: int|
                        0 <= i < fv.len() && !field_name_shape_ok(#[trigger] fv[i]) {
                        e == Error::InvalidFieldname
                    } else {
                        e == Error::DuplicateFields && !fields_distinct(fv)
                    }),
                }
            }),
    {
        let ghost fv = strs_view(field_names@);
        if field_names.len() > MAX_NUM_FIELDS {
            return Result::Err(Error::TooManyFields);
        }
        let mut i: usize = 0;
        while i < field_names.len()
            invariant
                i <= fv.len(),
                fv == strs_view(field_names@),
                fv.len() <= MAX_NUM_FIELDS,
                forall|k: int| 0 <= k < i ==> field_name_shape_ok(#[trigger] fv[k]),
            decreases fv.len() - i,
        {
            let n = field_names[i].as_str().unicode_len();
            if n == 0 || n > MAX_FIELD_NAME_LEN {
                proof {
                    assert(!field_name_shape_ok(fv[i as int]));
                }
                return Result::Err(Error::InvalidFieldname);
            }
            i += 1;
        }
        let time_name = String::from_str("time");
        i = 0;
        while i < field_names.len()
            invariant
                i <= fv.len(),
                fv == strs_view(field_names@),
                fv.len() <= MAX_NUM_FIELDS,
                time_name@ == "time"@,
                forall|k: int| 0 <= k < fv.len() ==> field_name_shape_ok(#[trigger] fv[k]),
                forall|k: int| 0 <= k < i ==> fv[k] != "time"@,
                forall|a: int, b: int| 0 <= a < b < i ==> fv[a] != fv[b],
            decreases fv.len() - i,
        {
            if field_names[i].eq(&time_name) {
                proof {
                    assert(fv[i as int] == "time"@);
                    assert(!fields_distinct(fv));
                }
                return Result::Err(Error::DuplicateFields);
            }
            let mut j: usize = 0;
            while j < i
                invariant
                    j <= i < fv.len(),
                    fv == strs_view(field_names@),
                    fv.len() <= MAX_NUM_FIELDS,
                    forall|k: int| 0 <= k < fv.len() ==> field_name_shape_ok(#[trigger] fv[k]),
                    forall|k: int| 0 <= k < j ==> fv[k] != fv[i as int],
                decreases i - j,
            {
                if field_names[j].eq(&field_names[i]) {
                    proof {
                        assert(fv[j as int] == fv[i as int]);
                        assert(!fields_distinct(fv));
                    }
                    return Result::Err(Error::DuplicateFields);
                }
                j += 1;
            }
            i += 1;
        }
        let mut lexicons: Vec<Vec<String>> = Vec::new();
        i = 0;
        while i < field_names.len()
            invariant
                i <= field_names@.len(),
                fv == strs_view(field_names@),
                valid_fields(fv),
                lexicons@.len() == i,
                forall|k: int| 0 <= k < i ==> (#[trigger] lexicons@[k])@.len() == 0,
            decreases field_names@.len() - i,
        {
            lexicons.push(Vec::new());
            i += 1;
        }
        let c = Constructor {
            fields: field_names,
            lexicons,
            uuids: Vec::new(),
            trails: Vec::new(),
            total_events: 0,
        };
        proof {
            assert(c@.lexicons =~~= Seq::new(fv.len(), |i: int| Seq::<Seq<char>>::empty()));
            assert(c@.uuids =~= Seq::<Seq<u8>>::empty());
            assert(c@.trails =~= Seq::<Seq<EventView>>::empty());
            assert(c@.fields == fv);
        }
        Result::Ok(c)
    }

    /// Buffer one event. Fails with `UnknownField` when the value list does
    /// not match the schema's arity, `TimestampTooLarge` / `ValueTooLong`
    /// when a limit is exceeded, `Nomem` when the buffered-event count
    /// would overflow, and `LexiconTooLarge` when a new value would need an
    /// id beyond a field's id space; a failed call leaves the builder
    /// unchanged. On success the entity's trail (created on first sight of
    /// the uuid) gains one event, encoded against the lexicons, which
    /// absorb each non-empty new value.
    pub fn add(&mut self, uuid: &Uuid, timestamp: Timestamp, values: &Vec<String>) -> (r: Result<
        (),
        Error,
    >)
        requires
            old(self).wf(),
        ensures
            final(self).wf(),
            ({
                let lv = old(self)@;
                let vs = strs_view(values@);
                let arity_bad = values@.len() != lv.fields.len();
                let ts_bad = timestamp > MAX_TIMESTAMP;
                let val_bad = some_value_too_long(vs);
                let full = total_len(lv.trails) == u64::MAX;
                let lex_full = some_lexicon_full(lv.lexicons, vs);
                match r {
                    Result::Ok(()) => !arity_bad && !ts_bad && !val_bad && !full && !lex_full
                        && final(self)@ == spec_add(lv, uuid@, timestamp, vs),
                    Result::Err(e) => final(self)@ == lv && (if arity_bad {
                        e == Error::UnknownField
                    } else if ts_bad {
                        e == Error::TimestampTooLarge
                    } else if val_bad {
                        e == Error::ValueTooLong
                    } else if full {
                        e == Error::Nomem
                    } else {
                        e == Error::LexiconTooLarge && lex_full
                    }),
                }
            }),
    {
        let ghost lv = old(self)@;
        let ghost vs = strs_view(values@);
        if values.len() != self.fields.len() {
            return Result::Err(Error::UnknownField);
        }
        if timestamp > MAX_TIMESTAMP {
            return Result::Err(Error::TimestampTooLarge);
        }
        let mut i: usize = 0;
        while i < values.len()
            invariant
                i <= vs.len(),
                vs == strs_view(values@),
                *self == *old(self),
                self.wf(),
                lv == self@,
                values@.len() == lv.fields.len(),
                timestamp <= MAX_TIMESTAMP,
                forall|k: int| 0 <= k < i ==> #[trigger] vs[k].len() <= MAX_VALUE_LEN,
            decreases vs.len() - i,
        {
            if values[i].as_str().unicode_len() > MAX_VALUE_LEN {
                proof {
                    assert(vs[i as int].len() > MAX_VALUE_LEN);
                }
                return Result::Err(Error::ValueTooLong);
            }
            i += 1;
        }
        if self.total_events == u64::MAX {
            return Result::Err(Error::Nomem);
        }
        i = 0;
        while i < values.len()
            invariant
                i <= vs.len(),
                vs == strs_view(values@),
                *self == *old(self),
                self.wf(),
                lv == self@,
                vs.len() == lv.lexicons.len(),
                values@.len() == lv.fields.len(),
                timestamp <= MAX_TIMESTAMP,
                self.total_events != u64::MAX,
                forall|k: int| 0 <= k < vs.len() ==> #[trigger] vs[k].len() <= MAX_VALUE_LEN,
                forall|k: int|
                    0 <= k < i ==> !((#[trigger] vs[k]).len() > 0 && spec_find(lv.lexicons[k], vs[k])
                        == lv.lexicons[k].len() && lv.lexicons[k].len() >= MAX_LEXICON_SIZE),
            decreases vs.len() - i,
        {
            proof {
                assert(strs_view(self.lexicons@[i as int]@) == lv.lexicons[i as int]);
            }
            if values[i].as_str().unicode_len() > 0 {
                match find_string(&self.lexicons[i], &values[i]) {
                    Option::Some(_) => {},
                    Option::None => {
                        if self.lexicons[i].len() >= MAX_LEXICON_SIZE {
                            proof {
                                assert(vs[i as int].len() > 0 && spec_find(
                                    lv.lexicons[i as int],
                                    vs[i as int],
                                ) == lv.lexicons[i as int].len() && lv.lexicons[i as int].len()
                                    >= MAX_LEXICON_SIZE);
                            }
                            return Result::Err(Error::LexiconTooLarge);
                        }
                    },
                }
            }
            i += 1;
        }
        let mut items: Vec<Item> = Vec::new();
        i = 0;
        while i < values.len()
            invariant
                i <= vs.len(),
                vs == strs_view(values@),
                vs.len() == lv.lexicons.len(),
                self@.fields == lv.fields,
                self@.uuids == lv.uuids,
                self@.trails == lv.trails,
                self@.lexicons.len() == lv.lexicons.len(),
                self.total_events as int == total_len(lv.trails),
                total_len(lv.trails) < u64::MAX,
                timestamp <= MAX_TIMESTAMP,
                wf_cons(lv),
                forall|k: int| i <= k < vs.len() ==> self@.lexicons[k] == lv.lexicons[k],
                forall|k: int|
                    0 <= k < i ==> self@.lexicons[k] == lex_after(lv.lexicons[k], vs[k]),
                items@.len() == i,
                forall|k: int|
                    0 <= k < i ==> items@[k] == Item(
                        spec_encode_item(
                            (k + 1) as u32,
                            spec_value_id(lv.lexicons[k], vs[k]) as u64,
                        ),
                    ),
                forall|k: int| 0 <= k < vs.len() ==> #[trigger] vs[k].len() <= MAX_VALUE_LEN,
                forall|k: int|
                    0 <= k < vs.len() ==> !((#[trigger] vs[k]).len() > 0 && spec_find(
                        lv.lexicons[k],
                        vs[k],
                    ) == lv.lexicons[k].len() && lv.lexicons[k].len() >= MAX_LEXICON_SIZE),
            decreases vs.len() - i,
        {
            proof {
                assert(valid_lexicon(lv.lexicons[i as int]));
                assert(strs_view(self.lexicons@[i as int]@) == lv.lexicons[i as int]);
                lemma_spec_find(lv.lexicons[i as int], vs[i as int]);
            }
            let vlen = values[i].as_str().unicode_len();
            if vlen == 0 {
                items.push(Item::encode((i + 1) as u32, 0));
            } else {
                match find_string(&self.lexicons[i], &values[i]) {
                    Option::Some(j) => {
                        items.push(Item::encode((i + 1) as u32, (j as u64) + 1));
                    },
                    Option::None => {
                        let cloned = values[i].clone();
                        let ghost lex_before = self.lexicons@;
                        let lx = &mut self.lexicons[i];
                        let newid = lx.len();
                        lx.push(cloned);
                        proof {
                            assert(self.lexicons@ =~= lex_before.update(
                                i as int,
                                self.lexicons@[i as int],
                            ));
                            assert(strs_view(self.lexicons@[i as int]@) =~= lex_after(
                                lv.lexicons[i as int],
                                vs[i as int],
                            ));
                            assert forall|k: int|
                                0 <= k < self@.lexicons.len() && k != i implies self@.lexicons[k]
                                == lexs_view(lex_before)[k] by {
                                assert(self.lexicons@[k] == lex_before[k]);
                            }
                            assert forall|k: int| 0 <= k < i implies self@.lexicons[k]
                                == lex_after(lv.lexicons[k], vs[k]) by {
                                assert(self@.lexicons[k] == lexs_view(lex_before)[k]);
                            }
                            assert forall|k: int| i < k < vs.len() implies self@.lexicons[k]
                                == lv.lexicons[k] by {
                                assert(self@.lexicons[k] == lexs_view(lex_before)[k]);
                            }
                        }
                        items.push(Item::encode((i + 1) as u32, (newid as u64) + 1));
                    },
                }
            }
            proof {
                assert(self@.lexicons[i as int] == lex_after(lv.lexicons[i as int], vs[i as int]));
                assert(items@[i as int] == Item(
                    spec_encode_item(
                        (i + 1) as u32,
                        spec_value_id(lv.lexicons[i as int], vs[i as int]) as u64,
                    ),
                ));
            }
            i += 1;
        }
        let ghost new_lexicons = self@.lexicons;
        let idx: usize;
        match find_uuid(&self.uuids, uuid) {
            Option::Some(t) => {
                idx = t;
            },
            Option::None => {
                self.uuids.push(*uuid);
                self.trails.push(Vec::new());
                idx = self.uuids.len() - 1;
            },
        }
        proof {
            lemma_spec_find(lv.uuids, uuid@);
            if spec_find(lv.uuids, uuid@) == lv.uuids.len() {
                assert(self@.uuids =~= lv.uuids.push(uuid@));
                assert(self@.trails =~~= lv.trails.push(Seq::<EventView>::empty()));
                lemma_total_len_push(lv.trails, Seq::<EventView>::empty());
            }
        }
        let ghost trails1 = self@.trails;
        let ev = Event { timestamp, items };
        let ghost evv = ev@;
        let tr = &mut self.trails[idx];
        let ghost trails_mid = trails1;
        tr.push(ev);
        self.total_events = self.total_events + 1;
        proof {
            let fresh = spec_find(lv.uuids, uuid@) == lv.uuids.len();
            let sidx = spec_find(lv.uuids, uuid@);
            assert(idx as int == sidx);
            assert(self.trails@.len() == trails1.len());
            assert(self@.trails =~= trails1.update(idx as int, trails1[idx as int].push(evv)))
                by {
                assert forall|k: int| 0 <= k < trails1.len() implies self@.trails[k] == trails1
                    .update(idx as int, trails1[idx as int].push(evv))[k] by {
                    if k == idx as int {
                        assert(events_view(self.trails@[k]@) =~= trails1[k].push(evv));
                    } else {
                        assert(events_view(self.trails@[k]@) == trails1[k]);
                    }
                }
            }
            assert(evv.items =~= spec_encoded_items(lv.lexicons, vs));
            assert(self@.lexicons =~= Seq::new(
                lv.lexicons.len(),
                |k: int| lex_after(lv.lexicons[k], vs[k]),
            ));
            assert(evv == (EventView { timestamp, items: spec_encoded_items(lv.lexicons, vs) }));
            assert(self@ == spec_add(lv, uuid@, timestamp, vs));
            lemma_total_len_update(trails1, idx as int, trails1[idx as int].push(evv));
            lemma_add_preserves_wf(lv, uuid@, timestamp, vs);
        }
        Result::Ok(())
    }

    /// Seal the builder into an immutable log: each trail's buffered events
    /// are sorted stably by timestamp, the schema, lexicons and trail index
    /// carry over unchanged, and the seal-time metadata is computed. In
    /// this in-memory representation sealing cannot fail.
    pub fn finalize(self) -> (r: Result<Db, Error>)
        requires
            self.wf(),
        ensures
            match r {
                Result::Ok(db) => db.wf() && db@.fields == self@.fields && db@.lexicons
                    == self@.lexicons && db@.uuids == self@.uuids && db@.trails.len()
                    == self@.trails.len() && (forall|t: int|
                    0 <= t < self@.trails.len() ==> db@.trails[t] == stable_sort(
                        #[trigger] self@.trails[t],
                    )) && total_len(db@.trails) == total_len(self@.trails),
                Result::Err(_) => false,
            },
    {
        let ghost lv = self@;
        let Constructor { fields, lexicons, uuids, trails, total_events: _ } = self;
        let mut sorted: Vec<Vec<Event>> = Vec::new();
        let mut t: usize = 0;
        while t < trails.len()
            invariant
                t <= trails@.len(),
                trails_view(trails@) == lv.trails,
                sorted@.len() == t,
                forall|k: int|
                    0 <= k < t ==> trails_view(sorted@)[k] == stable_sort(#[trigger] lv.trails[k]),
            decreases trails@.len() - t,
        {
            let s = sort_events(&trails[t]);
            proof {
                assert(events_view(trails@[t as int]@) == lv.trails[t as int]);
            }
            sorted.push(s);
            proof {
                assert(trails_view(sorted@)[t as int] == stable_sort(lv.trails[t as int]));
            }
            t += 1;
        }
        let ghost sv = trails_view(sorted@);
        proof {
            assert(wf_log(
                LogView {
                    fields: strs_view(fields@),
                    lexicons: lexs_view(lexicons@),
                    uuids: uuids_view(uuids@),
                    trails: sv,
                },
            )) by {
                assert(strs_view(fields@) == lv.fields);
                assert(lexs_view(lexicons@) == lv.lexicons);
                assert(uuids_view(uuids@) == lv.uuids);
                assert forall|k: int| 0 <= k < sv.len() implies wf_trail(
                    #[trigger] sv[k],
                    lv.lexicons,
                ) && sorted_by_ts(sv[k]) && sv[k].len() == lv.trails[k].len() by {
                    assert(wf_trail(lv.trails[k], lv.lexicons));
                    lemma_stable_sort_wf_trail(lv.trails[k], lv.lexicons);
                }
                lemma_total_len_pointwise(sv, lv.trails);
            }
        }
        let db = assemble_db(fields, lexicons, uuids, sorted);
        proof {
            assert forall|k: int| 0 <= k < sv.len() implies (#[trigger] sv[k]).len() == lv.trails[
                k
            ].len() by {
                assert(wf_trail(lv.trails[k], lv.lexicons));
                lemma_stable_sort_wf_trail(lv.trails[k], lv.lexicons);
            }
            lemma_total_len_pointwise(sv, lv.trails);
        }
        Result::Ok(db)
    }

    /// Duplicate the builder's entire state; the copy has the same model.
    /// The merge works on such a copy so that a failed merge leaves the
    /// builder untouched.
    fn duplicate(&self) -> (r: Constructor)
        ensures
            r@ == self@,
            self.wf() ==> r.wf(),
    {
        let fields = clone_string_vec(&self.fields);
        let mut lexicons: Vec<Vec<String>> = Vec::new();
        let mut i: usize = 0;
        while i < self.lexicons.len()
            invariant
                i <= self.lexicons@.len(),
                lexicons@.len() == i,
                forall|k: int| 0 <= k < i ==> (#[trigger] lexicons@[k])@ == self.lexicons@[k]@,
            decreases self.lexicons@.len() - i,
        {
            lexicons.push(clone_string_vec(&self.lexicons[i]));
            i += 1;
        }
        let mut uuids: Vec<Uuid> = Vec::new();
        i = 0;
        while i < self.uuids.len()
            invariant
                i <= self.uuids@.len(),
                uuids@ == self.uuids@.subrange(0, i as int),
            decreases self.uuids@.len() - i,
        {
            uuids.push(self.uuids[i]);
            proof {
                assert(uuids@ =~= self.uuids@.subrange(0, i + 1));
            }
            i += 1;
        }
        proof {
            assert(self.uuids@.subrange(0, self.uuids@.len() as int) =~= self.uuids@);
        }
        let mut trails: Vec<Vec<Event>> = Vec::new();
        i = 0;
        while i < self.trails.len()
            invariant
                i <= self.trails@.len(),
                trails@.len() == i,
                forall|k: int|
                    0 <= k < i ==> events_view((#[trigger] trails@[k])@) == events_view(
                        self.trails@[k]@,
                    ),
            decreases self.trails@.len() - i,
        {
            trails.push(copy_events(&self.trails[i]));
            i += 1;
        }
        let r = Constructor { fields, lexicons, uuids, trails, total_events: self.total_events };
        proof {
            assert(r@.lexicons =~= self@.lexicons);
            assert(r@.uuids =~= self@.uuids);
            assert(r@.trails =~= self@.trails);
            assert(r@ == self@);
        }
        r
    }

    /// Merge an already-sealed log's trails and events into this builder,
    /// in trail order, each trail's events in their stored order, each
    /// event's items decoded back to value strings through the log's
    /// lexicons. Fails with `AppendFieldsMismatch` when the two field
    /// schemas differ, with `Nomem` only when the merged event total would
    /// not fit a 64-bit count, and with `LexiconTooLarge` only when some
    /// field's merged lexicon would outgrow the id space; with matching
    /// schemas and neither limit hit, the merge is owed. Every failure
    /// leaves the builder unchanged.
    pub fn append(&mut self, db: &Db) -> (r: Result<(), Error>)
        requires
            old(self).wf(),
            db.wf(),
        ensures
            final(self).wf(),
            ({
                let lv = old(self)@;
                let dbv = db@;
                let mismatch = lv.fields != dbv.fields;
                match r {
                    Result::Ok(()) => !mismatch && !append_total_overflow(lv, dbv)
                        && !append_lexicon_overflow(lv, dbv) && final(self)@ == spec_append(
                        lv,
                        dbv,
                    ),
                    Result::Err(e) => final(self)@ == lv && (if mismatch {
                        e == Error::AppendFieldsMismatch
                    } else {
                        (e == Error::Nomem && append_total_overflow(lv, dbv)) || (e
                            == Error::LexiconTooLarge && append_lexicon_overflow(lv, dbv))
                    }),
                }
            }),
    {
        let ghost lv0 = old(self)@;
        let ghost dbv = db@;
        proof {
            lemma_db_repr(db);
        }
        if self.fields.len() != db.fields.len() {
            proof {
                assert(lv0.fields.len() != dbv.fields.len());
            }
            return Result::Err(Error::AppendFieldsMismatch);
        }
        let mut i: usize = 0;
        while i < self.fields.len()
            invariant
                i <= lv0.fields.len(),
                *self == *old(self),
                self.wf(),
                db.wf(),
                lv0 == self@,
                dbv == db@,
                lv0.fields.len() == dbv.fields.len(),
                forall|k: int| 0 <= k < i ==> lv0.fields[k] == dbv.fields[k],
            decreases lv0.fields.len() - i,
        {
            proof {
                lemma_db_repr(db);
            }
            if !self.fields[i].eq(&db.fields[i]) {
                proof {
                    assert(lv0.fields[i as int] != dbv.fields[i as int]);
                }
                return Result::Err(Error::AppendFieldsMismatch);
            }
            proof {
                assert(lv0.fields[i as int] == dbv.fields[i as int]);
            }
            i += 1;
        }
        proof {
            assert(lv0.fields =~= dbv.fields);
        }
        let mut scratch = self.duplicate();
        let mut t: usize = 0;
        while t < db.trails.len()
            invariant
                t <= dbv.trails.len(),
                lv0 == old(self)@,
                *self == *old(self),
                old(self).wf(),
                dbv == db@,
                db.wf(),
                db.trails@.len() == dbv.trails.len(),
                scratch.wf(),
                lv0.fields == dbv.fields,
                scratch@ == spec_append_upto(lv0, dbv, t as int),
                scratch@.fields == dbv.fields,
                total_len(scratch@.trails) == total_len(lv0.trails) + total_len(
                    dbv.trails.subrange(0, t as int),
                ),
            decreases dbv.trails.len() - t,
        {
            proof {
                lemma_db_repr(db);
            }
            let uuid = db.uuids[t];
            let ghost evs = dbv.trails[t as int];
            let ghost lv_t = scratch@;
            proof {
                assert(uuid@ == dbv.uuids[t as int]);
                assert(events_view(db.trails@[t as int]@) == evs);
                assert(wf_trail(evs, dbv.lexicons));
            }
            let mut e: usize = 0;
            while e < db.trails[t].len()
                invariant
                    e <= evs.len(),
                    lv0 == old(self)@,
                    *self == *old(self),
                    old(self).wf(),
                    dbv == db@,
                    db.wf(),
                    db.trails@.len() == dbv.trails.len(),
                    db.trails@[t as int]@.len() == evs.len(),
                    scratch.wf(),
                    0 <= t < dbv.trails.len(),
                    uuid@ == dbv.uuids[t as int],
                    evs == dbv.trails[t as int],
                    lv0.fields == dbv.fields,
                    scratch@ == spec_add_events(lv_t, uuid@, evs.subrange(0, e as int), dbv.lexicons),
                    scratch@.fields == dbv.fields,
                    lv_t == spec_append_upto(lv0, dbv, t as int),
                    total_len(scratch@.trails) == total_len(lv0.trails) + total_len(
                        dbv.trails.subrange(0, t as int),
                    ) + e,
                decreases evs.len() - e,
            {
                proof {
                    lemma_db_repr(db);
                    assert(events_view(db.trails@[t as int]@) == evs);
                    assert(wf_trail(evs, dbv.lexicons));
                    assert(wf_event(evs[e as int], dbv.lexicons));
                }
                let ev = &db.trails[t][e];
                let ghost evv = evs[e as int];
                let nf = db.lexicons.len();
                proof {
                    assert(ev@ == evv);
                    assert(evv.items.len() == dbv.lexicons.len());
                    assert(nf == dbv.lexicons.len());
                }
                let mut values: Vec<String> = Vec::new();
                let mut f: usize = 0;
                while f < ev.items.len()
                    invariant
                        f <= evv.items.len(),
                        dbv == db@,
                        db.wf(),
                        ev@ == evv,
                        wf_event(evv, dbv.lexicons),
                        evv.items.len() == dbv.lexicons.len(),
                        values@.len() == f,
                        forall|k: int|
                            0 <= k < f ==> (#[trigger] values@[k])@ == spec_decoded_values(
                                dbv.lexicons,
                                evv.items,
                            )[k],
                    decreases evv.items.len() - f,
                {
                    let v = ev.items[f].val();
                    proof {
                        lemma_db_repr(db);
                        assert(v == spec_item_val(evv.items[f as int].0));
                        assert(spec_item_val(evv.items[f as int].0) as int <= dbv.lexicons[
                            f as int
                        ].len());
                        assert(strs_view(db.lexicons@[f as int]@) == dbv.lexicons[f as int]);
                    }
                    if v == 0 {
                        values.push(String::new());
                    } else {
                        values.push(db.lexicons[f][(v - 1) as usize].clone());
                    }
                    proof {
                        assert(values@[f as int]@ == spec_decoded_values(
                            dbv.lexicons,
                            evv.items,
                        )[f as int]);
                    }
                    f += 1;
                }
                proof {
                    assert(strs_view(values@) =~= spec_decoded_values(dbv.lexicons, evv.items));
                    assert(valid_lexicons(dbv.lexicons, dbv.fields.len() as int));
                    assert forall|k: int| 0 <= k < strs_view(values@).len() implies (
                    #[trigger] strs_view(values@)[k]).len() <= MAX_VALUE_LEN by {
                        assert(valid_lexicon(dbv.lexicons[k]));
                        let vid = spec_item_val(evv.items[k].0) as int;
                        if vid != 0 {
                            assert(1 <= dbv.lexicons[k][vid - 1].len() <= MAX_VALUE_LEN);
                        }
                    }
                    assert(evv.timestamp <= MAX_TIMESTAMP);
                }
                let ghost lv_pre = scratch@;
                let ghost vs = spec_decoded_values(dbv.lexicons, evv.items);
                match scratch.add(&uuid, ev.timestamp, &values) {
                    Result::Ok(()) => {},
                    Result::Err(err) => {
                        proof {
                            lemma_append_failure_cause(
                                lv0, dbv, lv_t, lv_pre, uuid@, evs, t as int, e as int, err, vs,
                            );
                        }
                        return Result::Err(err);
                    },
                }
                proof {
                    assert(scratch@ == spec_add(lv_pre, uuid@, evv.timestamp, vs));
                    assert(evs.subrange(0, e + 1).drop_last() =~= evs.subrange(0, e as int));
                    assert(evs.subrange(0, e + 1).last() == evv);
                    assert(scratch@ == spec_add_events(
                        lv_t,
                        uuid@,
                        evs.subrange(0, e + 1),
                        dbv.lexicons,
                    ));
                    lemma_add_preserves_wf(lv_pre, uuid@, evv.timestamp, vs);
                }
                e += 1;
            }
            proof {
                assert(evs.subrange(0, evs.len() as int) =~= evs);
                assert(scratch@ == spec_append_upto(lv0, dbv, t + 1));
                lemma_total_len_step(dbv.trails, t as int);
            }
            t += 1;
        }
        proof {
            assert(dbv.trails.subrange(0, dbv.trails.len() as int) =~= dbv.trails);
            assert(scratch@ == spec_append(lv0, dbv));
            assert(!append_total_overflow(lv0, dbv)) by {
                assert(total_len(scratch@.trails) <= u64::MAX);
            }
            assert(!append_lexicon_overflow(lv0, dbv)) by {
                if append_lexicon_overflow(lv0, dbv) {
                    let k = choose|k: int|
                        0 <= k < lv0.lexicons.len() && (#[trigger] spec_append(
                            lv0,
                            dbv,
                        ).lexicons[k]).len() > MAX_LEXICON_SIZE;
                    assert(valid_lexicon(scratch@.lexicons[k]));
                }
            }
        }
        *self = scratch;
        Result::Ok(())
    }

    /// Discard all buffered state without sealing anything.
    pub fn close(&mut self)
        ensures
            final(self).wf(),
            final(self)@.fields.len() == 0,
            final(self)@.uuids.len() == 0,
            final(self)@.trails.len() == 0,
    {
        self.fields = Vec::new();
        self.lexicons = Vec::new();
        self.uuids = Vec::new();
        self.trails = Vec::new();
        self.total_events = 0;
    }
}

} // verus!
