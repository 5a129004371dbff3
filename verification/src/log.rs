//! The sealed, immutable store: schema, per-field lexicons, the trail index
//! and the trails themselves, with O(1) metadata fixed at seal time.

use vstd::prelude::*;
use vstd::string::StrSliceExecFns;
use vstd::string::StringExecFns;
use crate::errors::Error;
use crate::event::{Event, EventView, events_view};
use crate::item::{Item, spec_encode_item, spec_item_field, spec_item_val};
use crate::{Field, TrailId, Uuid, Value};
use crate::{DB_FORMAT_VERSION, MAX_FIELD_NAME_LEN, MAX_LEXICON_SIZE, MAX_NUM_FIELDS, MAX_TIMESTAMP,
    MAX_VALUE_LEN};
use crate::sort::sorted_by_ts;

verus! {

/// The model of a vector of strings.
pub open spec fn strs_view(v: Seq<String>) -> Seq<Seq<char>> {
    Seq::new(v.len(), |i: int| v[i]@)
}

/// The model of the per-field lexicons.
pub open spec fn lexs_view(v: Seq<Vec<String>>) -> Seq<Seq<Seq<char>>> {
    Seq::new(v.len(), |i: int| strs_view(v[i]@))
}

/// The model of the trail index: each uuid as its byte sequence.
pub open spec fn uuids_view(v: Seq<Uuid>) -> Seq<Seq<u8>> {
    Seq::new(v.len(), |i: int| v[i]@)
}

/// The model of the trails.
pub open spec fn trails_view(v: Seq<Vec<Event>>) -> Seq<Seq<EventView>> {
    Seq::new(v.len(), |i: int| events_view(v[i]@))
}

/// The index of the first occurrence of `x` in `s`, or `s.len()` if absent.
pub open spec fn spec_find<T>(s: Seq<T>, x: T) -> int
    decreases s.len(),
{
    if s.len() == 0 {
        0
    } else if s[0] == x {
        0
    } else {
        1 + spec_find(s.drop_first(), x)
    }
}

/// `spec_find` lands in bounds, misses everything before its result, and
/// hits exactly when the element is present.
pub proof fn lemma_spec_find<T>(s: Seq<T>, x: T)
    ensures
        0 <= spec_find(s, x) <= s.len(),
        forall|k: int| 0 <= k < spec_find(s, x) ==> s[k] != x,
        spec_find(s, x) < s.len() ==> s[spec_find(s, x)] == x,
        (spec_find(s, x) < s.len()) == s.contains(x),
    decreases s.len(),
{
    if s.len() != 0 && s[0] != x {
        lemma_spec_find(s.drop_first(), x);
        assert forall|k: int| 0 <= k < spec_find(s, x) implies s[k] != x by {
            if k > 0 {
                assert(s.drop_first()[k - 1] != x);
            }
        }
        if spec_find(s, x) == s.len() {
            if s.contains(x) {
                let w = choose|w: int| 0 <= w < s.len() && s[w] == x;
                assert(s[w] != x);
                assert(false);
            }
        } else {
            assert(s[spec_find(s, x)] == s.drop_first()[spec_find(s.drop_first(), x)]);
            assert(s.contains(x)) by {
                assert(s[spec_find(s, x)] == x);
            }
        }
    } else if s.len() != 0 {
        assert(s.contains(x)) by {
            assert(s[0] == x);
        }
    }
}

/// An accepted field name: non-empty and length-bounded.
pub open spec fn field_name_shape_ok(name: Seq<char>) -> bool {
    1 <= name.len() <= MAX_FIELD_NAME_LEN
}

/// Field names are pairwise distinct and none claims the reserved time
/// field's name.
pub open spec fn fields_distinct(fields: Seq<Seq<char>>) -> bool {
    &&& forall|i: int, j: int| 0 <= i < j < fields.len() ==> fields[i] != fields[j]
    &&& forall|i: int| 0 <= i < fields.len() ==> fields[i] != "time"@
}

/// A valid schema: few enough fields, every name well shaped, no clashes.
pub open spec fn valid_fields(fields: Seq<Seq<char>>) -> bool {
    &&& fields.len() <= MAX_NUM_FIELDS
    &&& forall|i: int| 0 <= i < fields.len() ==> field_name_shape_ok(#[trigger] fields[i])
    &&& fields_distinct(fields)
}

/// A valid lexicon: ids stay dense in [1, len] with len capped so they fit
/// the codec, values non-empty, length-bounded and pairwise distinct.
pub open spec fn valid_lexicon(lex: Seq<Seq<char>>) -> bool {
    &&& lex.len() <= MAX_LEXICON_SIZE
    &&& forall|i: int| 0 <= i < lex.len() ==> 1 <= #[trigger] lex[i].len() <= MAX_VALUE_LEN
    &&& forall|i: int, j: int| 0 <= i < j < lex.len() ==> lex[i] != lex[j]
}

/// One lexicon per data field, each valid.
pub open spec fn valid_lexicons(lexs: Seq<Seq<Seq<char>>>, nfields: int) -> bool {
    &&& lexs.len() == nfields
    &&& forall|i: int| 0 <= i < lexs.len() ==> valid_lexicon(#[trigger] lexs[i])
}

/// Uuids are pairwise distinct.
pub open spec fn valid_uuids(uuids: Seq<Seq<u8>>) -> bool {
    forall|i: int, j: int| 0 <= i < j < uuids.len() ==> uuids[i] != uuids[j]
}

/// A well-formed event: a bounded timestamp and one item per data field,
/// the item of slot `i` carrying field number `i + 1` and a value id within
/// that field's lexicon (0 meaning "no value").
pub open spec fn wf_event(e: EventView, lexs: Seq<Seq<Seq<char>>>) -> bool {
    &&& e.timestamp <= MAX_TIMESTAMP
    &&& e.items.len() == lexs.len()
    &&& forall|i: int| 0 <= i < lexs.len() ==> {
        &&& spec_item_field((#[trigger] e.items[i]).0) as int == i + 1
        &&& spec_item_val(e.items[i].0) as int <= lexs[i].len()
    }
}

/// Every event of the trail is well formed.
pub open spec fn wf_trail(t: Seq<EventView>, lexs: Seq<Seq<Seq<char>>>) -> bool {
    forall|i: int| 0 <= i < t.len() ==> wf_event(#[trigger] t[i], lexs)
}

/// Total number of events across all trails.
pub open spec fn total_len(ts: Seq<Seq<EventView>>) -> int
    decreases ts.len(),
{
    if ts.len() == 0 {
        0
    } else {
        total_len(ts.drop_last()) + ts.last().len()
    }
}

/// A prefix one longer adds exactly the next trail's length.
pub proof fn lemma_total_len_step(ts: Seq<Seq<EventView>>, t: int)
    requires
        0 <= t < ts.len(),
    ensures
        total_len(ts.subrange(0, t + 1)) == total_len(ts.subrange(0, t)) + ts[t].len(),
{
    let p = ts.subrange(0, t + 1);
    assert(p.drop_last() =~= ts.subrange(0, t));
    assert(p.last() == ts[t]);
}

/// The total is non-negative and no prefix exceeds it.
pub proof fn lemma_total_len_bounds(ts: Seq<Seq<EventView>>, t: int)
    requires
        0 <= t <= ts.len(),
    ensures
        0 <= total_len(ts.subrange(0, t)) <= total_len(ts),
    decreases ts.len() - t,
{
    if t == ts.len() {
        assert(ts.subrange(0, t) =~= ts);
        lemma_total_len_nonneg(ts);
    } else {
        lemma_total_len_step(ts, t);
        lemma_total_len_bounds(ts, t + 1);
        lemma_total_len_nonneg(ts.subrange(0, t));
    }
}

/// Appending a trail adds its length to the total.
pub proof fn lemma_total_len_push(ts: Seq<Seq<EventView>>, x: Seq<EventView>)
    ensures
        total_len(ts.push(x)) == total_len(ts) + x.len(),
{
    assert(ts.push(x).drop_last() =~= ts);
}

/// Replacing one trail shifts the total by the difference in lengths.
pub proof fn lemma_total_len_update(ts: Seq<Seq<EventView>>, i: int, x: Seq<EventView>)
    requires
        0 <= i < ts.len(),
    ensures
        total_len(ts.update(i, x)) == total_len(ts) - ts[i].len() + x.len(),
    decreases ts.len(),
{
    let r = ts.update(i, x);
    if i == ts.len() - 1 {
        assert(r.drop_last() =~= ts.drop_last());
        assert(r.last() == x);
    } else {
        assert(r.drop_last() =~= ts.drop_last().update(i, x));
        assert(r.last() == ts.last());
        lemma_total_len_update(ts.drop_last(), i, x);
    }
}

/// Two trail lists of pointwise-equal lengths have the same total.
pub proof fn lemma_total_len_pointwise(a: Seq<Seq<EventView>>, b: Seq<Seq<EventView>>)
    requires
        a.len() == b.len(),
        forall|k: int| 0 <= k < a.len() ==> (#[trigger] a[k]).len() == b[k].len(),
    ensures
        total_len(a) == total_len(b),
    decreases a.len(),
{
    if a.len() != 0 {
        lemma_total_len_pointwise(a.drop_last(), b.drop_last());
    }
}

/// The total is never negative.
pub proof fn lemma_total_len_nonneg(ts: Seq<Seq<EventView>>)
    ensures
        total_len(ts) >= 0,
    decreases ts.len(),
{
    if ts.len() != 0 {
        lemma_total_len_nonneg(ts.drop_last());
    }
}

/// Some event across the trails carries this timestamp.
pub open spec fn ts_present(trails: Seq<Seq<EventView>>, ts: u64) -> bool {
    exists|t: int, i: int|
        0 <= t < trails.len() && 0 <= i < trails[t].len() && (#[trigger] trails[t][i]).timestamp
            == ts
}

/// Every event's timestamp is at least `ts`.
pub open spec fn ts_lower_bound(trails: Seq<Seq<EventView>>, ts: u64) -> bool {
    forall|t: int, i: int|
        0 <= t < trails.len() && 0 <= i < trails[t].len() ==> (#[trigger] trails[t][i]).timestamp
            >= ts
}

/// Every event's timestamp is at most `ts`.
pub open spec fn ts_upper_bound(trails: Seq<Seq<EventView>>, ts: u64) -> bool {
    forall|t: int, i: int|
        0 <= t < trails.len() && 0 <= i < trails[t].len() ==> (#[trigger] trails[t][i]).timestamp
            <= ts
}

/// The model of a sealed log.
pub ghost struct LogView {
    pub fields: Seq<Seq<char>>,
    pub lexicons: Seq<Seq<Seq<char>>>,
    pub uuids: Seq<Seq<u8>>,
    pub trails: Seq<Seq<EventView>>,
}

/// Well-formedness of a sealed log: valid schema, lexicons, trail index;
/// every trail well formed and sorted by timestamp; the event total
/// representable.
pub open spec fn wf_log(lv: LogView) -> bool {
    &&& valid_fields(lv.fields)
    &&& valid_lexicons(lv.lexicons, lv.fields.len() as int)
    &&& valid_uuids(lv.uuids)
    &&& lv.uuids.len() == lv.trails.len()
    &&& forall|t: int| 0 <= t < lv.trails.len() ==> wf_trail(#[trigger] lv.trails[t], lv.lexicons)
    &&& forall|t: int| 0 <= t < lv.trails.len() ==> sorted_by_ts(#[trigger] lv.trails[t])
    &&& total_len(lv.trails) <= u64::MAX
}

/// The trail id a uuid maps to, if any.
pub open spec fn spec_trail_id(lv: LogView, u: Seq<u8>) -> Option<int> {
    if spec_find(lv.uuids, u) < lv.uuids.len() {
        Option::Some(spec_find(lv.uuids, u))
    } else {
        Option::None
    }
}

/// The uuid a trail id maps to, if in range.
pub open spec fn spec_uuid_of(lv: LogView, t: int) -> Option<Seq<u8>> {
    if 0 <= t < lv.uuids.len() {
        Option::Some(lv.uuids[t])
    } else {
        Option::None
    }
}

/// The string an item decodes to: the entry its value id selects in its
/// field's lexicon; nothing for the reserved id 0 or any out-of-range pair.
pub open spec fn spec_item_value(lv: LogView, key: u64) -> Option<Seq<char>> {
    let f = spec_item_field(key) as int;
    let v = spec_item_val(key) as int;
    if 1 <= f <= lv.lexicons.len() && 1 <= v <= lv.lexicons[f - 1].len() {
        Option::Some(lv.lexicons[f - 1][v - 1])
    } else {
        Option::None
    }
}

/// The reverse lexicon lookup: the item encoding (field, id of `value`), or
/// the id-0 item of the field for the empty value; nothing for an unknown
/// field or an unrecorded value.
pub open spec fn spec_get_item(lv: LogView, field: Field, value: Seq<char>) -> Option<Item> {
    if 1 <= field as int <= lv.lexicons.len() {
        if value.len() == 0 {
            Option::Some(Item(spec_encode_item(field, 0)))
        } else {
            let i = spec_find(lv.lexicons[field as int - 1], value);
            if i < lv.lexicons[field as int - 1].len() {
                Option::Some(Item(spec_encode_item(field, (i + 1) as Value)))
            } else {
                Option::None
            }
        }
    } else {
        Option::None
    }
}

/// The name of a field position: "time" for the reserved position 0, the
/// schema name for 1..=n, nothing beyond.
pub open spec fn spec_field_name(lv: LogView, field: Field) -> Option<Seq<char>> {
    if field == 0 {
        Option::Some("time"@)
    } else if field as int <= lv.fields.len() {
        Option::Some(lv.fields[field as int - 1])
    } else {
        Option::None
    }
}

/// The round trip of the trail index: looking up the uuid of the trail id a
/// recorded uuid maps to gives that uuid back (and conversely, the trail id
/// of any in-range trail's uuid is that trail).
pub proof fn lemma_uuid_round_trip(lv: LogView, u: Seq<u8>)
    requires
        wf_log(lv),
        spec_trail_id(lv, u) is Some,
    ensures
        spec_uuid_of(lv, spec_trail_id(lv, u)->Some_0) == Option::<Seq<u8>>::Some(u),
{
    lemma_spec_find(lv.uuids, u);
}

/// The converse direction: each in-range trail id's uuid maps back to that
/// id, because uuids are distinct.
pub proof fn lemma_trail_id_round_trip(lv: LogView, t: int)
    requires
        wf_log(lv),
        0 <= t < lv.uuids.len(),
    ensures
        spec_trail_id(lv, lv.uuids[t]) == Option::Some(t),
{
    let u = lv.uuids[t];
    lemma_spec_find(lv.uuids, u);
    assert(lv.uuids.contains(u)) by {
        assert(lv.uuids[t] == u);
    }
    let f = spec_find(lv.uuids, u);
    if f < t {
        assert(lv.uuids[f] == lv.uuids[t]);
        assert(false);
    }
    if f > t {
        assert(lv.uuids[t] != u);
        assert(false);
    }
}

/// A sealed, immutable event log.
pub struct Db {
    pub(crate) fields: Vec<String>,
    pub(crate) lexicons: Vec<Vec<String>>,
    pub(crate) uuids: Vec<Uuid>,
    pub(crate) trails: Vec<Vec<Event>>,
    pub(crate) num_events: u64,
    pub(crate) min_ts: u64,
    pub(crate) max_ts: u64,
}

impl View for Db {
    type V = LogView;

    closed spec fn view(&self) -> LogView {
        LogView {
            fields: strs_view(self.fields@),
            lexicons: lexs_view(self.lexicons@),
            uuids: uuids_view(self.uuids@),
            trails: trails_view(self.trails@),
        }
    }
}

impl Db {
    /// The cached seal-time metadata agrees with the trails.
    pub closed spec fn cache_ok(&self) -> bool {
        &&& self.num_events as int == total_len(self@.trails)
        &&& self.num_events == 0 ==> self.min_ts == 0 && self.max_ts == 0
        &&& self.num_events > 0 ==> ts_present(self@.trails, self.min_ts) && ts_present(
            self@.trails,
            self.max_ts,
        )
        &&& ts_lower_bound(self@.trails, self.min_ts)
        &&& self.num_events > 0 ==> ts_upper_bound(self@.trails, self.max_ts)
    }

    /// A well-formed sealed log.
    pub open spec fn wf(&self) -> bool {
        &&& wf_log(self@)
        &&& self.cache_ok()
    }
}

/// How a sealed log's model is built from its representation.
pub(crate) proof fn lemma_db_repr(db: &Db)
    ensures
        db@.fields == strs_view(db.fields@),
        db@.lexicons == lexs_view(db.lexicons@),
        db@.uuids == uuids_view(db.uuids@),
        db@.trails == trails_view(db.trails@),
{
}

/// Byte-for-byte uuid comparison.
pub(crate) fn uuid_eq(a: &Uuid, b: &Uuid) -> (r: bool)
    ensures
        r == (a@ == b@),
{
    let mut i: usize = 0;
    while i < 16
        invariant
            i <= 16,
            forall|k: int| 0 <= k < i ==> a@[k] == b@[k],
        decreases 16 - i,
    {
        if a[i] != b[i] {
            proof {
                assert(a@[i as int] != b@[i as int]);
            }
            return false;
        }
        i += 1;
    }
    proof {
        assert(a@ =~= b@);
    }
    true
}

/// Duplicate a vector of strings, element for element.
pub(crate) fn clone_string_vec(v: &Vec<String>) -> (r: Vec<String>)
    ensures
        r@ == v@,
{
    let mut r: Vec<String> = Vec::new();
    let mut i: usize = 0;
    while i < v.len()
        invariant
            i <= v@.len(),
            r@ == v@.subrange(0, i as int),
        decreases v@.len() - i,
    {
        r.push(v[i].clone());
        proof {
            assert(r@ =~= v@.subrange(0, i + 1));
        }
        i += 1;
    }
    proof {
        assert(v@.subrange(0, v@.len() as int) =~= v@);
    }
    r
}

/// Scan a uuid vector for `u`; the result agrees with `spec_find` over the
/// models.
pub(crate) fn find_uuid(uuids: &Vec<Uuid>, u: &Uuid) -> (r: Option<usize>)
    ensures
        ({
            let f = spec_find(uuids_view(uuids@), u@);
            match r {
                Option::Some(i) => i as int == f && f < uuids_view(uuids@).len(),
                Option::None => f == uuids_view(uuids@).len(),
            }
        }),
{
    let ghost uv = uuids_view(uuids@);
    proof {
        lemma_spec_find(uv, u@);
    }
    let mut i: usize = 0;
    while i < uuids.len()
        invariant
            i <= uv.len(),
            uv == uuids_view(uuids@),
            forall|k: int| 0 <= k < i ==> uv[k] != u@,
        decreases uv.len() - i,
    {
        if uuid_eq(&uuids[i], u) {
            proof {
                lemma_spec_find(uv, u@);
                let f = spec_find(uv, u@);
                assert(uv[i as int] == u@);
                if f < i {
                    assert(uv[f] != u@);
                    assert(uv[f] == u@);
                }
                if f > i {
                    assert(uv[i as int] != u@);
                }
            }
            return Option::Some(i);
        }
        i += 1;
    }
    proof {
        lemma_spec_find(uv, u@);
        if spec_find(uv, u@) < uv.len() {
            assert(uv[spec_find(uv, u@)] == u@);
        }
    }
    Option::None
}

/// Scan a string vector for `v`; the result agrees with `spec_find` over
/// the models.
pub(crate) fn find_string(strs: &Vec<String>, v: &String) -> (r: Option<usize>)
    ensures
        ({
            let f = spec_find(strs_view(strs@), v@);
            match r {
                Option::Some(i) => i as int == f && f < strs_view(strs@).len(),
                Option::None => f == strs_view(strs@).len(),
            }
        }),
{
    let ghost sv = strs_view(strs@);
    let mut i: usize = 0;
    while i < strs.len()
        invariant
            i <= sv.len(),
            sv == strs_view(strs@),
            forall|k: int| 0 <= k < i ==> sv[k] != v@,
        decreases sv.len() - i,
    {
        if strs[i].eq(v) {
            proof {
                lemma_spec_find(sv, v@);
                let f = spec_find(sv, v@);
                assert(sv[i as int] == v@);
                if f < i {
                    assert(sv[f] != v@);
                    assert(sv[f] == v@);
                }
                if f > i {
                    assert(sv[i as int] != v@);
                }
            }
            return Option::Some(i);
        }
        i += 1;
    }
    proof {
        lemma_spec_find(sv, v@);
        if spec_find(sv, v@) < sv.len() {
            assert(sv[spec_find(sv, v@)] == v@);
        }
    }
    Option::None
}

impl Db {
    /// How many trails the log holds: one per distinct uuid ever added.
    pub fn num_trails(&self) -> (r: u64)
        requires
            self.wf(),
        ensures
            r as int == self@.trails.len(),
            r as int == self@.uuids.len(),
    {
        self.trails.len() as u64
    }

    /// How many events the log holds in total, across all trails.
    pub fn num_events(&self) -> (r: u64)
        requires
            self.wf(),
        ensures
            r as int == total_len(self@.trails),
    {
        self.num_events
    }

    /// How many field positions the log has: the schema's fields plus the
    /// reserved time field.
    pub fn num_fields(&self) -> (r: u64)
        requires
            self.wf(),
        ensures
            r as int == self@.fields.len() + 1,
    {
        self.fields.len() as u64 + 1
    }

    /// The smallest timestamp over all events; 0 for an empty log.
    pub fn min_timestamp(&self) -> (r: u64)
        requires
            self.wf(),
        ensures
            ts_lower_bound(self@.trails, r),
            total_len(self@.trails) > 0 ==> ts_present(self@.trails, r),
            total_len(self@.trails) == 0 ==> r == 0,
    {
        self.min_ts
    }

    /// The largest timestamp over all events; 0 for an empty log.
    pub fn max_timestamp(&self) -> (r: u64)
        requires
            self.wf(),
        ensures
            total_len(self@.trails) > 0 ==> ts_upper_bound(self@.trails, r) && ts_present(
                self@.trails,
                r,
            ),
            total_len(self@.trails) == 0 ==> r == 0,
    {
        self.max_ts
    }

    /// The format version of the sealed representation.
    pub fn version(&self) -> (r: crate::Version)
        ensures
            r == DB_FORMAT_VERSION,
    {
        DB_FORMAT_VERSION
    }

    /// Residency hint; this in-memory representation has nothing to page in,
    /// so it has no effect.
    pub fn will_need(&self) {
    }

    /// Residency hint; this in-memory representation has nothing to page
    /// out, so it has no effect.
    pub fn dont_need(&self) {
    }

    /// Release the log's contents, leaving a well-formed empty log behind.
    pub fn close(&mut self)
        ensures
            final(self).wf(),
            final(self)@.fields.len() == 0,
            final(self)@.lexicons.len() == 0,
            final(self)@.uuids.len() == 0,
            final(self)@.trails.len() == 0,
    {
        self.fields = Vec::new();
        self.lexicons = Vec::new();
        self.uuids = Vec::new();
        self.trails = Vec::new();
        self.num_events = 0;
        self.min_ts = 0;
        self.max_ts = 0;
    }

    /// The trail id recorded for a uuid — a pure lookup, absence is not an
    /// error.
    pub fn get_trail_id(&self, uuid: &Uuid) -> (r: Option<TrailId>)
        requires
            self.wf(),
        ensures
            match r {
                Option::Some(t) => spec_trail_id(self@, uuid@) == Option::Some(t as int),
                Option::None => spec_trail_id(self@, uuid@) is None,
            },
    {
        match find_uuid(&self.uuids, uuid) {
            Option::Some(i) => Option::Some(i as u64),
            Option::None => Option::None,
        }
    }

    /// The uuid a trail id maps to; absent for an out-of-range id.
    pub fn get_uuid(&self, trail_id: TrailId) -> (r: Option<Uuid>)
        requires
            self.wf(),
        ensures
            match r {
                Option::Some(u) => spec_uuid_of(self@, trail_id as int) == Option::Some(u@),
                Option::None => spec_uuid_of(self@, trail_id as int) is None,
            },
    {
        if trail_id < self.uuids.len() as u64 {
            Option::Some(self.uuids[trail_id as usize])
        } else {
            Option::None
        }
    }

    /// Decode an item to the value string its id selects in its field's
    /// lexicon; absent for the reserved id 0 and for any out-of-range pair.
    pub fn get_item_value(&self, item: Item) -> (r: Option<String>)
        requires
            self.wf(),
        ensures
            match r {
                Option::Some(s) => spec_item_value(self@, item.0) == Option::Some(s@),
                Option::None => spec_item_value(self@, item.0) is None,
            },
    {
        let f = item.field();
        let v = item.val();
        if 1 <= f && (f as usize) <= self.lexicons.len() {
            let lex = &self.lexicons[(f - 1) as usize];
            if 1 <= v && v <= lex.len() as u64 {
                return Option::Some(lex[(v - 1) as usize].clone());
            }
        }
        Option::None
    }

    /// The reverse lexicon lookup: the item that encodes `value` for
    /// `field`, the id-0 item for an empty value, absent for an unknown
    /// field or an unrecorded value.
    pub fn get_item(&self, field: Field, value: &str) -> (r: Option<Item>)
        requires
            self.wf(),
        ensures
            r == spec_get_item(self@, field, value@),
    {
        if 1 <= field && (field as usize) <= self.lexicons.len() {
            let lex = &self.lexicons[(field - 1) as usize];
            if value.unicode_len() == 0 {
                return Option::Some(Item::encode(field, 0));
            }
            let owned = String::from_str(value);
            match find_string(lex, &owned) {
                Option::Some(i) => {
                    proof {
                        assert(valid_lexicon(self@.lexicons[field as int - 1]));
                    }
                    Option::Some(Item::encode(field, i as u64 + 1))
                },
                Option::None => Option::None,
            }
        } else {
            Option::None
        }
    }

    /// The name of a field position: "time" for position 0, the schema's
    /// name for 1..=n, absent beyond.
    pub fn get_field_name(&self, field: Field) -> (r: Option<String>)
        requires
            self.wf(),
        ensures
            match r {
                Option::Some(s) => spec_field_name(self@, field) == Option::Some(s@),
                Option::None => spec_field_name(self@, field) is None,
            },
    {
        if field == 0 {
            Option::Some(String::from_str("time"))
        } else if (field as usize) <= self.fields.len() {
            Option::Some(self.fields[(field - 1) as usize].clone())
        } else {
            Option::None
        }
    }

    /// The size of a field's id space: distinct values plus the reserved
    /// id 0; 0 for the time field and for out-of-range positions.
    pub fn lexicon_size(&self, field: Field) -> (r: u64)
        requires
            self.wf(),
        ensures
            1 <= field as int <= self@.lexicons.len() ==> r as int == self@.lexicons[field as int
                - 1].len() + 1,
            !(1 <= field as int <= self@.lexicons.len()) ==> r == 0,
    {
        if 1 <= field && (field as usize) <= self.lexicons.len() {
            proof {
                assert(valid_lexicon(self@.lexicons[field as int - 1]));
            }
            self.lexicons[(field - 1) as usize].len() as u64 + 1
        } else {
            0
        }
    }

    /// All distinct values recorded for a field, in ascending value-id
    /// order (the reserved id 0 excluded); empty for an invalid field.
    pub fn lexicon(&self, field: Field) -> (r: Vec<String>)
        requires
            self.wf(),
        ensures
            1 <= field as int <= self@.lexicons.len() ==> strs_view(r@) == self@.lexicons[field
                as int - 1],
            !(1 <= field as int <= self@.lexicons.len()) ==> r@.len() == 0,
    {
        if 1 <= field && (field as usize) <= self.lexicons.len() {
            let r = clone_string_vec(&self.lexicons[(field - 1) as usize]);
            proof {
                assert(strs_view(r@) =~= self@.lexicons[field as int - 1]);
            }
            r
        } else {
            Vec::new()
        }
    }

    /// The full name-to-position mapping of the schema's data fields, in
    /// position order.
    pub fn fields(&self) -> (r: Vec<(String, Field)>)
        requires
            self.wf(),
        ensures
            r@.len() == self@.fields.len(),
            forall|i: int|
                0 <= i < r@.len() ==> (#[trigger] r@[i]).0@ == self@.fields[i] && r@[i].1 as int
                    == i + 1,
    {
        let mut r: Vec<(String, Field)> = Vec::new();
        let mut i: usize = 0;
        while i < self.fields.len()
            invariant
                self.wf(),
                i <= self@.fields.len(),
                r@.len() == i,
                forall|k: int|
                    0 <= k < i ==> (#[trigger] r@[k]).0@ == self@.fields[k] && r@[k].1 as int == k
                        + 1,
            decreases self@.fields.len() - i,
        {
            r.push((self.fields[i].clone(), (i + 1) as u32));
            i += 1;
        }
        r
    }
}

/// Build a sealed log from well-formed components, computing the seal-time
/// metadata (event total, timestamp bounds).
pub(crate) fn assemble_db(
    fields: Vec<String>,
    lexicons: Vec<Vec<String>>,
    uuids: Vec<Uuid>,
    trails: Vec<Vec<Event>>,
) -> (r: Db)
    requires
        wf_log(
            LogView {
                fields: strs_view(fields@),
                lexicons: lexs_view(lexicons@),
                uuids: uuids_view(uuids@),
                trails: trails_view(trails@),
            },
        ),
    ensures
        r.wf(),
        r@ == (LogView {
            fields: strs_view(fields@),
            lexicons: lexs_view(lexicons@),
            uuids: uuids_view(uuids@),
            trails: trails_view(trails@),
        }),
{
    let ghost tv = trails_view(trails@);
    let mut total: u64 = 0;
    let mut t: usize = 0;
    while t < trails.len()
        invariant
            t <= tv.len(),
            tv == trails_view(trails@),
            total_len(tv) <= u64::MAX,
            total as int == total_len(tv.subrange(0, t as int)),
        decreases tv.len() - t,
    {
        proof {
            lemma_total_len_step(tv, t as int);
            lemma_total_len_bounds(tv, t + 1);
            assert(tv[t as int].len() == trails@[t as int]@.len());
        }
        total = total + trails[t].len() as u64;
        t += 1;
    }
    proof {
        assert(tv.subrange(0, tv.len() as int) =~= tv);
    }
    let mut found = false;
    let mut min_ts: u64 = 0;
    let mut max_ts: u64 = 0;
    t = 0;
    while t < trails.len()
        invariant
            t <= tv.len(),
            tv == trails_view(trails@),
            forall|k: int| 0 <= k < tv.len() ==> sorted_by_ts(#[trigger] tv[k]),
            found == (total_len(tv.subrange(0, t as int)) > 0),
            !found ==> min_ts == 0 && max_ts == 0,
            found ==> ts_present(tv.subrange(0, t as int), min_ts),
            found ==> ts_present(tv.subrange(0, t as int), max_ts),
            ts_lower_bound(tv.subrange(0, t as int), min_ts),
            found ==> ts_upper_bound(tv.subrange(0, t as int), max_ts),
        decreases tv.len() - t,
    {
        let ghost pre = tv.subrange(0, t as int);
        let ghost pre1 = tv.subrange(0, t + 1);
        proof {
            lemma_total_len_step(tv, t as int);
            lemma_total_len_nonneg(pre);
            assert(pre1.drop_last() =~= pre);
            assert(tv[t as int].len() == trails@[t as int]@.len());
        }
        let tr = &trails[t];
        if tr.len() > 0 {
            let lo = tr[0].timestamp;
            let hi = tr[tr.len() - 1].timestamp;
            proof {
                assert(tv[t as int][0] == tr@[0]@);
                assert(tv[t as int][tv[t as int].len() - 1] == tr@[tr@.len() - 1]@);
            }
            let new_min: u64 = if !found || lo < min_ts { lo } else { min_ts };
            let new_max: u64 = if !found || hi > max_ts { hi } else { max_ts };
            proof {
                let old_min = min_ts;
                let old_max = max_ts;
                let trv = tv[t as int];
                // every event of this trail lies between its first and last
                assert forall|i: int| 0 <= i < trv.len() implies trv[0].timestamp <= (
                #[trigger] trv[i]).timestamp <= trv[trv.len() - 1].timestamp by {
                    assert(sorted_by_ts(trv));
                }
                assert forall|a: int, i: int|
                    0 <= a < pre1.len() && 0 <= i < pre1[a].len() implies (
                #[trigger] pre1[a][i]).timestamp >= new_min by {
                    if a < pre.len() {
                        if found {
                            assert(pre[a][i].timestamp >= old_min);
                        } else {
                            assert(total_len(pre) > 0) by {
                                lemma_total_len_bounds(pre, a);
                                lemma_total_len_step(pre, a);
                                lemma_total_len_bounds(pre, a + 1);
                            }
                        }
                    } else {
                        assert(pre1[a] == trv);
                    }
                }
                assert forall|a: int, i: int|
                    0 <= a < pre1.len() && 0 <= i < pre1[a].len() implies (
                #[trigger] pre1[a][i]).timestamp <= new_max by {
                    if a < pre.len() {
                        if found {
                            assert(pre[a][i].timestamp <= old_max);
                        } else {
                            assert(total_len(pre) > 0) by {
                                lemma_total_len_bounds(pre, a);
                                lemma_total_len_step(pre, a);
                                lemma_total_len_bounds(pre, a + 1);
                            }
                        }
                    } else {
                        assert(pre1[a] == trv);
                    }
                }
                assert(ts_present(pre1, new_min)) by {
                    if new_min == lo {
                        assert(pre1[t as int][0].timestamp == new_min);
                    } else {
                        let (a, i) = choose|a: int, i: int|
                            0 <= a < pre.len() && 0 <= i < pre[a].len() && (
                            #[trigger] pre[a][i]).timestamp == old_min;
                        assert(pre1[a][i].timestamp == new_min);
                    }
                }
                assert(ts_present(pre1, new_max)) by {
                    if new_max == hi {
                        assert(pre1[t as int][trv.len() - 1].timestamp == new_max);
                    } else {
                        let (a, i) = choose|a: int, i: int|
                            0 <= a < pre.len() && 0 <= i < pre[a].len() && (
                            #[trigger] pre[a][i]).timestamp == old_max;
                        assert(pre1[a][i].timestamp == new_max);
                    }
                }
            }
            found = true;
            min_ts = new_min;
            max_ts = new_max;
        } else {
            proof {
                assert forall|a: int, i: int|
                    0 <= a < pre1.len() && 0 <= i < pre1[a].len() implies (
                #[trigger] pre1[a][i]).timestamp >= min_ts by {
                    assert(pre[a][i].timestamp >= min_ts);
                }
                if found {
                    assert forall|a: int, i: int|
                        0 <= a < pre1.len() && 0 <= i < pre1[a].len() implies (
                    #[trigger] pre1[a][i]).timestamp <= max_ts by {
                        assert(pre[a][i].timestamp <= max_ts);
                    }
                    assert(ts_present(pre1, min_ts)) by {
                        let (a, i) = choose|a: int, i: int|
                            0 <= a < pre.len() && 0 <= i < pre[a].len() && (
                            #[trigger] pre[a][i]).timestamp == min_ts;
                        assert(pre1[a][i].timestamp == min_ts);
                    }
                    assert(ts_present(pre1, max_ts)) by {
                        let (a, i) = choose|a: int, i: int|
                            0 <= a < pre.len() && 0 <= i < pre[a].len() && (
                            #[trigger] pre[a][i]).timestamp == max_ts;
                        assert(pre1[a][i].timestamp == max_ts);
                    }
                }
            }
        }
        t += 1;
    }
    proof {
        assert(tv.subrange(0, tv.len() as int) =~= tv);
    }
    let db = Db { fields, lexicons, uuids, trails, num_events: total, min_ts, max_ts };
    db
}

/// Every trail of the model is well formed and sorted.
pub open spec fn trails_ok(lv: LogView) -> bool {
    &&& forall|t: int| 0 <= t < lv.trails.len() ==> wf_trail(#[trigger] lv.trails[t], lv.lexicons)
    &&& forall|t: int| 0 <= t < lv.trails.len() ==> sorted_by_ts(#[trigger] lv.trails[t])
}

/// Which outcome `Db::open` owes a given set of components: the first
/// structural fault found, in fields/lexicons/uuids/trails order, or
/// success when all four parts are valid.
pub open spec fn spec_open_result(lv: LogView) -> Result<(), Error> {
    if !valid_fields(lv.fields) {
        Result::Err(Error::InvalidFieldsFile)
    } else if !valid_lexicons(lv.lexicons, lv.fields.len() as int) {
        Result::Err(Error::InvalidLexiconFile)
    } else if !(valid_uuids(lv.uuids) && lv.uuids.len() == lv.trails.len()) {
        Result::Err(Error::InvalidUuidsFile)
    } else if !(trails_ok(lv) && total_len(lv.trails) <= u64::MAX) {
        Result::Err(Error::InvalidTrailsFile)
    } else {
        Result::Ok(())
    }
}

/// Whether a schema is valid.
fn check_fields(fields: &Vec<String>) -> (r: bool)
    ensures
        r == valid_fields(strs_view(fields@)),
{
    let ghost fv = strs_view(fields@);
    if fields.len() > MAX_NUM_FIELDS {
        return false;
    }
    let time_name = String::from_str("time");
    let mut i: usize = 0;
    while i < fields.len()
        invariant
            i <= fv.len(),
            fv == strs_view(fields@),
            time_name@ == "time"@,
            forall|k: int| 0 <= k < i ==> field_name_shape_ok(#[trigger] fv[k]),
            forall|k: int| 0 <= k < i ==> fv[k] != "time"@,
            forall|a: int, b: int| 0 <= a < b < i ==> fv[a] != fv[b],
        decreases fv.len() - i,
    {
        let n = fields[i].as_str().unicode_len();
        if n == 0 || n > MAX_FIELD_NAME_LEN {
            proof {
                assert(!field_name_shape_ok(fv[i as int]));
            }
            return false;
        }
        if fields[i].eq(&time_name) {
            proof {
                assert(fv[i as int] == "time"@);
            }
            return false;
        }
        let mut j: usize = 0;
        while j < i
            invariant
                j <= i < fv.len(),
                fv == strs_view(fields@),
                forall|k: int| 0 <= k < j ==> fv[k] != fv[i as int],
            decreases i - j,
        {
            if fields[j].eq(&fields[i]) {
                proof {
                    assert(fv[j as int] == fv[i as int]);
                }
                return false;
            }
            j += 1;
        }
        i += 1;
    }
    true
}

/// Whether one field's lexicon is valid.
fn check_lexicon(lex: &Vec<String>) -> (r: bool)
    ensures
        r == valid_lexicon(strs_view(lex@)),
{
    let ghost lxv = strs_view(lex@);
    if lex.len() > MAX_LEXICON_SIZE {
        return false;
    }
    let mut i: usize = 0;
    while i < lex.len()
        invariant
            i <= lxv.len(),
            lxv == strs_view(lex@),
            forall|k: int| 0 <= k < i ==> 1 <= #[trigger] lxv[k].len() <= MAX_VALUE_LEN,
            forall|a: int, b: int| 0 <= a < b < i ==> lxv[a] != lxv[b],
        decreases lxv.len() - i,
    {
        let n = lex[i].as_str().unicode_len();
        if n == 0 || n > MAX_VALUE_LEN {
            proof {
                assert(!(1 <= lxv[i as int].len() <= MAX_VALUE_LEN));
            }
            return false;
        }
        let mut j: usize = 0;
        while j < i
            invariant
                j <= i < lxv.len(),
                lxv == strs_view(lex@),
                forall|k: int| 0 <= k < j ==> lxv[k] != lxv[i as int],
            decreases i - j,
        {
            if lex[j].eq(&lex[i]) {
                proof {
                    assert(lxv[j as int] == lxv[i as int]);
                }
                return false;
            }
            j += 1;
        }
        i += 1;
    }
    true
}

/// Whether the per-field lexicons are valid for a schema of `nfields`.
fn check_lexicons(lexicons: &Vec<Vec<String>>, nfields: usize) -> (r: bool)
    ensures
        r == valid_lexicons(lexs_view(lexicons@), nfields as int),
{
    let ghost lv = lexs_view(lexicons@);
    if lexicons.len() != nfields {
        return false;
    }
    let mut i: usize = 0;
    while i < lexicons.len()
        invariant
            i <= lv.len(),
            lv == lexs_view(lexicons@),
            lv.len() == nfields,
            forall|k: int| 0 <= k < i ==> valid_lexicon(#[trigger] lv[k]),
        decreases lv.len() - i,
    {
        if !check_lexicon(&lexicons[i]) {
            proof {
                assert(!valid_lexicon(lv[i as int]));
            }
            return false;
        }
        i += 1;
    }
    true
}

/// Whether the trail index is valid: uuids distinct, one trail each.
fn check_uuids(uuids: &Vec<Uuid>, ntrails: usize) -> (r: bool)
    ensures
        r == (valid_uuids(uuids_view(uuids@)) && uuids@.len() == ntrails),
{
    let ghost uv = uuids_view(uuids@);
    if uuids.len() != ntrails {
        return false;
    }
    let mut i: usize = 0;
    while i < uuids.len()
        invariant
            i <= uv.len(),
            uv == uuids_view(uuids@),
            forall|a: int, b: int| 0 <= a < b < i ==> uv[a] != uv[b],
        decreases uv.len() - i,
    {
        let mut j: usize = 0;
        while j < i
            invariant
                j <= i < uv.len(),
                uv == uuids_view(uuids@),
                forall|k: int| 0 <= k < j ==> uv[k] != uv[i as int],
            decreases i - j,
        {
            if uuid_eq(&uuids[j], &uuids[i]) {
                proof {
                    assert(uv[j as int] == uv[i as int]);
                }
                return false;
            }
            j += 1;
        }
        i += 1;
    }
    true
}

/// Adjacent order implies full sortedness.
proof fn lemma_adjacent_sorted(s: Seq<EventView>, i: int, j: int)
    requires
        forall|k: int| 0 <= k < s.len() - 1 ==> (#[trigger] s[k]).timestamp <= s[k + 1].timestamp,
        0 <= i <= j < s.len(),
    ensures
        s[i].timestamp <= s[j].timestamp,
    decreases j - i,
{
    if i < j {
        lemma_adjacent_sorted(s, i, j - 1);
        assert(s[j - 1].timestamp <= s[j].timestamp);
    }
}

/// Whether one trail is well formed against the lexicons and sorted.
fn check_trail(trail: &Vec<Event>, lexicons: &Vec<Vec<String>>) -> (r: bool)
    ensures
        r == (wf_trail(events_view(trail@), lexs_view(lexicons@)) && sorted_by_ts(
            events_view(trail@),
        )),
{
    let ghost tv = events_view(trail@);
    let ghost lxv = lexs_view(lexicons@);
    let mut i: usize = 0;
    while i < trail.len()
        invariant
            i <= tv.len(),
            tv == events_view(trail@),
            lxv == lexs_view(lexicons@),
            forall|k: int| 0 <= k < i ==> wf_event(#[trigger] tv[k], lxv),
            forall|k: int| 0 <= k < i - 1 ==> (#[trigger] tv[k]).timestamp <= tv[k + 1].timestamp,
        decreases tv.len() - i,
    {
        let e = &trail[i];
        if e.timestamp > MAX_TIMESTAMP {
            proof {
                assert(!wf_event(tv[i as int], lxv));
            }
            return false;
        }
        if e.items.len() != lexicons.len() {
            proof {
                assert(!wf_event(tv[i as int], lxv));
            }
            return false;
        }
        if i > 0 && trail[i - 1].timestamp > e.timestamp {
            proof {
                assert(tv[i as int - 1].timestamp > tv[i as int].timestamp);
            }
            return false;
        }
        let mut f: usize = 0;
        while f < e.items.len()
            invariant
                f <= e.items@.len(),
                e.items@.len() == lxv.len(),
                e@ == tv[i as int],
                0 <= i < tv.len(),
                tv == events_view(trail@),
                lxv == lexs_view(lexicons@),
                lexicons@.len() == lxv.len(),
                forall|k: int|
                    0 <= k < f ==> spec_item_field((#[trigger] e.items@[k]).0) as int == k + 1
                        && spec_item_val(e.items@[k].0) as int <= lxv[k].len(),
            decreases e.items@.len() - f,
        {
            let it = e.items[f];
            if it.field() as usize != f + 1 {
                proof {
                    assert(spec_item_field(tv[i as int].items[f as int].0) as int != f + 1);
                    assert(!wf_event(tv[i as int], lxv));
                }
                return false;
            }
            if it.val() > lexicons[f].len() as u64 {
                proof {
                    assert(lxv[f as int].len() == lexicons@[f as int]@.len());
                    assert(spec_item_val(tv[i as int].items[f as int].0) as int > lxv[
                        f as int
                    ].len());
                    assert(!wf_event(tv[i as int], lxv));
                }
                return false;
            }
            proof {
                assert(lxv[f as int].len() == lexicons@[f as int]@.len());
            }
            f += 1;
        }
        proof {
            assert(wf_event(tv[i as int], lxv));
        }
        i += 1;
    }
    proof {
        assert forall|a: int, b: int| 0 <= a <= b < tv.len() implies (
        #[trigger] tv[a]).timestamp <= (#[trigger] tv[b]).timestamp by {
            lemma_adjacent_sorted(tv, a, b);
        }
    }
    true
}

/// Whether every trail is well formed and sorted, and the event total
/// representable.
fn check_trails(trails: &Vec<Vec<Event>>, lexicons: &Vec<Vec<String>>) -> (r: bool)
    ensures
        ({
            let tv = trails_view(trails@);
            let lxv = lexs_view(lexicons@);
            r == ((forall|t: int| 0 <= t < tv.len() ==> wf_trail(#[trigger] tv[t], lxv)) && (
            forall|t: int| 0 <= t < tv.len() ==> sorted_by_ts(#[trigger] tv[t])) && total_len(tv)
                <= u64::MAX)
        }),
{
    let ghost tv = trails_view(trails@);
    let mut total: u64 = 0;
    let mut t: usize = 0;
    while t < trails.len()
        invariant
            t <= tv.len(),
            tv == trails_view(trails@),
            total as int == total_len(tv.subrange(0, t as int)),
            forall|k: int| 0 <= k < t ==> wf_trail(#[trigger] tv[k], lexs_view(lexicons@)),
            forall|k: int| 0 <= k < t ==> sorted_by_ts(#[trigger] tv[k]),
        decreases tv.len() - t,
    {
        if !check_trail(&trails[t], lexicons) {
            proof {
                assert(tv[t as int] == events_view(trails@[t as int]@));
            }
            return false;
        }
        proof {
            lemma_total_len_step(tv, t as int);
            assert(tv[t as int] == events_view(trails@[t as int]@));
            assert(tv[t as int].len() == trails@[t as int]@.len());
        }
        let n = trails[t].len() as u64;
        if n > u64::MAX - total {
            proof {
                lemma_total_len_bounds(tv, t + 1);
                assert(total_len(tv.subrange(0, t + 1)) > u64::MAX);
            }
            return false;
        }
        total = total + n;
        t += 1;
    }
    proof {
        assert(tv.subrange(0, tv.len() as int) =~= tv);
    }
    true
}

impl Db {
    /// Construct a sealed log from its persisted components, validating
    /// their structure: the schema, the per-field lexicons, the trail index
    /// and the trails themselves, in that order; the first structural fault
    /// names the part it was found in. On success the log holds exactly the
    /// given components, with its seal-time metadata recomputed.
    pub fn open(
        fields: Vec<String>,
        lexicons: Vec<Vec<String>>,
        uuids: Vec<Uuid>,
        trails: Vec<Vec<Event>>,
    ) -> (r: Result<Db, Error>)
        ensures
            ({
                let lv = LogView {
                    fields: strs_view(fields@),
                    lexicons: lexs_view(lexicons@),
                    uuids: uuids_view(uuids@),
                    trails: trails_view(trails@),
                };
                match r {
                    Result::Ok(db) => spec_open_result(lv) == Result::<(), Error>::Ok(()) && db@
                        == lv && db.wf(),
                    Result::Err(e) => spec_open_result(lv) == Result::<(), Error>::Err(e),
                }
            }),
    {
        if !check_fields(&fields) {
            return Result::Err(Error::InvalidFieldsFile);
        }
        if !check_lexicons(&lexicons, fields.len()) {
            return Result::Err(Error::InvalidLexiconFile);
        }
        if !check_uuids(&uuids, trails.len()) {
            return Result::Err(Error::InvalidUuidsFile);
        }
        if !check_trails(&trails, &lexicons) {
            return Result::Err(Error::InvalidTrailsFile);
        }
        Result::Ok(assemble_db(fields, lexicons, uuids, trails))
    }
}

} // verus!
