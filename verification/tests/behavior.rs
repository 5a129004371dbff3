use traildb::{Constructor, Db, Error, Event, EventFilter, Item, MultiCursor, Uuid};

fn s(x: &str) -> String {
    x.to_string()
}

fn values(vals: &[&str]) -> Vec<String> {
    vals.iter().map(|v| s(v)).collect()
}

fn one_field_db(events: &[(u64, &str)]) -> Db {
    let mut cons = Constructor::new(vec![s("field1")]).unwrap();
    let uuid: Uuid = [9; 16];
    for (ts, v) in events {
        cons.add(&uuid, *ts, &values(&[v])).unwrap();
    }
    cons.finalize().unwrap()
}

#[test]
fn schema_validation() {
    assert_eq!(
        Constructor::new(vec![s("a"), s("a")]).err(),
        Some(Error::DuplicateFields)
    );
    assert_eq!(
        Constructor::new(vec![s("time")]).err(),
        Some(Error::DuplicateFields)
    );
    assert_eq!(
        Constructor::new(vec![s("")]).err(),
        Some(Error::InvalidFieldname)
    );
    let long = "x".repeat(513);
    assert_eq!(
        Constructor::new(vec![long]).err(),
        Some(Error::InvalidFieldname)
    );
    let many: Vec<String> = (0..16383).map(|i| format!("f{}", i)).collect();
    assert_eq!(Constructor::new(many).err(), Some(Error::TooManyFields));
    assert!(Constructor::new(vec![s("x".repeat(512).as_str())]).is_ok());
}

#[test]
fn add_validation() {
    let mut cons = Constructor::new(vec![s("field1"), s("field2")]).unwrap();
    let uuid: Uuid = [0; 16];
    assert_eq!(
        cons.add(&uuid, 0, &values(&["only-one"])).err(),
        Some(Error::UnknownField)
    );
    assert_eq!(
        cons.add(&uuid, u64::MAX, &values(&["a", "b"])).err(),
        Some(Error::TimestampTooLarge)
    );
    let too_long = "v".repeat(4194305);
    assert_eq!(
        cons.add(&uuid, 0, &vec![too_long, s("b")]).err(),
        Some(Error::ValueTooLong)
    );
    // a failed add leaves nothing behind
    let db = cons.finalize().unwrap();
    assert_eq!(db.num_events(), 0);
    assert_eq!(db.num_trails(), 0);
    assert_eq!(db.min_timestamp(), 0);
    assert_eq!(db.max_timestamp(), 0);
}

#[test]
fn sort_is_stable_by_timestamp() {
    // events added out of timestamp order come back sorted; ties keep
    // their insertion order
    let db = one_field_db(&[(5, "x"), (3, "y"), (5, "z"), (1, "w")]);
    let mut cursor = db.cursor();
    cursor.get_trail(&db, 0).unwrap();
    let mut seen: Vec<(u64, String)> = Vec::new();
    while let Some(e) = cursor.next() {
        let v = db.get_item_value(e.items[0]).unwrap();
        seen.push((e.timestamp, v));
    }
    assert_eq!(
        seen,
        vec![
            (1, s("w")),
            (3, s("y")),
            (5, s("x")),
            (5, s("z")),
        ]
    );
    assert_eq!(db.min_timestamp(), 1);
    assert_eq!(db.max_timestamp(), 5);
}

#[test]
fn lexicon_and_items() {
    let db = one_field_db(&[(0, "b"), (1, "a"), (2, "b"), (3, "c")]);
    // first-seen order assigns dense ids from 1
    assert_eq!(db.lexicon(1), vec![s("b"), s("a"), s("c")]);
    assert_eq!(db.lexicon_size(1), 4);
    assert_eq!(db.lexicon_size(0), 0);
    assert_eq!(db.lexicon_size(2), 0);
    assert_eq!(db.lexicon(2), Vec::<String>::new());

    let item_b = db.get_item(1, "b").unwrap();
    assert_eq!(item_b.field(), 1);
    assert_eq!(item_b.val(), 1);
    assert_eq!(db.get_item_value(item_b).unwrap(), s("b"));
    let item_c = db.get_item(1, "c").unwrap();
    assert_eq!(item_c.val(), 3);

    // an unrecorded value has no item; the empty value maps to id 0,
    // which decodes to no value
    assert_eq!(db.get_item(1, "missing"), None);
    assert_eq!(db.get_item(2, "b"), None);
    assert_eq!(db.get_item(0, "b"), None);
    let absent = db.get_item(1, "").unwrap();
    assert_eq!(absent.val(), 0);
    assert_eq!(db.get_item_value(absent), None);
    assert_eq!(db.get_item_value(Item::encode(1, 7)), None);
    assert_eq!(db.get_item_value(Item::encode(9, 1)), None);

    assert_eq!(db.get_field_name(0).unwrap(), s("time"));
    assert_eq!(db.get_field_name(1).unwrap(), s("field1"));
    assert_eq!(db.get_field_name(2), None);
    assert_eq!(db.version(), 1);
}

#[test]
fn trail_index_lookups() {
    let mut cons = Constructor::new(vec![s("field1")]).unwrap();
    let u1: Uuid = [1; 16];
    let u2: Uuid = [2; 16];
    cons.add(&u1, 1, &values(&["a"])).unwrap();
    cons.add(&u2, 2, &values(&["b"])).unwrap();
    cons.add(&u1, 3, &values(&["c"])).unwrap();
    let db = cons.finalize().unwrap();

    assert_eq!(db.num_trails(), 2);
    assert_eq!(db.get_trail_id(&u1), Some(0));
    assert_eq!(db.get_trail_id(&u2), Some(1));
    assert_eq!(db.get_trail_id(&[3; 16]), None);
    assert_eq!(db.get_uuid(0), Some(u1));
    assert_eq!(db.get_uuid(1), Some(u2));
    assert_eq!(db.get_uuid(2), None);
    assert!(db.get_trail(2).is_none());
    let mut tr = db.get_trail(0).unwrap();
    assert_eq!(tr.id, 0);
    assert_eq!(tr.next().unwrap().timestamp, 1);
    assert_eq!(tr.next().unwrap().timestamp, 3);
    assert!(tr.next().is_none());

    let mut cursor = db.cursor();
    assert_eq!(cursor.get_trail(&db, 5).err(), Some(Error::InvalidTrailId));
}

#[test]
fn filter_algebra_edges() {
    let db = one_field_db(&[(0, "a"), (1, "b"), (2, "a"), (3, "c")]);
    let a = db.get_item(1, "a").unwrap();
    let b = db.get_item(1, "b").unwrap();

    // negated terms match events without the item
    let mut f = EventFilter::new();
    f.or_not(a);
    let mut cursor = db.cursor();
    cursor.get_trail(&db, 0).unwrap();
    cursor.set_filter(&f).unwrap();
    let mut ts = Vec::new();
    while let Some(e) = cursor.next() {
        ts.push(e.timestamp);
    }
    assert_eq!(ts, vec![1, 3]);

    // an opened-but-empty clause makes the conjunction false
    let mut f = EventFilter::new();
    f.or(a);
    f.and();
    cursor.get_trail(&db, 0).unwrap();
    cursor.set_filter(&f).unwrap();
    assert_eq!(cursor.len(), 0);

    // a time window combined with terms gates them
    let mut f = EventFilter::new();
    f.or(a);
    f.or(b);
    f.time_range(1, 4);
    cursor.get_trail(&db, 0).unwrap();
    cursor.set_filter(&f).unwrap();
    assert_eq!(cursor.len(), 2); // timestamps 1 and 2

    // the window is last-write-wins
    let mut f = EventFilter::new();
    f.time_range(0, 4);
    f.time_range(3, 4);
    cursor.get_trail(&db, 0).unwrap();
    cursor.set_filter(&f).unwrap();
    assert_eq!(cursor.len(), 1);

    // unset_filter reverts to unfiltered iteration
    cursor.unset_filter();
    cursor.get_trail(&db, 0).unwrap();
    assert_eq!(cursor.len(), 4);

    // direct evaluation agrees
    let mut f = EventFilter::new();
    f.or(a);
    assert!(f.matches_event(0, &vec![a]));
    assert!(!f.matches_event(0, &vec![b]));
}

#[test]
fn append_requires_matching_schema() {
    let mut cons = Constructor::new(vec![s("field1")]).unwrap();
    cons.add(&[1; 16], 7, &values(&["a"])).unwrap();
    let db = cons.finalize().unwrap();

    // mismatched arity of schemas
    let mut other = Constructor::new(vec![s("field1"), s("field2")]).unwrap();
    assert_eq!(other.append(&db).err(), Some(Error::AppendFieldsMismatch));
    // mismatched names
    let mut other = Constructor::new(vec![s("fieldX")]).unwrap();
    assert_eq!(other.append(&db).err(), Some(Error::AppendFieldsMismatch));
    // the appended-from log is untouched either way
    assert_eq!(db.num_events(), 1);
    assert_eq!(db.num_trails(), 1);
    assert_eq!(db.get_trail_id(&[1; 16]), Some(0));
    // and the failed builder still seals, empty
    let other_db = other.finalize().unwrap();
    assert_eq!(other_db.num_events(), 0);
}

#[test]
fn append_merges_events() {
    let mut cons = Constructor::new(vec![s("field1")]).unwrap();
    cons.add(&[1; 16], 10, &values(&["a"])).unwrap();
    cons.add(&[1; 16], 11, &values(&["b"])).unwrap();
    let db = cons.finalize().unwrap();

    let mut merged = Constructor::new(vec![s("field1")]).unwrap();
    merged.add(&[2; 16], 5, &values(&["c"])).unwrap();
    merged.append(&db).unwrap();
    merged.add(&[1; 16], 12, &values(&["d"])).unwrap();
    let out = merged.finalize().unwrap();

    assert_eq!(out.num_trails(), 2);
    assert_eq!(out.num_events(), 4);
    assert_eq!(out.min_timestamp(), 5);
    assert_eq!(out.max_timestamp(), 12);
    // uuid [2;16] was seen first in the merged builder
    assert_eq!(out.get_trail_id(&[2; 16]), Some(0));
    let t1 = out.get_trail_id(&[1; 16]).unwrap();
    let mut tr = out.get_trail(t1).unwrap();
    let mut seen = Vec::new();
    while let Some(e) = tr.next() {
        seen.push((e.timestamp, out.get_item_value(e.items[0]).unwrap()));
    }
    assert_eq!(seen, vec![(10, s("a")), (11, s("b")), (12, s("d"))]);
}

#[test]
fn open_validates_components() {
    // a sound set of components opens
    let fields = vec![s("field1")];
    let lexicons = vec![vec![s("a"), s("b")]];
    let uuids: Vec<Uuid> = vec![[1; 16]];
    let trails = vec![vec![
        Event { timestamp: 1, items: vec![Item::encode(1, 1)] },
        Event { timestamp: 2, items: vec![Item::encode(1, 2)] },
    ]];
    let db = Db::open(fields.clone(), lexicons.clone(), uuids.clone(), trails.clone()).unwrap();
    assert_eq!(db.num_events(), 2);
    assert_eq!(db.min_timestamp(), 1);
    assert_eq!(db.max_timestamp(), 2);
    assert_eq!(db.get_item_value(Item::encode(1, 2)).unwrap(), s("b"));

    // a repeated field name is a corrupt fields file
    assert_eq!(
        Db::open(vec![s("f"), s("f")], vec![vec![], vec![]], vec![], vec![]).err(),
        Some(Error::InvalidFieldsFile)
    );
    // a repeated lexicon value is a corrupt lexicon file
    assert_eq!(
        Db::open(fields.clone(), vec![vec![s("a"), s("a")]], vec![], vec![]).err(),
        Some(Error::InvalidLexiconFile)
    );
    // wrong lexicon arity is a corrupt lexicon file
    assert_eq!(
        Db::open(fields.clone(), vec![], vec![], vec![]).err(),
        Some(Error::InvalidLexiconFile)
    );
    // a repeated uuid is a corrupt uuids file
    assert_eq!(
        Db::open(
            fields.clone(),
            lexicons.clone(),
            vec![[1; 16], [1; 16]],
            vec![vec![], vec![]]
        )
        .err(),
        Some(Error::InvalidUuidsFile)
    );
    // a trail out of timestamp order is a corrupt trails file
    assert_eq!(
        Db::open(
            fields.clone(),
            lexicons.clone(),
            uuids.clone(),
            vec![vec![
                Event { timestamp: 2, items: vec![Item::encode(1, 1)] },
                Event { timestamp: 1, items: vec![Item::encode(1, 2)] },
            ]]
        )
        .err(),
        Some(Error::InvalidTrailsFile)
    );
    // an item pointing past the lexicon is a corrupt trails file
    assert_eq!(
        Db::open(
            fields.clone(),
            lexicons.clone(),
            uuids.clone(),
            vec![vec![Event { timestamp: 1, items: vec![Item::encode(1, 9)] }]]
        )
        .err(),
        Some(Error::InvalidTrailsFile)
    );
}

#[test]
fn multi_cursor_tie_break() {
    // equal timestamps are drawn in source-cursor order
    let mut cons = Constructor::new(vec![s("field1")]).unwrap();
    cons.add(&[1; 16], 10, &values(&["a"])).unwrap();
    cons.add(&[2; 16], 10, &values(&["b"])).unwrap();
    cons.add(&[2; 16], 10, &values(&["c"])).unwrap();
    let db = cons.finalize().unwrap();

    let mut c0 = db.cursor();
    let mut c1 = db.cursor();
    c0.get_trail(&db, 1).unwrap();
    c1.get_trail(&db, 0).unwrap();
    let mut mc = MultiCursor::new(&vec![c0, c1]);
    let mut tags = Vec::new();
    while let Some(me) = mc.next() {
        tags.push((me.cursor_idx, db.get_item_value(me.event.items[0]).unwrap()));
    }
    assert_eq!(tags, vec![(0, s("b")), (0, s("c")), (1, s("a"))]);

    // reset rewinds the merge to the sources' captured positions
    mc.reset();
    let mut count = 0;
    while mc.next().is_some() {
        count += 1;
    }
    assert_eq!(count, 3);
}

#[test]
fn closing_releases_state() {
    let mut cons = Constructor::new(vec![s("field1")]).unwrap();
    cons.add(&[1; 16], 1, &values(&["a"])).unwrap();
    cons.close();
    let db = cons.finalize().unwrap();
    assert_eq!(db.num_events(), 0);

    let mut db = one_field_db(&[(1, "a")]);
    db.will_need();
    db.dont_need();
    db.close();
    assert_eq!(db.num_trails(), 0);
    assert_eq!(db.num_events(), 0);
}

#[test]
fn error_names() {
    assert_eq!(Error::Nomem.name(), "Nomem");
    assert_eq!(Error::AppendFieldsMismatch.name(), "AppendFieldsMismatch");
    assert_eq!(Error::OnlyDiffFilter.name(), "OnlyDiffFilter");
}
