use std::collections::HashMap;
use std::collections::HashSet;
use std::iter::FromIterator;
use traildb::{Constructor, Db, MultiCursor, MultiEvent, Uuid};

fn s(x: &str) -> String {
    x.to_string()
}

fn schema(names: &[&str]) -> Vec<String> {
    names.iter().map(|n| s(n)).collect()
}

fn values(vals: &[&str]) -> Vec<String> {
    vals.iter().map(|v| s(v)).collect()
}

#[test]
fn test_traildb() {
    // create a new constructor
    let field_names = ["field1", "field2"];
    let mut cons = Constructor::new(schema(&field_names)).unwrap();
    let field_vals = ["cats", "dogs"];

    // add an event
    let events_per_trail = 10;
    let mut trail_cnt = 0;
    let mut event_cnt = 0;
    let mut uuids: Vec<Uuid> = Vec::new();
    let mut timestamp: u64 = 1;
    let mut timestamps = Vec::new();
    for t in 0..10u8 {
        let uuid: Uuid = [t; 16];
        for _ in 0..events_per_trail {
            assert!(cons.add(&uuid, timestamp, &values(&field_vals)).is_ok());
            timestamps.push(timestamp);
            event_cnt += 1;
            timestamp += 1;
        }
        uuids.push(uuid);
        trail_cnt += 1;
    }

    // seal the log
    let db: Db = cons.finalize().unwrap();

    // check number of fields
    let num_fields = db.num_fields();
    assert_eq!(num_fields, 1 + field_names.len() as u64);

    // check field names are correct
    let db_fields: HashMap<String, u32> = db.fields().into_iter().collect();
    assert!(db_fields.contains_key("field1"));
    assert!(db_fields.contains_key("field2"));
    assert_eq!(None, db_fields.get("missing"));

    // check number of trails
    let num_trails = db.num_trails();
    assert_eq!(num_trails, trail_cnt);

    // check number of events
    let num_events = db.num_events();
    assert_eq!(num_events, event_cnt);

    // Check round-trip get_uuid/get_trail_id
    for uuid in &uuids {
        let trail_id = db.get_trail_id(uuid).unwrap();
        let uuid_rt = db.get_uuid(trail_id).unwrap();
        assert_eq!(uuid, &uuid_rt);
    }

    // check max/min timestamp
    let min_timestamp = *timestamps.iter().min().unwrap();
    let max_timestamp = *timestamps.iter().max().unwrap();
    assert_eq!(db.min_timestamp(), min_timestamp);
    assert_eq!(db.max_timestamp(), max_timestamp);

    // test cursor
    let mut cursor = db.cursor();
    for uuid in &uuids {
        let trail_id = db.get_trail_id(uuid).unwrap();
        cursor.get_trail(&db, trail_id).unwrap();
        assert_eq!(events_per_trail, cursor.len());
    }

    // test db iterator
    let mut it = db.iter();
    while let Some(mut trail) = it.next(&db) {
        // test trail iterator
        while let Some(event) = trail.next() {
            // check that inserted event values match read values
            for (item, item_ref) in event.items.iter().zip(field_vals.iter()) {
                let item = db.get_item_value(*item);
                assert!(item.is_some());
                assert_eq!(item.unwrap(), *item_ref);
            }
        }
    }
}

#[test]
fn test_multi_cursor() {
    let field_names = ["field1"];
    let mut cons = Constructor::new(schema(&field_names)).unwrap();

    let uuid1: Uuid = [1; 16];
    let uuid2: Uuid = [2; 16];

    assert!(cons.add(&uuid1, 10, &values(&["foo1"])).is_ok());
    assert!(cons.add(&uuid1, 11, &values(&["foo2"])).is_ok());
    assert!(cons.add(&uuid1, 12, &values(&["foo3"])).is_ok());

    assert!(cons.add(&uuid2, 20, &values(&["bar1"])).is_ok());
    assert!(cons.add(&uuid2, 21, &values(&["bar2"])).is_ok());
    assert!(cons.add(&uuid2, 22, &values(&["bar3"])).is_ok());

    let db = cons.finalize().unwrap();

    let mut cursors = vec![db.cursor(), db.cursor()];
    assert!(cursors[0].get_trail(&db, 0).is_ok());
    assert!(cursors[1].get_trail(&db, 1).is_ok());

    let mut multi_cursor = MultiCursor::new(&cursors);
    multi_cursor.reset();

    let mut multi_events: Vec<MultiEvent> = Vec::new();
    while let Some(me) = multi_cursor.next() {
        multi_events.push(me);
    }
    assert_eq!(
        vec![10, 11, 12, 20, 21, 22],
        multi_events
            .iter()
            .map(|me| me.event.timestamp)
            .collect::<Vec<u64>>()
    );
    assert_eq!(
        HashSet::from_iter(vec![0, 0, 0, 1, 1, 1].into_iter()),
        multi_events
            .iter()
            .map(|me| me.cursor_idx)
            .collect::<HashSet<usize>>()
    );
}
