use std::collections::HashMap;
use traildb::{Constructor, Cursor, Db, EventFilter, Uuid};

fn s(x: &str) -> String {
    x.to_string()
}

fn values(vals: &[&str]) -> Vec<String> {
    vals.iter().map(|v| s(v)).collect()
}

// The timestamps of the events yielded for trail 0 under the given filter.
fn timestamps(db: &Db, c: &mut Cursor, f: &EventFilter) -> Vec<u64> {
    assert!(c.get_trail(db, 0).is_ok());
    assert!(c.set_filter(f).is_ok());

    let mut result = vec![];
    while let Some(event) = c.next() {
        result.push(event.timestamp);
    }
    result
}

#[test]
fn filters() {
    let mut cons = Constructor::new(vec![s("field1"), s("field2")]).unwrap();

    let uuid: Uuid = [7; 16];

    assert!(cons.add(&uuid, 0, &values(&["a", "0"])).is_ok());
    assert!(cons.add(&uuid, 1, &values(&["b", "1"])).is_ok());
    assert!(cons.add(&uuid, 2, &values(&["a", "2"])).is_ok());
    assert!(cons.add(&uuid, 3, &values(&["c", "3"])).is_ok());
    assert!(cons.add(&uuid, 4, &values(&["a", "4"])).is_ok());
    assert!(cons.add(&uuid, 5, &values(&["d", "5"])).is_ok());
    let db = cons.finalize().unwrap();

    let fields: HashMap<String, u32> = db.fields().into_iter().collect();
    let field1 = *fields.get("field1").unwrap();
    let field2 = *fields.get("field2").unwrap();

    let mut cursor = db.cursor();

    let mut f = EventFilter::new();

    // Empty filter doesn't match any events
    assert_eq!(1, f.num_clauses());
    assert_eq!(0, timestamps(&db, &mut cursor, &f).len());

    // Events with field1=a
    f.or(db.get_item(field1, "a").unwrap());
    assert_eq!(vec![0, 2, 4], timestamps(&db, &mut cursor, &f));

    // Calling '.or(...)' again adds another OR term:
    // the filter is now: field1=a OR field1=b
    f.or(db.get_item(field1, "b").unwrap());
    assert_eq!(vec![0, 1, 2, 4], timestamps(&db, &mut cursor, &f));

    drop(f);

    // field1=a OR field1=b built afresh
    let mut f = EventFilter::new();
    f.or(db.get_item(field1, "a").unwrap());
    f.or(db.get_item(field1, "b").unwrap());
    assert_eq!(vec![0, 1, 2, 4], timestamps(&db, &mut cursor, &f));
    drop(f);

    // field1=a once more
    let mut f = EventFilter::new();
    f.or(db.get_item(field1, "a").unwrap());
    assert_eq!(vec![0, 2, 4], timestamps(&db, &mut cursor, &f));
    drop(f);

    // field1=a AND (field2=0 OR field2=2)
    let mut f = EventFilter::new();
    f.or(db.get_item(field1, "a").unwrap());
    f.and();
    f.or(db.get_item(field2, "0").unwrap());
    f.or(db.get_item(field2, "2").unwrap());
    assert_eq!(vec![0, 2], timestamps(&db, &mut cursor, &f));
    drop(f);

    // start_time <= timestamp < end_time
    let mut f = EventFilter::new();
    f.time_range(2, 4);
    assert_eq!(vec![2, 3], timestamps(&db, &mut cursor, &f));
    drop(f);

    // EventFilter::all() always matches all events, even with a term added.
    let mut f = EventFilter::all();
    assert_eq!(6, timestamps(&db, &mut cursor, &f).len());
    f.or(db.get_item(field1, "a").unwrap());
    assert_eq!(6, timestamps(&db, &mut cursor, &f).len());
    drop(f);

    // EventFilter::none() never matches any event.
    let f = EventFilter::none();
    assert_eq!(0, timestamps(&db, &mut cursor, &f).len());
}
