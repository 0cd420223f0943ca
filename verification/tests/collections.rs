//! Document collections: CRUD with optimistic versioning, secondary indexes (equality
//! and unique) and atomic batches.

use hivedb::clock::MockClock;
use hivedb::collections::{ColOp, Collections, DefRow, DocRow, PutOptions, ScanOptions};
use hivedb::db::HiveDB;
use hivedb::json::{parse_json, Json};

fn json(text: &str) -> Json {
    parse_json(text).unwrap()
}

fn open_db() -> HiveDB<MockClock> {
    HiveDB::open_temp_with_clock(MockClock::at(0)).unwrap()
}

fn put_op(collection: &str, id: &str, doc: &str, expected_version: Option<u64>) -> ColOp {
    ColOp::Put {
        collection: collection.to_string(),
        id: id.to_string(),
        doc: json(doc),
        expected_version,
    }
}

fn reopened(collections: &Collections) -> Collections {
    Collections::open(collections.doc_rows(), collections.def_rows()).unwrap()
}

#[test]
fn put_get_roundtrip_with_versioning() {
    let mut db = open_db();

    let v1 = db
        .col_put(
            "agents",
            "a1",
            &json(r#"{"name": "Atlas", "role": "worker"}"#),
            PutOptions::default(),
        )
        .unwrap();
    assert_eq!(v1, 1);

    let entry = db.col_get("agents", "a1").unwrap().unwrap();
    assert_eq!(entry.version, 1);
    assert_eq!(entry.doc.get("name"), Some(&json(r#""Atlas""#)));

    let v2 = db
        .col_put(
            "agents",
            "a1",
            &json(r#"{"name": "Atlas", "role": "coordinator"}"#),
            PutOptions::default(),
        )
        .unwrap();
    assert_eq!(v2, 2);
    let entry = db.col_get("agents", "a1").unwrap().unwrap();
    assert_eq!(entry.doc.get("role"), Some(&json(r#""coordinator""#)));

    assert!(db.col_get("agents", "missing").unwrap().is_none());
}

#[test]
fn optimistic_version_check() {
    let mut db = open_db();

    // expected_version = 0: create only
    db.col_put("t", "x", &json(r#"{"a": 1}"#), PutOptions { expected_version: Some(0) }).unwrap();
    let err = db
        .col_put("t", "x", &json(r#"{"a": 2}"#), PutOptions { expected_version: Some(0) })
        .unwrap_err();
    assert!(err.to_string().contains("version conflict"), "{err:?}");

    // matching current version succeeds; stale version fails
    db.col_put("t", "x", &json(r#"{"a": 2}"#), PutOptions { expected_version: Some(1) }).unwrap();
    let err = db
        .col_put("t", "x", &json(r#"{"a": 3}"#), PutOptions { expected_version: Some(1) })
        .unwrap_err();
    assert!(err.to_string().contains("version conflict"), "{err:?}");
}

#[test]
fn delete_and_count() {
    let mut db = open_db();

    for i in 0..5 {
        db.col_put(
            "notes",
            &format!("n{i}"),
            &json(&format!(r#"{{"i": {i}}}"#)),
            PutOptions::default(),
        )
        .unwrap();
    }
    assert_eq!(db.col_count("notes").unwrap(), 5);

    assert!(db.col_delete("notes", "n2").unwrap());
    assert!(!db.col_delete("notes", "n2").unwrap());
    assert_eq!(db.col_count("notes").unwrap(), 4);
    assert!(db.col_get("notes", "n2").unwrap().is_none());
}

#[test]
fn scan_with_prefix_offset_limit_reverse() {
    let mut db = open_db();

    for id in ["u:1", "u:2", "u:3", "g:1", "g:2"] {
        db.col_put("things", id, &json(&format!(r#"{{"id": "{id}"}}"#)), PutOptions::default())
            .unwrap();
    }

    let all = db.col_scan("things", &ScanOptions::default()).unwrap();
    assert_eq!(all.len(), 5);
    // Ascending id order
    assert_eq!(all[0].id, "g:1");

    let users = db
        .col_scan("things", &ScanOptions { prefix: Some("u:".into()), ..Default::default() })
        .unwrap();
    assert_eq!(
        users.iter().map(|e| e.id.as_str()).collect::<Vec<_>>(),
        vec!["u:1", "u:2", "u:3"]
    );

    let page = db
        .col_scan("things", &ScanOptions { offset: 1, limit: 2, ..Default::default() })
        .unwrap();
    assert_eq!(page.iter().map(|e| e.id.as_str()).collect::<Vec<_>>(), vec!["g:2", "u:1"]);

    let rev = db
        .col_scan("things", &ScanOptions { reverse: true, limit: 2, ..Default::default() })
        .unwrap();
    assert_eq!(rev.iter().map(|e| e.id.as_str()).collect::<Vec<_>>(), vec!["u:3", "u:2"]);
}

#[test]
fn collections_are_isolated() {
    let mut db = open_db();

    db.col_put("a", "same-id", &json(r#"{"from": "a"}"#), PutOptions::default()).unwrap();
    db.col_put("b", "same-id", &json(r#"{"from": "b"}"#), PutOptions::default()).unwrap();

    assert_eq!(
        db.col_get("a", "same-id").unwrap().unwrap().doc.get("from"),
        Some(&json(r#""a""#))
    );
    assert_eq!(
        db.col_get("b", "same-id").unwrap().unwrap().doc.get("from"),
        Some(&json(r#""b""#))
    );
    assert_eq!(db.col_count("a").unwrap(), 1);
}

#[test]
fn secondary_index_find_by_and_maintenance() {
    let mut db = open_db();

    // Backfill: docs exist before the index is created.
    db.col_put("convs", "c1", &json(r#"{"thread_id": "t-1", "n": 1}"#), PutOptions::default())
        .unwrap();
    db.col_put("convs", "c2", &json(r#"{"thread_id": "t-1", "n": 2}"#), PutOptions::default())
        .unwrap();
    db.col_put("convs", "c3", &json(r#"{"thread_id": "t-2", "n": 3}"#), PutOptions::default())
        .unwrap();

    db.col_create_index("convs", "thread_id", false).unwrap();

    let hits = db
        .col_find_by("convs", "thread_id", &json(r#""t-1""#), &ScanOptions::default())
        .unwrap();
    assert_eq!(hits.len(), 2);

    // Update moves the doc to another value; index follows.
    db.col_put("convs", "c2", &json(r#"{"thread_id": "t-2", "n": 2}"#), PutOptions::default())
        .unwrap();
    let t1 = db
        .col_find_by("convs", "thread_id", &json(r#""t-1""#), &ScanOptions::default())
        .unwrap();
    let t2 = db
        .col_find_by("convs", "thread_id", &json(r#""t-2""#), &ScanOptions::default())
        .unwrap();
    assert_eq!(t1.len(), 1);
    assert_eq!(t2.len(), 2);

    // Delete removes the index entry.
    db.col_delete("convs", "c3").unwrap();
    let t2 = db
        .col_find_by("convs", "thread_id", &json(r#""t-2""#), &ScanOptions::default())
        .unwrap();
    assert_eq!(t2.iter().map(|e| e.id.as_str()).collect::<Vec<_>>(), vec!["c2"]);

    // find_by without an index is an explicit error.
    let err =
        db.col_find_by("convs", "n", &json("1"), &ScanOptions::default()).unwrap_err();
    assert!(err.to_string().contains("no index"), "{err:?}");
}

#[test]
fn unique_index_enforced_on_put_and_backfill() {
    let mut db = open_db();

    db.col_create_index("tokens", "hash", true).unwrap();
    db.col_put("tokens", "t1", &json(r#"{"hash": "abc"}"#), PutOptions::default()).unwrap();

    // Same value on a different id is rejected...
    let err = db
        .col_put("tokens", "t2", &json(r#"{"hash": "abc"}"#), PutOptions::default())
        .unwrap_err();
    assert!(err.to_string().contains("unique index"), "{err:?}");

    // ...but re-putting the same doc is fine.
    db.col_put("tokens", "t1", &json(r#"{"hash": "abc", "extra": 1}"#), PutOptions::default())
        .unwrap();

    // Backfill over duplicate data fails and leaves no index behind.
    db.col_put("dups", "d1", &json(r#"{"k": "same"}"#), PutOptions::default()).unwrap();
    db.col_put("dups", "d2", &json(r#"{"k": "same"}"#), PutOptions::default()).unwrap();
    let err = db.col_create_index("dups", "k", true).unwrap_err();
    assert!(err.to_string().contains("unique index"), "{err:?}");
    let err = db
        .col_find_by("dups", "k", &json(r#""same""#), &ScanOptions::default())
        .unwrap_err();
    assert!(err.to_string().contains("no index"), "{err:?}");
}

#[test]
fn batch_is_atomic() {
    let mut db = open_db();

    db.col_put("acc", "a", &json(r#"{"balance": 10}"#), PutOptions::default()).unwrap();

    // A failing op (version conflict) aborts the whole batch.
    let err = db
        .col_batch(&vec![
            put_op("acc", "a", r#"{"balance": 0}"#, None),
            // wrong on purpose
            put_op("acc", "b", r#"{"balance": 10}"#, Some(7)),
        ])
        .unwrap_err();
    assert!(err.to_string().contains("version conflict"), "{err:?}");

    // Nothing committed: "a" keeps its balance, "b" does not exist.
    let balance = |db: &HiveDB<MockClock>, id: &str| {
        db.col_get("acc", id).unwrap().unwrap().doc.unsigned_field("balance")
    };
    assert_eq!(balance(&db, "a"), Some(10));
    assert!(db.col_get("acc", "b").unwrap().is_none());

    // A valid batch commits everything at once.
    db.col_batch(&vec![
        put_op("acc", "a", r#"{"balance": 0}"#, None),
        ColOp::Delete { collection: "acc".into(), id: "missing".into() },
        put_op("acc", "b", r#"{"balance": 10}"#, None),
    ])
    .unwrap();
    assert_eq!(balance(&db, "a"), Some(0));
    assert_eq!(balance(&db, "b"), Some(10));
}

#[test]
fn collections_survive_reopen() {
    let mut before = Collections::new();
    before.create_index("users", "email", true).unwrap();
    before
        .put(
            "users",
            "u1",
            &json(r#"{"email": "a@b.co", "name": "Ana"}"#),
            PutOptions::default(),
        )
        .unwrap();

    let mut after = reopened(&before);
    let entry = after.get("users", "u1").unwrap().unwrap();
    assert_eq!(entry.doc.get("name"), Some(&json(r#""Ana""#)));
    assert_eq!(entry.version, 1);

    // Index definitions are persistent: uniqueness still enforced after reopen.
    let err = after
        .put("users", "u2", &json(r#"{"email": "a@b.co"}"#), PutOptions::default())
        .unwrap_err();
    assert!(err.to_string().contains("unique index"), "{err:?}");

    let hits = after
        .find_by("users", "email", &json(r#""a@b.co""#), &ScanOptions::default())
        .unwrap();
    assert_eq!(hits.len(), 1);
}

#[test]
fn non_scalar_and_missing_fields_are_not_indexed() {
    let mut db = open_db();

    db.col_create_index("mixed", "tag", false).unwrap();
    db.col_put("mixed", "m1", &json(r#"{"tag": "x"}"#), PutOptions::default()).unwrap();
    db.col_put("mixed", "m2", &json(r#"{"tag": null}"#), PutOptions::default()).unwrap();
    db.col_put("mixed", "m3", &json(r#"{"tag": ["a", "b"]}"#), PutOptions::default()).unwrap();
    db.col_put("mixed", "m4", &json(r#"{"other": 1}"#), PutOptions::default()).unwrap();

    let hits =
        db.col_find_by("mixed", "tag", &json(r#""x""#), &ScanOptions::default()).unwrap();
    assert_eq!(hits.iter().map(|e| e.id.as_str()).collect::<Vec<_>>(), vec!["m1"]);

    // Numbers and bools are valid index values.
    db.col_create_index("mixed", "n", false).unwrap();
    db.col_put("mixed", "m5", &json(r#"{"n": 42}"#), PutOptions::default()).unwrap();
    let hits = db.col_find_by("mixed", "n", &json("42"), &ScanOptions::default()).unwrap();
    assert_eq!(hits.len(), 1);
}

#[test]
fn only_scalars_can_be_asked_for() {
    let mut db = open_db();
    db.col_create_index("c", "f", false).unwrap();
    assert!(db.col_find_by("c", "f", &json("[1]"), &ScanOptions::default()).unwrap().is_empty());
    assert!(db.col_find_by("c", "f", &json("null"), &ScanOptions::default()).unwrap().is_empty());
}

#[test]
fn of_two_writers_one_wins() {
    let mut db = open_db();
    db.col_put("t", "x", &json("1"), PutOptions::default()).unwrap();
    let seen = db.col_get("t", "x").unwrap().unwrap().version;
    let options = PutOptions { expected_version: Some(seen) };
    assert_eq!(db.col_put("t", "x", &json("2"), options).unwrap(), 2);
    assert!(db.col_put("t", "x", &json("3"), options).is_err());
    assert_eq!(db.col_get("t", "x").unwrap().unwrap().doc, json("2"));
}

#[test]
fn a_deleted_document_starts_over() {
    let mut db = open_db();
    db.col_put("t", "x", &json("1"), PutOptions::default()).unwrap();
    db.col_put("t", "x", &json("2"), PutOptions::default()).unwrap();
    assert!(db.col_delete("t", "x").unwrap());
    assert_eq!(db.col_put("t", "x", &json("3"), PutOptions::default()).unwrap(), 1);
}

#[test]
fn pages_join_to_the_whole() {
    let mut db = open_db();
    for i in 0..7 {
        db.col_put("p", &format!("{i}"), &json("null"), PutOptions::default()).unwrap();
    }
    let mut joined = Vec::new();
    for page in 0..3 {
        let options = ScanOptions { offset: page * 3, limit: 3, ..Default::default() };
        joined.extend(db.col_scan("p", &options).unwrap());
    }
    assert_eq!(joined, db.col_scan("p", &ScanOptions::default()).unwrap());
}

#[test]
fn scans_start_where_they_are_told() {
    let mut db = open_db();
    for id in ["a", "b", "c", "d"] {
        db.col_put("p", id, &json("null"), PutOptions::default()).unwrap();
    }
    let options = ScanOptions { start: Some("b".into()), ..Default::default() };
    let ids: Vec<_> = db.col_scan("p", &options).unwrap().into_iter().map(|e| e.id).collect();
    assert_eq!(ids, vec!["b", "c", "d"]);
}

#[test]
fn errors_name_what_is_wrong() {
    let mut db = open_db();
    db.col_put("t", "x", &json(r#"{"k": "v"}"#), PutOptions::default()).unwrap();
    let error =
        db.col_put("t", "x", &json("2"), PutOptions { expected_version: Some(4) }).unwrap_err();
    assert_eq!(
        error.to_string(),
        "invalid input: version conflict on t/x: expected 4, found 1"
    );

    let error = db.col_find_by("t", "k", &json("1"), &ScanOptions::default()).unwrap_err();
    assert_eq!(
        error.to_string(),
        "invalid input: no index on t.k \u{2014} call create_index first"
    );

    db.col_create_index("t", "k", true).unwrap();
    let error = db.col_create_index("t", "k", false).unwrap_err();
    assert_eq!(
        error.to_string(),
        "invalid input: index t.k already exists with unique=true"
    );

    let error =
        db.col_put("t", "y", &json(r#"{"k": "v"}"#), PutOptions::default()).unwrap_err();
    assert_eq!(
        error.to_string(),
        "invalid input: unique index t.k violated: value already used by \"x\""
    );

    db.col_put("d", "1", &json(r#"{"k": 7}"#), PutOptions::default()).unwrap();
    db.col_put("d", "2", &json(r#"{"k": 7}"#), PutOptions::default()).unwrap();
    let error = db.col_create_index("d", "k", true).unwrap_err();
    assert_eq!(
        error.to_string(),
        "invalid input: unique index d.k violated by existing docs \"1\" and \"2\""
    );
}

#[test]
fn an_index_is_created_once() {
    let mut db = open_db();
    db.col_put("t", "x", &json(r#"{"k": true}"#), PutOptions::default()).unwrap();
    db.col_create_index("t", "k", true).unwrap();
    db.col_create_index("t", "k", true).unwrap();
    let hits = db.col_find_by("t", "k", &json("true"), &ScanOptions::default()).unwrap();
    assert_eq!(hits.len(), 1);
    let after = {
        let mut c = Collections::new();
        c.put("t", "x", &json(r#"{"k": true}"#), PutOptions::default()).unwrap();
        c.create_index("t", "k", true).unwrap();
        reopened(&c)
    };
    assert_eq!(after.count("t").unwrap(), 1);
    assert_eq!(after.scan("t", &ScanOptions::default()).unwrap()[0].id, "x");
}

#[test]
fn lookups_heed_prefix_and_start() {
    let mut store = Collections::new();
    store.create_index("c", "k", false).unwrap();
    for id in ["a1", "b1", "b2", "b3"] {
        store.put("c", id, &json(r#"{"k": "v"}"#), PutOptions::default()).unwrap();
    }
    store.put("c", "b0", &json(r#"{"k": "w"}"#), PutOptions::default()).unwrap();
    let found = |options: ScanOptions| -> Vec<String> {
        let value = json(r#""v""#);
        store.find_by("c", "k", &value, &options).unwrap().into_iter().map(|e| e.id).collect()
    };
    let with_prefix = || ScanOptions { prefix: Some("b".into()), ..Default::default() };
    assert_eq!(found(with_prefix()), ["b1", "b2", "b3"]);
    assert_eq!(found(ScanOptions { start: Some("b2".into()), ..Default::default() }), ["b2", "b3"]);
    // The limit and the offset count only what is left.
    assert_eq!(found(ScanOptions { limit: 1, ..with_prefix() }), ["b1"]);
    assert_eq!(found(ScanOptions { offset: 1, ..with_prefix() }), ["b2", "b3"]);
    assert_eq!(found(ScanOptions { reverse: true, limit: 2, ..with_prefix() }), ["b3", "b2"]);
    assert_eq!(found(ScanOptions { prefix: Some("x".into()), ..Default::default() }).len(), 0);
}

/// A document whose `k` is one and whose `deep` holds that many arrays, one in the other.
fn nested(arrays: usize) -> Json {
    let mut deep = Json::Null;
    for _ in 0..arrays {
        deep = Json::Array(vec![deep]);
    }
    Json::Object(vec![("deep".into(), deep), ("k".into(), json("1"))])
}

#[test]
fn documents_nested_too_deep_cannot_be_read() {
    let mut db = open_db();
    db.col_create_index("c", "k", false).unwrap();
    db.col_put("c", "ok", &nested(126), PutOptions::default()).unwrap();
    assert_eq!(db.col_get("c", "ok").unwrap().unwrap().doc, nested(126));
    db.col_put("c", "x-deep", &nested(127), PutOptions::default()).unwrap();

    let why = serde_json::from_str::<serde_json::Value>(&nested(127).to_text()).unwrap_err();
    let expected = format!("json error: {why}");
    assert!(expected.contains("recursion limit exceeded"));
    let all = ScanOptions::default();
    assert_eq!(db.col_get("c", "x-deep").unwrap_err().to_string(), expected);
    assert_eq!(db.col_scan("c", &all).unwrap_err().to_string(), expected);
    assert_eq!(db.col_find_by("c", "k", &json("1"), &all).unwrap_err().to_string(), expected);
    assert_eq!(db.col_delete("c", "x-deep").unwrap_err().to_string(), expected);
    assert_eq!(
        db.col_put("c", "x-deep", &json("1"), PutOptions::default()).unwrap_err().to_string(),
        expected
    );
    assert_eq!(db.col_create_index("c", "other", false).unwrap_err().to_string(), expected);
    let delete = ColOp::Delete { collection: "c".into(), id: "x-deep".into() };
    let ops = vec![put_op("c", "new", "1", None), delete];
    assert_eq!(db.col_batch(&ops).unwrap_err().to_string(), expected);
    assert!(db.col_get("c", "new").unwrap().is_none());

    // What does not go through the document is not disturbed.
    let only = ScanOptions { prefix: Some("o".into()), ..Default::default() };
    assert_eq!(db.col_scan("c", &only).unwrap().len(), 1);
    assert_eq!(db.col_find_by("c", "k", &json("1"), &only).unwrap().len(), 1);
    assert_eq!(db.col_count("c").unwrap(), 2);
    let row = db.col_row("c", "x-deep").unwrap();
    assert_eq!((row.version, row.doc), (1, nested(127)));
    assert!(db.col_row("c", "missing").is_none());
}

#[test]
fn the_first_document_decides_why_an_index_is_refused() {
    let store = |deep_id: &str| {
        let mut store = Collections::new();
        store.put("c", "a", &json(r#"{"k": 1}"#), PutOptions::default()).unwrap();
        store.put("c", "c", &json(r#"{"k": 1}"#), PutOptions::default()).unwrap();
        store.put("c", deep_id, &nested(127), PutOptions::default()).unwrap();
        store
    };
    let refused = |store: &mut Collections| {
        store.create_index("c", "k", true).unwrap_err().to_string()
    };
    assert!(refused(&mut store("b")).starts_with("json error: recursion limit exceeded"));
    assert!(refused(&mut store("d"))
        .starts_with("invalid input: unique index c.k violated by existing docs \"a\" and \"c\""));
}

#[test]
fn a_store_opens_with_documents_that_cannot_be_read() {
    let mut store = Collections::new();
    store.create_index("c", "k", true).unwrap();
    store.put("c", "x", &nested(200), PutOptions::default()).unwrap();
    let store = reopened(&store);
    assert!(store.get("c", "x").is_err());
    assert_eq!(store.row("c", "x").unwrap().doc, nested(200));
}

#[test]
fn rows_that_contradict_each_other_do_not_open() {
    let def = |unique: bool| DefRow { collection: "c".into(), field: "k".into(), unique };
    let row = |id: &str| DocRow {
        collection: "c".into(),
        id: id.into(),
        version: 1,
        doc: json(r#"{"k": 1}"#),
    };
    let why = |docs, defs| match Collections::open(docs, defs) {
        Ok(_) => panic!("opened"),
        Err(error) => error.to_string(),
    };
    assert_eq!(
        why(vec![], vec![def(true), def(false)]),
        "invalid input: index c.k already exists with unique=true"
    );
    assert_eq!(
        why(vec![row("1"), row("2")], vec![def(true)]),
        "invalid input: unique index c.k violated by existing docs \"1\" and \"2\""
    );
}
