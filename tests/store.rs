use rungodb::container::Container;
use rungodb::store::{InsertError, RungoDB};
use rungodb::value::Value;

fn text(s: &str) -> Value {
    Value::Text(s.to_string())
}

fn obj(fields: Vec<(&str, Value)>) -> Value {
    Value::Object(fields.into_iter().map(|(k, v)| (k.to_string(), v)).collect())
}

fn field<'a>(v: &'a Value, name: &str) -> Option<&'a Value> {
    match v {
        Value::Object(fs) => fs.iter().find(|(k, _)| k == name).map(|(_, v)| v),
        _ => None,
    }
}

fn names(v: &Value) -> Vec<String> {
    match v {
        Value::Object(fs) => fs.iter().map(|(k, _)| k.clone()).collect(),
        _ => vec![],
    }
}

fn empty_predicate() -> Value {
    Value::Object(vec![])
}

fn uid_predicate(u: &str) -> Value {
    obj(vec![("uid", text(u))])
}

#[test]
fn it_works() {
    let mut db = RungoDB::New();

    let _ = db.InsertEntity(
        &"projects".into(),
        obj(vec![("name", text("My project")), ("uid", text("xxya"))]),
    );

    let result = db.QueryEntities(&"projects".into(), &uid_predicate("xxya"));

    assert_eq!(result.len(), 1);
}

#[test]
fn insert_query_delete_scenario() {
    let mut db = RungoDB::New();
    let entity = obj(vec![("name", text("My project")), ("uid", text("xxya"))]);
    let id = db.InsertEntity(&"projects".into(), entity.deep_copy());
    assert_eq!(id, Ok("xxya".to_string()));

    let result = db.QueryEntities(&"projects".into(), &uid_predicate("xxya"));
    assert_eq!(result, vec![entity]);

    db.DeleteEntities(&"projects".into(), &uid_predicate("xxya"));
    let rest = db.QueryEntities(&"projects".into(), &empty_predicate());
    assert!(rest.is_empty());
}

#[test]
fn generated_identifiers_are_distinct() {
    let mut db = RungoDB::New();
    let mut ids: Vec<String> = vec![];
    for i in 0..5 {
        let id = db
            .InsertEntity(&"tasks".into(), obj(vec![("n", Value::Number(format!("{}", i)))]))
            .unwrap();
        ids.push(id);
    }
    for (i, a) in ids.iter().enumerate() {
        for b in ids.iter().skip(i + 1) {
            assert_ne!(a, b);
        }
    }
    let all = db.QueryEntities(&"tasks".into(), &empty_predicate());
    assert_eq!(all.len(), 5);
    for id in &ids {
        let found = db.QueryEntities(&"tasks".into(), &uid_predicate(id));
        assert_eq!(found.len(), 1);
        assert_eq!(field(&found[0], "uid"), Some(&text(id)));
    }
}

#[test]
fn generated_identifier_is_hyphenated_uuid() {
    let mut db = RungoDB::New();
    let id = db.InsertEntity(&"c".into(), obj(vec![])).unwrap();
    assert_eq!(id.len(), 36);
    let chars: Vec<char> = id.chars().collect();
    for (i, ch) in chars.iter().enumerate() {
        if i == 8 || i == 13 || i == 18 || i == 23 {
            assert_eq!(*ch, '-');
        } else {
            assert!(ch.is_ascii_hexdigit() && !ch.is_ascii_uppercase());
        }
    }
    assert_eq!(chars[14], '4');
    assert!(matches!(chars[19], '8' | '9' | 'a' | 'b'));
    let stored = db.QueryEntities(&"c".into(), &empty_predicate());
    assert_eq!(stored, vec![obj(vec![("uid", text(&id))])]);
}

#[test]
fn empty_uid_is_replaced() {
    let mut db = RungoDB::New();
    let id = db
        .InsertEntity(&"c".into(), obj(vec![("uid", text("")), ("a", Value::Bool(true))]))
        .unwrap();
    assert_eq!(id.len(), 36);
    let stored = db.QueryEntities(&"c".into(), &uid_predicate(&id));
    assert_eq!(stored, vec![obj(vec![("uid", text(&id)), ("a", Value::Bool(true))])]);
}

#[test]
fn non_text_uid_is_replaced() {
    let mut db = RungoDB::New();
    let id = db
        .InsertEntity(&"c".into(), obj(vec![("uid", Value::Number("7".to_string()))]))
        .unwrap();
    assert_eq!(id.len(), 36);
    let stored = db.QueryEntities(&"c".into(), &empty_predicate());
    assert_eq!(stored, vec![obj(vec![("uid", text(&id))])]);
}

#[test]
fn non_object_entity_is_refused() {
    let mut db = RungoDB::New();
    assert_eq!(db.InsertEntity(&"c".into(), text("loose")), Err(InsertError::ShapeError));
    assert_eq!(db.InsertEntity(&"c".into(), Value::Array(vec![])), Err(InsertError::ShapeError));
    // The container is resolved, as by every operation, but nothing is stored.
    assert_eq!(db.ToJson(), Value::Object(vec![("c".to_string(), Value::Object(vec![]))]));
}

#[test]
fn reinsert_overwrites() {
    let mut db = RungoDB::New();
    db.InsertEntity(&"c".into(), obj(vec![("uid", text("k")), ("v", text("old"))])).unwrap();
    db.InsertEntity(&"c".into(), obj(vec![("uid", text("k")), ("v", text("new"))])).unwrap();
    let all = db.QueryEntities(&"c".into(), &empty_predicate());
    assert_eq!(all, vec![obj(vec![("uid", text("k")), ("v", text("new"))])]);
}

#[test]
fn fast_path_agrees_with_full_scan() {
    let mut db = RungoDB::New();
    let a = obj(vec![("uid", text("a")), ("x", Value::Null)]);
    let b = obj(vec![("uid", text("b")), ("x", Value::Bool(false))]);
    db.InsertEntity(&"c".into(), a).unwrap();
    db.InsertEntity(&"c".into(), b.deep_copy()).unwrap();
    let fast = db.QueryEntities(&"c".into(), &uid_predicate("b"));
    let all = db.QueryEntities(&"c".into(), &empty_predicate());
    let filtered: Vec<Value> =
        all.into_iter().filter(|e| field(e, "uid") == Some(&text("b"))).collect();
    assert_eq!(fast, vec![b]);
    assert_eq!(fast, filtered);
    assert!(db.QueryEntities(&"c".into(), &uid_predicate("zz")).is_empty());
}

#[test]
fn uid_predicate_with_non_text_value_selects_nothing() {
    let mut db = RungoDB::New();
    db.InsertEntity(&"c".into(), obj(vec![("uid", text("a"))])).unwrap();
    let q = obj(vec![("uid", Value::Number("1".to_string()))]);
    assert!(db.QueryEntities(&"c".into(), &q).is_empty());
    db.DeleteEntities(&"c".into(), &q);
    assert_eq!(db.QueryEntities(&"c".into(), &empty_predicate()).len(), 1);
}

#[test]
fn matching_checks_presence_not_values() {
    let mut db = RungoDB::New();
    let p = obj(vec![("uid", text("p")), ("name", text("My project"))]);
    let q = obj(vec![("uid", text("q")), ("size", Value::Number("3".to_string()))]);
    db.InsertEntity(&"c".into(), p.deep_copy()).unwrap();
    db.InsertEntity(&"c".into(), q.deep_copy()).unwrap();
    // The predicate's value differs from the entity's, and the entity still matches.
    let by_name = db.QueryEntities(&"c".into(), &obj(vec![("name", text("Other"))]));
    assert_eq!(by_name, vec![p.deep_copy()]);
    let by_two = db.QueryEntities(
        &"c".into(),
        &obj(vec![("uid", text("x")), ("size", Value::Null)]),
    );
    assert_eq!(by_two, vec![q.deep_copy()]);
    let none = db.QueryEntities(&"c".into(), &obj(vec![("missing", Value::Null)]));
    assert!(none.is_empty());
}

#[test]
fn delete_by_predicate_keeps_the_rest() {
    let mut db = RungoDB::New();
    let p = obj(vec![("uid", text("p")), ("name", text("n"))]);
    let q = obj(vec![("uid", text("q"))]);
    db.InsertEntity(&"c".into(), p).unwrap();
    db.InsertEntity(&"c".into(), q.deep_copy()).unwrap();
    db.DeleteEntities(&"c".into(), &obj(vec![("name", Value::Null)]));
    assert_eq!(db.QueryEntities(&"c".into(), &empty_predicate()), vec![q]);
}

#[test]
fn non_object_predicate_selects_and_deletes_nothing() {
    let mut db = RungoDB::New();
    db.InsertEntity(&"c".into(), obj(vec![("uid", text("a"))])).unwrap();
    assert!(db.QueryEntities(&"c".into(), &text("a")).is_empty());
    db.DeleteEntities(&"c".into(), &Value::Null);
    assert_eq!(db.QueryEntities(&"c".into(), &empty_predicate()).len(), 1);
}

#[test]
fn container_creation_is_idempotent() {
    let mut db = RungoDB::New();
    assert!(db.QueryEntities(&"fresh".into(), &empty_predicate()).is_empty());
    let before = db.ToJson();
    assert_eq!(names(&before), vec!["fresh".to_string()]);
    db.QueryEntities(&"fresh".into(), &empty_predicate());
    db.GetOrCreateContainer(&"fresh".into());
    assert_eq!(db.ToJson(), before);
    assert_eq!(db.GetOrCreateContainer(&"fresh".into()).len(), 0);
}

#[test]
fn delete_all_keeps_container() {
    let mut db = RungoDB::New();
    db.InsertEntity(&"a".into(), obj(vec![("uid", text("1"))])).unwrap();
    db.InsertEntity(&"a".into(), obj(vec![("uid", text("2"))])).unwrap();
    db.InsertEntity(&"b".into(), obj(vec![("uid", text("3"))])).unwrap();
    db.DeleteEntities(&"a".into(), &empty_predicate());
    assert!(db.QueryEntities(&"a".into(), &empty_predicate()).is_empty());
    let export = db.ToJson();
    assert_eq!(names(&export), vec!["a".to_string(), "b".to_string()]);
    assert_eq!(field(&export, "a"), Some(&Value::Object(vec![])));
    db.InsertEntity(&"a".into(), obj(vec![("uid", text("4"))])).unwrap();
    assert_eq!(names(&db.ToJson()), vec!["a".to_string(), "b".to_string()]);
    assert_eq!(db.QueryEntities(&"b".into(), &empty_predicate()).len(), 1);
}

#[test]
fn export_holds_every_entity_under_its_identifier() {
    let mut db = RungoDB::New();
    let e1 = obj(vec![("uid", text("u1")), ("tags", Value::Array(vec![text("x"), Value::Null]))]);
    let e2 = obj(vec![("uid", text("u2")), ("deep", obj(vec![("k", Value::Bool(true))]))]);
    db.InsertEntity(&"one".into(), e1.deep_copy()).unwrap();
    db.InsertEntity(&"two".into(), e2.deep_copy()).unwrap();
    let export = db.ToJson();
    assert_eq!(
        export,
        Value::Object(vec![
            ("one".to_string(), Value::Object(vec![("u1".to_string(), e1)])),
            ("two".to_string(), Value::Object(vec![("u2".to_string(), e2)])),
        ])
    );
}

#[test]
fn deep_copy_is_equal_and_independent() {
    let v = obj(vec![("a", Value::Array(vec![Value::Number("1.5".to_string())]))]);
    let mut c = v.deep_copy();
    assert_eq!(c, v);
    if let Value::Object(fs) = &mut c {
        fs.push(("b".to_string(), Value::Null));
    }
    assert_ne!(c, v);
}

#[test]
fn container_put_and_lookup() {
    let mut c = Container::new();
    c.put("k".to_string(), obj(vec![("uid", text("k"))]));
    assert_eq!(c.len(), 1);
    assert_eq!(c.lookup(&"k".to_string()), vec![obj(vec![("uid", text("k"))])]);
    assert!(c.lookup(&"other".to_string()).is_empty());
}

#[test]
fn export_reads_back_as_the_same_store() {
    let mut db = RungoDB::New();
    db.InsertEntity(&"one".into(), obj(vec![("uid", text("u1")), ("n", Value::Null)])).unwrap();
    db.InsertEntity(&"two".into(), obj(vec![("a", Value::Bool(true))])).unwrap();
    db.QueryEntities(&"three".into(), &empty_predicate());
    let export = db.ToJson();
    let mut back = RungoDB::FromJson(&export).unwrap();
    assert_eq!(back.ToJson(), export);
    assert_eq!(
        back.QueryEntities(&"one".into(), &uid_predicate("u1")),
        vec![obj(vec![("uid", text("u1")), ("n", Value::Null)])]
    );
    assert_eq!(back.QueryEntities(&"two".into(), &empty_predicate()).len(), 1);
}

#[test]
fn import_refuses_malformed_trees() {
    assert!(RungoDB::FromJson(&Value::Null).is_none());
    let scalar_container = Value::Object(vec![("c".to_string(), text("x"))]);
    assert!(RungoDB::FromJson(&scalar_container).is_none());
    let wrong_key = Value::Object(vec![(
        "c".to_string(),
        Value::Object(vec![("k".to_string(), obj(vec![("uid", text("other"))]))]),
    )]);
    assert!(RungoDB::FromJson(&wrong_key).is_none());
    let twice = Value::Object(vec![
        ("c".to_string(), Value::Object(vec![])),
        ("c".to_string(), Value::Object(vec![])),
    ]);
    assert!(RungoDB::FromJson(&twice).is_none());
    let fine = Value::Object(vec![(
        "c".to_string(),
        Value::Object(vec![("k".to_string(), obj(vec![("uid", text("k"))]))]),
    )]);
    assert!(RungoDB::FromJson(&fine).is_some());
}

#[test]
fn insert_with_identifier_stores_under_a_free_identifier() {
    let mut db = RungoDB::New();
    let r = db.insert_with_identifier(&"c".into(), obj(vec![("a", Value::Null)]), "g1".to_string());
    assert_eq!(r, Ok("g1".to_string()));
    assert_eq!(
        db.QueryEntities(&"c".into(), &uid_predicate("g1")),
        vec![obj(vec![("a", Value::Null), ("uid", text("g1"))])]
    );
    let taken =
        db.insert_with_identifier(&"c".into(), obj(vec![("uid", text(""))]), "g1".to_string());
    assert_eq!(taken, Err(InsertError::NoFreshIdentifier));
    assert_eq!(db.QueryEntities(&"c".into(), &empty_predicate()).len(), 1);
    let other =
        db.insert_with_identifier(&"d".into(), obj(vec![("uid", text(""))]), "g1".to_string());
    assert_eq!(other, Ok("g1".to_string()));
    assert_eq!(
        db.QueryEntities(&"d".into(), &empty_predicate()),
        vec![obj(vec![("uid", text("g1"))])]
    );
}

#[test]
fn insert_after_delete_all_succeeds() {
    let mut db = RungoDB::New();
    db.InsertEntity(&"a".into(), obj(vec![("uid", text("1"))])).unwrap();
    db.DeleteEntities(&"a".into(), &empty_predicate());
    let r = db.insert_with_identifier(&"a".into(), obj(vec![]), "1".to_string());
    assert_eq!(r, Ok("1".to_string()));
    let id = db.InsertEntity(&"a".into(), obj(vec![])).unwrap();
    assert_eq!(id.len(), 36);
    assert_eq!(db.QueryEntities(&"a".into(), &empty_predicate()).len(), 2);
}
