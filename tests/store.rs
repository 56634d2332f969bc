use json_store::error::{ApiError, Reason};
use json_store::json::{JsonValue, Number};
use json_store::store::{
    delete_item_by_id, get_item_by_id, get_value, post_item, update_item_by_id, update_value,
    Store,
};

fn num(n: u64) -> JsonValue {
    JsonValue::Number(Number::from_u64(n))
}

fn text(t: &str) -> JsonValue {
    JsonValue::Str(t.to_string())
}

fn obj(members: Vec<(&str, JsonValue)>) -> JsonValue {
    JsonValue::Object(members.into_iter().map(|(k, v)| (k.to_string(), v)).collect())
}

fn user(id: u64, name: &str) -> JsonValue {
    obj(vec![("id", num(id)), ("name", text(name))])
}

fn sample() -> Store {
    let doc = obj(vec![
        ("users", JsonValue::Array(vec![user(1, "ann"), user(2, "bob")])),
        ("title", text("db")),
        ("count", num(3)),
        ("empty", JsonValue::Array(vec![])),
        ("nothing", JsonValue::Null),
    ]);
    Store::load(doc, "id".to_string()).unwrap()
}

fn id_of(v: &JsonValue) -> Option<u64> {
    match v {
        JsonValue::Object(m) => m.iter().find(|(k, _)| k == "id").and_then(|(_, v)| match v {
            JsonValue::Number(n) if n.scale == 0 && !n.neg => Some(n.mag),
            _ => None,
        }),
        _ => None,
    }
}

#[test]
fn delete_then_get_is_not_found() {
    let mut s = sample();
    let removed = delete_item_by_id(&mut s, "users", 1).unwrap();
    assert_eq!(removed, user(1, "ann"));
    assert_eq!(get_item_by_id(&s, "users", 1), Err(ApiError::NotFound));
    assert_eq!(delete_item_by_id(&mut s, "users", 1), Err(ApiError::NotFound));
    assert_eq!(get_item_by_id(&s, "users", 2).unwrap(), user(2, "bob"));
}

#[test]
fn created_ids_are_unique_and_increase() {
    let mut s = sample();
    let a = post_item(&mut s, "users", obj(vec![("name", text("cy"))])).unwrap();
    assert_eq!(id_of(&a), Some(3));
    let b = post_item(&mut s, "users", obj(vec![("id", num(10)), ("name", text("di"))])).unwrap();
    assert_eq!(id_of(&b), Some(10));
    let c = post_item(&mut s, "users", obj(vec![("name", text("ed"))])).unwrap();
    assert_eq!(id_of(&c), Some(11));
    assert_eq!(
        post_item(&mut s, "users", obj(vec![("id", num(2))])),
        Err(ApiError::Conflict)
    );
    let snap = s.snapshot();
    let items = match snap {
        JsonValue::Object(m) => match m.into_iter().find(|(k, _)| k == "users").unwrap().1 {
            JsonValue::Array(v) => v,
            _ => panic!("users is not an array"),
        },
        _ => panic!("document is not an object"),
    };
    let ids: Vec<Option<u64>> = items.iter().map(id_of).collect();
    assert_eq!(ids, vec![Some(1), Some(2), Some(3), Some(10), Some(11)]);
}

#[test]
fn creates_in_empty_collection_number_from_one() {
    let mut s = sample();
    for i in 1..=10u64 {
        let item = post_item(&mut s, "empty", obj(vec![("n", num(i * 7))])).unwrap();
        assert_eq!(id_of(&item), Some(i));
    }
    for i in 1..=10u64 {
        let item = get_item_by_id(&s, "empty", i).unwrap();
        assert_eq!(item, obj(vec![("n", num(i * 7)), ("id", num(i))]));
    }
}

#[test]
fn snapshot_reloads_to_same_document() {
    let s = sample();
    let snap = s.snapshot();
    let again = Store::load(s.snapshot(), "id".to_string()).unwrap();
    assert_eq!(again.snapshot(), snap);
    assert!(!again.is_dirty());
}

#[test]
fn load_refuses_invalid_documents() {
    assert_eq!(
        Store::load(JsonValue::Array(vec![]), "id".to_string()).err(),
        Some(ApiError::Internal)
    );
    let missing = obj(vec![("users", JsonValue::Array(vec![obj(vec![("name", text("x"))])]))]);
    assert_eq!(Store::load(missing, "id".to_string()).err(), Some(ApiError::Internal));
    let twice = obj(vec![("users", JsonValue::Array(vec![user(1, "a"), user(1, "b")]))]);
    assert_eq!(Store::load(twice, "id".to_string()).err(), Some(ApiError::Internal));
    let float_id = obj(vec![(
        "users",
        JsonValue::Array(vec![obj(vec![(
            "id",
            JsonValue::Number(Number { neg: false, mag: 15, scale: 1 }),
        )])]),
    )]);
    assert_eq!(Store::load(float_id, "id".to_string()).err(), Some(ApiError::Internal));
}

#[test]
fn post_item_errors() {
    let mut s = sample();
    assert_eq!(
        post_item(&mut s, "users", num(1)),
        Err(ApiError::BadRequest(Reason::NotObject))
    );
    assert_eq!(
        post_item(&mut s, "users", obj(vec![("id", text("7"))])),
        Err(ApiError::BadRequest(Reason::IdNotUnsigned))
    );
    assert_eq!(
        post_item(&mut s, "title", obj(vec![])),
        Err(ApiError::BadRequest(Reason::NotCollection))
    );
    assert_eq!(post_item(&mut s, "absent", obj(vec![])), Err(ApiError::NotFound));
    assert!(!s.is_dirty());
}

#[test]
fn post_item_without_ids_left() {
    let doc = obj(vec![("xs", JsonValue::Array(vec![obj(vec![("id", num(u64::MAX))])]))]);
    let mut s = Store::load(doc, "id".to_string()).unwrap();
    assert_eq!(
        post_item(&mut s, "xs", obj(vec![])),
        Err(ApiError::BadRequest(Reason::IdExhausted))
    );
}

#[test]
fn update_item_forces_id_and_keeps_position() {
    let mut s = sample();
    let r = update_item_by_id(&mut s, "users", 1, obj(vec![("id", num(99)), ("name", text("amy"))]))
        .unwrap();
    assert_eq!(r, user(1, "amy"));
    assert!(s.is_dirty());
    assert_eq!(get_item_by_id(&s, "users", 1).unwrap(), user(1, "amy"));
    assert_eq!(get_item_by_id(&s, "users", 99), Err(ApiError::NotFound));
    let first = delete_item_by_id(&mut s, "users", 1).unwrap();
    assert_eq!(first, user(1, "amy"));
}

#[test]
fn update_item_of_missing_id_stores_nothing() {
    let mut s = sample();
    let r = update_item_by_id(&mut s, "users", 7, obj(vec![("name", text("zed"))])).unwrap();
    assert_eq!(r, obj(vec![("name", text("zed")), ("id", num(7))]));
    assert!(!s.is_dirty());
    assert_eq!(get_item_by_id(&s, "users", 7), Err(ApiError::NotFound));
    assert_eq!(
        update_item_by_id(&mut s, "users", 1, text("x")),
        Err(ApiError::BadRequest(Reason::NotObject))
    );
}

#[test]
fn scalar_read_and_write() {
    let mut s = sample();
    assert_eq!(get_value(&s, "title").unwrap(), text("db"));
    assert_eq!(get_value(&s, "users"), Err(ApiError::NotFound));
    assert_eq!(get_value(&s, "nothing"), Err(ApiError::NotFound));
    assert_eq!(get_value(&s, "absent"), Err(ApiError::NotFound));
    assert_eq!(update_value(&mut s, "title", text("new")).unwrap(), text("new"));
    assert_eq!(get_value(&s, "title").unwrap(), text("new"));
    assert!(s.is_dirty());
    assert_eq!(
        update_value(&mut s, "title", num(1)),
        Err(ApiError::BadRequest(Reason::TypeMismatch))
    );
    assert_eq!(
        update_value(&mut s, "count", JsonValue::Null),
        Err(ApiError::BadRequest(Reason::ArrayOrNull))
    );
    assert_eq!(
        update_value(&mut s, "count", JsonValue::Array(vec![])),
        Err(ApiError::BadRequest(Reason::ArrayOrNull))
    );
    assert_eq!(update_value(&mut s, "users", num(1)), Err(ApiError::NotFound));
    assert_eq!(
        update_value(&mut s, "count", JsonValue::Number(Number { neg: true, mag: 25, scale: 1 }))
            .unwrap(),
        JsonValue::Number(Number { neg: true, mag: 25, scale: 1 })
    );
}

#[test]
fn collection_errors() {
    let mut s = sample();
    assert_eq!(get_item_by_id(&s, "absent", 1), Err(ApiError::NotFound));
    assert_eq!(
        get_item_by_id(&s, "title", 1),
        Err(ApiError::BadRequest(Reason::NotCollection))
    );
    assert_eq!(
        delete_item_by_id(&mut s, "count", 1),
        Err(ApiError::BadRequest(Reason::NotCollection))
    );
    assert_eq!(delete_item_by_id(&mut s, "users", 5), Err(ApiError::NotFound));
}

#[test]
fn flush_clears_dirty_only_when_nothing_changed() {
    let mut s = sample();
    update_value(&mut s, "title", text("a")).unwrap();
    let (snap, epoch) = s.begin_flush();
    assert_eq!(snap, s.snapshot());
    update_value(&mut s, "title", text("b")).unwrap();
    s.finish_flush(epoch);
    assert!(s.is_dirty());
    let (_, epoch) = s.begin_flush();
    s.finish_flush(epoch);
    assert!(!s.is_dirty());
}
