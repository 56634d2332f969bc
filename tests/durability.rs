use std::sync::Arc;

use json_store::json::{JsonValue, Number};
use json_store::store::{get_item_by_id, post_item, Store};
use serde_json::Value;

fn to_value(v: &JsonValue) -> Value {
    match v {
        JsonValue::Null => Value::Null,
        JsonValue::Bool(b) => Value::Bool(*b),
        JsonValue::Number(n) if n.scale == 0 && !n.neg => Value::from(n.mag),
        JsonValue::Number(n) if n.scale == 0 => Value::from(-(n.mag as i64)),
        JsonValue::Number(n) => {
            let m = n.mag as f64 / 10f64.powi(n.scale as i32);
            Value::from(if n.neg { -m } else { m })
        }
        JsonValue::Str(s) => Value::String(s.clone()),
        JsonValue::Array(items) => Value::Array(items.iter().map(to_value).collect()),
        JsonValue::Object(m) => Value::Object(m.iter().map(|(k, v)| (k.clone(), to_value(v))).collect()),
    }
}

fn from_value(v: Value) -> JsonValue {
    match v {
        Value::Null => JsonValue::Null,
        Value::Bool(b) => JsonValue::Bool(b),
        Value::Number(n) => match (n.as_u64(), n.as_i64()) {
            (Some(u), _) => JsonValue::Number(Number::from_u64(u)),
            (None, Some(i)) => JsonValue::Number(Number { neg: true, mag: i.unsigned_abs(), scale: 0 }),
            _ => JsonValue::Number(Number::parse(&n.to_string()).unwrap()),
        },
        Value::String(s) => JsonValue::Str(s),
        Value::Array(items) => JsonValue::Array(items.into_iter().map(from_value).collect()),
        Value::Object(m) => JsonValue::Object(m.into_iter().map(|(k, v)| (k, from_value(v))).collect()),
    }
}

fn sorted_members(v: JsonValue) -> JsonValue {
    match v {
        JsonValue::Object(mut m) => {
            m.sort_by(|a, b| a.0.cmp(&b.0));
            JsonValue::Object(m.into_iter().map(|(k, v)| (k, sorted_members(v))).collect())
        }
        JsonValue::Array(items) => JsonValue::Array(items.into_iter().map(sorted_members).collect()),
        other => other,
    }
}

#[test]
fn snapshot_survives_serialisation() {
    let text = r#"{"posts":[{"id":1,"title":"a","score":-2.5,"tags":["x"]},{"id":2,"draft":true}],"profile":{"name":"n"},"count":-3,"nothing":null}"#;
    let store = Store::load(from_value(serde_json::from_str(text).unwrap()), "id".to_string()).unwrap();
    let written = serde_json::to_string(&to_value(&store.snapshot())).unwrap();
    let reread: Value = serde_json::from_str(&written).unwrap();
    let again = Store::load(from_value(reread), "id".to_string()).unwrap();
    assert_eq!(sorted_members(again.snapshot()), sorted_members(store.snapshot()));
    assert_eq!(serde_json::from_str::<Value>(&written).unwrap(), serde_json::from_str::<Value>(text).unwrap());
}

#[test]
fn concurrent_creates_get_distinct_ids() {
    let doc = JsonValue::Object(vec![("xs".to_string(), JsonValue::Array(vec![]))]);
    let store = Arc::new(tokio::sync::RwLock::new(Store::load(doc, "id".to_string()).unwrap()));
    let runtime = tokio::runtime::Builder::new_multi_thread().worker_threads(4).build().unwrap();
    let n: u64 = 64;
    let mut ids: Vec<u64> = runtime.block_on(async {
        let mut tasks = Vec::new();
        for _ in 0..n {
            let store = store.clone();
            tasks.push(tokio::spawn(async move {
                let mut guard = store.write().await;
                match post_item(&mut guard, "xs", JsonValue::Object(vec![])).unwrap() {
                    JsonValue::Object(m) => match &m[0].1 {
                        JsonValue::Number(x) => x.mag,
                        _ => panic!("id is not a number"),
                    },
                    _ => panic!("item is not an object"),
                }
            }));
        }
        let mut out = Vec::new();
        for t in tasks {
            out.push(t.await.unwrap());
        }
        out
    });
    ids.sort();
    assert_eq!(ids, (1..=n).collect::<Vec<u64>>());
    let guard = runtime.block_on(store.read());
    for i in 1..=n {
        assert!(get_item_by_id(&guard, "xs", i).is_ok());
    }
}
