use json_store::config::Args;
use json_store::error::Reason;
use json_store::json::{JsonValue, Number};
use json_store::persist::{temp_path, PersistAction, PersistEvent, Persistence};
use json_store::routes::{get_name, routes, RouteKind};
use json_store::store::{update_value, Store};
use json_store::text::{compare_text, contains_str, split_char};
use json_store::upload::{extension, plan_upload, upload_target};
use json_store::json::Cmp;

fn obj(members: Vec<(&str, JsonValue)>) -> JsonValue {
    JsonValue::Object(members.into_iter().map(|(k, v)| (k.to_string(), v)).collect())
}

#[test]
fn shutdown_after_mutation_flushes_first() {
    let doc = obj(vec![("title", JsonValue::Str("a".to_string()))]);
    let mut store = Store::load(doc, "id".to_string()).unwrap();
    let mut mgr = Persistence::new();
    assert_eq!(mgr.step(PersistEvent::Tick, store.is_dirty()), PersistAction::Idle);
    update_value(&mut store, "title", JsonValue::Str("b".to_string())).unwrap();
    assert_eq!(mgr.step(PersistEvent::Shutdown, store.is_dirty()), PersistAction::Flush);
    let (snap, epoch) = store.begin_flush();
    assert_eq!(snap, obj(vec![("title", JsonValue::Str("b".to_string()))]));
    store.finish_flush(epoch);
    assert_eq!(mgr.step(PersistEvent::FlushDone(true), store.is_dirty()), PersistAction::Exit);
}

#[test]
fn manager_runs_one_flush_at_a_time() {
    let mut mgr = Persistence::new();
    assert_eq!(mgr.step(PersistEvent::Tick, true), PersistAction::Flush);
    assert_eq!(mgr.step(PersistEvent::Tick, true), PersistAction::Idle);
    assert_eq!(mgr.step(PersistEvent::Shutdown, true), PersistAction::Idle);
    assert_eq!(mgr.step(PersistEvent::FlushDone(true), true), PersistAction::Flush);
    assert_eq!(mgr.step(PersistEvent::FlushDone(false), true), PersistAction::Exit);
    let mut quiet = Persistence::new();
    assert_eq!(quiet.step(PersistEvent::Tick, false), PersistAction::Idle);
    assert_eq!(quiet.step(PersistEvent::Shutdown, false), PersistAction::Exit);
    let mut failing = Persistence::new();
    assert_eq!(failing.step(PersistEvent::Tick, true), PersistAction::Flush);
    assert_eq!(failing.step(PersistEvent::FlushDone(false), true), PersistAction::Idle);
    assert_eq!(failing.step(PersistEvent::Tick, true), PersistAction::Flush);
}

#[test]
fn temporary_file_sits_beside_target() {
    assert_eq!(temp_path("./data.json"), "./data.json.tmp");
    let args = Args {
        bind_address: "0.0.0.0:2901".to_string(),
        db_path: "db.json".to_string(),
        public_path: "./public".to_string(),
        id: "id".to_string(),
        max_body_limit_m: 100,
        debug: false,
    };
    assert_eq!(args.temp_db_path(), "db.json.tmp");
    assert_eq!(args.body_limit_bytes(), 104857600);
    let huge = Args { max_body_limit_m: usize::MAX, ..args };
    assert_eq!(huge.body_limit_bytes(), usize::MAX);
}

#[test]
fn routes_follow_member_kinds() {
    let doc = obj(vec![
        ("posts", JsonValue::Array(vec![])),
        ("nothing", JsonValue::Null),
        ("profile", obj(vec![])),
        ("n", JsonValue::Number(Number::from_u64(1))),
    ]);
    let store = Store::load(doc, "id".to_string()).unwrap();
    assert_eq!(
        routes(&store),
        vec![
            ("posts".to_string(), RouteKind::Collection),
            ("profile".to_string(), RouteKind::Scalar),
            ("n".to_string(), RouteKind::Scalar),
        ]
    );
}

#[test]
fn resource_name_is_first_segment() {
    assert_eq!(get_name("/users/3"), "users");
    assert_eq!(get_name("/profile"), "profile");
}

#[test]
fn upload_names_keep_extension() {
    assert_eq!(extension("photo.final.png"), "png");
    assert_eq!(extension("README"), "README");
    let t = upload_target("./public", "abc", Some("cat.jpg"));
    assert_eq!(t.name, "cat.jpg");
    assert_eq!(t.file_path, "./public/abc.jpg");
    assert_eq!(t.url_path, "/abc.jpg");
    let anon = upload_target("p", "abc", None);
    assert_eq!(anon.name, "abc");
    assert_eq!(anon.url_path, "/abc.abc");
}

#[test]
fn uploads_get_fresh_ids() {
    let a = plan_upload("./public", Some("x.txt"));
    let b = plan_upload("./public", Some("x.txt"));
    assert_eq!(a.url_path.len(), 1 + 36 + 4);
    assert!(a.url_path.ends_with(".txt"));
    assert!(a.file_path.starts_with("./public/"));
    assert_ne!(a.url_path, b.url_path);
    assert_ne!(a.url_path, "/x.txt");
}

#[test]
fn text_helpers() {
    assert_eq!(split_char("a,,b", ','), vec!["a".to_string(), String::new(), "b".to_string()]);
    assert_eq!(split_char("", ','), vec![String::new()]);
    assert!(contains_str("hello", "ell"));
    assert!(contains_str("hello", ""));
    assert!(!contains_str("he", "hello"));
    assert_eq!(compare_text("abc", "abd"), Cmp::Less);
    assert_eq!(compare_text("ab", "a"), Cmp::Greater);
    assert_eq!(compare_text("é", "é"), Cmp::Equal);
}

#[test]
fn reasons_read_as_sentences() {
    assert_eq!(Reason::SliceZeroLimit.message(), "slice limit can not be zero");
    assert_eq!(Reason::NotCollection.message(), "key is not array");
}
