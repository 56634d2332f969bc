use json_store::error::{ApiError, Reason};
use json_store::json::{Cmp, JsonValue, Number};
use json_store::query::{
    filter_items, run_query, sort_by_field, window, Filter, FilterOp, Paginate, Slice, Sort,
};
use json_store::store::{list, Store};

fn num(n: u64) -> JsonValue {
    JsonValue::Number(Number::from_u64(n))
}

fn text(t: &str) -> JsonValue {
    JsonValue::Str(t.to_string())
}

fn obj(members: Vec<(&str, JsonValue)>) -> JsonValue {
    JsonValue::Object(members.into_iter().map(|(k, v)| (k.to_string(), v)).collect())
}

fn params(ps: &[(&str, &str)]) -> Vec<(String, String)> {
    ps.iter().map(|(k, v)| (k.to_string(), v.to_string())).collect()
}

fn sort(fields: &str, order: &str) -> Sort {
    Sort { sort: fields.to_string(), order: order.to_string() }
}

fn numbered(n: u64) -> Vec<JsonValue> {
    (0..n).map(|i| obj(vec![("id", num(i + 1))])).collect()
}

fn ids(items: &[JsonValue]) -> Vec<u64> {
    items
        .iter()
        .map(|v| match v {
            JsonValue::Object(m) => match &m[0].1 {
                JsonValue::Number(n) => n.mag,
                _ => panic!("id is not a number"),
            },
            _ => panic!("item is not an object"),
        })
        .collect()
}

#[test]
fn filter_by_numeric_range() {
    let items = vec![
        obj(vec![("age", num(5))]),
        obj(vec![("age", num(15))]),
        obj(vec![("age", num(25))]),
    ];
    let page = run_query(&items, None, None, None, &params(&[("age_gte", "10"), ("age_lte", "20")]))
        .unwrap();
    assert_eq!(page.items, vec![obj(vec![("age", num(15))])]);
    assert_eq!(page.total, 1);
}

#[test]
fn sort_by_one_key_ascending() {
    let items = vec![obj(vec![("n", text("b"))]), obj(vec![("n", text("a"))]), obj(vec![("n", text("c"))])];
    let page = run_query(&items, None, Some(sort("n", "asc")), None, &params(&[])).unwrap();
    assert_eq!(
        page.items,
        vec![obj(vec![("n", text("a"))]), obj(vec![("n", text("b"))]), obj(vec![("n", text("c"))])]
    );
}

#[test]
fn sort_by_two_keys_orders_by_first() {
    let rows = [(2, 1), (1, 2), (2, 0), (1, 1)];
    let items: Vec<JsonValue> = rows.iter().map(|(x, y)| obj(vec![("x", num(*x)), ("y", num(*y))])).collect();
    let page = run_query(&items, None, Some(sort("x,y", "asc,desc")), None, &params(&[])).unwrap();
    let expect: Vec<JsonValue> = [(1, 2), (1, 1), (2, 1), (2, 0)]
        .iter()
        .map(|(x, y)| obj(vec![("x", num(*x)), ("y", num(*y))]))
        .collect();
    assert_eq!(page.items, expect);
}

#[test]
fn sort_is_stable_and_puts_missing_last() {
    let items = vec![
        obj(vec![("id", num(1))]),
        obj(vec![("id", num(2)), ("k", num(5))]),
        obj(vec![("id", num(3)), ("k", num(1))]),
        obj(vec![("id", num(4)), ("k", num(5))]),
    ];
    let asc = sort_by_field(items, "k", true);
    assert_eq!(ids(&asc), vec![3, 2, 4, 1]);
    let desc = sort_by_field(asc, "k", false);
    assert_eq!(ids(&desc), vec![1, 2, 4, 3]);
}

#[test]
fn sort_key_count_mismatch() {
    let items = numbered(3);
    assert_eq!(
        run_query(&items, None, Some(sort("a,b", "asc")), None, &params(&[])).err(),
        Some(ApiError::BadRequest(Reason::SortOrderMismatch))
    );
}

#[test]
fn second_page_of_twenty_five() {
    let items = numbered(25);
    let second = Paginate { page: Some(2), size: Some(20) };
    let page = run_query(&items, Some(second), None, None, &params(&[])).unwrap();
    assert_eq!(ids(&page.items), vec![21, 22, 23, 24, 25]);
    assert_eq!(page.total, 25);
    let third = Paginate { page: Some(3), size: Some(20) };
    let page = run_query(&items, Some(third), None, None, &params(&[])).unwrap();
    assert!(page.items.is_empty());
    assert_eq!(page.total, 25);
}

#[test]
fn default_window_and_page_zero() {
    let items = numbered(25);
    let page = run_query(&items, None, None, None, &params(&[])).unwrap();
    assert_eq!(page.items.len(), 20);
    let page_zero = Paginate { page: Some(0), size: Some(3) };
    let page = run_query(&items, Some(page_zero), None, None, &params(&[])).unwrap();
    assert_eq!(ids(&page.items), vec![1, 2, 3]);
    let huge = Paginate { page: Some(usize::MAX), size: Some(usize::MAX) };
    assert_eq!(window(Some(huge), None, 25), Ok((25, 25)));
}

#[test]
fn slice_past_the_end() {
    let items = numbered(12);
    let sl = Slice { start: 10, end: None, limit: Some(5) };
    let page = run_query(&items, None, None, Some(sl), &params(&[])).unwrap();
    assert_eq!(ids(&page.items), vec![11, 12]);
    assert_eq!(page.total, 12);
    let sl = Slice { start: 2, end: Some(4), limit: None };
    let page = run_query(&items, None, None, Some(sl), &params(&[])).unwrap();
    assert_eq!(ids(&page.items), vec![3, 4]);
}

#[test]
fn paginate_and_slice_together_fail() {
    let items = numbered(5);
    let p = Paginate { page: Some(1), size: None };
    let sl = Slice { start: 0, end: Some(2), limit: None };
    assert_eq!(
        run_query(&items, Some(p), None, Some(sl), &params(&[])).err(),
        Some(ApiError::BadRequest(Reason::PaginateAndSlice))
    );
    let unset = Paginate { page: None, size: None };
    assert!(run_query(&items, Some(unset), None, Some(sl), &params(&[])).is_ok());
}

#[test]
fn malformed_slices() {
    assert_eq!(
        window(None, Some(Slice { start: 5, end: Some(2), limit: None }), 10),
        Err(ApiError::BadRequest(Reason::SliceStartAfterEnd))
    );
    assert_eq!(
        window(None, Some(Slice { start: 0, end: None, limit: Some(0) }), 10),
        Err(ApiError::BadRequest(Reason::SliceZeroLimit))
    );
    assert_eq!(
        window(None, Some(Slice { start: 0, end: None, limit: None }), 10),
        Err(ApiError::BadRequest(Reason::SliceWithoutBound))
    );
}

#[test]
fn filter_operators() {
    let items = vec![
        obj(vec![("id", num(1)), ("name", text("alpha")), ("tags", JsonValue::Array(vec![text("x")])), ("ok", JsonValue::Bool(true))]),
        obj(vec![("id", num(2)), ("name", text("beta")), ("tags", JsonValue::Array(vec![text("y")])), ("ok", JsonValue::Bool(false))]),
        obj(vec![("id", num(3)), ("name", text("gamma"))]),
    ];
    let q = |ps: &[(&str, &str)]| ids(&run_query(&items, None, None, None, &params(ps)).unwrap().items);
    assert_eq!(q(&[("name", "beta")]), vec![2]);
    assert_eq!(q(&[("name_ne", "beta")]), vec![1, 3]);
    assert_eq!(q(&[("id_lt", "2")]), vec![1]);
    assert_eq!(q(&[("id_gt", "1.5")]), vec![2, 3]);
    assert_eq!(q(&[("id_gte", "abc")]), Vec::<u64>::new());
    assert_eq!(q(&[("name_like", "mm")]), vec![3]);
    assert_eq!(q(&[("name_nlike", "a")]), Vec::<u64>::new());
    assert_eq!(q(&[("tags_contains", "x")]), vec![1]);
    assert_eq!(q(&[("tags_ncontains", "x")]), vec![2]);
    assert_eq!(q(&[("tags_exists", "")]), vec![1, 2]);
    assert_eq!(q(&[("tags_nexists", "")]), vec![3]);
    assert_eq!(q(&[("ok", "false")]), vec![2]);
    assert_eq!(q(&[("ok", "maybe")]), vec![1, 2]);
    assert_eq!(q(&[("id", "2.0")]), vec![2]);
    assert_eq!(q(&[("id_gte", "0.2e1")]), vec![2, 3]);
    assert_eq!(q(&[("_page", "1"), ("id_ne", "3")]), vec![1, 2]);
}

#[test]
fn filter_keys_select_operators() {
    let f = Filter::from_param("price_lte", "10");
    assert_eq!(f.field, "price");
    assert_eq!(f.op, FilterOp::Lte);
    assert_eq!(f.operand, "10");
    assert_eq!(Filter::from_param("a_nlike", "").op, FilterOp::NotLike);
    assert_eq!(Filter::from_param("a_ncontains", "").op, FilterOp::NotContains);
    assert_eq!(Filter::from_param("a_nexists", "").op, FilterOp::NotExists);
    let plain = Filter::from_param("name", "x");
    assert_eq!(plain.field, "name");
    assert_eq!(plain.op, FilterOp::Eq);
    let kept = filter_items(&vec![obj(vec![("a", num(1))]), obj(vec![("b", num(1))])], &vec![Filter::from_param("a_exists", "")]);
    assert_eq!(kept, vec![obj(vec![("a", num(1))])]);
}

#[test]
fn list_reads_the_collection() {
    let doc = obj(vec![("xs", JsonValue::Array(numbered(30))), ("s", text("v"))]);
    let store = Store::load(doc, "id".to_string()).unwrap();
    let page = list(&store, "xs", None, Some(sort("id", "desc")), None, &params(&[("id_gt", "5")])).unwrap();
    assert_eq!(page.total, 25);
    assert_eq!(ids(&page.items)[0], 30);
    assert_eq!(page.items.len(), 20);
    assert_eq!(list(&store, "s", None, None, None, &params(&[])).err(), Some(ApiError::BadRequest(Reason::NotCollection)));
    assert_eq!(list(&store, "none", None, None, None, &params(&[])).err(), Some(ApiError::NotFound));
}

#[test]
fn decimal_numbers_parse_and_compare() {
    assert_eq!(Number::parse("12"), Some(Number { neg: false, mag: 12, scale: 0 }));
    assert_eq!(Number::parse("-1.50"), Some(Number { neg: true, mag: 150, scale: 2 }));
    assert_eq!(Number::parse("-0"), Some(Number { neg: false, mag: 0, scale: 0 }));
    assert_eq!(Number::parse("18446744073709551615"), Some(Number::from_u64(u64::MAX)));
    assert_eq!(Number::parse("18446744073709551616"), None);
    assert_eq!(Number::parse("1."), None);
    assert_eq!(Number::parse(".5"), None);
    assert_eq!(Number::parse("1e3"), Some(Number { neg: false, mag: 1000, scale: 0 }));
    assert_eq!(Number::parse("1.5e-3"), Some(Number { neg: false, mag: 15, scale: 4 }));
    assert_eq!(Number::parse("-2.5E+1"), Some(Number { neg: true, mag: 25, scale: 0 }));
    assert_eq!(Number::parse("1e20"), None);
    assert_eq!(Number::parse("1e-30"), None);
    assert_eq!(Number::parse("1e"), None);
    assert_eq!(Number::parse("e5"), None);
    assert_eq!(Number::parse("1e5000"), None);
    assert_eq!(Number::parse(""), None);
    let a = Number::parse("1.5").unwrap();
    let b = Number::parse("1.25").unwrap();
    let c = Number::parse("-3").unwrap();
    assert_eq!(a.compare(&b), Cmp::Greater);
    assert_eq!(b.compare(&a), Cmp::Less);
    assert_eq!(c.compare(&b), Cmp::Less);
    assert_eq!(Number::parse("2.50").unwrap().compare(&Number::parse("2.5").unwrap()), Cmp::Equal);
}
