//! The query engine: filter predicates, multi-key sort and the result window
//! over a snapshot of a collection.

use vstd::prelude::*;

use crate::error::{ApiError, Reason};
use crate::json::{
    get_member, number_of, lemma_view_values, lemma_view_values_insert,
    lemma_view_values_remove, member, view_values, Cmp, Json, JsonValue, Number,
};
use crate::text::{
    chars_of, compare_text, contains_str, contains_text, ends_with, has_suffix, split_char,
    split_on, str_eq, text_cmp, texts,
};

verus! {

/// The number of items a page holds when no size is given.
pub const DEFAULT_PAGE_SIZE: usize = 20;

/// The operator that a filter key selects by its suffix.
#[derive(Clone, Copy, Debug, PartialEq, Eq, Structural)]
pub enum FilterOp {
    Eq,
    Ne,
    Lt,
    Lte,
    Gt,
    Gte,
    Like,
    NotLike,
    Contains,
    NotContains,
    Exists,
    NotExists,
}

/// One filter predicate: the item field it reads, its operator and its operand.
#[derive(Debug)]
pub struct Filter {
    pub field: String,
    pub op: FilterOp,
    pub operand: String,
}

/// The field a filter key names, and the operator its suffix selects.
pub open spec fn op_of_key(key: Seq<char>) -> (Seq<char>, FilterOp) {
    if has_suffix(key, "_lte"@) {
        (key.subrange(0, key.len() - 4), FilterOp::Lte)
    } else if has_suffix(key, "_gte"@) {
        (key.subrange(0, key.len() - 4), FilterOp::Gte)
    } else if has_suffix(key, "_lt"@) {
        (key.subrange(0, key.len() - 3), FilterOp::Lt)
    } else if has_suffix(key, "_gt"@) {
        (key.subrange(0, key.len() - 3), FilterOp::Gt)
    } else if has_suffix(key, "_ne"@) {
        (key.subrange(0, key.len() - 3), FilterOp::Ne)
    } else if has_suffix(key, "_like"@) {
        (key.subrange(0, key.len() - 5), FilterOp::Like)
    } else if has_suffix(key, "_nlike"@) {
        (key.subrange(0, key.len() - 6), FilterOp::NotLike)
    } else if has_suffix(key, "_contains"@) {
        (key.subrange(0, key.len() - 9), FilterOp::Contains)
    } else if has_suffix(key, "_ncontains"@) {
        (key.subrange(0, key.len() - 10), FilterOp::NotContains)
    } else if has_suffix(key, "_exists"@) {
        (key.subrange(0, key.len() - 7), FilterOp::Exists)
    } else if has_suffix(key, "_nexists"@) {
        (key.subrange(0, key.len() - 8), FilterOp::NotExists)
    } else {
        (key, FilterOp::Eq)
    }
}

/// Whether a query parameter is reserved for sort and window controls.
pub open spec fn is_reserved(key: Seq<char>) -> bool {
    key.len() > 0 && key[0] == '_'
}

/// The boolean that a text writes, if it writes one.
pub open spec fn bool_of(t: Seq<char>) -> Option<bool> {
    if t == "true"@ {
        Some(true)
    } else if t == "false"@ {
        Some(false)
    } else {
        None
    }
}

/// The value of field `f` of an item, if the item is an object that has it.
pub open spec fn field_value(item: Json, f: Seq<char>) -> Option<Json> {
    match item {
        Json::Obj(m) => member(m, f),
        _ => None,
    }
}

/// How a number stands to a numeric operand, if both are well formed.
pub open spec fn num_vs(n: Number, operand: Seq<char>) -> Option<Cmp> {
    match number_of(operand) {
        Some(o) => if n.wf() {
            Some(n.cmp_spec(o))
        } else {
            None
        },
        None => None,
    }
}

/// Whether an array holds the string `t`.
pub open spec fn has_text_elem(a: Seq<Json>, t: Seq<char>) -> bool {
    exists|i: int| 0 <= i < a.len() && a[i] == Json::Str(t)
}

/// Whether a present field value `x` passes operator `op` with `operand`.
pub open spec fn value_passes(x: Json, op: FilterOp, operand: Seq<char>) -> bool {
    match op {
        FilterOp::Eq => match x {
            Json::Str(s) => s == operand,
            Json::Num(n) => !(num_vs(n, operand) matches Some(c) && c != Cmp::Equal),
            Json::Bool(b) => !(bool_of(operand) matches Some(o) && o != b),
            _ => true,
        },
        FilterOp::Ne => match x {
            Json::Str(s) => s != operand,
            Json::Num(n) => num_vs(n, operand) != Some(Cmp::Equal),
            Json::Bool(b) => bool_of(operand) != Some(b),
            _ => true,
        },
        FilterOp::Lt | FilterOp::Lte | FilterOp::Gt | FilterOp::Gte => {
            if number_of(operand) is None {
                false
            } else {
                match x {
                    Json::Num(n) => match num_vs(n, operand) {
                        Some(c) => match op {
                            FilterOp::Lt => c == Cmp::Less,
                            FilterOp::Lte => c != Cmp::Greater,
                            FilterOp::Gt => c == Cmp::Greater,
                            _ => c != Cmp::Less,
                        },
                        None => true,
                    },
                    _ => true,
                }
            }
        },
        FilterOp::Like => match x {
            Json::Str(s) => contains_text(s, operand),
            _ => false,
        },
        FilterOp::NotLike => match x {
            Json::Str(s) => !contains_text(s, operand),
            _ => false,
        },
        FilterOp::Contains => match x {
            Json::Arr(a) => has_text_elem(a, operand),
            _ => false,
        },
        FilterOp::NotContains => match x {
            Json::Arr(a) => !has_text_elem(a, operand),
            _ => false,
        },
        FilterOp::Exists | FilterOp::NotExists => true,
    }
}

/// Whether an item passes one filter predicate. A missing field passes only
/// `NotExists`.
pub open spec fn passes(item: Json, f: Seq<char>, op: FilterOp, operand: Seq<char>) -> bool {
    match field_value(item, f) {
        None => op == FilterOp::NotExists,
        Some(x) => op != FilterOp::NotExists && value_passes(x, op, operand),
    }
}

impl Filter {
    pub open spec fn holds_for(&self, item: Json) -> bool {
        passes(item, self.field@, self.op, self.operand@)
    }
}

/// Whether an item passes every filter.
pub open spec fn passes_all(item: Json, fs: Seq<Filter>) -> bool {
    forall|i: int| 0 <= i < fs.len() ==> #[trigger] fs[i].holds_for(item)
}

/// The items of `s` that satisfy `p`, in their order.
pub open spec fn kept(s: Seq<Json>, p: spec_fn(Json) -> bool) -> Seq<Json>
    decreases s.len(),
{
    if s.len() == 0 {
        Seq::empty()
    } else if p(s.last()) {
        kept(s.drop_last(), p).push(s.last())
    } else {
        kept(s.drop_last(), p)
    }
}

/// Whether an item passes every filter that the query parameters state;
/// parameters whose key starts with `_` state none.
pub open spec fn passes_params(item: Json, params: Seq<(String, String)>) -> bool {
    forall|i: int|
        0 <= i < params.len() && !is_reserved(#[trigger] params[i].0@) ==> passes(
            item,
            op_of_key(params[i].0@).0,
            op_of_key(params[i].0@).1,
            params[i].1@,
        )
}

impl Filter {
    /// The filter that a query parameter `key=value` states.
    pub fn from_param(key: &str, value: &str) -> (r: Filter)
        ensures
            (r.field@, r.op) == op_of_key(key@),
            r.operand@ == value@,
    {
        let c = chars_of(key);
        proof {
            reveal_strlit("_lte");
            reveal_strlit("_gte");
            reveal_strlit("_lt");
            reveal_strlit("_gt");
            reveal_strlit("_ne");
            reveal_strlit("_like");
            reveal_strlit("_nlike");
            reveal_strlit("_contains");
            reveal_strlit("_ncontains");
            reveal_strlit("_exists");
            reveal_strlit("_nexists");
        }
        let (n, op): (usize, FilterOp) = if ends_with(&c, &chars_of("_lte")) {
            (4, FilterOp::Lte)
        } else if ends_with(&c, &chars_of("_gte")) {
            (4, FilterOp::Gte)
        } else if ends_with(&c, &chars_of("_lt")) {
            (3, FilterOp::Lt)
        } else if ends_with(&c, &chars_of("_gt")) {
            (3, FilterOp::Gt)
        } else if ends_with(&c, &chars_of("_ne")) {
            (3, FilterOp::Ne)
        } else if ends_with(&c, &chars_of("_like")) {
            (5, FilterOp::Like)
        } else if ends_with(&c, &chars_of("_nlike")) {
            (6, FilterOp::NotLike)
        } else if ends_with(&c, &chars_of("_contains")) {
            (9, FilterOp::Contains)
        } else if ends_with(&c, &chars_of("_ncontains")) {
            (10, FilterOp::NotContains)
        } else if ends_with(&c, &chars_of("_exists")) {
            (7, FilterOp::Exists)
        } else if ends_with(&c, &chars_of("_nexists")) {
            (8, FilterOp::NotExists)
        } else {
            (0, FilterOp::Eq)
        };
        let field = key.substring_char(0, c.len() - n).to_owned();
        if n == 0 {
            assert(field@ =~= key@);
        }
        Filter { field, op, operand: value.to_owned() }
    }

    /// Whether an item passes this filter.
    pub fn holds(&self, item: &JsonValue) -> (r: bool)
        ensures
            r == self.holds_for(item@),
    {
        let v = match item {
            JsonValue::Object(m) => get_member(m, self.field.as_str()),
            _ => None,
        };
        match v {
            None => self.op == FilterOp::NotExists,
            Some(x) => self.op != FilterOp::NotExists && value_holds(x, self.op, self.operand.as_str()),
        }
    }
}

/// The boolean that a text writes, if it writes one.
pub fn parse_bool(t: &str) -> (r: Option<bool>)
    ensures
        r == bool_of(t@),
{
    if str_eq(t, "true") {
        Some(true)
    } else if str_eq(t, "false") {
        Some(false)
    } else {
        None
    }
}

/// How a number stands to a numeric operand.
fn number_vs(n: &Number, operand: &str) -> (r: Option<Cmp>)
    ensures
        r == num_vs(*n, operand@),
{
    match Number::parse(operand) {
        Some(o) => if n.is_wf() {
            Some(n.compare(&o))
        } else {
            None
        },
        None => None,
    }
}

/// Whether an array holds the string `t`.
fn holds_text(a: &Vec<JsonValue>, t: &str) -> (r: bool)
    ensures
        r == has_text_elem(view_values(a@), t@),
{
    proof {
        lemma_view_values(a@);
    }
    let mut i: usize = 0;
    while i < a.len()
        invariant
            0 <= i <= a@.len(),
            view_values(a@).len() == a@.len(),
            forall|j: int| 0 <= j < a@.len() ==> #[trigger] view_values(a@)[j] == a@[j]@,
            forall|j: int| 0 <= j < i ==> view_values(a@)[j] != Json::Str(t@),
        decreases a.len() - i,
    {
        assert(view_values(a@)[i as int] == a@[i as int]@);
        if let JsonValue::Str(s) = &a[i] {
            if str_eq(s.as_str(), t) {
                return true;
            }
        }
        i = i + 1;
    }
    false
}

/// Whether a present field value passes an operator.
fn value_holds(x: &JsonValue, op: FilterOp, operand: &str) -> (r: bool)
    ensures
        r == value_passes(x@, op, operand@),
{
    match op {
        FilterOp::Eq => match x {
            JsonValue::Str(s) => str_eq(s.as_str(), operand),
            JsonValue::Number(n) => match number_vs(n, operand) {
                Some(c) => c == Cmp::Equal,
                None => true,
            },
            JsonValue::Bool(b) => match parse_bool(operand) {
                Some(o) => o == *b,
                None => true,
            },
            _ => true,
        },
        FilterOp::Ne => match x {
            JsonValue::Str(s) => !str_eq(s.as_str(), operand),
            JsonValue::Number(n) => match number_vs(n, operand) {
                Some(c) => c != Cmp::Equal,
                None => true,
            },
            JsonValue::Bool(b) => match parse_bool(operand) {
                Some(o) => o != *b,
                None => true,
            },
            _ => true,
        },
        FilterOp::Lt | FilterOp::Lte | FilterOp::Gt | FilterOp::Gte => {
            if Number::parse(operand).is_none() {
                false
            } else {
                match x {
                    JsonValue::Number(n) => match number_vs(n, operand) {
                        Some(c) => match op {
                            FilterOp::Lt => c == Cmp::Less,
                            FilterOp::Lte => c != Cmp::Greater,
                            FilterOp::Gt => c == Cmp::Greater,
                            _ => c != Cmp::Less,
                        },
                        None => true,
                    },
                    _ => true,
                }
            }
        },
        FilterOp::Like => match x {
            JsonValue::Str(s) => contains_str(s.as_str(), operand),
            _ => false,
        },
        FilterOp::NotLike => match x {
            JsonValue::Str(s) => !contains_str(s.as_str(), operand),
            _ => false,
        },
        FilterOp::Contains => match x {
            JsonValue::Array(a) => holds_text(a, operand),
            _ => false,
        },
        FilterOp::NotContains => match x {
            JsonValue::Array(a) => !holds_text(a, operand),
            _ => false,
        },
        FilterOp::Exists | FilterOp::NotExists => true,
    }
}

/// Whether an item passes every filter.
pub fn holds_all(item: &JsonValue, fs: &Vec<Filter>) -> (r: bool)
    ensures
        r == passes_all(item@, fs@),
{
    let mut i: usize = 0;
    while i < fs.len()
        invariant
            0 <= i <= fs@.len(),
            forall|j: int| 0 <= j < i ==> #[trigger] fs@[j].holds_for(item@),
        decreases fs.len() - i,
    {
        if !fs[i].holds(item) {
            return false;
        }
        i = i + 1;
    }
    true
}

/// Copies of the items that pass every filter, in their order.
pub fn filter_items(items: &Vec<JsonValue>, fs: &Vec<Filter>) -> (r: Vec<JsonValue>)
    ensures
        view_values(r@) == kept(view_values(items@), |x: Json| passes_all(x, fs@)),
{
    proof {
        lemma_view_values(items@);
    }
    let mut r: Vec<JsonValue> = Vec::new();
    let mut i: usize = 0;
    while i < items.len()
        invariant
            0 <= i <= items@.len(),
            view_values(items@).len() == items@.len(),
            forall|j: int| 0 <= j < items@.len() ==> #[trigger] view_values(items@)[j] == items@[j]@,
            view_values(r@) == kept(
                view_values(items@).subrange(0, i as int),
                |x: Json| passes_all(x, fs@),
            ),
        decreases items.len() - i,
    {
        let ghost pre = view_values(items@).subrange(0, i as int);
        let ghost next = view_values(items@).subrange(0, i + 1);
        assert(next.drop_last() =~= pre);
        assert(next.last() == items@[i as int]@);
        if holds_all(&items[i], fs) {
            let c = items[i].deep_copy();
            let ghost prev = r@;
            r.push(c);
            proof {
                lemma_view_values(r@);
                lemma_view_values(prev);
                assert(view_values(r@) =~= view_values(prev).push(c@));
            }
        }
        i = i + 1;
    }
    assert(view_values(items@).subrange(0, i as int) =~= view_values(items@));
    r
}

/// Order of two present field values: numbers by value, strings
/// lexicographically, booleans with `false` first; values of different kinds
/// are equal.
pub open spec fn value_cmp(a: Json, b: Json) -> Cmp {
    match (a, b) {
        (Json::Num(x), Json::Num(y)) => if x.wf() && y.wf() {
            x.cmp_spec(y)
        } else {
            Cmp::Equal
        },
        (Json::Str(x), Json::Str(y)) => text_cmp(x, y),
        (Json::Bool(x), Json::Bool(y)) => if x == y {
            Cmp::Equal
        } else if !x {
            Cmp::Less
        } else {
            Cmp::Greater
        },
        _ => Cmp::Equal,
    }
}

/// Ascending order of two field values, a missing value last.
pub open spec fn key_cmp(a: Option<Json>, b: Option<Json>) -> Cmp {
    match (a, b) {
        (None, None) => Cmp::Equal,
        (None, Some(_)) => Cmp::Greater,
        (Some(_), None) => Cmp::Less,
        (Some(x), Some(y)) => value_cmp(x, y),
    }
}

/// Order of two items by field `f`, ascending or descending.
pub open spec fn item_cmp(a: Json, b: Json, f: Seq<char>, asc: bool) -> Cmp {
    let c = key_cmp(field_value(a, f), field_value(b, f));
    if asc {
        c
    } else {
        c.flip()
    }
}

/// No item of `s` is followed directly by one that sorts before it.
pub open spec fn in_order(s: Seq<Json>, f: Seq<char>, asc: bool) -> bool {
    forall|i: int| 0 <= i < s.len() - 1 ==> #[trigger] item_cmp(s[i], s[i + 1], f, asc) != Cmp::Greater
}

/// The kind of a field value for ordering: `1` for a well-formed number,
/// `2` for a string, `3` for a boolean, `0` for anything else.
pub open spec fn kind_tag(v: Json) -> int {
    match v {
        Json::Num(n) => if n.wf() {
            1
        } else {
            0
        },
        Json::Str(_) => 2,
        Json::Bool(_) => 3,
        _ => 0,
    }
}

/// Every present value of field `f` in `s` has the kind `k`.
pub open spec fn uniform(s: Seq<Json>, f: Seq<char>, k: int) -> bool {
    forall|i: int|
        0 <= i < s.len() ==> (field_value(#[trigger] s[i], f) matches Some(v) ==> kind_tag(v) == k)
}

/// Ascending order of field values of one kind is transitive.
proof fn lemma_key_le_trans(a: Option<Json>, b: Option<Json>, c: Option<Json>, k: int)
    requires
        1 <= k <= 3,
        a matches Some(v) ==> kind_tag(v) == k,
        b matches Some(v) ==> kind_tag(v) == k,
        c matches Some(v) ==> kind_tag(v) == k,
        key_cmp(a, b) != Cmp::Greater,
        key_cmp(b, c) != Cmp::Greater,
    ensures
        key_cmp(a, c) != Cmp::Greater,
{
    if let (Some(x), Some(y), Some(z)) = (a, b, c) {
        match (x, y, z) {
            (Json::Num(p), Json::Num(q), Json::Num(r)) => {
                crate::json::lemma_number_le_trans(p, q, r);
            },
            (Json::Str(p), Json::Str(q), Json::Str(r)) => {
                crate::text::lemma_text_le_trans(p, q, r);
            },
            _ => {},
        }
    }
}

/// Where every present value of field `f` is of one kind (all numbers, all
/// strings or all booleans), a sequence in order is sorted: no item sorts
/// after any later one.
pub proof fn law_in_order_is_sorted(s: Seq<Json>, f: Seq<char>, asc: bool, k: int)
    requires
        in_order(s, f, asc),
        1 <= k <= 3,
        uniform(s, f, k),
    ensures
        forall|i: int, j: int|
            0 <= i < j < s.len() ==> #[trigger] item_cmp(s[i], s[j], f, asc) != Cmp::Greater,
{
    assert forall|i: int, j: int| 0 <= i < j < s.len() implies #[trigger] item_cmp(
        s[i],
        s[j],
        f,
        asc,
    ) != Cmp::Greater by {
        lemma_sorted_from(s, f, asc, k, i, j);
    }
}

proof fn lemma_sorted_from(s: Seq<Json>, f: Seq<char>, asc: bool, k: int, i: int, j: int)
    requires
        in_order(s, f, asc),
        1 <= k <= 3,
        uniform(s, f, k),
        0 <= i < j < s.len(),
    ensures
        item_cmp(s[i], s[j], f, asc) != Cmp::Greater,
    decreases j - i,
{
    let m = j - 1;
    assert(item_cmp(s[m], s[m + 1], f, asc) != Cmp::Greater);
    if i < m {
        lemma_sorted_from(s, f, asc, k, i, m);
        let (a, b, c) = (field_value(s[i], f), field_value(s[m], f), field_value(s[j], f));
        assert(uniform(s, f, k));
        assert(a matches Some(v) ==> kind_tag(v) == k);
        assert(b matches Some(v) ==> kind_tag(v) == k);
        assert(c matches Some(v) ==> kind_tag(v) == k);
        if asc {
            lemma_key_le_trans(a, b, c, k);
        } else {
            lemma_item_cmp_flip(s[i], s[m], f, true);
            lemma_item_cmp_flip(s[m], s[j], f, true);
            lemma_item_cmp_flip(s[i], s[j], f, true);
            lemma_key_le_trans(c, b, a, k);
        }
    }
}

pub proof fn lemma_item_cmp_flip(a: Json, b: Json, f: Seq<char>, asc: bool)
    ensures
        item_cmp(b, a, f, asc) == item_cmp(a, b, f, asc).flip(),
{
    if let (Some(Json::Str(x)), Some(Json::Str(y))) = (field_value(a, f), field_value(b, f)) {
        crate::text::lemma_text_cmp_flip(x, y);
    }
}

/// Orders two items by field `f`.
pub fn compare_items(a: &JsonValue, b: &JsonValue, f: &str, asc: bool) -> (r: Cmp)
    ensures
        r == item_cmp(a@, b@, f@, asc),
{
    let x = match a {
        JsonValue::Object(m) => get_member(m, f),
        _ => None,
    };
    let y = match b {
        JsonValue::Object(m) => get_member(m, f),
        _ => None,
    };
    let c = match (x, y) {
        (None, None) => Cmp::Equal,
        (None, Some(_)) => Cmp::Greater,
        (Some(_), None) => Cmp::Less,
        (Some(p), Some(q)) => match (p, q) {
            (JsonValue::Number(u), JsonValue::Number(v)) => if u.is_wf() && v.is_wf() {
                u.compare(v)
            } else {
                Cmp::Equal
            },
            (JsonValue::Str(u), JsonValue::Str(v)) => compare_text(u.as_str(), v.as_str()),
            (JsonValue::Bool(u), JsonValue::Bool(v)) => if *u == *v {
                Cmp::Equal
            } else if !*u {
                Cmp::Less
            } else {
                Cmp::Greater
            },
            _ => Cmp::Equal,
        },
    };
    if asc {
        c
    } else {
        match c {
            Cmp::Less => Cmp::Greater,
            Cmp::Equal => Cmp::Equal,
            Cmp::Greater => Cmp::Less,
        }
    }
}

/// Whether `r` is `s` rearranged by `p` (item `k` of `r` is item `p[k]` of
/// `s`), such that items that sort equal keep their order.
pub open spec fn stable_perm(
    s: Seq<Json>,
    r: Seq<Json>,
    p: Seq<int>,
    f: Seq<char>,
    asc: bool,
) -> bool {
    &&& p.len() == r.len() == s.len()
    &&& forall|k: int| 0 <= k < r.len() ==> 0 <= #[trigger] p[k] < s.len() && r[k] == s[p[k]]
    &&& forall|a: int, b: int| 0 <= a < b < r.len() ==> #[trigger] p[a] != #[trigger] p[b]
    &&& forall|a: int, b: int|
        0 <= a < b < r.len() && #[trigger] item_cmp(r[a], r[b], f, asc) == Cmp::Equal ==> p[a] < p[b]
}

/// `w` holds the first `t` items of `all`, rearranged by `p`, with items that
/// sort equal in their order.
pub open spec fn stable_prefix(
    all: Seq<Json>,
    w: Seq<Json>,
    p: Seq<int>,
    t: int,
    f: Seq<char>,
    asc: bool,
) -> bool {
    &&& 0 <= t <= all.len()
    &&& p.len() == w.len() == t
    &&& forall|k: int| 0 <= k < t ==> 0 <= #[trigger] p[k] < t && w[k] == all[p[k]]
    &&& forall|a: int, b: int| 0 <= a < b < t ==> #[trigger] p[a] != #[trigger] p[b]
    &&& forall|a: int, b: int|
        0 <= a < b < t && #[trigger] item_cmp(w[a], w[b], f, asc) == Cmp::Equal ==> p[a] < p[b]
}

/// Inserting an item before every item that sorts after it, and after one
/// that does not, keeps a sequence in order.
proof fn lemma_insert_in_order(v: Seq<Json>, q: int, xv: Json, f: Seq<char>, asc: bool)
    requires
        in_order(v, f, asc),
        0 <= q <= v.len(),
        q > 0 ==> item_cmp(v[q - 1], xv, f, asc) != Cmp::Greater,
        forall|k: int| q <= k < v.len() ==> item_cmp(#[trigger] v[k], xv, f, asc) == Cmp::Greater,
    ensures
        in_order(v.insert(q, xv), f, asc),
{
    let w = v.insert(q, xv);
    assert forall|i: int| 0 <= i < w.len() - 1 implies #[trigger] item_cmp(w[i], w[i + 1], f, asc)
        != Cmp::Greater by {
        if i < q - 1 {
            assert(w[i] == v[i] && w[i + 1] == v[i + 1]);
        } else if i == q - 1 {
            assert(w[i] == v[i] && w[i + 1] == xv);
        } else if i == q {
            assert(w[i] == xv && w[i + 1] == v[i]);
            lemma_item_cmp_flip(v[i], xv, f, asc);
        } else {
            assert(w[i] == v[i - 1] && w[i + 1] == v[i]);
            let j = i - 1;
            assert(item_cmp(v[j], v[j + 1], f, asc) != Cmp::Greater);
        }
    }
}

/// Inserting the next item of `all` before every item that sorts after it
/// keeps the items that sort equal in their order.
proof fn lemma_insert_stable(
    all: Seq<Json>,
    v: Seq<Json>,
    before: Seq<int>,
    t: int,
    q: int,
    f: Seq<char>,
    asc: bool,
)
    requires
        stable_prefix(all, v, before, t, f, asc),
        t < all.len(),
        0 <= q <= v.len(),
        forall|k: int| q <= k < v.len() ==> item_cmp(#[trigger] v[k], all[t], f, asc) == Cmp::Greater,
    ensures
        stable_prefix(all, v.insert(q, all[t]), before.insert(q, t), t + 1, f, asc),
{
    let xv = all[t];
    let w = v.insert(q, xv);
    let perm = before.insert(q, t);
    assert forall|k: int| 0 <= k < t + 1 implies 0 <= #[trigger] perm[k] < t + 1 && w[k] == all[perm[k]] by {
        if k < q {
            assert(perm[k] == before[k] && w[k] == v[k]);
        } else if k > q {
            assert(perm[k] == before[k - 1] && w[k] == v[k - 1]);
        }
    }
    assert forall|a: int, b: int| 0 <= a < b < t + 1 implies #[trigger] perm[a] != #[trigger] perm[b] by {
        let a0 = if a < q { a } else { a - 1 };
        let b0 = if b < q { b } else { b - 1 };
        if a != q && b != q {
            assert(perm[a] == before[a0] && perm[b] == before[b0]);
        } else if a == q {
            assert(perm[b] == before[b0]);
        } else {
            assert(perm[a] == before[a0]);
        }
    }
    assert forall|a: int, b: int|
        0 <= a < b < t + 1 && #[trigger] item_cmp(w[a], w[b], f, asc) == Cmp::Equal implies perm[a]
        < perm[b] by {
        if b == q {
            assert(perm[a] == before[a]);
        } else if a == q {
            assert(w[b] == v[b - 1]);
            assert(item_cmp(v[b - 1], xv, f, asc) == Cmp::Greater);
            lemma_item_cmp_flip(v[b - 1], xv, f, asc);
        } else {
            let a0 = if a < q { a } else { a - 1 };
            let b0 = if b < q { b } else { b - 1 };
            assert(w[a] == v[a0] && w[b] == v[b0]);
            assert(perm[a] == before[a0] && perm[b] == before[b0]);
            assert(item_cmp(v[a0], v[b0], f, asc) == Cmp::Equal);
        }
    }
}

/// Sorts items by field `f` with a stable insertion sort.
pub fn sort_by_field(items: Vec<JsonValue>, f: &str, asc: bool) -> (r: Vec<JsonValue>)
    ensures
        view_values(r@).to_multiset() == view_values(items@).to_multiset(),
        in_order(view_values(r@), f@, asc),
        exists|p: Seq<int>| stable_perm(view_values(items@), view_values(r@), p, f@, asc),
{
    broadcast use vstd::seq_lib::group_to_multiset_ensures;

    let ghost all = view_values(items@);
    proof {
        lemma_view_values(items@);
    }
    let mut rest = items;
    let mut out: Vec<JsonValue> = Vec::new();
    let ghost mut t: int = 0;
    let ghost mut perm: Seq<int> = Seq::empty();
    proof {
        lemma_view_values(out@);
        assert(view_values(out@) =~= Seq::<Json>::empty());
        assert(all.subrange(0, all.len() as int) =~= all);
    }
    while rest.len() > 0
        invariant
            all == view_values(items@),
            all.len() == items@.len(),
            0 <= t <= all.len(),
            view_values(rest@) == all.subrange(t, all.len() as int),
            view_values(out@).to_multiset().add(view_values(rest@).to_multiset())
                == view_values(items@).to_multiset(),
            in_order(view_values(out@), f@, asc),
            stable_prefix(all, view_values(out@), perm, t, f@, asc),
        decreases rest.len(),
    {
        let ghost r0 = rest@;
        let x = rest.remove(0);
        proof {
            lemma_view_values_remove(r0, 0);
            lemma_view_values(r0);
            vstd::seq_lib::to_multiset_remove(view_values(r0), 0);
            assert(view_values(r0)[0] == r0[0]@);
            assert(view_values(r0).contains(x@));
            vstd::seq_lib::to_multiset_contains(view_values(r0), x@);
            assert(view_values(rest@).to_multiset().insert(x@) =~= view_values(r0).to_multiset());
            assert(x@ == all[t]);
            assert(view_values(rest@) =~= all.subrange(t + 1, all.len() as int));
        }
        proof {
            lemma_view_values(out@);
        }
        let mut pos = out.len();
        while pos > 0 && compare_items(&out[pos - 1], &x, f, asc) == Cmp::Greater
            invariant
                pos <= out@.len(),
                view_values(out@).len() == out@.len(),
                forall|k: int| 0 <= k < out@.len() ==> #[trigger] view_values(out@)[k] == out@[k]@,
                forall|k: int|
                    pos <= k < out@.len() ==> item_cmp(#[trigger] view_values(out@)[k], x@, f@, asc)
                        == Cmp::Greater,
            decreases pos,
        {
            pos = pos - 1;
        }
        let ghost o0 = out@;
        let ghost xv = x@;
        proof {
            if pos > 0 {
                assert(view_values(o0)[pos - 1] == o0[pos - 1]@);
            }
        }
        out.insert(pos, x);
        proof {
            lemma_view_values_insert(o0, pos as int, x);
            vstd::seq_lib::to_multiset_insert(view_values(o0), pos as int, xv);
            lemma_insert_in_order(view_values(o0), pos as int, xv, f@, asc);
            lemma_insert_stable(all, view_values(o0), perm, t, pos as int, f@, asc);
            assert(view_values(out@).to_multiset().add(view_values(rest@).to_multiset())
                =~= view_values(items@).to_multiset());
            perm = perm.insert(pos as int, t);
            t = t + 1;
        }
    }
    proof {
        lemma_view_values(rest@);
        assert(view_values(rest@) =~= Seq::<Json>::empty());
        assert(view_values(out@).to_multiset().add(view_values(rest@).to_multiset())
            =~= view_values(out@).to_multiset());
        assert(stable_perm(all, view_values(out@), perm, f@, asc));
    }
    out
}

/// The filters that the query parameters state, one for each key that does
/// not start with `_`.
pub fn filters_from(params: &Vec<(String, String)>) -> (r: Vec<Filter>)
    ensures
        forall|x: Json| passes_all(x, r@) == passes_params(x, params@),
{
    let mut r: Vec<Filter> = Vec::new();
    let mut i: usize = 0;
    let ghost mut from: Seq<int> = Seq::empty();
    while i < params.len()
        invariant
            0 <= i <= params@.len(),
            from.len() == r@.len(),
            forall|j: int|
                0 <= j < r@.len() ==> 0 <= #[trigger] from[j] < i && !is_reserved(
                    params@[from[j]].0@,
                ) && (r@[j].field@, r@[j].op) == op_of_key(params@[from[j]].0@) && r@[j].operand@
                    == params@[from[j]].1@,
            forall|k: int|
                0 <= k < i && !is_reserved(#[trigger] params@[k].0@) ==> exists|j: int|
                    0 <= j < from.len() && from[j] == k,
        decreases params.len() - i,
    {
        let key = params[i].0.as_str();
        let reserved = key.unicode_len() > 0 && key.get_char(0) == '_';
        if !reserved {
            r.push(Filter::from_param(key, params[i].1.as_str()));
            proof {
                let old_from = from;
                from = from.push(i as int);
                assert(from[from.len() - 1] == i);
                assert forall|k: int|
                    0 <= k < i + 1 && !is_reserved(#[trigger] params@[k].0@) implies exists|j: int|
                    0 <= j < from.len() && from[j] == k by {
                    if k == i {
                        assert(from[from.len() - 1] == k);
                    } else {
                        let j0 = choose|j: int| 0 <= j < old_from.len() && old_from[j] == k;
                        assert(from[j0] == k);
                    }
                }
            }
        }
        i = i + 1;
    }
    assert forall|x: Json| passes_all(x, r@) == passes_params(x, params@) by {
        if passes_all(x, r@) {
            assert forall|k: int|
                0 <= k < params@.len() && !is_reserved(#[trigger] params@[k].0@) implies passes(
                x,
                op_of_key(params@[k].0@).0,
                op_of_key(params@[k].0@).1,
                params@[k].1@,
            ) by {
                let j = choose|j: int| 0 <= j < from.len() && from[j] == k;
                assert(r@[j].holds_for(x));
            }
        }
        if passes_params(x, params@) {
            assert forall|j: int| 0 <= j < r@.len() implies #[trigger] r@[j].holds_for(x) by {
                let k = from[j];
                assert(!is_reserved(params@[k].0@));
            }
        }
    }
    r
}

/// The sort keys a sort request states: each field with `true` for
/// ascending order; `None` when the fields and the directions differ in number.
pub open spec fn sort_keys_of(sort: Seq<char>, order: Seq<char>) -> Option<Seq<(Seq<char>, bool)>> {
    let a = split_on(sort, ',');
    let b = split_on(order, ',');
    if a.len() != b.len() {
        None
    } else {
        Some(Seq::new(a.len(), |i: int| (a[i], b[i] == "asc"@)))
    }
}

/// A sort request: comma-separated fields and their comma-separated
/// directions, `asc` or anything else for descending order.
#[derive(Debug)]
pub struct Sort {
    pub sort: String,
    pub order: String,
}

/// A pagination request: a 1-based page and a page size.
#[derive(Clone, Copy, Debug, PartialEq, Eq, Structural)]
pub struct Paginate {
    pub page: Option<usize>,
    pub size: Option<usize>,
}

/// A slice request: a start, and an exclusive end or a limit.
#[derive(Clone, Copy, Debug, PartialEq, Eq, Structural)]
pub struct Slice {
    pub start: usize,
    pub end: Option<usize>,
    pub limit: Option<usize>,
}

impl Sort {
    /// The sort keys this request states, each with `true` for ascending order.
    pub fn keys(&self) -> (r: Option<Vec<(String, bool)>>)
        ensures
            match sort_keys_of(self.sort@, self.order@) {
                None => r is None,
                Some(k) => r matches Some(v) && v@.len() == k.len() && forall|i: int|
                    0 <= i < k.len() ==> (#[trigger] v@[i]).0@ == k[i].0 && v@[i].1 == k[i].1,
            },
    {
        let fields = split_char(self.sort.as_str(), ',');
        let dirs = split_char(self.order.as_str(), ',');
        if fields.len() != dirs.len() {
            assert(texts(fields@).len() == fields@.len());
            return None;
        }
        let ghost k = sort_keys_of(self.sort@, self.order@)->0;
        let mut v: Vec<(String, bool)> = Vec::new();
        let mut i: usize = 0;
        while i < fields.len()
            invariant
                fields@.len() == dirs@.len(),
                texts(fields@) == split_on(self.sort@, ','),
                texts(dirs@) == split_on(self.order@, ','),
                k == sort_keys_of(self.sort@, self.order@)->0,
                k.len() == fields@.len(),
                0 <= i <= fields@.len(),
                v@.len() == i,
                forall|j: int| 0 <= j < i ==> (#[trigger] v@[j]).0@ == k[j].0 && v@[j].1 == k[j].1,
            decreases fields.len() - i,
        {
            assert(texts(fields@)[i as int] == fields@[i as int]@);
            assert(texts(dirs@)[i as int] == dirs@[i as int]@);
            let asc = str_eq(dirs[i].as_str(), "asc");
            v.push((fields[i].clone(), asc));
            i = i + 1;
        }
        Some(v)
    }
}

/// Sorts items by several keys with one stable pass per key, the last key
/// first, so that the first key orders the result.
pub fn sort_items(items: Vec<JsonValue>, keys: &Vec<(String, bool)>) -> (r: Vec<JsonValue>)
    ensures
        view_values(r@).to_multiset() == view_values(items@).to_multiset(),
        keys@.len() > 0 ==> in_order(view_values(r@), keys@[0].0@, keys@[0].1),
        keys@.len() >= 2 ==> last_pass(
            view_values(items@),
            view_values(r@),
            (keys@[0].0@, keys@[0].1),
            (keys@[1].0@, keys@[1].1),
        ),
{
    let mut r = items;
    let mut k = keys.len();
    while k > 0
        invariant
            k <= keys@.len(),
            view_values(r@).to_multiset() == view_values(items@).to_multiset(),
            k < keys@.len() ==> in_order(view_values(r@), keys@[k as int].0@, keys@[k as int].1),
            k + 1 < keys@.len() ==> last_pass(
                view_values(items@),
                view_values(r@),
                (keys@[k as int].0@, keys@[k as int].1),
                (keys@[k + 1].0@, keys@[k + 1].1),
            ),
        decreases k,
    {
        let ghost prev = view_values(r@);
        k = k - 1;
        r = sort_by_field(r, keys[k].0.as_str(), keys[k].1);
        proof {
            if k + 1 < keys@.len() {
                let f = keys@[k as int].0@;
                let asc = keys@[k as int].1;
                let p = choose|p: Seq<int>| stable_perm(prev, view_values(r@), p, f, asc);
                assert(stable_perm(prev, view_values(r@), p, f, asc));
                assert(in_order(prev, keys@[k + 1].0@, keys@[k + 1].1));
                assert(prev.to_multiset() == view_values(items@).to_multiset());
                let ft = (f, asc);
                let gt = (keys@[k + 1].0@, keys@[k + 1].1);
                assert(stable_perm(prev, view_values(r@), p, ft.0, ft.1));
                assert(in_order(prev, gt.0, gt.1));
                assert(last_pass(view_values(items@), view_values(r@), ft, gt));
            }
        }
    }
    r
}

/// `r` is a stable rearrangement, by key `f`, of a rearrangement of `s` that
/// is in order by key `g`: the last two passes of a sort by keys `f`, `g`.
pub open spec fn last_pass(s: Seq<Json>, r: Seq<Json>, f: (Seq<char>, bool), g: (Seq<char>, bool)) -> bool {
    exists|q: Seq<Json>, p: Seq<int>|
        #![trigger stable_perm(q, r, p, f.0, f.1)]
        q.to_multiset() == s.to_multiset() && in_order(q, g.0, g.1) && stable_perm(q, r, p, f.0, f.1)
}

/// A rearrangement keeps a property that every item has.
proof fn lemma_uniform_rearranged(s: Seq<Json>, q: Seq<Json>, f: Seq<char>, k: int)
    requires
        q.to_multiset() == s.to_multiset(),
        uniform(s, f, k),
    ensures
        uniform(q, f, k),
{
    assert forall|i: int| 0 <= i < q.len() implies (field_value(#[trigger] q[i], f) matches Some(v)
        ==> kind_tag(v) == k) by {
        assert(q.contains(q[i]));
        vstd::seq_lib::to_multiset_contains(q, q[i]);
        vstd::seq_lib::to_multiset_contains(s, q[i]);
        let j = choose|j: int| 0 <= j < s.len() && s[j] == q[i];
        assert(s[j] == q[i]);
    }
}

/// Items that tie on the first sort key are ordered by the second, where
/// every present value of the second key's field is of one kind.
pub proof fn law_ties_follow_next_key(s: Seq<Json>, keys: Seq<(Seq<char>, bool)>, r: Seq<Json>, k: int)
    requires
        arranged(s, keys, r),
        keys.len() >= 2,
        1 <= k <= 3,
        uniform(s, keys[1].0, k),
    ensures
        forall|a: int, b: int|
            0 <= a < b < r.len() && #[trigger] item_cmp(r[a], r[b], keys[0].0, keys[0].1)
                == Cmp::Equal ==> item_cmp(r[a], r[b], keys[1].0, keys[1].1) != Cmp::Greater,
{
    let (f, g) = (keys[0], keys[1]);
    let (q, p) = choose|q: Seq<Json>, p: Seq<int>|
        q.to_multiset() == s.to_multiset() && in_order(q, g.0, g.1) && stable_perm(q, r, p, f.0, f.1);
    lemma_uniform_rearranged(s, q, g.0, k);
    law_in_order_is_sorted(q, g.0, g.1, k);
    assert forall|a: int, b: int|
        0 <= a < b < r.len() && #[trigger] item_cmp(r[a], r[b], f.0, f.1) == Cmp::Equal implies item_cmp(
        r[a],
        r[b],
        g.0,
        g.1,
    ) != Cmp::Greater by {
        assert(p[a] < p[b]);
        assert(r[a] == q[p[a]] && r[b] == q[p[b]]);
        assert(item_cmp(q[p[a]], q[p[b]], g.0, g.1) != Cmp::Greater);
    }
}

/// Whether a pagination request asks for anything.
pub open spec fn paginates(p: Option<Paginate>) -> bool {
    p matches Some(q) && (q.page is Some || q.size is Some)
}

/// The window `[start, end)` that a page selects.
pub open spec fn page_bounds(p: Paginate) -> (int, int) {
    let page: int = match p.page {
        Some(n) => n as int,
        None => 1,
    };
    let size: int = match p.size {
        Some(n) => n as int,
        None => DEFAULT_PAGE_SIZE as int,
    };
    let k = if page > 0 {
        page - 1
    } else {
        0
    };
    (k * size, k * size + size)
}

/// The window `[start, end)` that a request selects, or why it is malformed.
pub open spec fn window_of(p: Option<Paginate>, s: Option<Slice>) -> Result<(int, int), ApiError> {
    if paginates(p) && s is Some {
        Err(ApiError::BadRequest(Reason::PaginateAndSlice))
    } else if let Some(sl) = s {
        if sl.end matches Some(e) && sl.start > e {
            Err(ApiError::BadRequest(Reason::SliceStartAfterEnd))
        } else if sl.limit == Some(0usize) {
            Err(ApiError::BadRequest(Reason::SliceZeroLimit))
        } else if sl.end is None && sl.limit is None {
            Err(ApiError::BadRequest(Reason::SliceWithoutBound))
        } else {
            match sl.end {
                Some(e) => Ok((sl.start as int, e as int)),
                None => Ok((sl.start as int, sl.start + sl.limit->0)),
            }
        }
    } else if paginates(p) {
        Ok(page_bounds(p->0))
    } else {
        Ok((0, DEFAULT_PAGE_SIZE as int))
    }
}

/// The part of `s` inside the window `w`, cut at its end.
pub open spec fn clip(s: Seq<Json>, w: (int, int)) -> Seq<Json> {
    let a = if w.0 < s.len() {
        w.0
    } else {
        s.len() as int
    };
    let b = if w.1 < s.len() {
        w.1
    } else {
        s.len() as int
    };
    s.subrange(a, b)
}

/// `min(v, len)` for a window bound `v` that a machine integer may not hold.
fn cap(v: Option<usize>, len: usize) -> (r: usize)
    ensures
        v matches Some(x) ==> r == if x < len { x } else { len },
        v is None ==> r == len,
{
    match v {
        Some(x) => if x < len {
            x
        } else {
            len
        },
        None => len,
    }
}

/// The window of a request, cut to `len` items.
pub fn window(
    p: Option<Paginate>,
    s: Option<Slice>,
    len: usize,
) -> (r: Result<(usize, usize), ApiError>)
    ensures
        match window_of(p, s) {
            Err(e) => r == Err::<(usize, usize), ApiError>(e),
            Ok(w) => r matches Ok(b) && w.0 <= w.1 && b.0 == (if w.0 < len { w.0 } else { len as int })
                && b.1 == (if w.1 < len { w.1 } else { len as int }),
        },
{
    let given = match p {
        Some(q) => q.page.is_some() || q.size.is_some(),
        None => false,
    };
    if given && s.is_some() {
        return Err(ApiError::BadRequest(Reason::PaginateAndSlice));
    }
    if let Some(sl) = s {
        if let Some(e) = sl.end {
            if sl.start > e {
                return Err(ApiError::BadRequest(Reason::SliceStartAfterEnd));
            }
        }
        if sl.limit == Some(0usize) {
            return Err(ApiError::BadRequest(Reason::SliceZeroLimit));
        }
        match (sl.end, sl.limit) {
            (Some(e), _) => Ok((cap(Some(sl.start), len), cap(Some(e), len))),
            (None, Some(l)) => Ok((cap(Some(sl.start), len), cap(sl.start.checked_add(l), len))),
            (None, None) => Err(ApiError::BadRequest(Reason::SliceWithoutBound)),
        }
    } else if given {
        let q = p.unwrap();
        let page: usize = match q.page {
            Some(n) => n,
            None => 1,
        };
        let size: usize = match q.size {
            Some(n) => n,
            None => DEFAULT_PAGE_SIZE,
        };
        let k: usize = if page > 0 {
            page - 1
        } else {
            0
        };
        let start = k.checked_mul(size);
        let end = match start {
            Some(a) => a.checked_add(size),
            None => None,
        };
        proof {
            assert(k * size >= 0 && size >= 0) by (nonlinear_arith)
                requires k >= 0, size >= 0;
        }
        Ok((cap(start, len), cap(end, len)))
    } else {
        Ok((0, cap(Some(DEFAULT_PAGE_SIZE), len)))
    }
}

/// The result of a list query: the items of the window and the number of
/// items that passed the filters.
#[derive(Debug)]
pub struct Page {
    pub items: Vec<JsonValue>,
    pub total: usize,
}

/// Whether `r` holds the items of `s` rearranged, ordered by the first sort
/// key if there is one, with ties on it broken by a stable pass over items
/// already ordered by the second key.
pub open spec fn arranged(s: Seq<Json>, keys: Seq<(Seq<char>, bool)>, r: Seq<Json>) -> bool {
    &&& r.to_multiset() == s.to_multiset()
    &&& keys.len() > 0 ==> in_order(r, keys[0].0, keys[0].1)
    &&& keys.len() >= 2 ==> last_pass(s, r, keys[0], keys[1])
}

/// The sort keys of an optional sort request: none without one.
pub open spec fn keys_of(sort: Option<Sort>) -> Option<Seq<(Seq<char>, bool)>> {
    match sort {
        Some(s) => sort_keys_of(s.sort@, s.order@),
        None => Some(Seq::empty()),
    }
}

/// Runs a list query over a collection snapshot: filter, sort, then cut the
/// window. The total counts the items after filtering and before the window.
pub fn run_query(
    items: &Vec<JsonValue>,
    paginate: Option<Paginate>,
    sort: Option<Sort>,
    slice: Option<Slice>,
    params: &Vec<(String, String)>,
) -> (r: Result<Page, ApiError>)
    ensures
        keys_of(sort) is None ==> r == Err::<Page, ApiError>(ApiError::BadRequest(Reason::SortOrderMismatch)),
        keys_of(sort) is Some && window_of(paginate, slice) is Err ==> r == Err::<Page, ApiError>(
            window_of(paginate, slice)->Err_0,
        ),
        keys_of(sort) is Some && window_of(paginate, slice) is Ok ==> (r matches Ok(pg) && {
            let f = kept(view_values(items@), |x: Json| passes_params(x, params@));
            &&& pg.total == f.len()
            &&& exists|s: Seq<Json>|
                arranged(f, keys_of(sort)->0, s) && view_values(pg.items@) == clip(
                    s,
                    window_of(paginate, slice)->Ok_0,
                )
        }),
{
    let keys = match &sort {
        Some(s) => match s.keys() {
            Some(k) => k,
            None => {
                return Err(ApiError::BadRequest(Reason::SortOrderMismatch));
            },
        },
        None => Vec::new(),
    };
    let ghost ks = keys_of(sort)->0;
    assert(keys@.len() == ks.len());
    let fs = filters_from(params);
    let filtered = filter_items(items, &fs);
    let ghost f = kept(view_values(items@), |x: Json| passes_params(x, params@));
    assert((|x: Json| passes_all(x, fs@)) =~= (|x: Json| passes_params(x, params@)));
    let total = filtered.len();
    proof {
        lemma_view_values(filtered@);
    }
    let (a, b) = match window(paginate, slice, total) {
        Ok(w) => w,
        Err(e) => {
            return Err(e);
        },
    };
    let sorted = sort_items(filtered, &keys);
    proof {
        lemma_view_values(sorted@);
        vstd::seq_lib::to_multiset_len(view_values(sorted@));
        vstd::seq_lib::to_multiset_len(view_values(filtered@));
        if ks.len() > 0 {
            assert(keys@[0].0@ == ks[0].0 && keys@[0].1 == ks[0].1);
        }
        if ks.len() > 1 {
            assert(keys@[1].0@ == ks[1].0 && keys@[1].1 == ks[1].1);
            assert((keys@[0].0@, keys@[0].1) == ks[0]);
            assert((keys@[1].0@, keys@[1].1) == ks[1]);
        }
    }
    let mut out: Vec<JsonValue> = Vec::new();
    let mut rest = sorted;
    let ghost whole = view_values(rest@);
    let mut i: usize = 0;
    while i < b
        invariant
            a <= b <= rest@.len(),
            view_values(rest@) == whole,
            whole.len() == rest@.len(),
            forall|j: int| 0 <= j < rest@.len() ==> #[trigger] whole[j] == rest@[j]@,
            0 <= i <= b,
            i <= a ==> out@.len() == 0,
            i > a ==> view_values(out@) == whole.subrange(a as int, i as int),
        decreases b - i,
    {
        if i >= a {
            let c = rest[i].deep_copy();
            let ghost prev = out@;
            out.push(c);
            proof {
                lemma_view_values(out@);
                lemma_view_values(prev);
                assert(view_values(out@) =~= whole.subrange(a as int, i + 1));
            }
        }
        i = i + 1;
    }
    proof {
        if b <= a {
            lemma_view_values(out@);
            assert(view_values(out@) =~= whole.subrange(a as int, b as int));
        }
        assert(arranged(f, ks, whole));
    }
    Ok(Page { items: out, total })
}

} // verus!
