//! The document store: the owner of the document, its scalar resources and
//! its id-indexed collections.

use rayon::iter::{IndexedParallelIterator, IntoParallelRefIterator, ParallelIterator};
use vstd::prelude::*;

use crate::error::{ApiError, Reason};
use crate::json::{
    find_member, get_member, lemma_member_found, lemma_member_index, lemma_view_members,
    lemma_view_members_push, lemma_view_members_update, lemma_view_values, lemma_view_values_push,
    lemma_view_values_remove, lemma_view_values_update, member, member_index, view_members,
    view_values, Json, JsonValue, Number,
};
use crate::query::{
    arranged, clip, field_value, keys_of, kept, passes_params, run_query, window_of, Page, Paginate,
    Slice, Sort,
};

verus! {

/// The id of an item: its field `f`, when that is an unsigned integer
/// written without a fraction.
pub open spec fn id_of(item: Json, f: Seq<char>) -> Option<u64> {
    match field_value(item, f) {
        Some(Json::Num(n)) => n.as_id(),
        _ => None,
    }
}

/// Every item carries an id, and no two items share one.
pub open spec fn valid_items(items: Seq<Json>, f: Seq<char>) -> bool {
    &&& forall|i: int| 0 <= i < items.len() ==> (#[trigger] id_of(items[i], f)) is Some
    &&& forall|i: int, j: int|
        0 <= i < items.len() && 0 <= j < items.len() && i != j ==> #[trigger] id_of(items[i], f)
            != #[trigger] id_of(items[j], f)
}

/// Every collection of the document is valid.
pub open spec fn valid_doc(doc: Seq<(Seq<char>, Json)>, f: Seq<char>) -> bool {
    forall|i: int|
        0 <= i < doc.len() ==> (#[trigger] doc[i].1 matches Json::Arr(items) ==> valid_items(
            items,
            f,
        ))
}

/// The items of the collection named `name`, if the document has one.
pub open spec fn collection(doc: Seq<(Seq<char>, Json)>, name: Seq<char>) -> Option<Seq<Json>> {
    match member(doc, name) {
        Some(Json::Arr(items)) => Some(items),
        _ => None,
    }
}

/// Whether a value can be a scalar resource: neither an array nor null.
pub open spec fn is_scalar(v: Json) -> bool {
    !(v is Arr) && !(v is Null)
}

/// Whether two values are of the same JSON type.
pub open spec fn same_kind(a: Json, b: Json) -> bool {
    match (a, b) {
        (Json::Null, Json::Null) => true,
        (Json::Bool(_), Json::Bool(_)) => true,
        (Json::Num(_), Json::Num(_)) => true,
        (Json::Str(_), Json::Str(_)) => true,
        (Json::Arr(_), Json::Arr(_)) => true,
        (Json::Obj(_), Json::Obj(_)) => true,
        _ => false,
    }
}

/// The document with the member named `name` given the value `v`.
pub open spec fn with_member(doc: Seq<(Seq<char>, Json)>, name: Seq<char>, v: Json) -> Seq<
    (Seq<char>, Json),
> {
    doc.update(member_index(doc, name)->0, (name, v))
}

/// Whether some item of `items` has the id `id`.
pub open spec fn has_item(items: Seq<Json>, f: Seq<char>, id: u64) -> bool {
    exists|i: int| 0 <= i < items.len() && id_of(items[i], f) == Some(id)
}

/// The largest id of the items, `0` for none.
pub open spec fn max_id(items: Seq<Json>, f: Seq<char>) -> nat
    decreases items.len(),
{
    if items.len() == 0 {
        0
    } else {
        let m = max_id(items.drop_last(), f);
        let x: nat = match id_of(items.last(), f) {
            Some(v) => v as nat,
            None => 0,
        };
        if x > m {
            x
        } else {
            m
        }
    }
}

/// The object `v` with member `f` set to `x`: the first member of that name is
/// replaced, or a member is added at the end.
pub open spec fn set_field(v: Json, f: Seq<char>, x: Json) -> Json {
    match v {
        Json::Obj(m) => match member_index(m, f) {
            Some(i) => Json::Obj(m.update(i, (f, x))),
            None => Json::Obj(m.push((f, x))),
        },
        _ => v,
    }
}

/// The number that an id is.
pub open spec fn id_number(id: u64) -> Json {
    Json::Num(Number { neg: false, mag: id, scale: 0 })
}

/// The epoch after one more mutation.
pub open spec fn next_epoch(e: u64) -> u64 {
    if e == u64::MAX {
        0
    } else {
        (e + 1) as u64
    }
}

/// The document that loading `v` gives, if `v` is an object whose
/// collections are valid.
pub open spec fn load_outcome(v: Json, f: Seq<char>) -> Option<Seq<(Seq<char>, Json)>> {
    match v {
        Json::Obj(m) => if valid_doc(m, f) {
            Some(m)
        } else {
            None
        },
        _ => None,
    }
}

/// The store: the document, the name of the id field, the dirty flag and a
/// counter of mutations that a flush compares against.
pub struct Store {
    members: Vec<(String, JsonValue)>,
    id_field: String,
    dirty: bool,
    epoch: u64,
}

impl Store {
    /// The document: its top-level members in order.
    pub closed spec fn doc(&self) -> Seq<(Seq<char>, Json)> {
        view_members(self.members@)
    }

    /// The name of the field that identifies the items of a collection.
    pub closed spec fn key(&self) -> Seq<char> {
        self.id_field@
    }

    /// Whether the document has changed since it was last saved.
    pub closed spec fn is_dirty_spec(&self) -> bool {
        self.dirty
    }

    /// The number of mutations so far, modulo `2^64`.
    pub closed spec fn epoch_spec(&self) -> u64 {
        self.epoch
    }

    /// The store's invariant: every collection is valid.
    pub open spec fn wf(&self) -> bool {
        valid_doc(self.doc(), self.key())
    }

    /// Whether the other state differs only in the document.
    pub open spec fn same_state(&self, other: &Store) -> bool {
        &&& self.key() == other.key()
        &&& self.is_dirty_spec() == other.is_dirty_spec()
        &&& self.epoch_spec() == other.epoch_spec()
    }

    /// Whether `after` is `self` after a mutation that left document `d`.
    pub open spec fn mutated(&self, after: &Store, d: Seq<(Seq<char>, Json)>) -> bool {
        &&& after.doc() == d
        &&& after.key() == self.key()
        &&& after.is_dirty_spec()
        &&& after.epoch_spec() == next_epoch(self.epoch_spec())
    }

    /// Makes a store of a document, which must be an object whose every
    /// array holds objects with distinct unsigned integer ids in field
    /// `id_field`. The new store is clean.
    pub fn load(document: JsonValue, id_field: String) -> (r: Result<Store, ApiError>)
        ensures
            match load_outcome(document@, id_field@) {
                Some(m) => r matches Ok(s) && s.doc() == m && s.key() == id_field@
                    && !s.is_dirty_spec() && s.wf(),
                None => r == Err::<Store, ApiError>(ApiError::Internal),
            },
    {
        let members = match document {
            JsonValue::Object(m) => m,
            _ => {
                return Err(ApiError::Internal);
            },
        };
        proof {
            lemma_view_members(members@);
        }
        let ghost whole = view_members(members@);
        assert(document@ == Json::Obj(whole));
        let mut i: usize = 0;
        while i < members.len()
            invariant
                0 <= i <= members@.len(),
                whole == view_members(members@),
                document@ == Json::Obj(whole),
                view_members(members@).len() == members@.len(),
                forall|j: int|
                    0 <= j < members@.len() ==> #[trigger] view_members(members@)[j] == (
                        members@[j].0@,
                        members@[j].1@,
                    ),
                forall|j: int|
                    0 <= j < i ==> (#[trigger] view_members(members@)[j].1 matches Json::Arr(items)
                        ==> valid_items(items, id_field@)),
            decreases members.len() - i,
        {
            if let JsonValue::Array(items) = &members[i].1 {
                if !items_valid(items, id_field.as_str()) {
                    assert(view_members(members@)[i as int].1 == Json::Arr(view_values(items@)));
                    assert(!valid_doc(view_members(members@), id_field@));
                    return Err(ApiError::Internal);
                }
            }
            i = i + 1;
        }
        Ok(Store { members, id_field, dirty: false, epoch: 0 })
    }

    /// The whole document, copied.
    pub fn snapshot(&self) -> (r: JsonValue)
        ensures
            r@ == Json::Obj(self.doc()),
    {
        JsonValue::Object(crate::json::copy_members(&self.members))
    }

    /// The document's members.
    pub fn members(&self) -> (r: &Vec<(String, JsonValue)>)
        ensures
            view_members(r@) == self.doc(),
    {
        &self.members
    }

    /// Whether the document has changed since it was last saved.
    pub fn is_dirty(&self) -> (r: bool)
        ensures
            r == self.is_dirty_spec(),
    {
        self.dirty
    }

    /// The document to save, and the epoch it was taken at.
    pub fn begin_flush(&self) -> (r: (JsonValue, u64))
        ensures
            r.0@ == Json::Obj(self.doc()),
            r.1 == self.epoch_spec(),
    {
        (self.snapshot(), self.epoch)
    }

    /// Records that the document taken at `epoch` is on disk: the store is
    /// clean unless it changed since.
    pub fn finish_flush(&mut self, epoch: u64)
        ensures
            final(self).doc() == old(self).doc(),
            final(self).key() == old(self).key(),
            final(self).epoch_spec() == old(self).epoch_spec(),
            final(self).is_dirty_spec() == (old(self).is_dirty_spec() && epoch != old(
                self,
            ).epoch_spec()),
    {
        if epoch == self.epoch {
            self.dirty = false;
        }
    }

    fn touch(&mut self)
        ensures
            final(self).members == old(self).members,
            final(self).id_field == old(self).id_field,
            final(self).dirty,
            final(self).epoch == next_epoch(old(self).epoch),
    {
        self.dirty = true;
        self.epoch = if self.epoch == u64::MAX {
            0
        } else {
            self.epoch + 1
        };
    }
}

/// The id of an item.
pub fn item_id(item: &JsonValue, f: &str) -> (r: Option<u64>)
    ensures
        r == id_of(item@, f@),
{
    match item {
        JsonValue::Object(m) => match get_member(m, f) {
            Some(JsonValue::Number(n)) => if n.scale == 0 && !n.neg {
                Some(n.mag)
            } else {
                None
            },
            _ => None,
        },
        _ => None,
    }
}

/// Whether an item carries an id.
pub fn has_valid_id(item: &JsonValue, f: &str) -> (r: bool)
    ensures
        r == (id_of(item@, f@) is Some),
{
    item_id(item, f).is_some()
}

/// Whether an item has the id `id`.
pub fn has_id(item: &JsonValue, f: &str, id: u64) -> (r: bool)
    ensures
        r == (id_of(item@, f@) == Some(id)),
{
    match item_id(item, f) {
        Some(x) => x == id,
        None => false,
    }
}

/// The id of an item, `0` for an item without one.
pub fn id_or_zero(item: &JsonValue, f: &str) -> (r: u64)
    ensures
        r == match id_of(item@, f@) {
            Some(v) => v,
            None => 0,
        },
{
    match item_id(item, f) {
        Some(x) => x,
        None => 0,
    }
}

/// Relies on rayon's `ParallelIterator::all`: true iff the predicate holds of
/// every item.
#[verifier::external_body]
fn par_all_valid(items: &Vec<JsonValue>, f: &str) -> (r: bool)
    ensures
        r == (forall|i: int| 0 <= i < items@.len() ==> (#[trigger] id_of(items@[i]@, f@)) is Some),
{
    items.par_iter().all(|item| has_valid_id(item, f))
}

/// Whether every item carries an id and no two share one.
pub fn items_valid(items: &Vec<JsonValue>, f: &str) -> (r: bool)
    ensures
        r == valid_items(view_values(items@), f@),
{
    proof {
        lemma_view_values(items@);
    }
    let s = Ghost(view_values(items@));
    if !par_all_valid(items, f) {
        proof {
            let i = choose|i: int| 0 <= i < items@.len() && !(id_of(items@[i]@, f@) is Some);
            assert(s@[i] == items@[i]@);
        }
        return false;
    }
    let mut i: usize = 0;
    while i < items.len()
        invariant
            0 <= i <= items@.len(),
            s@ == view_values(items@),
            s@.len() == items@.len(),
            forall|j: int| 0 <= j < items@.len() ==> #[trigger] s@[j] == items@[j]@,
            forall|j: int| 0 <= j < items@.len() ==> (#[trigger] id_of(items@[j]@, f@)) is Some,
            forall|a: int, b: int|
                0 <= a < i && 0 <= b < items@.len() && a != b ==> #[trigger] id_of(s@[a], f@)
                    != #[trigger] id_of(s@[b], f@),
        decreases items.len() - i,
    {
        let x = id_or_zero(&items[i], f);
        let mut j: usize = i + 1;
        while j < items.len()
            invariant
                0 <= i < j <= items@.len(),
                s@ == view_values(items@),
                s@.len() == items@.len(),
                forall|k: int| 0 <= k < items@.len() ==> #[trigger] s@[k] == items@[k]@,
                forall|k: int| 0 <= k < items@.len() ==> (#[trigger] id_of(items@[k]@, f@)) is Some,
                id_of(s@[i as int], f@) == Some(x),
                forall|b: int| i < b < j ==> id_of(s@[i as int], f@) != #[trigger] id_of(s@[b], f@),
            decreases items.len() - j,
        {
            if has_id(&items[j], f, x) {
                assert(s@[j as int] == items@[j as int]@);
                assert(id_of(s@[i as int], f@) == id_of(s@[j as int], f@));
                assert(!valid_items(s@, f@));
                return false;
            }
            j = j + 1;
        }
        assert forall|a: int, b: int|
            0 <= a < i + 1 && 0 <= b < items@.len() && a != b implies #[trigger] id_of(s@[a], f@)
            != #[trigger] id_of(s@[b], f@) by {
            if a == i && b < i {
                assert(id_of(s@[b], f@) != id_of(s@[a], f@));
            }
        }
        i = i + 1;
    }
    true
}

/// The id that a payload supplies: `None` if it has no id field,
/// `Some(None)` if that field is not an unsigned integer.
pub open spec fn candidate_id(v: Json, f: Seq<char>) -> Option<Option<u64>> {
    match field_value(v, f) {
        None => None,
        Some(Json::Num(n)) => Some(n.as_id()),
        Some(_) => Some(None),
    }
}

/// What creating item `v` in collection `name` stores, or why it fails.
/// Without an id the item gets one above the largest in the collection.
pub open spec fn post_outcome(
    doc: Seq<(Seq<char>, Json)>,
    f: Seq<char>,
    name: Seq<char>,
    v: Json,
) -> Result<Json, ApiError> {
    if !(v is Obj) {
        Err(ApiError::BadRequest(Reason::NotObject))
    } else if candidate_id(v, f) == Some(None::<u64>) {
        Err(ApiError::BadRequest(Reason::IdNotUnsigned))
    } else {
        match member(doc, name) {
            None => Err(ApiError::NotFound),
            Some(Json::Arr(items)) => match candidate_id(v, f) {
                Some(Some(id)) => if has_item(items, f, id) {
                    Err(ApiError::Conflict)
                } else {
                    Ok(v)
                },
                _ => if max_id(items, f) >= u64::MAX {
                    Err(ApiError::BadRequest(Reason::IdExhausted))
                } else {
                    Ok(set_field(v, f, id_number((max_id(items, f) + 1) as u64)))
                },
            },
            Some(_) => Err(ApiError::BadRequest(Reason::NotCollection)),
        }
    }
}

/// Every id in the collection is at most its largest.
pub proof fn lemma_max_id_bound(items: Seq<Json>, f: Seq<char>)
    ensures
        forall|i: int|
            0 <= i < items.len() ==> (#[trigger] id_of(items[i], f) matches Some(x) ==> x <= max_id(
                items,
                f,
            )),
    decreases items.len(),
{
    if items.len() > 0 {
        lemma_max_id_bound(items.drop_last(), f);
        assert forall|i: int| 0 <= i < items.len() - 1 implies items[i] == items.drop_last()[i] by {}
    }
}

/// A member set at the end of an object that lacks it, or in place of the
/// first member of its name, is what the object's field then reads.
pub proof fn lemma_set_field(v: Json, f: Seq<char>, x: Json)
    requires
        v is Obj,
    ensures
        field_value(set_field(v, f, x), f) == Some(x),
        set_field(v, f, x) is Obj,
{
    let m = v->Obj_0;
    lemma_member_found(m, f);
    match member_index(m, f) {
        Some(i) => {
            let m2 = m.update(i, (f, x));
            lemma_member_index(m2, f, i);
        },
        None => {
            let m2 = m.push((f, x));
            lemma_member_index(m2, f, m.len() as int);
        },
    }
}

impl Store {
    /// The index and the items of the collection named `name`.
    fn locate(&self, name: &str) -> (r: Result<(usize, &Vec<JsonValue>), ApiError>)
        ensures
            match member(self.doc(), name@) {
                None => r == Err::<(usize, &Vec<JsonValue>), ApiError>(ApiError::NotFound),
                Some(Json::Arr(items)) => r matches Ok((k, v)) && member_index(self.doc(), name@)
                    == Some(k as int) && k < self.members@.len() && self.doc()[k as int].0 == name@
                    && view_values(v@) == items,
                Some(_) => r == Err::<(usize, &Vec<JsonValue>), ApiError>(
                    ApiError::BadRequest(Reason::NotCollection),
                ),
            },
    {
        proof {
            lemma_view_members(self.members@);
            lemma_member_found(self.doc(), name@);
        }
        match find_member(&self.members, name) {
            Some(k) => {
                assert(self.doc()[k as int] == (self.members@[k as int].0@, self.members@[k as int].1@));
                match &self.members[k].1 {
                    JsonValue::Array(items) => Ok((k, items)),
                    _ => Err(ApiError::BadRequest(Reason::NotCollection)),
                }
            },
            None => Err(ApiError::NotFound),
        }
    }

    /// Puts `items` in place of the collection at index `k` and hands back
    /// the items it held.
    fn swap_items(&mut self, k: usize, items: Vec<JsonValue>) -> (r: Vec<JsonValue>)
        requires
            k < old(self).members@.len(),
            old(self).doc()[k as int].1 is Arr,
        ensures
            Json::Arr(view_values(r@)) == old(self).doc()[k as int].1,
            final(self).doc() == old(self).doc().update(
                k as int,
                (old(self).doc()[k as int].0, Json::Arr(view_values(items@))),
            ),
            final(self).members@.len() == old(self).members@.len(),
            final(self).id_field == old(self).id_field,
            final(self).dirty == old(self).dirty,
            final(self).epoch == old(self).epoch,
    {
        proof {
            lemma_view_members(self.members@);
        }
        let ghost m0 = self.members@;
        let (key, val) = self.members.remove(k);
        let old_items = match val {
            JsonValue::Array(v) => v,
            _ => {
                proof {
                    assert(false);
                }
                Vec::new()
            },
        };
        let ghost e = (key, JsonValue::Array(items));
        self.members.insert(k, (key, JsonValue::Array(items)));
        proof {
            assert(self.members@ =~= m0.update(k as int, e));
            lemma_view_members_update(m0, k as int, e);
        }
        old_items
    }
}

/// Relies on rayon's `ParallelIterator::any`: true iff the predicate holds of
/// some item.
#[verifier::external_body]
fn par_any_has_id(items: &Vec<JsonValue>, f: &str, id: u64) -> (r: bool)
    ensures
        r == (exists|i: int| 0 <= i < items@.len() && id_of(#[trigger] items@[i]@, f@) == Some(id)),
{
    items.par_iter().any(|item| has_id(item, f, id))
}

/// Relies on rayon's `IndexedParallelIterator::position_any`: the index of
/// some item that satisfies the predicate, `None` if none does.
#[verifier::external_body]
fn par_position_of_id(items: &Vec<JsonValue>, f: &str, id: u64) -> (r: Option<usize>)
    ensures
        r matches Some(i) ==> i < items@.len() && id_of(items@[i as int]@, f@) == Some(id),
        r is None ==> forall|i: int| 0 <= i < items@.len() ==> id_of(#[trigger] items@[i]@, f@) != Some(id),
{
    items.par_iter().position_any(|item| has_id(item, f, id))
}

/// Relies on rayon's `ParallelIterator::map` and `ParallelIterator::max`: the
/// largest of the mapped values, `None` for no items.
#[verifier::external_body]
fn par_max_id(items: &Vec<JsonValue>, f: &str) -> (r: u64)
    ensures
        r as nat == max_id(view_values(items@), f@),
{
    items.par_iter().map(|item| id_or_zero(item, f)).max().unwrap_or(0)
}

/// Whether `v` is neither an array nor null.
fn is_scalar_value(v: &JsonValue) -> (r: bool)
    ensures
        r == is_scalar(v@),
{
    match v {
        JsonValue::Array(_) => false,
        JsonValue::Null => false,
        _ => true,
    }
}

/// Whether two values are of the same JSON type.
fn same_kind_value(a: &JsonValue, b: &JsonValue) -> (r: bool)
    ensures
        r == same_kind(a@, b@),
{
    match (a, b) {
        (JsonValue::Null, JsonValue::Null) => true,
        (JsonValue::Bool(_), JsonValue::Bool(_)) => true,
        (JsonValue::Number(_), JsonValue::Number(_)) => true,
        (JsonValue::Str(_), JsonValue::Str(_)) => true,
        (JsonValue::Array(_), JsonValue::Array(_)) => true,
        (JsonValue::Object(_), JsonValue::Object(_)) => true,
        _ => false,
    }
}

/// Reads the scalar resource `name`.
pub fn get_value(store: &Store, name: &str) -> (r: Result<JsonValue, ApiError>)
    ensures
        match member(store.doc(), name@) {
            Some(v) => if is_scalar(v) {
                r matches Ok(x) && x@ == v
            } else {
                r == Err::<JsonValue, ApiError>(ApiError::NotFound)
            },
            None => r == Err::<JsonValue, ApiError>(ApiError::NotFound),
        },
{
    match get_member(&store.members, name) {
        Some(v) => if is_scalar_value(v) {
            Ok(v.deep_copy())
        } else {
            Err(ApiError::NotFound)
        },
        None => Err(ApiError::NotFound),
    }
}

/// What setting scalar `name` to `v` stores, or why it fails.
pub open spec fn set_outcome(
    doc: Seq<(Seq<char>, Json)>,
    name: Seq<char>,
    v: Json,
) -> Result<Json, ApiError> {
    if !is_scalar(v) {
        Err(ApiError::BadRequest(Reason::ArrayOrNull))
    } else {
        match member(doc, name) {
            Some(old) => if !is_scalar(old) {
                Err(ApiError::NotFound)
            } else if !same_kind(old, v) {
                Err(ApiError::BadRequest(Reason::TypeMismatch))
            } else {
                Ok(v)
            },
            None => Err(ApiError::NotFound),
        }
    }
}

/// Replaces the scalar resource `name` with `value`, which must be of the
/// same JSON type, and returns the stored value.
pub fn update_value(
    store: &mut Store,
    name: &str,
    value: JsonValue,
) -> (r: Result<JsonValue, ApiError>)
    requires
        old(store).wf(),
    ensures
        final(store).wf(),
        match set_outcome(old(store).doc(), name@, value@) {
            Err(e) => r == Err::<JsonValue, ApiError>(e) && *final(store) == *old(store),
            Ok(v) => r matches Ok(x) && x@ == v && old(store).mutated(
                &*final(store),
                with_member(old(store).doc(), name@, v),
            ),
        },
{
    if !is_scalar_value(&value) {
        return Err(ApiError::BadRequest(Reason::ArrayOrNull));
    }
    proof {
        lemma_view_members(store.members@);
        lemma_member_found(store.doc(), name@);
    }
    let k = match find_member(&store.members, name) {
        Some(k) => k,
        None => {
            return Err(ApiError::NotFound);
        },
    };
    assert(store.doc()[k as int] == (store.members@[k as int].0@, store.members@[k as int].1@));
    if !is_scalar_value(&store.members[k].1) {
        return Err(ApiError::NotFound);
    }
    if !same_kind_value(&store.members[k].1, &value) {
        return Err(ApiError::BadRequest(Reason::TypeMismatch));
    }
    let out = value.deep_copy();
    let ghost m0 = store.members@;
    let ghost d0 = store.doc();
    let (key, _) = store.members.remove(k);
    let ghost e = (key, value);
    store.members.insert(k, (key, value));
    proof {
        assert(store.members@ =~= m0.update(k as int, e));
        lemma_view_members_update(m0, k as int, e);
        assert(store.doc() == with_member(d0, name@, value@));
    }
    store.touch();
    Ok(out)
}

/// Reads the item with id `id` of collection `name`.
pub fn get_item_by_id(store: &Store, name: &str, id: u64) -> (r: Result<JsonValue, ApiError>)
    requires
        store.wf(),
    ensures
        match member(store.doc(), name@) {
            None => r == Err::<JsonValue, ApiError>(ApiError::NotFound),
            Some(Json::Arr(items)) => if has_item(items, store.key(), id) {
                r matches Ok(x) && forall|i: int|
                    0 <= i < items.len() && id_of(items[i], store.key()) == Some(id) ==> x@
                        == items[i]
            } else {
                r == Err::<JsonValue, ApiError>(ApiError::NotFound)
            },
            Some(_) => r == Err::<JsonValue, ApiError>(ApiError::BadRequest(Reason::NotCollection)),
        },
{
    let (_, items) = match store.locate(name) {
        Ok(x) => x,
        Err(e) => {
            return Err(e);
        },
    };
    proof {
        lemma_view_values(items@);
        lemma_member_found(store.doc(), name@);
        assert(store.doc()[member_index(store.doc(), name@)->0].1 == Json::Arr(view_values(items@)));
    }
    let ghost s = view_values(items@);
    match par_position_of_id(items, store.id_field.as_str(), id) {
        Some(i) => {
            assert(s[i as int] == items@[i as int]@);
            Ok(items[i].deep_copy())
        },
        None => {
            assert forall|i: int| 0 <= i < s.len() implies id_of(s[i], store.key()) != Some(id) by {
                assert(s[i] == items@[i]@);
            }
            Err(ApiError::NotFound)
        },
    }
}

/// The object `v` with member `f` set to `x`.
fn set_member(v: JsonValue, f: &str, x: JsonValue) -> (r: JsonValue)
    requires
        v@ is Obj,
    ensures
        r@ == set_field(v@, f@, x@),
{
    let mut m = match v {
        JsonValue::Object(m) => m,
        _ => {
            proof {
                assert(false);
            }
            Vec::new()
        },
    };
    proof {
        lemma_view_members(m@);
    }
    let ghost m0 = m@;
    let e = (f.to_owned(), x);
    match find_member(&m, f) {
        Some(i) => {
            m.set(i, e);
            proof {
                lemma_view_members_update(m0, i as int, e);
            }
        },
        None => {
            m.push(e);
            proof {
                lemma_view_members_push(m0, e);
            }
        },
    }
    JsonValue::Object(m)
}

/// The id that a payload supplies.
fn payload_id(v: &JsonValue, f: &str) -> (r: Option<Option<u64>>)
    ensures
        r == candidate_id(v@, f@),
{
    let field = match v {
        JsonValue::Object(m) => get_member(m, f),
        _ => None,
    };
    match field {
        None => None,
        Some(JsonValue::Number(n)) => if n.scale == 0 && !n.neg {
            Some(Some(n.mag))
        } else {
            Some(None)
        },
        Some(_) => Some(None),
    }
}

/// Adds an item to the end of collection `name`. An item without an id gets
/// the largest id of the collection plus one; a supplied id must be new.
/// Returns the stored item.
pub fn post_item(
    store: &mut Store,
    name: &str,
    value: JsonValue,
) -> (r: Result<JsonValue, ApiError>)
    requires
        old(store).wf(),
    ensures
        final(store).wf(),
        match post_outcome(old(store).doc(), old(store).key(), name@, value@) {
            Err(e) => r == Err::<JsonValue, ApiError>(e) && *final(store) == *old(store),
            Ok(item) => r matches Ok(x) && x@ == item && old(store).mutated(
                &*final(store),
                with_member(
                    old(store).doc(),
                    name@,
                    Json::Arr(collection(old(store).doc(), name@)->0.push(item)),
                ),
            ),
        },
{
    let f = store.id_field.as_str();
    let is_object = match &value {
        JsonValue::Object(_) => true,
        _ => false,
    };
    if !is_object {
        return Err(ApiError::BadRequest(Reason::NotObject));
    }
    let supplied = payload_id(&value, f);
    if let Some(None) = supplied {
        return Err(ApiError::BadRequest(Reason::IdNotUnsigned));
    }
    let (k, items) = match store.locate(name) {
        Ok(x) => x,
        Err(e) => {
            return Err(e);
        },
    };
    let ghost d0 = store.doc();
    let ghost s = view_values(items@);
    let ghost key = store.key();
    proof {
        lemma_view_values(items@);
        lemma_member_found(d0, name@);
        lemma_max_id_bound(s, key);
    }
    let stored = match supplied {
        Some(Some(id)) => {
            if par_any_has_id(items, f, id) {
                proof {
                    let i = choose|i: int| 0 <= i < items@.len() && id_of(items@[i]@, f@) == Some(id);
                    assert(s[i] == items@[i]@);
                }
                return Err(ApiError::Conflict);
            }
            proof {
                assert forall|i: int| 0 <= i < s.len() implies id_of(s[i], key) != Some(id) by {
                    assert(s[i] == items@[i]@);
                }
            }
            value
        },
        _ => {
            let m = par_max_id(items, f);
            if m == u64::MAX {
                return Err(ApiError::BadRequest(Reason::IdExhausted));
            }
            let n = JsonValue::Number(Number::from_u64(m + 1));
            let v = set_member(value, f, n);
            proof {
                lemma_set_field(value@, key, id_number((m + 1) as u64));
            }
            v
        },
    };
    let out = stored.deep_copy();
    let ghost item = stored@;
    proof {
        assert(id_of(item, key) is Some);
        assert(forall|i: int| 0 <= i < s.len() ==> id_of(s[i], key) != id_of(item, key));
    }
    let mut list = store.swap_items(k, Vec::new());
    let ghost l0 = list@;
    list.push(stored);
    proof {
        lemma_view_values_push(l0, stored);
    }
    let _ = store.swap_items(k, list);
    proof {
        let s2 = s.push(item);
        assert(valid_items(s2, key)) by {
            assert forall|i: int| 0 <= i < s2.len() implies (#[trigger] id_of(s2[i], key)) is Some by {
                if i < s.len() {
                    assert(s2[i] == s[i]);
                }
            }
            assert forall|i: int, j: int|
                0 <= i < s2.len() && 0 <= j < s2.len() && i != j implies #[trigger] id_of(s2[i], key)
                != #[trigger] id_of(s2[j], key) by {
                if i < s.len() && j < s.len() {
                    assert(s2[i] == s[i] && s2[j] == s[j]);
                } else if i < s.len() {
                    assert(s2[i] == s[i]);
                } else if j < s.len() {
                    assert(s2[j] == s[j]);
                }
            }
        }
        assert(store.doc() =~= with_member(d0, name@, Json::Arr(s2)));
        assert forall|i: int| 0 <= i < store.doc().len() implies (#[trigger] store.doc()[i].1 matches Json::Arr(
            its,
        ) ==> valid_items(its, key)) by {
            if i != k {
                assert(store.doc()[i] == d0[i]);
            }
        }
    }
    store.touch();
    Ok(out)
}

/// The index of the first item with id `id`.
fn position_of_id(items: &Vec<JsonValue>, f: &str, id: u64) -> (r: Option<usize>)
    ensures
        r matches Some(i) ==> i < items@.len() && id_of(items@[i as int]@, f@) == Some(id),
        r is None ==> forall|i: int| 0 <= i < items@.len() ==> id_of(#[trigger] items@[i]@, f@) != Some(id),
{
    let mut i: usize = 0;
    while i < items.len()
        invariant
            0 <= i <= items@.len(),
            forall|j: int| 0 <= j < i ==> id_of(#[trigger] items@[j]@, f@) != Some(id),
        decreases items.len() - i,
    {
        if has_id(&items[i], f, id) {
            return Some(i);
        }
        i = i + 1;
    }
    None
}

/// What replacing item `id` of collection `name` with `v` stores, or why it
/// fails. The stored object carries the id `id` whatever id `v` had.
pub open spec fn put_outcome(
    doc: Seq<(Seq<char>, Json)>,
    f: Seq<char>,
    name: Seq<char>,
    id: u64,
    v: Json,
) -> Result<Json, ApiError> {
    if !(v is Obj) {
        Err(ApiError::BadRequest(Reason::NotObject))
    } else {
        match member(doc, name) {
            None => Err(ApiError::NotFound),
            Some(Json::Arr(_)) => Ok(set_field(v, f, id_number(id))),
            Some(_) => Err(ApiError::BadRequest(Reason::NotCollection)),
        }
    }
}

/// Replaces the item with id `id` of collection `name` in place by `value`
/// with its id field forced to `id`, and returns that object. Where no item
/// has that id nothing is stored and the store stays clean, yet the call
/// succeeds.
pub fn update_item_by_id(
    store: &mut Store,
    name: &str,
    id: u64,
    value: JsonValue,
) -> (r: Result<JsonValue, ApiError>)
    requires
        old(store).wf(),
    ensures
        final(store).wf(),
        match put_outcome(old(store).doc(), old(store).key(), name@, id, value@) {
            Err(e) => r == Err::<JsonValue, ApiError>(e) && *final(store) == *old(store),
            Ok(item) => r matches Ok(x) && x@ == item && {
                let items = collection(old(store).doc(), name@)->0;
                if has_item(items, old(store).key(), id) {
                    exists|i: int|
                        0 <= i < items.len() && id_of(items[i], old(store).key()) == Some(id)
                            && old(store).mutated(
                            &*final(store),
                            with_member(old(store).doc(), name@, Json::Arr(items.update(i, item))),
                        )
                } else {
                    *final(store) == *old(store)
                }
            },
        },
{
    let f = store.id_field.as_str();
    let is_object = match &value {
        JsonValue::Object(_) => true,
        _ => false,
    };
    if !is_object {
        return Err(ApiError::BadRequest(Reason::NotObject));
    }
    let (k, items) = match store.locate(name) {
        Ok(x) => x,
        Err(e) => {
            return Err(e);
        },
    };
    let ghost d0 = store.doc();
    let ghost s = view_values(items@);
    let ghost key = store.key();
    proof {
        lemma_view_values(items@);
        lemma_member_found(d0, name@);
        lemma_set_field(value@, key, id_number(id));
    }
    let forced = set_member(value, f, JsonValue::Number(Number::from_u64(id)));
    let out = forced.deep_copy();
    let i = match position_of_id(items, f, id) {
        Some(i) => i,
        None => {
            proof {
                assert forall|j: int| 0 <= j < s.len() implies id_of(s[j], key) != Some(id) by {
                    assert(s[j] == items@[j]@);
                }
            }
            return Ok(out);
        },
    };
    assert(s[i as int] == items@[i as int]@);
    let ghost item = forced@;
    let mut list = store.swap_items(k, Vec::new());
    let ghost l0 = list@;
    proof {
        lemma_view_values(l0);
        assert(view_values(l0) == s);
    }
    list.set(i, forced);
    proof {
        lemma_view_values_update(l0, i as int, forced);
    }
    let _ = store.swap_items(k, list);
    proof {
        let s2 = s.update(i as int, item);
        assert(valid_items(s2, key)) by {
            assert forall|a: int| 0 <= a < s2.len() implies (#[trigger] id_of(s2[a], key)) is Some by {
                if a != i {
                    assert(s2[a] == s[a]);
                }
            }
            assert forall|a: int, b: int|
                0 <= a < s2.len() && 0 <= b < s2.len() && a != b implies #[trigger] id_of(s2[a], key)
                != #[trigger] id_of(s2[b], key) by {
                assert(id_of(s2[a], key) == id_of(s[a], key));
                assert(id_of(s2[b], key) == id_of(s[b], key));
            }
        }
        assert(store.doc() =~= with_member(d0, name@, Json::Arr(s2)));
        assert forall|j: int| 0 <= j < store.doc().len() implies (#[trigger] store.doc()[j].1 matches Json::Arr(
            its,
        ) ==> valid_items(its, key)) by {
            if j != k {
                assert(store.doc()[j] == d0[j]);
            }
        }
    }
    store.touch();
    Ok(out)
}

/// Removes the item with id `id` from collection `name` and returns it.
pub fn delete_item_by_id(store: &mut Store, name: &str, id: u64) -> (r: Result<JsonValue, ApiError>)
    requires
        old(store).wf(),
    ensures
        final(store).wf(),
        match member(old(store).doc(), name@) {
            None => r == Err::<JsonValue, ApiError>(ApiError::NotFound) && *final(store) == *old(store),
            Some(Json::Arr(items)) => if has_item(items, old(store).key(), id) {
                r matches Ok(x) && exists|i: int|
                    0 <= i < items.len() && id_of(items[i], old(store).key()) == Some(id) && x@
                        == items[i] && old(store).mutated(
                        &*final(store),
                        with_member(old(store).doc(), name@, Json::Arr(items.remove(i))),
                    )
            } else {
                r == Err::<JsonValue, ApiError>(ApiError::NotFound) && *final(store) == *old(store)
            },
            Some(_) => r == Err::<JsonValue, ApiError>(ApiError::BadRequest(Reason::NotCollection))
                && *final(store) == *old(store),
        },
{
    let (k, items) = match store.locate(name) {
        Ok(x) => x,
        Err(e) => {
            return Err(e);
        },
    };
    let ghost d0 = store.doc();
    let ghost s = view_values(items@);
    let ghost key = store.key();
    proof {
        lemma_view_values(items@);
        lemma_member_found(d0, name@);
    }
    let i = match position_of_id(items, store.id_field.as_str(), id) {
        Some(i) => i,
        None => {
            proof {
                assert forall|j: int| 0 <= j < s.len() implies id_of(s[j], key) != Some(id) by {
                    assert(s[j] == items@[j]@);
                }
            }
            return Err(ApiError::NotFound);
        },
    };
    assert(s[i as int] == items@[i as int]@);
    let mut list = store.swap_items(k, Vec::new());
    let ghost l0 = list@;
    proof {
        lemma_view_values(l0);
        assert(view_values(l0) == s);
    }
    let removed = list.remove(i);
    proof {
        lemma_view_values_remove(l0, i as int);
    }
    let _ = store.swap_items(k, list);
    proof {
        let s2 = s.remove(i as int);
        assert(valid_items(s2, key)) by {
            assert forall|a: int| 0 <= a < s2.len() implies (#[trigger] id_of(s2[a], key)) is Some by {
                if a < i {
                    assert(s2[a] == s[a]);
                } else {
                    assert(s2[a] == s[a + 1]);
                }
            }
            assert forall|a: int, b: int|
                0 <= a < s2.len() && 0 <= b < s2.len() && a != b implies #[trigger] id_of(s2[a], key)
                != #[trigger] id_of(s2[b], key) by {
                let a2 = if a < i { a } else { a + 1 };
                let b2 = if b < i { b } else { b + 1 };
                assert(s2[a] == s[a2] && s2[b] == s[b2]);
            }
        }
        assert(store.doc() =~= with_member(d0, name@, Json::Arr(s2)));
        assert forall|j: int| 0 <= j < store.doc().len() implies (#[trigger] store.doc()[j].1 matches Json::Arr(
            its,
        ) ==> valid_items(its, key)) by {
            if j != k {
                assert(store.doc()[j] == d0[j]);
            }
        }
    }
    store.touch();
    Ok(removed)
}

/// Lists collection `name`: the items that pass the filters of `params`,
/// sorted, and cut to the window; with the number that passed the filters.
pub fn list(
    store: &Store,
    name: &str,
    paginate: Option<Paginate>,
    sort: Option<Sort>,
    slice: Option<Slice>,
    params: &Vec<(String, String)>,
) -> (r: Result<Page, ApiError>)
    ensures
        match member(store.doc(), name@) {
            None => r == Err::<Page, ApiError>(ApiError::NotFound),
            Some(Json::Arr(items)) => {
                &&& keys_of(sort) is None ==> r == Err::<Page, ApiError>(
                    ApiError::BadRequest(Reason::SortOrderMismatch),
                )
                &&& keys_of(sort) is Some && window_of(paginate, slice) is Err ==> r == Err::<
                    Page,
                    ApiError,
                >(window_of(paginate, slice)->Err_0)
                &&& keys_of(sort) is Some && window_of(paginate, slice) is Ok ==> (r matches Ok(pg)
                    && {
                    let f = kept(items, |x: Json| passes_params(x, params@));
                    &&& pg.total == f.len()
                    &&& exists|s: Seq<Json>|
                        arranged(f, keys_of(sort)->0, s) && view_values(pg.items@) == clip(
                            s,
                            window_of(paginate, slice)->Ok_0,
                        )
                })
            },
            Some(_) => r == Err::<Page, ApiError>(ApiError::BadRequest(Reason::NotCollection)),
        },
{
    let (_, items) = match store.locate(name) {
        Ok(x) => x,
        Err(e) => {
            return Err(e);
        },
    };
    run_query(items, paginate, sort, slice, params)
}

/// The document after creating item `v` in collection `name`; unchanged if
/// the creation fails.
pub open spec fn after_post(
    doc: Seq<(Seq<char>, Json)>,
    f: Seq<char>,
    name: Seq<char>,
    v: Json,
) -> Seq<(Seq<char>, Json)> {
    match post_outcome(doc, f, name, v) {
        Ok(item) => with_member(doc, name, Json::Arr(collection(doc, name)->0.push(item))),
        Err(_) => doc,
    }
}

/// The document after creating the items `vs` one after another.
pub open spec fn post_all(
    doc: Seq<(Seq<char>, Json)>,
    f: Seq<char>,
    name: Seq<char>,
    vs: Seq<Json>,
) -> Seq<(Seq<char>, Json)>
    decreases vs.len(),
{
    if vs.len() == 0 {
        doc
    } else {
        after_post(post_all(doc, f, name, vs.drop_last()), f, name, vs.last())
    }
}

/// Giving the member named `name` a new value leaves it the first of that
/// name.
pub proof fn lemma_with_member(doc: Seq<(Seq<char>, Json)>, name: Seq<char>, v: Json)
    requires
        member(doc, name) is Some,
    ensures
        member(with_member(doc, name, v), name) == Some(v),
        member_index(with_member(doc, name, v), name) == member_index(doc, name),
        with_member(doc, name, v).len() == doc.len(),
{
    lemma_member_found(doc, name);
    let i = member_index(doc, name)->0;
    let d2 = with_member(doc, name, v);
    assert forall|j: int| 0 <= j < i implies d2[j].0 != name by {
        assert(d2[j] == doc[j]);
    }
    lemma_member_index(d2, name, i);
}

/// Deleting an item removes its id from the collection: reading or deleting
/// that id afterwards finds nothing.
pub proof fn law_delete_then_absent(
    doc: Seq<(Seq<char>, Json)>,
    f: Seq<char>,
    name: Seq<char>,
    id: u64,
    i: int,
)
    requires
        valid_doc(doc, f),
        collection(doc, name) matches Some(items) && 0 <= i < items.len() && id_of(items[i], f)
            == Some(id),
    ensures
        ({
            let items = collection(doc, name)->0;
            let d2 = with_member(doc, name, Json::Arr(items.remove(i)));
            collection(d2, name) == Some(items.remove(i)) && !has_item(items.remove(i), f, id)
        }),
{
    let items = collection(doc, name)->0;
    lemma_member_found(doc, name);
    assert(valid_items(items, f)) by {
        let k = member_index(doc, name)->0;
        assert(doc[k].1 == Json::Arr(items));
    }
    lemma_with_member(doc, name, Json::Arr(items.remove(i)));
    let s2 = items.remove(i);
    assert forall|a: int| 0 <= a < s2.len() implies id_of(s2[a], f) != Some(id) by {
        let a2 = if a < i { a } else { a + 1 };
        assert(s2[a] == items[a2]);
    }
}

/// An item created without an id gets the largest id of its collection plus
/// one, above every id already there, and that raises the largest id by one.
pub proof fn law_generated_id_above(
    doc: Seq<(Seq<char>, Json)>,
    f: Seq<char>,
    name: Seq<char>,
    v: Json,
)
    requires
        candidate_id(v, f) is None,
        post_outcome(doc, f, name, v) is Ok,
    ensures
        ({
            let items = collection(doc, name)->0;
            let item = post_outcome(doc, f, name, v)->Ok_0;
            &&& id_of(item, f) == Some((max_id(items, f) + 1) as u64)
            &&& forall|i: int|
                0 <= i < items.len() ==> (#[trigger] id_of(items[i], f) matches Some(x) ==> x
                    < max_id(items, f) + 1)
            &&& max_id(items.push(item), f) == max_id(items, f) + 1
        }),
{
    let items = collection(doc, name)->0;
    let m = max_id(items, f);
    lemma_set_field(v, f, id_number((m + 1) as u64));
    lemma_max_id_bound(items, f);
    let item = post_outcome(doc, f, name, v)->Ok_0;
    assert(items.push(item).drop_last() =~= items);
}

/// The largest id of items numbered `1..=n` in order is `n`.
proof fn lemma_max_of_numbered(items: Seq<Json>, f: Seq<char>)
    requires
        items.len() < u64::MAX,
        forall|i: int| 0 <= i < items.len() ==> #[trigger] id_of(items[i], f) == Some((i + 1) as u64),
    ensures
        max_id(items, f) == items.len(),
    decreases items.len(),
{
    if items.len() > 0 {
        let t = items.drop_last();
        assert forall|i: int| 0 <= i < t.len() implies #[trigger] id_of(t[i], f) == Some((i + 1) as u64) by {
            assert(t[i] == items[i]);
        }
        lemma_max_of_numbered(t, f);
    }
}

/// Items created one after another without ids in an empty collection get
/// the ids `1, 2, ..., n` in the order in which the creations took the
/// store, with no id twice.
pub proof fn law_sequential_ids(
    doc: Seq<(Seq<char>, Json)>,
    f: Seq<char>,
    name: Seq<char>,
    vs: Seq<Json>,
)
    requires
        collection(doc, name) == Some(Seq::<Json>::empty()),
        vs.len() < u64::MAX,
        forall|i: int| 0 <= i < vs.len() ==> (#[trigger] vs[i]) is Obj && candidate_id(vs[i], f) is None,
    ensures
        ({
            let items = collection(post_all(doc, f, name, vs), name)->0;
            &&& collection(post_all(doc, f, name, vs), name) is Some
            &&& items.len() == vs.len()
            &&& forall|i: int| 0 <= i < items.len() ==> #[trigger] id_of(items[i], f) == Some((i + 1) as u64)
        }),
    decreases vs.len(),
{
    if vs.len() > 0 {
        let t = vs.drop_last();
        assert forall|i: int| 0 <= i < t.len() implies (#[trigger] t[i]) is Obj && candidate_id(t[i], f) is None by {
            assert(t[i] == vs[i]);
        }
        law_sequential_ids(doc, f, name, t);
        let d = post_all(doc, f, name, t);
        let items = collection(d, name)->0;
        lemma_max_of_numbered(items, f);
        let v = vs.last();
        assert(vs[vs.len() - 1] == v);
        let item = set_field(v, f, id_number((items.len() + 1) as u64));
        assert(post_outcome(d, f, name, v) == Ok::<Json, ApiError>(item));
        lemma_set_field(v, f, id_number((items.len() + 1) as u64));
        lemma_with_member(d, name, Json::Arr(items.push(item)));
        let s2 = items.push(item);
        assert forall|i: int| 0 <= i < s2.len() implies #[trigger] id_of(s2[i], f) == Some((i + 1) as u64) by {
            if i < items.len() {
                assert(s2[i] == items[i]);
            }
        }
    }
}

/// A created item has an id that no item of its collection has.
proof fn lemma_after_post_valid(doc: Seq<(Seq<char>, Json)>, f: Seq<char>, name: Seq<char>, v: Json)
    requires
        valid_doc(doc, f),
    ensures
        valid_doc(after_post(doc, f, name, v), f),
{
    if let Ok(item) = post_outcome(doc, f, name, v) {
        let items = collection(doc, name)->0;
        lemma_member_found(doc, name);
        let k = member_index(doc, name)->0;
        assert(doc[k].1 == Json::Arr(items));
        assert(valid_items(items, f));
        lemma_max_id_bound(items, f);
        if let Some(Some(id)) = candidate_id(v, f) {
            assert(id_of(item, f) == Some(id));
        } else {
            lemma_set_field(v, f, id_number((max_id(items, f) + 1) as u64));
        }
        let s2 = items.push(item);
        assert(valid_items(s2, f)) by {
            assert forall|i: int| 0 <= i < s2.len() implies (#[trigger] id_of(s2[i], f)) is Some by {
                if i < items.len() {
                    assert(s2[i] == items[i]);
                }
            }
            assert forall|i: int, j: int|
                0 <= i < s2.len() && 0 <= j < s2.len() && i != j implies #[trigger] id_of(s2[i], f)
                != #[trigger] id_of(s2[j], f) by {
                if i < items.len() {
                    assert(s2[i] == items[i]);
                }
                if j < items.len() {
                    assert(s2[j] == items[j]);
                }
            }
        }
        let d2 = with_member(doc, name, Json::Arr(s2));
        assert forall|j: int| 0 <= j < d2.len() implies (#[trigger] d2[j].1 matches Json::Arr(its)
            ==> valid_items(its, f)) by {
            if j != k {
                assert(d2[j] == doc[j]);
            }
        }
    }
}

/// However many items are created, and whether they carry ids or not, no
/// two items of a collection ever share an id.
pub proof fn law_posts_keep_ids_unique(
    doc: Seq<(Seq<char>, Json)>,
    f: Seq<char>,
    name: Seq<char>,
    vs: Seq<Json>,
)
    requires
        valid_doc(doc, f),
    ensures
        valid_doc(post_all(doc, f, name, vs), f),
    decreases vs.len(),
{
    if vs.len() > 0 {
        law_posts_keep_ids_unique(doc, f, name, vs.drop_last());
        lemma_after_post_valid(post_all(doc, f, name, vs.drop_last()), f, name, vs.last());
    }
}

/// A snapshot of a well-formed store reloads as the same document.
pub proof fn law_snapshot_round_trip(s: &Store)
    requires
        s.wf(),
    ensures
        load_outcome(Json::Obj(s.doc()), s.key()) == Some(s.doc()),
{
}

} // verus!
