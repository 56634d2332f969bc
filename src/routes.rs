//! Which routes the document's keys get.

use vstd::prelude::*;

use crate::json::{lemma_view_members, view_members, Json, JsonValue};
use crate::store::Store;
use crate::text::{split_char, split_on};

verus! {

/// The routes a top-level key gets.
#[derive(Clone, Copy, Debug, PartialEq, Eq, Structural)]
pub enum RouteKind {
    /// List, read, create, replace and delete items.
    Collection,
    /// Read and replace the value.
    Scalar,
}

/// The routes of a document, in the order of its members: arrays are
/// collections, null values get none, all other values are scalars.
pub open spec fn routes_of(doc: Seq<(Seq<char>, Json)>) -> Seq<(Seq<char>, RouteKind)>
    decreases doc.len(),
{
    if doc.len() == 0 {
        Seq::empty()
    } else {
        let rest = routes_of(doc.drop_last());
        match doc.last().1 {
            Json::Arr(_) => rest.push((doc.last().0, RouteKind::Collection)),
            Json::Null => rest,
            _ => rest.push((doc.last().0, RouteKind::Scalar)),
        }
    }
}

/// The routes of the store's document.
pub fn routes(store: &Store) -> (r: Vec<(String, RouteKind)>)
    ensures
        r@.map_values(|p: (String, RouteKind)| (p.0@, p.1)) == routes_of(store.doc()),
{
    let members = store.members();
    proof {
        lemma_view_members(members@);
    }
    let mut r: Vec<(String, RouteKind)> = Vec::new();
    let mut i: usize = 0;
    while i < members.len()
        invariant
            0 <= i <= members@.len(),
            view_members(members@) == store.doc(),
            view_members(members@).len() == members@.len(),
            forall|j: int|
                0 <= j < members@.len() ==> #[trigger] view_members(members@)[j] == (
                    members@[j].0@,
                    members@[j].1@,
                ),
            r@.map_values(|p: (String, RouteKind)| (p.0@, p.1)) == routes_of(
                store.doc().subrange(0, i as int),
            ),
        decreases members.len() - i,
    {
        let ghost d = store.doc();
        assert(d.subrange(0, i + 1).drop_last() =~= d.subrange(0, i as int));
        assert(d.subrange(0, i + 1).last() == d[i as int]);
        let ghost r0 = r@;
        match &members[i].1 {
            JsonValue::Array(_) => {
                r.push((members[i].0.clone(), RouteKind::Collection));
                assert(r@.map_values(|p: (String, RouteKind)| (p.0@, p.1)) =~= r0.map_values(
                    |p: (String, RouteKind)| (p.0@, p.1),
                ).push((members@[i as int].0@, RouteKind::Collection)));
            },
            JsonValue::Null => {},
            _ => {
                r.push((members[i].0.clone(), RouteKind::Scalar));
                assert(r@.map_values(|p: (String, RouteKind)| (p.0@, p.1)) =~= r0.map_values(
                    |p: (String, RouteKind)| (p.0@, p.1),
                ).push((members@[i as int].0@, RouteKind::Scalar)));
            },
        }
        i = i + 1;
    }
    assert(store.doc().subrange(0, i as int) =~= store.doc());
    r
}

/// The resource name of a request path: its first segment, the text between
/// the first and the second `/`.
pub fn get_name(path: &str) -> (r: String)
    requires
        split_on(path@, '/').len() >= 2,
    ensures
        r@ == split_on(path@, '/')[1],
{
    let parts = split_char(path, '/');
    assert(crate::text::texts(parts@)[1] == parts@[1]@);
    parts[1].clone()
}

} // verus!
