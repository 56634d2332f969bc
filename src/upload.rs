//! Naming of uploaded files: each file is stored under a fresh random id,
//! keeping the extension of the name the client gave.

use vstd::prelude::*;

use crate::text::{split_char, split_on};

verus! {

/// Whether `c` can stand in the text of a random id.
pub open spec fn is_id_char(c: char) -> bool {
    c == '-' || ('0' <= c <= '9') || ('a' <= c <= 'f')
}

/// Relies on `uuid::Uuid::new_v4` and its `Display`, which writes the
/// hyphenated form: 36 characters, lower-case hex digits and hyphens.
#[verifier::external_body]
fn new_upload_id() -> (r: String)
    ensures
        r@.len() == 36,
        forall|i: int| 0 <= i < r@.len() ==> is_id_char(#[trigger] r@[i]),
{
    uuid::Uuid::new_v4().to_string()
}

/// Where an uploaded file goes: the name the client gave it, the path of the
/// stored file, and the path it is served under.
#[derive(Debug)]
pub struct UploadTarget {
    pub name: String,
    pub file_path: String,
    pub url_path: String,
}

/// The extension of a file name: the text after its last `.`, or the whole
/// name if it has none.
pub open spec fn extension_of(name: Seq<char>) -> Seq<char> {
    split_on(name, '.').last()
}

/// Whether `t` names the upload of a file called `file_name` under the id
/// `id` in directory `public_path`.
pub open spec fn names_upload(
    t: UploadTarget,
    public_path: Seq<char>,
    id: Seq<char>,
    file_name: Option<Seq<char>>,
) -> bool {
    let name = match file_name {
        Some(n) => n,
        None => id,
    };
    let stored = id + "."@ + extension_of(name);
    &&& t.name@ == name
    &&& t.file_path@ == public_path + "/"@ + stored
    &&& t.url_path@ == "/"@ + stored
}

/// The extension of a file name.
pub fn extension(name: &str) -> (r: String)
    ensures
        r@ == extension_of(name@),
{
    let parts = split_char(name, '.');
    proof {
        crate::text::lemma_split_on_nonempty(name@, '.');
    }
    let n = parts.len();
    assert(crate::text::texts(parts@)[n - 1] == parts@[n - 1]@);
    parts[n - 1].clone()
}

/// Names the upload of a file called `file_name` under the id `id`; a file
/// without a name is named by its id.
pub fn upload_target(public_path: &str, id: &str, file_name: Option<&str>) -> (r: UploadTarget)
    ensures
        names_upload(
            r,
            public_path@,
            id@,
            match file_name {
                Some(n) => Some(n@),
                None => None,
            },
        ),
{
    let name = match file_name {
        Some(n) => n.to_owned(),
        None => id.to_owned(),
    };
    let ext = extension(name.as_str());
    let stored = id.to_owned().concat(".").concat(ext.as_str());
    let file_path = public_path.to_owned().concat("/").concat(stored.as_str());
    let url_path = "/".to_owned().concat(stored.as_str());
    UploadTarget { name, file_path, url_path }
}

/// Names the upload of a file called `file_name` under a fresh random id.
pub fn plan_upload(public_path: &str, file_name: Option<&str>) -> (r: UploadTarget)
    ensures
        exists|id: Seq<char>|
            id.len() == 36 && (forall|i: int| 0 <= i < id.len() ==> is_id_char(#[trigger] id[i]))
                && names_upload(
                r,
                public_path@,
                id,
                match file_name {
                    Some(n) => Some(n@),
                    None => None,
                },
            ),
{
    let id = new_upload_id();
    upload_target(public_path, id.as_str(), file_name)
}

} // verus!
