//! JSON as the password manager's protocol uses it: objects of texts, written
//! and read.

use vstd::prelude::*;

use serde_json::Map as JsonMap;
use serde_json::Value;

verus! {

/// What is wrong with bytes that are not JSON; `None` where they are.
pub uninterp spec fn json_problem(bytes: Seq<u8>) -> Option<Seq<char>>;

/// `serde_json::from_slice` to a `Value`: whether the bytes are JSON, and else
/// what it reports, depends on the bytes alone.
#[verifier::external_body]
pub(crate) fn check_json(bytes: &[u8]) -> (r: Option<String>)
    ensures
        match r {
            Some(problem) => json_problem(bytes@) == Some(problem@),
            None => json_problem(bytes@) is None,
        },
{
    serde_json::from_slice::<Value>(bytes).err().map(|e| e.to_string())
}

/// The text that stands at a JSON pointer in JSON; `None` where the bytes are
/// not JSON, or something else or nothing stands there.
pub uninterp spec fn json_text(bytes: Seq<u8>, pointer: Seq<char>) -> Option<Seq<char>>;

/// `Value::pointer` and `Value::as_str` on what `serde_json::from_slice` reads:
/// the text depends on the bytes and the pointer alone.
#[verifier::external_body]
pub(crate) fn text_at(bytes: &[u8], pointer: &str) -> (r: Option<String>)
    ensures
        match r {
            Some(t) => json_text(bytes@, pointer@) == Some(t@),
            None => json_text(bytes@, pointer@) is None,
        },
{
    let value = serde_json::from_slice::<Value>(bytes).ok()?;
    value.pointer(pointer)?.as_str().map(|t| t.to_owned())
}

/// How many items the list at a JSON pointer has; `None` where the bytes are
/// not JSON, or something else or nothing stands there.
pub uninterp spec fn json_count(bytes: Seq<u8>, pointer: Seq<char>) -> Option<nat>;

/// `Value::pointer` and `Value::as_array` on what `serde_json::from_slice`
/// reads: the length of the list depends on the bytes and the pointer alone.
#[verifier::external_body]
pub(crate) fn count_at(bytes: &[u8], pointer: &str) -> (r: Option<usize>)
    ensures
        match r {
            Some(n) => json_count(bytes@, pointer@) == Some(n as nat),
            None => json_count(bytes@, pointer@) is None,
        },
{
    let value = serde_json::from_slice::<Value>(bytes).ok()?;
    value.pointer(pointer)?.as_array().map(|list| list.len())
}

/// The bytes of an object with the given texts, and under each of the given
/// keys a list of objects of texts.
pub uninterp spec fn json_object(
    texts: Seq<(Seq<char>, Seq<char>)>,
    lists: Seq<(Seq<char>, Seq<Seq<(Seq<char>, Seq<char>)>>)>,
) -> Seq<u8>;

/// The texts of keys and values.
pub open spec fn pairs(v: Seq<(String, String)>) -> Seq<(Seq<char>, Seq<char>)> {
    v.map_values(|p: (String, String)| (p.0@, p.1@))
}

/// The texts of each object of a list.
pub open spec fn objects(v: Seq<Vec<(String, String)>>) -> Seq<Seq<(Seq<char>, Seq<char>)>> {
    v.map_values(|o: Vec<(String, String)>| pairs(o@))
}

/// The texts of keys and lists.
pub open spec fn keyed_lists(v: Seq<(String, Vec<Vec<(String, String)>>)>) -> Seq<
    (Seq<char>, Seq<Seq<(Seq<char>, Seq<char>)>>),
> {
    v.map_values(|p: (String, Vec<Vec<(String, String)>>)| (p.0@, objects(p.1@)))
}

/// Whether a key means itself in a JSON pointer.
pub open spec fn plain(key: Seq<char>) -> bool {
    !key.contains('/') && !key.contains('~')
}

/// Whether no other member has the key of a text.
pub open spec fn lone(
    texts: Seq<(Seq<char>, Seq<char>)>,
    lists: Seq<(Seq<char>, Seq<Seq<(Seq<char>, Seq<char>)>>)>,
    i: int,
) -> bool {
    &&& forall|j: int| 0 <= j < texts.len() && j != i ==> (#[trigger] texts[j]).0 != texts[i].0
    &&& forall|j: int| 0 <= j < lists.len() ==> (#[trigger] lists[j]).0 != texts[i].0
}

/// `serde_json::to_vec` on an object made of the given members: the bytes
/// depend on the members alone. They are JSON, and the text of a member whose
/// key no other has stands at the key.
#[verifier::external_body]
pub(crate) fn object_bytes(
    texts: &Vec<(String, String)>,
    lists: &Vec<(String, Vec<Vec<(String, String)>>)>,
) -> (r: Vec<u8>)
    ensures
        r@ == json_object(pairs(texts@), keyed_lists(lists@)),
        json_problem(r@) is None,
        forall|i: int|
            0 <= i < texts@.len() && lone(pairs(texts@), keyed_lists(lists@), i) && plain(
                (#[trigger] pairs(texts@)[i]).0,
            ) ==> json_text(r@, "/"@ + pairs(texts@)[i].0) == Some(pairs(texts@)[i].1),
{
    let text = |(k, v): &(String, String)| (k.clone(), Value::from(v.as_str()));
    let object = |o: &Vec<(String, String)>| Value::Object(o.iter().map(text).collect());
    let mut members: JsonMap<String, Value> = texts.iter().map(text).collect();
    members.extend(
        lists.iter().map(|(k, l)| (k.clone(), Value::Array(l.iter().map(object).collect()))),
    );
    serde_json::to_vec(&Value::Object(members)).expect("an object of texts has an encoding")
}

} // verus!
