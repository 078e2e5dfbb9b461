//! JSON documents, read and written by `serde_json`.
//!
//! A value is opaque here. What it holds is named: the members of an object,
//! the items of an array, the text of a string.

use vstd::prelude::*;
use vstd::string::*;

use crate::order::lemma_text_lt_total;
use crate::order::text_lt;

verus! {

/// A JSON value.
#[verifier::external_type_specification]
#[verifier::external_body]
pub struct ExValue(serde_json::Value);

/// The members of an object; none of a value that is no object.
pub uninterp spec fn members(v: serde_json::Value) -> Option<Map<Seq<char>, serde_json::Value>>;

/// The items of an array; none of a value that is no array.
pub uninterp spec fn items(v: serde_json::Value) -> Option<Seq<serde_json::Value>>;

/// The text of a string; none of a value that is no string.
pub uninterp spec fn string_text(v: serde_json::Value) -> Option<Seq<char>>;

/// Whether the value is `null`.
pub uninterp spec fn null(v: serde_json::Value) -> bool;

/// The value that a text reads as; none when the text is not JSON.
pub uninterp spec fn parsed(text: Seq<char>) -> Option<serde_json::Value>;

/// A value printed over several lines, indented.
pub uninterp spec fn pretty(v: serde_json::Value) -> Seq<char>;

/// A value printed on one line.
pub uninterp spec fn compact(v: serde_json::Value) -> Seq<char>;

/// An object whose members are strings, one and all.
pub open spec fn holds_strings(v: serde_json::Value) -> bool {
    members(v) is Some && forall|k: Seq<char>|
        members(v)->0.contains_key(k) ==> string_text(#[trigger] members(v)->0[k]) is Some
}

/// Both objects have the same keys, and under each key the same string.
pub open spec fn same_strings(a: serde_json::Value, b: serde_json::Value) -> bool {
    &&& members(a) is Some && members(b) is Some
    &&& members(a)->0.dom() == members(b)->0.dom()
    &&& forall|k: Seq<char>|
        members(a)->0.contains_key(k) ==> string_text(#[trigger] members(a)->0[k]) == string_text(
            members(b)->0[k],
        )
}

/// Both values are objects with the same keys, or neither is an object.
pub open spec fn same_keys(a: serde_json::Value, b: serde_json::Value) -> bool {
    &&& members(a) is Some == members(b) is Some
    &&& members(a) is Some ==> members(a)->0.dom() == members(b)->0.dom()
}

/// Both values have the same keys, and so have the members under each of them.
pub open spec fn reads_alike(a: serde_json::Value, b: serde_json::Value) -> bool {
    &&& same_keys(a, b)
    &&& members(a) is Some ==> forall|k: Seq<char>|
        members(a)->0.contains_key(k) ==> same_keys(
            #[trigger] members(a)->0[k],
            members(b)->0[k],
        )
}

/// `serde_json::from_str` reads a text as a value, and fails on one that is not
/// JSON. What it reads depends on the text alone; its message is left open.
#[verifier::external_body]
pub(crate) fn parse_json(text: &str) -> (r: Result<serde_json::Value, String>)
    ensures
        match r {
            Ok(v) => parsed(text@) == Some(v),
            Err(_) => parsed(text@) is None,
        },
{
    serde_json::from_str(text).map_err(|e| e.to_string())
}

/// `serde_json::to_string_pretty` prints a value. It fails only on what serializes
/// with an error or holds a map without string keys, and a value does neither. An
/// object of strings, printed and read again, holds the same strings. Whatever is
/// printed and can be read again has the same keys, which is claimed of an object and
/// of its members. That it can be read is left open: the reader refuses what nests too
/// deep.
#[verifier::external_body]
pub(crate) fn print_pretty(v: &serde_json::Value) -> (r: Result<String, String>)
    ensures
        r is Ok,
        r matches Ok(text) ==> text@ == pretty(*v) && (holds_strings(*v) ==> parsed(text@) is Some
            && same_strings(*v, parsed(text@)->0)) && (parsed(text@) matches Some(w)
            ==> reads_alike(*v, w)),
{
    serde_json::to_string_pretty(v).map_err(|e| e.to_string())
}

/// `serde_json::to_string` prints a value on one line. Like the printing over several
/// lines it does not fail on a value.
#[verifier::external_body]
pub(crate) fn print_compact(v: &serde_json::Value) -> (r: Result<String, String>)
    ensures
        r is Ok,
        r matches Ok(text) ==> text@ == compact(*v),
{
    serde_json::to_string(v).map_err(|e| e.to_string())
}

/// The texts come in ascending order, none twice.
pub open spec fn ascending(keys: Seq<String>) -> bool {
    forall|i: int, j: int|
        0 <= i < j < keys.len() ==> text_lt((#[trigger] keys[i])@, (#[trigger] keys[j])@)
}

/// The strings are the keys of the map, in ascending order.
pub open spec fn lists_keys(keys: Seq<String>, m: Map<Seq<char>, serde_json::Value>) -> bool {
    &&& ascending(keys)
    &&& forall|i: int| 0 <= i < keys.len() ==> m.contains_key((#[trigger] keys[i])@)
    &&& forall|k: Seq<char>| #[trigger]
        m.contains_key(k) ==> exists|i: int| 0 <= i < keys.len() && (#[trigger] keys[i])@ == k
}

/// `serde_json::Map::keys` walks the keys of an object, which its `BTreeMap`
/// holds in ascending order.
#[verifier::external_body]
pub(crate) fn object_keys(v: &serde_json::Value) -> (r: Option<Vec<String>>)
    ensures
        match r {
            Some(keys) => members(*v) is Some && lists_keys(keys@, members(*v)->0),
            None => members(*v) is None,
        },
{
    v.as_object().map(|o| o.keys().cloned().collect())
}

/// `serde_json::Value::get` finds a member of an object by its key.
#[verifier::external_body]
pub(crate) fn member<'a>(v: &'a serde_json::Value, key: &str) -> (r: Option<&'a serde_json::Value>)
    ensures
        match r {
            Some(m) => members(*v) is Some && members(*v)->0.contains_key(key@) && *m == members(
                *v,
            )->0[key@],
            None => members(*v) is None || !members(*v)->0.contains_key(key@),
        },
{
    v.get(key)
}

/// `serde_json::Map::remove` takes a member out of an object.
#[verifier::external_body]
pub(crate) fn remove_member(v: &mut serde_json::Value, key: &str) -> (r: Option<serde_json::Value>)
    ensures
        match members(*old(v)) {
            Some(m) => {
                &&& members(*final(v)) == Some(m.remove(key@))
                &&& r == if m.contains_key(key@) {
                    Some(m[key@])
                } else {
                    None
                }
            },
            None => *final(v) == *old(v) && r is None,
        },
{
    v.as_object_mut().and_then(|o| o.remove(key))
}

/// `serde_json::Map::insert` puts a member into an object, in the place of one
/// with the same key. A value that is no object stays as it is.
#[verifier::external_body]
pub(crate) fn insert_member(v: &mut serde_json::Value, key: String, value: serde_json::Value)
    ensures
        match members(*old(v)) {
            Some(m) => members(*final(v)) == Some(m.insert(key@, value)),
            None => *final(v) == *old(v),
        },
{
    if let Some(o) = v.as_object_mut() {
        o.insert(key, value);
    }
}

/// `serde_json::Value::as_array` gives the items of an array.
#[verifier::external_body]
pub(crate) fn array_items(v: &serde_json::Value) -> (r: Option<Vec<serde_json::Value>>)
    ensures
        match r {
            Some(a) => items(*v) == Some(a@),
            None => items(*v) is None,
        },
{
    v.as_array().cloned()
}

/// `serde_json::Value::Array` makes an array of some values.
#[verifier::external_body]
pub(crate) fn array_of(a: Vec<serde_json::Value>) -> (r: serde_json::Value)
    ensures
        items(r) == Some(a@),
{
    serde_json::Value::Array(a)
}

/// `serde_json::Map::new` makes an object without members.
#[verifier::external_body]
pub(crate) fn empty_object() -> (r: serde_json::Value)
    ensures
        members(r) == Some(Map::<Seq<char>, serde_json::Value>::empty()),
{
    serde_json::Value::Object(serde_json::Map::new())
}

/// `serde_json::Value::is_null` tells `null` from any other value.
#[verifier::external_body]
pub(crate) fn is_null(v: &serde_json::Value) -> (r: bool)
    ensures
        r == null(*v),
        r ==> members(*v) is None && items(*v) is None,
{
    v.is_null()
}

/// `serde_json::Value::String` makes a string of a text.
#[verifier::external_body]
pub(crate) fn string_of_text(text: &str) -> (r: serde_json::Value)
    ensures
        string_text(r) == Some(text@),
{
    serde_json::Value::String(text.to_owned())
}

/// `serde_json::Value::as_str` gives the text of a string.
#[verifier::external_body]
pub(crate) fn text_of_string(v: &serde_json::Value) -> (r: Option<String>)
    ensures
        match r {
            Some(text) => string_text(*v) == Some(text@),
            None => string_text(*v) is None,
        },
{
    v.as_str().map(|s| s.to_owned())
}

/// `list` holds the keys of the map in ascending order.
pub open spec fn is_key_list(
    list: Seq<Seq<char>>,
    m: Map<Seq<char>, serde_json::Value>,
) -> bool {
    &&& forall|i: int, j: int|
        0 <= i < j < list.len() ==> text_lt(#[trigger] list[i], #[trigger] list[j])
    &&& forall|k: Seq<char>| #[trigger] m.contains_key(k) <==> list.contains(k)
}

/// The keys of the map in ascending order.
pub open spec fn key_list(m: Map<Seq<char>, serde_json::Value>) -> Seq<Seq<char>> {
    choose|list: Seq<Seq<char>>| is_key_list(list, m)
}

/// There is one such list.
pub proof fn lemma_key_list(list: Seq<Seq<char>>, m: Map<Seq<char>, serde_json::Value>)
    requires
        is_key_list(list, m),
    ensures
        key_list(m) == list,
{
    let other = key_list(m);
    lemma_same_start(list, other, m, list.len() as int);
    lemma_same_start(other, list, m, other.len() as int);
    assert(list =~= other);
}

proof fn lemma_same_start(
    a: Seq<Seq<char>>,
    b: Seq<Seq<char>>,
    m: Map<Seq<char>, serde_json::Value>,
    n: int,
)
    requires
        is_key_list(a, m),
        is_key_list(b, m),
        0 <= n <= a.len(),
    ensures
        n <= b.len(),
        forall|i: int| 0 <= i < n ==> a[i] == b[i],
    decreases n,
{
    if n > 0 {
        lemma_same_start(a, b, m, n - 1);
        let i = n - 1;
        assert(a.contains(a[i]));
        assert(m.contains_key(a[i]));
        assert(b.contains(a[i]));
        let j = choose|j: int| 0 <= j < b.len() && b[j] == a[i];
        lemma_text_lt_total(a[i], a[i]);
        if j < i {
            assert(a[j] == b[j]);
            assert(text_lt(a[j], a[i]));
        } else if j > i {
            assert(text_lt(b[i], b[j]));
            assert(b.contains(b[i]));
            assert(m.contains_key(b[i]));
            assert(a.contains(b[i]));
            let x = choose|x: int| 0 <= x < a.len() && a[x] == b[i];
            lemma_text_lt_total(b[i], a[i]);
            if x < i {
                assert(a[x] == b[x]);
                assert(text_lt(b[x], b[i]));
                lemma_text_lt_total(b[i], b[i]);
            } else if x > i {
                assert(text_lt(a[i], a[x]));
            }
        }
    }
}

/// The keys that `keys` walks are the key list.
pub proof fn lemma_lists_keys(keys: Seq<String>, m: Map<Seq<char>, serde_json::Value>)
    requires
        lists_keys(keys, m),
    ensures
        key_list(m) == keys.map_values(|k: String| k@),
{
    let list = keys.map_values(|k: String| k@);
    assert forall|k: Seq<char>| #[trigger] m.contains_key(k) <==> list.contains(k) by {
        if m.contains_key(k) {
            let i = choose|i: int| 0 <= i < keys.len() && (#[trigger] keys[i])@ == k;
            assert(list[i] == k);
        }
        if list.contains(k) {
            let i = choose|i: int| 0 <= i < list.len() && list[i] == k;
            assert(m.contains_key(keys[i]@));
        }
    }
    assert forall|i: int, j: int| 0 <= i < j < list.len() implies text_lt(
        #[trigger] list[i],
        #[trigger] list[j],
    ) by {
        assert(text_lt(keys[i]@, keys[j]@));
    }
    lemma_key_list(list, m);
}

/// The object that holds the project paths of a registry file: the member
/// `projects` where it is an object, else the document itself.
pub open spec fn projects(root: serde_json::Value) -> Option<Map<Seq<char>, serde_json::Value>> {
    if has_projects(root) {
        members(members(root)->0["projects"@])
    } else {
        members(root)
    }
}

/// Whether the document has a member `projects` that is an object.
pub open spec fn has_projects(root: serde_json::Value) -> bool {
    members(root) is Some && members(root)->0.contains_key("projects"@) && members(
        members(root)->0["projects"@],
    ) is Some
}

/// The project paths that a registry file registers, in ascending order;
/// none where the document is no object.
pub(crate) fn project_keys(root: &serde_json::Value) -> (r: Option<Vec<String>>)
    ensures
        match r {
            Some(keys) => projects(*root) is Some && lists_keys(keys@, projects(*root)->0),
            None => projects(*root) is None,
        },
{
    if let Some(p) = member(root, "projects") {
        if let Some(keys) = object_keys(p) {
            return Some(keys);
        }
    }
    object_keys(root)
}

} // verus!
