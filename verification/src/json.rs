//! JSON values. A `serde_json::Value` is described by the tree that it stands for.
use vstd::prelude::*;

verus! {

#[verifier::external_type_specification]
#[verifier::external_body]
pub struct ExValue(serde_json::Value);

/// The tree that a JSON value stands for.
pub enum Json {
    Null,
    Bool(bool),
    Int(int),
    /// A floating-point number, by the bits of its double.
    Float(int),
    Str(Seq<char>),
    Arr(Seq<Json>),
    Obj(Map<Seq<char>, Json>),
}

/// The tree that `v` stands for.
pub uninterp spec fn tree(v: serde_json::Value) -> Json;

/// The compact text of a tree, with the members of objects in the order of their names.
pub uninterp spec fn json_text(j: Json) -> Seq<char>;

/// The tree that a JSON text denotes, if it is one.
pub uninterp spec fn json_parse(bytes: Seq<u8>) -> Option<Json>;

/// The trees of a list of values.
pub open spec fn trees(v: Seq<serde_json::Value>) -> Seq<Json> {
    v.map_values(|x: serde_json::Value| tree(x))
}

/// The member of an object with this name.
pub open spec fn member(j: Json, name: Seq<char>) -> Option<Json> {
    match j {
        Json::Obj(m) => if m.dom().contains(name) {
            Some(m[name])
        } else {
            None
        },
        _ => None,
    }
}

/// `serde_json::Value::from` a `bool`.
#[verifier::external_body]
pub(crate) fn of_bool(b: bool) -> (r: serde_json::Value)
    ensures
        tree(r) == Json::Bool(b),
{
    serde_json::Value::from(b)
}

/// `serde_json::Value::from` an unsigned number.
#[verifier::external_body]
pub(crate) fn of_number(n: u32) -> (r: serde_json::Value)
    ensures
        tree(r) == Json::Int(n as int),
{
    serde_json::Value::from(n)
}

/// `serde_json::Value::from` a text.
#[verifier::external_body]
pub(crate) fn of_str(s: &str) -> (r: serde_json::Value)
    ensures
        tree(r) == Json::Str(s@),
{
    serde_json::Value::from(s)
}

/// `serde_json::Value::from` a vector of values: an array of them in their order.
#[verifier::external_body]
pub(crate) fn of_vec(v: Vec<serde_json::Value>) -> (r: serde_json::Value)
    ensures
        tree(r) == Json::Arr(trees(v@)),
{
    serde_json::Value::from(v)
}

/// `serde_json::Map::new` as a value: the object without members.
#[verifier::external_body]
pub(crate) fn object() -> (r: serde_json::Value)
    ensures
        tree(r) == Json::Obj(Map::empty()),
{
    serde_json::Value::from(serde_json::Map::new())
}

/// Assignment through `serde_json::Value`'s `IndexMut` by name: the object gets the
/// member, in place of one with the same name. What is no object is refused there.
#[verifier::external_body]
pub(crate) fn put(obj: &mut serde_json::Value, name: &str, v: serde_json::Value)
    requires
        tree(*old(obj)) is Obj,
    ensures
        tree(*final(obj)) == Json::Obj(tree(*old(obj))->Obj_0.insert(name@, tree(v))),
{
    obj[name] = v;
}

/// `serde_json::Value`'s `to_string`: the compact text of its tree.
#[verifier::external_body]
pub(crate) fn render(v: &serde_json::Value) -> (r: String)
    ensures
        r@ == json_text(tree(*v)),
{
    v.to_string()
}

/// `serde_json::from_slice` into a value: what a text denotes depends on the text alone.
#[verifier::external_body]
pub(crate) fn parse(bytes: &[u8]) -> (r: Option<serde_json::Value>)
    ensures
        match r {
            Some(v) => json_parse(bytes@) == Some(tree(v)),
            None => json_parse(bytes@) is None,
        },
{
    serde_json::from_slice(bytes).ok()
}

/// `serde_json::Value::get` by name: the member of an object, `None` for anything else.
#[verifier::external_body]
pub(crate) fn get<'a>(v: &'a serde_json::Value, name: &str) -> (r: Option<&'a serde_json::Value>)
    ensures
        match r {
            Some(x) => member(tree(*v), name@) == Some(tree(*x)),
            None => member(tree(*v), name@) is None,
        },
{
    v.get(name)
}

/// `serde_json::Value::as_bool`.
#[verifier::external_body]
pub(crate) fn as_bool(v: &serde_json::Value) -> (r: Option<bool>)
    ensures
        r == (match tree(*v) {
            Json::Bool(b) => Some(b),
            _ => None,
        }),
{
    v.as_bool()
}

/// `serde_json::Value::as_str`.
#[verifier::external_body]
pub(crate) fn as_str(v: &serde_json::Value) -> (r: Option<&str>)
    ensures
        match r {
            Some(s) => tree(*v) == Json::Str(s@),
            None => !(tree(*v) is Str),
        },
{
    v.as_str()
}

} // verus!
