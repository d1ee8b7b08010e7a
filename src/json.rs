use vstd::prelude::*;

use crate::string_map::last_index_of;

verus! {

broadcast use vstd::seq::group_seq_axioms;

/// A decoded JSON document. An object keeps its members in the order the
/// decoder gave them. A number keeps its value only where it is a
/// non-negative integer that fits in `u64`.
#[derive(Debug)]
pub enum JsonValue {
    Null,
    Bool(bool),
    Number(Option<u64>),
    Str(String),
    Array(Vec<JsonValue>),
    Object(Vec<(String, JsonValue)>),
}

/// The mathematical value of a JSON document.
pub enum JsonView {
    Null,
    Bool(bool),
    Number(Option<u64>),
    Str(Seq<char>),
    Array(Seq<JsonView>),
    Object(Seq<(Seq<char>, JsonView)>),
}

impl JsonValue {
    pub open spec fn deep(&self) -> JsonView
        decreases self,
    {
        match self {
            JsonValue::Null => JsonView::Null,
            JsonValue::Bool(b) => JsonView::Bool(*b),
            JsonValue::Number(n) => JsonView::Number(*n),
            JsonValue::Str(s) => JsonView::Str(s@),
            JsonValue::Array(a) => JsonView::Array(
                Seq::new(
                    a@.len(),
                    |i: int|
                        if 0 <= i < a@.len() {
                            a@[i].deep()
                        } else {
                            JsonView::Null
                        },
                ),
            ),
            JsonValue::Object(o) => JsonView::Object(
                Seq::new(
                    o@.len(),
                    |i: int|
                        if 0 <= i < o@.len() {
                            (o@[i].0@, o@[i].1.deep())
                        } else {
                            (Seq::empty(), JsonView::Null)
                        },
                ),
            ),
        }
    }
}

/// The members of an object, as views, are the views of its members.
pub proof fn lemma_deep_object(v: JsonValue)
    requires
        v is Object,
    ensures
        v.deep() is Object,
        v.deep()->Object_0.len() == v->Object_0@.len(),
        forall|i: int|
            0 <= i < v->Object_0@.len() ==> #[trigger] v.deep()->Object_0[i] == (
                v->Object_0@[i].0@,
                v->Object_0@[i].1.deep(),
            ),
{
}

/// The elements of an array, as views, are the views of its elements.
pub proof fn lemma_deep_array(v: JsonValue)
    requires
        v is Array,
    ensures
        v.deep() is Array,
        v.deep()->Array_0.len() == v->Array_0@.len(),
        forall|i: int|
            0 <= i < v->Array_0@.len() ==> #[trigger] v.deep()->Array_0[i] == v->Array_0@[i].deep(),
{
}

/// The value that a JSON decoder gives for `text`, or `None` where `text` is
/// not JSON.
pub uninterp spec fn json_of_text(text: Seq<char>) -> Option<JsonView>;

/// Relies on serde_json::from_str: decodes `text` into a value tree, or fails
/// with a message; the outcome depends on the text alone.
#[verifier::external_body]
pub(crate) fn read_json(text: &str) -> (r: Result<JsonValue, String>)
    ensures
        match r {
            Ok(v) => json_of_text(text@) == Some(v.deep()),
            Err(_) => json_of_text(text@) is None,
        },
{
    match serde_json::from_str::<serde_json::Value>(text) {
        Ok(v) => Ok(from_serde(v)),
        Err(e) => Err(e.to_string()),
    }
}

impl JsonValue {
    /// Decodes JSON text, or gives `None` where the text is not JSON.
    pub fn from_text(text: &str) -> (r: Option<JsonValue>)
        ensures
            match r {
                Some(v) => json_of_text(text@) == Some(v.deep()),
                None => json_of_text(text@) is None,
            },
    {
        match read_json(text) {
            Ok(v) => Some(v),
            Err(_) => None,
        }
    }
}

/// The value tree that serde_json decodes into, carried opaquely.
#[verifier::external_type_specification]
#[verifier::external_body]
pub struct ExSerdeValue(serde_json::Value);

/// Relies on serde_json::Value's variants: moves a decoded value tree into a
/// `JsonValue`, variant for variant, keeping each object's member order.
#[verifier::external_body]
fn from_serde(v: serde_json::Value) -> JsonValue {
    match v {
        serde_json::Value::Null => JsonValue::Null,
        serde_json::Value::Bool(b) => JsonValue::Bool(b),
        serde_json::Value::Number(n) => JsonValue::Number(n.as_u64()),
        serde_json::Value::String(s) => JsonValue::Str(s),
        serde_json::Value::Array(a) => JsonValue::Array(a.into_iter().map(from_serde).collect()),
        serde_json::Value::Object(o) => JsonValue::Object(
            o.into_iter().map(|(k, x)| (k, from_serde(x))).collect(),
        ),
    }
}

/// The member `name` of an object: the last one of that name.
pub open spec fn field(v: JsonView, name: Seq<char>) -> Option<JsonView> {
    match v {
        JsonView::Object(es) => match last_index_of(es, name) {
            Some(i) => Some(es[i].1),
            None => None,
        },
        _ => None,
    }
}

pub proof fn lemma_last_index_at<V>(es: Seq<(Seq<char>, V)>, k: Seq<char>, i: int)
    requires
        0 <= i < es.len(),
        es[i].0 == k,
        forall|j: int| i < j < es.len() ==> es[j].0 != k,
    ensures
        last_index_of(es, k) == Some(i),
    decreases es.len(),
{
    if i < es.len() - 1 {
        lemma_last_index_at(es.drop_last(), k, i);
    }
}

pub proof fn lemma_last_index_none<V>(es: Seq<(Seq<char>, V)>, k: Seq<char>)
    requires
        forall|j: int| 0 <= j < es.len() ==> es[j].0 != k,
    ensures
        last_index_of(es, k) is None,
    decreases es.len(),
{
    if es.len() > 0 {
        lemma_last_index_none(es.drop_last(), k);
    }
}

/// The position of the last member of the object `v` named `name`.
pub fn field_index(v: &JsonValue, name: &str) -> (r: Option<usize>)
    requires
        v is Object,
    ensures
        match r {
            Some(i) => i < v->Object_0@.len() && last_index_of(v.deep()->Object_0, name@) == Some(
                i as int,
            ),
            None => last_index_of(v.deep()->Object_0, name@) is None,
        },
{
    let ghost es = v.deep()->Object_0;
    proof {
        lemma_deep_object(*v);
    }
    match v {
        JsonValue::Object(o) => {
            let mut i: usize = o.len();
            while i > 0
                invariant
                    *v == JsonValue::Object(*o),
                    i <= o@.len(),
                    v.deep() is Object,
                    es == v.deep()->Object_0,
                    es.len() == o@.len(),
                    forall|j: int|
                        0 <= j < o@.len() ==> #[trigger] es[j] == (o@[j].0@, o@[j].1.deep()),
                    forall|j: int| i <= j < o@.len() ==> es[j].0 != name@,
                decreases i,
            {
                i = i - 1;
                if crate::string_map::str_eq(o[i].0.as_str(), name) {
                    proof {
                        lemma_last_index_at(es, name@, i as int);
                    }
                    return Some(i);
                }
            }
            proof {
                lemma_last_index_none(es, name@);
            }
            None
        },
        _ => None,
    }
}

/// Looks up the member `name` of `v`, where `v` is an object.
pub fn get_field<'a>(v: &'a JsonValue, name: &str) -> (r: Option<&'a JsonValue>)
    ensures
        match r {
            Some(x) => field(v.deep(), name@) == Some(x.deep()),
            None => field(v.deep(), name@) is None,
        },
{
    match v {
        JsonValue::Object(o) => {
            proof {
                lemma_deep_object(*v);
            }
            match field_index(v, name) {
                Some(i) => {
                    assert(v.deep()->Object_0[i as int].1 == o@[i as int].1.deep());
                    Some(&o[i].1)
                },
                None => None,
            }
        },
        _ => None,
    }
}

} // verus!
