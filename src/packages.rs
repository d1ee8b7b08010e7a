use vstd::prelude::*;

use crate::json::{field_index, lemma_deep_array, lemma_deep_object, JsonValue, JsonView};
use crate::model::{decode_v2, v2_of, StringMap, V2Dependency, V2Model};
use crate::string_map::{last_index_of, pairs_map};
use crate::text::{
    occurs_after_start, occurs_after_start_exec, split_at_space, split_at_space_exec, starts_with,
    starts_with_exec,
};

verus! {

broadcast use vstd::seq::group_seq_axioms;

/// The directory that holds installed packages, as it begins a flat-map key.
pub open spec fn install_prefix() -> Seq<char> {
    "node_modules/"@
}

/// The name and constraint recorded for an element of an `engines` array.
pub open spec fn engine_member(e: JsonView) -> (Seq<char>, JsonView) {
    match e {
        JsonView::Str(s) => match split_at_space(s) {
            Some(p) => (p.0, JsonView::Str(p.1)),
            None => ("not_found"@, JsonView::Str("not_found"@)),
        },
        _ => ("not_found"@, JsonView::Str("not_found"@)),
    }
}

/// What an `engines` array is rewritten to: `null` when empty, else an
/// object with one member per element.
pub open spec fn engines_from_array(a: Seq<JsonView>) -> JsonView {
    if a.len() == 0 {
        JsonView::Null
    } else {
        JsonView::Object(a.map_values(|e: JsonView| engine_member(e)))
    }
}

/// A flat-map entry whose `engines` member is an array gets that member
/// rewritten; any other value stays as it is.
pub open spec fn normalize_view(v: JsonView) -> JsonView {
    match v {
        JsonView::Object(es) => match last_index_of(es, "engines"@) {
            Some(i) => if 0 <= i < es.len() && es[i].1 is Array {
                JsonView::Object(es.update(i, (es[i].0, engines_from_array(es[i].1->Array_0))))
            } else {
                v
            },
            None => v,
        },
        _ => v,
    }
}

fn engine_member_exec(e: &JsonValue) -> (r: (String, JsonValue))
    ensures
        (r.0@, r.1.deep()) == engine_member(e.deep()),
{
    match e {
        JsonValue::Str(s) => match split_at_space_exec(s.as_str()) {
            Some(p) => {
                let (name, constraint) = p;
                (name, JsonValue::Str(constraint))
            },
            None => ("not_found".to_string(), JsonValue::Str("not_found".to_string())),
        },
        _ => ("not_found".to_string(), JsonValue::Str("not_found".to_string())),
    }
}

fn engines_from_array_exec(a: &Vec<JsonValue>) -> (r: JsonValue)
    ensures
        r.deep() == engines_from_array(JsonValue::Array(*a).deep()->Array_0),
{
    let ghost av = JsonValue::Array(*a).deep()->Array_0;
    proof {
        lemma_deep_array(JsonValue::Array(*a));
    }
    if a.len() == 0 {
        return JsonValue::Null;
    }
    let mut out: Vec<(String, JsonValue)> = Vec::new();
    let mut i: usize = 0;
    while i < a.len()
        invariant
            av == JsonValue::Array(*a).deep()->Array_0,
            av.len() == a@.len(),
            forall|j: int| 0 <= j < a@.len() ==> #[trigger] av[j] == a@[j].deep(),
            i <= a@.len(),
            out@.len() == i,
            forall|j: int|
                0 <= j < i ==> (#[trigger] out@[j].0@, out@[j].1.deep()) == engine_member(av[j]),
        decreases a@.len() - i,
    {
        let m = engine_member_exec(&a[i]);
        out.push(m);
        i = i + 1;
    }
    let r = JsonValue::Object(out);
    proof {
        lemma_deep_object(r);
        assert(r.deep()->Object_0 =~= av.map_values(|e: JsonView| engine_member(e)));
    }
    r
}

/// Rewrites an array-shaped `engines` member of a flat-map entry into an
/// object of engine name and constraint (`null` for an empty array); any
/// other value is handed back as it is.
pub fn normalize_engines(v: JsonValue) -> (r: JsonValue)
    ensures
        r.deep() == normalize_view(v.deep()),
{
    let idx = match &v {
        JsonValue::Object(_) => field_index(&v, "engines"),
        _ => return v,
    };
    let i = match idx {
        Some(i) => i,
        None => return v,
    };
    let ghost vv = v.deep();
    proof {
        lemma_deep_object(v);
    }
    match v {
        JsonValue::Object(mut es) => {
            let ghost ev = vv->Object_0;
            assert(ev[i as int] == (es@[i as int].0@, es@[i as int].1.deep()));
            let new_value = match &es[i].1 {
                JsonValue::Array(a) => engines_from_array_exec(a),
                _ => {
                    return JsonValue::Object(es);
                },
            };
            let key = es[i].0.clone();
            es.set(i, (key, new_value));
            let r = JsonValue::Object(es);
            proof {
                lemma_deep_object(r);
                assert(r.deep()->Object_0 =~= ev.update(
                    i as int,
                    (ev[i as int].0, engines_from_array(ev[i as int].1->Array_0)),
                ));
            }
            r
        },
        _ => v,
    }
}

/// The key under which a decoded flat-map record is kept, or `None` where it
/// is dropped. An install path keeps what follows the prefix, and is
/// dropped where the prefix occurs in it again (a nested install). Any other
/// key is a workspace path: the record's own name takes its place, where it
/// has one.
pub open spec fn resolved_key(key: Seq<char>, m: V2Model) -> Option<Seq<char>> {
    if starts_with(key, install_prefix()) {
        if occurs_after_start(key, install_prefix()) {
            None
        } else {
            Some(key.skip(install_prefix().len() as int))
        }
    } else {
        match m.name {
            Some(n) => Some(n),
            None => Some(key),
        }
    }
}

/// What one raw entry of the flat map becomes: `None` for the empty key, for
/// a value that does not decode, and for a nested install path.
pub open spec fn entry_result(e: (Seq<char>, JsonView)) -> Option<(Seq<char>, V2Model)> {
    if e.0.len() == 0 {
        None
    } else {
        match v2_of(normalize_view(e.1)) {
            Some(m) => match resolved_key(e.0, m) {
                Some(k) => Some((k, m)),
                None => None,
            },
            None => None,
        }
    }
}

/// The results of the raw entries that are kept, in their order.
pub open spec fn kept_entries(es: Seq<(Seq<char>, JsonView)>) -> Seq<(Seq<char>, V2Model)>
    decreases es.len(),
{
    if es.len() == 0 {
        Seq::empty()
    } else {
        let p = kept_entries(es.drop_last());
        match entry_result(es.last()) {
            Some(x) => p.push(x),
            None => p,
        }
    }
}

/// The normalized flat map of raw entries `es`: each kept entry inserted in
/// turn, a later one replacing an earlier one of the same key.
pub open spec fn packages_of(es: Seq<(Seq<char>, JsonView)>) -> Map<Seq<char>, V2Model> {
    pairs_map(kept_entries(es))
}

/// Normalizes one raw entry of the flat map.
pub fn normalize_entry(key: String, value: JsonValue) -> (r: Option<(String, V2Dependency)>)
    ensures
        match r {
            Some(p) => entry_result((key@, value.deep())) == Some((p.0@, p.1@)),
            None => entry_result((key@, value.deep())) is None,
        },
{
    if key.as_str().is_empty() {
        return None;
    }
    let fixed = normalize_engines(value);
    let record = match decode_v2(&fixed) {
        Some(d) => d,
        None => return None,
    };
    if starts_with_exec(key.as_str(), "node_modules/") {
        if occurs_after_start_exec(key.as_str(), "node_modules/") {
            None
        } else {
            let n = key.as_str().unicode_len();
            proof {
                reveal_strlit("node_modules/");
                assert("node_modules/"@.len() == 13);
            }
            let stripped = key.as_str().substring_char(13, n).to_string();
            Some((stripped, record))
        }
    } else {
        let name = match &record.name {
            Some(n) => n.clone(),
            None => key,
        };
        Some((name, record))
    }
}

pub open spec fn opt_view(f: Option<JsonValue>) -> Option<JsonView> {
    match f {
        Some(x) => Some(x.deep()),
        None => None,
    }
}

/// What the flat-map member of a lockfile decodes to: absent or `null` gives
/// `None`, an object gives its normalized map, anything else does not decode.
pub open spec fn packages_field(f: Option<JsonView>) -> Option<Option<Map<Seq<char>, V2Model>>> {
    match f {
        None => Some(None),
        Some(JsonView::Null) => Some(None),
        Some(JsonView::Object(es)) => Some(Some(packages_of(es))),
        _ => None,
    }
}

pub open spec fn opt_packages(m: Option<StringMap<V2Dependency>>) -> Option<Map<Seq<char>, V2Model>> {
    match m {
        Some(x) => Some(x@),
        None => None,
    }
}

/// Decodes the flat-map member of a lockfile, entry by entry: an entry that
/// does not decode, the empty key and nested install paths are left out, and
/// the rest are kept under their resolved keys.
pub fn deserialize_packages(raw: Option<JsonValue>) -> (r: Option<Option<StringMap<V2Dependency>>>)
    ensures
        match r {
            Some(x) => packages_field(opt_view(raw)) == Some(opt_packages(x)),
            None => packages_field(opt_view(raw)) is None,
        },
{
    let v = match raw {
        None => return Some(None),
        Some(v) => v,
    };
    let ghost vv = v.deep();
    proof {
        if v is Object {
            lemma_deep_object(v);
        }
    }
    let mut es = match v {
        JsonValue::Null => return Some(None),
        JsonValue::Object(es) => es,
        _ => return None,
    };
    let ghost ev = vv->Object_0;
    let ghost orig = es@;
    let ghost n = es@.len();
    let mut rev: Vec<(String, JsonValue)> = Vec::new();
    while es.len() > 0
        invariant
            opt_view(raw) == Some(vv),
            vv == JsonView::Object(ev),
            ev.len() == n,
            forall|j: int| 0 <= j < n ==> #[trigger] ev[j] == (orig[j].0@, orig[j].1.deep()),
            n == orig.len(),
            es@ == orig.take(es@.len() as int),
            rev@.len() + es@.len() == n,
            forall|j: int| 0 <= j < rev@.len() ==> #[trigger] rev@[j] == orig[n - 1 - j],
        decreases es@.len(),
    {
        match es.pop() {
            Some(e) => {
                rev.push(e);
            },
            None => {},
        }
        assert(es@ =~= orig.take(es@.len() as int));
    }
    let mut m: StringMap<V2Dependency> = StringMap::new();
    while rev.len() > 0
        invariant
            opt_view(raw) == Some(vv),
            vv == JsonView::Object(ev),
            n == orig.len(),
            ev.len() == n,
            forall|j: int| 0 <= j < n ==> #[trigger] ev[j] == (orig[j].0@, orig[j].1.deep()),
            rev@.len() <= n,
            forall|j: int| 0 <= j < rev@.len() ==> #[trigger] rev@[j] == orig[n - 1 - j],
            m@ == packages_of(ev.take(n - rev@.len())),
        decreases rev@.len(),
    {
        let ghost p = n - rev@.len();
        let e = match rev.pop() {
            Some(e) => e,
            None => {
                return None;
            },
        };
        assert(e == orig[p]);
        assert(ev.take(p + 1).drop_last() =~= ev.take(p));
        assert(ev.take(p + 1).last() == ev[p]);
        let (key, value) = e;
        let ghost before = kept_entries(ev.take(p));
        match normalize_entry(key, value) {
            Some(kd) => {
                let (k, d) = kd;
                m.insert(k, d);
                assert(kept_entries(ev.take(p + 1)) == before.push((k@, d@)));
                assert(before.push((k@, d@)).drop_last() =~= before);
            },
            None => {
                assert(kept_entries(ev.take(p + 1)) == before);
            },
        }
    }
    assert(ev.take(n as int) =~= ev);
    Some(Some(m))
}

proof fn lemma_last_index_same_keys<V>(a: Seq<(Seq<char>, V)>, b: Seq<(Seq<char>, V)>, k: Seq<char>)
    requires
        a.len() == b.len(),
        forall|j: int| 0 <= j < a.len() ==> #[trigger] a[j].0 == b[j].0,
    ensures
        last_index_of(a, k) == last_index_of(b, k),
    decreases a.len(),
{
    if a.len() > 0 {
        lemma_last_index_same_keys(a.drop_last(), b.drop_last(), k);
    }
}

/// Normalizing the `engines` member is idempotent, and leaves a value alone
/// whose `engines` member is not an array (an object, say, or none at all).
pub proof fn lemma_normalize_idempotent(v: JsonView)
    ensures
        normalize_view(normalize_view(v)) == normalize_view(v),
        !(crate::json::field(v, "engines"@) matches Some(JsonView::Array(_))) ==> normalize_view(v)
            == v,
{
    if let JsonView::Object(es) = v {
        if let Some(i) = last_index_of(es, "engines"@) {
            crate::string_map::lemma_pairs_map_last(es, "engines"@);
            if es[i].1 is Array {
                let ns = es.update(i, (es[i].0, engines_from_array(es[i].1->Array_0)));
                lemma_last_index_same_keys(ns, es, "engines"@);
                assert(!(ns[i].1 is Array));
            }
        }
    }
}

proof fn lemma_kept_from_entries(es: Seq<(Seq<char>, JsonView)>, x: int)
    requires
        0 <= x < kept_entries(es).len(),
    ensures
        exists|i: int| 0 <= i < es.len() && entry_result(es[i]) == Some(kept_entries(es)[x]),
    decreases es.len(),
{
    let p = kept_entries(es.drop_last());
    if x < p.len() {
        lemma_kept_from_entries(es.drop_last(), x);
        let i = choose|i: int|
            0 <= i < es.drop_last().len() && entry_result(es.drop_last()[i]) == Some(p[x]);
        assert(es[i] == es.drop_last()[i]);
    } else {
        assert(entry_result(es[es.len() - 1]) == Some(kept_entries(es)[x]));
    }
}

/// The name an install path is kept under is the path without its prefix.
proof fn lemma_install_key(key: Seq<char>, m: V2Model)
    requires
        starts_with(key, install_prefix()),
        resolved_key(key, m) is Some,
    ensures
        key == install_prefix() + resolved_key(key, m)->0,
{
    assert(key =~= key.subrange(0, install_prefix().len() as int) + key.skip(
        install_prefix().len() as int,
    ));
}

/// Each name of the normalized flat map comes from one raw entry at least: an
/// install path that is the prefix followed by that name, or a workspace
/// entry. Where the raw keys are distinct, no two install paths give one
/// name.
pub proof fn lemma_flat_keys_origin(es: Seq<(Seq<char>, JsonView)>, k: Seq<char>)
    requires
        packages_of(es).contains_key(k),
    ensures
        exists|i: int|
            0 <= i < es.len() && #[trigger] entry_result(es[i]) is Some && (entry_result(es[i])->0).0
                == k && (starts_with(es[i].0, install_prefix()) ==> es[i].0 == install_prefix()
                + k),
        crate::string_map::keys_distinct(es) ==> forall|i: int, j: int|
            0 <= i < es.len() && 0 <= j < es.len() && starts_with(es[i].0, install_prefix())
                && starts_with(es[j].0, install_prefix()) && entry_result(es[i]) is Some
                && entry_result(es[j]) is Some && #[trigger] (entry_result(es[i])->0).0 == k
                && #[trigger] (entry_result(es[j])->0).0 == k ==> i == j,
{
    let kept = kept_entries(es);
    crate::string_map::lemma_pairs_map_dom(kept, k);
    let x = choose|x: int| 0 <= x < kept.len() && kept[x].0 == k;
    lemma_kept_from_entries(es, x);
    let i = choose|i: int| 0 <= i < es.len() && entry_result(es[i]) == Some(kept[x]);
    if starts_with(es[i].0, install_prefix()) {
        let m = v2_of(normalize_view(es[i].1))->0;
        lemma_install_key(es[i].0, m);
    }
    assert forall|i: int, j: int|
        crate::string_map::keys_distinct(es) && 0 <= i < es.len() && 0 <= j < es.len()
            && starts_with(es[i].0, install_prefix()) && starts_with(es[j].0, install_prefix())
            && entry_result(es[i]) is Some && entry_result(es[j]) is Some
            && #[trigger] (entry_result(es[i])->0).0 == k && #[trigger] (entry_result(es[j])->0).0
            == k implies i == j by {
        lemma_install_key(es[i].0, v2_of(normalize_view(es[i].1))->0);
        lemma_install_key(es[j].0, v2_of(normalize_view(es[j].1))->0);
        assert(es[i].0 == es[j].0);
    }
}

/// A nested install path, where the prefix occurs more than once, is dropped;
/// a name of the normalized flat map that holds the prefix anywhere comes
/// from a workspace entry, never from an install path.
pub proof fn lemma_nested_paths_dropped(es: Seq<(Seq<char>, JsonView)>, k: Seq<char>)
    ensures
        forall|i: int|
            0 <= i < es.len() && starts_with(es[i].0, install_prefix()) && occurs_after_start(
                es[i].0,
                install_prefix(),
            ) ==> #[trigger] entry_result(es[i]) is None,
        packages_of(es).contains_key(k) && crate::text::occurs_in(k, install_prefix()) ==> exists|
            i: int,
        |
            0 <= i < es.len() && !starts_with(es[i].0, install_prefix()) && #[trigger] entry_result(
                es[i],
            ) is Some && (entry_result(es[i])->0).0 == k,
{
    if packages_of(es).contains_key(k) && crate::text::occurs_in(k, install_prefix()) {
        let kept = kept_entries(es);
        crate::string_map::lemma_pairs_map_dom(kept, k);
        let x = choose|x: int| 0 <= x < kept.len() && kept[x].0 == k;
        lemma_kept_from_entries(es, x);
        let i = choose|i: int| 0 <= i < es.len() && entry_result(es[i]) == Some(kept[x]);
        if starts_with(es[i].0, install_prefix()) {
            lemma_install_key(es[i].0, v2_of(normalize_view(es[i].1))->0);
            let p = choose|p: int| crate::text::occurs_at(k, install_prefix(), p);
            let n = install_prefix().len() as int;
            assert(es[i].0.subrange(n + p, n + p + n) =~= k.subrange(p, p + n));
            assert(crate::text::occurs_at(es[i].0, install_prefix(), n + p));
            reveal_strlit("node_modules/");
            assert(false);
        }
    }
}

proof fn lemma_kept_append(a: Seq<(Seq<char>, JsonView)>, b: Seq<(Seq<char>, JsonView)>)
    ensures
        kept_entries(a + b) == kept_entries(a) + kept_entries(b),
    decreases b.len(),
{
    if b.len() == 0 {
        assert(a + b =~= a);
        assert(kept_entries(a) + kept_entries(b) =~= kept_entries(a));
    } else {
        lemma_kept_append(a, b.drop_last());
        assert((a + b).drop_last() =~= a + b.drop_last());
        assert((a + b).last() == b.last());
        match entry_result(b.last()) {
            Some(x) => {
                assert(kept_entries(a) + kept_entries(b.drop_last()).push(x) =~= (kept_entries(a)
                    + kept_entries(b.drop_last())).push(x));
            },
            None => {},
        }
    }
}

/// An entry that does not decode has no effect on the normalized flat map:
/// the map is the one of the other entries alone.
pub proof fn lemma_malformed_entry_ignored(es: Seq<(Seq<char>, JsonView)>, i: int)
    requires
        0 <= i < es.len(),
        v2_of(normalize_view(es[i].1)) is None,
    ensures
        packages_of(es) == packages_of(es.remove(i)),
{
    let a = es.take(i);
    let b = es.skip(i + 1);
    let one = seq![es[i]];
    assert(es =~= a + one + b);
    assert(es.remove(i) =~= a + b);
    lemma_kept_append(a + one, b);
    lemma_kept_append(a, one);
    lemma_kept_append(a, b);
    assert(one.drop_last() =~= Seq::<(Seq<char>, JsonView)>::empty());
    assert(kept_entries(Seq::<(Seq<char>, JsonView)>::empty()) == Seq::<(Seq<char>, V2Model)>::empty());
    assert(one.last() == es[i]);
    assert(entry_result(es[i]) is None);
    assert(kept_entries(one) =~= Seq::<(Seq<char>, V2Model)>::empty());
    assert(kept_entries(a) + kept_entries(one) =~= kept_entries(a));
}

} // verus!
