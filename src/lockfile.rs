use vstd::prelude::*;

use crate::json::{
    field, field_index, get_field, json_of_text, lemma_deep_object, read_json, JsonValue, JsonView,
};
use crate::model::{
    dec_opt_string, dec_string, dec_u32, decode_opt_string, decode_string, decode_u32, decode_v1,
    children_ok, opt_deep, opt_str, v1_matches, v1_matches_with_version, v1_ok, v1_scalars, PackageLockJson,
    PackageLockJsonError, SimpleDependency, V1Dependency, V2Dependency, V2Model,
};
use crate::packages::{deserialize_packages, opt_packages, opt_view, packages_field};
use crate::string_map::{
    entries_view, keys_distinct, last_index_of, lemma_pairs_map_at, lemma_pairs_map_dom, pairs_map,
    StringMap,
};
use crate::text::{starts_with, starts_with_exec};

verus! {

broadcast use vstd::seq::group_seq_axioms;

/// The version a top-level legacy entry named `name` ends with: a `file:`
/// placeholder takes the version of the flat-map record of the same name,
/// where there is one; any other version stays.
pub open spec fn reconciled_version(
    name: Seq<char>,
    version: Seq<char>,
    packages: Option<Map<Seq<char>, V2Model>>,
) -> Seq<char> {
    match packages {
        Some(p) => if starts_with(version, "file:"@) && p.contains_key(name) {
            p[name].version
        } else {
            version
        },
        None => version,
    }
}

/// The legacy tree member decodes: absent, `null`, or an object of nodes.
pub open spec fn legacy_ok(f: Option<JsonView>) -> bool {
    match f {
        None => true,
        Some(v) => match v {
            JsonView::Null => true,
            JsonView::Object(cs) => children_ok(cs),
            _ => false,
        },
    }
}

/// `m` holds what the legacy tree member `f` decodes to, with the versions of
/// its top-level nodes reconciled against `packages`.
pub open spec fn legacy_matches(
    f: Option<JsonView>,
    m: Option<StringMap<V1Dependency>>,
    packages: Option<Map<Seq<char>, V2Model>>,
) -> bool {
    match f {
        None => m is None,
        Some(JsonView::Null) => m is None,
        Some(JsonView::Object(cs)) => m is Some && m->0@.dom() == pairs_map(cs).dom() && forall|k: int|
            0 <= k < cs.len() && last_index_of(cs, cs[k].0) == Some(k) ==> v1_matches_with_version(
                #[trigger] cs[k].1,
                m->0@[cs[k].0],
                reconciled_version(cs[k].0, (v1_scalars(cs[k].1)->0).0, packages),
            ),
        _ => false,
    }
}

/// The root object of a lockfile decodes: `name` and `lockfileVersion` are
/// there, and each member has the right shape. A malformed flat-map entry
/// does not stop it; a malformed legacy node does.
pub open spec fn root_ok(j: JsonView) -> bool {
    &&& j is Object
    &&& dec_string(field(j, "name"@)) is Some
    &&& dec_opt_string(field(j, "version"@)) is Some
    &&& dec_u32(field(j, "lockfileVersion"@)) is Some
    &&& legacy_ok(field(j, "dependencies"@))
    &&& packages_field(field(j, "packages"@)) is Some
}

/// `r` holds what the root object `j` decodes to, with the legacy versions
/// reconciled against the flat map when `reconciled` holds.
pub open spec fn lockfile_matches(j: JsonView, r: PackageLockJson, reconciled: bool) -> bool {
    let packages = packages_field(field(j, "packages"@))->0;
    &&& r.name@ == dec_string(field(j, "name"@))->0
    &&& opt_str(r.version) == dec_opt_string(field(j, "version"@))->0
    &&& r.lockfile_version == dec_u32(field(j, "lockfileVersion"@))->0
    &&& opt_packages(r.packages) == packages
    &&& legacy_matches(
        field(j, "dependencies"@),
        r.dependencies,
        if reconciled {
            packages
        } else {
            None
        },
    )
}

/// Decodes the legacy tree member of a lockfile.
fn decode_legacy(f: Option<&JsonValue>) -> (r: Option<Option<StringMap<V1Dependency>>>)
    ensures
        r is Some <==> legacy_ok(opt_deep(f)),
        r is Some ==> legacy_matches(opt_deep(f), r->0, None),
{
    let v = match f {
        None => return Some(None),
        Some(v) => v,
    };
    match v {
        JsonValue::Null => Some(None),
        JsonValue::Object(cs) => {
            let ghost cv = v.deep()->Object_0;
            proof {
                lemma_deep_object(*v);
            }
            let mut m: StringMap<V1Dependency> = StringMap::new();
            let mut k: usize = 0;
            while k < cs.len()
                invariant
                    f == Some(v),
                    v.deep() == JsonView::Object(cv),
                    cv.len() == cs@.len(),
                    forall|x: int|
                        0 <= x < cs@.len() ==> #[trigger] cv[x] == (cs@[x].0@, cs@[x].1.deep()),
                    k <= cs@.len(),
                    forall|x: int| 0 <= x < k ==> v1_ok(#[trigger] cv[x].1),
                    m@.dom() == pairs_map(cv.take(k as int)).dom(),
                    forall|x: int|
                        0 <= x < k && last_index_of(cv.take(k as int), cv[x].0) == Some(x)
                            ==> v1_matches(#[trigger] cv[x].1, m@[cv[x].0]),
                decreases cs@.len() - k,
            {
                let child = match decode_v1(&cs[k].1) {
                    Some(c) => c,
                    None => {
                        assert(!v1_ok(cv[k as int].1));
                        assert(opt_deep(f) == Some(JsonView::Object(cv)));
                        return None;
                    },
                };
                let ghost key = cv[k as int].0;
                proof {
                    assert(cv.take(k + 1).drop_last() =~= cv.take(k as int));
                }
                m.insert(cs[k].0.clone(), child);
                proof {
                    let nt = cv.take(k + 1);
                    assert(nt.last() == cv[k as int]);
                    assert(last_index_of(nt, key) == Some(k as int));
                    assert forall|x: int|
                        0 <= x < k + 1 && last_index_of(nt, cv[x].0) == Some(x) implies v1_matches(
                        #[trigger] cv[x].1,
                        m@[cv[x].0],
                    ) by {
                        if x < k {
                            assert(cv[x].0 != key);
                            assert(last_index_of(nt, cv[x].0) == last_index_of(
                                cv.take(k as int),
                                cv[x].0,
                            ));
                        }
                    }
                }
                k = k + 1;
            }
            proof {
                assert(cv.take(cs@.len() as int) =~= cv);
            }
            Some(Some(m))
        },
        _ => None,
    }
}

/// Decodes the root object of a lockfile, without reconciling versions.
pub fn decode_root(v: JsonValue) -> (r: Option<PackageLockJson>)
    ensures
        r is Some <==> root_ok(v.deep()),
        r is Some ==> lockfile_matches(v.deep(), r->0, false),
{
    let ghost vv = v.deep();
    match &v {
        JsonValue::Object(_) => {},
        _ => return None,
    }
    let name = decode_string(get_field(&v, "name"));
    let version = decode_opt_string(get_field(&v, "version"));
    let lockfile_version = decode_u32(get_field(&v, "lockfileVersion"));
    let dependencies = decode_legacy(get_field(&v, "dependencies"));
    let idx = field_index(&v, "packages");
    let raw = match idx {
        None => None,
        Some(i) => {
            proof {
                lemma_deep_object(v);
            }
            match v {
                JsonValue::Object(mut es) => {
                    assert(vv->Object_0[i as int].1 == es@[i as int].1.deep());
                    let e = es.remove(i);
                    Some(e.1)
                },
                _ => None,
            }
        },
    };
    assert(opt_view(raw) == field(vv, "packages"@));
    let packages = deserialize_packages(raw);
    match (name, version, lockfile_version, dependencies, packages) {
        (Some(name), Some(version), Some(lockfile_version), Some(dependencies), Some(packages)) => {
            Some(PackageLockJson { name, version, lockfile_version, dependencies, packages })
        },
        _ => None,
    }
}

/// `a` and `b` agree on everything but their version.
pub open spec fn same_but_version(a: V1Dependency, b: V1Dependency) -> bool {
    &&& a.resolved == b.resolved
    &&& a.integrity == b.integrity
    &&& a.bundled == b.bundled
    &&& a.is_dev == b.is_dev
    &&& a.is_optional == b.is_optional
    &&& a.requires == b.requires
    &&& a.dependencies == b.dependencies
}

/// Replaces each `file:` placeholder version at the top of the legacy tree
/// with the version of the flat-map record of the same name, where there is
/// one. Nested nodes and everything else stay as they are.
pub fn reconcile_versions(lock: PackageLockJson) -> (r: PackageLockJson)
    ensures
        r.name == lock.name,
        r.version == lock.version,
        r.lockfile_version == lock.lockfile_version,
        r.packages == lock.packages,
        lock.dependencies is None ==> r.dependencies is None,
        lock.dependencies is Some ==> {
            let d = lock.dependencies->0@;
            let e = r.dependencies->0@;
            &&& r.dependencies is Some
            &&& e.dom() == d.dom()
            &&& forall|k: Seq<char>|
                #[trigger] d.contains_key(k) ==> same_but_version(e[k], d[k]) && e[k].version@
                    == reconciled_version(k, d[k].version@, opt_packages(lock.packages))
        },
{
    let PackageLockJson { name, version, lockfile_version, dependencies, packages } = lock;
    let dependencies = match dependencies {
        None => None,
        Some(m) => {
            let ghost mv = m@;
            let mut es = m.into_entries();
            let ghost orig = es@;
            let ghost ov = entries_view(orig);
            let ghost n = orig.len();
            let mut rev: Vec<(String, V1Dependency)> = Vec::new();
            while es.len() > 0
                invariant
                    n == orig.len(),
                    es@ == orig.take(es@.len() as int),
                    rev@.len() + es@.len() == n,
                    forall|j: int| 0 <= j < rev@.len() ==> #[trigger] rev@[j] == orig[n - 1 - j],
                decreases es@.len(),
            {
                match es.pop() {
                    Some(e) => {
                        rev.push(e);
                    },
                    None => {},
                }
                assert(es@ =~= orig.take(es@.len() as int));
            }
            let mut out: Vec<(String, V1Dependency)> = Vec::new();
            while rev.len() > 0
                invariant
                    n == orig.len(),
                    rev@.len() <= n,
                    forall|j: int| 0 <= j < rev@.len() ==> #[trigger] rev@[j] == orig[n - 1 - j],
                    out@.len() == n - rev@.len(),
                    forall|j: int|
                        0 <= j < out@.len() ==> #[trigger] out@[j].0@ == orig[j].0@
                            && same_but_version(out@[j].1, orig[j].1) && out@[j].1.version@
                            == reconciled_version(
                            orig[j].0@,
                            orig[j].1.version@,
                            opt_packages(packages),
                        ),
                decreases rev@.len(),
            {
                let ghost p = n - rev@.len();
                let e = match rev.pop() {
                    Some(e) => e,
                    None => {
                        return PackageLockJson {
                            name,
                            version,
                            lockfile_version,
                            dependencies: None,
                            packages,
                        };
                    },
                };
                assert(e == orig[p]);
                let (key, mut dep) = e;
                if starts_with_exec(dep.version.as_str(), "file:") {
                    match &packages {
                        Some(pk) => match pk.get(key.as_str()) {
                            Some(rec) => {
                                dep.version = rec.version.clone();
                            },
                            None => {},
                        },
                        None => {},
                    }
                }
                out.push((key, dep));
            }
            proof {
                let nv = entries_view(out@);
                assert forall|a: int, b: int| 0 <= a < b < nv.len() implies nv[a].0 != nv[b].0 by {
                    assert(nv[a].0 == ov[a].0);
                    assert(nv[b].0 == ov[b].0);
                }
            }
            let r = StringMap::from_entries(out);
            proof {
                let nv = entries_view(out@);
                assert forall|k: Seq<char>| #[trigger] r@.contains_key(k) == mv.contains_key(k) by {
                    lemma_pairs_map_dom(nv, k);
                    lemma_pairs_map_dom(ov, k);
                    if exists|i: int| 0 <= i < ov.len() && ov[i].0 == k {
                        let i = choose|i: int| 0 <= i < ov.len() && ov[i].0 == k;
                        assert(nv[i].0 == k);
                    }
                    if exists|i: int| 0 <= i < nv.len() && nv[i].0 == k {
                        let i = choose|i: int| 0 <= i < nv.len() && nv[i].0 == k;
                        assert(ov[i].0 == k);
                    }
                }
                assert(r@.dom() =~= mv.dom());
                assert forall|k: Seq<char>| #[trigger] mv.contains_key(k) implies same_but_version(
                    r@[k],
                    mv[k],
                ) && r@[k].version@ == reconciled_version(
                    k,
                    mv[k].version@,
                    opt_packages(packages),
                ) by {
                    lemma_pairs_map_dom(ov, k);
                    let i = choose|i: int| 0 <= i < ov.len() && ov[i].0 == k;
                    lemma_pairs_map_at(ov, i);
                    lemma_pairs_map_at(nv, i);
                }
            }
            Some(r)
        },
    };
    PackageLockJson { name, version, lockfile_version, dependencies, packages }
}

proof fn lemma_version_replaced(
    j: JsonView,
    a: V1Dependency,
    b: V1Dependency,
    va: Seq<char>,
    vb: Seq<char>,
)
    requires
        v1_matches_with_version(j, a, va),
        same_but_version(b, a),
        b.version@ == vb,
    ensures
        v1_matches_with_version(j, b, vb),
{
}

/// Parses the text of a lockfile of schema 1, 2 or 3 and reconciles the
/// `file:` placeholder versions of its legacy tree against its flat map.
pub fn parse(content: &str) -> (r: Result<PackageLockJson, PackageLockJsonError>)
    ensures
        r is Ok <==> json_of_text(content@) is Some && root_ok(json_of_text(content@)->0),
        r is Ok ==> lockfile_matches(json_of_text(content@)->0, r->Ok_0, true),
{
    let v = match read_json(content) {
        Ok(v) => v,
        Err(m) => return Err(PackageLockJsonError::ParseError(m)),
    };
    let ghost j = v.deep();
    let lock = match decode_root(v) {
        Some(l) => l,
        None => {
            return Err(
                PackageLockJsonError::ParseError(
                    "the lockfile root lacks a field or holds one of the wrong shape".to_string(),
                ),
            );
        },
    };
    let ghost before = lock;
    let r = reconcile_versions(lock);
    proof {
        let f = field(j, "dependencies"@);
        let pk = packages_field(field(j, "packages"@))->0;
        if let Some(JsonView::Object(cs)) = f {
            let d = before.dependencies->0@;
            let e = r.dependencies->0@;
            assert forall|k: int|
                0 <= k < cs.len() && last_index_of(cs, cs[k].0) == Some(k) implies v1_matches_with_version(
                #[trigger] cs[k].1,
                e[cs[k].0],
                reconciled_version(cs[k].0, (v1_scalars(cs[k].1)->0).0, pk),
            ) by {
                lemma_pairs_map_dom(cs, cs[k].0);
                assert(d.contains_key(cs[k].0));
                assert(v1_matches_with_version(
                    cs[k].1,
                    d[cs[k].0],
                    reconciled_version(cs[k].0, (v1_scalars(cs[k].1)->0).0, None),
                ));
                lemma_version_replaced(
                    cs[k].1,
                    d[cs[k].0],
                    e[cs[k].0],
                    (v1_scalars(cs[k].1)->0).0,
                    reconciled_version(cs[k].0, (v1_scalars(cs[k].1)->0).0, pk),
                );
            }
        }
    }
    Ok(r)
}

/// `r` lists the top-level legacy nodes of `m`: one record per name, with
/// its version and flags.
pub open spec fn legacy_listed(r: Seq<SimpleDependency>, m: Map<Seq<char>, V1Dependency>) -> bool {
    &&& forall|i: int, j: int| 0 <= i < j < r.len() ==> r[i].name@ != r[j].name@
    &&& forall|k: Seq<char>|
        #[trigger] m.contains_key(k) <==> exists|i: int| 0 <= i < r.len() && r[i].name@ == k
    &&& forall|i: int|
        0 <= i < r.len() ==> {
            let d = #[trigger] m[r[i].name@];
            r[i].version@ == d.version@ && r[i].is_dev == d.is_dev && r[i].is_optional
                == d.is_optional
        }
}

/// `r` lists the records of the flat map `m`: one per name, with its
/// version and flags.
pub open spec fn packages_listed(r: Seq<SimpleDependency>, m: Map<Seq<char>, V2Model>) -> bool {
    &&& forall|i: int, j: int| 0 <= i < j < r.len() ==> r[i].name@ != r[j].name@
    &&& forall|k: Seq<char>|
        #[trigger] m.contains_key(k) <==> exists|i: int| 0 <= i < r.len() && r[i].name@ == k
    &&& forall|i: int|
        0 <= i < r.len() ==> {
            let d = #[trigger] m[r[i].name@];
            r[i].version@ == d.version && r[i].is_dev == d.is_dev && r[i].is_optional
                == d.is_optional
        }
}

/// `r` is the projection of `lock`: its legacy tree where it has one, else
/// its flat map, else nothing.
pub open spec fn listed(lock: PackageLockJson, r: Seq<SimpleDependency>) -> bool {
    match lock.dependencies {
        Some(m) => legacy_listed(r, m@),
        None => match lock.packages {
            Some(p) => packages_listed(r, p@),
            None => r.len() == 0,
        },
    }
}

fn list_legacy(m: &StringMap<V1Dependency>) -> (r: Vec<SimpleDependency>)
    ensures
        legacy_listed(r@, m@),
{
    let es = m.entries();
    let ghost ev = m.spec_entries();
    let mut r: Vec<SimpleDependency> = Vec::new();
    let mut i: usize = 0;
    while i < es.len()
        invariant
            ev == entries_view(es@),
            ev.len() == es@.len(),
            i <= es@.len(),
            r@.len() == i,
            forall|j: int|
                0 <= j < i ==> #[trigger] r@[j].name@ == ev[j].0 && r@[j].version@
                    == ev[j].1.version@ && r@[j].is_dev == ev[j].1.is_dev && r@[j].is_optional
                    == ev[j].1.is_optional,
        decreases es@.len() - i,
    {
        let d = &es[i].1;
        r.push(
            SimpleDependency {
                name: es[i].0.clone(),
                version: d.version.clone(),
                is_dev: d.is_dev,
                is_optional: d.is_optional,
            },
        );
        i = i + 1;
    }
    proof {
        assert forall|a: int, b: int| 0 <= a < b < r@.len() implies r@[a].name@ != r@[b].name@ by {
            assert(r@[a].name@ == ev[a].0);
            assert(r@[b].name@ == ev[b].0);
        }
        assert forall|k: Seq<char>| #[trigger] m@.contains_key(k) <==> exists|i: int|
            0 <= i < r@.len() && r@[i].name@ == k by {
            lemma_pairs_map_dom(ev, k);
            if exists|i: int| 0 <= i < ev.len() && ev[i].0 == k {
                let i = choose|i: int| 0 <= i < ev.len() && ev[i].0 == k;
                assert(r@[i].name@ == k);
            }
            if exists|i: int| 0 <= i < r@.len() && r@[i].name@ == k {
                let i = choose|i: int| 0 <= i < r@.len() && r@[i].name@ == k;
                assert(ev[i].0 == k);
            }
        }
        assert forall|i: int| 0 <= i < r@.len() implies {
            let d = #[trigger] m@[r@[i].name@];
            r@[i].version@ == d.version@ && r@[i].is_dev == d.is_dev && r@[i].is_optional
                == d.is_optional
        } by {
            lemma_pairs_map_at(ev, i);
        }
    }
    r
}

fn list_packages(m: &StringMap<V2Dependency>) -> (r: Vec<SimpleDependency>)
    ensures
        packages_listed(r@, m@),
{
    let es = m.entries();
    let ghost ev = m.spec_entries();
    let mut r: Vec<SimpleDependency> = Vec::new();
    let mut i: usize = 0;
    while i < es.len()
        invariant
            ev == entries_view(es@),
            ev.len() == es@.len(),
            i <= es@.len(),
            r@.len() == i,
            forall|j: int|
                0 <= j < i ==> #[trigger] r@[j].name@ == ev[j].0 && r@[j].version@
                    == ev[j].1.version && r@[j].is_dev == ev[j].1.is_dev && r@[j].is_optional
                    == ev[j].1.is_optional,
        decreases es@.len() - i,
    {
        let d = &es[i].1;
        r.push(
            SimpleDependency {
                name: es[i].0.clone(),
                version: d.version.clone(),
                is_dev: d.is_dev,
                is_optional: d.is_optional,
            },
        );
        i = i + 1;
    }
    proof {
        assert forall|a: int, b: int| 0 <= a < b < r@.len() implies r@[a].name@ != r@[b].name@ by {
            assert(r@[a].name@ == ev[a].0);
            assert(r@[b].name@ == ev[b].0);
        }
        assert forall|k: Seq<char>| #[trigger] m@.contains_key(k) <==> exists|i: int|
            0 <= i < r@.len() && r@[i].name@ == k by {
            lemma_pairs_map_dom(ev, k);
            if exists|i: int| 0 <= i < ev.len() && ev[i].0 == k {
                let i = choose|i: int| 0 <= i < ev.len() && ev[i].0 == k;
                assert(r@[i].name@ == k);
            }
            if exists|i: int| 0 <= i < r@.len() && r@[i].name@ == k {
                let i = choose|i: int| 0 <= i < r@.len() && r@[i].name@ == k;
                assert(ev[i].0 == k);
            }
        }
        assert forall|i: int| 0 <= i < r@.len() implies {
            let d = #[trigger] m@[r@[i].name@];
            r@[i].version@ == d.version && r@[i].is_dev == d.is_dev && r@[i].is_optional
                == d.is_optional
        } by {
            lemma_pairs_map_at(ev, i);
        }
    }
    r
}

/// Reduces a lockfile to one record per top-level dependency, taken from the
/// legacy tree where there is one and from the flat map otherwise; the two
/// are never merged.
pub fn dependencies_of(lock: &PackageLockJson) -> (r: Vec<SimpleDependency>)
    ensures
        listed(*lock, r@),
{
    match &lock.dependencies {
        Some(m) => list_legacy(m),
        None => match &lock.packages {
            Some(p) => list_packages(p),
            None => Vec::new(),
        },
    }
}

/// Parses a lockfile and lists its top-level dependencies.
pub fn parse_dependencies(content: &str) -> (r: Result<Vec<SimpleDependency>, PackageLockJsonError>)
    ensures
        r is Ok <==> json_of_text(content@) is Some && root_ok(json_of_text(content@)->0),
        r is Ok ==> exists|lock: PackageLockJson|
            lockfile_matches(json_of_text(content@)->0, lock, true) && listed(lock, r->Ok_0@),
{
    let lock = match parse(content) {
        Ok(lock) => lock,
        Err(e) => return Err(e),
    };
    let list = dependencies_of(&lock);
    let r = Ok(list);
    assert(lockfile_matches(json_of_text(content@)->0, lock, true) && listed(lock, r->Ok_0@));
    r
}

} // verus!
