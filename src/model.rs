use vstd::prelude::*;

use crate::json::{field, get_field, JsonValue, JsonView};
pub use crate::string_map::StringMap;
use crate::string_map::{last_index_of, pairs_map};

verus! {

broadcast use vstd::seq::group_seq_axioms;

/// The error of a lockfile that cannot be read: the text is not JSON, or the
/// root object lacks a field it needs or holds one of the wrong shape.
#[derive(Debug, PartialEq, Eq)]
pub enum PackageLockJsonError {
    ParseError(String),
}

impl PackageLockJsonError {
    /// The message of the error.
    pub fn to_string(&self) -> String {
        match self {
            PackageLockJsonError::ParseError(m) => m.clone(),
        }
    }
}

/// A decoded lockfile. Schema 1 has only the legacy tree (`dependencies`),
/// schema 3 only the flat map (`packages`), schema 2 both.
#[derive(Debug, PartialEq, Eq)]
pub struct PackageLockJson {
    pub name: String,
    pub version: Option<String>,
    pub lockfile_version: u32,
    pub dependencies: Option<StringMap<V1Dependency>>,
    pub packages: Option<StringMap<V2Dependency>>,
}

/// A node of the legacy dependency tree.
#[derive(Debug, PartialEq, Eq, Default)]
pub struct V1Dependency {
    pub version: String,
    pub resolved: Option<String>,
    pub integrity: Option<String>,
    pub bundled: bool,
    pub is_dev: bool,
    pub is_optional: bool,
    pub requires: Option<StringMap<String>>,
    pub dependencies: Option<StringMap<V1Dependency>>,
}

/// A legacy node is its own view: its children are nodes again.
impl View for V1Dependency {
    type V = V1Dependency;

    open spec fn view(&self) -> V1Dependency {
        *self
    }
}

/// A record of the flat package map.
#[derive(Debug, PartialEq, Eq, Default)]
pub struct V2Dependency {
    pub version: String,
    pub name: Option<String>,
    pub resolved: Option<String>,
    pub integrity: Option<String>,
    pub bundled: bool,
    pub is_dev: bool,
    pub is_optional: bool,
    pub is_dev_optional: bool,
    pub is_in_bundle: bool,
    pub has_install_script: bool,
    pub has_shrink_wrap: bool,
    pub dependencies: Option<StringMap<String>>,
    pub dev_dependencies: Option<StringMap<String>>,
    pub optional_dependencies: Option<StringMap<String>>,
    pub peer_dependencies: Option<StringMap<String>>,
    pub license: Option<String>,
    pub engines: Option<StringMap<String>>,
    pub bin: Option<StringMap<String>>,
}

/// The mathematical value of a flat-map record.
pub struct V2Model {
    pub version: Seq<char>,
    pub name: Option<Seq<char>>,
    pub resolved: Option<Seq<char>>,
    pub integrity: Option<Seq<char>>,
    pub bundled: bool,
    pub is_dev: bool,
    pub is_optional: bool,
    pub is_dev_optional: bool,
    pub is_in_bundle: bool,
    pub has_install_script: bool,
    pub has_shrink_wrap: bool,
    pub dependencies: Option<Map<Seq<char>, Seq<char>>>,
    pub dev_dependencies: Option<Map<Seq<char>, Seq<char>>>,
    pub optional_dependencies: Option<Map<Seq<char>, Seq<char>>>,
    pub peer_dependencies: Option<Map<Seq<char>, Seq<char>>>,
    pub license: Option<Seq<char>>,
    pub engines: Option<Map<Seq<char>, Seq<char>>>,
    pub bin: Option<Map<Seq<char>, Seq<char>>>,
}

pub open spec fn opt_str(s: Option<String>) -> Option<Seq<char>> {
    match s {
        Some(x) => Some(x@),
        None => None,
    }
}

pub open spec fn opt_map(m: Option<StringMap<String>>) -> Option<Map<Seq<char>, Seq<char>>> {
    match m {
        Some(x) => Some(x@),
        None => None,
    }
}

impl View for V2Dependency {
    type V = V2Model;

    open spec fn view(&self) -> V2Model {
        V2Model {
            version: self.version@,
            name: opt_str(self.name),
            resolved: opt_str(self.resolved),
            integrity: opt_str(self.integrity),
            bundled: self.bundled,
            is_dev: self.is_dev,
            is_optional: self.is_optional,
            is_dev_optional: self.is_dev_optional,
            is_in_bundle: self.is_in_bundle,
            has_install_script: self.has_install_script,
            has_shrink_wrap: self.has_shrink_wrap,
            dependencies: opt_map(self.dependencies),
            dev_dependencies: opt_map(self.dev_dependencies),
            optional_dependencies: opt_map(self.optional_dependencies),
            peer_dependencies: opt_map(self.peer_dependencies),
            license: opt_str(self.license),
            engines: opt_map(self.engines),
            bin: opt_map(self.bin),
        }
    }
}

/// A dependency reduced to its name, version and two flags.
#[derive(Debug, Clone, PartialEq, Eq, PartialOrd, Ord)]
pub struct SimpleDependency {
    pub name: String,
    pub version: String,
    pub is_dev: bool,
    pub is_optional: bool,
}

// ---- decoding single members ----

pub open spec fn opt_deep(f: Option<&JsonValue>) -> Option<JsonView> {
    match f {
        Some(x) => Some(x.deep()),
        None => None,
    }
}

/// A required string member.
pub open spec fn dec_string(f: Option<JsonView>) -> Option<Seq<char>> {
    match f {
        Some(JsonView::Str(s)) => Some(s),
        _ => None,
    }
}

/// An optional string member: absent and `null` both give `None`.
pub open spec fn dec_opt_string(f: Option<JsonView>) -> Option<Option<Seq<char>>> {
    match f {
        None => Some(None),
        Some(JsonView::Null) => Some(None),
        Some(JsonView::Str(s)) => Some(Some(s)),
        _ => None,
    }
}

/// A flag member: absent gives `false`.
pub open spec fn dec_flag(f: Option<JsonView>) -> Option<bool> {
    match f {
        None => Some(false),
        Some(JsonView::Bool(b)) => Some(b),
        _ => None,
    }
}

/// An unsigned 32-bit member.
pub open spec fn dec_u32(f: Option<JsonView>) -> Option<u32> {
    match f {
        Some(JsonView::Number(Some(n))) => if n <= u32::MAX {
            Some(n as u32)
        } else {
            None
        },
        _ => None,
    }
}

pub open spec fn all_strings(es: Seq<(Seq<char>, JsonView)>) -> bool {
    forall|i: int| 0 <= i < es.len() ==> (#[trigger] es[i]).1 is Str
}

pub open spec fn string_pairs(es: Seq<(Seq<char>, JsonView)>) -> Seq<(Seq<char>, Seq<char>)> {
    es.map_values(|e: (Seq<char>, JsonView)| (e.0, e.1->Str_0))
}

/// An optional member that maps names to strings.
pub open spec fn dec_string_map(f: Option<JsonView>) -> Option<Option<Map<Seq<char>, Seq<char>>>> {
    match f {
        None => Some(None),
        Some(JsonView::Null) => Some(None),
        Some(JsonView::Object(es)) => if all_strings(es) {
            Some(Some(pairs_map(string_pairs(es))))
        } else {
            None
        },
        _ => None,
    }
}

pub fn decode_string(f: Option<&JsonValue>) -> (r: Option<String>)
    ensures
        opt_str(r) == dec_string(opt_deep(f)),
{
    match f {
        Some(JsonValue::Str(s)) => Some(s.clone()),
        _ => None,
    }
}

pub fn decode_opt_string(f: Option<&JsonValue>) -> (r: Option<Option<String>>)
    ensures
        match r {
            Some(x) => dec_opt_string(opt_deep(f)) == Some(opt_str(x)),
            None => dec_opt_string(opt_deep(f)) is None,
        },
{
    match f {
        None => Some(None),
        Some(JsonValue::Null) => Some(None),
        Some(JsonValue::Str(s)) => Some(Some(s.clone())),
        _ => None,
    }
}

pub fn decode_flag(f: Option<&JsonValue>) -> (r: Option<bool>)
    ensures
        r == dec_flag(opt_deep(f)),
{
    match f {
        None => Some(false),
        Some(JsonValue::Bool(b)) => Some(*b),
        _ => None,
    }
}

pub fn decode_u32(f: Option<&JsonValue>) -> (r: Option<u32>)
    ensures
        r == dec_u32(opt_deep(f)),
{
    match f {
        Some(JsonValue::Number(Some(n))) => if *n <= 0xffff_ffffu64 {
            Some(*n as u32)
        } else {
            None
        },
        _ => None,
    }
}

pub fn decode_string_map(f: Option<&JsonValue>) -> (r: Option<Option<StringMap<String>>>)
    ensures
        match r {
            Some(x) => dec_string_map(opt_deep(f)) == Some(opt_map(x)),
            None => dec_string_map(opt_deep(f)) is None,
        },
{
    match f {
        None => Some(None),
        Some(JsonValue::Null) => Some(None),
        Some(v) => match v {
            JsonValue::Object(o) => {
                let ghost es = v.deep()->Object_0;
                proof {
                    crate::json::lemma_deep_object(*v);
                }
                let mut m: StringMap<String> = StringMap::new();
                let mut i: usize = 0;
                while i < o.len()
                    invariant
                        f == Some(v),
                        v.deep() is Object,
                        es == v.deep()->Object_0,
                        es.len() == o@.len(),
                        forall|j: int|
                            0 <= j < o@.len() ==> #[trigger] es[j] == (o@[j].0@, o@[j].1.deep()),
                        i <= o@.len(),
                        forall|j: int| 0 <= j < i ==> (#[trigger] es[j]).1 is Str,
                        m@ == pairs_map(string_pairs(es.take(i as int))),
                    decreases o@.len() - i,
                {
                    match &o[i].1 {
                        JsonValue::Str(s) => {
                            proof {
                                assert(es[i as int] == (o@[i as int].0@, o@[i as int].1.deep()));
                                assert(string_pairs(es.take(i + 1)).drop_last() =~= string_pairs(
                                    es.take(i as int),
                                ));
                            }
                            m.insert(o[i].0.clone(), s.clone());
                        },
                        _ => {
                            assert(es[i as int] == (o@[i as int].0@, o@[i as int].1.deep()));
                            assert(!(es[i as int].1 is Str));
                            assert(!all_strings(es));
                            return None;
                        },
                    }
                    i = i + 1;
                }
                assert(es.take(o@.len() as int) =~= es);
                Some(Some(m))
            },
            _ => None,
        },
    }
}

/// The text members of a flat-map record.
pub open spec fn v2_text(j: JsonView) -> Option<(Seq<char>, Option<Seq<char>>, Option<Seq<char>>, Option<Seq<char>>, Option<Seq<char>>)> {
    let version = dec_string(field(j, "version"@));
    let name = dec_opt_string(field(j, "name"@));
    let resolved = dec_opt_string(field(j, "resolved"@));
    let integrity = dec_opt_string(field(j, "integrity"@));
    let license = dec_opt_string(field(j, "license"@));
    if version is Some && name is Some && resolved is Some && integrity is Some && license is Some {
        Some((version->0, name->0, resolved->0, integrity->0, license->0))
    } else {
        None
    }
}

fn decode_v2_text(j: &JsonValue) -> (r: Option<(String, Option<String>, Option<String>, Option<String>, Option<String>)>)
    ensures
        match r {
            Some(t) => v2_text(j.deep()) == Some((t.0@, opt_str(t.1), opt_str(t.2), opt_str(t.3), opt_str(t.4))),
            None => v2_text(j.deep()) is None,
        },
{
    let version = decode_string(get_field(j, "version"))?;
    let name = decode_opt_string(get_field(j, "name"))?;
    let resolved = decode_opt_string(get_field(j, "resolved"))?;
    let integrity = decode_opt_string(get_field(j, "integrity"))?;
    let license = decode_opt_string(get_field(j, "license"))?;
    Some((version, name, resolved, integrity, license))
}

/// The flags members of a flat-map record.
pub open spec fn v2_flags(j: JsonView) -> Option<(bool, bool, bool, bool, bool, bool, bool)> {
    let bundled = dec_flag(field(j, "bundled"@));
    let is_dev = dec_flag(field(j, "dev"@));
    let is_optional = dec_flag(field(j, "optional"@));
    let is_dev_optional = dec_flag(field(j, "devOptional"@));
    let is_in_bundle = dec_flag(field(j, "inBundle"@));
    let has_install_script = dec_flag(field(j, "hasInstallScript"@));
    let has_shrink_wrap = dec_flag(field(j, "hasShrinkwrap"@));
    if bundled is Some && is_dev is Some && is_optional is Some && is_dev_optional is Some && is_in_bundle is Some && has_install_script is Some && has_shrink_wrap is Some {
        Some((bundled->0, is_dev->0, is_optional->0, is_dev_optional->0, is_in_bundle->0, has_install_script->0, has_shrink_wrap->0))
    } else {
        None
    }
}

fn decode_v2_flags(j: &JsonValue) -> (r: Option<(bool, bool, bool, bool, bool, bool, bool)>)
    ensures
        match r {
            Some(t) => v2_flags(j.deep()) == Some((t.0, t.1, t.2, t.3, t.4, t.5, t.6)),
            None => v2_flags(j.deep()) is None,
        },
{
    let bundled = decode_flag(get_field(j, "bundled"))?;
    let is_dev = decode_flag(get_field(j, "dev"))?;
    let is_optional = decode_flag(get_field(j, "optional"))?;
    let is_dev_optional = decode_flag(get_field(j, "devOptional"))?;
    let is_in_bundle = decode_flag(get_field(j, "inBundle"))?;
    let has_install_script = decode_flag(get_field(j, "hasInstallScript"))?;
    let has_shrink_wrap = decode_flag(get_field(j, "hasShrinkwrap"))?;
    Some((bundled, is_dev, is_optional, is_dev_optional, is_in_bundle, has_install_script, has_shrink_wrap))
}

/// The maps members of a flat-map record.
pub open spec fn v2_maps(j: JsonView) -> Option<(Option<Map<Seq<char>, Seq<char>>>, Option<Map<Seq<char>, Seq<char>>>, Option<Map<Seq<char>, Seq<char>>>, Option<Map<Seq<char>, Seq<char>>>, Option<Map<Seq<char>, Seq<char>>>, Option<Map<Seq<char>, Seq<char>>>)> {
    let dependencies = dec_string_map(field(j, "dependencies"@));
    let dev_dependencies = dec_string_map(field(j, "devDependencies"@));
    let optional_dependencies = dec_string_map(field(j, "optionalDependencies"@));
    let peer_dependencies = dec_string_map(field(j, "peerDependencies"@));
    let engines = dec_string_map(field(j, "engines"@));
    let bin = dec_string_map(field(j, "bin"@));
    if dependencies is Some && dev_dependencies is Some && optional_dependencies is Some && peer_dependencies is Some && engines is Some && bin is Some {
        Some((dependencies->0, dev_dependencies->0, optional_dependencies->0, peer_dependencies->0, engines->0, bin->0))
    } else {
        None
    }
}

fn decode_v2_maps(j: &JsonValue) -> (r: Option<(Option<StringMap<String>>, Option<StringMap<String>>, Option<StringMap<String>>, Option<StringMap<String>>, Option<StringMap<String>>, Option<StringMap<String>>)>)
    ensures
        match r {
            Some(t) => v2_maps(j.deep()) == Some((opt_map(t.0), opt_map(t.1), opt_map(t.2), opt_map(t.3), opt_map(t.4), opt_map(t.5))),
            None => v2_maps(j.deep()) is None,
        },
{
    let dependencies = decode_string_map(get_field(j, "dependencies"))?;
    let dev_dependencies = decode_string_map(get_field(j, "devDependencies"))?;
    let optional_dependencies = decode_string_map(get_field(j, "optionalDependencies"))?;
    let peer_dependencies = decode_string_map(get_field(j, "peerDependencies"))?;
    let engines = decode_string_map(get_field(j, "engines"))?;
    let bin = decode_string_map(get_field(j, "bin"))?;
    Some((dependencies, dev_dependencies, optional_dependencies, peer_dependencies, engines, bin))
}

/// The record that an object of the flat map decodes to, or `None` where a
/// member has the wrong shape or `version` is missing. Unknown members are
/// ignored.
pub open spec fn v2_of(j: JsonView) -> Option<V2Model> {
    if j is Object && v2_text(j) is Some && v2_flags(j) is Some && v2_maps(j) is Some {
        let t = v2_text(j)->0;
        let f = v2_flags(j)->0;
        let m = v2_maps(j)->0;
        Some(V2Model {
            version: t.0,
            name: t.1,
            resolved: t.2,
            integrity: t.3,
            license: t.4,
            bundled: f.0,
            is_dev: f.1,
            is_optional: f.2,
            is_dev_optional: f.3,
            is_in_bundle: f.4,
            has_install_script: f.5,
            has_shrink_wrap: f.6,
            dependencies: m.0,
            dev_dependencies: m.1,
            optional_dependencies: m.2,
            peer_dependencies: m.3,
            engines: m.4,
            bin: m.5,
        })
    } else {
        None
    }
}

/// Decodes a record of the flat map from its object.
pub fn decode_v2(j: &JsonValue) -> (r: Option<V2Dependency>)
    ensures
        match r {
            Some(d) => v2_of(j.deep()) == Some(d@),
            None => v2_of(j.deep()) is None,
        },
{
    match j {
        JsonValue::Object(_) => {},
        _ => return None,
    }
    let t = decode_v2_text(j)?;
    let f = decode_v2_flags(j)?;
    let m = decode_v2_maps(j)?;
    Some(V2Dependency {
        version: t.0,
        name: t.1,
        resolved: t.2,
        integrity: t.3,
        license: t.4,
        bundled: f.0,
        is_dev: f.1,
        is_optional: f.2,
        is_dev_optional: f.3,
        is_in_bundle: f.4,
        has_install_script: f.5,
        has_shrink_wrap: f.6,
        dependencies: m.0,
        dev_dependencies: m.1,
        optional_dependencies: m.2,
        peer_dependencies: m.3,
        engines: m.4,
        bin: m.5,
    })
}

/// The members of a legacy node other than its children.
pub open spec fn v1_scalars(j: JsonView) -> Option<
    (Seq<char>, Option<Seq<char>>, Option<Seq<char>>, bool, bool, bool, Option<Map<Seq<char>, Seq<char>>>),
> {
    let version = dec_string(field(j, "version"@));
    let resolved = dec_opt_string(field(j, "resolved"@));
    let integrity = dec_opt_string(field(j, "integrity"@));
    let bundled = dec_flag(field(j, "bundled"@));
    let is_dev = dec_flag(field(j, "dev"@));
    let is_optional = dec_flag(field(j, "optional"@));
    let required = dec_string_map(field(j, "requires"@));
    if version is Some && resolved is Some && integrity is Some && bundled is Some && is_dev is Some
        && is_optional is Some && required is Some {
        Some((version->0, resolved->0, integrity->0, bundled->0, is_dev->0, is_optional->0, required->0))
    } else {
        None
    }
}

/// `j` decodes to a legacy node: it is an object whose members have the
/// right shapes, and so does each of its children.
pub open spec fn v1_ok(j: JsonView) -> bool
    decreases j,
{
    match j {
        JsonView::Object(es) => v1_scalars(j) is Some && match last_index_of(es, "dependencies"@) {
            None => true,
            Some(i) => 0 <= i < es.len() && match es[i].1 {
                JsonView::Null => true,
                JsonView::Object(cs) => forall|k: int| 0 <= k < cs.len() ==> v1_ok(#[trigger] cs[k].1),
                _ => false,
            },
        },
        _ => false,
    }
}

/// `d` holds what `j` decodes to, but for its own version, which is
/// `version`; its children hold what theirs decode to, versions included.
pub open spec fn v1_matches_with_version(j: JsonView, d: V1Dependency, version: Seq<char>) -> bool
    decreases j,
{
    match j {
        JsonView::Object(es) => {
            let t = v1_scalars(j)->0;
            &&& v1_scalars(j) is Some
            &&& d.version@ == version
            &&& opt_str(d.resolved) == t.1
            &&& opt_str(d.integrity) == t.2
            &&& d.bundled == t.3
            &&& d.is_dev == t.4
            &&& d.is_optional == t.5
            &&& opt_map(d.requires) == t.6
            &&& match last_index_of(es, "dependencies"@) {
                None => d.dependencies is None,
                Some(i) => 0 <= i < es.len() && match es[i].1 {
                    JsonView::Null => d.dependencies is None,
                    JsonView::Object(cs) => d.dependencies is Some && d.dependencies->0@.dom()
                        == pairs_map(cs).dom() && forall|k: int|
                        0 <= k < cs.len() && last_index_of(cs, cs[k].0) == Some(k)
                            ==> v1_matches_with_version(
                            #[trigger] cs[k].1,
                            d.dependencies->0@[cs[k].0],
                            (v1_scalars(cs[k].1)->0).0,
                        ),
                    _ => false,
                },
            }
        },
        _ => false,
    }
}

/// `d` holds what `j` decodes to.
pub open spec fn v1_matches(j: JsonView, d: V1Dependency) -> bool {
    v1_matches_with_version(j, d, (v1_scalars(j)->0).0)
}

fn decode_v1_scalars(j: &JsonValue) -> (r: Option<
    (String, Option<String>, Option<String>, bool, bool, bool, Option<StringMap<String>>),
>)
    ensures
        match r {
            Some(t) => v1_scalars(j.deep()) == Some(
                (t.0@, opt_str(t.1), opt_str(t.2), t.3, t.4, t.5, opt_map(t.6)),
            ),
            None => v1_scalars(j.deep()) is None,
        },
{
    let version = decode_string(get_field(j, "version"))?;
    let resolved = decode_opt_string(get_field(j, "resolved"))?;
    let integrity = decode_opt_string(get_field(j, "integrity"))?;
    let bundled = decode_flag(get_field(j, "bundled"))?;
    let is_dev = decode_flag(get_field(j, "dev"))?;
    let is_optional = decode_flag(get_field(j, "optional"))?;
    let required = decode_string_map(get_field(j, "requires"))?;
    Some((version, resolved, integrity, bundled, is_dev, is_optional, required))
}

/// Decodes a node of the legacy tree, with its children.
pub fn decode_v1(j: &JsonValue) -> (r: Option<V1Dependency>)
    ensures
        r is Some <==> v1_ok(j.deep()),
        r is Some ==> v1_matches(j.deep(), r->0),
    decreases j,
{
    match j {
        JsonValue::Object(es) => {
            proof {
                crate::json::lemma_deep_object(*j);
            }
            let ghost ev = j.deep()->Object_0;
            let t = match decode_v1_scalars(j) {
                Some(t) => t,
                None => return None,
            };
            let dependencies = match crate::json::field_index(j, "dependencies") {
                None => None,
                Some(i) => {
                    assert(ev[i as int] == (es@[i as int].0@, es@[i as int].1.deep()));
                    match &es[i].1 {
                        JsonValue::Null => None,
                        JsonValue::Object(cs) => {
                            let ghost cv = es@[i as int].1.deep()->Object_0;
                            proof {
                                crate::json::lemma_deep_object(es@[i as int].1);
                                assert(ev[i as int].1 == JsonView::Object(cv));
                            }
                            let mut m: StringMap<V1Dependency> = StringMap::new();
                            let mut k: usize = 0;
                            while k < cs.len()
                                invariant
                                    *j == JsonValue::Object(*es),
                                    i < es@.len(),
                                    j.deep() == JsonView::Object(ev),
                                    last_index_of(ev, "dependencies"@) == Some(i as int),
                                    ev[i as int].1 == JsonView::Object(cv),
                                    es@[i as int].1 == JsonValue::Object(*cs),
                                    cv == es@[i as int].1.deep()->Object_0,
                                    cv.len() == cs@.len(),
                                    forall|x: int|
                                        0 <= x < cs@.len() ==> #[trigger] cv[x] == (
                                            cs@[x].0@,
                                            cs@[x].1.deep(),
                                        ),
                                    k <= cs@.len(),
                                    forall|x: int| 0 <= x < k ==> v1_ok(#[trigger] cv[x].1),
                                    m@.dom() == pairs_map(cv.take(k as int)).dom(),
                                    forall|x: int|
                                        0 <= x < k && last_index_of(cv.take(k as int), cv[x].0)
                                            == Some(x) ==> v1_matches(
                                            #[trigger] cv[x].1,
                                            m@[cv[x].0],
                                        ),
                                decreases cs@.len() - k,
                            {
                                proof {
                                    assert(decreases_to!(*j => *es));
                                    assert(decreases_to!(*es => es@[i as int]));
                                    assert(decreases_to!(es@[i as int] => es@[i as int].1));
                                    assert(decreases_to!(es@[i as int].1 => *cs));
                                    assert(decreases_to!(*cs => cs@[k as int]));
                                    assert(decreases_to!(cs@[k as int] => cs@[k as int].1));
                                }
                                let child = match decode_v1(&cs[k].1) {
                                    Some(c) => c,
                                    None => {
                                        assert(!v1_ok(cv[k as int].1));
                                        return None;
                                    },
                                };
                                let ghost key = cv[k as int].0;
                                proof {
                                    assert(cv.take(k + 1).drop_last() =~= cv.take(k as int));
                                }
                                m.insert(cs[k].0.clone(), child);
                                proof {
                                    let nt = cv.take(k + 1);
                                    assert(nt.last() == cv[k as int]);
                                    assert(last_index_of(nt, key) == Some(k as int));
                                    assert forall|x: int|
                                        0 <= x < k + 1 && last_index_of(nt, cv[x].0) == Some(x)
                                            implies v1_matches(#[trigger] cv[x].1, m@[cv[x].0]) by {
                                        if x < k {
                                            assert(cv[x].0 != key);
                                            assert(last_index_of(nt, cv[x].0) == last_index_of(
                                                cv.take(k as int),
                                                cv[x].0,
                                            ));
                                        }
                                    }
                                }
                                k = k + 1;
                            }
                            proof {
                                assert(cv.take(cs@.len() as int) =~= cv);
                            }
                            Some(m)
                        },
                        _ => return None,
                    }
                },
            };
            Some(
                V1Dependency {
                    version: t.0,
                    resolved: t.1,
                    integrity: t.2,
                    bundled: t.3,
                    is_dev: t.4,
                    is_optional: t.5,
                    requires: t.6,
                    dependencies,
                },
            )
        },
        _ => None,
    }
}

/// Each member of `cs` decodes to a legacy node.
pub open spec fn children_ok(cs: Seq<(Seq<char>, JsonView)>) -> bool {
    forall|k: int| 0 <= k < cs.len() ==> v1_ok(#[trigger] cs[k].1)
}

} // verus!
