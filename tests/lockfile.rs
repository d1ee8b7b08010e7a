use package_lock_json_parser::{
    deserialize_packages, parse, parse_dependencies, JsonValue, PackageLockJsonError,
    SimpleDependency, StringMap, V1Dependency, V2Dependency,
};

fn smap(pairs: &[(&str, &str)]) -> StringMap<String> {
    let mut m = StringMap::new();
    for (k, v) in pairs {
        m.insert(k.to_string(), v.to_string());
    }
    m
}

const COOL_PROJECT: &str = r#"{
  "name": "cool-project",
  "lockfileVersion": 2,
  "requires": true,
  "packages": {
    "": { "name": "cool-project", "workspaces": ["cool"] },
    "cool": { "name": "cool-project", "version": "23.1.21" },
    "node_modules/cool-project": { "resolved": "cool", "link": true }
  },
  "dependencies": {
    "cool-project": { "version": "file:cool" }
  }
}"#;

const MOON: &str = r#"{
  "name": "moon-examples",
  "version": "1.2.3",
  "lockfileVersion": 3,
  "requires": true,
  "packages": {
    "": { "name": "moon-examples", "version": "1.2.3", "workspaces": ["workspaces/*"] },
    "node_modules/yaml": {
      "version": "2.2.2",
      "resolved": "https://registry.npmjs.org/yaml/-/yaml-2.2.2.tgz",
      "integrity": "sha512-CBKFWExMn46Foo4cldiChEzn7S7SRV+wqiluAb6xmueD/fGyRHIhX8m14vVGgeFWjN540nKCNVj6P21eQjgTuA==",
      "dev": true,
      "engines": { "node": ">= 14" }
    },
    "workspaces/libnpmdiff": {
      "version": "5.0.17",
      "license": "ISC",
      "dependencies": { "pacote": "^15.0.8", "tar": "^6.1.13" }
    }
  }
}"#;

const V3_WORKSPACE: &str = r#"{
  "name": "kk",
  "version": "1.0.0",
  "lockfileVersion": 3,
  "requires": true,
  "packages": {
    "": { "name": "kk", "version": "1.0.0", "workspaces": ["liba", "libb"] },
    "liba": { "version": "1.0.0", "license": "ISC", "dependencies": { "libb2": "*" } },
    "libb": { "name": "libb2", "version": "1.0.0", "license": "ISC" },
    "node_modules/liba": { "resolved": "liba", "link": true },
    "node_modules/libb2": { "resolved": "libb", "link": true }
  }
}"#;

const HIGHLIGHT_V1: &str = r#"{
  "version": "7.18.6",
  "resolved": "https://registry.npmjs.org/@babel/highlight/-/highlight-7.18.6.tgz",
  "integrity": "sha512-u7stbOuYjaPezCuLj29hNW1v64M2Md2qupEKP1fHc7WdOA3DgLh37suiSrZYY7haUB7iBeQZ9P1uiRF359do3g==",
  "dev": true,
  "requires": {
    "@babel/helper-validator-identifier": "^7.18.6",
    "chalk": "^2.0.0",
    "js-tokens": "^4.0.0"
  },
  "dependencies": {
    "js-tokens": {
      "version": "4.0.0",
      "resolved": "https://registry.npmjs.org/js-tokens/-/js-tokens-4.0.0.tgz",
      "integrity": "sha512-RdJUflcE3cUzKiMqQgsCu06FPu9UdIJO0beYbPhHN4k6apgJtifcoCtT9bcxOpYBtpD2kCM6Sbzg4CausW/PKQ==",
      "dev": true
    }
  }
}"#;

const HIGHLIGHT_V2: &str = r#"{
  "version": "7.18.6",
  "resolved": "https://registry.npmjs.org/@babel/highlight/-/highlight-7.18.6.tgz",
  "integrity": "sha512-u7stbOuYjaPezCuLj29hNW1v64M2Md2qupEKP1fHc7WdOA3DgLh37suiSrZYY7haUB7iBeQZ9P1uiRF359do3g==",
  "dev": true,
  "dependencies": {
    "@babel/helper-validator-identifier": "^7.18.6",
    "chalk": "^2.0.0",
    "js-tokens": "^4.0.0"
  },
  "engines": { "node": ">=6.9.0" }
}"#;

const CODE_FRAME_V1: &str = r#"{
  "version": "7.18.6",
  "resolved": "https://registry.npmjs.org/@babel/code-frame/-/code-frame-7.18.6.tgz",
  "integrity": "sha512-TDCmlK5eOvH+eH7cdAFlNXeVJqWIQ7gW9tY1GJIpUtFb6CmjVyq2VM3u71bOyR8CRihcCgMUYoDNyLXao3+70Q==",
  "dev": true,
  "requires": { "@babel/highlight": "^7.18.6" }
}"#;

const CODE_FRAME_V2: &str = r#"{
  "version": "7.18.6",
  "resolved": "https://registry.npmjs.org/@babel/code-frame/-/code-frame-7.18.6.tgz",
  "integrity": "sha512-TDCmlK5eOvH+eH7cdAFlNXeVJqWIQ7gW9tY1GJIpUtFb6CmjVyq2VM3u71bOyR8CRihcCgMUYoDNyLXao3+70Q==",
  "dev": true,
  "dependencies": { "@babel/highlight": "^7.18.6" },
  "engines": { "node": ">=6.9.0" }
}"#;

const CHALK_V1: &str = r#"{ "version": "2.4.2", "dev": true }"#;
const CHALK_V2: &str = r#"{ "version": "2.4.2", "dev": true, "engines": [ "node >=4" ] }"#;

fn v1_lockfile() -> String {
    format!(
        r#"{{ "name": "cxtl", "version": "1.0.0", "lockfileVersion": 1, "requires": true,
              "dependencies": {{ "@babel/code-frame": {}, "@babel/highlight": {}, "chalk": {} }} }}"#,
        CODE_FRAME_V1, HIGHLIGHT_V1, CHALK_V1
    )
}

fn v2_lockfile() -> String {
    format!(
        r#"{{ "name": "cxtl", "version": "1.0.0", "lockfileVersion": 2, "requires": true,
              "packages": {{ "": {{ "name": "cxtl", "version": "1.0.0" }},
                             "node_modules/@babel/code-frame": {},
                             "node_modules/@babel/highlight": {},
                             "node_modules/chalk": {} }},
              "dependencies": {{ "@babel/code-frame": {}, "@babel/highlight": {}, "chalk": {} }} }}"#,
        CODE_FRAME_V2, HIGHLIGHT_V2, CHALK_V2, CODE_FRAME_V1, HIGHLIGHT_V1, CHALK_V1
    )
}

fn v3_lockfile() -> String {
    format!(
        r#"{{ "name": "cxtl", "version": "1.0.0", "lockfileVersion": 3, "requires": true,
              "packages": {{ "": {{ "name": "cxtl", "version": "1.0.0" }},
                             "node_modules/@babel/code-frame": {},
                             "node_modules/@babel/highlight": {},
                             "node_modules/chalk": {} }} }}"#,
        CODE_FRAME_V2, HIGHLIGHT_V2, CHALK_V2
    )
}

fn expected_v1() -> V1Dependency {
    let mut nested = StringMap::new();
    nested.insert(
        "js-tokens".to_string(),
        V1Dependency {
            version: "4.0.0".to_string(),
            resolved: Some("https://registry.npmjs.org/js-tokens/-/js-tokens-4.0.0.tgz".to_string()),
            integrity: Some("sha512-RdJUflcE3cUzKiMqQgsCu06FPu9UdIJO0beYbPhHN4k6apgJtifcoCtT9bcxOpYBtpD2kCM6Sbzg4CausW/PKQ==".to_string()),
            is_dev: true,
            bundled: false,
            ..V1Dependency::default()
        },
    );
    V1Dependency {
        version: "7.18.6".to_string(),
        resolved: Some("https://registry.npmjs.org/@babel/highlight/-/highlight-7.18.6.tgz".to_string()),
        integrity: Some("sha512-u7stbOuYjaPezCuLj29hNW1v64M2Md2qupEKP1fHc7WdOA3DgLh37suiSrZYY7haUB7iBeQZ9P1uiRF359do3g==".to_string()),
        bundled: false,
        is_dev: true,
        is_optional: false,
        requires: Some(smap(&[
            ("@babel/helper-validator-identifier", "^7.18.6"),
            ("chalk", "^2.0.0"),
            ("js-tokens", "^4.0.0"),
        ])),
        dependencies: Some(nested),
    }
}

fn expected_v2() -> V2Dependency {
    V2Dependency {
        version: "7.18.6".to_string(),
        resolved: Some("https://registry.npmjs.org/@babel/highlight/-/highlight-7.18.6.tgz".to_string()),
        integrity: Some("sha512-u7stbOuYjaPezCuLj29hNW1v64M2Md2qupEKP1fHc7WdOA3DgLh37suiSrZYY7haUB7iBeQZ9P1uiRF359do3g==".to_string()),
        bundled: false,
        is_dev: true,
        is_optional: false,
        dependencies: Some(smap(&[
            ("@babel/helper-validator-identifier", "^7.18.6"),
            ("chalk", "^2.0.0"),
            ("js-tokens", "^4.0.0"),
        ])),
        engines: Some(smap(&[("node", ">=6.9.0")])),
        ..V2Dependency::default()
    }
}

#[test]
fn works_without_version() {
    let lock_file = parse(COOL_PROJECT).unwrap();
    assert_eq!(lock_file.name, "cool-project");
    assert!(lock_file.version.is_none());
}

#[test]
fn cool_project_works() {
    let lock_file = parse(COOL_PROJECT).unwrap();
    assert_eq!(lock_file.name, "cool-project");
    assert!(lock_file.version.is_none());
    assert_eq!(lock_file.lockfile_version, 2);

    assert!(lock_file.dependencies.is_some());
    assert!(lock_file.packages.is_some());

    let packages = lock_file.packages.unwrap();
    let cool = packages.get("cool-project").unwrap();
    assert_eq!(cool.name, Some("cool-project".to_string()));
    assert_eq!(cool.version, "23.1.21".to_string());

    let dependencies = lock_file.dependencies.unwrap();
    let cool = dependencies.get("cool-project").unwrap();
    assert_eq!(cool.version, "23.1.21".to_string());
}

#[test]
fn parse_moon_workspace_dependencies_works() {
    let lock_file = parse(MOON).unwrap();
    assert_eq!(lock_file.name, "moon-examples");
    assert_eq!(lock_file.version, Some("1.2.3".to_string()));
    assert_eq!(lock_file.lockfile_version, 3);

    assert!(lock_file.dependencies.is_none());
    assert!(lock_file.packages.is_some());

    let packages = lock_file.packages.unwrap();

    let yaml = packages.get("yaml").unwrap();
    let expected_yaml = V2Dependency {
        version: "2.2.2".to_string(),
        resolved: Some("https://registry.npmjs.org/yaml/-/yaml-2.2.2.tgz".to_string()),
        integrity: Some("sha512-CBKFWExMn46Foo4cldiChEzn7S7SRV+wqiluAb6xmueD/fGyRHIhX8m14vVGgeFWjN540nKCNVj6P21eQjgTuA==".to_string()),
        is_dev: true,
        engines: Some(smap(&[("node", ">= 14")])),
        ..V2Dependency::default()
    };
    assert_eq!(yaml, &expected_yaml);

    let libnpmdiff = packages.get("workspaces/libnpmdiff").unwrap();
    assert_eq!(libnpmdiff.version, "5.0.17".to_string());
    assert_eq!(libnpmdiff.license, Some("ISC".to_string()));
    assert!(libnpmdiff.dependencies.is_some());
    let dependencies = libnpmdiff.dependencies.as_ref().unwrap();
    assert!(dependencies.contains_key("pacote"));
    assert!(dependencies.contains_key("tar"));
}

#[test]
fn parse_v3_workspace_dependencies_works() {
    let lock_file = parse(V3_WORKSPACE).unwrap();
    assert_eq!(lock_file.name, "kk");
    assert_eq!(lock_file.version, Some("1.0.0".to_string()));
    assert_eq!(lock_file.lockfile_version, 3);

    assert!(lock_file.dependencies.is_none());
    assert!(lock_file.packages.is_some());

    let packages = lock_file.packages.unwrap();

    let liba = packages.get("liba").unwrap();
    let expected_liba = V2Dependency {
        version: "1.0.0".to_string(),
        resolved: None,
        integrity: None,
        bundled: false,
        is_dev: false,
        is_optional: false,
        dependencies: Some(smap(&[("libb2", "*")])),
        license: Some("ISC".to_string()),
        engines: None,
        ..V2Dependency::default()
    };
    assert_eq!(liba, &expected_liba);

    let libb = packages.get("libb");
    assert!(libb.is_none());

    let libb2 = packages.get("libb2").unwrap();
    let expected_libb2 = V2Dependency {
        name: Some("libb2".to_string()),
        version: "1.0.0".to_string(),
        resolved: None,
        integrity: None,
        bundled: false,
        is_dev: false,
        is_optional: false,
        dependencies: None,
        license: Some("ISC".to_string()),
        engines: None,
        ..V2Dependency::default()
    };
    assert_eq!(libb2, &expected_libb2);
}

#[test]
fn parse_v1_from_file_works() {
    let lock_file = parse(&v1_lockfile()).unwrap();
    assert_eq!(lock_file.name, "cxtl");
    assert_eq!(lock_file.version, Some("1.0.0".to_string()));
    assert_eq!(lock_file.lockfile_version, 1);

    assert!(lock_file.dependencies.is_some());
    assert!(lock_file.packages.is_none());

    let dependencies = lock_file.dependencies.unwrap();
    let babel_highlight = dependencies.get("@babel/highlight").unwrap();
    assert_eq!(babel_highlight, &expected_v1());
}

#[test]
fn parse_v2_from_file_works() {
    let lock_file = parse(&v2_lockfile()).unwrap();
    assert_eq!(lock_file.name, "cxtl");
    assert_eq!(lock_file.version, Some("1.0.0".to_string()));
    assert_eq!(lock_file.lockfile_version, 2);

    assert!(lock_file.dependencies.is_some());
    assert!(lock_file.packages.is_some());

    let dependencies = lock_file.dependencies.unwrap();
    let babel_highlight = dependencies.get("@babel/highlight").unwrap();
    assert_eq!(babel_highlight, &expected_v1());

    let packages = lock_file.packages.unwrap();
    let babel_highlight = packages.get("@babel/highlight").unwrap();
    assert_eq!(babel_highlight, &expected_v2());
}

#[test]
fn parse_v3_from_file_works() {
    let lock_file = parse(&v3_lockfile()).unwrap();
    assert_eq!(lock_file.name, "cxtl");
    assert_eq!(lock_file.version, Some("1.0.0".to_string()));
    assert_eq!(lock_file.lockfile_version, 3);

    assert!(lock_file.dependencies.is_none());
    assert!(lock_file.packages.is_some());

    let packages = lock_file.packages.unwrap();
    let babel_highlight = packages.get("@babel/highlight").unwrap();
    assert_eq!(babel_highlight, &expected_v2());
}

#[test]
fn deserialize_packages_works() {
    let content = r#"{
        "node_modules/extsprintf": {
            "version": "1.3.0",
            "resolved": "https://registry.npmjs.org/extsprintf/-/extsprintf-1.3.0.tgz",
            "integrity": "sha512-11Ndz7Nv+mvAC1j0ktTa7fAb0vLyGGX+rMHNBYQviQDGU0Hw7lhctJANqbPhu9nV9/izT/IntTgZ7Im/9LJs9g==",
            "dev": true,
            "engines": [
                "node >=0.6.0"
            ]
        }
    }"#;

    let raw = JsonValue::from_text(content);
    let packages = deserialize_packages(raw).unwrap().unwrap();
    let package = packages.get("extsprintf").unwrap();
    assert_eq!(package.version, "1.3.0");
    assert!(package.is_dev);
    assert_eq!(package.engines, Some(smap(&[("node", ">=0.6.0")])));
}

#[test]
fn parse_entries_v1_works() {
    let mut dependencies = parse_dependencies(&v1_lockfile()).unwrap();
    dependencies.sort();

    let first = dependencies.first().unwrap();
    assert_eq!(first.name, "@babel/code-frame");
    assert_eq!(first.version, "7.18.6");
    assert!(first.is_dev);
    assert!(!first.is_optional);
}

#[test]
fn parse_entries_v2_works() {
    let mut dependencies = parse_dependencies(&v3_lockfile()).unwrap();
    dependencies.sort();

    let first = dependencies.first().unwrap();
    assert_eq!(first.name, "@babel/code-frame");
    assert_eq!(first.version, "7.18.6");
    assert!(first.is_dev);
    assert!(!first.is_optional);
}

#[test]
fn schema_one_and_three_list_the_same_dependencies() {
    let mut one = parse_dependencies(&v1_lockfile()).unwrap();
    let mut three = parse_dependencies(&v3_lockfile()).unwrap();
    one.sort();
    three.sort();
    assert_eq!(one.len(), 3);
    assert_eq!(one, three);
    let chalk = SimpleDependency {
        name: "chalk".to_string(),
        version: "2.4.2".to_string(),
        is_dev: true,
        is_optional: false,
    };
    assert_eq!(one[2], chalk);
}

#[test]
fn schema_two_lists_the_legacy_tree_only() {
    let text = r#"{ "name": "p", "lockfileVersion": 2,
        "packages": { "node_modules/a": { "version": "1.0.0" }, "node_modules/b": { "version": "2.0.0" } },
        "dependencies": { "a": { "version": "1.0.0", "optional": true } } }"#;
    let list = parse_dependencies(text).unwrap();
    assert_eq!(list.len(), 1);
    assert_eq!(list[0].name, "a");
    assert!(list[0].is_optional);
    assert!(!list[0].is_dev);
}

#[test]
fn file_placeholder_takes_flat_map_version() {
    let text = r#"{ "name": "test-node-npm", "version": "1.0.0", "lockfileVersion": 2,
        "packages": {
            "": { "name": "test-node-npm", "version": "1.0.0" },
            "base": { "name": "test-node-npm-base", "version": "1.0.0", "dependencies": { "react": "17.0.0" } },
            "node_modules/test-node-npm-base": { "resolved": "base", "link": true }
        },
        "dependencies": {
            "test-node-npm-base": { "version": "file:base", "requires": { "react": "17.0.0" } }
        } }"#;
    let lock_file = parse(text).unwrap();
    let packages = lock_file.packages.unwrap();
    assert!(packages.get("base").is_none());
    let expected_base = V2Dependency {
        version: "1.0.0".to_string(),
        name: Some("test-node-npm-base".to_string()),
        dependencies: Some(smap(&[("react", "17.0.0")])),
        ..V2Dependency::default()
    };
    assert_eq!(packages.get("test-node-npm-base").unwrap(), &expected_base);
    let dependencies = lock_file.dependencies.unwrap();
    assert_eq!(
        dependencies.get("test-node-npm-base").unwrap(),
        &V1Dependency {
            version: "1.0.0".to_string(),
            requires: Some(smap(&[("react", "17.0.0")])),
            ..V1Dependency::default()
        }
    );
}

#[test]
fn unresolved_file_placeholder_is_kept() {
    let text = r#"{ "name": "p", "lockfileVersion": 2,
        "packages": { "node_modules/other": { "version": "3.0.0" } },
        "dependencies": {
            "base": { "version": "file:base" },
            "other": { "version": "2.0.0" }
        } }"#;
    let lock_file = parse(text).unwrap();
    let dependencies = lock_file.dependencies.unwrap();
    assert_eq!(dependencies.get("base").unwrap().version, "file:base");
    assert_eq!(dependencies.get("other").unwrap().version, "2.0.0");
}

#[test]
fn nested_placeholders_are_not_reconciled() {
    let text = r#"{ "name": "p", "lockfileVersion": 2,
        "packages": { "node_modules/inner": { "version": "9.9.9" } },
        "dependencies": {
            "outer": { "version": "1.0.0", "dependencies": { "inner": { "version": "file:inner" } } }
        } }"#;
    let lock_file = parse(text).unwrap();
    let dependencies = lock_file.dependencies.unwrap();
    let outer = dependencies.get("outer").unwrap();
    let inner = outer.dependencies.as_ref().unwrap().get("inner").unwrap();
    assert_eq!(inner.version, "file:inner");
}

#[test]
fn engines_array_becomes_mapping() {
    let text = r#"{ "name": "p", "lockfileVersion": 3, "packages": {
        "node_modules/a": { "version": "1.0.0", "engines": ["node >=6.9.0"] },
        "node_modules/b": { "version": "1.0.0", "engines": [] },
        "node_modules/c": { "version": "1.0.0", "engines": ["node", "npm >=7 <9", 4] }
    } }"#;
    let packages = parse(text).unwrap().packages.unwrap();
    assert_eq!(packages.get("a").unwrap().engines, Some(smap(&[("node", ">=6.9.0")])));
    assert_eq!(packages.get("b").unwrap().engines, None);
    assert_eq!(
        packages.get("c").unwrap().engines,
        Some(smap(&[("not_found", "not_found"), ("npm", ">=7 <9")]))
    );
}

#[test]
fn engines_object_is_left_alone() {
    let raw = JsonValue::from_text(r#"{ "version": "1.0.0", "engines": { "node": ">=8" } }"#).unwrap();
    let fixed = package_lock_json_parser::normalize_engines(raw);
    let record = package_lock_json_parser::model::decode_v2(&fixed).unwrap();
    assert_eq!(record.engines, Some(smap(&[("node", ">=8")])));
}

#[test]
fn malformed_entry_among_a_hundred_is_dropped() {
    let mut members = Vec::new();
    for i in 0..100 {
        if i == 42 {
            members.push(format!(r#""node_modules/p{}": {{ "version": 7 }}"#, i));
        } else {
            members.push(format!(r#""node_modules/p{}": {{ "version": "1.0.{}", "dev": true }}"#, i, i));
        }
    }
    let text = format!(r#"{{ "name": "p", "lockfileVersion": 3, "packages": {{ {} }} }}"#, members.join(", "));
    let packages = parse(&text).unwrap().packages.unwrap();
    assert_eq!(packages.len(), 99);
    assert!(packages.get("p42").is_none());
    for i in 0..100 {
        if i != 42 {
            let p = packages.get(&format!("p{}", i)).unwrap();
            assert_eq!(p.version, format!("1.0.{}", i));
            assert!(p.is_dev);
        }
    }
}

#[test]
fn nested_install_paths_are_dropped() {
    let text = r#"{ "name": "p", "lockfileVersion": 3, "packages": {
        "node_modules/a": { "version": "1.0.0" },
        "node_modules/a/node_modules/b": { "version": "2.0.0" },
        "node_modules/xnode_modules/y": { "version": "3.0.0" }
    } }"#;
    let packages = parse(text).unwrap().packages.unwrap();
    assert_eq!(packages.len(), 1);
    assert!(packages.contains_key("a"));
    assert!(!packages.contains_key("a/node_modules/b"));
    assert!(!packages.contains_key("b"));
}

#[test]
fn flat_keys_are_install_paths_without_prefix() {
    let text = r#"{ "name": "p", "lockfileVersion": 3, "packages": {
        "": { "name": "p", "version": "0.1.0" },
        "node_modules/@scope/pkg": { "version": "1.0.0" },
        "node_modules/left-pad": { "version": "1.3.0" },
        "tools/cli": { "version": "0.0.1" }
    } }"#;
    let packages = parse(text).unwrap().packages.unwrap();
    assert_eq!(packages.len(), 3);
    assert_eq!(packages.get("@scope/pkg").unwrap().version, "1.0.0");
    assert_eq!(packages.get("left-pad").unwrap().version, "1.3.0");
    assert_eq!(packages.get("tools/cli").unwrap().version, "0.0.1");
    assert!(!packages.contains_key(""));
}

#[test]
fn colliding_keys_keep_the_later_entry() {
    let text = r#"{ "name": "p", "lockfileVersion": 3, "packages": {
        "a-workspace": { "name": "x", "version": "1.0.0" },
        "node_modules/x": { "version": "2.0.0" }
    } }"#;
    let packages = parse(text).unwrap().packages.unwrap();
    assert_eq!(packages.len(), 1);
    assert_eq!(packages.get("x").unwrap().version, "2.0.0");
}

#[test]
fn invalid_json_is_an_error() {
    let err = parse("{ not json").unwrap_err();
    let PackageLockJsonError::ParseError(message) = &err;
    assert!(!message.is_empty());
    assert!(!err.to_string().is_empty());
}

#[test]
fn missing_name_is_an_error() {
    assert!(parse(r#"{ "lockfileVersion": 3 }"#).is_err());
    assert!(parse(r#"{ "name": "p" }"#).is_err());
    assert!(parse(r#"[1, 2]"#).is_err());
}

#[test]
fn lockfile_version_must_fit_in_u32() {
    assert!(parse(r#"{ "name": "p", "lockfileVersion": 4294967296 }"#).is_err());
    assert!(parse(r#"{ "name": "p", "lockfileVersion": -1 }"#).is_err());
    assert!(parse(r#"{ "name": "p", "lockfileVersion": 2.5 }"#).is_err());
    assert_eq!(parse(r#"{ "name": "p", "lockfileVersion": 4294967295 }"#).unwrap().lockfile_version, 4294967295);
}

#[test]
fn malformed_legacy_node_is_an_error() {
    let text = r#"{ "name": "p", "lockfileVersion": 1, "dependencies": { "a": { "dev": true } } }"#;
    assert!(parse(text).is_err());
    let text = r#"{ "name": "p", "lockfileVersion": 1, "dependencies": { "a": { "version": "1", "dev": null } } }"#;
    assert!(parse(text).is_err());
}

#[test]
fn packages_of_the_wrong_shape_is_an_error() {
    assert!(parse(r#"{ "name": "p", "lockfileVersion": 3, "packages": [] }"#).is_err());
    let lock = parse(r#"{ "name": "p", "lockfileVersion": 3, "packages": null }"#).unwrap();
    assert!(lock.packages.is_none());
    assert!(parse_dependencies(r#"{ "name": "p", "lockfileVersion": 3 }"#).unwrap().is_empty());
}

#[test]
fn string_map_insert_replaces_in_place() {
    let mut m = StringMap::new();
    assert!(m.is_empty());
    m.insert("b".to_string(), 1u32);
    m.insert("a".to_string(), 2u32);
    m.insert("b".to_string(), 3u32);
    assert_eq!(m.len(), 2);
    assert_eq!(m.get("b"), Some(&3));
    assert_eq!(m.get("a"), Some(&2));
    assert_eq!(m.get("c"), None);
    assert_eq!(m.entries()[0].0, "b");
}
