use std::cell::RefCell;

use dbake::bakeprint::{
    bake_print_with, compose_depends_on, no_default_group_hint, BakePrint, BakeTarget, CacheEntry,
    DependsOn,
};
use dbake::hcl::{
    extract_quoted_string, parse_hcl_depends_on, parse_hcl_string_list, strip_hcl_inline_comment,
};
use dbake::json::JsonDoc;
use dbake::names::NameMap;

fn bare_target() -> BakeTarget {
    BakeTarget {
        context: None,
        dockerfile: None,
        cache_from: vec![],
        cache_to: vec![],
        no_cache: None,
        push: None,
        load: None,
        tags: vec![],
        platforms: vec![],
    }
}

fn print_with(names: &[&str]) -> BakePrint {
    BakePrint {
        group: NameMap::new(),
        target: NameMap::from_pairs(
            names
                .iter()
                .map(|n| (n.to_string(), bare_target()))
                .collect(),
        ),
    }
}

fn parse_yaml_depends_on(yaml: &str) -> NameMap<Vec<String>> {
    let doc: serde_yaml_ng::Value = serde_yaml_ng::from_str(yaml).unwrap();
    let mut services = Vec::new();
    for (name, service) in doc["services"].as_mapping().unwrap() {
        let depends_on = match service.get("depends_on") {
            Some(serde_yaml_ng::Value::Sequence(list)) => Some(DependsOn::List(
                list.iter()
                    .map(|v| v.as_str().unwrap().to_string())
                    .collect(),
            )),
            Some(serde_yaml_ng::Value::Mapping(map)) => Some(DependsOn::Conditions(
                map.keys()
                    .map(|v| v.as_str().unwrap().to_string())
                    .collect(),
            )),
            _ => None,
        };
        services.push((name.as_str().unwrap().to_string(), depends_on));
    }
    compose_depends_on(&NameMap::from_pairs(services))
}

fn object(json: &str) -> CacheEntry {
    CacheEntry::Object(JsonDoc::parse(json).unwrap())
}

fn names(v: &[&str]) -> Vec<String> {
    v.iter().map(|s| s.to_string()).collect()
}

#[test]
fn uses_the_default_group_when_it_covers_everything() {
    let calls: RefCell<Vec<Vec<String>>> = RefCell::new(Vec::new());
    let out = bake_print_with(
        &names(&["app"]),
        |t: &[String]| {
            calls.borrow_mut().push(t.to_vec());
            Ok(print_with(&["app", "other"]))
        },
        "x.hcl",
    )
    .unwrap();
    assert_eq!(out.print.target.len(), 2);
    assert_eq!(
        *calls.borrow(),
        vec![Vec::<String>::new()],
        "must not retry needlessly"
    );
}

#[test]
fn retries_with_targets_when_there_is_no_default_group() {
    let calls: RefCell<Vec<Vec<String>>> = RefCell::new(Vec::new());
    let out = bake_print_with(
        &names(&["app"]),
        |t: &[String]| {
            calls.borrow_mut().push(t.to_vec());
            if t.is_empty() {
                return Err("failed to find target default".to_string());
            }
            Ok(print_with(&["app"]))
        },
        "x.hcl",
    )
    .unwrap();
    assert!(out.print.target.contains_key("app"));
    assert_eq!(*calls.borrow(), vec![vec![], names(&["app"])]);
}

#[test]
fn retries_when_the_default_group_is_only_partial() {
    let calls: RefCell<Vec<Vec<String>>> = RefCell::new(Vec::new());
    let out = bake_print_with(
        &names(&["extra"]),
        |t: &[String]| {
            calls.borrow_mut().push(t.to_vec());
            if t.is_empty() {
                Ok(print_with(&["app"]))
            } else {
                Ok(print_with(&["extra"]))
            }
        },
        "x.hcl",
    )
    .unwrap();
    assert!(out.print.target.contains_key("extra"));
    assert_eq!(calls.borrow().len(), 2, "partial default group must trigger a retry");
}

#[test]
fn an_unknown_target_falls_back_to_the_usable_full_print() {
    let out = bake_print_with(
        &names(&["nope"]),
        |t: &[String]| {
            if t.is_empty() {
                Ok(print_with(&["app"]))
            } else {
                Err("failed to find target nope".to_string())
            }
        },
        "x.hcl",
    )
    .unwrap();
    assert_eq!(out.print.target.len(), 1);
    assert!(out.print.target.contains_key("app"));
}

#[test]
fn a_non_buildable_compose_dependency_does_not_abort_the_run() {
    let out = bake_print_with(
        &names(&["app", "db"]),
        |t: &[String]| {
            if t.is_empty() {
                Ok(print_with(&["app"]))
            } else {
                Err("failed to find target db".to_string())
            }
        },
        "docker-compose.yml",
    )
    .unwrap();
    assert!(out.print.target.contains_key("app"));
}

#[test]
fn both_prints_failing_reports_both_errors() {
    let err = bake_print_with(
        &names(&["app"]),
        |_: &[String]| Err("boom".to_string()),
        "x.hcl",
    )
    .err()
    .unwrap();
    assert!(err.message().contains("target-less print also failed"));
}

#[test]
fn no_targets_and_no_default_group_explains_how_to_recover() {
    let err = bake_print_with(
        &[],
        |_: &[String]| Err("failed to find target default".to_string()),
        "docker-bake.hcl",
    )
    .err()
    .unwrap();
    assert!(
        err.message().contains("no `default` group"),
        "{}",
        err.message()
    );
}

#[test]
fn hint_explains_how_to_recover_from_a_missing_default_group() {
    let hint = no_default_group_hint("docker-bake.hcl");
    assert!(hint.contains("no `default` group"), "{hint}");
    assert!(
        hint.contains("docker dbake -f docker-bake.hcl <target>"),
        "{hint}"
    );
}

#[test]
fn cache_entry_string_is_passed_through() {
    let e = CacheEntry::String("type=registry,ref=foo/bar".into());
    assert_eq!(e.to_arg(), "type=registry,ref=foo/bar");
}

#[test]
fn cache_entry_object_is_flattened_to_csv_with_type_first() {
    let e = object(r#"{"src":"/tmp/c1","type":"local"}"#);
    assert_eq!(e.to_arg(), "type=local,src=/tmp/c1");
}

#[test]
fn cache_entry_object_handles_non_string_values() {
    let e = object(r#"{"type":"registry","ref":"r/foo","oci-mediatypes":true}"#);
    let arg = e.to_arg();
    assert!(arg.starts_with("type=registry"), "{arg}");
    assert!(arg.contains("oci-mediatypes=true"), "{arg}");
    assert!(!arg.contains('"'), "no JSON quoting may survive: {arg}");
}

#[test]
fn cache_entry_object_without_type_still_produces_csv() {
    let e = object(r#"{"ref":"r/foo"}"#);
    assert_eq!(e.to_arg(), "ref=r/foo");
}

#[test]
fn test_parse_hcl_depends_on() {
    let hcl = r#"
target "base" {
  context = "."
  dockerfile = "Dockerfile.base"
}

target "app" {
  context = "."
  depends_on = ["base"]
}

target "tests" {
  context = "."
  depends_on = ["base", "app"]
}
"#;
    let deps = parse_hcl_depends_on(hcl);
    assert_eq!(*deps.get("app").unwrap(), vec!["base"]);
    assert_eq!(*deps.get("tests").unwrap(), vec!["base", "app"]);
    assert!(!deps.contains_key("base"));
}

#[test]
fn test_parse_yaml_depends_on_list() {
    let yaml = r#"
services:
  web:
    depends_on:
      - db
      - redis
  db:
    image: postgres
"#;
    let deps = parse_yaml_depends_on(yaml);
    assert_eq!(deps.get("web").unwrap().len(), 2);
    assert!(!deps.contains_key("db"));
}

#[test]
fn test_parse_yaml_depends_on_map() {
    let yaml = r#"
services:
  web:
    depends_on:
      db:
        condition: service_healthy
  db:
    image: postgres
"#;
    let deps = parse_yaml_depends_on(yaml);
    assert_eq!(*deps.get("web").unwrap(), vec!["db"]);
}

#[test]
fn test_parse_hcl_string_list() {
    assert_eq!(
        parse_hcl_string_list(r#"["foo", "bar", "baz"]"#),
        vec!["foo", "bar", "baz"]
    );
    assert_eq!(parse_hcl_string_list(r#"["single"]"#), vec!["single"]);
}

#[test]
fn test_parse_hcl_string_list_with_commas_in_quotes() {
    assert_eq!(parse_hcl_string_list(r#"["a,b", "c"]"#), vec!["a,b", "c"]);
    assert_eq!(
        parse_hcl_string_list(r#"["one,two,three"]"#),
        vec!["one,two,three"]
    );
}

#[test]
fn test_parse_hcl_depends_on_multiline() {
    let hcl = r#"
target "app" {
  depends_on = [
    "base",
    "utils"
  ]
  context = "."
}
"#;
    let deps = parse_hcl_depends_on(hcl);
    assert_eq!(*deps.get("app").unwrap(), vec!["base", "utils"]);
}

#[test]
fn test_parse_hcl_single_line_empty_target() {
    let hcl = r#"
target "empty" {}

target "real" {
  depends_on = ["base"]
}
"#;
    let deps = parse_hcl_depends_on(hcl);
    assert!(!deps.contains_key("empty"));
    assert_eq!(*deps.get("real").unwrap(), vec!["base"]);
}

#[test]
fn test_parse_hcl_inline_comments() {
    let hcl = r#"
target "app" {
  depends_on = ["base", "utils"] // build deps
}
"#;
    let deps = parse_hcl_depends_on(hcl);
    assert_eq!(*deps.get("app").unwrap(), vec!["base", "utils"]);
}

#[test]
fn test_parse_hcl_inline_hash_comment() {
    let hcl = r#"
target "app" {
  depends_on = ["base"] # comment
}
"#;
    let deps = parse_hcl_depends_on(hcl);
    assert_eq!(*deps.get("app").unwrap(), vec!["base"]);
}

#[test]
fn test_extract_quoted_string_escaped() {
    assert_eq!(
        extract_quoted_string(r#""app\"name" {"#),
        Some(r#"app"name"#.to_string())
    );
}

#[test]
fn test_extract_quoted_string_no_closing_quote() {
    assert_eq!(extract_quoted_string(r#""unclosed"#), None);
}

#[test]
fn test_strip_hcl_inline_comment() {
    assert_eq!(strip_hcl_inline_comment(r#"["a"] // comment"#), r#"["a"]"#);
    assert_eq!(strip_hcl_inline_comment(r#"["a"] # comment"#), r#"["a"]"#);
    assert_eq!(strip_hcl_inline_comment(r#""a#b""#), r#""a#b""#);
}

#[test]
fn test_parse_yaml_depends_on_null() {
    let yaml = r#"
services:
  web:
    depends_on:
  db:
    image: postgres
"#;
    let deps = parse_yaml_depends_on(yaml);
    assert!(deps.is_empty());
}

#[test]
fn test_parse_yaml_depends_on_empty_list() {
    let yaml = r#"
services:
  web:
    depends_on: []
"#;
    let deps = parse_yaml_depends_on(yaml);
    assert!(deps.is_empty());
}

#[test]
fn test_parse_yaml_depends_on_empty_map() {
    let yaml = r#"
services:
  web:
    depends_on: {}
"#;
    let deps = parse_yaml_depends_on(yaml);
    assert!(deps.is_empty());
}

#[test]
fn test_parse_yaml_depends_on_multiple_conditions() {
    let yaml = r#"
services:
  web:
    depends_on:
      db:
        condition: service_healthy
      redis:
        condition: service_started
      cache:
        condition: service_completed_successfully
"#;
    let deps = parse_yaml_depends_on(yaml);
    assert_eq!(deps.get("web").unwrap().len(), 3);
}

#[test]
fn test_parse_yaml_with_anchors() {
    let yaml = r#"
services:
  base: &base
    build: .
  web:
    <<: *base
    depends_on:
      - db
  db:
    image: postgres
"#;
    let deps = parse_yaml_depends_on(yaml);
    assert_eq!(*deps.get("web").unwrap(), vec!["db"]);
}

#[test]
fn test_parse_yaml_service_no_depends_on() {
    let yaml = r#"
services:
  web:
    build: .
  db:
    image: postgres
"#;
    let deps = parse_yaml_depends_on(yaml);
    assert!(deps.is_empty());
}

#[test]
fn a_block_on_one_line_states_its_dependencies() {
    let deps = parse_hcl_depends_on("target \"x\" { depends_on = [\"base\"] }\n");
    assert_eq!(deps.len(), 1);
    assert_eq!(*deps.get("x").unwrap(), vec!["base"]);

    let deps = parse_hcl_depends_on(
        "target \"x\" { depends_on = [\"a\", \"b,}\"] } # done }\ntarget \"empty\" {}\n",
    );
    assert_eq!(deps.len(), 1);
    assert_eq!(*deps.get("x").unwrap(), vec!["a", "b,}"]);
}

#[test]
fn a_dependency_may_stand_beside_the_braces() {
    let deps = parse_hcl_depends_on("target \"x\" { depends_on = [\"a\"]\n  context = \".\"\n}\n");
    assert_eq!(*deps.get("x").unwrap(), vec!["a"]);

    let deps = parse_hcl_depends_on("target \"x\" {\n  context = \".\"\n  depends_on = [\"a\"] }\n");
    assert_eq!(*deps.get("x").unwrap(), vec!["a"]);

    let deps = parse_hcl_depends_on(
        "target \"x\" { depends_on = [\n  \"a\", // first\n  \"b\"\n] }\ndepends_on = [\"c\"]\ntarget \"y\" {\n  depends_on = [\"x\"]\n}\n",
    );
    assert_eq!(deps.len(), 2);
    assert_eq!(*deps.get("x").unwrap(), vec!["a", "b"]);
    assert_eq!(*deps.get("y").unwrap(), vec!["x"]);
}

#[test]
fn the_brace_may_stand_on_the_line_after_the_name() {
    let deps = parse_hcl_depends_on(
        "target \"x\"\n{\n  depends_on = [\"a\"]\n}\ntarget \"y\" {\n  depends_on = [\"x\"]\n}\n",
    );
    assert_eq!(deps.len(), 2);
    assert_eq!(*deps.get("x").unwrap(), vec!["a"]);
    assert_eq!(*deps.get("y").unwrap(), vec!["x"]);

    let deps = parse_hcl_depends_on("target \"x\"\n  { depends_on = [\"a\"] }\ndepends_on = [\"b\"]\n");
    assert_eq!(deps.len(), 1);
    assert_eq!(*deps.get("x").unwrap(), vec!["a"]);

    let deps = parse_hcl_depends_on(
        "target \"x\"\n{ depends_on = [\n  \"a\",\n  \"b\"\n  ]\n}\n",
    );
    assert_eq!(*deps.get("x").unwrap(), vec!["a", "b"]);

    let deps = parse_hcl_depends_on("target \"x\"\n\n{\n  depends_on = [\"a\"]\n}\n");
    assert_eq!(deps.len(), 0);
    let deps = parse_hcl_depends_on("target \"x\"");
    assert_eq!(deps.len(), 0);
}

#[test]
fn a_value_is_cut_only_before_closing_braces() {
    let deps = parse_hcl_depends_on("target \"x\" {\n  depends_on = concat([\"a\"], [\"b\"])\n}\n");
    assert_eq!(*deps.get("x").unwrap(), vec!["concat([a]", "[b])"]);

    let deps = parse_hcl_depends_on("target \"x\" {\n  depends_on = [\"a\", \"b\"] + c\n}\n");
    assert_eq!(*deps.get("x").unwrap(), vec!["a", "b] + c"]);

    let deps = parse_hcl_depends_on("target \"x\" {\n  depends_on = [\"a]\", \"b\"] } }\n");
    assert_eq!(*deps.get("x").unwrap(), vec!["a]", "b"]);
}
