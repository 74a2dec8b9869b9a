use dbake::compose::{ComposeFile, ComposeService};
use dbake::names::NameMap;

fn parse(yaml: &str) -> ComposeFile {
    let doc: serde_yaml::Value = serde_yaml::from_str(yaml).unwrap();
    let services = doc["services"]
        .as_mapping()
        .unwrap()
        .iter()
        .map(|(name, service)| {
            let profiles = match service.get("profiles") {
                Some(serde_yaml::Value::Sequence(list)) => list
                    .iter()
                    .map(|p| p.as_str().unwrap().to_string())
                    .collect(),
                _ => vec![],
            };
            (
                name.as_str().unwrap().to_string(),
                ComposeService { profiles },
            )
        })
        .collect();
    ComposeFile {
        services: NameMap::from_pairs(services),
    }
}

#[test]
fn test_parse_profiles() {
    let yaml = r#"
services:
  web:
    build: .
    profiles:
      - frontend
  api:
    build:
      context: ./api
  db:
    image: postgres
"#;
    let compose = parse(yaml);
    assert_eq!(compose.services.get("web").unwrap().profiles, vec!["frontend"]);
    assert!(compose.services.get("api").unwrap().profiles.is_empty());
}

#[test]
fn every_service_has_an_entry_in_the_profiles() {
    let compose = parse("services:\n  a:\n    profiles: [x, y]\n  b: {}\n");
    let profiles = compose.profiles();
    assert_eq!(profiles.len(), 2);
    assert_eq!(*profiles.get("a").unwrap(), vec!["x", "y"]);
    assert!(profiles.get("b").unwrap().is_empty());
    assert!(profiles.get("c").is_none());
}
