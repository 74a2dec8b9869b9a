use dbake::plugin::{metadata, PluginMetadata};

const MANIFEST: &str = "[package]\nname = \"dbake\"\nversion = \"0.1.0\"\nedition = \"2021\"\ndescription = \"Distributed Docker Bake — work-stealing across buildkitd nodes\"\n";

fn manifest_field(key: &str) -> &'static str {
    MANIFEST
        .lines()
        .find_map(|l| l.strip_prefix(&format!("{} = \"", key)))
        .and_then(|rest| rest.strip_suffix('"'))
        .unwrap_or_else(|| panic!("no `{}` in the manifest", key))
}

fn plugin() -> PluginMetadata {
    metadata(manifest_field("version"), manifest_field("description"))
}

#[test]
fn version_tracks_the_manifest() {
    assert_eq!(plugin().version, manifest_field("version"));
}

#[test]
fn description_tracks_the_manifest() {
    assert_eq!(plugin().short_description, manifest_field("description"));
}

#[test]
fn schema_version_is_the_docker_protocol_version() {
    assert_eq!(plugin().schema_version, "0.1.0");
    assert_eq!(metadata("9.9.9", "x").schema_version, "0.1.0");
    assert_eq!(plugin().vendor, "todor");
}
