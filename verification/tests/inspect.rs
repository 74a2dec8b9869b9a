use dbake::builder::inspect::parse_inspect_output;

#[test]
fn test_parse_inspect_output() {
    let output = r#"
Name:          zot
Driver:        remote
Nodes:
Name:          zot0
Endpoint:      tcp://192.168.0.129:1234
Status:        running
Buildkit:      v0.12.4
Platforms:     linux/amd64, linux/arm64
Name:          zot-mini
Endpoint:      tcp://192.168.0.144:1234
Status:        running
Buildkit:      v0.12.4
Platforms:     linux/amd64
Name:          local-node
Endpoint:      unix:///var/run/buildkit/buildkitd.sock
Status:        running
Platforms:     linux/amd64
"#;
    let nodes = parse_inspect_output(output);
    assert_eq!(nodes.len(), 2);
    assert_eq!(nodes[0].name, "zot0");
    assert_eq!(nodes[0].endpoint, "tcp://192.168.0.129:1234");
    assert_eq!(nodes[0].platforms, vec!["linux/amd64", "linux/arm64"]);
    assert_eq!(nodes[1].name, "zot-mini");
}

#[test]
fn test_skips_inactive_nodes() {
    let output = r#"
Name:          zot-lb
Driver:        remote
Nodes:
Name:          zot-lb0
Endpoint:      tcp://192.168.0.129:1234
Status:        running
Platforms:     linux/arm64
Name:          zot-lb2
Endpoint:      tcp://192.168.0.141:1234
Status:        inactive
Name:          zot-lb3
Endpoint:      tcp://192.168.0.110:1235
Status:        running
Platforms:     linux/amd64
"#;
    let nodes = parse_inspect_output(output);
    assert_eq!(nodes.len(), 2);
    assert_eq!(nodes[0].name, "zot-lb0");
    assert_eq!(nodes[1].name, "zot-lb3");
}
