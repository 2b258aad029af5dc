use moq::cluster::{new_origins, ClusterConfig};

#[test]
fn cluster_prefix_and_node_path() {
    let cfg = ClusterConfig { root: Some("https://root".to_string()), prefix: None, node: Some("node1".to_string()) };
    assert_eq!(cfg.prefix(), "origin.");
    assert_eq!(cfg.announce_path(), Some("origin.node1".to_string()));
    let ro = ClusterConfig { root: None, prefix: Some("o.".to_string()), node: None };
    assert_eq!(ro.prefix(), "o.");
    assert_eq!(ro.announce_path(), None);
}

#[test]
fn only_unknown_origins_are_reached() {
    let listed = vec!["a".to_string(), "me".to_string(), "b".to_string(), "a".to_string(), "c".to_string()];
    let known = vec!["b".to_string()];
    let got = new_origins(&listed, &known, &Some("me".to_string()));
    assert_eq!(got, vec!["a".to_string(), "c".to_string()]);
    assert_eq!(new_origins(&listed, &vec![], &None).len(), 4);
}
