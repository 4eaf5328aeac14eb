use pq_chat::secrets::GroupSecrets;

#[test]
fn new_secrets_are_empty() {
    let s = GroupSecrets::new();
    assert!(s.member_secrets.is_empty());
    assert!(s.node_secrets.is_empty());
    assert!(s.get_root().is_empty());
    assert_eq!(s.get_node_secret(0), None);
    assert_eq!(s.get_member_secret(0), None);
}

#[test]
fn a_written_node_secret_reads_back() {
    let mut s = GroupSecrets::new();
    s.add_node_secret(3, vec![1, 1]);
    s.add_node_secret(5, vec![2, 2]);
    assert_eq!(s.get_node_secret(3), Some(&vec![1, 1]));
    assert_eq!(s.get_node_secret(5), Some(&vec![2, 2]));
    assert_eq!(s.get_node_secret(4), None);
}

#[test]
fn writing_a_node_secret_again_replaces_it() {
    let mut s = GroupSecrets::new();
    s.add_node_secret(3, vec![1]);
    s.add_node_secret(3, vec![9]);
    assert_eq!(s.get_node_secret(3), Some(&vec![9]));
    assert_eq!(s.node_secrets.len(), 1);
}

#[test]
fn member_secrets_keep_the_first_received() {
    let mut s = GroupSecrets::new();
    s.add_member_secret(2, vec![7]);
    s.add_member_secret(2, vec![8]);
    assert_eq!(s.get_member_secret(2), Some(&vec![7]));
    assert_eq!(s.member_secrets.len(), 2);
    assert_eq!(s.get_member_secret(1), None);
}

#[test]
fn root_secret_is_set_and_read() {
    let mut s = GroupSecrets::new();
    s.set_root_secret(&vec![4, 5, 6]);
    assert_eq!(s.get_root(), vec![4, 5, 6]);
}

#[test]
fn remapping_follows_the_nodes_down() {
    let mut s = GroupSecrets::new();
    s.add_node_secret(0, vec![0]);
    s.add_node_secret(2, vec![2]);
    s.remap_node_secrets();
    assert_eq!(s.get_node_secret(1), Some(&vec![0]));
    assert_eq!(s.get_node_secret(4), Some(&vec![2]));
    assert_eq!(s.get_node_secret(0), None);
    assert_eq!(s.get_node_secret(2), None);
}
