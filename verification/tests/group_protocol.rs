use pq_chat::crypto::derive_node_secret;
use pq_chat::group::{Credential, GroupState, GroupUpdateMember};

fn uid(tag: u8) -> String {
    format!("{:064x}", tag)
}

fn cred(tag: u8) -> Credential {
    Credential {
        kyber_pk: vec![tag; 1568],
        ed25519_pk: vec![tag; 32],
        dilithium_pk: vec![tag; 1952],
        user_id: uid(tag),
    }
}

fn add(g: &mut GroupState, tag: u8, ps: &Vec<u8>, index: Option<usize>) -> (usize, Vec<u8>) {
    let c = cred(tag);
    g.add_member(c.kyber_pk, c.dilithium_pk, c.ed25519_pk, &c.user_id, ps.clone(), index)
}

fn n_times(secret: &Vec<u8>, n: usize) -> Vec<u8> {
    let mut s = secret.clone();
    for _ in 0..n {
        s = derive_node_secret(&s);
    }
    s
}

/// A group made by member 1, who then added member 2.
fn two_member_group() -> (GroupState, Vec<u8>) {
    let mut g = GroupState::new("0f8fad5b-d9cb-469f-a165-70867728950e");
    add(&mut g, 1, &vec![1u8; 32], None);
    let ps2 = vec![2u8; 32];
    add(&mut g, 2, &ps2, None);
    (g, ps2)
}

#[test]
fn a_new_group_has_two_empty_leaves() {
    let g = GroupState::new("g");
    assert_eq!(g.group_id, "g");
    assert_eq!(g.epoch, 0);
    assert_eq!(g.self_index, 0);
    assert_eq!(g.tree.members.len(), 2);
    assert!(g.tree.members.iter().all(|m| m.is_none()));
    assert_eq!(g.tree.nodes.len(), 1);
    assert!(g.get_root().is_empty());
}

#[test]
fn the_creator_takes_the_first_leaf() {
    let mut g = GroupState::new("g");
    let ps = vec![1u8; 32];
    let (leaf, root) = add(&mut g, 1, &ps, None);
    assert_eq!(leaf, 0);
    assert_eq!(g.epoch, 1);
    assert_eq!(root, derive_node_secret(&ps));
    assert_eq!(g.get_root(), root);
    assert_eq!(g.get_pk(0), Some((vec![1u8; 1568], vec![1u8; 1952])));
    assert_eq!(g.get_pk(1), None);
    assert_eq!(g.get_pk(7), None);
    assert_eq!(g.index_from_user_id(&uid(1)), Some(0));
    assert_eq!(g.index_from_user_id(&uid(9)), None);
    assert!(g.tree.nodes[0].is_some());
    assert_eq!(g.secrets.get_node_secret(0), Some(&derive_node_secret(&ps)));
}

#[test]
fn a_third_member_makes_the_tree_grow() {
    let (mut g, _) = two_member_group();
    assert_eq!(g.tree.members.len(), 2);
    let ps3 = vec![3u8; 32];
    let (leaf, root) = add(&mut g, 3, &ps3, None);
    assert_eq!(leaf, 2);
    assert_eq!(g.epoch, 3);
    assert_eq!(g.tree.members.len(), 4);
    assert_eq!(g.tree.nodes.len(), 3);
    assert_eq!(root, n_times(&ps3, 2));
    assert_eq!(g.secrets.get_node_secret(2), Some(&n_times(&ps3, 1)));
    assert_eq!(g.secrets.get_node_secret(0), Some(&n_times(&ps3, 2)));
    assert_eq!(g.index_from_user_id(&uid(2)), Some(1));
    assert_eq!(g.index_from_user_id(&uid(3)), Some(2));
    // the old root moved to node 1
    assert!(g.tree.nodes[1].is_some());
}

#[test]
fn the_newcomer_reaches_the_adders_root() {
    let (g, ps2) = two_member_group();
    let hello = g.client_hello_for(1, &ps2);
    assert_eq!(hello.index, 1);
    assert_eq!(hello.epoch, g.epoch);
    let c = cred(2);
    let joined = GroupState::from_client_hello(
        hello,
        "0f8fad5b-d9cb-469f-a165-70867728950e",
        c.kyber_pk,
        c.dilithium_pk,
        c.ed25519_pk,
        &c.user_id,
    );
    assert_eq!(joined.self_index, 1);
    assert_eq!(joined.epoch, g.epoch + 1);
    assert_eq!(joined.get_root(), g.get_root());
    assert_eq!(joined.secrets.get_member_secret(1), Some(&ps2));
    assert_eq!(joined.message_key(), g.get_root()[..32].to_vec());
}

#[test]
fn a_receiver_of_the_update_reaches_the_adders_root() {
    let (adder_before, ps2) = two_member_group();
    // member 2's own view, built from the hello
    let c2 = cred(2);
    let mut receiver = GroupState::from_client_hello(
        adder_before.client_hello_for(1, &ps2),
        "0f8fad5b-d9cb-469f-a165-70867728950e",
        c2.kyber_pk,
        c2.dilithium_pk,
        c2.ed25519_pk,
        &c2.user_id,
    );
    let mut adder = adder_before.clone();
    let ps3 = vec![3u8; 32];
    let (leaf, adder_root) = add(&mut adder, 3, &ps3, None);
    assert!(adder.can_plan_update_deliveries(leaf));
    let deliveries = adder.plan_update_deliveries(leaf, &ps3);
    assert_eq!(deliveries.len(), 1);
    let d = &deliveries[0];
    assert_eq!(d.recipient, 1);
    assert_eq!(d.recipient_user_id, uid(2));
    assert_eq!(d.key, n_times(&ps3, 2));
    assert_eq!(Some(d.encapsulation_key.clone()), adder.tree.nodes[1].as_ref().map(|n| n.public_key.clone()));
    let update = GroupUpdateMember {
        new_pks: adder.path_public_keys(leaf),
        new_epoch: adder.epoch,
        index: leaf,
        key: d.key.clone(),
        new_member_cred: cred(3),
    };
    assert!(receiver.can_apply_update(&update, true));
    receiver.apply_update(update, true);
    assert_eq!(receiver.get_root(), adder_root);
    assert_eq!(receiver.tree.members.len(), 4);
    assert_eq!(receiver.index_from_user_id(&uid(3)), Some(2));
    assert_eq!(
        receiver.tree.nodes[2].as_ref().map(|n| n.public_key.clone()),
        adder.tree.nodes[2].as_ref().map(|n| n.public_key.clone())
    );
}

#[test]
fn the_owner_of_a_group_takes_an_update_as_an_addition() {
    let (adder_before, _) = two_member_group();
    let mut owner = adder_before.clone();
    let mut adder = adder_before.clone();
    let ps3 = vec![3u8; 32];
    let (leaf, adder_root) = add(&mut adder, 3, &ps3, None);
    let update = GroupUpdateMember {
        new_pks: adder.path_public_keys(leaf),
        new_epoch: adder.epoch,
        index: leaf,
        key: ps3.clone(),
        new_member_cred: cred(3),
    };
    owner.apply_update(update, false);
    assert_eq!(owner.get_root(), adder_root);
    assert_eq!(owner.epoch, adder.epoch);
}

#[test]
fn the_update_is_read_with_the_key_of_the_diverging_node() {
    let (mut g, _) = two_member_group();
    add(&mut g, 3, &vec![3u8; 32], None);
    // member at leaf 0 sees leaf 2 leave its path at node 1
    assert_eq!(g.update_key_node(2), Some(1));
    assert_eq!(g.update_key_node(0), None);
}

#[test]
fn room_is_made_for_the_next_member() {
    let (mut g, _) = two_member_group();
    let leaf = g.make_room_for_next_member();
    assert_eq!(leaf, 2);
    assert_eq!(g.tree.members.len(), 4);
    assert_eq!(g.tree.nodes.len(), 3);
    let again = g.make_room_for_next_member();
    assert_eq!(again, 2);
    assert_eq!(g.tree.members.len(), 4);
}

#[test]
fn node_keys_are_stored_as_given() {
    let mut g = GroupState::new("g");
    g.set_node_keys(&vec![(0, vec![5u8, 6])]);
    assert_eq!(g.tree.nodes[0].as_ref().unwrap().public_key, vec![5u8, 6]);
}

#[test]
fn a_receiver_opens_its_update_with_the_diverging_node_key() {
    let (adder_before, ps2) = two_member_group();
    let c2 = cred(2);
    let mut receiver = GroupState::from_client_hello(
        adder_before.client_hello_for(1, &ps2),
        "0f8fad5b-d9cb-469f-a165-70867728950e",
        c2.kyber_pk,
        c2.dilithium_pk,
        c2.ed25519_pk,
        &c2.user_id,
    );
    let mut adder = adder_before.clone();
    let ps3 = vec![3u8; 32];
    let (leaf, _) = add(&mut adder, 3, &ps3, None);
    let deliveries = adder.plan_update_deliveries(leaf, &ps3);
    let d = &deliveries[0];
    let (ct, enc) = pq_chat::group_flow::seal_for_key(&d.encapsulation_key, b"update").unwrap();

    assert_eq!(receiver.make_room_for_next_member(), leaf);
    let node = receiver.update_key_node(leaf);
    assert_eq!(node, Some(1));
    assert_eq!(receiver.open_update(&ct, &enc, node, &[]), Ok(b"update".to_vec()));
}


#[test]
fn additions_are_checked_before_they_are_made() {
    let g = GroupState::new("g");
    let c = cred(1);
    let ps = vec![1u8; 32];
    assert!(g.can_add_member(&c.kyber_pk, &c.dilithium_pk, &c.user_id, &ps, None));
    assert!(!g.can_add_member(&vec![1u8; 10], &c.dilithium_pk, &c.user_id, &ps, None));
    assert!(!g.can_add_member(&c.kyber_pk, &c.dilithium_pk, "short", &ps, None));
    assert!(!g.can_add_member(&c.kyber_pk, &c.dilithium_pk, &c.user_id, &vec![1u8; 31], None));
    assert!(g.can_add_member(&c.kyber_pk, &c.dilithium_pk, &c.user_id, &ps, Some(3)));
    assert!(!g.can_add_member(&c.kyber_pk, &c.dilithium_pk, &c.user_id, &ps, Some(9)));
    assert!(g.can_make_room_for_next_member());
}

#[test]
fn added_path_secrets_have_64_bytes() {
    let (g, _) = two_member_group();
    assert_eq!(g.get_root().len(), 64);
    assert!(g.secrets.node_secrets.iter().all(|(_, s)| s.len() == 64));
}

#[test]
fn plans_need_a_full_tree_with_its_keys() {
    let (mut g, _) = two_member_group();
    add(&mut g, 3, &vec![3u8; 32], None);
    assert!(g.can_plan_update_deliveries(2));
    assert!(!g.can_plan_update_deliveries(4));
    let mut missing = g.clone();
    missing.tree.nodes[1] = None;
    assert!(!missing.can_plan_update_deliveries(2));
    let mut odd = g.clone();
    odd.tree.members.pop();
    assert!(!odd.can_plan_update_deliveries(1));
}
