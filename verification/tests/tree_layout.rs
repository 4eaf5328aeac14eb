use pq_chat::groups::{first_divergence_inverted, get_used_keypair};
use pq_chat::levels::{floor_log2_exec, is_power_of_two_exec};
use pq_chat::tree::{
    descendant_leaves, new_index_from_original, original_index_from_new, Member, Node, RatchetTree,
};
use pq_chat::tree_update::first_free_leaf_of;

fn member(tag: u8, index: usize) -> Member {
    Member {
        kyber_key: vec![tag; 1568],
        dilithium_key: vec![tag; 1952],
        ed25519_key: vec![tag; 32],
        user_id: format!("{:064x}", tag),
        index,
    }
}

#[test]
fn new_index_moves_nodes_down_a_level() {
    assert_eq!(new_index_from_original(0), 1);
    assert_eq!(new_index_from_original(1), 3);
    assert_eq!(new_index_from_original(2), 4);
    assert_eq!(new_index_from_original(3), 7);
    assert_eq!(new_index_from_original(6), 10);
}

#[test]
fn original_index_undoes_new_index() {
    for i in 0..40usize {
        assert_eq!(original_index_from_new(new_index_from_original(i)), Some(i));
    }
    assert_eq!(original_index_from_new(0), None);
    assert_eq!(original_index_from_new(2), None);
    assert_eq!(original_index_from_new(5), None);
    assert_eq!(original_index_from_new(4), Some(2));
}

#[test]
fn descendant_leaves_of_a_four_leaf_tree() {
    assert_eq!(descendant_leaves(0, 4), vec![0, 1, 2, 3]);
    assert_eq!(descendant_leaves(1, 4), vec![0, 1]);
    assert_eq!(descendant_leaves(2, 4), vec![2, 3]);
    assert_eq!(descendant_leaves(3, 8), vec![0, 1]);
    assert_eq!(descendant_leaves(6, 8), vec![6, 7]);
    assert_eq!(descendant_leaves(2, 8), vec![4, 5, 6, 7]);
}

#[test]
fn new_tree_is_empty() {
    let t = RatchetTree::new(4);
    assert_eq!(t.members.len(), 4);
    assert!(t.members.iter().all(|m| m.is_none()));
    assert_eq!(t.nodes.len(), 1);
    assert!(t.nodes[0].is_none());
    assert_eq!(t.last_valid_member_index(), None);
}

#[test]
fn internal_paths_run_up_to_the_root() {
    let t = RatchetTree::new(4);
    assert_eq!(t.internal_path_indices(0), vec![1, 0]);
    assert_eq!(t.internal_path_indices(1), vec![1, 0]);
    assert_eq!(t.internal_path_indices(2), vec![2, 0]);
    assert_eq!(t.internal_path_indices(3), vec![2, 0]);
    let t2 = RatchetTree::new(2);
    assert_eq!(t2.internal_path_indices(1), vec![0]);
    let t8 = RatchetTree::new(8);
    assert_eq!(t8.internal_path_indices(5), vec![5, 2, 0]);
}

#[test]
fn add_node_stores_the_key() {
    let mut t = RatchetTree::new(2);
    t.add_node(0, vec![1, 2, 3]);
    assert_eq!(t.nodes[0].as_ref().unwrap().public_key, vec![1, 2, 3]);
}

#[test]
fn grow_relocates_nodes() {
    let mut t = RatchetTree::new(4);
    t.nodes = vec![
        Some(Node { public_key: vec![0] }),
        Some(Node { public_key: vec![1] }),
        Some(Node { public_key: vec![2] }),
    ];
    t.grow();
    assert_eq!(t.nodes.len(), 7);
    assert!(t.nodes[0].is_none());
    assert_eq!(t.nodes[1].as_ref().unwrap().public_key, vec![0]);
    assert!(t.nodes[2].is_none());
    assert_eq!(t.nodes[3].as_ref().unwrap().public_key, vec![1]);
    assert_eq!(t.nodes[4].as_ref().unwrap().public_key, vec![2]);
    assert!(t.nodes[5].is_none());
    assert!(t.nodes[6].is_none());
    assert_eq!(t.members.len(), 4);
}

#[test]
fn last_valid_member_and_first_free_leaf() {
    let mut t = RatchetTree::new(4);
    t.members[0] = Some(member(1, 0));
    t.members[2] = Some(member(2, 2));
    assert_eq!(t.last_valid_member_index(), Some(2));
    assert_eq!(first_free_leaf_of(&t.members), 1);
    t.members[1] = Some(member(3, 1));
    t.members[3] = Some(member(4, 3));
    assert_eq!(first_free_leaf_of(&t.members), 4);
}

#[test]
fn print_all_paths_leaves_the_tree_unchanged() {
    let mut t = RatchetTree::new(4);
    t.members[1] = Some(member(9, 1));
    t.print_all_paths();
    assert_eq!(t.members.len(), 4);
    assert!(t.members[1].is_some());
    assert_eq!(t.nodes.len(), 1);
}

#[test]
fn broadcast_targets_are_the_siblings_of_the_path() {
    let t = RatchetTree::new(4);
    let plan = t.get_keys_for_broadcast_new_member_secret(2);
    assert_eq!(plan, vec![(vec![0, 1], 1)]);
    let t8 = RatchetTree::new(8);
    let plan8 = t8.get_keys_for_broadcast_new_member_secret(5);
    assert_eq!(plan8, vec![(vec![6, 7], 6), (vec![0, 1, 2, 3], 1)]);
}

#[test]
fn a_two_leaf_tree_has_nothing_to_broadcast() {
    let t = RatchetTree::new(2);
    assert_eq!(t.get_keys_for_broadcast_new_member_secret(1), vec![]);
}

#[test]
fn divergence_is_found_from_the_root_end() {
    assert_eq!(first_divergence_inverted(&[1, 0], &[2, 0]), Some(1));
    assert_eq!(first_divergence_inverted(&[1, 0], &[1, 0]), None);
    assert_eq!(first_divergence_inverted(&[3, 1, 0], &[4, 1, 0]), Some(3));
    assert_eq!(first_divergence_inverted(&[5, 2, 0], &[1, 0]), Some(2));
    assert_eq!(first_divergence_inverted(&[], &[1, 0]), None);
}

#[test]
fn used_keypair_falls_back_to_the_first_path_node() {
    assert_eq!(get_used_keypair(&[2, 0], &[1, 0]), 1);
    assert_eq!(get_used_keypair(&[1, 0], &[1, 0]), 1);
    assert_eq!(get_used_keypair(&[4, 1, 0], &[3, 1, 0]), 3);
}

#[test]
fn integer_levels() {
    assert_eq!(floor_log2_exec(1), (0, 1));
    assert_eq!(floor_log2_exec(5), (2, 4));
    assert_eq!(floor_log2_exec(8), (3, 8));
    assert!(is_power_of_two_exec(8));
    assert!(!is_power_of_two_exec(6));
    assert!(!is_power_of_two_exec(0));
}

#[test]
fn broadcast_targets_share_out_the_other_leaves() {
    let t = RatchetTree::new(8);
    for n in 0..8usize {
        let plan = t.get_keys_for_broadcast_new_member_secret(n);
        assert_eq!(plan.len(), 2);
        let mut seen = vec![0usize; 8];
        for (leaves, _) in &plan {
            for &m in leaves {
                seen[m] += 1;
            }
        }
        for m in 0..8usize {
            let neighbour = if n % 2 == 0 { n + 1 } else { n - 1 };
            let expected = if m == n || m == neighbour { 0 } else { 1 };
            assert_eq!(seen[m], expected, "leaf {} for new leaf {}", m, n);
        }
    }
}

#[test]
fn paths_part_at_the_broadcast_node() {
    let t = RatchetTree::new(8);
    let p5 = t.internal_path_indices(5);
    assert_eq!(first_divergence_inverted(&t.internal_path_indices(7), &p5), Some(6));
    assert_eq!(first_divergence_inverted(&t.internal_path_indices(1), &p5), Some(1));
    assert_eq!(first_divergence_inverted(&t.internal_path_indices(4), &p5), None);
}

#[test]
fn descendants_are_the_leaves_whose_paths_pass_through() {
    let t = RatchetTree::new(8);
    for i in 0..7usize {
        let below = descendant_leaves(i, 8);
        for m in 0..8usize {
            assert_eq!(below.contains(&m), t.internal_path_indices(m).contains(&i));
        }
    }
}
