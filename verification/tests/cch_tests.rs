//! Contraction-hierarchy topology: star lookups and path unpacking on a
//! three-rank hierarchy where rank 0 was contracted between ranks 1 and 2,
//! leaving the shortcut 1 -> 2 through 0. Forward stars lead up (0 -> 1,
//! 0 -> 2, 1 -> 2); backward stars list the lower ranks below each rank.

use velos::cch::{parents_point_down, rank_path_from_parents, CCHRouter, EdgeNodeMap};

fn diamond() -> CCHRouter {
    CCHRouter::new(
        3,
        vec![0, 2, 3, 3],
        vec![1, 2, 2],
        vec![None, None, Some(0)],
        vec![0, 0, 1, 3],
        vec![0, 0, 1],
        vec![2, 0, 1],
        vec![1, 2, 0],
        vec![0, 1],
    )
    .expect("well-formed hierarchy")
}

#[test]
fn star_lookups_find_edges() {
    let r = diamond();
    assert_eq!(r.node_count(), 3);
    assert_eq!(r.find_forward_pos(0, 1), Some(0));
    assert_eq!(r.find_forward_pos(0, 2), Some(1));
    assert_eq!(r.find_forward_pos(1, 2), Some(2));
    assert_eq!(r.find_forward_pos(1, 0), None);
    assert_eq!(r.find_forward_pos(2, 1), None);
    assert_eq!(r.find_backward_pos(1, 0), Some(0));
    assert_eq!(r.find_backward_pos(2, 0), Some(1));
    assert_eq!(r.find_backward_pos(2, 1), Some(2));
    assert_eq!(r.find_backward_pos(0, 2), None);
    assert_eq!(r.find_backward_pos(1, 2), None);
}

#[test]
fn upward_edges_know_their_reverse_positions() {
    let r = diamond();
    assert_eq!(r.upward_back_positions(0), vec![Some(0), Some(1)]);
    assert_eq!(r.upward_back_positions(1), vec![Some(2)]);
    assert_eq!(r.upward_back_positions(2), Vec::<Option<usize>>::new());
}

#[test]
fn lower_triangles_name_the_shortcut_over_each_pair() {
    let r = diamond();
    // The upward edges of rank 0 reach ranks 1 and 2; the shortcut 1 -> 2
    // is forward edge 2 and backward edge 2.
    assert_eq!(r.lower_triangles(0), vec![vec![(Some(2), Some(2))], vec![]]);
    assert_eq!(r.lower_triangles(1), vec![Vec::<(Option<usize>, Option<usize>)>::new()]);
    assert_eq!(r.lower_triangles(2), Vec::<Vec<(Option<usize>, Option<usize>)>>::new());
}

#[test]
fn unpack_expands_shortcut_through_middle() {
    let r = diamond();
    assert_eq!(r.unpack_rank_path(&[1, 2]), vec![1, 0, 2]);
    assert_eq!(r.unpack_rank_path(&[2, 1]), vec![2, 0, 1]);
    assert_eq!(r.unpack_rank_path(&[0, 2]), vec![0, 2]);
    assert_eq!(r.unpack_rank_path(&[1]), vec![1]);
    assert_eq!(r.unpack_rank_path(&[]), Vec::<u32>::new());
}

#[test]
fn unpack_edge_appends_after_existing_ranks() {
    let r = diamond();
    let mut out = vec![7];
    r.unpack_edge(1, 2, &mut out);
    assert_eq!(out, vec![7, 0, 2]);
}

#[test]
fn rank_path_joins_both_search_directions() {
    let none = u32::MAX;
    // Forward search 0 -> 1 -> 3 met the backward search 4 -> 3 at rank 3.
    let parent_forward = vec![none, 0, none, 1, none];
    let parent_backward = vec![none, none, none, 4, none];
    assert_eq!(rank_path_from_parents(&parent_forward, &parent_backward, 3), vec![0, 1, 3, 4]);
    // Meeting at the search origin itself.
    assert_eq!(rank_path_from_parents(&parent_forward, &parent_backward, 0), vec![0]);
}

#[test]
fn node_path_unpacks_and_maps_ranks_to_nodes() {
    let r = diamond();
    let none = u32::MAX;
    let parent_forward = vec![none, none, 1];
    let parent_backward = vec![none, none, none];
    // Ranks 1 -> 2 unpack to 1, 0, 2, which are nodes 0, 2, 1.
    assert_eq!(r.node_path_from_search(&parent_forward, &parent_backward, 2), vec![0, 2, 1]);
}

#[test]
fn accessors_return_the_arrays() {
    let r = diamond();
    assert_eq!(r.forward_first_out(), &vec![0, 2, 3, 3]);
    assert_eq!(r.forward_head(), &vec![1, 2, 2]);
    assert_eq!(r.shortcut_middle(), &vec![None, None, Some(0)]);
    assert_eq!(r.backward_first_out(), &vec![0, 0, 1, 3]);
    assert_eq!(r.backward_head(), &vec![0, 0, 1]);
    assert_eq!(r.rank_to_node(), &vec![2, 0, 1]);
    assert_eq!(r.node_order(), &vec![1, 2, 0]);
}

#[test]
fn malformed_hierarchies_are_rejected() {
    let ok_first = vec![0, 2, 3, 3];
    let ok_head = vec![1, 2, 2];
    let bw_first = vec![0, 0, 1, 3];
    let bw_head = vec![0, 0, 1];
    // Middle rank not below the shortcut's lower end.
    assert!(CCHRouter::new(3, ok_first.clone(), ok_head.clone(), vec![None, None, Some(1)], bw_first.clone(), bw_head.clone(), vec![2, 0, 1], vec![1, 2, 0], vec![]).is_none());
    // Downward edge in a forward star.
    assert!(CCHRouter::new(3, vec![0, 1, 2, 2], vec![1, 0], vec![None, None], bw_first.clone(), bw_head.clone(), vec![2, 0, 1], vec![1, 2, 0], vec![]).is_none());
    // Upward edges in a backward star.
    assert!(CCHRouter::new(3, ok_first.clone(), ok_head.clone(), vec![None, None, Some(0)], ok_first.clone(), ok_head.clone(), vec![2, 0, 1], vec![1, 2, 0], vec![]).is_none());
    // Heads not strictly increasing within a star.
    assert!(CCHRouter::new(3, vec![0, 2, 2, 2], vec![2, 1], vec![None, None], bw_first.clone(), bw_head.clone(), vec![2, 0, 1], vec![1, 2, 0], vec![]).is_none());
    assert!(CCHRouter::new(3, ok_first.clone(), ok_head.clone(), vec![None, None, Some(0)], vec![0, 0, 1, 3], vec![0, 1, 0], vec![2, 0, 1], vec![1, 2, 0], vec![]).is_none());
    // Orders that are not inverse permutations.
    assert!(CCHRouter::new(3, ok_first.clone(), ok_head.clone(), vec![None, None, Some(0)], bw_first.clone(), bw_head.clone(), vec![2, 0, 1], vec![0, 1, 2], vec![]).is_none());
    assert!(CCHRouter::new(3, ok_first.clone(), ok_head.clone(), vec![None, None, Some(0)], bw_first.clone(), bw_head.clone(), vec![0, 0, 1], vec![0, 2, 1], vec![]).is_none());
    // An original edge mapped past the forward edges.
    assert!(CCHRouter::new(3, ok_first.clone(), ok_head.clone(), vec![None, None, Some(0)], bw_first.clone(), bw_head.clone(), vec![2, 0, 1], vec![1, 2, 0], vec![3]).is_none());
    // Wrong lengths.
    assert!(CCHRouter::new(3, vec![0, 2, 3], ok_head.clone(), vec![None, None, Some(0)], bw_first.clone(), bw_head.clone(), vec![2, 0, 1], vec![1, 2, 0], vec![]).is_none());
    assert!(CCHRouter::new(3, ok_first, ok_head, vec![None, None], bw_first, bw_head, vec![2, 0, 1], vec![1, 2, 0], vec![]).is_none());
}

#[test]
fn original_edges_map_to_forward_slots() {
    let r = diamond();
    assert_eq!(r.original_edge_to_cch(), &vec![0, 1]);
}

#[test]
fn parent_pointers_must_point_down() {
    let none = u32::MAX;
    assert!(parents_point_down(&vec![none, 0, 0, 2]));
    assert!(parents_point_down(&vec![]));
    assert!(!parents_point_down(&vec![none, 1]));
    assert!(!parents_point_down(&vec![1, none]));
}

#[test]
fn edge_node_map_rebuilds_node_paths() {
    let map = EdgeNodeMap::new(vec![(0, 1), (1, 2), (2, 5)]);
    assert_eq!(map.get(1), Some((1, 2)));
    assert_eq!(map.get(3), None);
    assert_eq!(map.node_path(&vec![0, 1, 2]), vec![0, 1, 2, 5]);
    assert_eq!(map.node_path(&vec![]), Vec::<u32>::new());
    // Unknown edges are passed over; an unknown first edge loses the source.
    assert_eq!(map.node_path(&vec![0, 9, 2]), vec![0, 1, 5]);
    assert_eq!(map.node_path(&vec![9, 1, 2]), vec![2, 5]);
}
