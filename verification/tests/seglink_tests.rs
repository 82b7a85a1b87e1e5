use seekslam::seglink_grid::{
    coord_is_defined, get_coord, get_neighbours, is_valid_coord, layer_layout, layout_fits_in_usize,
    neighbour_cells, neighbour_offsets_fit,
};
use seekslam::seglink_group::{
    can_join_node_groups, can_visit_node, find_parent, find_root, get_all, get_index, group_members, is_root, join, join_node_groups, pad_group_indices,
    set_parent, split_group_indices,
};
use std::collections::HashMap;

fn layout_64() -> (Vec<(usize, usize)>, Vec<(usize, usize)>) {
    layer_layout((64, 64))
}

#[test]
fn layer_layout_of_a_64_pixel_square() {
    let (map_size, offsets) = layout_64();
    assert_eq!(map_size, vec![(16, 16), (8, 8), (4, 4), (2, 2), (1, 1), (0, 0)]);
    assert_eq!(
        offsets,
        vec![(0, 0), (256, 2048), (320, 2816), (336, 3008), (340, 3056), (341, 3068)]
    );
}

#[test]
fn layer_layout_of_a_wide_image() {
    let (map_size, offsets) = layer_layout((32, 128));
    assert_eq!(map_size[0], (8, 32));
    assert_eq!(map_size[1], (4, 16));
    assert_eq!(map_size[5], (0, 1));
    assert_eq!(offsets[1], (256, 2048));
    assert_eq!(offsets[2], (320, 2816));
}

#[test]
fn get_coord_places_offsets_on_their_layer() {
    let (map_size, offsets) = layout_64();
    assert_eq!(get_coord(17, &map_size, &offsets), (0, 1, 1));
    assert_eq!(get_coord(255, &map_size, &offsets), (0, 15, 15));
    assert_eq!(get_coord(300, &map_size, &offsets), (1, 4, 5));
    assert_eq!(get_coord(256, &map_size, &offsets), (1, 0, 0));
    assert_eq!(get_coord(340, &map_size, &offsets), (4, 0, 0));
}

#[test]
fn is_valid_coord_checks_width_and_height() {
    let (map_size, _) = layout_64();
    assert!(is_valid_coord(0, 15, 15, &map_size));
    assert!(!is_valid_coord(0, 16, 0, &map_size));
    assert!(!is_valid_coord(1, 0, 8, &map_size));
    assert!(!is_valid_coord(5, 0, 0, &map_size));
}

#[test]
fn neighbours_on_the_first_layer() {
    let (map_size, offsets) = layout_64();
    assert_eq!(
        get_neighbours(0, 0, 0, &map_size, &offsets),
        vec![(1, 4, 4), (16, 6, 6), (17, 7, 7)]
    );
    let inner = get_neighbours(0, 1, 1, &map_size, &offsets);
    assert_eq!(inner.len(), 8);
    assert_eq!(inner[0], (0, 8 * 17, 0));
    assert_eq!(inner[7], (34, 8 * 17 + 7, 7));
}

#[test]
fn neighbours_above_the_first_layer_include_the_cells_below() {
    let (map_size, offsets) = layout_64();
    assert_eq!(
        get_neighbours(1, 0, 0, &map_size, &offsets),
        vec![
            (257, 2052, 4),
            (264, 2054, 6),
            (265, 2055, 7),
            (0, 2056, 8),
            (1, 2057, 9),
            (16, 2058, 10),
            (17, 2059, 11)
        ]
    );
}

#[test]
fn find_root_points_the_point_at_its_root() {
    let mut mask = vec![-1, 0, 1];
    assert_eq!(find_parent(&mask, 2), 1);
    assert!(!is_root(&mask, 2));
    assert_eq!(find_root(&mut mask, 2), 0);
    assert_eq!(mask, vec![-1, 0, 0]);
    assert_eq!(find_root(&mut mask, 0), 0);
    assert_eq!(mask, vec![-1, 0, 0]);
}

#[test]
fn set_parent_writes_the_entry() {
    let mut mask = vec![-1, -1, -1];
    set_parent(&mut mask, 1, 2);
    assert_eq!(mask, vec![-1, 2, -1]);
    assert!(is_root(&mask, 0));
}

#[test]
fn join_hangs_the_larger_root_under_the_smaller() {
    let mut mask = vec![-1, -1, 1];
    join(&mut mask, 0, 2);
    assert_eq!(mask, vec![-1, 0, 1]);
    assert_eq!(find_root(&mut mask, 2), 0);
    let mut pair = vec![-1, -1];
    join(&mut pair, 1, 0);
    assert_eq!(pair, vec![-1, 0]);
    join(&mut pair, 0, 1);
    assert_eq!(pair, vec![-1, 0]);
}

#[test]
fn get_index_numbers_roots_by_first_appearance() {
    let mut root_map: HashMap<usize, usize> = HashMap::new();
    assert_eq!(get_index(&mut root_map, 7), 1);
    assert_eq!(get_index(&mut root_map, 3), 2);
    assert_eq!(get_index(&mut root_map, 7), 1);
    assert_eq!(root_map.len(), 2);
}

#[test]
fn get_all_labels_points_by_root() {
    let mask = vec![-1, 0, -1, 2, -1];
    assert_eq!(get_all(&mask, &vec![1, 3, 0, 4]), vec![1, 1, 0, 2, 3]);
}

#[test]
fn join_node_groups_groups_linked_nodes() {
    let (map_size, offsets) = layout_64();
    let mut node_mask = vec![0; 341];
    let link_mask = vec![1; 3068];
    for p in [0usize, 1, 17, 300] {
        node_mask[p] = 1;
    }
    let labels = join_node_groups(&node_mask, &link_mask, &map_size, &offsets);
    assert_eq!(labels.len(), 341);
    assert_eq!(labels[0], 1);
    assert_eq!(labels[1], 1);
    assert_eq!(labels[17], 1);
    assert_eq!(labels[300], 2);
    assert_eq!(labels.iter().filter(|&&l| l != 0).count(), 4);
}

#[test]
fn join_node_groups_keeps_unlinked_nodes_apart() {
    let (map_size, offsets) = layout_64();
    let mut node_mask = vec![0; 341];
    let link_mask = vec![0; 3068];
    for p in [0usize, 1, 17, 300] {
        node_mask[p] = 1;
    }
    let labels = join_node_groups(&node_mask, &link_mask, &map_size, &offsets);
    assert_eq!(labels[0], 1);
    assert_eq!(labels[1], 2);
    assert_eq!(labels[17], 3);
    assert_eq!(labels[300], 4);
}

#[test]
fn join_node_groups_follows_one_positive_link() {
    let map_size = vec![(1, 2), (0, 0), (0, 0), (0, 0), (0, 0), (0, 0)];
    let offsets = vec![(0, 0), (2, 16), (2, 16), (2, 16), (2, 16), (2, 16)];
    let node_mask = vec![1, 1];
    let mut link_mask = vec![0; 16];
    link_mask[4] = 1;
    assert!(can_join_node_groups(&node_mask, &link_mask, &map_size, &offsets));
    assert_eq!(join_node_groups(&node_mask, &link_mask, &map_size, &offsets), vec![1, 1]);
    link_mask[4] = 0;
    link_mask[11] = 1;
    assert_eq!(join_node_groups(&node_mask, &link_mask, &map_size, &offsets), vec![1, 1]);
    link_mask[11] = 0;
    assert_eq!(join_node_groups(&node_mask, &link_mask, &map_size, &offsets), vec![1, 2]);
}

#[test]
fn join_node_groups_numbers_groups_by_first_node() {
    let (map_size, offsets) = layout_64();
    let mut node_mask = vec![0; 341];
    let link_mask = vec![1; 3068];
    for p in [0usize, 5, 6, 17] {
        node_mask[p] = 1;
    }
    let labels = join_node_groups(&node_mask, &link_mask, &map_size, &offsets);
    assert_eq!(labels[0], 1);
    assert_eq!(labels[5], 2);
    assert_eq!(labels[6], 2);
    assert_eq!(labels[17], 1);
}

#[test]
fn split_group_indices_shifts_and_filters() {
    let (all, valid) = split_group_indices(&vec![1, 0, 2, 0, 3]);
    assert_eq!(all, vec![0, -1, 1, -1, 2]);
    assert_eq!(valid, vec![0, 1, 2]);
}

#[test]
fn group_members_lists_positions_in_order() {
    assert_eq!(group_members(&vec![0, 1, 0, -1, 0], 0), vec![0, 2, 4]);
    assert_eq!(group_members(&vec![0, 1, 0, -1, 0], 1), vec![1]);
    assert_eq!(group_members(&vec![0, 1], 5), Vec::<usize>::new());
}

#[test]
fn coord_is_defined_needs_six_layers_and_a_wide_layer() {
    let (map_size, offsets) = layout_64();
    assert!(coord_is_defined(340, &map_size, &offsets));
    assert!(!coord_is_defined(341, &map_size, &offsets));
    assert!(!coord_is_defined(0, &map_size[..5].to_vec(), &offsets));
}

#[test]
fn neighbour_cells_in_link_order() {
    let cells = neighbour_cells(0, 3, 4);
    assert_eq!(cells.len(), 8);
    assert_eq!(cells[0], (0, 2, 3));
    assert_eq!(cells[7], (0, 4, 5));
    let upper = neighbour_cells(2, 1, 1);
    assert_eq!(upper.len(), 12);
    assert_eq!(upper[8], (1, 2, 2));
    assert_eq!(upper[11], (1, 3, 3));
    let corner = neighbour_cells(0, 0, 0);
    assert_eq!(corner[0], (0, usize::MAX, usize::MAX));
}

#[test]
fn neighbour_offsets_fit_detects_overflow() {
    let (map_size, offsets) = layout_64();
    assert!(neighbour_offsets_fit(1, 4, 5, &map_size, &offsets));
    let huge = vec![(usize::MAX, usize::MAX); 6];
    assert!(!neighbour_offsets_fit(0, 5, 5, &huge, &offsets));
}

#[test]
fn visiting_nodes_needs_masks_long_enough() {
    let (map_size, offsets) = layout_64();
    assert!(can_visit_node(300, 341, 3068, &map_size, &offsets));
    assert!(!can_visit_node(300, 341, 2000, &map_size, &offsets));
    assert!(!can_visit_node(341, 342, 3068, &map_size, &offsets));
    let mut node_mask = vec![0; 341];
    node_mask[17] = 1;
    assert!(can_join_node_groups(&node_mask, &vec![0; 3068], &map_size, &offsets));
    assert!(!can_join_node_groups(&node_mask, &vec![0; 100], &map_size, &offsets));
    assert!(can_join_node_groups(&vec![0; 341], &vec![], &map_size, &offsets));
}

#[test]
fn layout_fits_only_for_images_of_sane_size() {
    assert!(layout_fits_in_usize((64, 64)));
    assert!(layout_fits_in_usize((1024, 1024)));
    assert!(!layout_fits_in_usize((usize::MAX, usize::MAX)));
    assert!(layout_fits_in_usize((usize::MAX, 0)));
}

#[test]
fn placed_offsets_flatten_back() {
    let (map_size, offsets) = layout_64();
    for o in 0..341usize {
        assert!(coord_is_defined(o, &map_size, &offsets));
        let (l, x, y) = get_coord(o, &map_size, &offsets);
        assert_eq!(offsets[l].0 + map_size[l].1 * y + x, o);
    }
}

#[test]
fn pad_group_indices_pads_to_the_largest_count() {
    let groups = vec![vec![0, 0, 1], vec![0], vec![]];
    let counts = vec![3, 1, 0];
    let (indices, count) = pad_group_indices(&groups, &counts);
    assert_eq!(count, 3);
    assert_eq!(indices, vec![0, 0, 1, 0, -1, -1, -1, -1, -1]);
    let (single, single_count) = pad_group_indices(&vec![vec![2, 2]], &vec![2]);
    assert_eq!(single, vec![2, 2]);
    assert_eq!(single_count, 2);
}
