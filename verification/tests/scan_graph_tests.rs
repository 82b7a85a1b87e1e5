use base64::Engine;
use seekslam::scan_graph::{
    f64_bits_eq, PointcloudBits, PoseBits, ScanEdge, ScanGraph, ScanNode, ScanReadError, ONE_BITS,
};

fn pose_from_xyz_rpy(x: f64, y: f64, z: f64, roll: f64, pitch: f64, yaw: f64) -> PoseBits {
    let q = nalgebra::UnitQuaternion::from_euler_angles(roll, pitch, yaw);
    PoseBits {
        trans: [x.to_bits(), y.to_bits(), z.to_bits()],
        rot: [q.w.to_bits(), q.i.to_bits(), q.j.to_bits(), q.k.to_bits()],
    }
}

fn point(x: f64, y: f64, z: f64) -> [u64; 3] {
    [x.to_bits(), y.to_bits(), z.to_bits()]
}

fn le_words(words: &[u64]) -> Vec<u8> {
    let mut out = Vec::new();
    for w in words {
        out.extend_from_slice(&w.to_le_bytes());
    }
    out
}

#[test]
fn test_scan_node_new() {
    let pointcloud = PointcloudBits::new();
    let pose = PoseBits::identity();
    let scan_node = ScanNode::new(Some(pointcloud), pose, 1);

    assert!(scan_node.scan.is_some());
    assert_eq!(scan_node.id, 1);
}

#[test]
fn test_scan_node_default() {
    let scan_node = ScanNode::default();

    assert!(scan_node.scan.is_none());
    assert_eq!(scan_node.id, 0);
}

#[test]
fn test_scan_node_write_read_binary() {
    let mut pointcloud = PointcloudBits::new();
    pointcloud.points.push(point(1.0, 2.0, 3.0));
    let pose = pose_from_xyz_rpy(1.0, 2.0, 3.0, 0.1, 0.2, 0.3);
    let scan_node = ScanNode::new(Some(pointcloud), pose, 1);

    let text = scan_node.write_binary();

    let mut new_scan_node = ScanNode::default();
    new_scan_node.read_binary(&text).unwrap();

    assert_eq!(scan_node, new_scan_node);
}

#[test]
fn test_scan_node_clone() {
    let pointcloud = PointcloudBits::new();
    let pose = PoseBits::identity();
    let scan_node = ScanNode::new(Some(pointcloud), pose, 1);

    let cloned_node = scan_node.clone();

    assert_eq!(scan_node, cloned_node);
}

#[test]
fn test_scan_node_partial_eq() {
    let scan_node1 = ScanNode::new(None, PoseBits::identity(), 1);
    let scan_node2 = ScanNode::new(None, PoseBits::identity(), 1);

    assert_eq!(scan_node1, scan_node2);
}

#[test]
fn test_scan_edge_new() {
    let node1 = ScanNode::default();
    let node2 = ScanNode::default();
    let constraint = PoseBits::identity();
    let edge = ScanEdge::new(node1.id, node2.id, constraint);

    assert_eq!(edge.first, node1.id);
    assert_eq!(edge.second, node2.id);
    assert_eq!(f64::from_bits(edge.weight), 1.0);
}

#[test]
fn test_scan_edge_default() {
    let edge = ScanEdge::default();

    assert_eq!(edge.first, 0);
    assert_eq!(edge.second, 0);
    assert_eq!(f64::from_bits(edge.weight), 1.0);
}

#[test]
fn test_scan_edge_write_read_binary() {
    let mut graph = ScanGraph::new();
    let node1 = ScanNode::default();
    let node2 = ScanNode::default();
    graph.add_node(None, PoseBits::identity());
    graph.add_node(None, PoseBits::identity());

    let constraint = PoseBits::identity();
    let edge = ScanEdge::new(node1.id, node2.id, constraint);

    let buffer = edge.write_binary();

    let mut new_edge = ScanEdge::default();
    new_edge.read_binary(&buffer, &graph).unwrap();

    assert_eq!(new_edge.first, node1.id);
    assert_eq!(new_edge.second, node2.id);
    assert_eq!(f64::from_bits(new_edge.weight), 1.0);
}

#[test]
fn test_scan_edge_clone() {
    let node1 = ScanNode::default();
    let node2 = ScanNode::default();
    let constraint = PoseBits::identity();
    let edge = ScanEdge::new(node1.id, node2.id, constraint);

    let cloned_edge = edge.clone();

    assert_eq!(cloned_edge.first, node1.id);
    assert_eq!(cloned_edge.second, node2.id);
    assert_eq!(f64::from_bits(cloned_edge.weight), 1.0);
}

#[test]
fn test_scan_edge_partial_eq() {
    let node1 = ScanNode::default();
    let node2 = ScanNode::default();
    let constraint = PoseBits::identity();
    let edge1 = ScanEdge::new(node1.id, node2.id, constraint);
    let edge2 = ScanEdge::new(node1.id, node2.id, constraint);

    assert_eq!(edge1, edge2);
}

#[test]
fn test_scan_graph_new() {
    let graph = ScanGraph::new();

    assert_eq!(graph.nodes.len(), 0);
    assert_eq!(graph.edges.len(), 0);
}

#[test]
fn test_scan_graph_add_node() {
    let mut graph = ScanGraph::new();
    let node = graph.add_node(None, PoseBits::identity());

    assert_eq!(graph.nodes.len(), 1);
    assert_eq!(node, 0);
}

#[test]
fn test_scan_graph_add_edge() {
    let mut graph = ScanGraph::new();
    let node1 = graph.add_node(None, PoseBits::identity());
    let node2 = graph.add_node(None, PoseBits::identity());
    let edge = graph.add_edge(node1, node2, PoseBits::identity());

    assert_eq!(graph.edges.len(), 1);
    assert_eq!(edge.first, node1);
    assert_eq!(edge.second, node2);
}

#[test]
fn test_scan_graph_get_node_by_id() {
    let mut graph = ScanGraph::new();
    let node = graph.add_node(None, PoseBits::identity());

    let found_node = graph.get_node_by_id(0);
    assert!(found_node.is_some());
    assert_eq!(found_node.unwrap().id, node);
}

#[test]
fn test_scan_graph_edge_exists() {
    let mut graph = ScanGraph::new();
    let node1 = graph.add_node(None, PoseBits::identity());
    let node2 = graph.add_node(None, PoseBits::identity());
    graph.add_edge(node1, node2, PoseBits::identity());

    assert!(graph.edge_exists(0, 1));
    assert!(!graph.edge_exists(1, 2));
}

#[test]
fn test_scan_graph_get_neighbor_ids() {
    let mut graph = ScanGraph::new();
    let node1 = graph.add_node(None, PoseBits::identity());
    let node2 = graph.add_node(None, PoseBits::identity());
    graph.add_edge(node1, node2, PoseBits::identity());

    let neighbors = graph.get_neighbor_ids(0);
    assert_eq!(neighbors.len(), 1);
    assert_eq!(neighbors[0], 1);
}

#[test]
fn test_scan_graph_clone() {
    let mut graph = ScanGraph::new();
    let node1 = graph.add_node(None, PoseBits::identity());
    let node2 = graph.add_node(None, PoseBits::identity());
    graph.add_edge(node1, node2, PoseBits::identity());

    let cloned_graph = graph.clone();

    assert_eq!(cloned_graph.nodes.len(), graph.nodes.len());
    assert_eq!(cloned_graph.edges.len(), graph.edges.len());
}

#[test]
fn test_scan_graph_partial_eq() {
    let mut graph1 = ScanGraph::new();
    let node1 = graph1.add_node(None, PoseBits::identity());
    let node2 = graph1.add_node(None, PoseBits::identity());
    graph1.add_edge(node1, node2, PoseBits::identity());

    let mut graph2 = ScanGraph::new();
    let node1 = graph2.add_node(None, PoseBits::identity());
    let node2 = graph2.add_node(None, PoseBits::identity());
    graph2.add_edge(node1, node2, PoseBits::identity());

    assert_eq!(graph1, graph2);
}

#[test]
fn node_record_is_base64_of_little_endian_words() {
    let mut pc = PointcloudBits::new();
    pc.points.push(point(1.0, 2.0, 3.0));
    let pose = pose_from_xyz_rpy(1.0, 2.0, 3.0, 0.1, 0.2, 0.3);
    let node = ScanNode::new(Some(pc), pose, 7);

    let mut expected = Vec::new();
    expected.extend_from_slice(&1u64.to_le_bytes());
    expected.extend(le_words(&point(1.0, 2.0, 3.0)));
    expected.extend(le_words(&pose.trans));
    expected.extend(le_words(&pose.rot));
    expected.extend_from_slice(&7u32.to_le_bytes());
    let expected_text = base64::engine::general_purpose::STANDARD.encode(&expected);

    assert_eq!(node.write_binary(), expected_text.into_bytes());
}

#[test]
fn edge_record_is_base64_of_little_endian_words() {
    let edge = ScanEdge::new(3, 9, PoseBits::identity());
    let mut expected = Vec::new();
    expected.extend_from_slice(&3u32.to_le_bytes());
    expected.extend_from_slice(&9u32.to_le_bytes());
    expected.extend(le_words(&[0, 0, 0, ONE_BITS, 0, 0, 0]));
    expected.extend_from_slice(&ONE_BITS.to_le_bytes());
    assert_eq!(expected.len(), 72);
    let text = edge.write_binary();
    assert_eq!(text, base64::engine::general_purpose::STANDARD.encode(&expected).into_bytes());
    assert_ne!(text, expected);
}

#[test]
fn node_record_round_trip_keeps_points_pose_and_id() {
    let mut pc = PointcloudBits::new();
    pc.points.push(point(1.0, -2.5, 3.25));
    pc.points.push(point(0.0, -0.0, f64::NAN));
    let pose = pose_from_xyz_rpy(4.0, 5.0, 6.0, 0.3, -0.2, 0.1);
    let node = ScanNode::new(Some(pc), pose, 42);
    let text = node.write_binary();

    let mut back = ScanNode::new(None, PoseBits::identity(), 5);
    assert_eq!(back.read_binary(&text), Ok(()));
    assert_eq!(back.id, 42);
    assert_eq!(back.pose.trans, pose.trans);
    assert_eq!(back.pose.rot, pose.rot);
    let scan = back.scan.unwrap();
    assert_eq!(scan.points, node.scan.unwrap().points);
    assert_eq!(scan.current_inv_transform.trans, [0, 0, 0]);
    assert_eq!(scan.current_inv_transform.rot, [ONE_BITS, 0, 0, 0]);
}

#[test]
fn node_read_rejects_text_that_is_not_base64() {
    let mut node = ScanNode::new(None, PoseBits::identity(), 9);
    assert_eq!(node.read_binary(b"not base64!"), Err(ScanReadError::InvalidBase64));
    assert!(node.scan.is_none());
    assert_eq!(node.id, 9);
}

#[test]
fn node_read_of_record_without_scan_misreads_pose_as_point_count() {
    // A node without a scan writes no point count, so the first word of the
    // pose is read as one: here the bits of 0.0, so no points, and the rest
    // of the record is then too short for a pose and an id.
    let node = ScanNode::new(None, PoseBits::identity(), 3);
    let text = node.write_binary();
    let mut back = ScanNode::new(None, PoseBits::identity(), 8);
    assert_eq!(back.read_binary(&text), Err(ScanReadError::UnexpectedEof));
    assert_eq!(back.scan.unwrap().points.len(), 0);
    assert_eq!(back.id, 8);
}

#[test]
fn node_read_of_short_record_keeps_whole_points() {
    // Two points announced, one and a half present.
    let mut bytes = Vec::new();
    bytes.extend_from_slice(&2u64.to_le_bytes());
    bytes.extend(le_words(&point(1.0, 2.0, 3.0)));
    bytes.extend(le_words(&[5.0f64.to_bits()]));
    let text = base64::engine::general_purpose::STANDARD.encode(&bytes);
    let mut node = ScanNode::new(None, PoseBits::identity(), 4);
    assert_eq!(node.read_binary(text.as_bytes()), Err(ScanReadError::UnexpectedEof));
    assert_eq!(node.scan.unwrap().points, vec![point(1.0, 2.0, 3.0)]);
    assert_eq!(node.id, 4);
}

#[test]
fn node_read_of_empty_text_runs_out_of_bytes() {
    let mut node = ScanNode::default();
    assert_eq!(node.read_binary(b""), Err(ScanReadError::UnexpectedEof));
    assert!(node.scan.is_some());
}

#[test]
fn edge_round_trip_when_both_ids_are_nodes() {
    let mut graph = ScanGraph::new();
    graph.add_node(None, PoseBits::identity());
    graph.add_node(None, PoseBits::identity());
    let constraint = pose_from_xyz_rpy(1.0, 0.5, -2.0, 0.0, 0.1, 0.2);
    let mut edge = ScanEdge::new(1, 0, constraint);
    edge.weight = 0.25f64.to_bits();
    let text = edge.write_binary();
    let mut back = ScanEdge::default();
    assert_eq!(back.read_binary(&text, &graph), Ok(()));
    assert_eq!(back.first, 1);
    assert_eq!(back.second, 0);
    assert_eq!(back.constraint.trans, constraint.trans);
    assert_eq!(back.constraint.rot, constraint.rot);
    assert_eq!(back.weight, 0.25f64.to_bits());
}

#[test]
fn edge_read_reports_missing_node() {
    let mut graph = ScanGraph::new();
    graph.add_node(None, PoseBits::identity());
    let text = ScanEdge::new(0, 5, PoseBits::identity()).write_binary();
    let mut back = ScanEdge::new(7, 8, PoseBits::identity());
    assert_eq!(back.read_binary(&text, &graph), Err(ScanReadError::NodeNotFound));
    // The first id was found and stored before the second was looked up.
    assert_eq!(back.first, 0);
    assert_eq!(back.second, 8);
}

#[test]
fn edge_read_of_short_record_is_eof() {
    let graph = ScanGraph::new();
    let text = base64::engine::general_purpose::STANDARD.encode([1u8, 0, 0]);
    let mut back = ScanEdge::default();
    assert_eq!(back.read_binary(text.as_bytes(), &graph), Err(ScanReadError::UnexpectedEof));
    assert_eq!(back.read_binary(b"%%%%", &graph), Err(ScanReadError::InvalidBase64));
}

#[test]
fn empty_graph_round_trip() {
    let graph = ScanGraph::new();
    let bytes = graph.write_binary_internal();
    assert_eq!(bytes, vec![0, 0, 0, 0, 0, 0, 0, 0]);
    let mut back = ScanGraph::new();
    back.add_node(None, PoseBits::identity());
    assert_eq!(back.read_binary_internal(&bytes), Ok(()));
    assert_eq!(back.nodes.len(), 0);
    assert_eq!(back.edges.len(), 0);
}

#[test]
fn graph_with_nodes_does_not_read_back() {
    let mut graph = ScanGraph::new();
    graph.add_node(Some(PointcloudBits::new()), PoseBits::identity());
    let bytes = graph.write_binary_internal();
    assert_eq!(&bytes[0..4], &1u32.to_le_bytes());
    let mut back = ScanGraph::new();
    // The single node record takes the rest of the input, the raw edge
    // count included, which is not base64.
    let r = back.read_binary_internal(&bytes);
    assert_eq!(r, Err(ScanReadError::InvalidBase64));
    assert_eq!(back.nodes.len(), 0);
    assert_eq!(back.edges.len(), 0);
}

#[test]
fn graph_read_errors() {
    let mut g = ScanGraph::new();
    assert_eq!(g.read_binary_internal(&[1, 0]), Err(ScanReadError::UnexpectedEof));
    assert_eq!(g.read_binary_internal(&[0, 0, 0, 0, 1]), Err(ScanReadError::UnexpectedEof));
    let mut bytes = vec![0, 0, 0, 0, 1, 0, 0, 0];
    bytes.extend(ScanEdge::new(0, 1, PoseBits::identity()).write_binary());
    assert_eq!(g.read_binary_internal(&bytes), Err(ScanReadError::NodeNotFound));
    let bytes = vec![2, 0, 0, 0, b'*'];
    assert_eq!(g.read_binary_internal(&bytes), Err(ScanReadError::InvalidBase64));
}

#[test]
fn neighbours_out_and_in_edges() {
    let mut graph = ScanGraph::new();
    for _ in 0..4 {
        graph.add_node(None, PoseBits::identity());
    }
    graph.add_edge(0, 1, PoseBits::identity());
    graph.add_edge(2, 0, PoseBits::identity());
    graph.add_edge(0, 3, PoseBits::identity());
    graph.add_edge(1, 2, PoseBits::identity());
    assert_eq!(graph.get_neighbor_ids(0), vec![1, 2, 3]);
    assert_eq!(graph.get_neighbor_ids(2), vec![0, 1]);
    assert_eq!(graph.get_neighbor_ids(9), Vec::<u32>::new());
    let node0 = graph.get_node_by_id(0).unwrap().clone();
    let out: Vec<(u32, u32)> = graph.get_out_edges(&node0).iter().map(|e| (e.first, e.second)).collect();
    assert_eq!(out, vec![(0, 1), (0, 3)]);
    let inc: Vec<(u32, u32)> = graph.get_in_edges(&node0).iter().map(|e| (e.first, e.second)).collect();
    assert_eq!(inc, vec![(2, 0)]);
}

#[test]
fn connect_previous_joins_last_two_nodes() {
    let mut graph = ScanGraph::new();
    graph.add_node(None, PoseBits::identity());
    graph.connect_previous(PoseBits::identity());
    assert_eq!(graph.edges.len(), 0);
    graph.add_node(None, PoseBits::identity());
    graph.add_node(None, PoseBits::identity());
    let c = pose_from_xyz_rpy(1.0, 0.0, 0.0, 0.0, 0.0, 0.0);
    graph.connect_previous(c);
    assert_eq!(graph.edges.len(), 1);
    assert_eq!((graph.edges[0].first, graph.edges[0].second), (1, 2));
    assert_eq!(graph.edges[0].constraint.trans, c.trans);
    assert_eq!(graph.edges[0].weight, ONE_BITS);
}

#[test]
fn num_points_stops_at_max_id() {
    let mut graph = ScanGraph::new();
    for n in 0..3u32 {
        let mut pc = PointcloudBits::new();
        for _ in 0..(n + 1) {
            pc.points.push(point(0.0, 0.0, 0.0));
        }
        graph.add_node(Some(pc), PoseBits::identity());
    }
    graph.add_node(None, PoseBits::identity());
    assert_eq!(graph.get_num_points(0), 6);
    assert_eq!(graph.get_num_points(1), 3);
    assert_eq!(graph.get_num_points(2), 6);
    assert_eq!(graph.get_num_points(77), 6);
}

#[test]
fn clone_resets_edge_weights() {
    let mut graph = ScanGraph::new();
    graph.add_node(Some(PointcloudBits::new()), PoseBits::identity());
    graph.add_node(None, PoseBits::identity());
    graph.add_edge(0, 1, PoseBits::identity());
    graph.edges[0].weight = 3.0f64.to_bits();
    let copy = graph.clone();
    assert_eq!(copy.edges[0].weight, ONE_BITS);
    assert_eq!(copy, graph);
    assert!(copy.nodes[0].scan.is_some());
}

#[test]
fn graph_equality_compares_poses_as_floats() {
    let mut a = ScanGraph::new();
    let mut p = PoseBits::identity();
    p.trans[0] = (-0.0f64).to_bits();
    a.add_node(None, p);
    let mut b = ScanGraph::new();
    b.add_node(None, PoseBits::identity());
    assert_eq!(a, b);
    let mut nan = PoseBits::identity();
    nan.rot[2] = f64::NAN.to_bits();
    let mut c = ScanGraph::new();
    c.add_node(None, nan);
    assert_ne!(c, c.clone());
    let mut d = ScanGraph::new();
    d.add_node(None, PoseBits::identity());
    d.add_node(None, PoseBits::identity());
    assert_ne!(b, d);
}

#[test]
fn float_bit_equality() {
    assert!(f64_bits_eq(0.0f64.to_bits(), (-0.0f64).to_bits()));
    assert!(!f64_bits_eq(f64::NAN.to_bits(), f64::NAN.to_bits()));
    assert!(f64_bits_eq(1.5f64.to_bits(), 1.5f64.to_bits()));
    assert!(!f64_bits_eq(1.5f64.to_bits(), 2.5f64.to_bits()));
}

#[test]
fn added_nodes_are_found_by_their_ids() {
    let mut graph = ScanGraph::new();
    for expected in 0..5u32 {
        let id = graph.add_node(None, PoseBits::identity());
        assert_eq!(id, expected);
    }
    for id in 0..5u32 {
        let node = graph.get_node_by_id(id).unwrap();
        assert_eq!(node.id, id);
        assert!(std::ptr::eq(node, &graph.nodes[id as usize]));
    }
    assert!(graph.get_node_by_id(5).is_none());
}

#[test]
fn edge_exists_ignores_direction() {
    let mut graph = ScanGraph::new();
    for _ in 0..3 {
        graph.add_node(None, PoseBits::identity());
    }
    graph.add_edge(2, 0, PoseBits::identity());
    for a in 0..4u32 {
        for b in 0..4u32 {
            assert_eq!(graph.edge_exists(a, b), graph.edge_exists(b, a));
        }
    }
    assert!(graph.edge_exists(0, 2));
    assert!(!graph.edge_exists(0, 1));
}

#[test]
fn node_record_bytes_and_direct_read() {
    let mut pc = PointcloudBits::new();
    pc.points.push(point(1.0, 2.0, 3.0));
    let pose = pose_from_xyz_rpy(0.5, 0.0, -1.0, 0.0, 0.0, 0.2);
    let node = ScanNode::new(Some(pc), pose, 11);
    let bytes = node.record();
    assert_eq!(bytes.len(), 8 + 24 + 56 + 4);
    assert_eq!(&bytes[0..8], &1u64.to_le_bytes());
    assert_eq!(&bytes[8..16], &1.0f64.to_bits().to_le_bytes());
    assert_eq!(&bytes[88..92], &11u32.to_le_bytes());

    let mut back = ScanNode::default();
    assert_eq!(back.read_record(&bytes), Ok(()));
    assert_eq!(back.id, 11);
    assert_eq!(back.pose.rot, pose.rot);

    // Pose present, id cut short: the pose is read, the id kept.
    let mut partial = ScanNode::new(None, PoseBits::identity(), 77);
    assert_eq!(partial.read_record(&bytes[..90]), Err(ScanReadError::UnexpectedEof));
    assert_eq!(partial.pose.trans, pose.trans);
    assert_eq!(partial.id, 77);

    // Pose cut short: neither pose nor id changes.
    let mut short = ScanNode::new(None, PoseBits::identity(), 78);
    assert_eq!(short.read_record(&bytes[..60]), Err(ScanReadError::UnexpectedEof));
    assert_eq!(short.pose.trans, [0, 0, 0]);
    assert_eq!(short.scan.unwrap().points.len(), 1);
}

#[test]
fn edge_record_bytes_and_direct_read() {
    let mut graph = ScanGraph::new();
    graph.add_node(None, PoseBits::identity());
    graph.add_node(None, PoseBits::identity());
    let edge = ScanEdge::new(1, 0, PoseBits::identity());
    let bytes = edge.record();
    assert_eq!(bytes.len(), 72);
    assert_eq!(&bytes[0..4], &1u32.to_le_bytes());
    assert_eq!(&bytes[64..72], &ONE_BITS.to_le_bytes());

    let mut back = ScanEdge::new(0, 0, PoseBits::identity());
    back.weight = 0;
    assert_eq!(back.read_record(&bytes[..70], &graph), Err(ScanReadError::UnexpectedEof));
    assert_eq!((back.first, back.second, back.weight), (1, 0, 0));
    assert_eq!(back.read_record(&bytes, &graph), Ok(()));
    assert_eq!(back.weight, ONE_BITS);
}

#[test]
fn pose_equality_treats_a_negated_quaternion_as_the_same_rotation() {
    let p = pose_from_xyz_rpy(1.0, 2.0, 3.0, 0.1, 0.2, 0.3);
    let mut q = p;
    for w in q.rot.iter_mut() {
        *w = (-f64::from_bits(*w)).to_bits();
    }
    assert!(p == q);
    let mut r = p;
    r.rot[1] = (-f64::from_bits(r.rot[1])).to_bits();
    assert!(p != r);
    let mut g1 = ScanGraph::new();
    g1.add_node(None, p);
    let mut g2 = ScanGraph::new();
    g2.add_node(None, q);
    assert!(g1 == g2);
}
