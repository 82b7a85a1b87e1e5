use seekslam::data_node::OcTreeDataNode;

#[test]
fn test_new() {
    let node: OcTreeDataNode<i32> = OcTreeDataNode::new();
    assert_eq!(node.value, 0);
    assert!(node.children.is_none());
}

#[test]
fn test_with_value() {
    let node = OcTreeDataNode::with_value(42);
    assert_eq!(node.value, 42);
    assert!(node.children.is_none());
}

#[test]
fn test_clone() {
    let mut node = OcTreeDataNode::with_value(10);
    node.alloc_children();
    let cloned_node = node.clone();
    assert_eq!(cloned_node.value, 10);
    assert!(cloned_node.children.is_some());
}

#[test]
fn test_copy_data() {
    let mut node1 = OcTreeDataNode::with_value(5);
    let node2 = OcTreeDataNode::with_value(10);
    node1.copy_data(&node2);
    assert_eq!(node1.value, 10);
}

#[test]
fn test_equals() {
    let node1 = OcTreeDataNode::with_value(7);
    let node2 = OcTreeDataNode::with_value(7);
    assert!(node1.equals(&node2));
}

#[test]
fn test_child_exists() {
    let mut node = OcTreeDataNode::<i32>::new();
    node.alloc_children();
    assert!(!node.child_exists(0));
}

#[test]
fn test_has_children() {
    let mut node = OcTreeDataNode::<i32>::new();
    assert!(!node.has_children());
    node.alloc_children();
    assert!(!node.has_children());
}

#[test]
fn clone_copies_nested_children() {
    let mut node = OcTreeDataNode::with_value(1);
    node.alloc_children();
    let mut child = OcTreeDataNode::with_value(2);
    child.alloc_children();
    child.children.as_mut().unwrap()[5] = Some(Box::new(OcTreeDataNode::with_value(3)));
    node.children.as_mut().unwrap()[3] = Some(Box::new(child));
    let copy = node.clone();
    assert!(copy.child_exists(3));
    assert!(!copy.child_exists(2));
    assert!(copy.has_children());
    let c = copy.children.as_ref().unwrap()[3].as_ref().unwrap();
    assert_eq!(c.value, 2);
    assert_eq!(c.children.as_ref().unwrap()[5].as_ref().unwrap().value, 3);
    assert!(copy == node);
}

#[test]
fn clone_keeps_eight_slots_only() {
    let mut node = OcTreeDataNode::with_value(1);
    let mut slots = Vec::new();
    for _ in 0..10 {
        slots.push(None);
    }
    slots[9] = Some(Box::new(OcTreeDataNode::with_value(4)));
    node.children = Some(slots);
    assert_eq!(node.clone().children.unwrap().len(), 8);
    assert_eq!(node.clone_subtree().children.unwrap().len(), 10);
}

#[test]
fn equals_compares_values_only() {
    let mut node1 = OcTreeDataNode::with_value(7);
    node1.alloc_children();
    let node2 = OcTreeDataNode::with_value(8);
    assert!(!node1.equals(&node2));
    let node3 = OcTreeDataNode::with_value(7);
    assert!(node1.equals(&node3));
}

#[test]
fn copy_data_keeps_children() {
    let mut node1 = OcTreeDataNode::with_value(5);
    node1.alloc_children();
    node1.children.as_mut().unwrap()[0] = Some(Box::new(OcTreeDataNode::with_value(1)));
    node1.copy_data(&OcTreeDataNode::with_value(9));
    assert_eq!(node1.value, 9);
    assert!(node1.child_exists(0));
}

#[test]
fn clone_trait_copies_every_slot() {
    let mut node = OcTreeDataNode::with_value(3);
    node.children = Some(vec![None, Some(Box::new(OcTreeDataNode::with_value(4))), None]);
    let copy = Clone::clone(&node);
    assert_eq!(copy.value, 3);
    let slots = copy.children.as_ref().unwrap();
    assert_eq!(slots.len(), 3);
    assert!(slots[0].is_none());
    assert_eq!(slots[1].as_ref().unwrap().value, 4);
    assert!(copy == node);
}
