use markdown_neuraxis::editing::anchors::{
    apply_deterministic_rebinding, calculate_range_overlap, determine_anchor_id_deterministic,
    generate_dynamic_anchor_id, generate_static_anchor_id, rebind_anchors_in_changed_regions, stable_order, Anchor,
    AnchorData, AnchorId,
};

fn anchor(id: u128, range: std::ops::Range<usize>, node: Option<usize>) -> Anchor {
    Anchor { id: AnchorId(id), range, node_id: node }
}

fn data(range: std::ops::Range<usize>, node: Option<usize>) -> AnchorData {
    (range, node, "list_item".to_string())
}

#[test]
fn overlap_of_ranges() {
    assert_eq!(calculate_range_overlap(&(0..10), &(5..15)), 5);
    assert_eq!(calculate_range_overlap(&(5..15), &(0..10)), 5);
    assert_eq!(calculate_range_overlap(&(0..5), &(5..10)), 0);
    assert_eq!(calculate_range_overlap(&(0..20), &(3..7)), 4);
    assert_eq!(calculate_range_overlap(&(8..2), &(0..10)), 0);
}

#[test]
fn generated_ids_depend_on_kind_position_and_range() {
    let a = generate_static_anchor_id(0, 0..10);
    assert_eq!(a, generate_static_anchor_id(0, 0..10));
    assert_ne!(a, generate_dynamic_anchor_id(0, 0..10));
    assert_ne!(a, generate_static_anchor_id(1, 0..10));
    assert_ne!(a, generate_static_anchor_id(0, 0..11));
}

#[test]
fn identifier_rules_node_then_position_then_new() {
    let old = vec![anchor(1, 0..5, Some(10)), anchor(2, 6..9, Some(11))];
    let by_pos = vec![anchor(1, 0..5, Some(10)), anchor(2, 6..9, Some(11))];
    let mut used = Vec::new();
    let id = determine_anchor_id_deterministic(Some(11), 0, &old, &by_pos, &(0..4), "x", &mut used);
    assert_eq!(id, AnchorId(2));
    assert_eq!(used, vec![AnchorId(2)]);
    let id = determine_anchor_id_deterministic(Some(11), 0, &old, &by_pos, &(0..4), "x", &mut used);
    assert_eq!(id, AnchorId(1));
    let id = determine_anchor_id_deterministic(None, 1, &old, &by_pos, &(3..8), "x", &mut used);
    assert_eq!(id, generate_dynamic_anchor_id(1, 3..8));
    assert_eq!(used.len(), 2);
}

#[test]
fn stable_order_keeps_equal_keys_in_place() {
    assert_eq!(stable_order(&vec![5, 1, 5, 0, 1]), vec![3, 1, 4, 0, 2]);
    assert_eq!(stable_order(&vec![]), Vec::<usize>::new());
    assert_eq!(stable_order(&vec![1, 2, 3]), vec![0, 1, 2]);
}

#[test]
fn rebinding_keeps_ids_by_node_and_position() {
    let mut anchors = vec![anchor(7, 10..20, Some(2)), anchor(5, 0..9, Some(1))];
    let found = vec![data(12..22, None), data(0..9, Some(1)), data(30..40, None)];
    apply_deterministic_rebinding(&mut anchors, found);
    assert_eq!(anchors.len(), 3);
    assert_eq!(anchors[0], anchor(5, 0..9, Some(1)));
    assert_eq!(anchors[1], anchor(7, 12..22, None));
    assert_eq!(anchors[2], anchor(generate_dynamic_anchor_id(2, 30..40).0, 30..40, None));
}

#[test]
fn rebinding_happens_only_for_changes_inside_anchors_or_structure() {
    let before = || vec![anchor(1, 0..10, Some(1)), anchor(2, 11..20, Some(2))];

    let mut a = before();
    rebind_anchors_in_changed_regions(&mut a, &[15..16], None);
    assert_eq!(a, before());

    let mut a = before();
    rebind_anchors_in_changed_regions(&mut a, &[], Some(vec![data(0..3, None)]));
    assert_eq!(a, before());

    let mut a = before();
    rebind_anchors_in_changed_regions(&mut a, &[25..30], Some(vec![data(0..3, None)]));
    assert_eq!(a, before());

    let mut a = before();
    rebind_anchors_in_changed_regions(&mut a, &[5..6], Some(vec![data(0..12, Some(1))]));
    assert_eq!(a, vec![anchor(1, 0..12, Some(1))]);

    let mut a = before();
    rebind_anchors_in_changed_regions(&mut a, &[8..12], Some(vec![data(0..8, Some(9)), data(9..12, None), data(13..20, None)]));
    assert_eq!(a.len(), 3);
    assert_eq!(a[0].id, AnchorId(1));
    assert_eq!(a[1].id, AnchorId(2));
}
