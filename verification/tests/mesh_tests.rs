use softrender::mesh::FaceElement;
use softrender::mesh::convert_index;

#[test]
fn resolve_first_and_last() {
    for len in [1usize, 2, 7, 1000] {
        assert_eq!(convert_index(1, len), 0);
        assert_eq!(convert_index(-1, len), len - 1);
    }
}

#[test]
fn resolve_positive_counts_from_front() {
    assert_eq!(convert_index(3, 10), 2);
    assert_eq!(convert_index(10, 10), 9);
}

#[test]
fn resolve_negative_counts_from_back() {
    assert_eq!(convert_index(-3, 10), 7);
    assert_eq!(convert_index(-10, 10), 0);
}

#[test]
fn face_element_carries_optional_indexes() {
    let e = FaceElement { vertex: 4, texture: Some(2), normal: None };
    assert_eq!(convert_index(e.vertex, 5), 3);
    assert_eq!(convert_index(e.texture.unwrap(), 5), 1);
    assert!(e.normal.is_none());
}
