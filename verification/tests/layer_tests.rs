use ayarify::layer::compute_layer_parents;

#[test]
fn test_compute_layer_parents() {
    let level = |n: u8| -> Option<u8> { Some(n) };
    let input =
        [level(2), None, level(4), None, level(3), None, level(3), None, level(4), None];
    let expected = vec![0, 0, 0, 2, 0, 4, 0, 6, 6, 8];
    let actual = compute_layer_parents(&input.to_vec());
    assert_eq!(actual, expected);
}

#[test]
fn test_empty_levels_resolve_to_empty() {
    let input: Vec<Option<u8>> = Vec::new();
    let actual = compute_layer_parents(&input);
    assert_eq!(actual, Vec::<usize>::new());
}

#[test]
fn test_no_headings_resolve_to_identity() {
    let input: Vec<Option<u8>> = vec![None; 6];
    let actual = compute_layer_parents(&input);
    assert_eq!(actual, vec![0, 1, 2, 3, 4, 5]);
}

#[test]
fn test_increasing_levels_nest() {
    let input: Vec<Option<u8>> = vec![Some(1), Some(2), Some(3)];
    let actual = compute_layer_parents(&input);
    assert_eq!(actual, vec![0, 0, 1]);
}

#[test]
fn test_equal_level_closes_section() {
    let input: Vec<Option<u8>> = vec![Some(2), None, Some(2), None];
    let actual = compute_layer_parents(&input);
    assert_eq!(actual, vec![0, 0, 2, 2]);
}

#[test]
fn test_shallower_heading_closes_deeper_sections() {
    let input: Vec<Option<u8>> = vec![Some(2), Some(4), Some(5), Some(3)];
    let actual = compute_layer_parents(&input);
    assert_eq!(actual, vec![0, 0, 1, 0]);
}
