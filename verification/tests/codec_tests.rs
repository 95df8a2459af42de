use zarrs_cache::codec::coordinates_to_zarr_key;
use zarrs_cache::codec::generate_neighbor_coordinates;
use zarrs_cache::codec::generate_sequential_keys;
use zarrs_cache::codec::parse_zarr_chunk_key;

#[test]
fn test_valid_chunk_keys() {
    assert_eq!(
        parse_zarr_chunk_key("array/1.2.3"),
        Some(("array".to_string(), vec![1, 2, 3]))
    );

    assert_eq!(
        parse_zarr_chunk_key("my_dataset/0.5.10"),
        Some(("my_dataset".to_string(), vec![0, 5, 10]))
    );

    assert_eq!(
        parse_zarr_chunk_key("data/42"),
        Some(("data".to_string(), vec![42]))
    );
}

#[test]
fn test_invalid_chunk_keys() {
    assert_eq!(parse_zarr_chunk_key("invalid_key"), None);
    assert_eq!(parse_zarr_chunk_key("array/invalid/coords"), None);
    assert_eq!(parse_zarr_chunk_key("array/not.numbers.here"), None);
    assert_eq!(parse_zarr_chunk_key(""), None);
    assert_eq!(parse_zarr_chunk_key("array/"), None);
    // Note: "/1.2.3" is actually valid (empty array name)
    assert_eq!(
        parse_zarr_chunk_key("/1.2.3"),
        Some(("".to_string(), vec![1, 2, 3]))
    );
}

#[test]
fn test_negative_coordinates() {
    assert_eq!(
        parse_zarr_chunk_key("array/-1.2.-3"),
        Some(("array".to_string(), vec![-1, 2, -3]))
    );
}

#[test]
fn test_2d_single_neighbor() {
    let coords = vec![5, 10];
    let neighbors = generate_neighbor_coordinates(&coords, 1);

    assert_eq!(neighbors.len(), 4); // 2 dims * 2 directions * 1 neighbor
    assert!(neighbors.contains(&vec![6, 10])); // +1 in first dim
    assert!(neighbors.contains(&vec![4, 10])); // -1 in first dim
    assert!(neighbors.contains(&vec![5, 11])); // +1 in second dim
    assert!(neighbors.contains(&vec![5, 9])); // -1 in second dim
}

#[test]
fn test_3d_multiple_neighbors() {
    let coords = vec![5, 5, 5];
    let neighbors = generate_neighbor_coordinates(&coords, 2);

    assert_eq!(neighbors.len(), 12); // 3 dims * 2 directions * 2 neighbors

    // Check some expected neighbors
    assert!(neighbors.contains(&vec![6, 5, 5])); // +1 in first dim
    assert!(neighbors.contains(&vec![7, 5, 5])); // +2 in first dim
    assert!(neighbors.contains(&vec![4, 5, 5])); // -1 in first dim
    assert!(neighbors.contains(&vec![3, 5, 5])); // -2 in first dim
}

#[test]
fn test_boundary_conditions() {
    let coords = vec![0, 1];
    let neighbors = generate_neighbor_coordinates(&coords, 2);

    // Should not generate negative coordinates
    for neighbor in &neighbors {
        for &coord in neighbor {
            assert!(coord >= 0, "Generated negative coordinate: {:?}", neighbor);
        }
    }

    // Should have fewer neighbors due to boundary constraints
    assert!(neighbors.len() < 8); // Would be 8 if no boundary constraints
}

#[test]
fn test_single_dimension() {
    let coords = vec![10];
    let neighbors = generate_neighbor_coordinates(&coords, 1);

    assert_eq!(neighbors.len(), 2);
    assert!(neighbors.contains(&vec![11]));
    assert!(neighbors.contains(&vec![9]));
}

#[test]
fn test_coordinate_conversion() {
    assert_eq!(
        coordinates_to_zarr_key("array", &vec![1, 2, 3]),
        "array/1.2.3"
    );

    assert_eq!(coordinates_to_zarr_key("dataset", &vec![0]), "dataset/0");

    assert_eq!(
        coordinates_to_zarr_key("data", &vec![10, 20, 30, 40]),
        "data/10.20.30.40"
    );
}

#[test]
fn prefetch_test_negative_coordinates() {
    assert_eq!(
        coordinates_to_zarr_key("array", &vec![-1, 2, -3]),
        "array/-1.2.-3"
    );
}

#[test]
fn test_sequential_generation() {
    let keys = generate_sequential_keys("array", &vec![5, 10, 15], 3);

    assert_eq!(keys.len(), 3);
    assert_eq!(keys[0], "array/5.10.16");
    assert_eq!(keys[1], "array/5.10.17");
    assert_eq!(keys[2], "array/5.10.18");
}

#[test]
fn prefetch_test_single_dimension() {
    let keys = generate_sequential_keys("data", &vec![42], 2);

    assert_eq!(keys.len(), 2);
    assert_eq!(keys[0], "data/43");
    assert_eq!(keys[1], "data/44");
}

#[test]
fn test_empty_coordinates() {
    let keys = generate_sequential_keys("array", &vec![], 3);
    assert!(keys.is_empty());
}

#[test]
fn test_zero_lookahead() {
    let keys = generate_sequential_keys("array", &vec![1, 2, 3], 0);
    assert!(keys.is_empty());
}

#[test]
fn test_round_trip_parse_of_formatted_key() {
    let key = coordinates_to_zarr_key("temperature", &vec![7, -2, 0, 2147483647]);
    assert_eq!(
        parse_zarr_chunk_key(&key),
        Some(("temperature".to_string(), vec![7, -2, 0, 2147483647]))
    );
}

#[test]
fn test_parse_rejects_out_of_range_coordinates() {
    assert_eq!(parse_zarr_chunk_key("a/2147483648"), None);
    assert_eq!(parse_zarr_chunk_key("a/-2147483649"), None);
    assert_eq!(parse_zarr_chunk_key("a/2147483647"), Some(("a".to_string(), vec![2147483647])));
    assert_eq!(parse_zarr_chunk_key("a/-2147483648"), Some(("a".to_string(), vec![-2147483648])));
}

#[test]
fn test_parse_accepts_plus_sign_and_leading_zeros() {
    assert_eq!(parse_zarr_chunk_key("a/+5.007"), Some(("a".to_string(), vec![5, 7])));
    assert_eq!(parse_zarr_chunk_key("a/+.1"), None);
    assert_eq!(parse_zarr_chunk_key("a/-"), None);
}

#[test]
fn test_neighbors_skip_results_with_any_negative_coordinate() {
    // The untouched negative coordinate disqualifies every result
    let neighbors = generate_neighbor_coordinates(&vec![0, -3], 1);
    assert!(neighbors.is_empty());

    let neighbors = generate_neighbor_coordinates(&vec![-1, 2, -3], 1);
    assert!(neighbors.is_empty());

    // Once the vector is non-negative throughout, results reappear
    let neighbors = generate_neighbor_coordinates(&vec![0, 3], 1);
    assert_eq!(neighbors.len(), 3);
    assert!(neighbors.contains(&vec![1, 3]));
    assert!(neighbors.contains(&vec![0, 4]));
    assert!(neighbors.contains(&vec![0, 2]));
}
