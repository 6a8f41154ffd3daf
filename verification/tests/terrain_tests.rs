//! SRTM `.hgt` tile decoding.

use velos::terrain::{grid_triangle_indices, parse_hgt_bytes, HgtError, SRTM1_SAMPLES, SRTM3_SAMPLES, SRTM_VOID};

#[test]
fn test_parse_hgt_srtm1_size() {
    let expected = SRTM1_SAMPLES * SRTM1_SAMPLES * 2;
    assert_eq!(expected, 25_934_402);
}

#[test]
fn test_parse_hgt_srtm3_size() {
    let expected = SRTM3_SAMPLES * SRTM3_SAMPLES * 2;
    assert_eq!(expected, 2_884_802);
}

#[test]
fn test_parse_hgt_rejects_invalid_size() {
    let result = parse_hgt_bytes(&[0u8; 100]);
    assert_eq!(result, Err(HgtError::InvalidSize { len: 100 }));
}

#[test]
fn test_parse_hgt_reads_big_endian() {
    let samples = SRTM3_SAMPLES;
    let total = samples * samples;
    let mut data = vec![0u8; total * 2];
    let bytes = 100i16.to_be_bytes();
    data[0] = bytes[0];
    data[1] = bytes[1];
    let bytes = 200i16.to_be_bytes();
    data[2] = bytes[0];
    data[3] = bytes[1];
    let bytes = SRTM_VOID.to_be_bytes();
    let offset = samples * 2;
    data[offset] = bytes[0];
    data[offset + 1] = bytes[1];

    let (elevations, s) = parse_hgt_bytes(&data).unwrap();
    assert_eq!(s, SRTM3_SAMPLES);
    assert_eq!(elevations[0], 100, "First value should be 100");
    assert_eq!(elevations[1], 200, "Second value should be 200");
    assert_eq!(elevations[samples], 0, "Void value should be replaced with 0");
}

#[test]
fn test_void_replaced_with_zero() {
    let samples = SRTM3_SAMPLES;
    let total = samples * samples;
    let mut data = vec![0u8; total * 2];
    for i in 0..total {
        let bytes = SRTM_VOID.to_be_bytes();
        data[i * 2] = bytes[0];
        data[i * 2 + 1] = bytes[1];
    }
    let (elevations, _) = parse_hgt_bytes(&data).unwrap();
    assert!(elevations.iter().all(|&v| v == 0), "All void values should be replaced with 0");
}

#[test]
fn srtm1_tile_decodes_negative_and_extreme_values() {
    let samples = SRTM1_SAMPLES;
    let mut data = vec![0u8; samples * samples * 2];
    let last = samples * samples - 1;
    let bytes = (-5i16).to_be_bytes();
    data[0] = bytes[0];
    data[1] = bytes[1];
    let bytes = i16::MAX.to_be_bytes();
    data[last * 2] = bytes[0];
    data[last * 2 + 1] = bytes[1];
    // -32767 is a real depth, not a void.
    let bytes = (-32767i16).to_be_bytes();
    data[2] = bytes[0];
    data[3] = bytes[1];
    let (elevations, s) = parse_hgt_bytes(&data).unwrap();
    assert_eq!(s, SRTM1_SAMPLES);
    assert_eq!(elevations.len(), samples * samples);
    assert_eq!(elevations[0], -5);
    assert_eq!(elevations[1], -32767);
    assert_eq!(elevations[last], i16::MAX);
}

#[test]
fn off_by_one_sizes_are_rejected() {
    let n = SRTM3_SAMPLES * SRTM3_SAMPLES * 2;
    assert_eq!(parse_hgt_bytes(&vec![0u8; n - 1]), Err(HgtError::InvalidSize { len: n - 1 }));
    assert_eq!(parse_hgt_bytes(&vec![0u8; n + 1]), Err(HgtError::InvalidSize { len: n + 1 }));
    assert_eq!(parse_hgt_bytes(&[]), Err(HgtError::InvalidSize { len: 0 }));
}

#[test]
fn grid_indices_two_triangles_per_quad() {
    assert_eq!(grid_triangle_indices(2, 2), vec![0, 2, 1, 1, 2, 3]);
    assert_eq!(grid_triangle_indices(2, 3), vec![0, 3, 1, 1, 3, 4, 1, 4, 2, 2, 4, 5]);
    assert_eq!(grid_triangle_indices(4, 4).len(), 3 * 3 * 6);
    assert!(grid_triangle_indices(1, 5).is_empty());
    assert!(grid_triangle_indices(5, 1).is_empty());
    let idx = grid_triangle_indices(3, 3);
    // Quad (row 1, col 1): top-left vertex 4.
    assert_eq!(&idx[18..24], &[4, 7, 5, 5, 7, 8]);
}

#[test]
fn grid_indices_stay_inside_the_grid() {
    let idx = grid_triangle_indices(5, 7);
    assert_eq!(idx.len(), 4 * 6 * 6);
    assert!(idx.iter().all(|&i| i < 35));
    assert_eq!(*idx.iter().max().unwrap(), 34);
}
