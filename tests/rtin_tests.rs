use rtin::cache::{decode_rtin, encode_rtin, is_well_formed, preprocess_heightmap_cached};
use rtin::decode::{preprocess_grid, preprocess_heightmap_from_bytes};
use rtin::geometry::{Point, Triangle, Vertex};
use rtin::heightmap::{Heightmap, RtinError};
use rtin::label::num_triangles;
use rtin::mesh::{thresholded_mesh_data, thresholded_triangles, MeshData};
use rtin::ratio::Ratio;
use rtin::rtin::{points_in_bounding_box, preprocess_heightmap, preprocess_heightmap_from_img, RtinData};

fn h9_values() -> Vec<u16> {
    vec![
        767, 991, 704, 615, 399, 6, 554, 544, 770, 785, 170, 154, 470, 27, 670, 291, 828, 928,
        875, 117, 950, 592, 901, 36, 470, 537, 994, 74, 792, 403, 987, 676, 182, 130, 887, 552,
        45, 273, 665, 983, 845, 299, 59, 650, 765, 712, 309, 412, 840, 197, 396, 90, 178, 396,
        799, 415, 665, 421, 80, 14, 498, 781, 383, 820, 632, 877, 651, 101, 532, 674, 587, 464,
        95, 959, 691, 778, 563, 405, 826, 340, 109,
    ]
}

fn h9() -> Heightmap {
    Heightmap::from_vec(9, 9, h9_values()).unwrap()
}

fn error_value(r: &Ratio) -> f32 {
    (r.num as f64 / r.den as f64) as f32
}

/// The mesh with vertex heights normalised to `[0, 1]`.
fn normalised(m: &MeshData) -> Vec<[f32; 3]> {
    m.vertices
        .iter()
        .map(|v| [v.x as f32, v.y as f32, v.height as f32 / u16::MAX as f32])
        .collect()
}

fn check_mesh_shape(m: &MeshData) {
    assert_eq!(m.indices.len() % 3, 0);
    for i in &m.indices {
        assert!((*i as usize) < m.vertices.len());
    }
    for i in 0..m.vertices.len() {
        for j in i + 1..m.vertices.len() {
            let (a, b) = (m.vertices[i], m.vertices[j]);
            assert!(a.x != b.x || a.y != b.y);
        }
    }
}

#[test]
fn thresholded_mesh_data_test() {
    let heightmap = h9();
    let rtin = preprocess_heightmap(&heightmap).unwrap();

    let mesh_data = thresholded_mesh_data(Ratio::whole(100), &rtin);
    assert!(mesh_data.indices.len() % 3 == 0);
    let expected_vertices: Vec<[f32; 3]> = vec![
        [4.0, 6.0, 0.0012207218],
        [2.0, 6.0, 0.010147249],
        [3.0, 7.0, 0.0099336235],
        [4.0, 8.0, 0.00859083],
        [4.0, 4.0, 0.012893873],
        [3.0, 5.0, 0.012817578],
        [2.0, 8.0, 0.010543984],
        [1.0, 7.0, 0.009643702],
        [0.0, 8.0, 0.0014496071],
        [6.0, 8.0, 0.012603953],
        [6.0, 6.0, 0.007598993],
        [5.0, 7.0, 0.0081178],
        [8.0, 8.0, 0.0016632334],
        [7.0, 7.0, 0.008957046],
        [5.0, 5.0, 0.0060425727],
        [2.0, 4.0, 0.010147249],
        [2.0, 2.0, 0.014496071],
        [1.0, 3.0, 0.012085145],
        [0.0, 4.0, 0.000686656],
        [3.0, 3.0, 0.015060655],
        [0.0, 2.0, 0.013351644],
        [1.0, 1.0, 0.0025940337],
        [0.0, 0.0, 0.01170367],
        [0.0, 6.0, 0.012191959],
        [1.0, 5.0, 0.004715038],
        [4.0, 2.0, 0.0137483785],
        [6.0, 2.0, 0.0071717403],
        [5.0, 1.0, 0.010223545],
        [4.0, 0.0, 0.00608835],
        [5.0, 3.0, 0.002777142],
        [6.0, 0.0, 0.008453499],
        [7.0, 1.0, 0.01263447],
        [8.0, 0.0, 0.011749447],
        [2.0, 0.0, 0.010742351],
        [3.0, 1.0, 0.0071717403],
        [6.0, 4.0, 0.0009002823],
        [7.0, 5.0, 0.002716106],
        [8.0, 4.0, 0.0116731515],
        [8.0, 6.0, 0.0058442056],
        [8.0, 2.0, 0.015167468],
        [7.0, 3.0, 0.013534753],
    ];
    let expected_indices: Vec<u32> = vec![
        0, 1, 2, 3, 0, 2, 0, 4, 5, 1, 0, 5, 6, 1, 7, 8, 6, 7, 6, 3, 2, 1, 6, 2, 9, 10, 11, 3, 9,
        11, 9, 12, 13, 10, 9, 13, 0, 10, 14, 4, 0, 14, 0, 3, 11, 10, 0, 11, 15, 16, 17, 18, 15,
        17, 15, 4, 19, 16, 15, 19, 20, 16, 21, 22, 20, 21, 20, 18, 17, 16, 20, 17, 23, 1, 24, 18,
        23, 24, 23, 8, 7, 1, 23, 7, 15, 1, 5, 4, 15, 5, 15, 18, 24, 1, 15, 24, 25, 26, 27, 28, 25,
        27, 25, 4, 29, 26, 25, 29, 30, 26, 31, 32, 30, 31, 30, 28, 27, 26, 30, 27, 33, 16, 34, 28,
        33, 34, 33, 22, 21, 16, 33, 21, 25, 16, 19, 4, 25, 19, 25, 28, 34, 16, 25, 34, 35, 10,
        36, 37, 35, 36, 35, 4, 14, 10, 35, 14, 38, 10, 13, 12, 38, 13, 38, 37, 36, 10, 38, 36,
        39, 26, 40, 37, 39, 40, 39, 32, 31, 26, 39, 31, 35, 26, 29, 4, 35, 29, 35, 37, 40, 26,
        35, 40,
    ];
    assert_eq!(normalised(&mesh_data), expected_vertices);
    assert_eq!(mesh_data.indices, expected_indices);
}

#[test]
fn mesh_at_100_counts() {
    let rtin = preprocess_heightmap(&h9()).unwrap();
    let m = thresholded_mesh_data(Ratio::whole(100), &rtin);
    assert_eq!(m.vertices.len(), 41);
    assert_eq!(m.indices.len(), 192);
    assert_eq!(&m.indices[..12], &[0, 1, 2, 3, 0, 2, 0, 4, 5, 1, 0, 5]);
    check_mesh_shape(&m);
}

#[test]
fn preprocess_heightmap_test() {
    let heightmap = h9();
    let rtin = preprocess_heightmap(&heightmap).unwrap();
    let actual: Vec<f32> = rtin.triangles.iter().map(|t| error_value(&t.error)).collect();
    assert_eq!(
        actual,
        vec![
            0.0, 862.25, 762.875, 862.25, 641.0, 771.125, 644.25, 747.0, 624.0, 616.5, 737.5,
            678.75, 616.5, 746.0, 746.0, 624.0, 747.0, 490.0, 624.0, 338.0, 688.5, 737.5, 338.0,
            510.0, 485.75, 688.5, 483.5, 746.0, 453.5, 269.5, 746.0, 220.5, 265.5, 566.0, 199.0,
            289.5, 283.5, 275.5, 275.0, 404.5, 404.5, 795.5, 795.5, 317.0, 373.0, 253.0, 253.0,
            649.5, 649.5, 221.0, 470.5, 673.0, 688.5, 333.5, 623.0, 453.5, 275.5, 340.5, 453.5,
            327.5, 208.0, 475.5, 269.5, 48.5, 220.5, 265.5, 48.5, 199.0, 566.0, 151.0, 199.0,
            12.0, 289.5, 127.5, 12.0, 275.0, 265.5, 220.5, 275.0, 404.5, 82.0, 228.0, 404.5,
            795.5, 36.0, 386.0, 795.5, 317.0, 290.0, 373.0, 317.0, 253.0, 228.0, 82.0, 253.0,
            649.5, 623.0, 197.0, 649.5, 221.0, 118.0, 470.5, 221.0, 673.0, 63.5, 255.5, 673.0,
            333.5, 197.0, 623.0, 333.5, 188.5, 238.0, 153.0, 188.5, 340.5, 218.0, 178.0, 340.5,
            195.0, 327.5, 46.0, 195.0, 134.5, 153.0, 238.0, 134.5, 0.0
        ]
    );
    assert_eq!(rtin.triangles.len(), num_triangles(9) as usize);
}

#[test]
fn preprocess_records_grid_and_extrema() {
    let rtin = preprocess_heightmap_from_img(&h9()).unwrap();
    assert_eq!(rtin.grid_size, 9);
    assert_eq!(rtin.min_height, 6);
    assert_eq!(rtin.max_height, 994);
    let t = rtin.triangles[1];
    // the BottomLeft base triangle: (8, 8), (0, 0), (0, 8)
    assert_eq!(t.vertices.a, Vertex { x: 8, y: 8, height: 109 });
    assert_eq!(t.vertices.b, Vertex { x: 0, y: 0, height: 767 });
    assert_eq!(t.vertices.c, Vertex { x: 0, y: 8, height: 95 });
    assert_eq!(rtin.triangles[0].error, Ratio::whole(0));
    assert!(is_well_formed(&rtin));
}

#[test]
fn flat_heightmap_has_no_error() {
    let hm = Heightmap::from_vec(5, 5, vec![300; 25]).unwrap();
    let rtin = preprocess_heightmap(&hm).unwrap();
    assert!(rtin.triangles.iter().all(|t| t.error.num == 0));
    assert_eq!(thresholded_triangles(Ratio::whole(0), &rtin), vec![1, 2]);
    let m = thresholded_mesh_data(Ratio::whole(0), &rtin);
    assert_eq!(m.vertices.len(), 4);
    assert_eq!(m.indices, vec![0, 1, 2, 1, 0, 3]);
}

#[test]
fn smallest_grid() {
    let hm = Heightmap::from_vec(3, 3, vec![0, 0, 0, 0, 9, 0, 0, 0, 0]).unwrap();
    let rtin = preprocess_heightmap(&hm).unwrap();
    assert_eq!(rtin.triangles.len(), 8);
    assert_eq!(rtin.min_height, 0);
    assert_eq!(rtin.max_height, 9);
    // both base triangles cover the centre, which sits 9 above their plane
    assert_eq!(error_value(&rtin.triangles[1].error), 9.0);
    assert_eq!(error_value(&rtin.triangles[2].error), 9.0);
}

#[test]
fn rejects_non_square() {
    let hm = Heightmap::from_vec(9, 5, vec![0; 45]).unwrap();
    assert_eq!(preprocess_heightmap(&hm).err(), Some(RtinError::InvalidShape));
}

#[test]
fn rejects_bad_sides() {
    for s in [0u32, 1, 2, 4, 6, 10] {
        let hm = Heightmap::from_vec(s, s, vec![0; (s * s) as usize]).unwrap();
        assert_eq!(preprocess_heightmap(&hm).err(), Some(RtinError::InvalidSize));
    }
}

#[test]
fn heightmap_from_short_buffer() {
    assert!(Heightmap::from_vec(3, 3, vec![0; 8]).is_none());
    let hm = Heightmap::from_vec(3, 3, vec![1; 12]).unwrap();
    assert_eq!(hm.pixels.len(), 9);
    assert_eq!(hm.dimensions(), (3, 3));
    let grid = Heightmap::from_vec(3, 2, vec![1, 2, 3, 4, 5, 6]).unwrap();
    assert_eq!(grid.get_pixel(2, 1), 6);
    assert_eq!(grid.get_pixel(0, 1), 4);
}

#[test]
fn zero_threshold_emits_all_leaves() {
    let rtin = preprocess_heightmap(&h9()).unwrap();
    let n = rtin.triangles.len() as u32;
    assert!(rtin.triangles[1..(n / 2) as usize].iter().all(|t| t.error.num > 0));
    let mut sel = thresholded_triangles(Ratio::whole(0), &rtin);
    sel.sort();
    assert_eq!(sel, ((n / 2)..n).collect::<Vec<u32>>());
}

#[test]
fn larger_thresholds_give_fewer_indices() {
    let rtin = preprocess_heightmap(&h9()).unwrap();
    let mut last = usize::MAX;
    for eps in [0u64, 10, 50, 100, 200, 400, 700, 900, 1000] {
        let m = thresholded_mesh_data(Ratio::whole(eps), &rtin);
        check_mesh_shape(&m);
        assert!(m.indices.len() <= last);
        last = m.indices.len();
    }
    assert_eq!(thresholded_triangles(Ratio::whole(900), &rtin), vec![1, 2]);
}

#[test]
fn fractional_threshold() {
    let rtin = preprocess_heightmap(&h9()).unwrap();
    // node 2 has error 762.875: kept at 762.875, split just below it
    let at = thresholded_triangles(Ratio::new(6103, 8), &rtin);
    let below = thresholded_triangles(Ratio::new(6102, 8), &rtin);
    assert!(at.contains(&2));
    assert!(!below.contains(&2));
}

#[test]
fn ratio_comparisons() {
    assert!(Ratio::new(1, 2).le(&Ratio::new(2, 4)));
    assert!(Ratio::new(1, 3).le(&Ratio::new(1, 2)));
    assert!(!Ratio::new(2, 3).le(&Ratio::new(1, 2)));
    assert!(Ratio::new(u128::MAX, u64::MAX).le(&Ratio::new(u128::MAX, u64::MAX)));
    assert!(!Ratio::new(u128::MAX, 1).le(&Ratio::new(u128::MAX - 1, 1)));
    assert!(Ratio::whole(0).le(&Ratio::new(0, 7)));
}

#[test]
fn cache_round_trip() {
    let rtin = preprocess_heightmap(&h9()).unwrap();
    let bytes = encode_rtin(&rtin);
    assert_eq!(bytes.len(), 20 + 54 * 128);
    assert_eq!(&bytes[..4], b"RTIN");
    assert_eq!(&bytes[4..8], &[1, 0, 0, 0]);
    assert_eq!(&bytes[8..12], &[9, 0, 0, 0]);
    let back: RtinData = decode_rtin(&bytes).unwrap();
    assert_eq!(back.grid_size, rtin.grid_size);
    assert_eq!(back.min_height, rtin.min_height);
    assert_eq!(back.max_height, rtin.max_height);
    assert_eq!(back.triangles, rtin.triangles);
    assert_eq!(encode_rtin(&back), bytes);
}

#[test]
fn cache_rejects_damaged_bytes() {
    let rtin = preprocess_heightmap(&h9()).unwrap();
    let bytes = encode_rtin(&rtin);
    assert!(decode_rtin(&bytes[..bytes.len() - 1]).is_none());
    assert!(decode_rtin(&[]).is_none());
    let mut wrong_magic = bytes.clone();
    wrong_magic[0] = b'X';
    assert!(decode_rtin(&wrong_magic).is_none());
    let mut wrong_version = bytes.clone();
    wrong_version[4] = 2;
    assert!(decode_rtin(&wrong_version).is_none());
}

#[test]
fn cached_preprocessing() {
    let hm = h9();
    let fresh = preprocess_heightmap(&hm).unwrap();
    let bytes = encode_rtin(&fresh);

    let (hit, stale) = preprocess_heightmap_cached(&hm, Some(&bytes));
    assert!(!stale);
    assert_eq!(hit.unwrap().triangles, fresh.triangles);

    let (miss, stale) = preprocess_heightmap_cached(&hm, None);
    assert!(stale);
    assert_eq!(miss.unwrap().triangles, fresh.triangles);

    let other = Heightmap::from_vec(5, 5, vec![7; 25]).unwrap();
    let (recomputed, stale) = preprocess_heightmap_cached(&other, Some(&bytes));
    assert!(stale);
    assert_eq!(recomputed.unwrap().grid_size, 5);

    let mut broken = bytes.clone();
    broken[20 + 16] = 0;
    for k in 17..24 {
        broken[20 + k] = 0;
    }
    let (recomputed, stale) = preprocess_heightmap_cached(&hm, Some(&broken));
    assert!(stale);
    assert_eq!(recomputed.unwrap().triangles, fresh.triangles);
}

fn png_of(width: u32, height: u32, values: Vec<u16>) -> Vec<u8> {
    let img: image::ImageBuffer<image::Luma<u16>, Vec<u16>> =
        image::ImageBuffer::from_vec(width, height, values).unwrap();
    let mut out = std::io::Cursor::new(Vec::new());
    img.write_to(&mut out, image::ImageFormat::Png).unwrap();
    out.into_inner()
}

#[test]
fn preprocess_from_png_bytes() {
    let png = png_of(9, 9, h9_values());
    let from_bytes = preprocess_heightmap_from_bytes(&png).unwrap();
    let direct = preprocess_heightmap(&h9()).unwrap();
    assert_eq!(from_bytes.triangles, direct.triangles);
    assert_eq!(from_bytes.max_height, 994);
}

#[test]
fn preprocess_from_png_bytes_checks_shape() {
    let png = png_of(9, 5, vec![1; 45]);
    assert_eq!(preprocess_heightmap_from_bytes(&png).err(), Some(RtinError::InvalidShape));
    let png = png_of(6, 6, vec![1; 36]);
    assert_eq!(preprocess_heightmap_from_bytes(&png).err(), Some(RtinError::InvalidSize));
}

#[test]
fn preprocess_from_garbage_bytes() {
    assert_eq!(
        preprocess_heightmap_from_bytes(b"not an image").err(),
        Some(RtinError::ImageDecode)
    );
}

#[test]
fn preprocess_grid_checks() {
    assert_eq!(preprocess_grid(3, 3, vec![0; 8]).err(), Some(RtinError::ImageDecode));
    assert_eq!(preprocess_grid(3, 5, vec![0; 15]).err(), Some(RtinError::InvalidShape));
    assert_eq!(preprocess_grid(4, 4, vec![0; 16]).err(), Some(RtinError::InvalidSize));
    let r = preprocess_grid(9, 9, h9_values()).unwrap();
    assert_eq!(r.triangles.len(), 128);
}

#[test]
fn bounding_box_points_column_by_column() {
    let t = Triangle::new(Point { x: 3, y: 1 }, Point { x: 1, y: 3 }, Point { x: 1, y: 1 });
    let pts = points_in_bounding_box(&t);
    let expected: Vec<Point> = (1..=3u32)
        .flat_map(|x| (1..=3u32).map(move |y| Point { x, y }))
        .collect();
    assert_eq!(pts, expected);
    let flat = Triangle::new(Point { x: 2, y: 5 }, Point { x: 4, y: 5 }, Point { x: 3, y: 5 });
    assert_eq!(
        points_in_bounding_box(&flat),
        vec![Point { x: 2, y: 5 }, Point { x: 3, y: 5 }, Point { x: 4, y: 5 }]
    );
}
