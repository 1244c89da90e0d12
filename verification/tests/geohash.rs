use spin_geospatial::geohash::{
    base32_char, base32_inv, cell_dims_mm, cell_max_dim_mm, cell_size_description, decode_cell,
    encode_cell, geohashes_of_cells, grid_dimensions, is_valid_geohash, neighbors, Cell, Direction,
};

/// The cell of the grid of `precision` characters that holds a point, found by halving
/// the longitude and latitude ranges in turn as a geohash does.
fn cell_at(lat: f64, lon: f64, precision: u8) -> Cell {
    let mut lat_range = (-90.0_f64, 90.0_f64);
    let mut lon_range = (-180.0_f64, 180.0_f64);
    let mut lat_idx: u64 = 0;
    let mut lon_idx: u64 = 0;
    for bit in 0..(5 * precision as u32) {
        if bit % 2 == 0 {
            let mid = (lon_range.0 + lon_range.1) / 2.0;
            if lon >= mid {
                lon_idx = lon_idx * 2 + 1;
                lon_range.0 = mid;
            } else {
                lon_idx *= 2;
                lon_range.1 = mid;
            }
        } else {
            let mid = (lat_range.0 + lat_range.1) / 2.0;
            if lat >= mid {
                lat_idx = lat_idx * 2 + 1;
                lat_range.0 = mid;
            } else {
                lat_idx *= 2;
                lat_range.1 = mid;
            }
        }
    }
    Cell { precision, lat: lat_idx, lon: lon_idx }
}

fn encode(lat: f64, lon: f64, precision: u8) -> String {
    encode_cell(&cell_at(lat, lon, precision))
}

/// Centre of the cell a geohash names.
fn decode_center(hash: &str) -> (f64, f64) {
    let cell = decode_cell(hash);
    let (rows, cols) = grid_dimensions(cell.precision);
    let lat = -90.0 + 180.0 * (cell.lat as f64 + 0.5) / rows as f64;
    let lon = -180.0 + 360.0 * (cell.lon as f64 + 0.5) / cols as f64;
    (lat, lon)
}

#[test]
fn test_encode_decode_roundtrip() {
    let lat = 33.6846;
    let lon = -117.8265;
    let hash = encode(lat, lon, 10);
    let (dlat, dlon) = decode_center(&hash);
    assert!((dlat - lat).abs() < 0.001);
    assert!((dlon - lon).abs() < 0.001);
}

#[test]
fn test_neighbors_count() {
    let hash = encode(33.6846, -117.8265, 7);
    let nbrs = neighbors(&hash);
    assert_eq!(nbrs.len(), 8);
}

#[test]
fn encode_known_points() {
    assert_eq!(encode(33.6846, -117.8265, 7), "9mupwu1");
    assert_eq!(encode(33.6846, -117.8265, 12), "9mupwu175899");
    assert_eq!(encode(40.7531, -73.9822, 8), "dr5ru6zu");
}

#[test]
fn decode_then_encode_gives_the_geohash_back() {
    for h in ["9mupwu175899", "dr5ru6zu", "0", "zzzzzzzz", "s", ""] {
        let cell = decode_cell(h);
        assert_eq!(cell.precision as usize, h.len());
        assert_eq!(encode_cell(&cell), h);
    }
}

#[test]
fn decode_known_cells() {
    assert_eq!(decode_cell("0"), Cell { precision: 1, lat: 0, lon: 0 });
    assert_eq!(decode_cell("z"), Cell { precision: 1, lat: 3, lon: 7 });
    assert_eq!(decode_cell("s"), Cell { precision: 1, lat: 2, lon: 4 });
}

#[test]
fn prefix_names_the_parent_cell() {
    let full = decode_cell("9mupwu175899");
    let parent = decode_cell("9mupw");
    assert_eq!(full.lat >> (30 - 12), parent.lat);
    assert_eq!(full.lon >> (30 - 13), parent.lon);
}

fn neighbor_names(hash: &str) -> Vec<(String, String)> {
    neighbors(hash).into_iter().map(|n| (n.direction.name().to_string(), n.geohash)).collect()
}

fn pairs(v: &[(&str, &str)]) -> Vec<(String, String)> {
    v.iter().map(|(a, b)| (a.to_string(), b.to_string())).collect()
}

#[test]
fn neighbors_of_an_inner_cell() {
    assert_eq!(
        neighbor_names("9mupwu1"),
        pairs(&[("n", "9mupwu3"), ("ne", "9mupwu6"), ("e", "9mupwu4"), ("se", "9mupwgf"), ("s", "9mupwgc"), ("sw", "9mupwgb"), ("w", "9mupwu0"), ("nw", "9mupwu2")])
    );
    assert_eq!(
        neighbor_names("9q"),
        pairs(&[("n", "9r"), ("ne", "9x"), ("e", "9w"), ("se", "9t"), ("s", "9m"), ("sw", "9j"), ("w", "9n"), ("nw", "9p")])
    );
}

#[test]
fn neighbors_stop_at_the_poles_and_wrap_in_longitude() {
    assert_eq!(neighbor_names("u"), pairs(&[("e", "v"), ("se", "t"), ("s", "s"), ("sw", "e"), ("w", "g")]));
    assert_eq!(neighbor_names("b"), pairs(&[("e", "c"), ("se", "9"), ("s", "8"), ("sw", "x"), ("w", "z")]));
    assert_eq!(neighbor_names("0"), pairs(&[("n", "2"), ("ne", "3"), ("e", "1"), ("w", "p"), ("nw", "r")]));
    assert_eq!(neighbor_names("z"), pairs(&[("e", "b"), ("se", "8"), ("s", "x"), ("sw", "w"), ("w", "y")]));
}

#[test]
fn neighbors_are_symmetric() {
    for n in neighbors("9mupwu1") {
        let back = neighbors(&n.geohash);
        let opposite = match n.direction {
            Direction::North => Direction::South,
            Direction::NorthEast => Direction::SouthWest,
            Direction::East => Direction::West,
            Direction::SouthEast => Direction::NorthWest,
            Direction::South => Direction::North,
            Direction::SouthWest => Direction::NorthEast,
            Direction::West => Direction::East,
            Direction::NorthWest => Direction::SouthEast,
        };
        let found = back.iter().find(|b| b.direction == opposite).unwrap();
        assert_eq!(found.geohash, "9mupwu1");
    }
}

#[test]
fn neighbors_of_the_empty_geohash() {
    assert_eq!(neighbor_names(""), pairs(&[("e", ""), ("w", "")]));
}

#[test]
fn neighbors_of_a_long_geohash() {
    let g = format!("ezs42zz{}", "0".repeat(23));
    let tail = "pb".repeat(11);
    assert_eq!(
        neighbor_names(&g),
        pairs(&[
            ("n", &format!("ezs42zz{}1", "0".repeat(22))),
            ("ne", &format!("ezs42zz{}3", "0".repeat(22))),
            ("e", &format!("ezs42zz{}2", "0".repeat(22))),
            ("se", &format!("ezs42zx{}r", tail)),
            ("s", &format!("ezs42zx{}p", tail)),
            ("sw", &format!("ezs42zw{}", "z".repeat(23))),
            ("w", &format!("ezs42zy{}b", "bp".repeat(11))),
            ("nw", &format!("ezs42zy{}c", "bp".repeat(11))),
        ])
    );
    let top = "z".repeat(30);
    let names = neighbor_names(&top);
    assert_eq!(names.len(), 5);
    assert_eq!(names[0], ("e".to_string(), "bp".repeat(15)));
}

#[test]
fn base32_alphabet() {
    assert_eq!(base32_inv('0'), Some(0));
    assert_eq!(base32_inv('b'), Some(10));
    assert_eq!(base32_inv('z'), Some(31));
    assert_eq!(base32_inv('a'), None);
    assert_eq!(base32_inv('i'), None);
    assert_eq!(base32_inv('l'), None);
    assert_eq!(base32_inv('o'), None);
    for d in 0..32u8 {
        assert_eq!(base32_inv(base32_char(d)), Some(d));
    }
}

#[test]
fn valid_geohashes() {
    assert!(is_valid_geohash("9mupwu1"));
    assert!(is_valid_geohash(""));
    assert!(!is_valid_geohash("9mupwa1"));
    assert!(!is_valid_geohash("0123456789bcdefghjkmnpqrs"[..].repeat(2).as_str()));
}

#[test]
fn cell_size_descriptions() {
    assert_eq!(cell_size_description(0), "unknown");
    assert_eq!(cell_size_description(13), "unknown");
    assert_eq!(cell_size_description(1), "~5009km x 4992km");
    assert_eq!(cell_size_description(5), "~4km x 4km");
    assert_eq!(cell_size_description(6), "~1km x 0km");
    assert_eq!(cell_size_description(7), "~153m x 153m");
    assert_eq!(cell_size_description(8), "~38m x 19m");
    assert_eq!(cell_size_description(9), "~4.8m x 4.8m");
    assert_eq!(cell_size_description(10), "~1.2m x 0.6m");
    assert_eq!(cell_size_description(11), "~0.15m x 0.15m");
    assert_eq!(cell_size_description(12), "~0.037m x 0.019m");
}

#[test]
fn cell_dimensions() {
    assert_eq!(cell_dims_mm(7), Some((153_000, 153_000)));
    assert_eq!(cell_dims_mm(0), None);
    assert_eq!(cell_max_dim_mm(8), 38_000);
    assert_eq!(cell_max_dim_mm(6), 1_200_000);
    assert_eq!(cell_max_dim_mm(0), 5_009_400_000);
    assert_eq!(cell_max_dim_mm(200), 5_009_400_000);
}

#[test]
fn painted_cells_are_distinct_geohashes() {
    let a = cell_at(33.6846, -117.8265, 7);
    let b = cell_at(33.70, -117.8265, 7);
    let c = cell_at(33.6846, -117.80, 7);
    let hashes = geohashes_of_cells(&vec![a, b, a, c, b]);
    assert_eq!(hashes.len(), 3);
    assert_eq!(hashes[0], encode_cell(&a));
    assert_eq!(hashes[1], encode_cell(&b));
    assert_eq!(hashes[2], encode_cell(&c));
}
