use lines2tiles::bbox::BBox;
use lines2tiles::load::{load_features, FeatureInfo, LoadError};
use lines2tiles::plan::{plan_tiles, to_tiles};
use lines2tiles::select::{priority_order, select_features, Candidate};
use lines2tiles::tile::{tiles_per_side, TileCoord, TileError};
use lines2tiles::Options;

fn cand(key: Option<usize>, inside: bool, len: usize) -> Candidate {
    Candidate { sort_key: key, vertex_inside: inside, encoded_len: len }
}

fn triples(tiles: &[TileCoord]) -> Vec<(u32, u32, u32)> {
    let mut v: Vec<(u32, u32, u32)> = tiles.iter().map(|t| (t.x(), t.y(), t.z())).collect();
    v.sort();
    v
}

#[test]
fn tile_coord_accepts_grid_tiles() {
    let t = TileCoord::new(3, 0, 2).unwrap();
    assert_eq!((t.x(), t.y(), t.z()), (3, 0, 2));
    assert!(TileCoord::new(0, 0, 0).is_ok());
    assert!(TileCoord::new(0x7fff_ffff, 0, 31).is_ok());
}

#[test]
fn tile_coord_rejects_out_of_range() {
    assert_eq!(TileCoord::new(4, 0, 2), Err(TileError::InvalidTileCoordinate));
    assert_eq!(TileCoord::new(0, 1, 0), Err(TileError::InvalidTileCoordinate));
    assert_eq!(TileCoord::new(0, 0, 32), Err(TileError::InvalidTileCoordinate));
}

#[test]
fn tiles_per_side_is_power_of_two() {
    assert_eq!(tiles_per_side(0), 1);
    assert_eq!(tiles_per_side(12), 4096);
    assert_eq!(tiles_per_side(31), 0x8000_0000);
}

#[test]
fn archive_ids_follow_zoom_offsets() {
    assert_eq!(TileCoord::new(0, 0, 0).unwrap().archive_id(), 0);
    assert_eq!(TileCoord::new(0, 0, 1).unwrap().archive_id(), 1);
    assert_eq!(TileCoord::new(0, 0, 2).unwrap().archive_id(), 5);
    let mut ids: Vec<u64> = Vec::new();
    for x in 0..2 {
        for y in 0..2 {
            ids.push(TileCoord::new(x, y, 1).unwrap().archive_id());
        }
    }
    ids.sort();
    assert_eq!(ids, vec![1, 2, 3, 4]);
}

#[test]
fn to_tiles_clips_and_orders_rows() {
    assert_eq!(to_tiles((5, 3), (7, 1), 2), (3, 1, 3, 3));
    assert_eq!(to_tiles((0, 1), (1, 0), 1), (0, 0, 1, 1));
    assert_eq!(to_tiles((u32::MAX, 0), (u32::MAX, 0), 0), (0, 0, 0, 0));
}

#[test]
fn plan_covers_each_zoom_rectangle() {
    let tiles = plan_tiles(&vec![0, 1], &vec![((0, 0), (0, 0)), ((0, 1), (1, 0))]);
    assert_eq!(
        triples(&tiles),
        vec![(0, 0, 0), (0, 0, 1), (0, 1, 1), (1, 0, 1), (1, 1, 1)]
    );
}

#[test]
fn planned_tiles_stay_in_grid() {
    let tiles = plan_tiles(&vec![2, 3], &vec![((2, 9), (40, 0)), ((7, 7), (9, 9))]);
    assert!(!tiles.is_empty());
    for t in &tiles {
        let side = 1u64 << t.z();
        assert!((t.x() as u64) < side && (t.y() as u64) < side);
    }
    // zoom 2: x in [2, 3], y in [0, 3]; zoom 3: the single tile (7, 7)
    assert_eq!(tiles.len(), 8 + 1);
}

#[test]
fn plan_includes_boundary_tiles() {
    let tiles = triples(&plan_tiles(&vec![3], &vec![((1, 6), (4, 2))]));
    for x in 1..=4 {
        for y in 2..=6 {
            assert!(tiles.contains(&(x, y, 3)));
        }
    }
    assert_eq!(tiles.len(), 4 * 5);
}

#[test]
fn priority_descending_by_key() {
    assert_eq!(priority_order(&vec![5, 10]), vec![1, 0]);
    assert_eq!(priority_order(&vec![3, 9, 1, 9]), vec![3, 1, 0, 2]);
}

#[test]
fn priority_ties_reverse_input_order() {
    assert_eq!(priority_order(&vec![7, 7]), vec![1, 0]);
    assert_eq!(priority_order(&vec![2, 2, 2]), vec![2, 1, 0]);
    assert_eq!(priority_order(&vec![]), Vec::<usize>::new());
}

#[test]
fn selection_orders_by_priority() {
    let cands = vec![cand(Some(5), true, 10), cand(Some(10), true, 10)];
    let s = select_features(&cands, true, Some(1000));
    assert_eq!(s.kept, vec![1, 0]);
    assert!(!s.truncated);
}

#[test]
fn selection_missing_key_counts_as_zero() {
    let cands = vec![cand(None, true, 1), cand(Some(0), true, 1), cand(Some(1), true, 1)];
    let s = select_features(&cands, true, None);
    assert_eq!(s.order, vec![2, 1, 0]);
    assert_eq!(s.kept, vec![2, 1, 0]);
}

#[test]
fn selection_keeps_input_order_without_priority() {
    let cands = vec![cand(Some(1), true, 3), cand(Some(9), true, 3)];
    let s = select_features(&cands, false, None);
    assert_eq!(s.order, vec![0, 1]);
    assert_eq!(s.kept, vec![0, 1]);
}

#[test]
fn budget_boundary_keeps_the_crossing_feature() {
    // The first two fit in 25 bytes, the third takes the sum to 30.
    let cands = vec![
        cand(None, true, 10),
        cand(None, true, 10),
        cand(None, true, 10),
        cand(None, true, 10),
    ];
    let s = select_features(&cands, false, Some(25));
    assert_eq!(s.kept, vec![0, 1, 2]);
    assert!(s.truncated);
}

#[test]
fn budget_reached_exactly_is_not_exceeded() {
    let cands = vec![cand(None, true, 10), cand(None, true, 15)];
    let s = select_features(&cands, false, Some(25));
    assert_eq!(s.kept, vec![0, 1]);
    assert!(!s.truncated);
}

#[test]
fn features_without_inside_vertex_are_excluded() {
    // The second line crosses the tile but has no vertex inside it.
    let cands = vec![cand(None, true, 4), cand(None, false, 4), cand(None, true, 4)];
    let s = select_features(&cands, false, None);
    assert_eq!(s.kept, vec![0, 2]);
    // An excluded feature does not count against the budget.
    let s = select_features(&cands, false, Some(8));
    assert_eq!(s.kept, vec![0, 2]);
    assert!(!s.truncated);
}

#[test]
fn empty_tile_keeps_nothing() {
    let s = select_features(&vec![cand(Some(3), false, 4)], true, Some(1));
    assert!(s.kept.is_empty());
    assert!(!s.truncated);
}

#[test]
fn bbox_starts_empty_and_takes_extent() {
    let mut b = BBox::empty();
    assert!(b.is_empty());
    b.add(&vec![(5, -3), (-2, 8)]);
    b.add(&vec![(1, 10)]);
    assert!(!b.is_empty());
    assert_eq!((b.min_lon(), b.min_lat(), b.max_lon(), b.max_lat()), (-2, -3, 5, 10));
    b.add(&vec![]);
    assert_eq!((b.min_lon(), b.min_lat(), b.max_lon(), b.max_lat()), (-2, -3, 5, 10));
}

fn feature(line: Option<Vec<(i64, i64)>>, keys: &[&str]) -> FeatureInfo {
    FeatureInfo {
        has_geometry: true,
        line,
        attribute_keys: keys.iter().map(|k| k.to_string()).collect(),
    }
}

#[test]
fn load_counts_boxes_and_lists_keys() {
    let features = vec![
        feature(Some(vec![(0, 0), (4, 2)]), &["count", "name"]),
        feature(None, &["kind"]),
        feature(Some(vec![(-1, 7)]), &["name", "count", "kind"]),
    ];
    let s = load_features(&features).unwrap();
    assert_eq!(s.feature_count, 3);
    let b = s.bbox;
    assert_eq!((b.min_lon(), b.min_lat(), b.max_lon(), b.max_lat()), (-1, 0, 4, 7));
    let mut keys: Vec<String> = s.fields.keys().clone();
    keys.sort();
    assert_eq!(keys, vec!["count".to_string(), "kind".to_string(), "name".to_string()]);
}

#[test]
fn load_ignores_non_line_geometry_for_bbox() {
    let s = load_features(&vec![feature(None, &[])]).unwrap();
    assert_eq!(s.feature_count, 1);
    assert!(s.bbox.is_empty());
}

#[test]
fn load_rejects_missing_geometry() {
    let mut bad = feature(Some(vec![(0, 0)]), &[]);
    bad.has_geometry = false;
    let features = vec![feature(Some(vec![(1, 1)]), &[]), bad];
    assert_eq!(load_features(&features).err(), Some(LoadError::MissingGeometry(1)));
}

#[test]
fn zoom_bounds_are_first_and_last() {
    let o = Options {
        layer_name: "layer1".to_string(),
        sort_by_key: None,
        zoom_levels: vec![0, 1, 2, 5],
        limit_size_bytes: None,
    };
    assert_eq!(o.zoom_bounds(), (0, 5));
}

#[test]
fn two_features_over_zoom_zero_and_one() {
    // Feature 0 lies in the west half of the world, feature 1 in the north-east quarter.
    let tiles = plan_tiles(&vec![0, 1], &vec![((0, 0), (0, 0)), ((0, 1), (1, 0))]);
    assert_eq!(tiles.len(), 5);
    let inside = |f: usize, t: &TileCoord| -> bool {
        match (f, t.z(), t.x(), t.y()) {
            (_, 0, _, _) => true,
            (0, 1, 0, _) => true,
            (1, 1, 1, 0) => true,
            _ => false,
        }
    };
    let mut built: Vec<((u32, u32, u32), Vec<usize>)> = Vec::new();
    for t in &tiles {
        let cands: Vec<Candidate> = (0..2).map(|f| cand(None, inside(f, t), 20)).collect();
        let s = select_features(&cands, false, Some(1 << 20));
        assert!(!s.truncated);
        if !s.kept.is_empty() {
            built.push(((t.x(), t.y(), t.z()), s.kept));
        }
    }
    built.sort();
    assert_eq!(
        built,
        vec![
            ((0, 0, 0), vec![0, 1]),
            ((0, 0, 1), vec![0]),
            ((0, 1, 1), vec![0]),
            ((1, 0, 1), vec![1]),
        ]
    );
}

#[test]
fn selection_is_repeatable() {
    let cands = vec![
        cand(Some(4), true, 7),
        cand(Some(9), false, 7),
        cand(Some(4), true, 7),
        cand(None, true, 7),
    ];
    let a = select_features(&cands, true, Some(10));
    let b = select_features(&cands, true, Some(10));
    assert_eq!((a.order.clone(), a.kept.clone(), a.truncated), (b.order, b.kept, b.truncated));
    assert_eq!(a.order, vec![1, 2, 0, 3]);
    assert_eq!(a.kept, vec![2, 0]);
    assert!(a.truncated);
}
