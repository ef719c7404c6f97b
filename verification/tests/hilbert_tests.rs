use pmtiles::error::PMTilesError;
use pmtiles::hilbert::{id_to_zxy, rotate, tiles_per_level, zxy_to_tile_id};

#[test]
fn test_tiles_per_level_identity() {
    // TILES_PER_LEVEL[z] == (4^z - 1) / 3
    for z in 0..=26u64 {
        let expected = (4u64.pow(z as u32) - 1) / 3;
        assert_eq!(tiles_per_level(z), expected);
    }
    assert_eq!(tiles_per_level(26), 1501199875790165);
}

#[test]
fn test_zxy_to_tile_id_low_zooms() {
    assert_eq!(zxy_to_tile_id(0, 0, 0).unwrap(), 0);
    // zoom 1 walks (0,0) (0,1) (1,1) (1,0)
    assert_eq!(zxy_to_tile_id(1, 0, 0).unwrap(), 1);
    assert_eq!(zxy_to_tile_id(1, 0, 1).unwrap(), 2);
    assert_eq!(zxy_to_tile_id(1, 1, 1).unwrap(), 3);
    assert_eq!(zxy_to_tile_id(1, 1, 0).unwrap(), 4);
    // zoom 2 starts right after
    assert_eq!(zxy_to_tile_id(2, 0, 0).unwrap(), 5);
    assert_eq!(zxy_to_tile_id(2, 3, 0).unwrap(), 20);
}

#[test]
fn test_zxy_rejects_out_of_bounds() {
    assert!(matches!(
        zxy_to_tile_id(27, 0, 0),
        Err(PMTilesError::OutOfBoundsZ())
    ));
    assert!(matches!(
        zxy_to_tile_id(2, 4, 0),
        Err(PMTilesError::OutOfBounds())
    ));
    assert!(matches!(
        zxy_to_tile_id(2, 0, 4),
        Err(PMTilesError::OutOfBounds())
    ));
    assert!(matches!(
        zxy_to_tile_id(0, 1, 0),
        Err(PMTilesError::OutOfBounds())
    ));
}

#[test]
fn test_hilbert_round_trip() {
    let cases: Vec<(u64, u64, u64)> = vec![
        (0, 0, 0),
        (1, 1, 0),
        (2, 3, 0),
        (3, 5, 2),
        (7, 100, 27),
        (14, 9325, 4732),
        (14, 0, 0),
        (14, 16383, 16383),
        (26, 0, 0),
        (26, 67108863, 67108863),
        (26, 12345678, 54321),
    ];
    for (z, x, y) in cases {
        let id = zxy_to_tile_id(z, x, y).unwrap();
        let (bz, bx, by) = id_to_zxy(id).unwrap();
        assert_eq!((bz, bx, by), (z, x, y));
    }
}

#[test]
fn test_id_to_zxy_walks_every_cell_at_low_zooms() {
    // the first 1 + 4 + 16 + 64 ids decode to distinct valid cells and back
    let mut seen: Vec<(u64, u64, u64)> = Vec::new();
    for id in 0..85u64 {
        let t = id_to_zxy(id).unwrap();
        assert!(!seen.contains(&t));
        seen.push(t);
        assert_eq!(zxy_to_tile_id(t.0, t.1, t.2).unwrap(), id);
    }
}

#[test]
fn test_id_to_zxy_rejects_beyond_deepest_zoom() {
    // ids from tiles_per_level(27) onward lie past zoom 26
    let limit = 4 * tiles_per_level(26) + 1;
    assert!(id_to_zxy(limit).is_err());
    assert!(id_to_zxy(u64::MAX).is_err());
    assert!(id_to_zxy(limit - 1).is_ok());
}

#[test]
fn test_rotate() {
    // lower-left quadrant: transpose
    let mut x: i64 = 3;
    let mut y: i64 = 5;
    rotate(8, &mut x, &mut y, 0, 0);
    assert_eq!((x, y), (5, 3));
    // lower-right quadrant: reflect, then transpose
    let mut x: i64 = 3;
    let mut y: i64 = 5;
    rotate(8, &mut x, &mut y, 1, 0);
    assert_eq!((x, y), (2, 4));
    // upper quadrants: unchanged
    let mut x: i64 = 3;
    let mut y: i64 = 5;
    rotate(8, &mut x, &mut y, 0, 1);
    assert_eq!((x, y), (3, 5));
}
