use claimlands::board::{Board, GraphBoard};
use claimlands::level::{Level, LevelError};
use claimlands::terrain::smooth_coast;
use claimlands::scenery::cover_zones;
use claimlands::tile::{Cover, Terrain, TileId, TileState, WorldSnapshot};

fn tetrahedron() -> GraphBoard {
    GraphBoard::from_triangles(4, &[[0, 1, 2], [0, 2, 3], [0, 3, 1], [1, 3, 2]])
}

fn ids(v: &[u32]) -> Vec<TileId> {
    v.iter().map(|&i| TileId(i)).collect()
}

#[test]
fn triangle_board_lists_neighbours_in_first_seen_order() {
    let b = tetrahedron();
    assert_eq!(b.tile_count(), 4);
    assert_eq!(b.neighbors(TileId(0)), ids(&[1, 2, 3]).as_slice());
    assert_eq!(b.neighbors(TileId(1)), ids(&[2, 0, 3]).as_slice());
    assert_eq!(b.neighbors(TileId(2)), ids(&[0, 1, 3]).as_slice());
    assert_eq!(b.neighbors(TileId(3)), ids(&[0, 2, 1]).as_slice());
}

#[test]
fn triangle_board_is_symmetric() {
    let b = tetrahedron();
    for a in 0..4u32 {
        for n in b.neighbors(TileId(a)) {
            assert!(b.neighbors(*n).contains(&TileId(a)));
        }
    }
}

#[test]
fn lone_islet_sinks() {
    let b = tetrahedron();
    assert_eq!(smooth_coast(&b, &[0, -1, -1, -1], &[3, 3, 3, 3]), vec![-1, -1, -1, -1]);
}

#[test]
fn lone_puddle_fills() {
    let b = tetrahedron();
    assert_eq!(smooth_coast(&b, &[0, 0, 0, -1], &[3, 3, 3, 3]), vec![0, 0, 0, 0]);
}

#[test]
fn smoothing_reads_the_map_before_the_pass() {
    let b = tetrahedron();
    assert_eq!(smooth_coast(&b, &[0, 0, -1, -1], &[3, 3, 3, 3]), vec![-1, -1, 0, 0]);
}

#[test]
fn try_parse_reads_ordinary_lines() {
    let l = Level::try_parse("CL1;n=2").expect("readable").expect("valid");
    assert_eq!(l.frequency, 2);
    assert_eq!(Level::try_parse("CL1;n=2"), Some(Level::parse("CL1;n=2")));
}

#[test]
fn try_parse_declines_a_non_ascii_ai_property() {
    assert_eq!(Level::try_parse("CL1;n=2;ai=Y:é"), None);
}

#[test]
fn try_parse_reports_errors_before_the_ai_field() {
    assert_eq!(
        Level::try_parse("CL0;ai=Y:é"),
        Some(Err(LevelError::Version("CL0".to_string())))
    );
}

fn forest_path() -> (GraphBoard, WorldSnapshot) {
    let b = GraphBoard::from_edges(5, &[(0, 1), (1, 2), (2, 3), (3, 4)]);
    let forest = TileState {
        terrain: Terrain::Land,
        cover: Cover::Forest,
        ..TileState::default()
    };
    let sea_forest = TileState {
        terrain: Terrain::Sea,
        cover: Cover::Forest,
        ..TileState::default()
    };
    let w = WorldSnapshot {
        frequency: 2,
        seed: 0,
        tiles: vec![forest, forest, TileState::land(), forest, sea_forest],
    };
    (b, w)
}

#[test]
fn zones_follow_connected_runs() {
    let (b, w) = forest_path();
    let z = cover_zones(&b, &w, Cover::Forest, |_, _| true);
    assert_eq!(z.zones, vec![ids(&[0, 1]), ids(&[3])]);
    assert_eq!(z.zone_of, vec![0, 0, -1, 1, -1]);
    assert_eq!(z.total, 3);
}

#[test]
fn zones_stop_where_near_refuses() {
    let (b, w) = forest_path();
    let z = cover_zones(&b, &w, Cover::Forest, |j, _| j != TileId(1));
    assert_eq!(z.zones, vec![ids(&[0]), ids(&[1]), ids(&[3])]);
    assert_eq!(z.zone_of, vec![0, 1, -1, 2, -1]);
    assert_eq!(z.total, 3);
}

#[test]
fn zones_of_an_absent_cover_are_empty() {
    let (b, w) = forest_path();
    let z = cover_zones(&b, &w, Cover::Town, |_, _| true);
    assert!(z.zones.is_empty());
    assert_eq!(z.zone_of, vec![-1; 5]);
    assert_eq!(z.total, 0);
}

/// The twelve-tile board of an icosahedron; the angular limit is the caller's, so these zones
/// accept every neighbour.
fn icosahedron_board() -> GraphBoard {
    GraphBoard::from_triangles(
        12,
        &[
            [0, 11, 5],
            [0, 5, 1],
            [0, 1, 7],
            [0, 7, 10],
            [0, 10, 11],
            [1, 5, 9],
            [5, 11, 4],
            [11, 10, 2],
            [10, 7, 6],
            [7, 1, 8],
            [3, 9, 4],
            [3, 4, 2],
            [3, 2, 6],
            [3, 6, 8],
            [3, 8, 9],
            [4, 9, 5],
            [2, 4, 11],
            [6, 2, 10],
            [8, 6, 7],
            [9, 8, 1],
        ],
    )
}

fn land_world(count: usize, covers: &[(usize, Cover)]) -> WorldSnapshot {
    let mut snapshot = WorldSnapshot {
        frequency: 3,
        seed: 7,
        tiles: vec![
            TileState {
                terrain: Terrain::Land,
                ..TileState::default()
            };
            count
        ],
    };
    for &(i, c) in covers {
        snapshot.tiles[i].cover = c;
    }
    snapshot
}

#[test]
fn zones_are_connected_runs_of_one_cover() {
    let b = icosahedron_board();
    let snapshot = land_world(12, &[(0, Cover::Field)]);
    let z = cover_zones(&b, &snapshot, Cover::Field, |_, _| true);
    assert_eq!(z.total, 1);
    assert_eq!(z.zones.len(), 1);
    assert_eq!(z.zones[0], vec![TileId(0)]);
    assert_eq!(z.zone_of[0], 0);
    assert!(z.zone_of[1] < 0, "a tile with no field is in no zone");

    // A tile and one of its neighbours merge; a far tile does not.
    let near = b.neighbors(TileId(0))[0];
    let far = (0..12u32)
        .map(TileId)
        .find(|&id| {
            id != TileId(0)
                && id != near
                && !b.neighbors(TileId(0)).contains(&id)
                && !b.neighbors(near).contains(&id)
        })
        .unwrap();
    let snapshot = land_world(
        12,
        &[
            (0, Cover::Field),
            (near.index(), Cover::Field),
            (far.index(), Cover::Field),
        ],
    );
    let z = cover_zones(&b, &snapshot, Cover::Field, |_, _| true);
    assert_eq!(z.total, 3);
    assert!(z.zones.len() >= 2, "the far tile starts its own zone");
    assert_eq!(z.zone_of[0], z.zone_of[near.index()], "neighbours merge");
}

#[test]
fn sea_tiles_never_join_a_zone() {
    let b = icosahedron_board();
    let mut snapshot = land_world(12, &[(0, Cover::Field)]);
    snapshot.tiles[0].terrain = Terrain::Sea;
    let z = cover_zones(&b, &snapshot, Cover::Field, |_, _| true);
    assert_eq!(z.total, 0);
    assert!(z.zones.is_empty());
}

#[test]
fn zones_list_tiles_in_fill_order() {
    let b = GraphBoard::from_edges(4, &[(0, 2), (0, 1), (1, 3)]);
    let w = WorldSnapshot {
        frequency: 2,
        seed: 0,
        tiles: vec![
            TileState {
                terrain: Terrain::Land,
                cover: Cover::Town,
                ..TileState::default()
            };
            4
        ],
    };
    let z = cover_zones(&b, &w, Cover::Town, |_, _| true);
    assert_eq!(z.zones, vec![ids(&[0, 2, 1, 3])]);
    assert_eq!(z.zone_of, vec![0, 0, 0, 0]);
}
