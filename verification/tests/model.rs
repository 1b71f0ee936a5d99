use claimlands::board::{Board, GraphBoard};
use claimlands::faction::Faction;
use claimlands::image::{hex_rgb, RgbaImage};
use claimlands::noise::{hash3_bits, imul, ushr, Mulberry32};
use claimlands::tile::{Cover, Terrain, TileId, TileState, UnitKind, WorldSnapshot};
use claimlands::world::{frequency_is_valid, tile_count};

#[test]
fn letters_and_indices_round_trip() {
    for (i, f) in Faction::ALL.iter().enumerate() {
        assert_eq!(f.index(), i);
        assert_eq!(Faction::from_index(i), Some(*f));
        assert_eq!(Faction::from_letter(f.letter()), Some(*f));
    }
    assert_eq!(Faction::from_index(4), None);
    assert_eq!(Faction::from_letter('N'), None);
}

#[test]
fn faction_names_and_letters() {
    assert_eq!(Faction::Red.name(), "Red");
    assert_eq!(Faction::Blue.name(), "Blue");
    assert_eq!(Faction::Green.letter(), 'G');
    assert_eq!(Faction::Yellow.letter(), 'Y');
}

#[test]
fn tile_counts_match_the_prototype_slider() {
    assert_eq!(tile_count(2), 42);
    assert_eq!(tile_count(8), 642);
    assert_eq!(tile_count(12), 1442);
    assert!(frequency_is_valid(2) && frequency_is_valid(12));
    assert!(!frequency_is_valid(1) && !frequency_is_valid(13));
}

#[test]
fn put_get_round_trip() {
    let mut img = RgbaImage::new(3, 2);
    img.put(2, 1, [1, 2, 3, 4]);
    assert_eq!(img.get(2, 1), [1, 2, 3, 4]);
    assert_eq!(img.get(0, 0), [0, 0, 0, 0]);
    assert_eq!(img.data.len(), 24);
}

#[test]
fn put_writes_only_its_own_texel() {
    let mut img = RgbaImage::new(2, 2);
    img.put(1, 0, [9, 8, 7, 6]);
    assert_eq!(&img.data[4..8], &[9, 8, 7, 6]);
    assert_eq!(img.get(0, 1), [0, 0, 0, 0]);
    assert_eq!(img.get(1, 1), [0, 0, 0, 0]);
}

#[test]
fn hex_parses_prototype_palette() {
    assert_eq!(hex_rgb("#3f7d34"), [0x3f, 0x7d, 0x34]);
    assert_eq!(hex_rgb("#ffffff"), [255, 255, 255]);
}

#[test]
fn hex_reads_upper_case_digits() {
    assert_eq!(hex_rgb("#A0b1C2"), [0xa0, 0xb1, 0xc2]);
    assert_eq!(hex_rgb("#000000"), [0, 0, 0]);
}

#[test]
fn flower_has_hex_centre_and_ring() {
    let b = GraphBoard::flower();
    assert_eq!(b.tile_count(), 7);
    assert_eq!(b.neighbors(TileId(0)).len(), 6);
    for i in 1..=6 {
        assert_eq!(b.neighbors(TileId(i)).len(), 3, "ring tile {i}");
    }
    assert_eq!(b.ids().len(), 7);
}

#[test]
fn edges_go_both_ways_in_the_order_given() {
    let b = GraphBoard::from_edges(4, &[(0, 1), (2, 1), (1, 3)]);
    assert_eq!(b.neighbors(TileId(1)), &[TileId(0), TileId(2), TileId(3)]);
    assert_eq!(b.neighbors(TileId(0)), &[TileId(1)]);
    assert_eq!(b.neighbors(TileId(3)), &[TileId(1)]);
    assert_eq!(b.ids(), vec![TileId(0), TileId(1), TileId(2), TileId(3)]);
}

#[test]
fn letters_round_trip() {
    for c in [Cover::Empty, Cover::Field, Cover::Forest, Cover::Town, Cover::Capital] {
        assert_eq!(Cover::from_letter(c.letter()), Some(c));
    }
    for u in [UnitKind::Pawn, UnitKind::Warrior, UnitKind::Knight] {
        assert_eq!(UnitKind::from_letter(u.letter()), Some(u));
    }
    for t in [Terrain::Land, Terrain::Sea] {
        assert_eq!(Terrain::from_letter(t.letter()), Some(t));
        assert_eq!(Terrain::from_level(t.level()), t);
    }
}

#[test]
fn buildings_are_towns_and_capitals() {
    assert!(Cover::Town.is_building());
    assert!(Cover::Capital.is_building());
    assert!(!Cover::Field.is_building());
    assert!(!Cover::Empty.is_building());
    assert_eq!(Cover::Forest.name(), "Forest");
}

#[test]
fn snapshot_validation_catches_size_and_sea_rules() {
    let mut w = WorldSnapshot::new(2, 0);
    assert_eq!(w.tiles.len(), 42);
    assert!(w.validate().is_ok());
    w.tile_mut(TileId(3)).cover = Cover::Forest;
    assert!(w.validate().unwrap_err().contains("#3"));
    let mut land = TileState::land();
    land.cover = Cover::Town;
    assert!(land.validate().is_ok(), "neutral villages are allowed");
    land.cover = Cover::Capital;
    assert!(land.validate().is_err());
    land.owner = Some(Faction::Green);
    assert!(land.validate().is_ok());
    w.tiles.pop();
    assert!(w.validate().unwrap_err().contains("needs 42"));
}

#[test]
fn validation_messages_name_the_rule() {
    let mut sea = TileState::default();
    sea.cover = Cover::Forest;
    assert_eq!(sea.validate(), Err("sea tile carries cover Forest".to_string()));
    let mut sea = TileState::default();
    sea.owner = Some(Faction::Red);
    assert_eq!(sea.validate(), Err("sea tile has an owner".to_string()));
    let mut land = TileState::land();
    land.can_build = true;
    assert_eq!(land.validate(), Err("can_build set on a non-capital".to_string()));
    let mut w = WorldSnapshot::new(2, 0);
    w.tiles[5].owner = Some(Faction::Blue);
    assert_eq!(w.validate(), Err("tile #5: sea tile has an owner".to_string()));
    w.tiles.truncate(40);
    assert_eq!(w.validate(), Err("frequency 2 needs 42 tiles, snapshot has 40".to_string()));
}

#[test]
fn snapshot_ids_and_levels() {
    let mut w = WorldSnapshot::new(2, 7);
    w.tiles[1].terrain = Terrain::Land;
    assert_eq!(w.ids().len(), 42);
    assert_eq!(w.ids()[41], TileId(41));
    let levels = w.levels();
    assert_eq!(levels[0], -1);
    assert_eq!(levels[1], 0);
    assert_eq!(*w.tile(TileId(1)), TileState::land());
}

#[test]
fn js_integer_operations() {
    assert_eq!(imul(0x7fff_ffff, 2), -2);
    assert_eq!(imul(-3, 5), -15);
    assert_eq!(ushr(-1, 0), 4_294_967_295);
    assert_eq!(ushr(-1, 28), 15);
    assert_eq!(ushr(-16, 36), 0x0fff_ffff);
}

#[test]
fn sequence_is_deterministic_and_bounded() {
    let mut a = Mulberry32::from_i32(31676);
    let mut b = Mulberry32::from_i32(31676);
    for _ in 0..100 {
        let x = f64::from(a.next_u32()) / 4_294_967_296.0;
        assert_eq!(x, f64::from(b.next_u32()) / 4_294_967_296.0);
        assert!((0.0..1.0).contains(&x));
    }
}

#[test]
fn mulberry32_first_outputs() {
    let mut g = Mulberry32::from_i32(1);
    assert_eq!(g.next_u32(), 2_693_262_067);
    let mut z = Mulberry32::from_i32(0);
    assert_eq!(z.next_u32(), 1_144_304_738);
}

#[test]
fn lattice_hash_matches_known_values() {
    assert_eq!(hash3_bits(0, 0, 0), 0);
    assert_eq!(hash3_bits(1, 2, 3), 638_386_319);
    assert_eq!(hash3_bits(-5, 7, 0), 2_229_199_536);
    assert_eq!(hash3_bits(1, 0, 0), 2_182_377_942);
}

#[test]
fn land_count_counts_land_tiles() {
    let w = WorldSnapshot {
        frequency: 2,
        seed: 0,
        tiles: vec![TileState::land(), TileState::default(), TileState::land()],
    };
    assert_eq!(w.land_count(), 2);
    assert_eq!(WorldSnapshot::new(2, 0).land_count(), 0);
}
