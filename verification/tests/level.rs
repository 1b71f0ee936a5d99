use claimlands::faction::Faction;
use claimlands::level::{
    AiSpec, Level, LevelError, TileDiff, Victory, DEFAULT_FOREST_PERCENT, DEFAULT_HOSTILITY, DEFAULT_INTELLIGENCE,
    DEFAULT_LAND_PERCENT, FORMAT_VERSION,
};
use claimlands::tile::{Cover, Terrain, UnitKind};

const SAMPLE: &str = "CL1;n=8;seed=1234;players=3;human=R;ai=Y:h60,i2;ai=G:h30,i1;land=42;forest=10;victory=majority:60,3;tiles=12LTRp,13LFR,14LCY,40S,77-90L";

#[test]
fn sample_round_trips() {
    let level = Level::parse(SAMPLE).unwrap();
    assert_eq!(level.frequency, 8);
    assert_eq!(level.players, 3);
    assert_eq!(level.ai.len(), 2);
    assert_eq!(level.tiles.len(), 5);
    assert_eq!(
        level.tiles[0],
        TileDiff {
            from: 12,
            to: 12,
            terrain: Some(Terrain::Land),
            cover: Some(Cover::Town),
            owner: Some(Some(Faction::Red)),
            unit: Some(UnitKind::Pawn)
        }
    );
    assert_eq!(
        level.tiles[4],
        TileDiff { from: 77, to: 90, terrain: Some(Terrain::Land), cover: None, owner: None, unit: None }
    );
    assert_eq!(level.to_string(), SAMPLE);
    assert_eq!(Level::parse(&level.to_string()).unwrap(), level);
}

#[test]
fn errors_name_the_problem() {
    assert!(matches!(Level::parse("CL0;n=8"), Err(LevelError::Version(_))));
    assert!(matches!(Level::parse("CL1;seed=1"), Err(LevelError::Missing("n"))));
    assert!(matches!(Level::parse("CL1;n=8;bogus=1"), Err(LevelError::UnknownKey(_))));
    assert!(matches!(Level::parse("CL1;n=8;n=9"), Err(LevelError::DuplicateKey(_))));
    assert!(matches!(Level::parse("CL1;n=13"), Err(LevelError::Value { .. })));
    assert!(matches!(Level::parse("CL1;n=8;tiles=12LL"), Err(LevelError::Tile(..))));
    assert!(matches!(Level::parse("CL1;n=8;tiles=9999L"), Err(LevelError::Invalid(_))));
    assert!(matches!(Level::parse("CL1;n=8;human=R;ai=R:h1,i1"), Err(LevelError::Invalid(_))));
    assert!(matches!(Level::parse("CL1;n=8;players=2;human=G"), Err(LevelError::Invalid(_))));
}

#[test]
fn every_error_carries_its_text() {
    assert_eq!(Level::parse("  CL2;n=8 "), Err(LevelError::Version("CL2".to_string())));
    assert_eq!(Level::parse("CL1;n8"), Err(LevelError::Field("n8".to_string())));
    assert_eq!(Level::parse("CL1;=8"), Err(LevelError::Field("=8".to_string())));
    assert_eq!(Level::parse("CL1;n=8;color=red"), Err(LevelError::UnknownKey("color".to_string())));
    assert_eq!(Level::parse("CL1;seed=1;seed=2"), Err(LevelError::DuplicateKey("seed".to_string())));
    assert_eq!(
        Level::parse("CL1;n=x"),
        Err(LevelError::Value {
            key: "n".to_string(),
            value: "x".to_string(),
            reason: "expected a small integer".to_string()
        })
    );
    assert_eq!(
        Level::parse("CL1;n=8;players=5"),
        Err(LevelError::Value {
            key: "players".to_string(),
            value: "5".to_string(),
            reason: "expected 2..=4".to_string()
        })
    );
    assert_eq!(
        Level::parse("CL1;n=8;human=RR"),
        Err(LevelError::Value {
            key: "human".to_string(),
            value: "RR".to_string(),
            reason: "faction R listed twice".to_string()
        })
    );
    assert_eq!(
        Level::parse("CL1;n=8;victory=majority:0,3"),
        Err(LevelError::Value {
            key: "victory".to_string(),
            value: "0".to_string(),
            reason: "expected 1..=100".to_string()
        })
    );
    assert_eq!(
        Level::parse("CL1;n=8;seed=4294967296"),
        Err(LevelError::Value {
            key: "seed".to_string(),
            value: "4294967296".to_string(),
            reason: "expected 0..=4294967295".to_string()
        })
    );
    assert_eq!(
        Level::parse("CL1;n=2;tiles=5-3L"),
        Err(LevelError::Tile("5-3L".to_string(), "range start after end".to_string()))
    );
    assert_eq!(Level::parse("CL1;n=2;tiles=7"), Err(LevelError::Tile("7".to_string(), "entry changes nothing".to_string())));
    assert_eq!(
        Level::parse("CL1;n=2;players=2;tiles=3B"),
        Err(LevelError::Invalid("tile owner B is not in play".to_string()))
    );
    assert_eq!(
        Level::parse("CL1;n=2;human=R;ai=Y:h1;ai=Y:h2"),
        Err(LevelError::Invalid("ai Y listed twice".to_string()))
    );
    assert_eq!(
        Level::parse("CL1;n=2;tiles=40-50L"),
        Err(LevelError::Invalid("tile range 40-50 outside 0..42".to_string()))
    );
}

#[test]
fn debug_forms_appear_in_messages() {
    assert_eq!(
        Level::parse("CL1;n=2;tiles=3Lx"),
        Err(LevelError::Tile("3Lx".to_string(), "unknown letter 'x'".to_string()))
    );
    assert_eq!(
        Level::parse("CL1;n=2;ai=Y:z5"),
        Err(LevelError::Value {
            key: "ai".to_string(),
            value: "Y:z5".to_string(),
            reason: "unknown AI property \"z5\"".to_string()
        })
    );
}

#[test]
fn ai_entries_read_their_parts() {
    let level = Level::parse("CL1;n=2;players=4;human=B;ai=R:i3;ai=G:,h7,").unwrap();
    assert_eq!(level.ai[0], AiSpec { faction: Faction::Red, hostility: DEFAULT_HOSTILITY, intelligence: 3 });
    assert_eq!(level.ai[1], AiSpec { faction: Faction::Green, hostility: 7, intelligence: DEFAULT_INTELLIGENCE });
    assert_eq!(
        Level::parse("CL1;n=2;ai=Y:h101"),
        Err(LevelError::Value {
            key: "ai".to_string(),
            value: "Y:h101".to_string(),
            reason: "h expects 0..=100".to_string()
        })
    );
    assert_eq!(
        Level::parse("CL1;n=2;ai=YY:h1"),
        Err(LevelError::Value {
            key: "ai".to_string(),
            value: "YY:h1".to_string(),
            reason: "expected one faction letter before ':'".to_string()
        })
    );
}

#[test]
fn defaults_fill_what_the_line_leaves_out() {
    let level = Level::parse("CL1;n=3").unwrap();
    assert_eq!(level, Level { frequency: 3, ..Level::default() });
    assert_eq!(level.land_percent, DEFAULT_LAND_PERCENT);
    assert_eq!(level.forest_percent, DEFAULT_FOREST_PERCENT);
    assert_eq!(level.victory, Victory::Majority { percent: 60, turns: 3 });
    assert_eq!(level.humans, vec![Faction::Red]);
    assert_eq!(FORMAT_VERSION, "CL1");
}

#[test]
fn canonical_form_reads_back() {
    let level = Level {
        name: Some("Isle_2.b-c".to_string()),
        frequency: 4,
        seed: 0,
        players: 4,
        humans: vec![Faction::Blue, Faction::Red],
        ai: vec![AiSpec { faction: Faction::Green, hostility: 100, intelligence: 0 }],
        land_percent: 0,
        forest_percent: 100,
        victory: Victory::Majority { percent: 100, turns: 1 },
        tiles: vec![
            TileDiff { from: 0, to: 161, terrain: Some(Terrain::Land), cover: None, owner: None, unit: None },
            TileDiff { from: 3, to: 3, terrain: None, cover: None, owner: Some(None), unit: Some(UnitKind::Knight) },
        ],
    };
    let line = level.to_string();
    assert_eq!(
        line,
        "CL1;name=Isle_2.b-c;n=4;seed=0;players=4;human=BR;ai=G:h100,i0;land=0;forest=100;victory=majority:100,1;tiles=0-161L,3Nk"
    );
    assert_eq!(Level::parse(&line).unwrap(), level);
    assert_eq!(level.tiles[1].to_string(), "3Nk");
}

#[test]
fn seed_zero_is_all_sea_until_tiles_say_otherwise() {
    let level = Level::parse("CL1;n=2;seed=0;tiles=0-5L,3TR,4CYp,2p").unwrap();
    let w = level.to_snapshot(&[], &[]).unwrap();
    assert_eq!(w.tiles.iter().filter(|t| t.terrain.is_land()).count(), 6);
    assert_eq!(w.tiles[3].cover, Cover::Town);
    assert_eq!(w.tiles[3].owner, Some(Faction::Red));
    assert_eq!(w.tiles[4].cover, Cover::Capital);
    assert_eq!(w.tiles[4].unit.unwrap().owner, Faction::Yellow);
    assert!(w.tiles[2].unit.is_none(), "a unit needs an owner");
    let bad = Level::parse("CL1;n=2;seed=0;tiles=0L,0C").unwrap();
    assert!(matches!(bad.to_snapshot(&[], &[]), Err(LevelError::Invalid(m)) if m.contains("capital")));
}

#[test]
fn generated_terrain_and_cover_come_first() {
    let level = Level::parse("CL1;n=2;seed=9;tiles=1S").unwrap();
    let mut levels = vec![-1; 42];
    let mut cover = vec![Cover::Empty; 42];
    levels[0] = 0;
    levels[1] = 0;
    cover[1] = Cover::Forest;
    cover[0] = Cover::Field;
    let w = level.to_snapshot(&levels, &cover).unwrap();
    assert_eq!(w.tiles[0].terrain, Terrain::Land);
    assert_eq!(w.tiles[0].cover, Cover::Field);
    assert_eq!(w.tiles[1].terrain, Terrain::Sea, "a sea diff clears the cover");
    assert_eq!(w.tiles[1].cover, Cover::Empty);
    assert_eq!(w.seed, 9);
}

#[test]
fn generated_world_is_valid_and_ai_defaults_fill_in() {
    let level = Level::parse("CL1;n=4;seed=31676;players=4;human=RB").unwrap();
    assert_eq!(level.ai_for(Faction::Red), None);
    assert_eq!(level.ai_for(Faction::Yellow).unwrap().hostility, DEFAULT_HOSTILITY);
    assert_eq!(level.factions().len(), 4);
}

#[test]
fn validate_names_each_rule() {
    let mut level = Level::default();
    assert_eq!(level.validate(), Ok(()));
    level.frequency = 1;
    assert_eq!(level.validate(), Err(LevelError::Invalid("n=1 outside 2..=12".to_string())));
    level.frequency = 2;
    level.players = 5;
    assert_eq!(level.validate(), Err(LevelError::Invalid("players=5 outside 2..=4".to_string())));
    level.players = 2;
    level.humans.clear();
    assert_eq!(level.validate(), Err(LevelError::Invalid("at least one human faction".to_string())));
    level.humans.push(Faction::Green);
    assert_eq!(
        level.validate(),
        Err(LevelError::Invalid("human G is not among the first 2 factions".to_string()))
    );
    level.humans = vec![Faction::Red];
    level.land_percent = 101;
    assert_eq!(level.validate(), Err(LevelError::Invalid("percentages must be 0..=100".to_string())));
}
