use claimlands::apply::apply;
use claimlands::board::GraphBoard;
use claimlands::command::{Command, Event, PendingRule, RuleError};
use claimlands::faction::Faction;
use claimlands::state::{GameState, Settings, Treasury};
use claimlands::territory::{territories, territory_of};
use claimlands::tile::{Cover, Terrain, TileId, TileState, UnitKind, WorldSnapshot};

/// Seven land tiles: Red owns the centre (capital) and ring tiles 1–3, Yellow owns 4–6 with a
/// capital on 5.
fn two_player_flower() -> (GraphBoard, GameState) {
    let board = GraphBoard::flower();
    let mut world = WorldSnapshot { frequency: 2, seed: 0, tiles: vec![TileState::land(); 7] };
    for i in 0..=3 {
        world.tiles[i].owner = Some(Faction::Red);
    }
    for i in 4..=6 {
        world.tiles[i].owner = Some(Faction::Yellow);
    }
    world.tiles[0].cover = Cover::Capital;
    world.tiles[5].cover = Cover::Capital;
    let state = GameState::new(&world, Settings::default(), 7);
    (board, state)
}

#[test]
fn territories_follow_ownership() {
    let (board, state) = two_player_flower();
    let t = territories(&state, &board);
    assert_eq!(t.len(), 2);
    assert_eq!(t[0].owner, Faction::Red);
    assert_eq!(t[0].capital, Some(TileId(0)));
    assert_eq!(t[0].tiles, vec![TileId(0), TileId(1), TileId(2), TileId(3)]);
    assert_eq!(t[1].capital, Some(TileId(5)));
}

#[test]
fn territories_partition_the_owned_tiles() {
    let (board, mut state) = two_player_flower();
    state.tile_mut(TileId(2)).owner = Some(Faction::Yellow);
    let t = territories(&state, &board);
    let mut seen = vec![0; 7];
    for terr in &t {
        for id in &terr.tiles {
            seen[id.index()] += 1;
            assert_eq!(state.tile(*id).owner, Some(terr.owner));
        }
    }
    assert_eq!(seen, vec![1; 7]);
    let of2 = territory_of(&state, &board, TileId(2)).unwrap();
    assert_eq!(of2.owner, Faction::Yellow);
    assert_eq!(of2.capital, None);
    assert_eq!(of2.tiles, vec![TileId(2)]);
}

#[test]
fn r_eco_01_02_03_end_turn_income() {
    let (board, mut state) = two_player_flower();
    state.tile_mut(TileId(1)).cover = Cover::Field;
    let events = apply(&mut state, &board, Command::EndTurn).unwrap();
    // capital +1/+1, field +2 wheat, two empty tiles +1 wheat each
    assert!(events.contains(&Event::TreasuryChanged { capital: TileId(0), gold: 1, wheat: 5 }));
    assert_eq!(state.treasuries[&0], Treasury { gold: 6, wheat: 10 });
    assert_eq!(state.treasuries[&5], Treasury { gold: 5, wheat: 5 }, "yellow earns on its own turn");
    assert_eq!(state.current, Faction::Yellow);
    assert_eq!(state.turn, 0);
    apply(&mut state, &board, Command::EndTurn).unwrap();
    assert_eq!((state.current, state.turn), (Faction::Red, 1));
}

#[test]
fn end_turn_announces_the_next_faction_last() {
    let (board, mut state) = two_player_flower();
    let events = apply(&mut state, &board, Command::EndTurn).unwrap();
    assert_eq!(events.last(), Some(&Event::TurnStarted { faction: Faction::Yellow, turn: 0 }));
    assert_eq!(state.stats.all_time_gold[0], 1);
}

#[test]
fn r_bld_02_field_cost_grows_per_field_in_territory() {
    let (board, mut state) = two_player_flower();
    assert!(apply(&mut state, &board, Command::BuildField { at: TileId(1) }).is_ok());
    assert!(apply(&mut state, &board, Command::BuildField { at: TileId(2) }).is_ok());
    assert_eq!(state.treasuries[&0].gold, 5 - 1 - 2);
    let before = state.clone();
    assert_eq!(apply(&mut state, &board, Command::BuildField { at: TileId(1) }), Err(RuleError::NotEmpty(TileId(1))));
    assert_eq!(apply(&mut state, &board, Command::BuildField { at: TileId(4) }), Err(RuleError::NotOwned(TileId(4))));
    assert_eq!(state, before, "refused commands leave the state untouched");
}

#[test]
fn r_bld_01_town_needs_two_gold_plus_towns() {
    let (board, mut state) = two_player_flower();
    assert!(apply(&mut state, &board, Command::BuildTown { at: TileId(1) }).is_ok());
    assert!(apply(&mut state, &board, Command::BuildTown { at: TileId(2) }).is_ok());
    assert_eq!(state.treasuries[&0].gold, 0);
    assert_eq!(
        apply(&mut state, &board, Command::BuildTown { at: TileId(3) }),
        Err(RuleError::CannotAfford { needed: 4, available: 0 })
    );
}

#[test]
fn build_events_name_the_price_and_the_tile() {
    let (board, mut state) = two_player_flower();
    let events = apply(&mut state, &board, Command::BuildTown { at: TileId(3) }).unwrap();
    assert_eq!(
        events,
        vec![
            Event::TreasuryChanged { capital: TileId(0), gold: -2, wheat: 0 },
            Event::CoverChanged { tile: TileId(3), from: Cover::Empty, to: Cover::Town },
        ]
    );
    assert_eq!(state.tile(TileId(3)).cover, Cover::Town);
}

#[test]
fn r_unit_01_08_09_recruit_and_upgrade_costs() {
    let (board, mut state) = two_player_flower();
    state.treasuries.get_mut(&0).unwrap().gold = 20;
    apply(&mut state, &board, Command::RecruitPawn { at: TileId(1) }).unwrap();
    apply(&mut state, &board, Command::RecruitPawn { at: TileId(2) }).unwrap();
    assert_eq!(state.treasuries[&0].gold, 20 - 1 - 2);
    assert_eq!(apply(&mut state, &board, Command::RecruitPawn { at: TileId(2) }), Err(RuleError::Occupied(TileId(2))));
    apply(&mut state, &board, Command::Upgrade { at: TileId(1) }).unwrap();
    assert_eq!(state.tile(TileId(1)).unit.unwrap().kind, UnitKind::Warrior);
    assert_eq!(state.treasuries[&0].gold, 17 - 1);
    assert_eq!(apply(&mut state, &board, Command::Upgrade { at: TileId(1) }), Err(RuleError::AlreadyActed(TileId(1))));
    apply(&mut state, &board, Command::Upgrade { at: TileId(2) }).unwrap();
    assert_eq!(state.treasuries[&0].gold, 16 - 2, "second warrior costs 1 + 1 veteran");
    apply(&mut state, &board, Command::EndTurn).unwrap();
    apply(&mut state, &board, Command::EndTurn).unwrap();
    apply(&mut state, &board, Command::Upgrade { at: TileId(1) }).unwrap();
    assert_eq!(state.tile(TileId(1)).unit.unwrap().kind, UnitKind::Knight);
}

#[test]
fn upgrades_stop_at_the_knight_and_need_a_unit() {
    let (board, mut state) = two_player_flower();
    state.treasuries.get_mut(&0).unwrap().gold = 100;
    assert_eq!(apply(&mut state, &board, Command::Upgrade { at: TileId(3) }), Err(RuleError::NoUnit(TileId(3))));
    apply(&mut state, &board, Command::RecruitPawn { at: TileId(3) }).unwrap();
    apply(&mut state, &board, Command::Upgrade { at: TileId(3) }).unwrap();
    apply(&mut state, &board, Command::EndTurn).unwrap();
    apply(&mut state, &board, Command::EndTurn).unwrap();
    apply(&mut state, &board, Command::Upgrade { at: TileId(3) }).unwrap();
    apply(&mut state, &board, Command::EndTurn).unwrap();
    apply(&mut state, &board, Command::EndTurn).unwrap();
    assert_eq!(apply(&mut state, &board, Command::Upgrade { at: TileId(3) }), Err(RuleError::MaxRank(TileId(3))));
}

#[test]
fn sea_and_foreign_tiles_are_refused_and_game_over_blocks_everything() {
    let (board, mut state) = two_player_flower();
    state.tile_mut(TileId(3)).terrain = Terrain::Sea;
    state.tile_mut(TileId(3)).owner = None;
    assert_eq!(apply(&mut state, &board, Command::BuildField { at: TileId(3) }), Err(RuleError::NotLand(TileId(3))));
    assert_eq!(apply(&mut state, &board, Command::BuildField { at: TileId(99) }), Err(RuleError::NoSuchTile(TileId(99))));
    state.winner = Some(Faction::Red);
    assert_eq!(apply(&mut state, &board, Command::EndTurn), Err(RuleError::GameOver));
}

#[test]
fn a_territory_without_capital_cannot_pay_and_movement_is_pending() {
    let (board, mut state) = two_player_flower();
    state.tile_mut(TileId(0)).cover = Cover::Empty;
    assert_eq!(apply(&mut state, &board, Command::BuildField { at: TileId(1) }), Err(RuleError::NoCapital(TileId(1))));
    assert_eq!(
        apply(&mut state, &board, Command::MoveUnit { from: TileId(1), to: TileId(2) }),
        Err(RuleError::NotYetImplemented(PendingRule::UnitMovement))
    );
    assert_eq!(PendingRule::UnitMovement.id(), "R-UNIT-04");
    assert_eq!(PendingRule::TurnOrder.id(), "R-TURN-01");
}

#[test]
fn snapshot_marks_actionable_units_and_capitals() {
    let (board, mut state) = two_player_flower();
    apply(&mut state, &board, Command::RecruitPawn { at: TileId(1) }).unwrap();
    let snap = state.snapshot(2, 0);
    assert!(snap.tiles.iter().all(|t| t.validate().is_ok()), "the flower is not a sphere, so only per-tile rules apply");
    assert!(snap.tiles[1].unit.unwrap().can_act);
    assert!(snap.tiles[0].can_build);
    assert!(!snap.tiles[5].can_build, "not yellow's turn");
}

#[test]
fn state_counts_land_owned_tiles_and_living_factions() {
    let (_board, mut state) = two_player_flower();
    assert_eq!(state.land_count(), 7);
    assert_eq!(state.owned_count(Faction::Red), 4);
    assert_eq!(state.owned_count(Faction::Yellow), 3);
    assert_eq!(state.living_factions(), vec![Faction::Red, Faction::Yellow]);
    state.tile_mut(TileId(5)).cover = Cover::Town;
    assert_eq!(state.living_factions(), vec![Faction::Red]);
    assert_eq!(state.ids().len(), 7);
}

#[test]
fn commands_keep_terrain_and_owners_and_touch_only_their_target() {
    let (board, mut state) = two_player_flower();
    let before = state.clone();
    assert!(apply(&mut state, &board, Command::BuildField { at: TileId(2) }).is_ok());
    for i in 0..7u32 {
        let (a, b) = (state.tile(TileId(i)), before.tile(TileId(i)));
        assert_eq!(a.terrain, b.terrain);
        assert_eq!(a.owner, b.owner);
        if i != 2 {
            assert_eq!(a, b);
        }
    }
    assert_eq!(state.tile(TileId(2)).cover, Cover::Field);
    let mid = state.clone();
    assert!(apply(&mut state, &board, Command::EndTurn).is_ok());
    for i in 0..7u32 {
        assert_eq!(state.tile(TileId(i)).terrain, mid.tile(TileId(i)).terrain);
        assert_eq!(state.tile(TileId(i)).owner, mid.tile(TileId(i)).owner);
    }
}
