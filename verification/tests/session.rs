use claimlands::ai::{policy_for, Policy, Profile};
use claimlands::apply::apply;
use claimlands::board::GraphBoard;
use claimlands::command::{Command, PendingRule, RuleError};
use claimlands::faction::Faction;
use claimlands::level::{Level, LevelError};
use claimlands::session::{PlayerKind, Recording, Session, SessionError};
use claimlands::state::{GameState, Settings};
use claimlands::tile::{TileId, TileState, WorldSnapshot};

/// Forty-two tiles, like a frequency-2 sphere, of which `0..=6` form a flower: a centre joined to
/// a ring of six.
fn tiny_board() -> GraphBoard {
    let mut edges = Vec::new();
    for i in 1..=6u32 {
        edges.push((0, i));
        edges.push((i, if i == 6 { 1 } else { i + 1 }));
    }
    GraphBoard::from_edges(42, &edges)
}

const TINY: &str = "CL1;n=2;seed=0;players=2;human=R;ai=Y:h0,i0;tiles=0-6L,0-3N,0CR,1-3ER,5CY,4EY,6EY";

fn tiny() -> Session<GraphBoard> {
    // Red: capital 0 plus tiles 1-3; Yellow (AI): capital 5 plus 4 and 6. Frequency 2 (42 tiles).
    let level = Level::parse(TINY).unwrap();
    Session::start(level, tiny_board(), &[], &[]).unwrap()
}

#[test]
fn undo_restores_the_previous_state() {
    let mut s = tiny();
    let before = s.state().clone();
    s.apply(Command::BuildField { at: TileId(1) }).unwrap();
    assert_ne!(s.state(), &before);
    assert_eq!(s.undo(), Some(Command::BuildField { at: TileId(1) }));
    assert_eq!(s.state(), &before);
    assert_eq!(s.undo(), None);
}

#[test]
fn undo_replays_the_rest_of_the_turn() {
    let mut s = tiny();
    s.apply(Command::BuildField { at: TileId(1) }).unwrap();
    let after_one = s.state().clone();
    s.apply(Command::BuildField { at: TileId(2) }).unwrap();
    assert_eq!(s.undo(), Some(Command::BuildField { at: TileId(2) }));
    assert_eq!(s.state(), &after_one);
    assert_eq!(s.recording().commands, vec![(Faction::Red, Command::BuildField { at: TileId(1) })]);
}

#[test]
fn an_ended_turn_cannot_be_undone() {
    let mut s = tiny();
    s.apply(Command::EndTurn).unwrap();
    assert_eq!(s.undo(), None);
    assert_eq!(s.state().current, Faction::Yellow);
}

#[test]
fn refused_commands_are_not_logged() {
    let mut s = tiny();
    assert_eq!(s.apply(Command::BuildField { at: TileId(5) }), Err(RuleError::NotOwned(TileId(5))));
    assert!(s.recording().commands.is_empty());
}

#[test]
fn replay_reproduces_the_match() {
    let mut s = tiny();
    s.apply(Command::BuildField { at: TileId(1) }).unwrap();
    s.apply(Command::EndTurn).unwrap();
    assert_eq!(s.current_player(), PlayerKind::Ai(Profile { hostility: 0, intelligence: 0 }));
    s.play_ai().unwrap();
    assert_eq!(s.state().current, Faction::Red);
    let rec = s.recording();
    let back: Recording = rec.clone();
    let replayed = Session::replay(&back, tiny_board(), &[], &[]).unwrap();
    assert_eq!(replayed.state(), s.state());
    assert_eq!(replayed.snapshot(), s.snapshot());
}

#[test]
fn a_human_turn_is_not_played_by_the_ai() {
    let mut s = tiny();
    assert_eq!(s.current_player(), PlayerKind::Human);
    assert_eq!(s.play_ai(), None);
    assert_eq!(s.state().current, Faction::Red);
    assert_eq!(s.level().frequency, 2);
}

#[test]
fn replay_reports_the_refused_command() {
    let rec = Recording {
        level: TINY.to_string(),
        commands: vec![(Faction::Red, Command::EndTurn), (Faction::Red, Command::EndTurn)],
    };
    assert!(matches!(
        Session::replay(&rec, tiny_board(), &[], &[]),
        Err(SessionError::Replay {
            index: 1,
            command: Command::EndTurn,
            error: RuleError::NotYetImplemented(PendingRule::TurnOrder)
        })
    ));
    let rec = Recording {
        level: TINY.to_string(),
        commands: vec![(Faction::Red, Command::BuildField { at: TileId(4) })],
    };
    assert!(matches!(
        Session::replay(&rec, tiny_board(), &[], &[]),
        Err(SessionError::Replay { index: 0, error: RuleError::NotOwned(TileId(4)), .. })
    ));
    let rec = Recording { level: "CL1;n=99".to_string(), commands: vec![] };
    assert!(matches!(Session::replay(&rec, tiny_board(), &[], &[]), Err(SessionError::Level(LevelError::Value { .. }))));
}

#[test]
fn a_level_with_an_ownerless_capital_does_not_start() {
    let level = Level::parse("CL1;n=2;seed=0;tiles=0L,0C").unwrap();
    assert!(matches!(
        Session::start(level, tiny_board(), &[], &[]),
        Err(SessionError::Level(LevelError::Invalid(m))) if m.starts_with("tile #0")
    ));
}

#[test]
fn passive_policy_only_emits_legal_commands() {
    let board = GraphBoard::flower();
    let world = WorldSnapshot { frequency: 2, seed: 0, tiles: vec![TileState::land(); 7] };
    let mut state = GameState::new(&world, Settings::default(), 1);
    let mut policy = policy_for(Profile { hostility: 50, intelligence: 0 }, 3);
    for _ in 0..4 {
        let cmd = policy.choose_command(&state, &board);
        assert!(apply(&mut state, &board, cmd).is_ok(), "{cmd:?} must be legal");
    }
    assert_eq!(state.turn, 2);
    assert_eq!(policy.profile, Profile { hostility: 50, intelligence: 0 });
}
