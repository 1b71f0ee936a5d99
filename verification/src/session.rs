//! One running match: players, turn flow, undo within a turn, command log and replay.

use vstd::prelude::*;

use crate::ai::{policy_for, Passive, Policy, Profile};
use crate::apply::{apply, can_apply, lemma_apply_keeps_tile_count, room, spec_apply};
use crate::board::{adjacency_ok, Board};
use crate::command::{Command, Event, PendingRule, RuleError};
use crate::faction::{faction_at, Faction};
use crate::level::{
    apply_diffs, base_tiles, snapshot_inputs_ok, spec_ai_for, Level, LevelError, LevelErrorView, LevelView, Victory,
};
use crate::level_text::{level_result_view, spec_parse};
use crate::state::{capitals_upto, tile_from_state, GameModel, GameState, Settings, Treasury, VictoryRule};
use crate::tile::{snapshot_valid, snapshot_violation, Cover, TileId, TileState, WorldSnapshot};
use crate::world::spec_tile_count;

verus! {

/// Who controls a faction.
#[derive(Debug, Clone, Copy, PartialEq, Eq, Structural)]
pub enum PlayerKind {
    /// A person at the screen.
    Human,
    /// A computer opponent with this profile.
    Ai(Profile),
}

/// Everything needed to reproduce a match: the level line and every accepted command.
#[derive(Debug, Clone, PartialEq, Eq)]
pub struct Recording {
    /// Level as a line.
    pub level: String,
    /// Accepted commands with the faction that issued them.
    pub commands: Vec<(Faction, Command)>,
}

/// Why a session could not start or replay.
#[derive(Debug, Clone, PartialEq, Eq)]
pub enum SessionError {
    /// The level line is invalid.
    Level(LevelError),
    /// A recorded command was refused on replay.
    Replay {
        /// Position in the recording.
        index: usize,
        /// The command.
        command: Command,
        /// Why the rules refused it.
        error: RuleError,
    },
}

/// A session error as a value.
pub enum SessionErrorView {
    /// The level line is invalid.
    Level(LevelErrorView),
    /// A recorded command was refused: its position, the command, why.
    Replay(int, Command, RuleError),
}

impl SessionError {
    /// The error as a value.
    pub open spec fn view(&self) -> SessionErrorView {
        match self {
            SessionError::Level(e) => SessionErrorView::Level(e@),
            SessionError::Replay { index, command, error } => SessionErrorView::Replay(*index as int, *command, *error),
        }
    }
}

// ---------------------------------------------------------------------------------------------
// A match as a value

/// The tiles a level starts with: the generated world, then every diff.
pub open spec fn start_world(l: LevelView, levels: Seq<i32>, cover: Seq<Cover>) -> Seq<TileState> {
    apply_diffs(base_tiles(l, levels, cover), l.tiles, l.tiles.len() as int)
}

/// The factions in play, in turn order.
pub open spec fn level_factions(l: LevelView) -> Seq<Faction> {
    Seq::new(l.players as nat, |i: int| faction_at(i))
}

/// The rules' victory rule for a level's.
pub open spec fn victory_rule(v: Victory) -> VictoryRule {
    match v {
        Victory::Majority { percent, turns } => VictoryRule::Majority { percent, turns },
    }
}

/// The state a match on `l` starts in, from the starting tiles `world`: every capital holds the
/// starting treasury, the first faction in play moves, nothing has happened yet.
pub open spec fn start_model(l: LevelView, world: Seq<TileState>) -> GameModel {
    let tiles = Seq::new(world.len(), |i: int| tile_from_state(world[i]));
    let factions = level_factions(l);
    GameModel {
        turn: 0,
        current: if factions.len() > 0 { factions[0] } else { Faction::Red },
        tiles,
        treasuries: Map::new(
            |k: u32| capitals_upto(tiles, tiles.len() as int).contains(k),
            |k: u32| Treasury { gold: 5, wheat: 5 },
        ),
        factions,
        forest_percent: l.forest_percent,
        victory: victory_rule(l.victory),
        starting_treasury: Treasury { gold: 5, wheat: 5 },
        stats_turns: 0,
        killed: seq![0u32, 0, 0, 0],
        lost: seq![0u32, 0, 0, 0],
        all_time_gold: seq![0i64, 0, 0, 0],
        winner: None,
        rng: l.seed as i32,
        majority_streak: seq![0u8, 0, 0, 0],
    }
}

/// The AI players among the first `k` factions of `l`, in turn order: the faction, its profile
/// and the seed of its generator.
pub open spec fn policies_upto(l: LevelView, k: int) -> Seq<(Faction, Profile, i32)>
    decreases k,
{
    if k <= 0 {
        Seq::empty()
    } else {
        let prev = policies_upto(l, k - 1);
        let f = faction_at(k - 1);
        match spec_ai_for(l, f) {
            Some(a) => prev.push(
                (f, Profile { hostility: a.hostility, intelligence: a.intelligence }, l.seed.wrapping_add(
                    (k - 1) as u32,
                ) as i32),
            ),
            None => prev,
        }
    }
}

/// Running a log from `m`: each entry must come from the faction to move and be accepted. The
/// state reached, or the first entry refused with its position and why.
#[verifier::opaque]
pub open spec fn run_log(m: GameModel, adj: Seq<Seq<TileId>>, log: Seq<(Faction, Command)>) -> Result<
    GameModel,
    (int, Command, RuleError),
>
    decreases log.len(),
{
    if log.len() == 0 {
        Ok(m)
    } else {
        match run_log(m, adj, log.drop_last()) {
            Err(e) => Err(e),
            Ok(x) => {
                let (f, c) = log.last();
                let i = log.len() - 1;
                if x.current != f {
                    Err((i, c, RuleError::NotYetImplemented(PendingRule::TurnOrder)))
                } else {
                    match spec_apply(x, adj, c) {
                        Err(e) => Err((i, c, e)),
                        Ok((y, _)) => Ok(y),
                    }
                }
            },
        }
    }
}

/// A running match as a value.
pub struct SessionView {
    /// The level.
    pub level: LevelView,
    /// The board's neighbour lists.
    pub adjacency: Seq<Seq<TileId>>,
    /// The tiles the match started from.
    pub world: Seq<TileState>,
    /// The current state.
    pub state: GameModel,
    /// The state when the current turn began.
    pub turn_start: GameModel,
    /// Commands of the current turn, in order.
    pub since_turn_start: Seq<Command>,
    /// Every accepted command with its faction.
    pub log: Seq<(Faction, Command)>,
    /// AI players: faction, profile, generator state.
    pub policies: Seq<(Faction, Profile, i32)>,
}

/// What holds of every running match: the board fits the tiles, the log replays from the start
/// to the current state, and the current turn's commands (none of them an end of turn) are the
/// last entries of the log, which replays without them to the state the turn began in.
pub open spec fn session_ok(v: SessionView) -> bool {
    let start = start_model(v.level, v.world);
    let k = v.log.len() - v.since_turn_start.len();
    &&& adjacency_ok(v.adjacency)
    &&& v.adjacency.len() == v.world.len()
    &&& v.world.len() <= u32::MAX
    &&& snapshot_valid(v.level.frequency, v.world)
    &&& v.since_turn_start.len() <= v.log.len()
    &&& v.state.tiles.len() == v.world.len()
    &&& v.turn_start.tiles.len() == v.world.len()
    &&& v.state.factions == level_factions(v.level)
    &&& run_log(start, v.adjacency, v.log) == Ok::<GameModel, (int, Command, RuleError)>(v.state)
    &&& run_log(start, v.adjacency, v.log.take(k)) == Ok::<GameModel, (int, Command, RuleError)>(v.turn_start)
    &&& forall|j: int|
        0 <= j < v.since_turn_start.len() ==> v.log[k + j].1 == #[trigger] v.since_turn_start[j]
            && v.since_turn_start[j] != Command::EndTurn
}

/// `n` is `o` after `cmd` was accepted: the rules' new state, the command logged with the
/// faction that issued it, and a new turn begun when it ended one.
pub open spec fn applied(o: SessionView, cmd: Command, n: SessionView, events: Seq<Event>) -> bool {
    &&& spec_apply(o.state, o.adjacency, cmd) == Ok::<(GameModel, Seq<Event>), RuleError>((n.state, events))
    &&& n.log == o.log.push((o.state.current, cmd))
    &&& if cmd == Command::EndTurn {
        n.turn_start == n.state && n.since_turn_start == Seq::<Command>::empty()
    } else {
        n.turn_start == o.turn_start && n.since_turn_start == o.since_turn_start.push(cmd)
    }
    &&& n.level == o.level
    &&& n.adjacency == o.adjacency
    &&& n.world == o.world
    &&& n.policies == o.policies
}

/// `n` is `o` with the last command of the turn taken back: the state is the log without it
/// replayed.
pub open spec fn undone(o: SessionView, n: SessionView) -> bool {
    &&& o.since_turn_start.len() > 0
    &&& n.since_turn_start == o.since_turn_start.drop_last()
    &&& n.log == o.log.drop_last()
    &&& run_log(start_model(o.level, o.world), o.adjacency, n.log) == Ok::<GameModel, (int, Command, RuleError)>(
        n.state,
    )
    &&& n.turn_start == o.turn_start
    &&& n.level == o.level
    &&& n.adjacency == o.adjacency
    &&& n.world == o.world
    &&& n.policies == o.policies
}

// ---------------------------------------------------------------------------------------------
// Facts about running logs

/// Nothing to run: the state stays.
pub proof fn lemma_run_log_empty(m: GameModel, adj: Seq<Seq<TileId>>)
    ensures
        run_log(m, adj, Seq::empty()) == Ok::<GameModel, (int, Command, RuleError)>(m),
{
    reveal(run_log);
}

/// One more entry after a log that ran to `x`: refused when another faction issued it or the
/// rules refuse it, else the rules' next state.
pub proof fn lemma_run_log_push(
    m: GameModel,
    adj: Seq<Seq<TileId>>,
    log: Seq<(Faction, Command)>,
    e: (Faction, Command),
    x: GameModel,
)
    requires
        run_log(m, adj, log) == Ok::<GameModel, (int, Command, RuleError)>(x),
    ensures
        run_log(m, adj, log.push(e)) == (if x.current != e.0 {
            Err::<GameModel, (int, Command, RuleError)>(
                (log.len() as int, e.1, RuleError::NotYetImplemented(PendingRule::TurnOrder)),
            )
        } else {
            match spec_apply(x, adj, e.1) {
                Err(er) => Err((log.len() as int, e.1, er)),
                Ok((y, _)) => Ok(y),
            }
        }),
{
    reveal(run_log);
    assert(log.push(e).drop_last() =~= log);
}

/// After a refused entry, further entries change nothing.
pub proof fn lemma_run_log_err_push(m: GameModel, adj: Seq<Seq<TileId>>, log: Seq<(Faction, Command)>, e: (Faction, Command))
    requires
        run_log(m, adj, log) is Err,
    ensures
        run_log(m, adj, log.push(e)) == run_log(m, adj, log),
{
    reveal(run_log);
    assert(log.push(e).drop_last() =~= log);
}

/// A log that runs has its log without the last entry running.
pub proof fn lemma_run_log_drop(m: GameModel, adj: Seq<Seq<TileId>>, log: Seq<(Faction, Command)>)
    requires
        log.len() > 0,
        run_log(m, adj, log) is Ok,
    ensures
        run_log(m, adj, log.drop_last()) is Ok,
{
    reveal(run_log);
}

/// A log that runs has every prefix running.
pub proof fn lemma_run_log_prefix(m: GameModel, adj: Seq<Seq<TileId>>, log: Seq<(Faction, Command)>, j: int)
    requires
        0 <= j <= log.len(),
        run_log(m, adj, log) is Ok,
    ensures
        run_log(m, adj, log.take(j)) is Ok,
    decreases log.len(),
{
    if j == log.len() {
        assert(log.take(j) =~= log);
    } else {
        lemma_run_log_drop(m, adj, log);
        lemma_run_log_prefix(m, adj, log.drop_last(), j);
        assert(log.drop_last().take(j) =~= log.take(j));
    }
}

/// Running a log keeps the number of tiles and the factions in play.
pub proof fn lemma_run_log_keeps_tiles(m: GameModel, adj: Seq<Seq<TileId>>, log: Seq<(Faction, Command)>)
    requires
        run_log(m, adj, log) is Ok,
    ensures
        run_log(m, adj, log) matches Ok(x) && x.tiles.len() == m.tiles.len() && x.factions == m.factions,
    decreases log.len(),
{
    if log.len() == 0 {
        lemma_run_log_empty(m, adj);
        assert(log =~= Seq::<(Faction, Command)>::empty());
    } else {
        lemma_run_log_drop(m, adj, log);
        lemma_run_log_keeps_tiles(m, adj, log.drop_last());
        match run_log(m, adj, log.drop_last()) {
            Ok(x) => {
                lemma_run_log_push(m, adj, log.drop_last(), log.last(), x);
                assert(log.drop_last().push(log.last()) =~= log);
                lemma_apply_keeps_tile_count(x, adj, log.last().1);
            },
            Err(_) => {},
        }
    }
}

/// Undoing right after a command of the turn was accepted gives back the state, the log and the
/// turn's commands as they were before it.
pub proof fn lemma_undo_restores(v: SessionView, cmd: Command, events: Seq<Event>, next: SessionView, back: SessionView)
    requires
        session_ok(v),
        cmd != Command::EndTurn,
        applied(v, cmd, next, events),
        undone(next, back),
    ensures
        back.state == v.state,
        back.log == v.log,
        back.since_turn_start == v.since_turn_start,
        back.turn_start == v.turn_start,
{
    assert(next.log.drop_last() =~= v.log);
    assert(next.since_turn_start.drop_last() =~= v.since_turn_start);
}

impl<B: Board> Session<B> {
    /// The match as a value.
    pub closed spec fn view(&self) -> SessionView {
        SessionView {
            level: self.level@,
            adjacency: self.board.adjacency(),
            world: self.world@,
            state: self.state@,
            turn_start: self.turn_start@,
            since_turn_start: self.since_turn_start@,
            log: self.log@,
            policies: Seq::new(
                self.policies@.len(),
                |i: int| (self.policies@[i].0, self.policies@[i].1.profile_view(), self.policies@[i].1.rng_state()),
            ),
        }
    }
}

/// A running match.
pub struct Session<B: Board> {
    level: Level,
    board: B,
    state: GameState,
    turn_start: GameState,
    since_turn_start: Vec<Command>,
    log: Vec<(Faction, Command)>,
    policies: Vec<(Faction, Passive)>,
    world: Ghost<Seq<TileState>>,
}


// ---------------------------------------------------------------------------------------------
// Replaying a recording

/// `true` when some AI player plays `f`.
pub open spec fn has_policy(policies: Seq<(Faction, Profile, i32)>, f: Faction) -> bool {
    exists|i: int| 0 <= i < policies.len() && (#[trigger] policies[i]).0 == f
}

/// Every end of turn the log reaches comes with room for the income it pays.
pub open spec fn log_has_room(m: GameModel, adj: Seq<Seq<TileId>>, log: Seq<(Faction, Command)>) -> bool {
    forall|i: int|
        0 <= i < log.len() && (#[trigger] log[i]).1 == Command::EndTurn ==> match run_log(m, adj, log.take(i)) {
            Ok(x) => x.winner is None ==> room(x),
            Err(_) => true,
        }
}

/// What replaying needs for a level read from a recording: the generated world fits the level,
/// the board fits the world, and every end of turn has room for its income.
pub open spec fn replay_inputs_ok(
    l: LevelView,
    adj: Seq<Seq<TileId>>,
    levels: Seq<i32>,
    cover: Seq<Cover>,
    log: Seq<(Faction, Command)>,
) -> bool {
    &&& snapshot_inputs_ok(l, levels, cover)
    &&& adjacency_ok(adj)
    &&& adj.len() == spec_tile_count(l.frequency as int)
    &&& log_has_room(start_model(l, start_world(l, levels, cover)), adj, log)
}

/// What replaying a recording gives: the state the log reaches from the level's start, or the
/// first thing that fails. `None` where reading the level line does not survive.
pub open spec fn replay_result(
    text: Seq<char>,
    adj: Seq<Seq<TileId>>,
    levels: Seq<i32>,
    cover: Seq<Cover>,
    log: Seq<(Faction, Command)>,
) -> Option<Result<GameModel, SessionErrorView>> {
    match spec_parse(text) {
        None => None,
        Some(Err(e)) => Some(Err(SessionErrorView::Level(e))),
        Some(Ok(l)) => {
            let world = start_world(l, levels, cover);
            match snapshot_violation(l.frequency, world) {
                Some(m) => Some(Err(SessionErrorView::Level(LevelErrorView::Invalid(m)))),
                None => match run_log(start_model(l, world), adj, log) {
                    Ok(m) => Some(Ok(m)),
                    Err((i, c, e)) => Some(Err(SessionErrorView::Replay(i, c, e))),
                },
            }
        },
    }
}

/// Replaying what a match recorded, on the same board and the same generated world, reaches the
/// state the match is in, whenever the level is valid and writes back (see
/// [`crate::round_trip::writes_back`]).
pub proof fn lemma_replay_reproduces(v: SessionView, levels: Seq<i32>, cover: Seq<Cover>)
    requires
        session_ok(v),
        crate::level::level_violation(v.level) is None,
        crate::round_trip::writes_back(v.level),
        v.world == start_world(v.level, levels, cover),
    ensures
        replay_result(crate::level_text::level_text(v.level), v.adjacency, levels, cover, v.log) == Some(
            Ok::<GameModel, SessionErrorView>(v.state),
        ),
{
    crate::round_trip::lemma_parse_to_string(v.level);
    crate::tile::lemma_snapshot_violation_iff_invalid(v.level.frequency, v.world);
}

// ---------------------------------------------------------------------------------------------
// The executable session

proof fn lemma_start_model(l: LevelView, world: Seq<TileState>, m: GameModel, settings_factions: Seq<Faction>)
    requires
        settings_factions == level_factions(l),
        m.turn == 0,
        m.current == (if settings_factions.len() > 0 { settings_factions[0] } else { Faction::Red }),
        m.tiles == Seq::new(world.len(), |i: int| tile_from_state(world[i])),
        m.treasuries.dom() == capitals_upto(m.tiles, m.tiles.len() as int),
        forall|k: u32| #[trigger] m.treasuries.contains_key(k) ==> m.treasuries[k] == (Treasury { gold: 5, wheat: 5 }),
        m.factions == settings_factions,
        m.forest_percent == l.forest_percent,
        m.victory == victory_rule(l.victory),
        m.starting_treasury == (Treasury { gold: 5, wheat: 5 }),
        m.stats_turns == 0,
        m.killed == seq![0u32, 0, 0, 0],
        m.lost == seq![0u32, 0, 0, 0],
        m.all_time_gold == seq![0i64, 0, 0, 0],
        m.winner is None,
        m.rng == l.seed as i32,
        m.majority_streak == seq![0u8, 0, 0, 0],
    ensures
        m == start_model(l, world),
{
    let s = start_model(l, world);
    assert(m.treasuries =~= s.treasuries);
    assert(m =~= s);
}

impl<B: Board> Session<B> {
    /// Starts a match on `board` from a level. `levels` and `cover` are the generator's terrain
    /// levels and cover for the level, one per tile; they are not read when the seed is 0. Fails
    /// when the level's diffs produce an impossible tile.
    pub fn start(level: Level, board: B, levels: &[i32], cover: &[Cover]) -> (r: Result<Session<B>, SessionError>)
        requires
            snapshot_inputs_ok(level@, levels@, cover@),
            level.players <= 4,
            adjacency_ok(board.adjacency()),
            board.adjacency().len() == spec_tile_count(level.frequency as int),
        ensures
            match r {
                Ok(s) => {
                    &&& s@.level == level@
                    &&& s@.adjacency == board.adjacency()
                    &&& s@.world == start_world(level@, levels@, cover@)
                    &&& s@.state == start_model(level@, s@.world)
                    &&& s@.turn_start == s@.state
                    &&& s@.since_turn_start == Seq::<Command>::empty()
                    &&& s@.log == Seq::<(Faction, Command)>::empty()
                    &&& s@.policies == policies_upto(level@, level.players as int)
                    &&& session_ok(s@)
                },
                Err(e) => snapshot_violation(level.frequency, start_world(level@, levels@, cover@)) matches Some(m)
                    && e@ == SessionErrorView::Level(LevelErrorView::Invalid(m)),
            },
    {
        let world = match level.to_snapshot(levels, cover) {
            Ok(w) => w,
            Err(e) => {
                return Err(SessionError::Level(e));
            },
        };
        let defaults = Settings::default();
        let settings = Settings {
            factions: level.factions(),
            forest_percent: level.forest_percent,
            victory: match level.victory {
                Victory::Majority { percent, turns } => VictoryRule::Majority { percent, turns },
            },
            starting_treasury: defaults.starting_treasury,
        };
        assert(settings.factions@ =~= level_factions(level@));
        proof {
            crate::tile::lemma_snapshot_violation_iff_invalid(world.frequency, world.tiles@);
        }
        let state = GameState::new(&world, settings, level.seed);
        proof {
            lemma_start_model(level@, world.tiles@, state@, level_factions(level@));
        }
        let turn_start = state.duplicate();
        let factions = level.factions();
        let mut policies: Vec<(Faction, Passive)> = Vec::new();
        let mut i: usize = 0;
        while i < factions.len()
            invariant
                i <= factions@.len(),
                factions@.len() <= 4,
                factions@ == level_factions(level@),
                Seq::new(
                    policies@.len(),
                    |j: int| (policies@[j].0, policies@[j].1.profile_view(), policies@[j].1.rng_state()),
                ) == policies_upto(level@, i as int),
            decreases factions.len() - i,
        {
            let f = factions[i];
            let ghost before = policies@;
            assert(f == faction_at(i as int));
            assert(crate::faction::faction_index(f) == i);
            match level.ai_for(f) {
                Some(a) => {
                    let profile = Profile { hostility: a.hostility, intelligence: a.intelligence };
                    let p = policy_for(profile, level.seed.wrapping_add(f.index() as u32));
                    policies.push((f, p));
                    assert(Seq::new(
                        policies@.len(),
                        |j: int| (policies@[j].0, policies@[j].1.profile_view(), policies@[j].1.rng_state()),
                    ) =~= policies_upto(level@, i + 1));
                },
                None => {
                    assert(policies@ == before);
                },
            }
            i += 1;
        }
        let s = Session {
            level,
            board,
            state,
            turn_start,
            since_turn_start: Vec::new(),
            log: Vec::new(),
            policies,
            world: Ghost(world.tiles@),
        };
        proof {
            assert(s@.log =~= Seq::<(Faction, Command)>::empty());
            assert(s@.log.take(0) =~= s@.log);
            lemma_run_log_empty(start_model(level@, world.tiles@), s@.adjacency);
        }
        Ok(s)
    }

    /// Replays a recording on `board`; fails on the first refused command. `levels` and `cover`
    /// are the generator's output for the recorded level, as for [`Session::start`].
    #[verifier::loop_isolation(false)]
    pub fn replay(recording: &Recording, board: B, levels: &[i32], cover: &[Cover]) -> (r: Result<
        Session<B>,
        SessionError,
    >)
        requires
            spec_parse(recording.level@) is Some,
            spec_parse(recording.level@) matches Some(Ok(l)) ==> replay_inputs_ok(
                l,
                board.adjacency(),
                levels@,
                cover@,
                recording.commands@,
            ),
        ensures
            match replay_result(recording.level@, board.adjacency(), levels@, cover@, recording.commands@) {
                Some(Ok(m)) => r matches Ok(s) && s@.state == m && s@.log == recording.commands@ && session_ok(s@),
                Some(Err(e)) => r matches Err(x) && x@ == e,
                None => false,
            },
    {
        let level = match Level::parse(recording.level.as_str()) {
            Ok(l) => l,
            Err(e) => {
                return Err(SessionError::Level(e));
            },
        };
        let ghost l = level@;
        let ghost adj = board.adjacency();
        assert(crate::level::level_violation(l) is None);
        assert(2 <= l.players <= 4);
        let mut session = match Session::start(level, board, levels, cover) {
            Ok(s) => s,
            Err(e) => {
                return Err(e);
            },
        };
        proof {
            crate::tile::lemma_snapshot_violation_iff_invalid(l.frequency, session@.world);
        }
        let ghost start = session@.state;
        assert(recording.commands@.take(0) =~= Seq::<(Faction, Command)>::empty());
        let mut index: usize = 0;
        while index < recording.commands.len()
            invariant
                index <= recording.commands@.len(),
                session_ok(session@),
                session@.level == l,
                session@.adjacency == adj,
                session@.log == recording.commands@.take(index as int),
                start == start_model(l, session@.world),
                session@.world == start_world(l, levels@, cover@),
                spec_parse(recording.level@) == Some(Ok::<LevelView, LevelErrorView>(l)),
                snapshot_violation(l.frequency, session@.world) is None,
                log_has_room(start, adj, recording.commands@),
                2 <= l.players <= 4,
                run_log(start, adj, recording.commands@.take(index as int)) == Ok::<
                    GameModel,
                    (int, Command, RuleError),
                >(session@.state),
            decreases recording.commands.len() - index,
        {
            let (faction, command) = recording.commands[index];
            proof {
                let e = recording.commands@[index as int];
                assert(recording.commands@.take(index as int).push(e) =~= recording.commands@.take(index + 1));
                lemma_run_log_push(start, adj, recording.commands@.take(index as int), e, session@.state);
                lemma_run_log_keeps_tiles(start, adj, recording.commands@.take(index as int));
            }
            if session.state.current != faction {
                proof {
                    lemma_fail_stays(start, adj, recording.commands@, index + 1);
                    assert(run_log(start, adj, recording.commands@.take(index + 1)) == Err::<GameModel, (int, Command, RuleError)>(
                        (index as int, command, RuleError::NotYetImplemented(PendingRule::TurnOrder))));
                    assert(start == start_model(l, start_world(l, levels@, cover@)));
                    assert(replay_result(recording.level@, adj, levels@, cover@, recording.commands@) == Some(
                        Err::<GameModel, SessionErrorView>(SessionErrorView::Replay(index as int, command, RuleError::NotYetImplemented(PendingRule::TurnOrder)))));
                }
                let err = SessionError::Replay {
                    index,
                    command,
                    error: RuleError::NotYetImplemented(PendingRule::TurnOrder),
                };
                assert(err@ == SessionErrorView::Replay(index as int, command, RuleError::NotYetImplemented(PendingRule::TurnOrder)));
                assert(replay_result(recording.level@, adj, levels@, cover@, recording.commands@) == Some(Err::<GameModel, SessionErrorView>(err@)));
                return Err(err);
            }
            proof {
                assert(recording.commands@[index as int].1 == command);
            }
            match session.apply(command) {
                Ok(_) => {},
                Err(error) => {
                    proof {
                        lemma_fail_stays(start, adj, recording.commands@, index + 1);
                    }
                    return Err(SessionError::Replay { index, command, error });
                },
            }
            assert(session@.log =~= recording.commands@.take(index + 1));
            index += 1;
        }
        assert(recording.commands@.take(index as int) =~= recording.commands@);
        Ok(session)
    }

    /// The level the match runs on.
    pub fn level(&self) -> (l: &Level)
        ensures
            l@ == self@.level,
    {
        &self.level
    }

    /// Current rules state.
    pub fn state(&self) -> (s: &GameState)
        ensures
            s@ == self@.state,
    {
        &self.state
    }

    /// The board.
    pub fn board(&self) -> (b: &B)
        ensures
            b.adjacency() == self@.adjacency,
    {
        &self.board
    }

    /// Who controls the faction whose turn it is.
    pub fn current_player(&self) -> (p: PlayerKind)
        ensures
            p == (match spec_ai_for(self@.level, self@.state.current) {
                Some(a) => PlayerKind::Ai(Profile { hostility: a.hostility, intelligence: a.intelligence }),
                None => PlayerKind::Human,
            }),
    {
        match self.level.ai_for(self.state.current) {
            Some(a) => PlayerKind::Ai(Profile { hostility: a.hostility, intelligence: a.intelligence }),
            None => PlayerKind::Human,
        }
    }

    /// Applies a command for the current faction and logs it when accepted. On `Err` nothing
    /// changes.
    pub fn apply(&mut self, command: Command) -> (r: Result<Vec<Event>, RuleError>)
        requires
            session_ok(old(self)@),
            can_apply(old(self)@.state, old(self)@.adjacency, command),
        ensures
            session_ok(final(self)@),
            match r {
                Ok(ev) => applied(old(self)@, command, final(self)@, ev@),
                Err(e) => spec_apply(old(self)@.state, old(self)@.adjacency, command) == Err::<
                    (GameModel, Seq<Event>),
                    RuleError,
                >(e) && final(self)@ == old(self)@,
            },
    {
        let ghost o = self@;
        let faction = self.state.current;
        let events = match apply(&mut self.state, &self.board, command) {
            Ok(e) => e,
            Err(e) => {
                return Err(e);
            },
        };
        self.log.push((faction, command));
        if command == Command::EndTurn {
            self.turn_start = self.state.duplicate();
            self.since_turn_start = Vec::new();
        } else {
            self.since_turn_start.push(command);
        }
        proof {
            let start = start_model(o.level, o.world);
            let n = self@;
            lemma_run_log_push(start, o.adjacency, o.log, (faction, command), o.state);
            lemma_apply_keeps_tile_count(o.state, o.adjacency, command);
            if command == Command::EndTurn {
                assert(n.log.take(n.log.len() as int) =~= n.log);
            } else {
                let k = o.log.len() - o.since_turn_start.len();
                assert(n.log.take(k) =~= o.log.take(k));
                assert forall|j: int| 0 <= j < n.since_turn_start.len() implies n.log[k + j].1
                    == #[trigger] n.since_turn_start[j] && n.since_turn_start[j] != Command::EndTurn by {
                    if j < o.since_turn_start.len() {
                        assert(n.log[k + j] == o.log[k + j]);
                    }
                }
            }
        }
        Ok(events)
    }

    /// Undoes the last command of the current turn by replaying the turn without it; `None` when
    /// the turn has no commands yet.
    #[verifier::rlimit(30)]
    #[verifier::loop_isolation(false)]
    pub fn undo(&mut self) -> (r: Option<Command>)
        requires
            session_ok(old(self)@),
        ensures
            session_ok(final(self)@),
            match r {
                None => old(self)@.since_turn_start.len() == 0 && final(self)@ == old(self)@,
                Some(c) => c == old(self)@.since_turn_start.last() && undone(old(self)@, final(self)@),
            },
    {
        let ghost o = self@;
        let ghost start = start_model(o.level, o.world);
        let ghost adj = o.adjacency;
        let undone_cmd = match self.since_turn_start.pop() {
            None => {
                return None;
            },
            Some(c) => c,
        };
        self.log.pop();
        let ghost k = o.log.len() - o.since_turn_start.len();
        proof {
            assert(self.log@ =~= o.log.drop_last());
            assert(self.since_turn_start@ =~= o.since_turn_start.drop_last());
            lemma_run_log_drop(start, adj, o.log);
            assert(self.log@.take(k) =~= o.log.take(k));
        }
        self.state = self.turn_start.duplicate();
        let mut i: usize = 0;
        while i < self.since_turn_start.len()
            invariant
                i <= self.since_turn_start@.len(),
                0 <= k,
                o.since_turn_start.len() > 0,
                o.log.len() == self.log@.len() + 1,
                o.since_turn_start.len() == self.since_turn_start@.len() + 1,
                k + self.since_turn_start@.len() == self.log@.len(),
                self.since_turn_start@ == o.since_turn_start.drop_last(),
                self.log@ == o.log.drop_last(),
                self.board.adjacency() == adj,
                self.world@ == o.world,
                self.level@ == o.level,
                self.turn_start@ == o.turn_start,
                self.policies@ == old(self).policies@,
                adjacency_ok(adj),
                adj.len() == o.world.len(),
                o.world.len() <= u32::MAX,
                k == o.log.len() - o.since_turn_start.len(),
                forall|j: int|
                    0 <= j < o.since_turn_start.len() ==> o.log[k + j].1 == #[trigger] o.since_turn_start[j]
                        && o.since_turn_start[j] != Command::EndTurn,
                run_log(start, adj, self.log@) is Ok,
                run_log(start, adj, self.log@.take(k + i)) == Ok::<GameModel, (int, Command, RuleError)>(
                    self.state@,
                ),
                self.state@.tiles.len() == o.world.len(),
            decreases self.since_turn_start.len() - i,
        {
            let cmd = self.since_turn_start[i];
            let ghost before = self.state@;
            proof {
                let e = self.log@[k + i];
                assert(self.log@.take(k + i).push(e) =~= self.log@.take(k + i + 1));
                lemma_run_log_prefix(start, adj, self.log@, k + i + 1);
                lemma_run_log_push(start, adj, self.log@.take(k + i), e, before);
                assert(self.log@[k + i] == o.log[k + i]);
                assert(o.since_turn_start[i as int] == self.since_turn_start@[i as int]);
                lemma_apply_keeps_tile_count(before, adj, cmd);
            }
            let r = apply(&mut self.state, &self.board, cmd);
            proof {
                assert(r is Ok);
            }
            i += 1;
        }
        proof {
            assert(self.log@.take(k + i) =~= self.log@);
            let n = self@;
            lemma_run_log_keeps_tiles(start, adj, n.log);
            assert(n.log.len() - n.since_turn_start.len() == k);
            assert(n.log.take(k) =~= o.log.take(k));
            assert forall|j: int| 0 <= j < n.since_turn_start.len() implies n.log[k + j].1
                == #[trigger] n.since_turn_start[j] && n.since_turn_start[j] != Command::EndTurn by {
                assert(n.log[k + j] == o.log[k + j]);
                assert(n.since_turn_start[j] == o.since_turn_start[j]);
            }
        }
        Some(undone_cmd)
    }

    /// Lets the current AI faction play its whole turn. Returns `None` when a human is up.
    pub fn play_ai(&mut self) -> (r: Option<Vec<Event>>)
        requires
            session_ok(old(self)@),
            has_policy(old(self)@.policies, old(self)@.state.current) ==> old(self)@.state.winner is None
                && room(old(self)@.state) && old(self)@.state.factions.len() > 0,
        ensures
            session_ok(final(self)@),
            match r {
                None => !has_policy(old(self)@.policies, old(self)@.state.current) && final(self)@ == old(self)@,
                Some(ev) => applied(old(self)@, Command::EndTurn, final(self)@, ev@),
            },
    {
        let ghost o = self@;
        let faction = self.state.current;
        let mut idx: usize = 0;
        while idx < self.policies.len() && self.policies[idx].0 != faction
            invariant
                idx <= self.policies@.len(),
                forall|j: int| 0 <= j < idx ==> self.policies@[j].0 != faction,
            decreases self.policies.len() - idx,
        {
            idx += 1;
        }
        if idx == self.policies.len() {
            proof {
                assert forall|j: int| 0 <= j < o.policies.len() implies (#[trigger] o.policies[j]).0 != faction by {
                    assert(o.policies[j].0 == self.policies@[j].0);
                }
            }
            return None;
        }
        assert(o.policies[idx as int].0 == faction);
        let mut events: Vec<Event> = Vec::new();
        let mut n: usize = 0;
        while n < 1000
            invariant_except_break
                n == 0,
                self@ == o,
                events@ == Seq::<Event>::empty(),
            invariant
                idx < self.policies@.len(),
                session_ok(o),
                o.state.winner is None && room(o.state) && o.state.factions.len() > 0,
                faction == o.state.current,
            ensures
                session_ok(self@),
                applied(o, Command::EndTurn, self@, events@),
            decreases 1000 - n,
        {
            let ghost before = self.policies@;
            let cmd = self.policies[idx].1.choose_command(&self.state, &self.board);
            proof {
                assert forall|j: int| 0 <= j < self.policies@.len() implies (#[trigger] self@.policies[j]) == o.policies[j] by {
                    if j != idx {
                        assert(self.policies@[j] == before[j]);
                    }
                }
                assert(self@.policies =~= o.policies);
                assert(self@ == o);
            }
            let ended = cmd == Command::EndTurn;
            match self.apply(cmd) {
                Ok(mut e) => events.append(&mut e),
                Err(_) => {
                    let mut e = self.apply(Command::EndTurn).unwrap();
                    events.append(&mut e);
                    break;
                },
            }
            if ended {
                break;
            }
            n += 1;
        }
        Some(events)
    }

    /// What the view reads.
    pub fn snapshot(&self) -> (w: WorldSnapshot)
        ensures
            w.frequency == self@.level.frequency,
            w.seed == self@.level.seed,
            w.tiles@ == Seq::new(self@.state.tiles.len(), |i: int| crate::state::view_tile(self@.state, i)),
    {
        self.state.snapshot(self.level.frequency, self.level.seed)
    }

    /// The match so far: the level line and every accepted command.
    pub fn recording(&self) -> (rec: Recording)
        ensures
            rec.level@ == crate::level_text::level_text(self@.level),
            rec.commands@ == self@.log,
    {
        let mut commands: Vec<(Faction, Command)> = Vec::new();
        let mut i: usize = 0;
        while i < self.log.len()
            invariant
                i <= self.log@.len(),
                commands@ == self.log@.take(i as int),
            decreases self.log.len() - i,
        {
            commands.push(self.log[i]);
            assert(commands@ =~= self.log@.take(i + 1));
            i += 1;
        }
        assert(self.log@.take(i as int) =~= self.log@);
        Recording { level: self.level.to_string(), commands }
    }
}

/// Once a prefix of a log fails, the whole log fails the same way.
proof fn lemma_fail_stays(m: GameModel, adj: Seq<Seq<TileId>>, log: Seq<(Faction, Command)>, j: int)
    requires
        0 <= j <= log.len(),
        run_log(m, adj, log.take(j)) is Err,
    ensures
        run_log(m, adj, log) == run_log(m, adj, log.take(j)),
    decreases log.len() - j,
{
    if j < log.len() {
        lemma_run_log_err_push(m, adj, log.take(j), log[j]);
        assert(log.take(j).push(log[j]) =~= log.take(j + 1));
        lemma_fail_stays(m, adj, log, j + 1);
    } else {
        assert(log.take(j) =~= log);
    }
}

} // verus!
