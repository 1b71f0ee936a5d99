//! The game state: tiles, treasuries, settings, statistics.

use std::collections::BTreeMap;

use vstd::prelude::*;

use crate::constants::{FIELD_BASE_COST, PAWN_BASE_COST};
use crate::faction::{faction_index, Faction};
use crate::noise::Mulberry32;
use crate::tile::{
    default_tile, Cover, Terrain, TileId, TileState, UnitKind, UnitView, WorldSnapshot,
};

verus! {

broadcast use {vstd::laws_cmp::group_laws_cmp, vstd::std_specs::btree::group_btree_axioms};

/// A unit standing on a tile.
#[derive(Debug, Clone, Copy, PartialEq, Eq, Structural)]
pub struct Unit {
    /// Class.
    pub kind: UnitKind,
    /// Faction that owns it.
    pub owner: Faction,
    /// Turn number it was created on.
    pub born: u32,
    /// `true` once it has moved or upgraded this turn.
    pub acted: bool,
}

/// One tile of the game.
#[derive(Debug, Clone, Copy, PartialEq, Eq, Structural)]
pub struct Tile {
    /// Land or sea.
    pub terrain: Terrain,
    /// What stands on the tile.
    pub cover: Cover,
    /// Faction whose territory includes the tile.
    pub owner: Option<Faction>,
    /// Unit on the tile.
    pub unit: Option<Unit>,
    /// Turn number the capital on this tile was founded on, if it is a capital.
    pub capital_born: Option<u32>,
}

impl Tile {
    /// `true` when land with no unit.
    pub fn is_free_land(&self) -> (b: bool)
        ensures
            b == (self.terrain == Terrain::Land && self.unit is None),
    {
        self.terrain.is_land() && self.unit.is_none()
    }
}

/// Gold and wheat of one territory, kept on its capital tile.
#[derive(Debug, Clone, Copy, PartialEq, Eq, Structural)]
pub struct Treasury {
    /// Gold.
    pub gold: i64,
    /// Wheat.
    pub wheat: i64,
}

impl Default for Treasury {
    fn default() -> (t: Treasury)
        ensures
            t == (Treasury { gold: 0, wheat: 0 }),
    {
        Treasury { gold: 0, wheat: 0 }
    }
}

/// How a match is won, beyond eliminating every rival capital.
#[derive(Debug, Clone, Copy, PartialEq, Eq, Structural)]
pub enum VictoryRule {
    /// Own at least `percent` of the land for `turns` consecutive own turns.
    Majority {
        /// Land share in percent.
        percent: u8,
        /// Consecutive turns the share must hold.
        turns: u8,
    },
}

/// Match settings that rules read.
#[derive(Debug, Clone, PartialEq, Eq)]
pub struct Settings {
    /// Factions in play, in turn order.
    pub factions: Vec<Faction>,
    /// Chance in percent that a forest tile seeds an adjacent empty tile each turn.
    pub forest_percent: u8,
    /// Victory rule.
    pub victory: VictoryRule,
    /// Starting treasury of every capital.
    pub starting_treasury: Treasury,
}

impl Default for Settings {
    fn default() -> (s: Settings)
        ensures
            s.factions@ == seq![Faction::Red, Faction::Yellow],
            s.forest_percent == 10,
            s.victory == (VictoryRule::Majority { percent: 60, turns: 3 }),
            s.starting_treasury == (Treasury { gold: 5, wheat: 5 }),
    {
        let mut factions = Vec::new();
        factions.push(Faction::Red);
        factions.push(Faction::Yellow);
        assert(factions@ =~= seq![Faction::Red, Faction::Yellow]);
        Settings {
            factions,
            forest_percent: 10,
            victory: VictoryRule::Majority { percent: 60, turns: 3 },
            starting_treasury: Treasury { gold: 5, wheat: 5 },
        }
    }
}

impl Settings {
    /// A copy of the settings.
    pub fn duplicate(&self) -> (s: Settings)
        ensures
            s.factions@ == self.factions@,
            s.forest_percent == self.forest_percent,
            s.victory == self.victory,
            s.starting_treasury == self.starting_treasury,
    {
        let factions = self.factions.clone();
        assert(factions@ =~= self.factions@);
        Settings {
            factions,
            forest_percent: self.forest_percent,
            victory: self.victory,
            starting_treasury: self.starting_treasury,
        }
    }
}

/// Running totals shown on the victory screen. Per-faction counters are indexed by turn order.
#[derive(Debug, Clone, PartialEq, Eq)]
pub struct Stats {
    /// Completed full rounds.
    pub turns: u32,
    /// Units killed by each faction.
    pub killed: [u32; 4],
    /// Units each faction lost, to combat or starvation.
    pub lost: [u32; 4],
    /// Gold each faction has earned over the match.
    pub all_time_gold: [i64; 4],
}

impl Default for Stats {
    fn default() -> (s: Stats)
        ensures
            s.turns == 0,
            s.killed@ == seq![0u32, 0, 0, 0],
            s.lost@ == seq![0u32, 0, 0, 0],
            s.all_time_gold@ == seq![0i64, 0, 0, 0],
    {
        let s = Stats { turns: 0, killed: [0, 0, 0, 0], lost: [0, 0, 0, 0], all_time_gold: [0, 0, 0, 0] };
        assert(s.killed@ =~= seq![0u32, 0, 0, 0]);
        assert(s.lost@ =~= seq![0u32, 0, 0, 0]);
        assert(s.all_time_gold@ =~= seq![0i64, 0, 0, 0]);
        s
    }
}

/// A connected group of same-owner tiles with its capital.
#[derive(Debug, Clone, PartialEq, Eq)]
pub struct Territory {
    /// Owner.
    pub owner: Faction,
    /// Capital tile, if the group currently has one.
    pub capital: Option<TileId>,
    /// Member tiles in ascending id order.
    pub tiles: Vec<TileId>,
}

/// A territory as a value: owner, capital and members in ascending order.
#[verifier::ext_equal]
pub struct TerritoryView {
    /// Owner.
    pub owner: Faction,
    /// Capital, if any.
    pub capital: Option<TileId>,
    /// Members in ascending id order.
    pub tiles: Seq<TileId>,
}

impl Territory {
    /// The territory as a value.
    pub open spec fn view(&self) -> TerritoryView {
        TerritoryView { owner: self.owner, capital: self.capital, tiles: self.tiles@ }
    }
}

/// Number of tiles among `ids` whose tile satisfies `p`.
pub open spec fn count_ids(ids: Seq<TileId>, tiles: Seq<Tile>, p: spec_fn(Tile) -> bool) -> nat
    decreases ids.len(),
{
    if ids.len() == 0 {
        0
    } else {
        count_ids(ids.drop_last(), tiles, p) + if p(tiles[ids.last().0 as int]) { 1nat } else { 0nat }
    }
}

/// `f` answers exactly `p`.
pub open spec fn decides<F: Fn(UnitKind) -> bool>(f: F, p: spec_fn(UnitKind) -> bool) -> bool {
    &&& forall|k: UnitKind| #[trigger] f.requires((k,))
    &&& forall|k: UnitKind, b: bool| f.ensures((k,), b) ==> b == p(k)
}

impl Territory {
    /// Tiles carrying `cover`.
    pub fn count_cover(&self, state: &GameState, cover: Cover) -> (n: usize)
        requires
            forall|i: int| 0 <= i < self.tiles@.len() ==> (#[trigger] self.tiles@[i]).0 < state.tiles@.len(),
        ensures
            n == count_ids(self.tiles@, state.tiles@, |t: Tile| t.cover == cover),
    {
        let mut n: usize = 0;
        let mut i: usize = 0;
        while i < self.tiles.len()
            invariant
                i <= self.tiles.len(),
                forall|k: int| 0 <= k < self.tiles@.len() ==> (#[trigger] self.tiles@[k]).0 < state.tiles@.len(),
                n == count_ids(self.tiles@.subrange(0, i as int), state.tiles@, |t: Tile| t.cover == cover),
                n <= i,
            decreases self.tiles.len() - i,
        {
            let id = self.tiles[i];
            assert(self.tiles@.subrange(0, i + 1).drop_last() =~= self.tiles@.subrange(0, i as int));
            if state.tiles[id.index()].cover == cover {
                n += 1;
            }
            i += 1;
        }
        assert(self.tiles@.subrange(0, i as int) =~= self.tiles@);
        n
    }

    /// Units standing in the territory, filtered by kind.
    pub fn count_units<F: Fn(UnitKind) -> bool>(&self, state: &GameState, keep: F) -> (n: usize)
        requires
            forall|i: int| 0 <= i < self.tiles@.len() ==> (#[trigger] self.tiles@[i]).0 < state.tiles@.len(),
            forall|k: UnitKind| #[trigger] keep.requires((k,)),
        ensures
            forall|p: spec_fn(UnitKind) -> bool| decides(keep, p) ==> n == count_ids(
                self.tiles@,
                state.tiles@,
                |t: Tile| t.unit matches Some(u) && p(u.kind),
            ),
    {
        let mut n: usize = 0;
        let mut i: usize = 0;
        let ghost mut seen: Seq<bool> = Seq::empty();
        while i < self.tiles.len()
            invariant
                i <= self.tiles.len(),
                forall|k: int| 0 <= k < self.tiles@.len() ==> (#[trigger] self.tiles@[k]).0 < state.tiles@.len(),
                forall|k: UnitKind| #[trigger] keep.requires((k,)),
                forall|p: spec_fn(UnitKind) -> bool| decides(keep, p) ==> n == count_ids(
                    self.tiles@.subrange(0, i as int),
                    state.tiles@,
                    |t: Tile| t.unit matches Some(u) && p(u.kind),
                ),
                n <= i,
            decreases self.tiles.len() - i,
        {
            let id = self.tiles[i];
            let ghost before = n;
            assert(self.tiles@.subrange(0, i + 1).drop_last() =~= self.tiles@.subrange(0, i as int));
            assert(self.tiles@.subrange(0, i + 1).last() == id);
            match state.tiles[id.index()].unit {
                Some(u) => {
                    if keep(u.kind) {
                        n += 1;
                    }
                },
                None => {},
            }
            i += 1;
        }
        assert(self.tiles@.subrange(0, i as int) =~= self.tiles@);
        n
    }
}

/// The complete state of a match. Change it only through [`crate::apply::apply`].
#[derive(Debug, Clone, PartialEq)]
pub struct GameState {
    /// Full rounds completed; starts at 0.
    pub turn: u32,
    /// Faction whose turn it is.
    pub current: Faction,
    /// Tiles indexed by id.
    pub tiles: Vec<Tile>,
    /// Treasury per capital tile, keyed by tile index.
    pub treasuries: BTreeMap<u32, Treasury>,
    /// Match settings.
    pub settings: Settings,
    /// Running totals.
    pub stats: Stats,
    /// Set once a faction has won; no command is accepted afterwards.
    pub winner: Option<Faction>,
    /// Gameplay randomness (forest growth, capital relocation ties).
    pub rng: Mulberry32,
    /// Consecutive own turns each faction has held the majority, by turn order.
    pub majority_streak: [u8; 4],
}

/// The whole game state as a value.
#[verifier::ext_equal]
pub struct GameModel {
    /// Full rounds completed.
    pub turn: u32,
    /// Faction to move.
    pub current: Faction,
    /// Tiles by id.
    pub tiles: Seq<Tile>,
    /// Treasuries by capital tile.
    pub treasuries: Map<u32, Treasury>,
    /// Factions in play.
    pub factions: Seq<Faction>,
    /// Forest growth chance.
    pub forest_percent: u8,
    /// Victory rule.
    pub victory: VictoryRule,
    /// Starting treasury.
    pub starting_treasury: Treasury,
    /// Completed rounds as recorded for the statistics.
    pub stats_turns: u32,
    /// Units killed per faction.
    pub killed: Seq<u32>,
    /// Units lost per faction.
    pub lost: Seq<u32>,
    /// Gold earned per faction.
    pub all_time_gold: Seq<i64>,
    /// Winner, once there is one.
    pub winner: Option<Faction>,
    /// Generator state.
    pub rng: i32,
    /// Majority streaks per faction.
    pub majority_streak: Seq<u8>,
}

/// In the view, a unit is shown with its own class and owner, and as able to act exactly when
/// it belongs to the faction to move and has not acted this turn: no other faction's unit is ever
/// shown as able to act. A tile is shown as able to build exactly when it is a capital of the
/// faction to move whose treasury holds at least one gold.
pub proof fn lemma_view_can_act(m: GameModel, i: int)
    ensures
        (m.tiles[i].unit is None) == (view_tile(m, i).unit is None),
        m.tiles[i].unit matches Some(u) ==> (view_tile(m, i).unit matches Some(v) && v.kind == u.kind && v.owner
            == u.owner && (v.can_act <==> (u.owner == m.current && !u.acted))),
        view_tile(m, i).can_build <==> (m.tiles[i].cover == Cover::Capital && m.tiles[i].owner == Some(m.current)
            && m.treasuries.contains_key(i as u32) && m.treasuries[i as u32].gold >= 1),
{
}

impl GameState {
    /// The state as a value.
    pub open spec fn view(&self) -> GameModel {
        GameModel {
            turn: self.turn,
            current: self.current,
            tiles: self.tiles@,
            treasuries: self.treasuries@,
            factions: self.settings.factions@,
            forest_percent: self.settings.forest_percent,
            victory: self.settings.victory,
            starting_treasury: self.settings.starting_treasury,
            stats_turns: self.stats.turns,
            killed: self.stats.killed@,
            lost: self.stats.lost@,
            all_time_gold: self.stats.all_time_gold@,
            winner: self.winner,
            rng: self.rng.state(),
            majority_streak: self.majority_streak@,
        }
    }
}

/// The rules' tile for one snapshot tile: units start fresh, capitals date from turn 0.
pub open spec fn tile_from_state(t: TileState) -> Tile {
    Tile {
        terrain: t.terrain,
        cover: t.cover,
        owner: t.owner,
        unit: match t.unit {
            Some(u) => Some(Unit { kind: u.kind, owner: u.owner, born: 0, acted: false }),
            None => None,
        },
        capital_born: if t.cover == Cover::Capital { Some(0u32) } else { None },
    }
}

/// Ids of the capital tiles among the first `k`, as treasury keys.
pub open spec fn capitals_upto(tiles: Seq<Tile>, k: int) -> Set<u32>
    decreases k,
{
    if k <= 0 {
        Set::empty()
    } else if tiles[k - 1].cover == Cover::Capital {
        capitals_upto(tiles, k - 1).insert((k - 1) as u32)
    } else {
        capitals_upto(tiles, k - 1)
    }
}

/// Number of tiles satisfying `p`.
pub open spec fn count_tiles(tiles: Seq<Tile>, p: spec_fn(Tile) -> bool) -> nat
    decreases tiles.len(),
{
    if tiles.len() == 0 {
        0
    } else {
        count_tiles(tiles.drop_last(), p) + if p(tiles.last()) { 1nat } else { 0nat }
    }
}

/// `true` when some tile is a capital owned by `f`.
pub open spec fn holds_capital(tiles: Seq<Tile>, f: Faction) -> bool {
    exists|i: int| 0 <= i < tiles.len() && (#[trigger] tiles[i]).cover == Cover::Capital && tiles[i].owner
        == Some(f)
}

/// The factions of `factions` that still hold a capital, in order.
pub open spec fn living_of(factions: Seq<Faction>, tiles: Seq<Tile>) -> Seq<Faction>
    decreases factions.len(),
{
    if factions.len() == 0 {
        Seq::empty()
    } else if holds_capital(tiles, factions.last()) {
        living_of(factions.drop_last(), tiles).push(factions.last())
    } else {
        living_of(factions.drop_last(), tiles)
    }
}

/// What the view shows of one tile when `current` is to move: units can act while they have not
/// and belong to the mover; a capital of the mover can build while its treasury holds the price of
/// the cheapest purchase.
pub open spec fn view_tile(m: GameModel, i: int) -> TileState {
    let t = m.tiles[i];
    TileState {
        terrain: t.terrain,
        cover: t.cover,
        owner: t.owner,
        unit: match t.unit {
            Some(u) => Some(UnitView { kind: u.kind, owner: u.owner, can_act: !u.acted && u.owner == m.current }),
            None => None,
        },
        can_build: t.cover == Cover::Capital && t.owner == Some(m.current) && m.treasuries.contains_key(i as u32)
            && m.treasuries[i as u32].gold >= 1,
    }
}

impl GameState {
    /// Starts a match from a snapshot: tiles copy over, every `Capital` receives the starting
    /// treasury, and the first faction in play (or `Red`) moves first.
    pub fn new(world: &WorldSnapshot, settings: Settings, seed: u32) -> (s: GameState)
        requires
            world.tiles@.len() <= u32::MAX,
        ensures
            s@.turn == 0,
            s@.current == (if settings.factions@.len() > 0 { settings.factions@[0] } else { Faction::Red }),
            s@.tiles == Seq::new(world.tiles@.len(), |i: int| tile_from_state(world.tiles@[i])),
            s@.treasuries.dom() == capitals_upto(s@.tiles, s@.tiles.len() as int),
            forall|k: u32| #[trigger] s@.treasuries.contains_key(k) ==> s@.treasuries[k] == settings.starting_treasury,
            s@.factions == settings.factions@,
            s@.forest_percent == settings.forest_percent,
            s@.victory == settings.victory,
            s@.starting_treasury == settings.starting_treasury,
            s@.stats_turns == 0,
            s@.killed == seq![0u32, 0, 0, 0],
            s@.lost == seq![0u32, 0, 0, 0],
            s@.all_time_gold == seq![0i64, 0, 0, 0],
            s@.winner is None,
            s@.rng == seed as i32,
            s@.majority_streak == seq![0u8, 0, 0, 0],
    {
        let mut tiles: Vec<Tile> = Vec::new();
        let mut treasuries: BTreeMap<u32, Treasury> = BTreeMap::new();
        let mut i: usize = 0;
        while i < world.tiles.len()
            invariant
                i <= world.tiles@.len() <= u32::MAX,
                tiles@ == Seq::new(i as nat, |k: int| tile_from_state(world.tiles@[k])),
                treasuries@.dom() == capitals_upto(tiles@, i as int),
                forall|k: u32| #[trigger] treasuries@.contains_key(k) ==> treasuries@[k] == settings.starting_treasury,
            decreases world.tiles.len() - i,
        {
            let t = world.tiles[i];
            let tile = Tile {
                terrain: t.terrain,
                cover: t.cover,
                owner: t.owner,
                unit: match t.unit {
                    Some(u) => Some(Unit { kind: u.kind, owner: u.owner, born: 0, acted: false }),
                    None => None,
                },
                capital_born: if t.cover == Cover::Capital { Some(0u32) } else { None },
            };
            let ghost before = tiles@;
            tiles.push(tile);
            assert(tiles@ =~= Seq::new((i + 1) as nat, |k: int| tile_from_state(world.tiles@[k])));
            assert forall|k: int| 0 <= k < i implies before[k] == tiles@[k] by {}
            proof {
                lemma_capitals_upto_prefix(before, tiles@, i as int);
            }
            if t.cover == Cover::Capital {
                treasuries.insert(i as u32, settings.starting_treasury);
            }
            assert(treasuries@.dom() =~= capitals_upto(tiles@, i + 1));
            i += 1;
        }
        let current = if settings.factions.len() > 0 { settings.factions[0] } else { Faction::Red };
        GameState {
            turn: 0,
            current,
            tiles,
            treasuries,
            settings,
            stats: Stats::default(),
            winner: None,
            rng: Mulberry32::from_i32(seed as i32),
            majority_streak: [0, 0, 0, 0],
        }
    }

    /// Tile by id.
    pub fn tile(&self, id: TileId) -> (t: &Tile)
        requires
            id.0 < self.tiles@.len(),
        ensures
            *t == self.tiles@[id.0 as int],
    {
        &self.tiles[id.index()]
    }

    /// Every tile id in order.
    pub fn ids(&self) -> (ids: Vec<TileId>)
        requires
            self.tiles@.len() <= u32::MAX,
        ensures
            ids@ == Seq::new(self.tiles@.len(), |i: int| TileId(i as u32)),
    {
        let mut ids: Vec<TileId> = Vec::new();
        let mut i: usize = 0;
        while i < self.tiles.len()
            invariant
                i <= self.tiles@.len() <= u32::MAX,
                ids@ == Seq::new(i as nat, |k: int| TileId(k as u32)),
            decreases self.tiles.len() - i,
        {
            ids.push(TileId(i as u32));
            assert(ids@ =~= Seq::new((i + 1) as nat, |k: int| TileId(k as u32)));
            i += 1;
        }
        ids
    }

    /// Land tiles.
    pub fn land_count(&self) -> (n: usize)
        ensures
            n == count_tiles(self.tiles@, |t: Tile| t.terrain == Terrain::Land),
    {
        let mut n: usize = 0;
        let mut i: usize = 0;
        while i < self.tiles.len()
            invariant
                i <= self.tiles@.len(),
                n <= i,
                n == count_tiles(self.tiles@.subrange(0, i as int), |t: Tile| t.terrain == Terrain::Land),
            decreases self.tiles.len() - i,
        {
            assert(self.tiles@.subrange(0, i + 1).drop_last() =~= self.tiles@.subrange(0, i as int));
            if self.tiles[i].terrain.is_land() {
                n += 1;
            }
            i += 1;
        }
        assert(self.tiles@.subrange(0, i as int) =~= self.tiles@);
        n
    }

    /// Land tiles owned by `faction`.
    pub fn owned_count(&self, faction: Faction) -> (n: usize)
        ensures
            n == count_tiles(self.tiles@, |t: Tile| t.owner == Some(faction)),
    {
        let mut n: usize = 0;
        let mut i: usize = 0;
        while i < self.tiles.len()
            invariant
                i <= self.tiles@.len(),
                n <= i,
                n == count_tiles(self.tiles@.subrange(0, i as int), |t: Tile| t.owner == Some(faction)),
            decreases self.tiles.len() - i,
        {
            assert(self.tiles@.subrange(0, i + 1).drop_last() =~= self.tiles@.subrange(0, i as int));
            if self.tiles[i].owner == Some(faction) {
                n += 1;
            }
            i += 1;
        }
        assert(self.tiles@.subrange(0, i as int) =~= self.tiles@);
        n
    }

    /// `true` when some tile is a capital owned by `f`.
    fn has_capital(&self, f: Faction) -> (b: bool)
        ensures
            b == holds_capital(self.tiles@, f),
    {
        let mut i: usize = 0;
        while i < self.tiles.len()
            invariant
                i <= self.tiles@.len(),
                forall|k: int| 0 <= k < i ==> !((#[trigger] self.tiles@[k]).cover == Cover::Capital
                    && self.tiles@[k].owner == Some(f)),
            decreases self.tiles.len() - i,
        {
            if self.tiles[i].cover == Cover::Capital && self.tiles[i].owner == Some(f) {
                return true;
            }
            i += 1;
        }
        false
    }

    /// Factions that still own a capital, in turn order.
    pub fn living_factions(&self) -> (v: Vec<Faction>)
        ensures
            v@ == living_of(self.settings.factions@, self.tiles@),
    {
        let mut v: Vec<Faction> = Vec::new();
        let mut i: usize = 0;
        while i < self.settings.factions.len()
            invariant
                i <= self.settings.factions@.len(),
                v@ == living_of(self.settings.factions@.subrange(0, i as int), self.tiles@),
            decreases self.settings.factions.len() - i,
        {
            let f = self.settings.factions[i];
            let ghost sub = self.settings.factions@.subrange(0, i + 1);
            assert(sub.drop_last() =~= self.settings.factions@.subrange(0, i as int));
            assert(sub.last() == f);
            if self.has_capital(f) {
                v.push(f);
            }
            i += 1;
        }
        assert(self.settings.factions@.subrange(0, i as int) =~= self.settings.factions@);
        v
    }

    /// What the view needs; `frequency` and `seed` come from the level.
    pub fn snapshot(&self, frequency: u8, seed: u32) -> (w: WorldSnapshot)
        ensures
            w.frequency == frequency,
            w.seed == seed,
            w.tiles@ == Seq::new(self.tiles@.len(), |i: int| view_tile(self@, i)),
    {
        let cheapest = if FIELD_BASE_COST < PAWN_BASE_COST { FIELD_BASE_COST } else { PAWN_BASE_COST };
        let mut tiles: Vec<TileState> = Vec::new();
        let mut i: usize = 0;
        while i < self.tiles.len()
            invariant
                i <= self.tiles@.len(),
                cheapest == 1,
                tiles@ == Seq::new(i as nat, |k: int| view_tile(self@, k)),
            decreases self.tiles.len() - i,
        {
            let t = self.tiles[i];
            let unit = match t.unit {
                Some(u) => Some(UnitView { kind: u.kind, owner: u.owner, can_act: !u.acted && u.owner == self.current }),
                None => None,
            };
            let key = i as u32;
            let affordable = match self.treasuries.get(&key) {
                Some(tr) => tr.gold >= cheapest,
                None => false,
            };
            let can_build = t.cover == Cover::Capital && t.owner == Some(self.current) && affordable;
            tiles.push(TileState { terrain: t.terrain, cover: t.cover, owner: t.owner, unit, can_build });
            assert(tiles@ =~= Seq::new((i + 1) as nat, |k: int| view_tile(self@, k)));
            i += 1;
        }
        WorldSnapshot { frequency, seed, tiles }
    }
}

/// Capitals among a prefix only depend on that prefix.
proof fn lemma_capitals_upto_prefix(a: Seq<Tile>, b: Seq<Tile>, k: int)
    requires
        0 <= k <= a.len(),
        k <= b.len(),
        forall|j: int| 0 <= j < k ==> a[j] == b[j],
    ensures
        capitals_upto(a, k) == capitals_upto(b, k),
    decreases k,
{
    if k > 0 {
        lemma_capitals_upto_prefix(a, b, k - 1);
    }
}


/// A count never exceeds the number of ids counted.
pub proof fn lemma_count_ids_len(ids: Seq<TileId>, tiles: Seq<Tile>, p: spec_fn(Tile) -> bool)
    ensures
        count_ids(ids, tiles, p) <= ids.len(),
    decreases ids.len(),
{
    if ids.len() > 0 {
        lemma_count_ids_len(ids.drop_last(), tiles, p);
    }
}

impl GameState {
    /// A copy of the state.
    pub(crate) fn duplicate(&self) -> (s: GameState)
        ensures
            s@ == self@,
    {
        let tiles = self.tiles.clone();
        assert(tiles@ =~= self.tiles@);
        GameState {
            turn: self.turn,
            current: self.current,
            tiles,
            treasuries: self.treasuries.clone(),
            settings: self.settings.duplicate(),
            stats: Stats {
                turns: self.stats.turns,
                killed: self.stats.killed,
                lost: self.stats.lost,
                all_time_gold: self.stats.all_time_gold,
            },
            winner: self.winner,
            rng: self.rng,
            majority_streak: self.majority_streak,
        }
    }

    /// Mutable tile by id.
    pub fn tile_mut(&mut self, id: TileId) -> (t: &mut Tile)
        requires
            id.0 < old(self).tiles@.len(),
        ensures
            *t == old(self).tiles@[id.0 as int],
            final(self).tiles@ == old(self).tiles@.update(id.0 as int, *final(t)),
            final(self).turn == old(self).turn,
            final(self).current == old(self).current,
            final(self).treasuries == old(self).treasuries,
            final(self).settings == old(self).settings,
            final(self).stats == old(self).stats,
            final(self).winner == old(self).winner,
            final(self).rng == old(self).rng,
            final(self).majority_streak == old(self).majority_streak,
    {
        &mut self.tiles[id.index()]
    }
}

} // verus!
