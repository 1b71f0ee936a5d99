//! The single-line level string: its values, the cross-field rules, and the starting world.

use vstd::prelude::*;

use crate::faction::{faction_at, faction_index, faction_letter, Faction};
use crate::text::{decimal, push_chars, push_decimal, push_str, string_of};
use crate::tile::{
    default_tile, first_tile_violation, snapshot_valid, snapshot_violation, terrain_of_level, Cover, Terrain, TileState, UnitKind,
    UnitView, WorldSnapshot,
};
use crate::world::{frequency_is_valid, spec_frequency_is_valid, spec_tile_count, tile_count};

verus! {

/// Format tag every level starts with.
pub const FORMAT_VERSION: &'static str = "CL1";

/// Default land share in percent.
pub const DEFAULT_LAND_PERCENT: u8 = 42;
/// Default forest growth chance per forest tile per turn, in percent.
pub const DEFAULT_FOREST_PERCENT: u8 = 10;
/// Default AI hostility (0–100).
pub const DEFAULT_HOSTILITY: u8 = 50;
/// Default AI intelligence tier (0–3).
pub const DEFAULT_INTELLIGENCE: u8 = 1;

/// One AI player's profile.
#[derive(Debug, Clone, Copy, PartialEq, Eq, Structural)]
pub struct AiSpec {
    /// Which side the AI plays.
    pub faction: Faction,
    /// 0 = passive, 100 = attacks at every chance.
    pub hostility: u8,
    /// 0 = random legal moves, 3 = strongest tier.
    pub intelligence: u8,
}

/// How a match is won, beyond eliminating every rival capital.
#[derive(Debug, Clone, Copy, PartialEq, Eq, Structural)]
pub enum Victory {
    /// Own at least `percent` of the land for `turns` consecutive own turns.
    Majority {
        /// Land share in percent.
        percent: u8,
        /// Consecutive turns the share must hold.
        turns: u8,
    },
}

impl Default for Victory {
    fn default() -> (v: Victory)
        ensures
            v == (Victory::Majority { percent: 60, turns: 3 }),
    {
        Victory::Majority { percent: 60, turns: 3 }
    }
}

/// A change applied to tiles `from..=to` after generation. `None` fields keep the generated value;
/// `owner: Some(None)` clears the owner.
#[derive(Debug, Clone, Copy, PartialEq, Eq, Structural)]
pub struct TileDiff {
    /// First tile id.
    pub from: u32,
    /// Last tile id, inclusive.
    pub to: u32,
    /// `L` / `S`.
    pub terrain: Option<Terrain>,
    /// `E` / `F` / `O` / `T` / `C`.
    pub cover: Option<Cover>,
    /// `R` / `Y` / `G` / `B`, or `N` for none.
    pub owner: Option<Option<Faction>>,
    /// `p` / `w` / `k`.
    pub unit: Option<UnitKind>,
}

/// A parsed level.
#[derive(Debug, Clone, PartialEq, Eq)]
pub struct Level {
    /// Optional label, `[A-Za-z0-9_.-]+`.
    pub name: Option<String>,
    /// Hex-sphere frequency, `2..=12`.
    pub frequency: u8,
    /// World seed; `0` means no generated continents.
    pub seed: u32,
    /// Number of factions in play, `2..=4`, taken in turn order from `Red`.
    pub players: u8,
    /// Factions controlled by people; the rest are AI.
    pub humans: Vec<Faction>,
    /// Explicit AI profiles; unlisted AI factions use the defaults.
    pub ai: Vec<AiSpec>,
    /// Land share in percent for generation.
    pub land_percent: u8,
    /// Forest growth chance in percent per forest tile per turn.
    pub forest_percent: u8,
    /// Victory rule.
    pub victory: Victory,
    /// Tile diffs applied in order after generation.
    pub tiles: Vec<TileDiff>,
}

/// A level as a value.
#[verifier::ext_equal]
pub struct LevelView {
    /// Label.
    pub name: Option<Seq<char>>,
    /// Frequency.
    pub frequency: u8,
    /// Seed.
    pub seed: u32,
    /// Factions in play.
    pub players: u8,
    /// Human factions.
    pub humans: Seq<Faction>,
    /// AI profiles.
    pub ai: Seq<AiSpec>,
    /// Land share.
    pub land_percent: u8,
    /// Forest growth chance.
    pub forest_percent: u8,
    /// Victory rule.
    pub victory: Victory,
    /// Tile diffs.
    pub tiles: Seq<TileDiff>,
}

impl Level {
    /// The level as a value.
    pub open spec fn view(&self) -> LevelView {
        LevelView {
            name: match self.name {
                Some(s) => Some(s@),
                None => None,
            },
            frequency: self.frequency,
            seed: self.seed,
            players: self.players,
            humans: self.humans@,
            ai: self.ai@,
            land_percent: self.land_percent,
            forest_percent: self.forest_percent,
            victory: self.victory,
            tiles: self.tiles@,
        }
    }
}

/// The level every field of a level string starts from.
pub open spec fn default_level() -> LevelView {
    LevelView {
        name: None,
        frequency: 8,
        seed: 1,
        players: 2,
        humans: seq![Faction::Red],
        ai: Seq::empty(),
        land_percent: DEFAULT_LAND_PERCENT,
        forest_percent: DEFAULT_FOREST_PERCENT,
        victory: Victory::Majority { percent: 60, turns: 3 },
        tiles: Seq::empty(),
    }
}

impl Default for Level {
    fn default() -> (l: Level)
        ensures
            l@ == default_level(),
    {
        let mut humans = Vec::new();
        humans.push(Faction::Red);
        let l = Level {
            name: None,
            frequency: 8,
            seed: 1,
            players: 2,
            humans,
            ai: Vec::new(),
            land_percent: DEFAULT_LAND_PERCENT,
            forest_percent: DEFAULT_FOREST_PERCENT,
            victory: Victory::Majority { percent: 60, turns: 3 },
            tiles: Vec::new(),
        };
        assert(l@ =~= default_level());
        l
    }
}

/// Why a level string was rejected.
#[derive(Debug, Clone, PartialEq, Eq)]
pub enum LevelError {
    /// The string does not start with [`FORMAT_VERSION`].
    Version(String),
    /// A field without `=` or with an empty key.
    Field(String),
    /// A key the format does not define.
    UnknownKey(String),
    /// A key given twice.
    DuplicateKey(String),
    /// A value that does not parse or is out of range.
    Value {
        /// Field key.
        key: String,
        /// Offending value.
        value: String,
        /// What was expected.
        reason: String,
    },
    /// A tile entry that does not parse: the entry and what is wrong with it.
    Tile(String, String),
    /// A required key is absent.
    Missing(&'static str),
    /// A cross-field rule failed (see [`Level::validate`]).
    Invalid(String),
}

/// A level error as a value.
pub enum LevelErrorView {
    /// Bad format tag.
    Version(Seq<char>),
    /// Malformed field.
    Field(Seq<char>),
    /// Unknown key.
    UnknownKey(Seq<char>),
    /// Repeated key.
    DuplicateKey(Seq<char>),
    /// Bad value: key, value, reason.
    Value(Seq<char>, Seq<char>, Seq<char>),
    /// Bad tile entry: entry, reason.
    Tile(Seq<char>, Seq<char>),
    /// Missing key.
    Missing(Seq<char>),
    /// Broken cross-field rule.
    Invalid(Seq<char>),
}

impl LevelError {
    /// The error as a value.
    pub open spec fn view(&self) -> LevelErrorView {
        match self {
            LevelError::Version(s) => LevelErrorView::Version(s@),
            LevelError::Field(s) => LevelErrorView::Field(s@),
            LevelError::UnknownKey(s) => LevelErrorView::UnknownKey(s@),
            LevelError::DuplicateKey(s) => LevelErrorView::DuplicateKey(s@),
            LevelError::Value { key, value, reason } => LevelErrorView::Value(key@, value@, reason@),
            LevelError::Tile(e, r) => LevelErrorView::Tile(e@, r@),
            LevelError::Missing(s) => LevelErrorView::Missing(s@),
            LevelError::Invalid(s) => LevelErrorView::Invalid(s@),
        }
    }
}

// ---------------------------------------------------------------------------------------------
// Cross-field rules

/// `f` is among the first `players` factions.
pub open spec fn in_play(players: u8, f: Faction) -> bool {
    faction_index(f) < players
}

/// The first cross-field rule among AI profiles `ai[i..]` that fails, as a message.
pub open spec fn ai_violation(l: LevelView, i: int) -> Option<Seq<char>>
    decreases l.ai.len() - i,
{
    if i < 0 || i >= l.ai.len() {
        None
    } else {
        let a = l.ai[i];
        let letter = seq![faction_letter(a.faction)];
        if !in_play(l.players, a.faction) {
            Some("ai "@ + letter + " is not among the first "@ + decimal(l.players as nat) + " factions"@)
        } else if l.humans.contains(a.faction) {
            Some("faction "@ + letter + " is both human and ai"@)
        } else if exists|j: int| 0 <= j < i && (#[trigger] l.ai[j]).faction == a.faction {
            Some("ai "@ + letter + " listed twice"@)
        } else if a.hostility > 100 || a.intelligence > 3 {
            Some("ai "@ + letter + " out of range"@)
        } else {
            ai_violation(l, i + 1)
        }
    }
}

/// The first human faction from `i` on that is not in play, as a message.
pub open spec fn human_violation(l: LevelView, i: int) -> Option<Seq<char>>
    decreases l.humans.len() - i,
{
    if i < 0 || i >= l.humans.len() {
        None
    } else if !in_play(l.players, l.humans[i]) {
        Some("human "@ + seq![faction_letter(l.humans[i])] + " is not among the first "@ + decimal(l.players as nat)
            + " factions"@)
    } else {
        human_violation(l, i + 1)
    }
}

/// The first tile diff from `i` on that is out of range or names a faction not in play.
pub open spec fn diff_violation(l: LevelView, i: int) -> Option<Seq<char>>
    decreases l.tiles.len() - i,
{
    if i < 0 || i >= l.tiles.len() {
        None
    } else {
        let d = l.tiles[i];
        let count = spec_tile_count(l.frequency as int);
        if d.from > d.to || d.to >= count {
            Some("tile range "@ + decimal(d.from as nat) + "-"@ + decimal(d.to as nat) + " outside 0.."@ + decimal(
                count as nat,
            ))
        } else if d.owner matches Some(Some(f)) && !in_play(l.players, f) {
            Some("tile owner "@ + seq![faction_letter(d.owner->0->0)] + " is not in play"@)
        } else {
            diff_violation(l, i + 1)
        }
    }
}

/// The first cross-field rule the level breaks, as a message; `None` when it breaks none.
pub open spec fn level_violation(l: LevelView) -> Option<Seq<char>> {
    if !spec_frequency_is_valid(l.frequency as int) {
        Some("n="@ + decimal(l.frequency as nat) + " outside 2..=12"@)
    } else if !(2 <= l.players <= 4) {
        Some("players="@ + decimal(l.players as nat) + " outside 2..=4"@)
    } else if l.humans.len() == 0 {
        Some("at least one human faction"@)
    } else if human_violation(l, 0) is Some {
        human_violation(l, 0)
    } else if ai_violation(l, 0) is Some {
        ai_violation(l, 0)
    } else if l.land_percent > 100 || l.forest_percent > 100 {
        Some("percentages must be 0..=100"@)
    } else {
        diff_violation(l, 0)
    }
}

/// Pushes `"<a><letter><b>"`.
fn letter_message(a: &str, c: char, b: &str) -> (v: Vec<char>)
    ensures
        v@ == a@ + seq![c] + b@,
{
    let mut v = Vec::new();
    push_str(&mut v, a);
    v.push(c);
    push_str(&mut v, b);
    assert(v@ =~= a@ + seq![c] + b@);
    v
}

/// An `Invalid` error carrying `msg`.
fn invalid(msg: Vec<char>) -> (e: LevelError)
    ensures
        e@ == LevelErrorView::Invalid(msg@),
{
    LevelError::Invalid(string_of(&msg))
}

fn human_contains(humans: &Vec<Faction>, f: Faction) -> (b: bool)
    ensures
        b == humans@.contains(f),
{
    let mut i: usize = 0;
    while i < humans.len()
        invariant
            i <= humans@.len(),
            forall|k: int| 0 <= k < i ==> humans@[k] != f,
        decreases humans.len() - i,
    {
        if humans[i] == f {
            return true;
        }
        i += 1;
    }
    false
}

impl Level {
    /// Cross-field rules: factions in play, no faction both human and AI, tile ids in range.
    #[verifier::loop_isolation(false)]
    pub fn validate(&self) -> (r: Result<(), LevelError>)
        ensures
            r is Ok <==> level_violation(self@) is None,
            r matches Err(e) ==> level_violation(self@) matches Some(m) && e@ == LevelErrorView::Invalid(m),
    {
        let l = self;
        if !frequency_is_valid(l.frequency) {
            let mut m = Vec::new();
            push_str(&mut m, "n=");
            push_decimal(&mut m, l.frequency as u64);
            push_str(&mut m, " outside 2..=12");
            return Err(invalid(m));
        }
        if !(2 <= l.players && l.players <= 4) {
            let mut m = Vec::new();
            push_str(&mut m, "players=");
            push_decimal(&mut m, l.players as u64);
            push_str(&mut m, " outside 2..=4");
            return Err(invalid(m));
        }
        if l.humans.len() == 0 {
            let mut m = Vec::new();
            push_str(&mut m, "at least one human faction");
            assert(m@ =~= "at least one human faction"@);
            return Err(invalid(m));
        }
        let mut i: usize = 0;
        while i < l.humans.len()
            invariant
                i <= l.humans@.len(),
                human_violation(l@, 0) == human_violation(l@, i as int),
            decreases l.humans.len() - i,
        {
            let f = l.humans[i];
            if f.index() >= l.players as usize {
                let mut m = letter_message("human ", f.letter(), " is not among the first ");
                push_decimal(&mut m, l.players as u64);
                push_str(&mut m, " factions");
                return Err(invalid(m));
            }
            i += 1;
        }
        let mut i: usize = 0;
        while i < l.ai.len()
            invariant
                i <= l.ai@.len(),
                human_violation(l@, 0) is None,
                ai_violation(l@, 0) == ai_violation(l@, i as int),
            decreases l.ai.len() - i,
        {
            let a = l.ai[i];
            if a.faction.index() >= l.players as usize {
                let mut m = letter_message("ai ", a.faction.letter(), " is not among the first ");
                push_decimal(&mut m, l.players as u64);
                push_str(&mut m, " factions");
                return Err(invalid(m));
            }
            if human_contains(&l.humans, a.faction) {
                return Err(invalid(letter_message("faction ", a.faction.letter(), " is both human and ai")));
            }
            let mut j: usize = 0;
            while j < i
                invariant
                    j <= i < l.ai@.len(),
                    a == l.ai@[i as int],
                    forall|k: int| 0 <= k < j ==> (#[trigger] l.ai@[k]).faction != a.faction,
                decreases i - j,
            {
                if l.ai[j].faction == a.faction {
                    return Err(invalid(letter_message("ai ", a.faction.letter(), " listed twice")));
                }
                j += 1;
            }
            if a.hostility > 100 || a.intelligence > 3 {
                return Err(invalid(letter_message("ai ", a.faction.letter(), " out of range")));
            }
            i += 1;
        }
        if l.land_percent > 100 || l.forest_percent > 100 {
            let mut m = Vec::new();
            push_str(&mut m, "percentages must be 0..=100");
            assert(m@ =~= "percentages must be 0..=100"@);
            return Err(invalid(m));
        }
        let count = tile_count(l.frequency);
        let mut i: usize = 0;
        while i < l.tiles.len()
            invariant
                i <= l.tiles@.len(),
                count == spec_tile_count(l.frequency as int),
                level_violation(l@) == diff_violation(l@, i as int),
            decreases l.tiles.len() - i,
        {
            let d = l.tiles[i];
            if d.from > d.to || d.to as usize >= count {
                let mut m = Vec::new();
                push_str(&mut m, "tile range ");
                push_decimal(&mut m, d.from as u64);
                push_str(&mut m, "-");
                push_decimal(&mut m, d.to as u64);
                push_str(&mut m, " outside 0..");
                push_decimal(&mut m, count as u64);
                return Err(invalid(m));
            }
            match d.owner {
                Some(Some(f)) => {
                    if f.index() >= l.players as usize {
                        return Err(invalid(letter_message("tile owner ", f.letter(), " is not in play")));
                    }
                },
                _ => {},
            }
            i += 1;
        }
        Ok(())
    }

    /// Factions in play, in turn order.
    pub fn factions(&self) -> (v: Vec<Faction>)
        requires
            self.players <= 4,
        ensures
            v@ == Seq::new(self.players as nat, |i: int| faction_at(i)),
    {
        let mut v = Vec::new();
        let mut i: usize = 0;
        while i < self.players as usize
            invariant
                i <= self.players <= 4,
                v@ == Seq::new(i as nat, |k: int| faction_at(k)),
            decreases self.players - i,
        {
            v.push(Faction::from_index(i).unwrap());
            assert(v@ =~= Seq::new((i + 1) as nat, |k: int| faction_at(k)));
            i += 1;
        }
        v
    }

    /// AI profile for a faction: the explicit one, or defaults for any non-human faction in play.
    pub fn ai_for(&self, f: Faction) -> (a: Option<AiSpec>)
        ensures
            a == spec_ai_for(self@, f),
    {
        if human_contains(&self.humans, f) || f.index() >= self.players as usize {
            return None;
        }
        let mut i: usize = 0;
        while i < self.ai.len()
            invariant
                i <= self.ai@.len(),
                !self.humans@.contains(f),
                in_play(self.players, f),
                first_ai_from(self@.ai, f, 0) == first_ai_from(self@.ai, f, i as int),
            decreases self.ai.len() - i,
        {
            if self.ai[i].faction == f {
                return Some(self.ai[i]);
            }
            i += 1;
        }
        Some(AiSpec { faction: f, hostility: DEFAULT_HOSTILITY, intelligence: DEFAULT_INTELLIGENCE })
    }
}

/// The first AI profile from `i` on that is for `f`.
pub open spec fn first_ai_from(ai: Seq<AiSpec>, f: Faction, i: int) -> Option<AiSpec>
    decreases ai.len() - i,
{
    if i < 0 || i >= ai.len() {
        None
    } else if ai[i].faction == f {
        Some(ai[i])
    } else {
        first_ai_from(ai, f, i + 1)
    }
}

/// The AI profile of `f`: none for a human or a faction not in play; the first explicit one; or
/// the defaults.
pub open spec fn spec_ai_for(l: LevelView, f: Faction) -> Option<AiSpec> {
    if l.humans.contains(f) || !in_play(l.players, f) {
        None
    } else {
        match first_ai_from(l.ai, f, 0) {
            Some(a) => Some(a),
            None => Some(AiSpec { faction: f, hostility: DEFAULT_HOSTILITY, intelligence: DEFAULT_INTELLIGENCE }),
        }
    }
}

// ---------------------------------------------------------------------------------------------
// The starting world

/// One tile after a diff: a sea terrain clears cover, owner and unit; a unit takes the tile's
/// owner, and needs one.
pub open spec fn diff_tile(t: TileState, d: TileDiff) -> TileState {
    let t1 = match d.terrain {
        Some(terrain) => if terrain == Terrain::Sea {
            TileState { terrain, cover: Cover::Empty, owner: None, unit: None, ..t }
        } else {
            TileState { terrain, ..t }
        },
        None => t,
    };
    let t2 = match d.cover {
        Some(c) => TileState { cover: c, ..t1 },
        None => t1,
    };
    let t3 = match d.owner {
        Some(o) => TileState { owner: o, ..t2 },
        None => t2,
    };
    match d.unit {
        Some(kind) => TileState {
            unit: match t3.owner {
                Some(o) => Some(UnitView { kind, owner: o, can_act: false }),
                None => None,
            },
            ..t3
        },
        None => t3,
    }
}

/// The tiles after one diff.
pub open spec fn apply_diff(tiles: Seq<TileState>, d: TileDiff) -> Seq<TileState> {
    Seq::new(tiles.len(), |i: int| if d.from <= i <= d.to { diff_tile(tiles[i], d) } else { tiles[i] })
}

/// The tiles after the first `k` diffs.
pub open spec fn apply_diffs(tiles: Seq<TileState>, diffs: Seq<TileDiff>, k: int) -> Seq<TileState>
    decreases k,
{
    if k <= 0 {
        tiles
    } else {
        apply_diff(apply_diffs(tiles, diffs, k - 1), diffs[k - 1])
    }
}

/// The generated world before diffs: all sea for seed 0, else the generated terrain and cover.
pub open spec fn base_tiles(l: LevelView, levels: Seq<i32>, cover: Seq<Cover>) -> Seq<TileState> {
    Seq::new(spec_tile_count(l.frequency as int) as nat, |i: int| if l.seed == 0 {
        default_tile()
    } else {
        TileState { terrain: terrain_of_level(levels[i] as int), cover: cover[i], ..default_tile() }
    })
}

/// What `to_snapshot` can work with: a supported frequency, diffs inside the sphere and, for a
/// generated world, one terrain level and one cover per tile.
pub open spec fn snapshot_inputs_ok(l: LevelView, levels: Seq<i32>, cover: Seq<Cover>) -> bool {
    &&& spec_frequency_is_valid(l.frequency as int)
    &&& forall|i: int| 0 <= i < l.tiles.len() ==> (#[trigger] l.tiles[i]).to < spec_tile_count(l.frequency as int)
    &&& l.seed != 0 ==> levels.len() == spec_tile_count(l.frequency as int) && cover.len() == spec_tile_count(
        l.frequency as int,
    )
}

fn diff_one(t: TileState, d: TileDiff) -> (r: TileState)
    ensures
        r == diff_tile(t, d),
{
    let mut t = t;
    match d.terrain {
        Some(terrain) => {
            t.terrain = terrain;
            if terrain == Terrain::Sea {
                t.cover = Cover::Empty;
                t.owner = None;
                t.unit = None;
            }
        },
        None => {},
    }
    match d.cover {
        Some(c) => t.cover = c,
        None => {},
    }
    match d.owner {
        Some(o) => t.owner = o,
        None => {},
    }
    match d.unit {
        Some(kind) => {
            t.unit = match t.owner {
                Some(o) => Some(UnitView { kind, owner: o, can_act: false }),
                None => None,
            };
        },
        None => {},
    }
    t
}

impl Level {
    /// The starting world: the generated terrain and cover (none when `seed == 0`), then every
    /// diff. `levels` and `cover` are the generator's output for this level, one entry per tile;
    /// they are not read when `seed == 0`. Fails when the diffs produce an impossible tile, such as
    /// a capital without an owner.
    pub fn to_snapshot(&self, levels: &[i32], cover: &[Cover]) -> (r: Result<WorldSnapshot, LevelError>)
        requires
            snapshot_inputs_ok(self@, levels@, cover@),
        ensures
            match r {
                Ok(w) => {
                    &&& w.frequency == self.frequency
                    &&& w.seed == self.seed
                    &&& w.tiles@ == apply_diffs(base_tiles(self@, levels@, cover@), self@.tiles, self@.tiles.len() as int)
                    &&& snapshot_valid(w.frequency, w.tiles@)
                },
                Err(e) => {
                    let tiles = apply_diffs(base_tiles(self@, levels@, cover@), self@.tiles, self@.tiles.len() as int);
                    &&& snapshot_violation(self.frequency, tiles) matches Some(m)
                    &&& e@ == LevelErrorView::Invalid(m)
                    &&& m.len() >= 6 && m.subrange(0, 6) == "tile #"@
                },
            },
            self.seed == 0 && self.tiles@.len() == 0 ==> (r matches Ok(w) && w.tiles@ == Seq::new(
                spec_tile_count(self.frequency as int) as nat,
                |i: int| default_tile(),
            )),
    {
        proof {
            if self.seed == 0 && self.tiles@.len() == 0 {
                let plain = apply_diffs(base_tiles(self@, levels@, cover@), self@.tiles, 0);
                assert(plain =~= Seq::new(spec_tile_count(self.frequency as int) as nat, |i: int| default_tile()));
                crate::tile::lemma_snapshot_violation_iff_invalid(self.frequency, plain);
                assert(snapshot_valid(self.frequency, plain));
            }
        }
        let n = tile_count(self.frequency);
        let mut world = WorldSnapshot::new(self.frequency, self.seed);
        if self.seed != 0 {
            let mut i: usize = 0;
            while i < n
                invariant
                    i <= n,
                    n == spec_tile_count(self.frequency as int),
                    self.seed != 0,
                    levels@.len() == n && cover@.len() == n,
                    world.frequency == self.frequency,
                    world.seed == self.seed,
                    world.tiles@.len() == n,
                    forall|k: int| 0 <= k < i ==> #[trigger] world.tiles@[k] == base_tiles(self@, levels@, cover@)[k],
                    forall|k: int| i <= k < n ==> #[trigger] world.tiles@[k] == default_tile(),
                decreases n - i,
            {
                let t = TileState {
                    terrain: Terrain::from_level(levels[i]),
                    cover: cover[i],
                    owner: None,
                    unit: None,
                    can_build: false,
                };
                world.tiles.set(i, t);
                i += 1;
            }
        }
        assert(world.tiles@ =~= base_tiles(self@, levels@, cover@));
        let mut k: usize = 0;
        while k < self.tiles.len()
            invariant
                k <= self.tiles@.len(),
                n == spec_tile_count(self.frequency as int),
                snapshot_inputs_ok(self@, levels@, cover@),
                world.frequency == self.frequency,
                world.seed == self.seed,
                world.tiles@ == apply_diffs(base_tiles(self@, levels@, cover@), self@.tiles, k as int),
                world.tiles@.len() == n,
            decreases self.tiles.len() - k,
        {
            let d = self.tiles[k];
            let ghost before = world.tiles@;
            assert(d.to < n);
            let mut id: u64 = d.from as u64;
            while id <= d.to as u64
                invariant
                    d.from <= id,
                    d.from <= d.to ==> id <= d.to + 1,
                    d.from > d.to ==> id == d.from,
                    d.to < n,
                    n == before.len(),
                    world.frequency == self.frequency,
                    world.seed == self.seed,
                    world.tiles@.len() == before.len(),
                    forall|x: int| 0 <= x < before.len() ==> #[trigger] world.tiles@[x] == if d.from <= x < id {
                        diff_tile(before[x], d)
                    } else {
                        before[x]
                    },
                decreases d.to + 1 - id,
            {
                let t = world.tiles[id as usize];
                world.tiles.set(id as usize, diff_one(t, d));
                id = id + 1;
            }
            proof {
                assert forall|x: int| 0 <= x < before.len() implies #[trigger] world.tiles@[x] == apply_diff(before, d)[x] by {
                    assert((d.from <= x < id) == (d.from <= x <= d.to));
                }
                assert(world.tiles@ =~= apply_diff(before, d));
            }
            k += 1;
        }
        match world.validate() {
            Ok(()) => Ok(world),
            Err(m) => {
                proof {
                    crate::tile::lemma_first_tile_violation(world.tiles@, 0);
                    reveal_strlit("tile #");
                    let ghost v = snapshot_violation(self.frequency, world.tiles@).unwrap();
                    let ghost (i, tm) = first_tile_violation(world.tiles@, 0).unwrap();
                    assert(v == "tile #"@ + decimal(i as nat) + ": "@ + tm);
                    assert(v.subrange(0, 6) =~= "tile #"@);
                }
                Err(LevelError::Invalid(m))
            },
        }
    }
}

} // verus!
