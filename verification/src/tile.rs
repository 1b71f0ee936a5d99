//! Tile ids, terrain, cover, units and the per-tile state the view reads.

use vstd::prelude::*;

use crate::faction::Faction;
use crate::text::{decimal, push_decimal, push_str, string_of};
use crate::world::{spec_tile_count, tile_count};

verus! {

/// Index of a tile on the hex sphere. Ids follow the geodesic build order and are stable for a
/// given frequency.
#[derive(Debug, Clone, Copy, PartialEq, Eq, Structural, PartialOrd, Ord, Hash)]
pub struct TileId(pub u32);

impl TileId {
    /// The id as a `Vec` index.
    pub fn index(self) -> (i: usize)
        ensures
            i == self.0,
    {
        self.0 as usize
    }
}

/// Elevation class of a tile. Level 0 is the land shell, level -1 the sea shell below it.
#[derive(Debug, Clone, Copy, PartialEq, Eq, Structural, Hash)]
pub enum Terrain {
    /// Claimable, buildable ground.
    Land,
    /// Water: nothing stands or moves here.
    Sea,
}

impl Default for Terrain {
    fn default() -> (t: Terrain)
        ensures
            t == Terrain::Sea,
    {
        Terrain::Sea
    }
}

/// Integer elevation level of a terrain.
pub open spec fn terrain_level(t: Terrain) -> int {
    match t {
        Terrain::Land => 0,
        Terrain::Sea => -1,
    }
}

/// The terrain of an elevation level: anything at or above 0 is land.
pub open spec fn terrain_of_level(level: int) -> Terrain {
    if level >= 0 { Terrain::Land } else { Terrain::Sea }
}

/// The level-string letter of a terrain.
pub open spec fn terrain_letter(t: Terrain) -> char {
    match t {
        Terrain::Land => 'L',
        Terrain::Sea => 'S',
    }
}

/// The terrain a level-string letter stands for.
pub open spec fn terrain_of_letter(c: char) -> Option<Terrain> {
    if c == 'L' {
        Some(Terrain::Land)
    } else if c == 'S' {
        Some(Terrain::Sea)
    } else {
        None
    }
}

impl Terrain {
    /// Integer elevation level of the terrain.
    pub fn level(self) -> (l: i32)
        ensures
            l == terrain_level(self),
    {
        match self {
            Terrain::Land => 0,
            Terrain::Sea => -1,
        }
    }

    /// Inverse of [`Terrain::level`]: anything at or above 0 is land.
    pub fn from_level(level: i32) -> (t: Terrain)
        ensures
            t == terrain_of_level(level as int),
    {
        if level >= 0 {
            Terrain::Land
        } else {
            Terrain::Sea
        }
    }

    /// Level-string code (`L` or `S`).
    pub fn letter(self) -> (c: char)
        ensures
            c == terrain_letter(self),
    {
        match self {
            Terrain::Land => 'L',
            Terrain::Sea => 'S',
        }
    }

    /// Inverse of [`Terrain::letter`].
    pub fn from_letter(c: char) -> (t: Option<Terrain>)
        ensures
            t == terrain_of_letter(c),
    {
        if c == 'L' {
            Some(Terrain::Land)
        } else if c == 'S' {
            Some(Terrain::Sea)
        } else {
            None
        }
    }

    /// `true` for [`Terrain::Land`].
    pub fn is_land(self) -> (b: bool)
        ensures
            b == (self == Terrain::Land),
    {
        match self {
            Terrain::Land => true,
            Terrain::Sea => false,
        }
    }
}

/// What stands on a land tile. One per tile, mutually exclusive.
#[derive(Debug, Clone, Copy, PartialEq, Eq, Structural, Hash)]
pub enum Cover {
    /// Bare grass: +1 wheat per turn when owned.
    Empty,
    /// Farmland: +2 wheat per turn.
    Field,
    /// Woods: yields nothing.
    Forest,
    /// Village.
    Town,
    /// Seat of a territory: +1 wheat, +1 gold per turn and the territory's treasury.
    Capital,
}

impl Default for Cover {
    fn default() -> (c: Cover)
        ensures
            c == Cover::Empty,
    {
        Cover::Empty
    }
}

/// The level-string letter of a cover.
pub open spec fn cover_letter(c: Cover) -> char {
    match c {
        Cover::Empty => 'E',
        Cover::Field => 'F',
        Cover::Forest => 'O',
        Cover::Town => 'T',
        Cover::Capital => 'C',
    }
}

/// The cover a level-string letter stands for.
pub open spec fn cover_of_letter(c: char) -> Option<Cover> {
    if c == 'E' {
        Some(Cover::Empty)
    } else if c == 'F' {
        Some(Cover::Field)
    } else if c == 'O' {
        Some(Cover::Forest)
    } else if c == 'T' {
        Some(Cover::Town)
    } else if c == 'C' {
        Some(Cover::Capital)
    } else {
        None
    }
}

/// The variant name of a cover, as debug output writes it.
pub open spec fn cover_name(c: Cover) -> Seq<char> {
    match c {
        Cover::Empty => "Empty"@,
        Cover::Field => "Field"@,
        Cover::Forest => "Forest"@,
        Cover::Town => "Town"@,
        Cover::Capital => "Capital"@,
    }
}

impl Cover {
    /// Level-string code (`E`, `F`, `O`, `T`, `C`).
    pub fn letter(self) -> (l: char)
        ensures
            l == cover_letter(self),
    {
        match self {
            Cover::Empty => 'E',
            Cover::Field => 'F',
            Cover::Forest => 'O',
            Cover::Town => 'T',
            Cover::Capital => 'C',
        }
    }

    /// Inverse of [`Cover::letter`].
    pub fn from_letter(c: char) -> (r: Option<Cover>)
        ensures
            r == cover_of_letter(c),
    {
        if c == 'E' {
            Some(Cover::Empty)
        } else if c == 'F' {
            Some(Cover::Field)
        } else if c == 'O' {
            Some(Cover::Forest)
        } else if c == 'T' {
            Some(Cover::Town)
        } else if c == 'C' {
            Some(Cover::Capital)
        } else {
            None
        }
    }

    /// `Town` or `Capital`: the covers an enemy unit destroys or takes over.
    pub fn is_building(self) -> (b: bool)
        ensures
            b == (self == Cover::Town || self == Cover::Capital),
    {
        match self {
            Cover::Town | Cover::Capital => true,
            _ => false,
        }
    }

    /// The variant name, as debug output writes it.
    pub fn name(self) -> (s: &'static str)
        ensures
            s@ == cover_name(self),
    {
        match self {
            Cover::Empty => "Empty",
            Cover::Field => "Field",
            Cover::Forest => "Forest",
            Cover::Town => "Town",
            Cover::Capital => "Capital",
        }
    }
}

/// Unit class; each upgrade is a strict superset of the previous one's moves.
#[derive(Debug, Clone, Copy, PartialEq, Eq, Structural, PartialOrd, Ord, Hash)]
pub enum UnitKind {
    /// Claims empty, forest and field tiles.
    Pawn,
    /// Also takes towns, capitals and enemy pawns.
    Warrior,
    /// Also takes enemy warriors and knights.
    Knight,
}

/// The level-string letter of a unit class.
pub open spec fn unit_letter(u: UnitKind) -> char {
    match u {
        UnitKind::Pawn => 'p',
        UnitKind::Warrior => 'w',
        UnitKind::Knight => 'k',
    }
}

/// The unit class a level-string letter stands for.
pub open spec fn unit_of_letter(c: char) -> Option<UnitKind> {
    if c == 'p' {
        Some(UnitKind::Pawn)
    } else if c == 'w' {
        Some(UnitKind::Warrior)
    } else if c == 'k' {
        Some(UnitKind::Knight)
    } else {
        None
    }
}

impl UnitKind {
    /// Level-string code (`p`, `w`, `k`).
    pub fn letter(self) -> (l: char)
        ensures
            l == unit_letter(self),
    {
        match self {
            UnitKind::Pawn => 'p',
            UnitKind::Warrior => 'w',
            UnitKind::Knight => 'k',
        }
    }

    /// Inverse of [`UnitKind::letter`].
    pub fn from_letter(c: char) -> (r: Option<UnitKind>)
        ensures
            r == unit_of_letter(c),
    {
        if c == 'p' {
            Some(UnitKind::Pawn)
        } else if c == 'w' {
            Some(UnitKind::Warrior)
        } else if c == 'k' {
            Some(UnitKind::Knight)
        } else {
            None
        }
    }
}

/// A unit as the view needs it.
#[derive(Debug, Clone, Copy, PartialEq, Eq, Structural)]
pub struct UnitView {
    /// Class of the unit.
    pub kind: UnitKind,
    /// Faction that owns it.
    pub owner: Faction,
    /// `true` while the unit still has a move or upgrade this turn.
    pub can_act: bool,
}

/// Everything the view needs to know about one tile.
#[derive(Debug, Clone, Copy, PartialEq, Eq, Structural)]
pub struct TileState {
    /// Land or sea.
    pub terrain: Terrain,
    /// What stands on the tile.
    pub cover: Cover,
    /// Faction whose territory includes the tile.
    pub owner: Option<Faction>,
    /// Unit standing on the tile.
    pub unit: Option<UnitView>,
    /// `true` on a capital whose territory can afford something.
    pub can_build: bool,
}

/// Unowned sea with nothing on it.
pub open spec fn default_tile() -> TileState {
    TileState { terrain: Terrain::Sea, cover: Cover::Empty, owner: None, unit: None, can_build: false }
}

impl Default for TileState {
    fn default() -> (t: TileState)
        ensures
            t == default_tile(),
    {
        TileState { terrain: Terrain::Sea, cover: Cover::Empty, owner: None, unit: None, can_build: false }
    }
}

/// The first cross-field rule a tile breaks, as a message; `None` when it breaks none.
pub open spec fn tile_violation(t: TileState) -> Option<Seq<char>> {
    if t.terrain == Terrain::Sea && t.cover != Cover::Empty {
        Some("sea tile carries cover "@ + cover_name(t.cover))
    } else if t.terrain == Terrain::Sea && t.owner is Some {
        Some("sea tile has an owner"@)
    } else if t.terrain == Terrain::Sea && t.unit is Some {
        Some("sea tile has a unit"@)
    } else if t.cover == Cover::Capital && t.owner is None {
        Some("capital without an owner"@)
    } else if t.can_build && t.cover != Cover::Capital {
        Some("can_build set on a non-capital"@)
    } else {
        None
    }
}

/// The tile obeys every cross-field rule: nothing stands on, owns or acts from the sea; a capital
/// has an owner; only a capital can build.
pub open spec fn tile_valid(t: TileState) -> bool {
    &&& t.terrain == Terrain::Sea ==> t.cover == Cover::Empty && t.owner is None && t.unit is None
    &&& t.cover == Cover::Capital ==> t.owner is Some
    &&& t.can_build ==> t.cover == Cover::Capital
}

/// Every terrain, cover and unit class has one level-string letter, and reading a letter back
/// gives the same value; a terrain's level reads back as that terrain.
pub proof fn lemma_tile_codes(t: Terrain, c: Cover, u: UnitKind)
    ensures
        terrain_of_letter(terrain_letter(t)) == Some(t),
        cover_of_letter(cover_letter(c)) == Some(c),
        unit_of_letter(unit_letter(u)) == Some(u),
        terrain_of_level(terrain_level(t)) == t,
{
}

/// A letter that names a terrain, cover or unit class is that value's letter.
pub proof fn lemma_tile_letters_back(ch: char)
    ensures
        terrain_of_letter(ch) matches Some(t) ==> terrain_letter(t) == ch,
        cover_of_letter(ch) matches Some(c) ==> cover_letter(c) == ch,
        unit_of_letter(ch) matches Some(u) ==> unit_letter(u) == ch,
{
}

/// How many of `tiles` are land.
pub open spec fn land_tiles(tiles: Seq<TileState>) -> nat
    decreases tiles.len(),
{
    if tiles.len() == 0 {
        0
    } else {
        land_tiles(tiles.drop_last()) + if tiles.last().terrain == Terrain::Land { 1nat } else { 0nat }
    }
}

/// A tile has a violation exactly when it is not valid.
pub proof fn lemma_tile_violation_iff_invalid(t: TileState)
    ensures
        tile_violation(t) is None <==> tile_valid(t),
{
}

impl TileState {
    /// Bare, unowned land.
    pub fn land() -> (t: TileState)
        ensures
            t == (TileState { terrain: Terrain::Land, ..default_tile() }),
    {
        TileState { terrain: Terrain::Land, cover: Cover::Empty, owner: None, unit: None, can_build: false }
    }

    /// Checks the cross-field rules; `Err` names the first violation.
    pub fn validate(&self) -> (r: Result<(), String>)
        ensures
            r is Ok <==> tile_violation(*self) is None,
            r matches Err(m) ==> tile_violation(*self) == Some(m@),
    {
        let mut msg: Vec<char> = Vec::new();
        if self.terrain == Terrain::Sea {
            if self.cover != Cover::Empty {
                push_str(&mut msg, "sea tile carries cover ");
                push_str(&mut msg, self.cover.name());
                return Err(string_of(&msg));
            }
            if self.owner.is_some() {
                push_str(&mut msg, "sea tile has an owner");
                assert(msg@ =~= "sea tile has an owner"@);
                return Err(string_of(&msg));
            }
            if self.unit.is_some() {
                push_str(&mut msg, "sea tile has a unit");
                assert(msg@ =~= "sea tile has a unit"@);
                return Err(string_of(&msg));
            }
        }
        if self.cover == Cover::Capital && self.owner.is_none() {
            push_str(&mut msg, "capital without an owner");
            assert(msg@ =~= "capital without an owner"@);
            return Err(string_of(&msg));
        }
        if self.can_build && self.cover != Cover::Capital {
            push_str(&mut msg, "can_build set on a non-capital");
            assert(msg@ =~= "can_build set on a non-capital"@);
            return Err(string_of(&msg));
        }
        Ok(())
    }
}

/// Frequency, seed and one [`TileState`] per tile: the complete input of the view layer.
#[derive(Debug, Clone, PartialEq, Eq)]
pub struct WorldSnapshot {
    /// Hex-sphere frequency `n`; the sphere has `10n² + 2` tiles.
    pub frequency: u8,
    /// Seed the world was generated from (0 = no generated continents).
    pub seed: u32,
    /// One entry per tile, indexed by [`TileId`].
    pub tiles: Vec<TileState>,
}

/// The first tile from `i` on that breaks a rule, with its message.
pub open spec fn first_tile_violation(tiles: Seq<TileState>, i: int) -> Option<(int, Seq<char>)>
    decreases tiles.len() - i,
{
    if i < 0 || i >= tiles.len() {
        None
    } else if tile_violation(tiles[i]) is Some {
        Some((i, tile_violation(tiles[i]).unwrap()))
    } else {
        first_tile_violation(tiles, i + 1)
    }
}

/// The first rule a snapshot breaks, as a message; `None` when it breaks none.
pub open spec fn snapshot_violation(frequency: u8, tiles: Seq<TileState>) -> Option<Seq<char>> {
    let expected = spec_tile_count(frequency as int);
    if tiles.len() != expected {
        Some("frequency "@ + decimal(frequency as nat) + " needs "@ + decimal(expected as nat)
            + " tiles, snapshot has "@ + decimal(tiles.len()))
    } else {
        match first_tile_violation(tiles, 0) {
            Some((i, m)) => Some("tile #"@ + decimal(i as nat) + ": "@ + m),
            None => None,
        }
    }
}

/// A snapshot of the right size whose every tile obeys the per-tile rules.
pub open spec fn snapshot_valid(frequency: u8, tiles: Seq<TileState>) -> bool {
    &&& tiles.len() == spec_tile_count(frequency as int)
    &&& forall|i: int| 0 <= i < tiles.len() ==> tile_valid(#[trigger] tiles[i])
}

/// No violation found from `i` on means every tile from `i` on is valid.
pub proof fn lemma_first_tile_violation(tiles: Seq<TileState>, i: int)
    requires
        0 <= i,
    ensures
        first_tile_violation(tiles, i) is None <==> forall|j: int|
            i <= j < tiles.len() ==> tile_valid(#[trigger] tiles[j]),
        first_tile_violation(tiles, i) matches Some((j, m)) ==> i <= j < tiles.len()
            && tile_violation(tiles[j]) == Some(m),
    decreases tiles.len() - i,
{
    if i < tiles.len() {
        lemma_first_tile_violation(tiles, i + 1);
        lemma_tile_violation_iff_invalid(tiles[i]);
        if first_tile_violation(tiles, i + 1) is None && tile_violation(tiles[i]) is None {
            assert forall|j: int| i <= j < tiles.len() implies tile_valid(#[trigger] tiles[j]) by {
                if j == i {
                } else {
                }
            }
        }
    }
}

/// A snapshot has a violation exactly when it is not valid.
pub proof fn lemma_snapshot_violation_iff_invalid(frequency: u8, tiles: Seq<TileState>)
    ensures
        snapshot_violation(frequency, tiles) is None <==> snapshot_valid(frequency, tiles),
{
    lemma_first_tile_violation(tiles, 0);
}

impl WorldSnapshot {
    /// All-sea snapshot of the right size.
    pub fn new(frequency: u8, seed: u32) -> (w: WorldSnapshot)
        ensures
            w.frequency == frequency,
            w.seed == seed,
            w.tiles@ == Seq::new(spec_tile_count(frequency as int) as nat, |i: int| default_tile()),
    {
        let n = tile_count(frequency);
        let mut tiles: Vec<TileState> = Vec::new();
        let mut i: usize = 0;
        while i < n
            invariant
                i <= n,
                tiles@ == Seq::new(i as nat, |k: int| default_tile()),
            decreases n - i,
        {
            tiles.push(TileState::default());
            assert(tiles@ =~= Seq::new((i + 1) as nat, |k: int| default_tile()));
            i += 1;
        }
        WorldSnapshot { frequency, seed, tiles }
    }

    /// State of one tile.
    pub fn tile(&self, id: TileId) -> (t: &TileState)
        requires
            id.0 < self.tiles.len(),
        ensures
            *t == self.tiles@[id.0 as int],
    {
        &self.tiles[id.index()]
    }

    /// Mutable state of one tile.
    pub fn tile_mut(&mut self, id: TileId) -> (t: &mut TileState)
        requires
            id.0 < old(self).tiles.len(),
        ensures
            *t == old(self).tiles@[id.0 as int],
            final(self).tiles@ == old(self).tiles@.update(id.0 as int, *final(t)),
            final(self).frequency == old(self).frequency,
            final(self).seed == old(self).seed,
    {
        &mut self.tiles[id.index()]
    }

    /// Ids of every tile, in order.
    pub fn ids(&self) -> (ids: Vec<TileId>)
        requires
            self.tiles.len() <= u32::MAX,
        ensures
            ids@ == Seq::new(self.tiles.len() as nat, |i: int| TileId(i as u32)),
    {
        let mut ids: Vec<TileId> = Vec::new();
        let mut i: usize = 0;
        while i < self.tiles.len()
            invariant
                i <= self.tiles.len() <= u32::MAX,
                ids@ == Seq::new(i as nat, |k: int| TileId(k as u32)),
            decreases self.tiles.len() - i,
        {
            ids.push(TileId(i as u32));
            assert(ids@ =~= Seq::new((i + 1) as nat, |k: int| TileId(k as u32)));
            i += 1;
        }
        ids
    }

    /// How many tiles are land.
    pub fn land_count(&self) -> (n: usize)
        ensures
            n == land_tiles(self.tiles@),
    {
        let mut n: usize = 0;
        let mut i: usize = 0;
        while i < self.tiles.len()
            invariant
                i <= self.tiles@.len(),
                n <= i,
                n == land_tiles(self.tiles@.subrange(0, i as int)),
            decreases self.tiles.len() - i,
        {
            assert(self.tiles@.subrange(0, i + 1).drop_last() =~= self.tiles@.subrange(0, i as int));
            if self.tiles[i].terrain.is_land() {
                n += 1;
            }
            i += 1;
        }
        assert(self.tiles@.subrange(0, i as int) =~= self.tiles@);
        n
    }

    /// Elevation level per tile, as the geometry builders take it.
    pub fn levels(&self) -> (l: Vec<i32>)
        ensures
            l@ == Seq::new(self.tiles.len() as nat, |i: int| terrain_level(self.tiles@[i].terrain) as i32),
    {
        let mut l: Vec<i32> = Vec::new();
        let mut i: usize = 0;
        while i < self.tiles.len()
            invariant
                i <= self.tiles.len(),
                l@ == Seq::new(i as nat, |k: int| terrain_level(self.tiles@[k].terrain) as i32),
            decreases self.tiles.len() - i,
        {
            l.push(self.tiles[i].terrain.level());
            assert(l@ =~= Seq::new((i + 1) as nat, |k: int| terrain_level(self.tiles@[k].terrain) as i32));
            i += 1;
        }
        l
    }

    /// Size and per-tile rules; `Err` names the first violation.
    pub fn validate(&self) -> (r: Result<(), String>)
        ensures
            r is Ok <==> snapshot_violation(self.frequency, self.tiles@) is None,
            r is Ok <==> snapshot_valid(self.frequency, self.tiles@),
            r matches Err(m) ==> snapshot_violation(self.frequency, self.tiles@) == Some(m@),
    {
        proof {
            lemma_snapshot_violation_iff_invalid(self.frequency, self.tiles@);
        }
        let expected = tile_count(self.frequency);
        if self.tiles.len() != expected {
            let mut msg: Vec<char> = Vec::new();
            push_str(&mut msg, "frequency ");
            push_decimal(&mut msg, self.frequency as u64);
            push_str(&mut msg, " needs ");
            push_decimal(&mut msg, expected as u64);
            push_str(&mut msg, " tiles, snapshot has ");
            push_decimal(&mut msg, self.tiles.len() as u64);
            return Err(string_of(&msg));
        }
        let mut i: usize = 0;
        while i < self.tiles.len()
            invariant
                i <= self.tiles.len(),
                first_tile_violation(self.tiles@, 0) == first_tile_violation(self.tiles@, i as int),
                self.tiles.len() == spec_tile_count(self.frequency as int),
            decreases self.tiles.len() - i,
        {
            match self.tiles[i].validate() {
                Ok(()) => {}
                Err(e) => {
                    let mut msg: Vec<char> = Vec::new();
                    push_str(&mut msg, "tile #");
                    push_decimal(&mut msg, i as u64);
                    push_str(&mut msg, ": ");
                    let ev = crate::text::chars_of(e.as_str());
                    crate::text::push_chars(&mut msg, &ev);
                    assert(ev@ == e@);
                    assert(first_tile_violation(self.tiles@, i as int) == Some((i as int, e@)));
                    assert(snapshot_violation(self.frequency, self.tiles@) == Some("tile #"@ + decimal(i as nat) + ": "@ + e@));
                    assert(msg@ =~= "tile #"@ + decimal(i as nat) + ": "@ + e@);
                    return Err(string_of(&msg));
                }
            }
            i += 1;
        }
        Ok(())
    }
}

} // verus!
