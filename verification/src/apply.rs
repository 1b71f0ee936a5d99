//! `apply`: validate, then mutate. Each command handler checks every precondition before it
//! touches the state, so a refused command leaves the state exactly as it was.

use vstd::prelude::*;

use crate::board::Board;
use crate::command::{Command, Event, PendingRule, RuleError};
use crate::constants::{
    CAPITAL_GOLD, CAPITAL_WHEAT, EMPTY_WHEAT, FIELD_BASE_COST, FIELD_WHEAT, KNIGHT_UPGRADE_BASE_COST,
    KNIGHT_UPGRADE_STEP, PAWN_BASE_COST, TOWN_BASE_COST, WARRIOR_UPGRADE_BASE_COST,
};
use crate::faction::{faction_index, Faction};
use crate::state::{count_ids, decides, living_of, GameModel, GameState, Territory, TerritoryView, Tile, Treasury, Unit};
use crate::territory::{
    board_fits, lemma_members_upto_len, lemma_reps_upto, lemma_reps_upto_len, spec_territories, spec_territory_of,
    territories, territory_at, territory_of,
};
use crate::tile::{Cover, Terrain, TileId, UnitKind};

verus! {

broadcast use {vstd::laws_cmp::group_laws_cmp, vstd::std_specs::btree::group_btree_axioms};

// ---------------------------------------------------------------------------------------------
// The rules as functions on values

/// The largest value a treasury or earnings counter may hold before a turn's income.
pub open spec fn income_ceiling(n: nat) -> int {
    i64::MAX - 2 * n * n
}

/// Room for one more round of income: no treasury, earnings counter or turn counter can
/// overflow while a turn ends.
pub open spec fn room(m: GameModel) -> bool {
    let n = m.tiles.len();
    &&& 2 * n * n <= i64::MAX
    &&& m.turn < u32::MAX
    &&& forall|k: u32| #[trigger] m.treasuries.contains_key(k) ==> m.treasuries[k].gold <= income_ceiling(n)
        && m.treasuries[k].wheat <= income_ceiling(n)
    &&& forall|i: int| 0 <= i < m.all_time_gold.len() ==> #[trigger] m.all_time_gold[i] <= income_ceiling(n)
}

/// What `apply` needs to run without panicking: a board that fits the tiles, and, for a turn
/// that ends, factions to pass the turn to and room for the income.
pub open spec fn can_apply(m: GameModel, adj: Seq<Seq<TileId>>, cmd: Command) -> bool {
    &&& board_fits(m.tiles, adj)
    &&& m.tiles.len() <= u32::MAX
    &&& (cmd == Command::EndTurn && m.winner is None) ==> m.factions.len() > 0 && room(m)
}

/// Gold of the treasury on `c`; a capital without one has none.
pub open spec fn gold_at(m: GameModel, c: TileId) -> int {
    if m.treasuries.contains_key(c.0) { m.treasuries[c.0].gold as int } else { 0 }
}

/// `m` after `cost` gold leaves the treasury on `c`.
pub open spec fn spend(m: GameModel, c: TileId, cost: int) -> GameModel {
    let t = m.treasuries[c.0];
    GameModel { treasuries: m.treasuries.insert(c.0, Treasury { gold: (t.gold - cost) as i64, wheat: t.wheat }), ..m }
}

/// The current faction's territory around `id`, and its capital, or why there is none to use.
pub open spec fn spec_own_territory(m: GameModel, adj: Seq<Seq<TileId>>, id: TileId) -> Result<(TerritoryView, TileId), RuleError> {
    if id.0 >= m.tiles.len() {
        Err(RuleError::NoSuchTile(id))
    } else if m.tiles[id.0 as int].terrain != Terrain::Land {
        Err(RuleError::NotLand(id))
    } else if m.tiles[id.0 as int].owner != Some(m.current) {
        Err(RuleError::NotOwned(id))
    } else {
        match spec_territory_of(m.tiles, adj, id.0 as int) {
            None => Err(RuleError::NotOwned(id)),
            Some(t) => match t.capital {
                None => Err(RuleError::NoCapital(id)),
                Some(c) => Ok((t, c)),
            },
        }
    }
}

/// Base price of a building.
pub open spec fn base_cost(cover: Cover) -> int {
    if cover == Cover::Town { TOWN_BASE_COST as int } else { FIELD_BASE_COST as int }
}

/// R-BLD-01 / R-BLD-02: a town or field on an owned empty tile costs its base price plus one per
/// building of the same kind already in the territory, paid by the territory's capital.
pub open spec fn spec_build(m: GameModel, adj: Seq<Seq<TileId>>, at: TileId, cover: Cover) -> Result<(GameModel, Seq<Event>), RuleError> {
    match spec_own_territory(m, adj, at) {
        Err(e) => Err(e),
        Ok((t, cap)) => if m.tiles[at.0 as int].cover != Cover::Empty {
            Err(RuleError::NotEmpty(at))
        } else {
            let cost = base_cost(cover) + count_ids(t.tiles, m.tiles, |x: Tile| x.cover == cover);
            let available = gold_at(m, cap);
            if available < cost {
                Err(RuleError::CannotAfford { needed: cost as i64, available: available as i64 })
            } else {
                let paid = spend(m, cap, cost);
                let tile = m.tiles[at.0 as int];
                Ok((
                    GameModel { tiles: m.tiles.update(at.0 as int, Tile { cover, ..tile }), ..paid },
                    seq![
                        Event::TreasuryChanged { capital: cap, gold: (-cost) as i64, wheat: 0 },
                        Event::CoverChanged { tile: at, from: Cover::Empty, to: cover },
                    ],
                ))
            }
        },
    }
}

/// Every unit class.
pub open spec fn any_unit() -> spec_fn(UnitKind) -> bool {
    |k: UnitKind| true
}

/// Warriors and knights.
pub open spec fn veteran_unit() -> spec_fn(UnitKind) -> bool {
    |k: UnitKind| k != UnitKind::Pawn
}

/// Knights.
pub open spec fn knight_unit() -> spec_fn(UnitKind) -> bool {
    |k: UnitKind| k == UnitKind::Knight
}

/// Tiles carrying a unit whose class satisfies `p`.
pub open spec fn unit_filter(p: spec_fn(UnitKind) -> bool) -> spec_fn(Tile) -> bool {
    |t: Tile| t.unit matches Some(u) && p(u.kind)
}

/// R-UNIT-01: a pawn on an owned free land tile costs one plus one per unit already in the
/// territory.
pub open spec fn spec_recruit(m: GameModel, adj: Seq<Seq<TileId>>, at: TileId) -> Result<(GameModel, Seq<Event>), RuleError> {
    match spec_own_territory(m, adj, at) {
        Err(e) => Err(e),
        Ok((t, cap)) => if m.tiles[at.0 as int].unit is Some {
            Err(RuleError::Occupied(at))
        } else {
            let cost = PAWN_BASE_COST + count_ids(t.tiles, m.tiles, unit_filter(any_unit()));
            let available = gold_at(m, cap);
            if available < cost {
                Err(RuleError::CannotAfford { needed: cost as i64, available: available as i64 })
            } else {
                let paid = spend(m, cap, cost);
                let tile = m.tiles[at.0 as int];
                let unit = Unit { kind: UnitKind::Pawn, owner: m.current, born: m.turn, acted: false };
                Ok((
                    GameModel { tiles: m.tiles.update(at.0 as int, Tile { unit: Some(unit), ..tile }), ..paid },
                    seq![
                        Event::TreasuryChanged { capital: cap, gold: (-cost) as i64, wheat: 0 },
                        Event::UnitCreated { tile: at, kind: UnitKind::Pawn },
                    ],
                ))
            }
        },
    }
}

/// R-UNIT-08 / R-UNIT-09: the next rank of a unit and its price in a territory, or `None` for a
/// knight.
pub open spec fn upgrade_step(kind: UnitKind, t: TerritoryView, tiles: Seq<Tile>) -> Option<(UnitKind, int)> {
    match kind {
        UnitKind::Pawn => Some((
            UnitKind::Warrior,
            WARRIOR_UPGRADE_BASE_COST + count_ids(t.tiles, tiles, unit_filter(veteran_unit())),
        )),
        UnitKind::Warrior => Some((
            UnitKind::Knight,
            KNIGHT_UPGRADE_BASE_COST + KNIGHT_UPGRADE_STEP * count_ids(t.tiles, tiles, unit_filter(knight_unit())),
        )),
        UnitKind::Knight => None,
    }
}

/// R-UNIT-08 / R-UNIT-09: one rank up; needs and consumes the unit's action.
pub open spec fn spec_upgrade(m: GameModel, adj: Seq<Seq<TileId>>, at: TileId) -> Result<(GameModel, Seq<Event>), RuleError> {
    match spec_own_territory(m, adj, at) {
        Err(e) => Err(e),
        Ok((t, cap)) => match m.tiles[at.0 as int].unit {
            None => Err(RuleError::NoUnit(at)),
            Some(u) => if u.owner != m.current {
                Err(RuleError::NoUnit(at))
            } else if u.acted {
                Err(RuleError::AlreadyActed(at))
            } else {
                match upgrade_step(u.kind, t, m.tiles) {
                    None => Err(RuleError::MaxRank(at)),
                    Some((next, cost)) => {
                        let available = gold_at(m, cap);
                        if available < cost {
                            Err(RuleError::CannotAfford { needed: cost as i64, available: available as i64 })
                        } else {
                            let paid = spend(m, cap, cost);
                            let tile = m.tiles[at.0 as int];
                            let unit = Unit { kind: next, acted: true, ..u };
                            Ok((
                                GameModel { tiles: m.tiles.update(at.0 as int, Tile { unit: Some(unit), ..tile }), ..paid },
                                seq![
                                    Event::TreasuryChanged { capital: cap, gold: (-cost) as i64, wheat: 0 },
                                    Event::UnitUpgraded { tile: at, kind: next },
                                ],
                            ))
                        }
                    },
                }
            },
        },
    }
}

/// R-ECO-01..03: the gold and wheat one tile yields per turn.
pub open spec fn tile_income(c: Cover) -> (int, int) {
    match c {
        Cover::Empty => (0, EMPTY_WHEAT as int),
        Cover::Capital => (CAPITAL_GOLD as int, CAPITAL_WHEAT as int),
        Cover::Field => (0, FIELD_WHEAT as int),
        Cover::Forest => (0, 0),
        Cover::Town => (0, 0),
    }
}

/// The gold and wheat the tiles `ids` yield together.
pub open spec fn income_of(tiles: Seq<Tile>, ids: Seq<TileId>) -> (int, int)
    decreases ids.len(),
{
    if ids.len() == 0 {
        (0, 0)
    } else {
        let (g, w) = income_of(tiles, ids.drop_last());
        let (tg, tw) = tile_income(tiles[ids.last().0 as int].cover);
        (g + tg, w + tw)
    }
}

/// The treasury on `c`, or an empty one.
pub open spec fn treasury_or_default(m: GameModel, c: TileId) -> Treasury {
    if m.treasuries.contains_key(c.0) { m.treasuries[c.0] } else { Treasury { gold: 0, wheat: 0 } }
}

/// Income paid to each territory of the faction to move that has a capital, in territory order.
pub open spec fn income_fold(m: GameModel, ts: Seq<TerritoryView>) -> (GameModel, Seq<Event>)
    decreases ts.len(),
{
    if ts.len() == 0 {
        (m, Seq::empty())
    } else {
        let (m1, ev) = income_fold(m, ts.drop_last());
        let t = ts.last();
        if t.owner != m.current || t.capital is None {
            (m1, ev)
        } else {
            let c = t.capital->0;
            let (g, w) = income_of(m.tiles, t.tiles);
            let old = treasury_or_default(m1, c);
            let f = faction_index(m.current) as int;
            (
                GameModel {
                    treasuries: m1.treasuries.insert(c.0, Treasury { gold: (old.gold + g) as i64, wheat: (old.wheat + w) as i64 }),
                    all_time_gold: m1.all_time_gold.update(f, (m1.all_time_gold[f] + g) as i64),
                    ..m1
                },
                ev.push(Event::TreasuryChanged { capital: c, gold: g as i64, wheat: w as i64 }),
            )
        }
    }
}

/// The first position of `f` among the first `k` entries of `order`.
pub open spec fn position_upto(order: Seq<Faction>, f: Faction, k: int) -> Option<int>
    decreases k,
{
    if k <= 0 {
        None
    } else {
        match position_upto(order, f, k - 1) {
            Some(i) => Some(i),
            None => if order[k - 1] == f { Some(k - 1) } else { None },
        }
    }
}

/// A tile at the start of `next`'s turn: `next`'s unit may act again.
pub open spec fn refresh_tile(t: Tile, next: Faction) -> Tile {
    match t.unit {
        Some(u) => if u.owner == next { Tile { unit: Some(Unit { acted: false, ..u }), ..t } } else { t },
        None => t,
    }
}

/// Position of the turn after `current` in `order`, wrapping round.
pub open spec fn next_slot(order: Seq<Faction>, current: Faction) -> int {
    let pos = match position_upto(order, current, order.len() as int) {
        Some(i) => i,
        None => 0,
    };
    (pos + 1) % (order.len() as int)
}

/// R-TURN-02: income for the faction that ends its turn (R-ECO-01..03), then the next living
/// faction (or the next faction in play, once none lives) moves; a full round increments `turn`,
/// and the units of the faction to move may act again.
pub open spec fn spec_end_turn(m: GameModel, adj: Seq<Seq<TileId>>) -> (GameModel, Seq<Event>) {
    let (m1, ev) = income_fold(m, spec_territories(m.tiles, adj));
    let living = living_of(m1.factions, m1.tiles);
    let order = if living.len() == 0 { m1.factions } else { living };
    let slot = next_slot(order, m.current);
    let next = order[slot];
    let turn = if slot == 0 { (m1.turn + 1) as u32 } else { m1.turn };
    let stats_turns = if slot == 0 { turn } else { m1.stats_turns };
    (
        GameModel {
            turn,
            stats_turns,
            current: next,
            tiles: Seq::new(m1.tiles.len(), |i: int| refresh_tile(m1.tiles[i], next)),
            ..m1
        },
        ev.push(Event::TurnStarted { faction: next, turn }),
    )
}

/// What `cmd` does to a match: the new state and the events, or why it is refused.
pub open spec fn spec_apply(m: GameModel, adj: Seq<Seq<TileId>>, cmd: Command) -> Result<(GameModel, Seq<Event>), RuleError> {
    if m.winner is Some {
        Err(RuleError::GameOver)
    } else {
        match cmd {
            Command::EndTurn => Ok(spec_end_turn(m, adj)),
            Command::BuildField { at } => spec_build(m, adj, at, Cover::Field),
            Command::BuildTown { at } => spec_build(m, adj, at, Cover::Town),
            Command::RecruitPawn { at } => spec_recruit(m, adj, at),
            Command::Upgrade { at } => spec_upgrade(m, adj, at),
            Command::MoveUnit { .. } => Err(RuleError::NotYetImplemented(PendingRule::UnitMovement)),
        }
    }
}


/// Income only touches treasuries and earnings: the tiles and the faction to move stay.
pub proof fn lemma_income_fold_keeps_tiles(m: GameModel, ts: Seq<TerritoryView>)
    ensures
        income_fold(m, ts).0.tiles == m.tiles,
        income_fold(m, ts).0.factions == m.factions,
        income_fold(m, ts).0.turn == m.turn,
        income_fold(m, ts).0.current == m.current,
        income_fold(m, ts).0.stats_turns == m.stats_turns,
    decreases ts.len(),
{
    if ts.len() > 0 {
        lemma_income_fold_keeps_tiles(m, ts.drop_last());
    }
}

/// No command adds or removes tiles.
pub proof fn lemma_apply_keeps_tile_count(m: GameModel, adj: Seq<Seq<TileId>>, cmd: Command)
    ensures
        spec_apply(m, adj, cmd) matches Ok((m2, _)) ==> m2.tiles.len() == m.tiles.len() && m2.factions
            == m.factions,
{
    lemma_income_fold_keeps_tiles(m, spec_territories(m.tiles, adj));
}

/// The tile a build, recruit or upgrade acts on; `None` for the other commands.
pub open spec fn command_target(cmd: Command) -> Option<TileId> {
    match cmd {
        Command::BuildField { at } => Some(at),
        Command::BuildTown { at } => Some(at),
        Command::RecruitPawn { at } => Some(at),
        Command::Upgrade { at } => Some(at),
        _ => None,
    }
}

/// No accepted command moves a coastline or a border: every tile keeps its terrain and its
/// owner. A build, recruit or upgrade acts on land of the faction to move and leaves every other
/// tile as it was.
pub proof fn lemma_apply_keeps_map(m: GameModel, adj: Seq<Seq<TileId>>, cmd: Command)
    ensures
        spec_apply(m, adj, cmd) matches Ok((m2, _)) ==> {
            &&& m2.tiles.len() == m.tiles.len()
            &&& forall|i: int|
                0 <= i < m.tiles.len() ==> (#[trigger] m2.tiles[i]).terrain == m.tiles[i].terrain
                    && m2.tiles[i].owner == m.tiles[i].owner
        },
        spec_apply(m, adj, cmd) matches Ok((m2, _)) ==> (command_target(cmd) matches Some(at) ==> {
            &&& at.0 < m.tiles.len()
            &&& m.tiles[at.0 as int].terrain == Terrain::Land
            &&& m.tiles[at.0 as int].owner == Some(m.current)
            &&& forall|i: int| 0 <= i < m.tiles.len() && i != at.0 ==> #[trigger] m2.tiles[i] == m.tiles[i]
        }),
{
    lemma_income_fold_keeps_tiles(m, spec_territories(m.tiles, adj));
}

/// Once a match has a winner every command, the end of a turn included, is refused as over, and
/// only then. While it runs, a unit move is refused as the pending movement rule, and a build,
/// recruit or upgrade is refused first for a tile beyond the board, then for sea, then for a tile
/// outside the mover's own land.
pub proof fn lemma_apply_refusals(m: GameModel, adj: Seq<Seq<TileId>>, cmd: Command)
    ensures
        (spec_apply(m, adj, cmd) == Err::<(GameModel, Seq<Event>), RuleError>(RuleError::GameOver)) <==> m.winner
            is Some,
        m.winner is None && cmd is MoveUnit ==> spec_apply(m, adj, cmd) == Err::<(GameModel, Seq<Event>), RuleError>(
            RuleError::NotYetImplemented(PendingRule::UnitMovement),
        ),
        m.winner is None ==> (command_target(cmd) matches Some(at) ==> {
            &&& at.0 >= m.tiles.len() ==> spec_apply(m, adj, cmd) == Err::<(GameModel, Seq<Event>), RuleError>(
                RuleError::NoSuchTile(at),
            )
            &&& at.0 < m.tiles.len() && m.tiles[at.0 as int].terrain != Terrain::Land ==> spec_apply(m, adj, cmd)
                == Err::<(GameModel, Seq<Event>), RuleError>(RuleError::NotLand(at))
            &&& at.0 < m.tiles.len() && m.tiles[at.0 as int].terrain == Terrain::Land && m.tiles[at.0 as int].owner
                != Some(m.current) ==> spec_apply(m, adj, cmd) == Err::<(GameModel, Seq<Event>), RuleError>(
                RuleError::NotOwned(at),
            )
        }),
{
}

/// The factions that take turns: those still holding a capital, or every faction in play once
/// none does.
pub open spec fn turn_order(m: GameModel) -> Seq<Faction> {
    let living = living_of(m.factions, m.tiles);
    if living.len() == 0 { m.factions } else { living }
}

proof fn lemma_position_upto(order: Seq<Faction>, f: Faction, k: int)
    requires
        0 <= k,
    ensures
        position_upto(order, f, k) matches Some(i) ==> 0 <= i < k && order[i] == f,
    decreases k,
{
    if k > 0 {
        lemma_position_upto(order, f, k - 1);
    }
}

/// Ending a turn hands it to the faction after the current one in the turn order (the first,
/// after the last); coming back round to the first counts a new round, in the statistics too;
/// the units of the faction to move may act again; terrain, cover and owners stay; and the last
/// event announces the new turn.
pub proof fn lemma_end_turn_order(m: GameModel, adj: Seq<Seq<TileId>>)
    requires
        m.factions.len() > 0,
        m.turn < u32::MAX,
    ensures
        ({
            let (m2, ev) = spec_end_turn(m, adj);
            let order = turn_order(m);
            let slot = next_slot(order, m.current);
            &&& 0 <= slot < order.len()
            &&& m2.current == order[slot]
            &&& slot == 0 ==> m2.turn == m.turn + 1 && m2.stats_turns == m2.turn
            &&& slot != 0 ==> m2.turn == m.turn && m2.stats_turns == m.stats_turns
            &&& m2.tiles.len() == m.tiles.len()
            &&& forall|i: int| 0 <= i < m.tiles.len() ==> {
                &&& (#[trigger] m2.tiles[i]).terrain == m.tiles[i].terrain
                &&& m2.tiles[i].cover == m.tiles[i].cover
                &&& m2.tiles[i].owner == m.tiles[i].owner
                &&& (m2.tiles[i].unit matches Some(u) ==> (u.owner == m2.current ==> !u.acted))
            }
            &&& ev.len() > 0 && ev.last() == Event::TurnStarted { faction: m2.current, turn: m2.turn }
        }),
{
    lemma_income_fold_keeps_tiles(m, spec_territories(m.tiles, adj));
    let order = turn_order(m);
    lemma_position_upto(order, m.current, order.len() as int);
}

/// Territory `t` is paid at the end of `m`'s turn: it belongs to the faction to move and has a
/// capital.
pub open spec fn paid(m: GameModel, t: TerritoryView) -> bool {
    t.owner == m.current && t.capital is Some
}

/// No territory of `ts` paid at the end of `m`'s turn has its capital on tile `key`.
pub open spec fn no_paid_capital(m: GameModel, ts: Seq<TerritoryView>, key: u32) -> bool {
    forall|x: int| 0 <= x < ts.len() && paid(m, #[trigger] ts[x]) ==> ts[x].capital->0 .0 != key
}

/// `old` with the income of the tiles `ids` of `tiles` added.
pub open spec fn with_income(old: Treasury, tiles: Seq<Tile>, ids: Seq<TileId>) -> Treasury {
    Treasury {
        gold: (old.gold + income_of(tiles, ids).0) as i64,
        wheat: (old.wheat + income_of(tiles, ids).1) as i64,
    }
}

proof fn lemma_income_fold_treasuries(m: GameModel, ts: Seq<TerritoryView>)
    requires
        forall|x: int, y: int|
            0 <= x < y < ts.len() && paid(m, #[trigger] ts[x]) && paid(m, #[trigger] ts[y]) ==> ts[x].capital->0
                != ts[y].capital->0,
    ensures
        forall|x: int|
            0 <= x < ts.len() && paid(m, #[trigger] ts[x]) ==> {
                let c = ts[x].capital->0;
                &&& income_fold(m, ts).0.treasuries.contains_key(c.0)
                &&& income_fold(m, ts).0.treasuries[c.0] == with_income(treasury_or_default(m, c), m.tiles, ts[x].tiles)
            },
    decreases ts.len(),
{
    if ts.len() > 0 {
        let prev = ts.drop_last();
        assert forall|x: int, y: int|
            0 <= x < y < prev.len() && paid(m, #[trigger] prev[x]) && paid(m, #[trigger] prev[y]) implies prev[x].capital->0
                != prev[y].capital->0 by {
            assert(prev[x] == ts[x] && prev[y] == ts[y]);
        }
        lemma_income_fold_treasuries(m, prev);
        let t = ts.last();
        let m1 = income_fold(m, prev).0;
        if paid(m, t) {
            let c = t.capital->0;
            assert forall|x: int| 0 <= x < prev.len() && paid(m, #[trigger] prev[x]) implies prev[x].capital->0 .0 != c.0 by {
                assert(prev[x] == ts[x]);
                assert(ts[ts.len() - 1] == t);
                assert(ts[x].capital->0 != ts[ts.len() - 1].capital->0);
            }
            lemma_income_fold_other(m, prev, c.0);
            assert(treasury_or_default(m1, c) == treasury_or_default(m, c));
        }
        assert forall|x: int| 0 <= x < ts.len() && paid(m, #[trigger] ts[x]) implies ({
            let c = ts[x].capital->0;
            &&& income_fold(m, ts).0.treasuries.contains_key(c.0)
            &&& income_fold(m, ts).0.treasuries[c.0] == with_income(treasury_or_default(m, c), m.tiles, ts[x].tiles)
        }) by {
            if x < ts.len() - 1 {
                assert(prev[x] == ts[x]);
                if paid(m, t) {
                    assert(ts[ts.len() - 1] == t);
                    assert(ts[x].capital->0 != t.capital->0);
                    assert(ts[x].capital->0 .0 != t.capital->0 .0);
                }
            }
        }
    } else {
        assert(income_fold(m, ts).0 == m);
    }
}

proof fn lemma_income_fold_other(m: GameModel, ts: Seq<TerritoryView>, key: u32)
    requires
        no_paid_capital(m, ts, key),
    ensures
        income_fold(m, ts).0.treasuries.contains_key(key) == m.treasuries.contains_key(key),
        m.treasuries.contains_key(key) ==> income_fold(m, ts).0.treasuries[key] == m.treasuries[key],
    decreases ts.len(),
{
    if ts.len() > 0 {
        let prev = ts.drop_last();
        assert forall|x: int| 0 <= x < prev.len() && paid(m, #[trigger] prev[x]) implies prev[x].capital->0 .0 != key by {
            assert(prev[x] == ts[x]);
        }
        lemma_income_fold_other(m, prev, key);
        assert(paid(m, ts[ts.len() - 1]) ==> ts[ts.len() - 1].capital->0 .0 != key);
    }
}

/// R-ECO-01..03: at the end of a turn every territory of the faction to move that has a capital
/// gets the income of its tiles added to the treasury on that capital, from an empty treasury
/// where there was none; every other treasury stays as it was.
pub proof fn lemma_end_turn_income(m: GameModel, adj: Seq<Seq<TileId>>)
    requires
        board_fits(m.tiles, adj),
    ensures
        forall|x: int|
            0 <= x < spec_territories(m.tiles, adj).len() && paid(m, #[trigger] spec_territories(m.tiles, adj)[x]) ==> {
                let t = spec_territories(m.tiles, adj)[x];
                let c = t.capital->0;
                &&& spec_end_turn(m, adj).0.treasuries.contains_key(c.0)
                &&& spec_end_turn(m, adj).0.treasuries[c.0] == with_income(treasury_or_default(m, c), m.tiles, t.tiles)
            },
        forall|key: u32|
            no_paid_capital(m, spec_territories(m.tiles, adj), key) ==> {
                &&& (#[trigger] spec_end_turn(m, adj).0.treasuries.contains_key(key)) == m.treasuries.contains_key(key)
                &&& m.treasuries.contains_key(key) ==> spec_end_turn(m, adj).0.treasuries[key] == m.treasuries[key]
            },
{
    let ts = spec_territories(m.tiles, adj);
    assert forall|x: int, y: int|
        0 <= x < y < ts.len() && paid(m, #[trigger] ts[x]) && paid(m, #[trigger] ts[y]) implies ts[x].capital->0
            != ts[y].capital->0 by {
        crate::territory::lemma_territories_shape(m.tiles, adj, x);
        crate::territory::lemma_territories_shape(m.tiles, adj, y);
        let c = ts[x].capital->0;
        if c == ts[y].capital->0 {
            crate::territory::lemma_territories_partition(m.tiles, adj, c.0 as int);
            let k = choose|k: int| 0 <= k < ts[x].tiles.len() && ts[x].tiles[k] == c;
            assert(c.0 < m.tiles.len());
            assert(TileId(c.0 as int as u32) == c);
        }
    }
    lemma_income_fold_treasuries(m, ts);
    assert forall|key: u32| no_paid_capital(m, ts, key) implies {
        &&& (#[trigger] spec_end_turn(m, adj).0.treasuries.contains_key(key)) == m.treasuries.contains_key(key)
        &&& m.treasuries.contains_key(key) ==> spec_end_turn(m, adj).0.treasuries[key] == m.treasuries[key]
    } by {
        lemma_income_fold_other(m, ts, key);
    }
}

/// Counting the ids whose tile satisfies `p` is the length of the ids kept by that test.
proof fn lemma_count_ids_filter(ids: Seq<TileId>, tiles: Seq<Tile>, p: spec_fn(Tile) -> bool)
    ensures
        count_ids(ids, tiles, p) == ids.filter(|id: TileId| p(tiles[id.0 as int])).len(),
    decreases ids.len(),
{
    reveal(Seq::filter);
    if ids.len() > 0 {
        lemma_count_ids_filter(ids.drop_last(), tiles, p);
    }
}

/// A territory of a fitting board has at most as many tiles as the board.
proof fn lemma_territory_of_len(tiles: Seq<Tile>, adj: Seq<Seq<TileId>>, j: int)
    requires
        board_fits(tiles, adj),
    ensures
        spec_territory_of(tiles, adj, j) matches Some(t) ==> t.tiles.len() <= tiles.len(),
{
    if spec_territory_of(tiles, adj, j) is Some {
        let r = crate::territory::first_linked_upto(tiles, adj, j, tiles.len() as int)->0;
        lemma_members_upto_len(tiles, adj, r, tiles.len() as int);
    }
}

/// R-BLD-01 / R-BLD-02: an accepted build of a field or town charges the capital of the
/// territory exactly the base price of that building plus one for each tile of the territory
/// that already carries the same building; other covers do not count. The payment is the first
/// event, and the tile then carries the building. A refusal for want of gold names that price.
pub proof fn lemma_build_price(m: GameModel, adj: Seq<Seq<TileId>>, at: TileId, kind: Cover)
    requires
        board_fits(m.tiles, adj),
        kind == Cover::Field || kind == Cover::Town,
    ensures
        ({
            let cmd = if kind == Cover::Town { Command::BuildTown { at } } else { Command::BuildField { at } };
            let t = spec_territory_of(m.tiles, adj, at.0 as int)->0;
            let c = t.capital->0;
            let price = (if kind == Cover::Town { TOWN_BASE_COST as int } else { FIELD_BASE_COST as int }) + t.tiles.filter(
                |id: TileId| m.tiles[id.0 as int].cover == kind,
            ).len();
            &&& spec_apply(m, adj, cmd) matches Ok((m2, ev)) ==> {
                &&& m.treasuries.contains_key(c.0)
                &&& m.treasuries[c.0].gold >= price
                &&& m2.treasuries[c.0].gold == m.treasuries[c.0].gold - price
                &&& ev[0] == Event::TreasuryChanged { capital: c, gold: (-price) as i64, wheat: 0 }
                &&& m2.tiles[at.0 as int].cover == kind
            }
            &&& spec_apply(m, adj, cmd) matches Err(RuleError::CannotAfford { needed, available }) ==> needed == price
                && available < price
        }),
{
    lemma_territory_of_len(m.tiles, adj, at.0 as int);
    let t = spec_territory_of(m.tiles, adj, at.0 as int)->0;
    let p = |x: Tile| x.cover == kind;
    lemma_count_ids_filter(t.tiles, m.tiles, p);
    crate::state::lemma_count_ids_len(t.tiles, m.tiles, p);
    assert((|id: TileId| p(m.tiles[id.0 as int])) =~= (|id: TileId| m.tiles[id.0 as int].cover == kind));
}

/// R-UNIT-08 / R-UNIT-09: an accepted upgrade charges the capital of the territory exactly
/// the rank's price: a pawn becomes a warrior for the warrior base price plus one for each tile of
/// the territory carrying a warrior or a knight; a warrior becomes a knight for the knight base
/// price plus the knight step for each tile carrying a knight, whatever pawns and warriors there
/// are. The payment is the first event; the unit keeps its owner and birth, moves up one rank and
/// has acted. A refusal for want of gold names that price; a knight is refused as at the top rank.
pub proof fn lemma_upgrade_price(m: GameModel, adj: Seq<Seq<TileId>>, at: TileId)
    requires
        board_fits(m.tiles, adj),
    ensures
        ({
            let cmd = Command::Upgrade { at };
            let t = spec_territory_of(m.tiles, adj, at.0 as int)->0;
            let c = t.capital->0;
            let u = m.tiles[at.0 as int].unit->0;
            let veterans = t.tiles.filter(
                |id: TileId| m.tiles[id.0 as int].unit matches Some(v) && (v.kind == UnitKind::Warrior || v.kind == UnitKind::Knight),
            ).len();
            let knights = t.tiles.filter(
                |id: TileId| m.tiles[id.0 as int].unit matches Some(v) && v.kind == UnitKind::Knight,
            ).len();
            let (next, price) = if u.kind == UnitKind::Pawn {
                (UnitKind::Warrior, WARRIOR_UPGRADE_BASE_COST as int + veterans)
            } else {
                (UnitKind::Knight, KNIGHT_UPGRADE_BASE_COST as int + KNIGHT_UPGRADE_STEP as int * knights)
            };
            &&& spec_apply(m, adj, cmd) matches Ok((m2, ev)) ==> {
                &&& u.kind != UnitKind::Knight
                &&& m.treasuries.contains_key(c.0)
                &&& m.treasuries[c.0].gold >= price
                &&& m2.treasuries[c.0].gold == m.treasuries[c.0].gold - price
                &&& ev[0] == Event::TreasuryChanged { capital: c, gold: (-price) as i64, wheat: 0 }
                &&& m2.tiles[at.0 as int].unit == Some(Unit { kind: next, owner: u.owner, born: u.born, acted: true })
            }
            &&& spec_apply(m, adj, cmd) matches Err(RuleError::CannotAfford { needed, available }) ==> needed == price
                && available < price && u.kind != UnitKind::Knight
        }),
{
    lemma_territory_of_len(m.tiles, adj, at.0 as int);
    let t = spec_territory_of(m.tiles, adj, at.0 as int)->0;
    let pv = unit_filter(veteran_unit());
    let pk = unit_filter(knight_unit());
    lemma_count_ids_filter(t.tiles, m.tiles, pv);
    lemma_count_ids_filter(t.tiles, m.tiles, pk);
    crate::state::lemma_count_ids_len(t.tiles, m.tiles, pv);
    crate::state::lemma_count_ids_len(t.tiles, m.tiles, pk);
    assert((|id: TileId| pv(m.tiles[id.0 as int])) =~= (|id: TileId|
        m.tiles[id.0 as int].unit matches Some(v) && (v.kind == UnitKind::Warrior || v.kind == UnitKind::Knight)));
    assert((|id: TileId| pk(m.tiles[id.0 as int])) =~= (|id: TileId|
        m.tiles[id.0 as int].unit matches Some(v) && v.kind == UnitKind::Knight));
}

proof fn lemma_position_upto_first(order: Seq<Faction>, f: Faction, p: int, k: int)
    requires
        0 <= p < k <= order.len(),
        order[p] == f,
        forall|q: int| 0 <= q < p ==> order[q] != f,
    ensures
        position_upto(order, f, k) == Some(p),
    decreases k,
{
    if k - 1 > p {
        lemma_position_upto_first(order, f, p, k - 1);
    } else {
        lemma_position_upto_absent(order, f, p);
    }
}

proof fn lemma_position_upto_absent(order: Seq<Faction>, f: Faction, k: int)
    requires
        0 <= k <= order.len(),
        forall|q: int| 0 <= q < k ==> order[q] != f,
    ensures
        position_upto(order, f, k) is None,
    decreases k,
{
    if k > 0 {
        lemma_position_upto_absent(order, f, k - 1);
    }
}

/// R-TURN-02: the turn passes forward. When the ending faction first appears at position `p` of
/// the turn order, the faction to move next is the one right after it, and the round stays; only
/// after the last one does the turn go back to the first, and then a new round begins.
pub proof fn lemma_end_turn_next(m: GameModel, adj: Seq<Seq<TileId>>, p: int)
    requires
        m.turn < u32::MAX,
        0 <= p < turn_order(m).len(),
        turn_order(m)[p] == m.current,
        forall|q: int| 0 <= q < p ==> turn_order(m)[q] != m.current,
    ensures
        p + 1 < turn_order(m).len() ==> spec_end_turn(m, adj).0.current == turn_order(m)[p + 1]
            && spec_end_turn(m, adj).0.turn == m.turn,
        p + 1 == turn_order(m).len() ==> spec_end_turn(m, adj).0.current == turn_order(m)[0]
            && spec_end_turn(m, adj).0.turn == m.turn + 1,
{
    lemma_income_fold_keeps_tiles(m, spec_territories(m.tiles, adj));
    let order = turn_order(m);
    lemma_position_upto_first(order, m.current, p, order.len() as int);
    let len = order.len() as int;
    if p + 1 < len {
        vstd::arithmetic::div_mod::lemma_small_mod((p + 1) as nat, len as nat);
        assert((p + 1) % len == p + 1);
    } else {
        vstd::arithmetic::div_mod::lemma_mod_self_0(len);
        assert(p + 1 == len);
        assert((p + 1) % len == 0);
    }
}

/// R-TURN-02: a faction that is not in the turn order (it lost its last capital) hands the turn
/// to the second faction of the order, as if it had been first; with one faction left, to that
/// one, in a new round.
pub proof fn lemma_end_turn_next_when_out(m: GameModel, adj: Seq<Seq<TileId>>)
    requires
        m.factions.len() > 0,
        m.turn < u32::MAX,
        forall|q: int| 0 <= q < turn_order(m).len() ==> turn_order(m)[q] != m.current,
    ensures
        turn_order(m).len() > 1 ==> spec_end_turn(m, adj).0.current == turn_order(m)[1]
            && spec_end_turn(m, adj).0.turn == m.turn,
        turn_order(m).len() == 1 ==> spec_end_turn(m, adj).0.current == turn_order(m)[0]
            && spec_end_turn(m, adj).0.turn == m.turn + 1,
{
    lemma_income_fold_keeps_tiles(m, spec_territories(m.tiles, adj));
    let order = turn_order(m);
    lemma_position_upto_absent(order, m.current, order.len() as int);
    let len = order.len() as int;
    if len > 1 {
        vstd::arithmetic::div_mod::lemma_small_mod(1nat, len as nat);
        assert(1int % len == 1);
    } else {
        vstd::arithmetic::div_mod::lemma_mod_self_0(len);
        assert(1int % len == 0);
    }
}

/// R-UNIT-01: an accepted recruit charges the capital of the territory exactly the pawn base
/// price plus one for each tile of the territory carrying a unit, of any class. The payment is
/// the first event; the tile then holds a fresh pawn of the faction to move, born this turn, able
/// to act. A refusal for want of gold names that price.
pub proof fn lemma_recruit_price(m: GameModel, adj: Seq<Seq<TileId>>, at: TileId)
    requires
        board_fits(m.tiles, adj),
    ensures
        ({
            let t = spec_territory_of(m.tiles, adj, at.0 as int)->0;
            let c = t.capital->0;
            let price = PAWN_BASE_COST as int + t.tiles.filter(|id: TileId| m.tiles[id.0 as int].unit is Some).len();
            &&& spec_apply(m, adj, Command::RecruitPawn { at }) matches Ok((m2, ev)) ==> {
                &&& m.treasuries.contains_key(c.0)
                &&& m.treasuries[c.0].gold >= price
                &&& m2.treasuries[c.0].gold == m.treasuries[c.0].gold - price
                &&& ev[0] == Event::TreasuryChanged { capital: c, gold: (-price) as i64, wheat: 0 }
                &&& m2.tiles[at.0 as int].unit == Some(
                    Unit { kind: UnitKind::Pawn, owner: m.current, born: m.turn, acted: false },
                )
            }
            &&& spec_apply(m, adj, Command::RecruitPawn { at }) matches Err(RuleError::CannotAfford { needed, available })
                ==> needed == price && available < price
        }),
{
    lemma_territory_of_len(m.tiles, adj, at.0 as int);
    let t = spec_territory_of(m.tiles, adj, at.0 as int)->0;
    let pa = unit_filter(any_unit());
    lemma_count_ids_filter(t.tiles, m.tiles, pa);
    crate::state::lemma_count_ids_len(t.tiles, m.tiles, pa);
    assert((|id: TileId| pa(m.tiles[id.0 as int])) =~= (|id: TileId| m.tiles[id.0 as int].unit is Some));
}

// ---------------------------------------------------------------------------------------------
// The executable rules

/// Members of a territory of the board are tiles of the board.
proof fn lemma_territory_in_range(tiles: Seq<Tile>, adj: Seq<Seq<TileId>>, r: int)
    requires
        tiles.len() <= u32::MAX,
    ensures
        forall|i: int| 0 <= i < territory_at(tiles, adj, r).tiles.len() ==> (#[trigger] territory_at(tiles, adj, r).tiles[i]).0
            < tiles.len(),
        territory_at(tiles, adj, r).tiles.len() <= tiles.len(),
{
    crate::territory::lemma_members_upto(tiles, adj, r, tiles.len() as int);
    lemma_members_upto_len(tiles, adj, r, tiles.len() as int);
}

/// The current faction's territory around `id`, with a capital to pay from.
fn own_territory<B: Board>(state: &GameState, board: &B, id: TileId) -> (r: Result<(Territory, TileId), RuleError>)
    requires
        board_fits(state.tiles@, board.adjacency()),
        state.tiles@.len() <= u32::MAX,
    ensures
        match r {
            Ok((t, c)) => spec_own_territory(state@, board.adjacency(), id) == Ok::<(TerritoryView, TileId), RuleError>((t@, c)),
            Err(e) => spec_own_territory(state@, board.adjacency(), id) == Err::<(TerritoryView, TileId), RuleError>(e),
        },
        r matches Ok((t, c)) ==> forall|i: int| 0 <= i < t.tiles@.len() ==> (#[trigger] t.tiles@[i]).0 < state.tiles@.len(),
        r matches Ok((t, c)) ==> t.tiles@.len() <= state.tiles@.len(),
{
    if id.index() >= state.tiles.len() {
        return Err(RuleError::NoSuchTile(id));
    }
    if !state.tiles[id.index()].terrain.is_land() {
        return Err(RuleError::NotLand(id));
    }
    if state.tiles[id.index()].owner != Some(state.current) {
        return Err(RuleError::NotOwned(id));
    }
    let territory = match territory_of(state, board, id) {
        Some(t) => t,
        None => return Err(RuleError::NotOwned(id)),
    };
    proof {
        let r = crate::territory::first_linked_upto(state.tiles@, board.adjacency(), id.0 as int, state.tiles@.len() as int)->0;
        lemma_territory_in_range(state.tiles@, board.adjacency(), r);
    }
    match territory.capital {
        Some(c) => Ok((territory, c)),
        None => Err(RuleError::NoCapital(id)),
    }
}

/// Takes `cost` gold from the treasury on `capital`.
fn pay(state: &mut GameState, capital: TileId, cost: i64) -> (e: Event)
    requires
        old(state)@.treasuries.contains_key(capital.0),
        0 <= cost <= old(state)@.treasuries[capital.0].gold,
    ensures
        final(state)@ == spend(old(state)@, capital, cost as int),
        e == (Event::TreasuryChanged { capital, gold: (-cost) as i64, wheat: 0 }),
{
    let t = *state.treasuries.get(&capital.0).unwrap();
    state.treasuries.insert(capital.0, Treasury { gold: t.gold - cost, wheat: t.wheat });
    proof {
        assert(state@ =~= spend(old(state)@, capital, cost as int));
    }
    Event::TreasuryChanged { capital, gold: -cost, wheat: 0 }
}

/// Gold in the treasury on `capital`, or none without one.
fn available_gold(state: &GameState, capital: TileId) -> (g: i64)
    ensures
        g == gold_at(state@, capital),
{
    match state.treasuries.get(&capital.0) {
        Some(t) => t.gold,
        None => 0,
    }
}

/// Two events in order.
fn two_events(a: Event, b: Event) -> (v: Vec<Event>)
    ensures
        v@ == seq![a, b],
{
    let mut v = Vec::new();
    v.push(a);
    v.push(b);
    assert(v@ =~= seq![a, b]);
    v
}

/// R-BLD-01 / R-BLD-02: a town or field on an owned empty tile, paid by the territory's capital.
fn build<B: Board>(state: &mut GameState, board: &B, at: TileId, cover: Cover) -> (r: Result<Vec<Event>, RuleError>)
    requires
        board_fits(old(state).tiles@, board.adjacency()),
        old(state).tiles@.len() <= u32::MAX,
    ensures
        match r {
            Ok(ev) => spec_build(old(state)@, board.adjacency(), at, cover) == Ok::<(GameModel, Seq<Event>), RuleError>((final(state)@, ev@)),
            Err(e) => spec_build(old(state)@, board.adjacency(), at, cover) == Err::<(GameModel, Seq<Event>), RuleError>(e)
                && final(state)@ == old(state)@,
        },
{
    let (territory, capital) = match own_territory(state, board, at) {
        Ok(x) => x,
        Err(e) => return Err(e),
    };
    if state.tiles[at.index()].cover != Cover::Empty {
        return Err(RuleError::NotEmpty(at));
    }
    let existing = territory.count_cover(state, cover);
    proof {
        crate::state::lemma_count_ids_len(territory.tiles@, state.tiles@, |x: Tile| x.cover == cover);
    }
    let base = if cover == Cover::Town { TOWN_BASE_COST } else { FIELD_BASE_COST };
    let cost = base + existing as i64;
    let available = available_gold(state, capital);
    if available < cost {
        return Err(RuleError::CannotAfford { needed: cost, available });
    }
    let ghost before = state@;
    let paid = pay(state, capital, cost);
    let ghost paid_state = state@;
    state.tiles[at.index()].cover = cover;
    proof {
        assert(state@ =~= GameModel { tiles: before.tiles.update(at.0 as int, Tile { cover, ..before.tiles[at.0 as int] }), ..paid_state });
    }
    Ok(two_events(paid, Event::CoverChanged { tile: at, from: Cover::Empty, to: cover }))
}


/// R-UNIT-01: a pawn on an owned free land tile; cost 1 + units already in the territory.
fn recruit<B: Board>(state: &mut GameState, board: &B, at: TileId) -> (r: Result<Vec<Event>, RuleError>)
    requires
        board_fits(old(state).tiles@, board.adjacency()),
        old(state).tiles@.len() <= u32::MAX,
    ensures
        match r {
            Ok(ev) => spec_recruit(old(state)@, board.adjacency(), at) == Ok::<(GameModel, Seq<Event>), RuleError>((final(state)@, ev@)),
            Err(e) => spec_recruit(old(state)@, board.adjacency(), at) == Err::<(GameModel, Seq<Event>), RuleError>(e)
                && final(state)@ == old(state)@,
        },
{
    let (territory, capital) = match own_territory(state, board, at) {
        Ok(x) => x,
        Err(e) => return Err(e),
    };
    if state.tiles[at.index()].unit.is_some() {
        return Err(RuleError::Occupied(at));
    }
    let keep = |k: UnitKind| -> (b: bool)
        ensures
            b == true,
        { true };
    let units = territory.count_units(state, keep);
    proof {
        assert(decides(keep, any_unit()));
        crate::state::lemma_count_ids_len(territory.tiles@, state.tiles@, unit_filter(any_unit()));
        assert((|t: Tile| t.unit matches Some(u) && any_unit()(u.kind)) =~= unit_filter(any_unit()));
    }
    let cost = PAWN_BASE_COST + units as i64;
    let available = available_gold(state, capital);
    if available < cost {
        return Err(RuleError::CannotAfford { needed: cost, available });
    }
    let ghost before = state@;
    let paid = pay(state, capital, cost);
    let ghost paid_state = state@;
    let born = state.turn;
    let owner = state.current;
    state.tiles[at.index()].unit = Some(Unit { kind: UnitKind::Pawn, owner, born, acted: false });
    proof {
        let unit = Unit { kind: UnitKind::Pawn, owner: before.current, born: before.turn, acted: false };
        assert(state@ =~= GameModel { tiles: before.tiles.update(at.0 as int, Tile { unit: Some(unit), ..before.tiles[at.0 as int] }), ..paid_state });
    }
    Ok(two_events(paid, Event::UnitCreated { tile: at, kind: UnitKind::Pawn }))
}

/// R-UNIT-08 / R-UNIT-09: one rank up; needs and consumes the unit's action.
fn upgrade<B: Board>(state: &mut GameState, board: &B, at: TileId) -> (r: Result<Vec<Event>, RuleError>)
    requires
        board_fits(old(state).tiles@, board.adjacency()),
        old(state).tiles@.len() <= u32::MAX,
    ensures
        match r {
            Ok(ev) => spec_upgrade(old(state)@, board.adjacency(), at) == Ok::<(GameModel, Seq<Event>), RuleError>((final(state)@, ev@)),
            Err(e) => spec_upgrade(old(state)@, board.adjacency(), at) == Err::<(GameModel, Seq<Event>), RuleError>(e)
                && final(state)@ == old(state)@,
        },
{
    let (territory, capital) = match own_territory(state, board, at) {
        Ok(x) => x,
        Err(e) => return Err(e),
    };
    let unit = match state.tiles[at.index()].unit {
        Some(u) => if u.owner == state.current { u } else { return Err(RuleError::NoUnit(at)) },
        None => return Err(RuleError::NoUnit(at)),
    };
    if unit.acted {
        return Err(RuleError::AlreadyActed(at));
    }
    let (next, cost) = match unit.kind {
        UnitKind::Pawn => {
            let keep = |k: UnitKind| -> (b: bool)
                ensures
                    b == (k != UnitKind::Pawn),
                { k != UnitKind::Pawn };
            let veterans = territory.count_units(state, keep);
            proof {
                assert(decides(keep, veteran_unit()));
                crate::state::lemma_count_ids_len(territory.tiles@, state.tiles@, unit_filter(veteran_unit()));
                assert((|t: Tile| t.unit matches Some(u) && veteran_unit()(u.kind)) =~= unit_filter(veteran_unit()));
            }
            (UnitKind::Warrior, WARRIOR_UPGRADE_BASE_COST + veterans as i64)
        },
        UnitKind::Warrior => {
            let keep = |k: UnitKind| -> (b: bool)
                ensures
                    b == (k == UnitKind::Knight),
                { k == UnitKind::Knight };
            let knights = territory.count_units(state, keep);
            proof {
                assert(decides(keep, knight_unit()));
                crate::state::lemma_count_ids_len(territory.tiles@, state.tiles@, unit_filter(knight_unit()));
                assert((|t: Tile| t.unit matches Some(u) && knight_unit()(u.kind)) =~= unit_filter(knight_unit()));
            }
            (UnitKind::Knight, KNIGHT_UPGRADE_BASE_COST + KNIGHT_UPGRADE_STEP * knights as i64)
        },
        UnitKind::Knight => return Err(RuleError::MaxRank(at)),
    };
    let available = available_gold(state, capital);
    if available < cost {
        return Err(RuleError::CannotAfford { needed: cost, available });
    }
    let ghost before = state@;
    let paid = pay(state, capital, cost);
    let ghost paid_state = state@;
    state.tiles[at.index()].unit = Some(Unit { kind: next, acted: true, ..unit });
    proof {
        let u2 = Unit { kind: next, acted: true, ..unit };
        assert(state@ =~= GameModel { tiles: before.tiles.update(at.0 as int, Tile { unit: Some(u2), ..before.tiles[at.0 as int] }), ..paid_state });
    }
    Ok(two_events(paid, Event::UnitUpgraded { tile: at, kind: next }))
}


/// The gold and wheat the tiles of a territory yield together.
fn territory_income(state: &GameState, t: &Territory) -> (r: (i64, i64))
    requires
        forall|i: int| 0 <= i < t.tiles@.len() ==> (#[trigger] t.tiles@[i]).0 < state.tiles@.len(),
        t.tiles@.len() <= u32::MAX,
    ensures
        r.0 as int == income_of(state.tiles@, t.tiles@).0,
        r.1 as int == income_of(state.tiles@, t.tiles@).1,
        0 <= r.0 <= t.tiles@.len(),
        0 <= r.1 <= 2 * t.tiles@.len(),
{
    let mut gold: i64 = 0;
    let mut wheat: i64 = 0;
    let mut i: usize = 0;
    while i < t.tiles.len()
        invariant
            i <= t.tiles@.len() <= u32::MAX,
            forall|k: int| 0 <= k < t.tiles@.len() ==> (#[trigger] t.tiles@[k]).0 < state.tiles@.len(),
            gold as int == income_of(state.tiles@, t.tiles@.subrange(0, i as int)).0,
            wheat as int == income_of(state.tiles@, t.tiles@.subrange(0, i as int)).1,
            0 <= gold <= i,
            0 <= wheat <= 2 * i,
        decreases t.tiles.len() - i,
    {
        let id = t.tiles[i];
        assert(t.tiles@.subrange(0, i + 1).drop_last() =~= t.tiles@.subrange(0, i as int));
        assert(t.tiles@.subrange(0, i + 1).last() == id);
        match state.tiles[id.index()].cover {
            Cover::Empty => wheat += EMPTY_WHEAT,
            Cover::Capital => {
                wheat += CAPITAL_WHEAT;
                gold += CAPITAL_GOLD;
            },
            Cover::Field => wheat += FIELD_WHEAT,
            Cover::Forest | Cover::Town => {},
        }
        i += 1;
    }
    assert(t.tiles@.subrange(0, i as int) =~= t.tiles@);
    (gold, wheat)
}

proof fn lemma_room_step(n: int, i: int, v: int, add: int)
    requires
        0 <= i < n,
        0 <= add <= 2 * n,
        v <= i64::MAX - 2 * n * n + 2 * n * i,
        2 * n * n <= i64::MAX,
    ensures
        v + add <= i64::MAX - 2 * n * n + 2 * n * (i + 1),
        i64::MAX - 2 * n * n + 2 * n * (i + 1) <= i64::MAX,
        0 <= 2 * n * i,
{
    assert(2 * n * (i + 1) <= 2 * n * n) by (nonlinear_arith)
        requires
            0 <= i < n,
    ;
    assert(2 * n * (i + 1) == 2 * n * i + 2 * n) by (nonlinear_arith);
    assert(0 <= 2 * n * i) by (nonlinear_arith)
        requires
            0 <= i < n,
    ;
}

/// R-TURN-02: income for the faction that ends its turn (R-ECO-01..03), then the next living
/// faction moves; a full round increments `turn`. Town feeding, upkeep, forest growth and the
/// victory check are backlog rules.
fn end_turn<B: Board>(state: &mut GameState, board: &B) -> (ev: Vec<Event>)
    requires
        board_fits(old(state).tiles@, board.adjacency()),
        old(state).tiles@.len() <= u32::MAX,
        old(state)@.factions.len() > 0,
        room(old(state)@),
    ensures
        (final(state)@, ev@) == spec_end_turn(old(state)@, board.adjacency()),
{
    let ghost m0 = state@;
    let ghost adj = board.adjacency();
    let ghost n = state.tiles@.len() as int;
    let ghost tv = spec_territories(m0.tiles, adj);
    let ending = state.current;
    let fi = ending.index();
    let ts = territories(state, board);
    proof {
        lemma_reps_upto_len(m0.tiles, adj, n);
    }
    let mut events: Vec<Event> = Vec::new();
    let mut i: usize = 0;
    while i < ts.len()
        invariant
            i <= ts@.len(),
            ts@.len() == tv.len(),
            tv.len() <= n,
            tv == spec_territories(m0.tiles, adj),
            forall|x: int| 0 <= x < ts@.len() ==> (#[trigger] ts@[x])@ == tv[x],
            (state@, events@) == income_fold(m0, tv.subrange(0, i as int)),
            state.tiles@ == m0.tiles,
            state.current == ending,
            state.turn == m0.turn,
            state.settings.factions@ == m0.factions,
            m0.factions.len() > 0,
            m0.turn < u32::MAX,
            fi == faction_index(ending),
            ending == m0.current,
            n == m0.tiles.len(),
            n <= u32::MAX,
            2 * n * n <= i64::MAX,
            m0.tiles.len() == adj.len(),
            state@.all_time_gold.len() == 4,
            forall|k: u32| #[trigger] state@.treasuries.contains_key(k) ==> state@.treasuries[k].gold <= i64::MAX - 2 * n * n
                + 2 * n * i && state@.treasuries[k].wheat <= i64::MAX - 2 * n * n + 2 * n * i,
            forall|j: int| 0 <= j < 4 ==> #[trigger] state@.all_time_gold[j] <= i64::MAX - 2 * n * n + 2 * n * i,
        decreases ts.len() - i,
    {
        let ghost pre = state@;
        let ghost pre_events = events@;
        proof {
            assert(tv.subrange(0, i + 1).drop_last() =~= tv.subrange(0, i as int));
            assert(tv.subrange(0, i + 1).last() == tv[i as int]);
            lemma_room_step(n, i as int, 0, 0);
        }
        if ts[i].owner == ending {
            match ts[i].capital {
                Some(capital) => {
                    proof {
                        let reps = crate::territory::reps_upto(m0.tiles, adj, n);
                        lemma_reps_upto(m0.tiles, adj, n);
                        lemma_territory_in_range(m0.tiles, adj, reps[i as int]);
                        assert(ts@[i as int]@ == territory_at(m0.tiles, adj, reps[i as int]));
                    }
                    let (g, w) = territory_income(state, &ts[i]);
                    let old = match state.treasuries.get(&capital.0) {
                        Some(t) => *t,
                        None => Treasury::default(),
                    };
                    proof {
                        if !state@.treasuries.contains_key(capital.0) {
                            assert(old.gold == 0 && old.wheat == 0);
                            lemma_room_step(n, i as int, 0, 0);
                        }
                        lemma_room_step(n, i as int, old.gold as int, g as int);
                        lemma_room_step(n, i as int, old.wheat as int, w as int);
                        lemma_room_step(n, i as int, state@.all_time_gold[fi as int] as int, g as int);
                    }
                    state.treasuries.insert(capital.0, Treasury { gold: old.gold + g, wheat: old.wheat + w });
                    let earned = state.stats.all_time_gold[fi] + g;
                    state.stats.all_time_gold.set(fi, earned);
                    events.push(Event::TreasuryChanged { capital, gold: g, wheat: w });
                    proof {
                        let (m1, ev1) = income_fold(m0, tv.subrange(0, i as int));
                        assert(m1 == pre);
                        assert(treasury_or_default(m1, capital) == old);
                        assert(state@ =~= income_fold(m0, tv.subrange(0, i + 1)).0);
                        assert(events@ =~= income_fold(m0, tv.subrange(0, i + 1)).1);
                        assert forall|k: u32| #[trigger] state@.treasuries.contains_key(k) implies state@.treasuries[k].gold <= i64::MAX - 2 * n * n
                            + 2 * n * (i + 1) && state@.treasuries[k].wheat <= i64::MAX - 2 * n * n + 2 * n * (i + 1) by {
                            if k != capital.0 {
                                lemma_room_step(n, i as int, pre.treasuries[k].gold as int, 0);
                                lemma_room_step(n, i as int, pre.treasuries[k].wheat as int, 0);
                            }
                        }
                        assert forall|j: int| 0 <= j < 4 implies #[trigger] state@.all_time_gold[j] <= i64::MAX - 2 * n * n + 2 * n * (i + 1) by {
                            if j != fi as int {
                                lemma_room_step(n, i as int, pre.all_time_gold[j] as int, 0);
                            }
                        }
                    }
                },
                None => {
                    proof {
                        assert(state@ =~= income_fold(m0, tv.subrange(0, i + 1)).0);
                        assert(events@ =~= income_fold(m0, tv.subrange(0, i + 1)).1);
                        assert forall|k: u32| #[trigger] state@.treasuries.contains_key(k) implies state@.treasuries[k].gold <= i64::MAX - 2 * n * n
                            + 2 * n * (i + 1) && state@.treasuries[k].wheat <= i64::MAX - 2 * n * n + 2 * n * (i + 1) by {
                            lemma_room_step(n, i as int, pre.treasuries[k].gold as int, 0);
                            lemma_room_step(n, i as int, pre.treasuries[k].wheat as int, 0);
                        }
                        assert forall|j: int| 0 <= j < 4 implies #[trigger] state@.all_time_gold[j] <= i64::MAX - 2 * n * n + 2 * n * (i + 1) by {
                            lemma_room_step(n, i as int, pre.all_time_gold[j] as int, 0);
                        }
                    }
                },
            }
        } else {
            proof {
                assert(state@ =~= income_fold(m0, tv.subrange(0, i + 1)).0);
                assert(events@ =~= income_fold(m0, tv.subrange(0, i + 1)).1);
                assert forall|k: u32| #[trigger] state@.treasuries.contains_key(k) implies state@.treasuries[k].gold <= i64::MAX - 2 * n * n
                    + 2 * n * (i + 1) && state@.treasuries[k].wheat <= i64::MAX - 2 * n * n + 2 * n * (i + 1) by {
                    lemma_room_step(n, i as int, pre.treasuries[k].gold as int, 0);
                    lemma_room_step(n, i as int, pre.treasuries[k].wheat as int, 0);
                }
                assert forall|j: int| 0 <= j < 4 implies #[trigger] state@.all_time_gold[j] <= i64::MAX - 2 * n * n + 2 * n * (i + 1) by {
                    lemma_room_step(n, i as int, pre.all_time_gold[j] as int, 0);
                }
            }
        }
        i += 1;
    }
    proof {
        assert(tv.subrange(0, i as int) =~= tv);
    }
    let ghost m1 = state@;
    let living = state.living_factions();
    let order = if living.len() == 0 { state.settings.factions.clone() } else { living };
    proof {
        assert(order@ =~= (if living_of(m1.factions, m1.tiles).len() == 0 { m1.factions } else { living_of(m1.factions, m1.tiles) }));
    }
    let mut pos: usize = 0;
    let mut found = false;
    let mut k: usize = 0;
    while k < order.len()
        invariant
            k <= order@.len(),
            !found ==> position_upto(order@, ending, k as int) is None && pos == 0,
            found ==> position_upto(order@, ending, k as int) == Some(pos as int) && pos < order@.len(),
        decreases order.len() - k,
    {
        if !found && order[k] == ending {
            found = true;
            pos = k;
        }
        k += 1;
    }
    let slot = (pos + 1) % order.len();
    let next = order[slot];
    if slot == 0 {
        state.turn = state.turn + 1;
        state.stats.turns = state.turn;
    }
    state.current = next;
    let ghost m2 = state@;
    let mut t: usize = 0;
    while t < state.tiles.len()
        invariant
            t <= state.tiles@.len(),
            state.tiles@.len() == m2.tiles.len(),
            forall|x: int| 0 <= x < t ==> #[trigger] state.tiles@[x] == refresh_tile(m2.tiles[x], next),
            forall|x: int| t <= x < state.tiles@.len() ==> #[trigger] state.tiles@[x] == m2.tiles[x],
            state@ == (GameModel { tiles: state.tiles@, ..m2 }),
        decreases state.tiles.len() - t,
    {
        match state.tiles[t].unit {
            Some(u) => {
                if u.owner == next {
                    state.tiles[t].unit = Some(Unit { acted: false, ..u });
                }
            },
            None => {},
        }
        proof {
            assert(state@ =~= GameModel { tiles: state.tiles@, ..m2 });
        }
        t += 1;
    }
    let turn = state.turn;
    events.push(Event::TurnStarted { faction: next, turn });
    proof {
        assert(state.tiles@ =~= Seq::new(m1.tiles.len(), |x: int| refresh_tile(m1.tiles[x], next)));
        assert(state@ =~= spec_end_turn(m0, adj).0);
    }
    events
}

/// Applies `cmd` for the current faction. On `Err` the state is unchanged.
pub fn apply<B: Board>(state: &mut GameState, board: &B, cmd: Command) -> (r: Result<Vec<Event>, RuleError>)
    requires
        can_apply(old(state)@, board.adjacency(), cmd),
    ensures
        match r {
            Ok(ev) => spec_apply(old(state)@, board.adjacency(), cmd) == Ok::<(GameModel, Seq<Event>), RuleError>((final(state)@, ev@)),
            Err(e) => spec_apply(old(state)@, board.adjacency(), cmd) == Err::<(GameModel, Seq<Event>), RuleError>(e)
                && final(state)@ == old(state)@,
        },
{
    if state.winner.is_some() {
        return Err(RuleError::GameOver);
    }
    match cmd {
        Command::EndTurn => Ok(end_turn(state, board)),
        Command::BuildField { at } => build(state, board, at, Cover::Field),
        Command::BuildTown { at } => build(state, board, at, Cover::Town),
        Command::RecruitPawn { at } => recruit(state, board, at),
        Command::Upgrade { at } => upgrade(state, board, at),
        Command::MoveUnit { .. } => Err(RuleError::NotYetImplemented(PendingRule::UnitMovement)),
    }
}

} // verus!
