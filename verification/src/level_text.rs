//! Reading a level line: every field, every value, and the error each bad piece gives.

use vstd::prelude::*;

use crate::faction::{faction_letter, faction_of_letter, Faction};
use crate::level::{
    default_level, level_violation, AiSpec, Level, LevelError, LevelErrorView, LevelView, TileDiff, Victory,
    DEFAULT_HOSTILITY, DEFAULT_INTELLIGENCE, FORMAT_VERSION,
};
use crate::text::{
    chars_eq, chars_of, debug_char, debug_of_char, debug_of_str, debug_str, decimal, index_of, is_ascii_alphanumeric,
    is_ascii_digit, parse_uint, parse_unsigned, push_chars, push_decimal, push_str, slice_chars, split_chars,
    split_on, split_once, split_once_chars, string_of, trim, trim_chars, views,
};
use crate::tile::{
    cover_letter, cover_of_letter, terrain_letter, terrain_of_letter, unit_letter, unit_of_letter, Cover, Terrain,
    UnitKind,
};

verus! {

// ---------------------------------------------------------------------------------------------
// What a level line means

/// Where reading a level line has got to: the level so far, the keys seen (but `ai`, which may
/// repeat), and whether `n` was given.
#[verifier::ext_equal]
pub struct ParseState {
    /// The level so far.
    pub level: LevelView,
    /// Keys seen so far, `ai` excepted.
    pub seen: Seq<Seq<char>>,
    /// `n` was given.
    pub has_n: bool,
}

/// A `Value` error.
pub open spec fn value_error(key: Seq<char>, value: Seq<char>, reason: Seq<char>) -> LevelErrorView {
    LevelErrorView::Value(key, value, reason)
}

/// A small number in `lo..=hi`; which error otherwise.
pub open spec fn spec_parse_u8(key: Seq<char>, value: Seq<char>, lo: nat, hi: nat) -> Result<u8, LevelErrorView> {
    match parse_unsigned(value, 255) {
        None => Err(value_error(key, value, "expected a small integer"@)),
        Some(v) => if lo <= v <= hi {
            Ok(v as u8)
        } else {
            Err(value_error(key, value, "expected "@ + decimal(lo) + "..="@ + decimal(hi)))
        },
    }
}

/// A small number in `lo..=hi`, or nothing.
pub open spec fn u8_in_range(value: Seq<char>, lo: nat, hi: nat) -> Option<u8> {
    match parse_unsigned(value, 255) {
        Some(v) => if lo <= v <= hi {
            Some(v as u8)
        } else {
            None
        },
        None => None,
    }
}

/// Faction letters from `i` on, after the factions `acc` already read.
pub open spec fn factions_from(key: Seq<char>, value: Seq<char>, acc: Seq<Faction>, i: nat) -> Result<
    Seq<Faction>,
    LevelErrorView,
>
    decreases value.len() - i,
{
    if i >= value.len() {
        if acc.len() == 0 {
            Err(value_error(key, value, "expected at least one faction"@))
        } else {
            Ok(acc)
        }
    } else {
        match faction_of_letter(value[i as int]) {
            None => Err(value_error(key, value, "expected letters from RYGB"@)),
            Some(f) => if acc.contains(f) {
                Err(value_error(key, value, "faction "@ + seq![value[i as int]] + " listed twice"@))
            } else {
                factions_from(key, value, acc.push(f), i + 1)
            },
        }
    }
}

/// A list of distinct faction letters, at least one.
pub open spec fn spec_parse_factions(key: Seq<char>, value: Seq<char>) -> Result<Seq<Faction>, LevelErrorView> {
    factions_from(key, value, Seq::empty(), 0)
}

/// The `h<n>` / `i<n>` parts of an AI profile from `i` on. `None` where splitting a part after
/// its first character would cut a character in two (a part starting with a non-ASCII
/// character), which the reader does not survive.
pub open spec fn ai_parts(a: AiSpec, value: Seq<char>, parts: Seq<Seq<char>>, i: nat) -> Option<
    Result<AiSpec, LevelErrorView>,
>
    decreases parts.len() - i,
{
    if i >= parts.len() {
        Some(Ok(a))
    } else {
        let p = parts[i as int];
        if p.len() == 0 {
            ai_parts(a, value, parts, i + 1)
        } else if p[0] as u32 >= 128 {
            None
        } else if p[0] == 'h' {
            match u8_in_range(p.skip(1), 0, 100) {
                Some(h) => ai_parts(AiSpec { hostility: h, ..a }, value, parts, i + 1),
                None => Some(Err(value_error("ai"@, value, "h expects 0..=100"@))),
            }
        } else if p[0] == 'i' {
            match u8_in_range(p.skip(1), 0, 3) {
                Some(n) => ai_parts(AiSpec { intelligence: n, ..a }, value, parts, i + 1),
                None => Some(Err(value_error("ai"@, value, "i expects 0..=3"@))),
            }
        } else {
            Some(Err(value_error("ai"@, value, "unknown AI property "@ + debug_str(p))))
        }
    }
}

/// An `ai` value, `F:h<n>,i<n>`.
pub open spec fn spec_parse_ai(value: Seq<char>) -> Option<Result<AiSpec, LevelErrorView>> {
    match split_once(value, ':') {
        None => Some(Err(value_error("ai"@, value, "expected F:h<0-100>,i<0-3>"@))),
        Some((f, rest)) => if f.len() != 1 || faction_of_letter(f[0]) is None {
            Some(Err(value_error("ai"@, value, "expected one faction letter before ':'"@)))
        } else {
            ai_parts(
                AiSpec {
                    faction: faction_of_letter(f[0])->0,
                    hostility: DEFAULT_HOSTILITY,
                    intelligence: DEFAULT_INTELLIGENCE,
                },
                value,
                split_on(rest, ','),
                0,
            )
        },
    }
}

/// A `victory` value, `majority:<percent>,<turns>`.
pub open spec fn spec_parse_victory(value: Seq<char>) -> Result<Victory, LevelErrorView> {
    let (kind, args) = match split_once(value, ':') {
        Some(p) => p,
        None => (value, Seq::empty()),
    };
    if kind == "majority"@ {
        match split_once(args, ',') {
            None => Err(value_error("victory"@, value, "expected majority:<percent>,<turns>"@)),
            Some((p, t)) => match spec_parse_u8("victory"@, p, 1, 100) {
                Err(e) => Err(e),
                Ok(percent) => match spec_parse_u8("victory"@, t, 1, 100) {
                    Err(e) => Err(e),
                    Ok(turns) => Ok(Victory::Majority { percent, turns }),
                },
            },
        }
    } else {
        Err(value_error("victory"@, value, "unknown victory rule"@))
    }
}

/// A character of a tile range: a digit or `-`.
pub open spec fn is_range_char(c: char) -> bool {
    is_ascii_digit(c) || c == '-'
}

/// Index of the first character from `i` on that is not part of a tile range.
pub open spec fn range_end(s: Seq<char>, i: nat) -> nat
    decreases s.len() - i,
{
    if i >= s.len() {
        s.len()
    } else if !is_range_char(s[i as int]) {
        i
    } else {
        range_end(s, i + 1)
    }
}

/// The letters of a tile entry from `i` on, onto the diff `d` read so far.
pub open spec fn tile_letters(entry: Seq<char>, d: TileDiff, letters: Seq<char>, i: nat) -> Result<
    TileDiff,
    LevelErrorView,
>
    decreases letters.len() - i,
{
    if i >= letters.len() {
        Ok(d)
    } else {
        let c = letters[i as int];
        if terrain_of_letter(c) is Some {
            if d.terrain is Some {
                Err(LevelErrorView::Tile(entry, "terrain given twice"@))
            } else {
                tile_letters(entry, TileDiff { terrain: terrain_of_letter(c), ..d }, letters, i + 1)
            }
        } else if cover_of_letter(c) is Some {
            if d.cover is Some {
                Err(LevelErrorView::Tile(entry, "cover given twice"@))
            } else {
                tile_letters(entry, TileDiff { cover: cover_of_letter(c), ..d }, letters, i + 1)
            }
        } else if c == 'N' || faction_of_letter(c) is Some {
            if d.owner is Some {
                Err(LevelErrorView::Tile(entry, "owner given twice"@))
            } else {
                tile_letters(entry, TileDiff { owner: Some(faction_of_letter(c)), ..d }, letters, i + 1)
            }
        } else if unit_of_letter(c) is Some {
            if d.unit is Some {
                Err(LevelErrorView::Tile(entry, "unit given twice"@))
            } else {
                tile_letters(entry, TileDiff { unit: unit_of_letter(c), ..d }, letters, i + 1)
            }
        } else {
            Err(LevelErrorView::Tile(entry, "unknown letter "@ + debug_char(c)))
        }
    }
}

/// The tile range of an entry: `id` or `from-to`, or the reason it does not read.
pub open spec fn tile_bounds(range: Seq<char>) -> Result<(nat, nat), Seq<char>> {
    match split_once(range, '-') {
        Some((a, b)) => match parse_unsigned(a, u32::MAX as nat) {
            None => Err("bad range start"@),
            Some(from) => match parse_unsigned(b, u32::MAX as nat) {
                None => Err("bad range end"@),
                Some(to) => Ok((from, to)),
            },
        },
        None => match parse_unsigned(range, u32::MAX as nat) {
            None => Err("expected a tile id"@),
            Some(id) => Ok((id, id)),
        },
    }
}

/// A tile entry: a range, then letters for terrain, cover, owner and unit, each at most once.
pub open spec fn spec_parse_tile(entry: Seq<char>) -> Result<TileDiff, LevelErrorView> {
    let end = range_end(entry, 0);
    let letters = entry.skip(end as int);
    match tile_bounds(entry.take(end as int)) {
        Err(reason) => Err(LevelErrorView::Tile(entry, reason)),
        Ok((from, to)) => if from > to {
            Err(LevelErrorView::Tile(entry, "range start after end"@))
        } else {
            let blank = TileDiff {
                from: from as u32,
                to: to as u32,
                terrain: None,
                cover: None,
                owner: None,
                unit: None,
            };
            match tile_letters(entry, blank, letters, 0) {
                Err(e) => Err(e),
                Ok(d) => if letters.len() == 0 {
                    Err(LevelErrorView::Tile(entry, "entry changes nothing"@))
                } else {
                    Ok(d)
                },
            }
        },
    }
}

/// The tile entries from `i` on, appended to `tiles`; empty entries are skipped.
pub open spec fn tile_entries(tiles: Seq<TileDiff>, entries: Seq<Seq<char>>, i: nat) -> Result<
    Seq<TileDiff>,
    LevelErrorView,
>
    decreases entries.len() - i,
{
    if i >= entries.len() {
        Ok(tiles)
    } else if entries[i as int].len() == 0 {
        tile_entries(tiles, entries, i + 1)
    } else {
        match spec_parse_tile(entries[i as int]) {
            Err(e) => Err(e),
            Ok(d) => tile_entries(tiles.push(d), entries, i + 1),
        }
    }
}

/// A character allowed in a level name.
pub open spec fn is_name_char(c: char) -> bool {
    is_ascii_alphanumeric(c) || c == '_' || c == '.' || c == '-'
}

/// A level name: `[A-Za-z0-9_.-]+`.
pub open spec fn is_name(s: Seq<char>) -> bool {
    s.len() > 0 && forall|i: int| 0 <= i < s.len() ==> is_name_char(#[trigger] s[i])
}

/// The state after one `key=value` field whose key is new (or `ai`).
pub open spec fn apply_key(st: ParseState, key: Seq<char>, value: Seq<char>) -> Option<
    Result<ParseState, LevelErrorView>,
> {
    let l = st.level;
    if key == "name"@ {
        if !is_name(value) {
            Some(Err(value_error(key, value, "expected [A-Za-z0-9_.-]+"@)))
        } else {
            Some(Ok(ParseState { level: LevelView { name: Some(value), ..l }, ..st }))
        }
    } else if key == "n"@ {
        match spec_parse_u8(key, value, 2, 12) {
            Err(e) => Some(Err(e)),
            Ok(v) => Some(Ok(ParseState { level: LevelView { frequency: v, ..l }, has_n: true, ..st })),
        }
    } else if key == "seed"@ {
        match parse_unsigned(value, u32::MAX as nat) {
            None => Some(Err(value_error(key, value, "expected 0..=4294967295"@))),
            Some(v) => Some(Ok(ParseState { level: LevelView { seed: v as u32, ..l }, ..st })),
        }
    } else if key == "players"@ {
        match spec_parse_u8(key, value, 2, 4) {
            Err(e) => Some(Err(e)),
            Ok(v) => Some(Ok(ParseState { level: LevelView { players: v, ..l }, ..st })),
        }
    } else if key == "human"@ {
        match spec_parse_factions(key, value) {
            Err(e) => Some(Err(e)),
            Ok(v) => Some(Ok(ParseState { level: LevelView { humans: v, ..l }, ..st })),
        }
    } else if key == "ai"@ {
        match spec_parse_ai(value) {
            None => None,
            Some(Err(e)) => Some(Err(e)),
            Some(Ok(a)) => Some(Ok(ParseState { level: LevelView { ai: l.ai.push(a), ..l }, ..st })),
        }
    } else if key == "land"@ {
        match spec_parse_u8(key, value, 0, 100) {
            Err(e) => Some(Err(e)),
            Ok(v) => Some(Ok(ParseState { level: LevelView { land_percent: v, ..l }, ..st })),
        }
    } else if key == "forest"@ {
        match spec_parse_u8(key, value, 0, 100) {
            Err(e) => Some(Err(e)),
            Ok(v) => Some(Ok(ParseState { level: LevelView { forest_percent: v, ..l }, ..st })),
        }
    } else if key == "victory"@ {
        match spec_parse_victory(value) {
            Err(e) => Some(Err(e)),
            Ok(v) => Some(Ok(ParseState { level: LevelView { victory: v, ..l }, ..st })),
        }
    } else if key == "tiles"@ {
        match tile_entries(l.tiles, split_on(value, ','), 0) {
            Err(e) => Some(Err(e)),
            Ok(t) => Some(Ok(ParseState { level: LevelView { tiles: t, ..l }, ..st })),
        }
    } else {
        Some(Err(LevelErrorView::UnknownKey(key)))
    }
}

/// The state after one field. Empty fields are skipped; `None` where reading does not survive.
pub open spec fn parse_field(st: ParseState, field: Seq<char>) -> Option<Result<ParseState, LevelErrorView>> {
    if field.len() == 0 {
        Some(Ok(st))
    } else {
        match split_once(field, '=') {
            None => Some(Err(LevelErrorView::Field(field))),
            Some((key, value)) => if key.len() == 0 {
                Some(Err(LevelErrorView::Field(field)))
            } else if key != "ai"@ && st.seen.contains(key) {
                Some(Err(LevelErrorView::DuplicateKey(key)))
            } else if key != "ai"@ {
                apply_key(ParseState { seen: st.seen.push(key), ..st }, key, value)
            } else {
                apply_key(st, key, value)
            },
        }
    }
}

/// The state after the fields from `i` on; the first error stops reading.
pub open spec fn parse_fields(st: ParseState, fields: Seq<Seq<char>>, i: nat) -> Option<
    Result<ParseState, LevelErrorView>,
>
    decreases fields.len() - i,
{
    if i >= fields.len() {
        Some(Ok(st))
    } else {
        match parse_field(st, fields[i as int]) {
            None => None,
            Some(Err(e)) => Some(Err(e)),
            Some(Ok(next)) => parse_fields(next, fields, i + 1),
        }
    }
}

/// Where reading starts: the default level, no key seen.
pub open spec fn initial_state() -> ParseState {
    ParseState { level: default_level(), seen: Seq::empty(), has_n: false }
}

/// What reading a level line gives: the level, or the first error. `None` for the lines the
/// reader does not survive (an `ai` part starting with a non-ASCII character).
pub open spec fn spec_parse(text: Seq<char>) -> Option<Result<LevelView, LevelErrorView>> {
    let fields = split_on(trim(text), ';');
    let version = fields[0];
    if version != FORMAT_VERSION@ {
        Some(Err(LevelErrorView::Version(version)))
    } else {
        match parse_fields(initial_state(), fields, 1) {
            None => None,
            Some(Err(e)) => Some(Err(e)),
            Some(Ok(st)) => if !st.has_n {
                Some(Err(LevelErrorView::Missing("n"@)))
            } else {
                match level_violation(st.level) {
                    Some(m) => Some(Err(LevelErrorView::Invalid(m))),
                    None => Some(Ok(st.level)),
                }
            },
        }
    }
}

/// A parse result as a value.
pub open spec fn level_result_view(r: Result<Level, LevelError>) -> Result<LevelView, LevelErrorView> {
    match r {
        Ok(l) => Ok(l@),
        Err(e) => Err(e@),
    }
}


// ---------------------------------------------------------------------------------------------
// Reading

/// A `Value` error whose reason is a literal.
fn value_err(key: &[char], value: &[char], reason: &str) -> (e: LevelError)
    ensures
        e@ == value_error(key@, value@, reason@),
{
    LevelError::Value { key: string_of(key), value: string_of(value), reason: string_of(&chars_of(reason)) }
}

/// A `Value` error whose reason is built.
fn value_err_chars(key: &[char], value: &[char], reason: &[char]) -> (e: LevelError)
    ensures
        e@ == value_error(key@, value@, reason@),
{
    LevelError::Value { key: string_of(key), value: string_of(value), reason: string_of(reason) }
}

/// A `Tile` error whose reason is a literal.
fn tile_err(entry: &[char], reason: &str) -> (e: LevelError)
    ensures
        e@ == LevelErrorView::Tile(entry@, reason@),
{
    LevelError::Tile(string_of(entry), string_of(&chars_of(reason)))
}

/// A small number in `lo..=hi`.
fn parse_u8_value(key: &[char], value: &[char], lo: u8, hi: u8) -> (r: Result<u8, LevelError>)
    ensures
        match spec_parse_u8(key@, value@, lo as nat, hi as nat) {
            Ok(v) => r == Ok::<u8, LevelError>(v),
            Err(e) => r matches Err(x) && x@ == e,
        },
{
    match parse_uint(value, 255) {
        None => Err(value_err(key, value, "expected a small integer")),
        Some(v) => {
            if lo as u64 <= v && v <= hi as u64 {
                Ok(v as u8)
            } else {
                let mut m = Vec::new();
                push_str(&mut m, "expected ");
                push_decimal(&mut m, lo as u64);
                push_str(&mut m, "..=");
                push_decimal(&mut m, hi as u64);
                Err(value_err_chars(key, value, &m))
            }
        },
    }
}

/// A small number in `lo..=hi`, or nothing.
fn u8_in(value: &[char], lo: u8, hi: u8) -> (r: Option<u8>)
    ensures
        r == u8_in_range(value@, lo as nat, hi as nat),
{
    match parse_uint(value, 255) {
        None => None,
        Some(v) => {
            if lo as u64 <= v && v <= hi as u64 {
                Some(v as u8)
            } else {
                None
            }
        },
    }
}

fn has_faction(v: &Vec<Faction>, f: Faction) -> (b: bool)
    ensures
        b == v@.contains(f),
{
    let mut i: usize = 0;
    while i < v.len()
        invariant
            i <= v@.len(),
            forall|k: int| 0 <= k < i ==> v@[k] != f,
        decreases v.len() - i,
    {
        if v[i] == f {
            return true;
        }
        i += 1;
    }
    false
}

/// A list of distinct faction letters.
fn parse_factions_value(key: &[char], value: &[char]) -> (r: Result<Vec<Faction>, LevelError>)
    ensures
        match spec_parse_factions(key@, value@) {
            Ok(v) => r matches Ok(x) && x@ == v,
            Err(e) => r matches Err(x) && x@ == e,
        },
{
    let mut out: Vec<Faction> = Vec::new();
    let mut i: usize = 0;
    while i < value.len()
        invariant
            i <= value@.len(),
            spec_parse_factions(key@, value@) == factions_from(key@, value@, out@, i as nat),
        decreases value.len() - i,
    {
        let c = value[i];
        match Faction::from_letter(c) {
            None => return Err(value_err(key, value, "expected letters from RYGB")),
            Some(f) => {
                if has_faction(&out, f) {
                    let mut m = Vec::new();
                    push_str(&mut m, "faction ");
                    m.push(c);
                    push_str(&mut m, " listed twice");
                    assert(m@ =~= "faction "@ + seq![c] + " listed twice"@);
                    return Err(value_err_chars(key, value, &m));
                }
                out.push(f);
            },
        }
        i += 1;
    }
    if out.len() == 0 {
        return Err(value_err(key, value, "expected at least one faction"));
    }
    Ok(out)
}

/// An `ai` value, `F:h<n>,i<n>`.
fn parse_ai_value(value: &[char]) -> (r: Option<Result<AiSpec, LevelError>>)
    ensures
        match spec_parse_ai(value@) {
            None => r is None,
            Some(Ok(a)) => r == Some(Ok::<AiSpec, LevelError>(a)),
            Some(Err(e)) => r matches Some(Err(x)) && x@ == e,
        },
{
    let key = chars_of("ai");
    match split_once_chars(value, ':') {
        None => Some(Err(value_err(&key, value, "expected F:h<0-100>,i<0-3>"))),
        Some((f, rest)) => {
            if f.len() != 1 {
                return Some(Err(value_err(&key, value, "expected one faction letter before ':'")));
            }
            let faction = match Faction::from_letter(f[0]) {
                None => {
                    return Some(Err(value_err(&key, value, "expected one faction letter before ':'")));
                },
                Some(x) => x,
            };
            let mut a = AiSpec { faction, hostility: DEFAULT_HOSTILITY, intelligence: DEFAULT_INTELLIGENCE };
            let parts = split_chars(&rest, ',');
            let ghost pv = views(parts@);
            let mut i: usize = 0;
            while i < parts.len()
                invariant
                    i <= parts@.len(),
                    pv == views(parts@),
                    pv.len() == parts@.len(),
                    key@ == "ai"@,
                    spec_parse_ai(value@) == ai_parts(a, value@, pv, i as nat),
                decreases parts.len() - i,
            {
                let p = &parts[i];
                assert(p@ == pv[i as int]);
                if p.len() > 0 {
                    let c = p[0];
                    if c as u32 >= 128 {
                        return None;
                    }
                    let n = slice_chars(p, 1, p.len());
                    assert(n@ =~= p@.skip(1));
                    if c == 'h' {
                        match u8_in(&n, 0, 100) {
                            Some(h) => a.hostility = h,
                            None => {
                                return Some(Err(value_err(&key, value, "h expects 0..=100")));
                            },
                        }
                    } else if c == 'i' {
                        match u8_in(&n, 0, 3) {
                            Some(x) => a.intelligence = x,
                            None => {
                                return Some(Err(value_err(&key, value, "i expects 0..=3")));
                            },
                        }
                    } else {
                        let d = debug_of_str(string_of(p).as_str());
                        let mut m = Vec::new();
                        push_str(&mut m, "unknown AI property ");
                        let dv = chars_of(d.as_str());
                        push_chars(&mut m, &dv);
                        return Some(Err(value_err_chars(&key, value, &m)));
                    }
                }
                i += 1;
            }
            Some(Ok(a))
        },
    }
}

/// A `victory` value.
fn parse_victory_value(value: &[char]) -> (r: Result<Victory, LevelError>)
    ensures
        match spec_parse_victory(value@) {
            Ok(v) => r == Ok::<Victory, LevelError>(v),
            Err(e) => r matches Err(x) && x@ == e,
        },
{
    let key = chars_of("victory");
    let (kind, args) = match split_once_chars(value, ':') {
        Some(p) => p,
        None => (slice_chars(value, 0, value.len()), Vec::new()),
    };
    assert(value@.subrange(0, value@.len() as int) =~= value@);
    if chars_eq(&kind, "majority") {
        match split_once_chars(&args, ',') {
            None => Err(value_err(&key, value, "expected majority:<percent>,<turns>")),
            Some((p, t)) => {
                let percent = match parse_u8_value(&key, &p, 1, 100) {
                    Ok(x) => x,
                    Err(e) => {
                        return Err(e);
                    },
                };
                let turns = match parse_u8_value(&key, &t, 1, 100) {
                    Ok(x) => x,
                    Err(e) => {
                        return Err(e);
                    },
                };
                Ok(Victory::Majority { percent, turns })
            },
        }
    } else {
        Err(value_err(&key, value, "unknown victory rule"))
    }
}

/// When the characters from `i` up to `k` belong to a tile range and the one at `k` does not
/// (or the text ends there), the range ends at `k`.
pub proof fn lemma_range_end(s: Seq<char>, i: nat, k: nat)
    requires
        i <= k <= s.len(),
        forall|j: int| i <= j < k ==> is_range_char(#[trigger] s[j]),
        k < s.len() ==> !is_range_char(s[k as int]),
    ensures
        range_end(s, i) == k,
    decreases k - i,
{
    if i < k {
        lemma_range_end(s, i + 1, k);
    }
}

/// One tile entry.
#[verifier::loop_isolation(false)]
fn parse_tile_entry(entry: &[char]) -> (r: Result<TileDiff, LevelError>)
    ensures
        match spec_parse_tile(entry@) {
            Ok(d) => r == Ok::<TileDiff, LevelError>(d),
            Err(e) => r matches Err(x) && x@ == e,
        },
{
    let mut end: usize = 0;
    while end < entry.len() && (('0' <= entry[end] && entry[end] <= '9') || entry[end] == '-')
        invariant
            end <= entry@.len(),
            forall|j: int| 0 <= j < end ==> is_range_char(#[trigger] entry@[j]),
        decreases entry.len() - end,
    {
        end += 1;
    }
    proof {
        lemma_range_end(entry@, 0, end as nat);
    }
    let range = slice_chars(entry, 0, end);
    let letters = slice_chars(entry, end, entry.len());
    assert(range@ =~= entry@.take(end as int));
    assert(letters@ =~= entry@.skip(end as int));
    let (from, to) = match split_once_chars(&range, '-') {
        Some((a, b)) => {
            let from = match parse_uint(&a, 0xffff_ffff) {
                None => {
                    return Err(tile_err(entry, "bad range start"));
                },
                Some(x) => x,
            };
            let to = match parse_uint(&b, 0xffff_ffff) {
                None => {
                    return Err(tile_err(entry, "bad range end"));
                },
                Some(x) => x,
            };
            (from as u32, to as u32)
        },
        None => {
            let id = match parse_uint(&range, 0xffff_ffff) {
                None => {
                    return Err(tile_err(entry, "expected a tile id"));
                },
                Some(x) => x,
            };
            (id as u32, id as u32)
        },
    };
    if from > to {
        return Err(tile_err(entry, "range start after end"));
    }
    let mut d = TileDiff { from, to, terrain: None, cover: None, owner: None, unit: None };
    let ghost blank = d;
    let mut i: usize = 0;
    while i < letters.len()
        invariant
            i <= letters@.len(),
            tile_letters(entry@, blank, letters@, 0) == tile_letters(entry@, d, letters@, i as nat),
        decreases letters.len() - i,
    {
        let c = letters[i];
        match Terrain::from_letter(c) {
            Some(t) => {
                if d.terrain.is_some() {
                    return Err(tile_err(entry, "terrain given twice"));
                }
                d.terrain = Some(t);
            },
            None => match Cover::from_letter(c) {
                Some(cv) => {
                    if d.cover.is_some() {
                        return Err(tile_err(entry, "cover given twice"));
                    }
                    d.cover = Some(cv);
                },
                None => {
                    let f = Faction::from_letter(c);
                    if c == 'N' || f.is_some() {
                        if d.owner.is_some() {
                            return Err(tile_err(entry, "owner given twice"));
                        }
                        d.owner = Some(f);
                    } else {
                        match UnitKind::from_letter(c) {
                            Some(u) => {
                                if d.unit.is_some() {
                                    return Err(tile_err(entry, "unit given twice"));
                                }
                                d.unit = Some(u);
                            },
                            None => {
                                let dc = debug_of_char(c);
                                let mut m = Vec::new();
                                push_str(&mut m, "unknown letter ");
                                let dv = chars_of(dc.as_str());
                                push_chars(&mut m, &dv);
                                return Err(LevelError::Tile(string_of(entry), string_of(&m)));
                            },
                        }
                    }
                },
            },
        }
        i += 1;
    }
    if letters.len() == 0 {
        return Err(tile_err(entry, "entry changes nothing"));
    }
    Ok(d)
}

/// The `tiles` value: every non-empty entry, appended in order.
#[verifier::loop_isolation(false)]
fn parse_tiles_value(tiles: &mut Vec<TileDiff>, value: &[char]) -> (r: Result<(), LevelError>)
    ensures
        match tile_entries(old(tiles)@, split_on(value@, ','), 0) {
            Ok(t) => r is Ok && final(tiles)@ == t,
            Err(e) => r matches Err(x) && x@ == e,
        },
{
    let entries = split_chars(value, ',');
    let ghost ev = views(entries@);
    let ghost start = tiles@;
    let mut i: usize = 0;
    while i < entries.len()
        invariant
            i <= entries@.len(),
            ev == views(entries@),
            ev == split_on(value@, ','),
            tile_entries(start, ev, 0) == tile_entries(tiles@, ev, i as nat),
        decreases entries.len() - i,
    {
        let e = &entries[i];
        assert(e@ == ev[i as int]);
        if e.len() > 0 {
            match parse_tile_entry(e) {
                Ok(d) => tiles.push(d),
                Err(x) => {
                    return Err(x);
                },
            }
        }
        i += 1;
    }
    Ok(())
}

fn is_name_value(v: &[char]) -> (b: bool)
    ensures
        b == is_name(v@),
{
    if v.len() == 0 {
        return false;
    }
    let mut i: usize = 0;
    while i < v.len()
        invariant
            i <= v@.len(),
            forall|k: int| 0 <= k < i ==> is_name_char(#[trigger] v@[k]),
        decreases v.len() - i,
    {
        let c = v[i];
        if !(('0' <= c && c <= '9') || ('a' <= c && c <= 'z') || ('A' <= c && c <= 'Z') || c == '_' || c == '.' || c
            == '-') {
            assert(!is_name_char(v@[i as int]));
            return false;
        }
        i += 1;
    }
    true
}

fn seen_contains(seen: &Vec<Vec<char>>, key: &[char]) -> (b: bool)
    ensures
        b == views(seen@).contains(key@),
{
    let mut i: usize = 0;
    while i < seen.len()
        invariant
            i <= seen@.len(),
            forall|k: int| 0 <= k < i ==> seen@[k]@ != key@,
        decreases seen.len() - i,
    {
        let s = &seen[i];
        let mut same = s.len() == key.len();
        let mut j: usize = 0;
        while same && j < key.len()
            invariant
                j <= key@.len(),
                same ==> s@.len() == key@.len(),
                same ==> forall|t: int| 0 <= t < j ==> s@[t] == key@[t],
                !same ==> s@ != key@,
            decreases key.len() - j,
        {
            if s[j] != key[j] {
                same = false;
            }
            j += 1;
        }
        if same {
            assert(s@ =~= key@);
            assert(views(seen@)[i as int] == key@);
            return true;
        }
        i += 1;
    }
    assert forall|k: int| 0 <= k < views(seen@).len() implies views(seen@)[k] != key@ by {
        assert(views(seen@)[k] == seen@[k]@);
    }
    false
}

/// The reader's state.
struct Reader {
    level: Level,
    seen: Vec<Vec<char>>,
    has_n: bool,
}

impl Reader {
    spec fn view(&self) -> ParseState {
        ParseState { level: self.level@, seen: views(self.seen@), has_n: self.has_n }
    }
}

/// One `key=value` field whose key is new (or `ai`).
fn read_key(rd: &mut Reader, key: &[char], value: &[char]) -> (r: Option<Result<(), LevelError>>)
    ensures
        match apply_key(old(rd)@, key@, value@) {
            None => r is None,
            Some(Ok(st)) => r == Some(Ok::<(), LevelError>(())) && final(rd)@ == st,
            Some(Err(e)) => r matches Some(Err(x)) && x@ == e,
        },
{
    if chars_eq(key, "name") {
        if !is_name_value(value) {
            return Some(Err(value_err(key, value, "expected [A-Za-z0-9_.-]+")));
        }
        rd.level.name = Some(string_of(value));
    } else if chars_eq(key, "n") {
        match parse_u8_value(key, value, 2, 12) {
            Ok(v) => {
                rd.level.frequency = v;
                rd.has_n = true;
            },
            Err(e) => {
                return Some(Err(e));
            },
        }
    } else if chars_eq(key, "seed") {
        match parse_uint(value, 0xffff_ffff) {
            Some(v) => rd.level.seed = v as u32,
            None => {
                return Some(Err(value_err(key, value, "expected 0..=4294967295")));
            },
        }
    } else if chars_eq(key, "players") {
        match parse_u8_value(key, value, 2, 4) {
            Ok(v) => rd.level.players = v,
            Err(e) => {
                return Some(Err(e));
            },
        }
    } else if chars_eq(key, "human") {
        match parse_factions_value(key, value) {
            Ok(v) => rd.level.humans = v,
            Err(e) => {
                return Some(Err(e));
            },
        }
    } else if chars_eq(key, "ai") {
        match parse_ai_value(value) {
            None => {
                return None;
            },
            Some(Ok(a)) => rd.level.ai.push(a),
            Some(Err(e)) => {
                return Some(Err(e));
            },
        }
    } else if chars_eq(key, "land") {
        match parse_u8_value(key, value, 0, 100) {
            Ok(v) => rd.level.land_percent = v,
            Err(e) => {
                return Some(Err(e));
            },
        }
    } else if chars_eq(key, "forest") {
        match parse_u8_value(key, value, 0, 100) {
            Ok(v) => rd.level.forest_percent = v,
            Err(e) => {
                return Some(Err(e));
            },
        }
    } else if chars_eq(key, "victory") {
        match parse_victory_value(value) {
            Ok(v) => rd.level.victory = v,
            Err(e) => {
                return Some(Err(e));
            },
        }
    } else if chars_eq(key, "tiles") {
        match parse_tiles_value(&mut rd.level.tiles, value) {
            Ok(()) => {},
            Err(e) => {
                return Some(Err(e));
            },
        }
    } else {
        return Some(Err(LevelError::UnknownKey(string_of(key))));
    }
    Some(Ok(()))
}

/// One field of the line.
fn read_field(rd: &mut Reader, field: &[char]) -> (r: Option<Result<(), LevelError>>)
    ensures
        match parse_field(old(rd)@, field@) {
            None => r is None,
            Some(Ok(st)) => r == Some(Ok::<(), LevelError>(())) && final(rd)@ == st,
            Some(Err(e)) => r matches Some(Err(x)) && x@ == e,
        },
{
    if field.len() == 0 {
        return Some(Ok(()));
    }
    match split_once_chars(field, '=') {
        None => Some(Err(LevelError::Field(string_of(field)))),
        Some((key, value)) => {
            if key.len() == 0 {
                return Some(Err(LevelError::Field(string_of(field))));
            }
            let is_ai = chars_eq(&key, "ai");
            if !is_ai {
                if seen_contains(&rd.seen, &key) {
                    return Some(Err(LevelError::DuplicateKey(string_of(&key))));
                }
                let ghost before = views(rd.seen@);
                rd.seen.push(slice_chars(&key, 0, key.len()));
                assert(key@.subrange(0, key@.len() as int) =~= key@);
                assert(views(rd.seen@) =~= before.push(key@));
            }
            read_key(rd, &key, &value)
        },
    }
}

impl Level {
    /// Parses one level line and validates it. The line is read without surrounding white
    /// space, as `;`-separated fields after the format tag; empty fields are skipped. A line
    /// with an `ai` part that starts with a non-ASCII character cannot be read (see
    /// [`Level::try_parse`]).
    pub fn parse(text: &str) -> (r: Result<Level, LevelError>)
        requires
            spec_parse(text@) is Some,
        ensures
            level_result_view(r) == spec_parse(text@)->0,
    {
        read_level(text).unwrap()
    }

    /// [`Level::parse`] for any line: `None` for the lines it cannot read, those with an `ai`
    /// part that starts with a non-ASCII character.
    pub fn try_parse(text: &str) -> (r: Option<Result<Level, LevelError>>)
        ensures
            match spec_parse(text@) {
                None => r is None,
                Some(x) => r matches Some(y) && level_result_view(y) == x,
            },
    {
        read_level(text)
    }
}

#[verifier::loop_isolation(false)]
fn read_level(text: &str) -> (r: Option<Result<Level, LevelError>>)
    ensures
        match spec_parse(text@) {
            None => r is None,
            Some(x) => r matches Some(y) && level_result_view(y) == x,
        },
{
    let chars = chars_of(text);
    let t = trim_chars(&chars);
    let fields = split_chars(&t, ';');
    let ghost fv = views(fields@);
    assert(fv.len() == fields@.len());
    proof {
        lemma_split_nonempty(t@, ';');
    }
    let version = &fields[0];
    assert(version@ == fv[0]);
    if !chars_eq(version, FORMAT_VERSION) {
        return Some(Err(LevelError::Version(string_of(version))));
    }
    let mut rd = Reader { level: Level::default(), seen: Vec::new(), has_n: false };
    assert(views(rd.seen@) =~= Seq::<Seq<char>>::empty());
    assert(rd@ =~= initial_state());
    let mut i: usize = 1;
    while i < fields.len()
        invariant
            1 <= i <= fields@.len(),
            fv == views(fields@),
            fv == split_on(trim(text@), ';'),
            parse_fields(initial_state(), fv, 1) == parse_fields(rd@, fv, i as nat),
        decreases fields.len() - i,
    {
        let f = &fields[i];
        assert(f@ == fv[i as int]);
        match read_field(&mut rd, f) {
            None => {
                return None;
            },
            Some(Ok(())) => {},
            Some(Err(e)) => {
                return Some(Err(e));
            },
        }
        i += 1;
    }
    if !rd.has_n {
        return Some(Err(LevelError::Missing("n")));
    }
    match rd.level.validate() {
        Ok(()) => Some(Ok(rd.level)),
        Err(e) => Some(Err(e)),
    }
}

/// Splitting always gives at least one piece.
pub proof fn lemma_split_nonempty(s: Seq<char>, sep: char)
    ensures
        split_on(s, sep).len() >= 1,
    decreases s.len(),
{
    crate::text::lemma_index_of_from(s, sep, 0);
    if index_of(s, sep) < s.len() {
        lemma_split_nonempty(s.skip(index_of(s, sep) as int + 1), sep);
    }
}


// ---------------------------------------------------------------------------------------------
// Writing

/// The pieces joined with `sep` between each two.
pub open spec fn join(parts: Seq<Seq<char>>, sep: char) -> Seq<char>
    decreases parts.len(),
{
    if parts.len() == 0 {
        Seq::empty()
    } else if parts.len() == 1 {
        parts[0]
    } else {
        join(parts.drop_last(), sep) + seq![sep] + parts.last()
    }
}

/// `from` alone when the range is one tile, else `from-to`.
pub open spec fn range_text(d: TileDiff) -> Seq<char> {
    if d.from == d.to {
        decimal(d.from as nat)
    } else {
        decimal(d.from as nat) + "-"@ + decimal(d.to as nat)
    }
}

/// The terrain letter of a diff, when given.
pub open spec fn terrain_part(d: TileDiff) -> Seq<char> {
    match d.terrain {
        Some(t) => seq![terrain_letter(t)],
        None => Seq::empty(),
    }
}

/// The cover letter of a diff, when given.
pub open spec fn cover_part(d: TileDiff) -> Seq<char> {
    match d.cover {
        Some(c) => seq![cover_letter(c)],
        None => Seq::empty(),
    }
}

/// The owner letter of a diff (`N` for none), when given.
pub open spec fn owner_part(d: TileDiff) -> Seq<char> {
    match d.owner {
        Some(Some(f)) => seq![faction_letter(f)],
        Some(None) => seq!['N'],
        None => Seq::empty(),
    }
}

/// The unit letter of a diff, when given.
pub open spec fn unit_part(d: TileDiff) -> Seq<char> {
    match d.unit {
        Some(u) => seq![unit_letter(u)],
        None => Seq::empty(),
    }
}

/// The letters of a tile diff: terrain, cover, owner, unit, each when given.
pub open spec fn diff_letters(d: TileDiff) -> Seq<char> {
    terrain_part(d) + cover_part(d) + owner_part(d) + unit_part(d)
}

/// A tile diff as a tile entry.
pub open spec fn tile_diff_text(d: TileDiff) -> Seq<char> {
    range_text(d) + diff_letters(d)
}

/// The letters of a list of factions.
pub open spec fn faction_letters(fs: Seq<Faction>) -> Seq<char> {
    Seq::new(fs.len(), |i: int| faction_letter(fs[i]))
}

/// An AI profile as an `ai` value.
pub open spec fn ai_text(a: AiSpec) -> Seq<char> {
    seq![faction_letter(a.faction)] + ":h"@ + decimal(a.hostility as nat) + ",i"@ + decimal(a.intelligence as nat)
}

/// A victory rule as a `victory` value.
pub open spec fn victory_text(v: Victory) -> Seq<char> {
    match v {
        Victory::Majority { percent, turns } => "majority:"@ + decimal(percent as nat) + ","@ + decimal(
            turns as nat,
        ),
    }
}

/// The fields of the canonical form: the tag, the name when there is one, every scalar, the
/// `ai` entries in order, and `tiles` last when there are any.
pub open spec fn level_fields(l: LevelView) -> Seq<Seq<char>> {
    seq![FORMAT_VERSION@] + (match l.name {
        Some(n) => seq!["name="@ + n],
        None => Seq::empty(),
    }) + seq![
        "n="@ + decimal(l.frequency as nat),
        "seed="@ + decimal(l.seed as nat),
        "players="@ + decimal(l.players as nat),
        "human="@ + faction_letters(l.humans),
    ] + Seq::new(l.ai.len(), |i: int| "ai="@ + ai_text(l.ai[i])) + seq![
        "land="@ + decimal(l.land_percent as nat),
        "forest="@ + decimal(l.forest_percent as nat),
        "victory="@ + victory_text(l.victory),
    ] + (if l.tiles.len() > 0 {
        seq!["tiles="@ + join(Seq::new(l.tiles.len(), |i: int| tile_diff_text(l.tiles[i])), ',')]
    } else {
        Seq::empty()
    })
}

/// The canonical level line.
pub open spec fn level_text(l: LevelView) -> Seq<char> {
    join(level_fields(l), ';')
}

/// Appends one piece.
fn push_field(fields: &mut Vec<Vec<char>>, f: Vec<char>)
    ensures
        views(final(fields)@) == views(old(fields)@).push(f@),
{
    let ghost before = fields@;
    fields.push(f);
    assert(views(fields@) =~= views(before).push(f@));
}

/// The pieces joined with `sep`.
fn join_chars(parts: &Vec<Vec<char>>, sep: char) -> (out: Vec<char>)
    ensures
        out@ == join(views(parts@), sep),
{
    let mut out: Vec<char> = Vec::new();
    let mut i: usize = 0;
    while i < parts.len()
        invariant
            i <= parts@.len(),
            out@ == join(views(parts@).take(i as int), sep),
        decreases parts.len() - i,
    {
        let ghost before = views(parts@).take(i as int);
        if i > 0 {
            out.push(sep);
        }
        push_chars(&mut out, &parts[i]);
        proof {
            let now = views(parts@).take(i + 1);
            assert(now.drop_last() =~= before);
            assert(now.last() == parts@[i as int]@);
            if i == 0 {
                assert(before.len() == 0);
                assert(out@ =~= now[0]);
            }
        }
        i += 1;
    }
    assert(views(parts@).take(i as int) =~= views(parts@));
    out
}

impl TileDiff {
    /// The tile entry: the range (`from`, or `from-to`), then the letters of the given fields.
    pub fn to_string(&self) -> (s: String)
        ensures
            s@ == tile_diff_text(*self),
    {
        string_of(&self.text())
    }

    fn text(&self) -> (v: Vec<char>)
        ensures
            v@ == tile_diff_text(*self),
    {
        let mut v = range_chars(self);
        let ghost r = v@;
        push_terrain(&mut v, self);
        let ghost a = v@;
        push_cover(&mut v, self);
        let ghost b = v@;
        push_owner(&mut v, self);
        let ghost c = v@;
        push_unit(&mut v, self);
        assert(v@ =~= r + terrain_part(*self) + cover_part(*self) + owner_part(*self) + unit_part(*self));
        v
    }
}

fn range_chars(d: &TileDiff) -> (v: Vec<char>)
    ensures
        v@ == range_text(*d),
{
    let mut v = Vec::new();
    push_decimal(&mut v, d.from as u64);
    if d.from != d.to {
        push_str(&mut v, "-");
        push_decimal(&mut v, d.to as u64);
    }
    assert(v@ =~= range_text(*d));
    v
}

fn push_terrain(v: &mut Vec<char>, d: &TileDiff)
    ensures
        final(v)@ == old(v)@ + terrain_part(*d),
{
    match d.terrain {
        Some(t) => v.push(t.letter()),
        None => {},
    }
    assert(v@ =~= old(v)@ + terrain_part(*d));
}

fn push_cover(v: &mut Vec<char>, d: &TileDiff)
    ensures
        final(v)@ == old(v)@ + cover_part(*d),
{
    match d.cover {
        Some(c) => v.push(c.letter()),
        None => {},
    }
    assert(v@ =~= old(v)@ + cover_part(*d));
}

fn push_owner(v: &mut Vec<char>, d: &TileDiff)
    ensures
        final(v)@ == old(v)@ + owner_part(*d),
{
    match d.owner {
        Some(Some(f)) => v.push(f.letter()),
        Some(None) => v.push('N'),
        None => {},
    }
    assert(v@ =~= old(v)@ + owner_part(*d));
}

fn push_unit(v: &mut Vec<char>, d: &TileDiff)
    ensures
        final(v)@ == old(v)@ + unit_part(*d),
{
    match d.unit {
        Some(u) => v.push(u.letter()),
        None => {},
    }
    assert(v@ =~= old(v)@ + unit_part(*d));
}

impl Level {
    /// The canonical level line: the tag, the name when there is one, every scalar field, the
    /// `ai` entries in the given order, `tiles` last when there are any.
    pub fn to_string(&self) -> (s: String)
        ensures
            s@ == level_text(self@),
    {
        let l = self;
        let mut fields: Vec<Vec<char>> = Vec::new();
        let tag = chars_of(FORMAT_VERSION);
        push_field(&mut fields, tag);
        let ghost e0 = seq![FORMAT_VERSION@];
        assert(views(fields@) =~= e0);
        match &l.name {
            Some(n) => {
                let mut f = chars_of("name=");
                push_str(&mut f, n.as_str());
                push_field(&mut fields, f);
            },
            None => {},
        }
        let ghost e1 = e0 + (match l@.name {
            Some(n) => seq!["name="@ + n],
            None => Seq::<Seq<char>>::empty(),
        });
        assert(views(fields@) =~= e1);
        let mut f = chars_of("n=");
        push_decimal(&mut f, l.frequency as u64);
        push_field(&mut fields, f);
        let mut f = chars_of("seed=");
        push_decimal(&mut f, l.seed as u64);
        push_field(&mut fields, f);
        let mut f = chars_of("players=");
        push_decimal(&mut f, l.players as u64);
        push_field(&mut fields, f);
        let mut f = chars_of("human=");
        let ghost start = f@;
        let mut i: usize = 0;
        while i < l.humans.len()
            invariant
                i <= l.humans@.len(),
                f@ == start + faction_letters(l.humans@.take(i as int)),
            decreases l.humans.len() - i,
        {
            f.push(l.humans[i].letter());
            assert(faction_letters(l.humans@.take(i + 1)) =~= faction_letters(l.humans@.take(i as int)).push(
                faction_letter(l.humans@[i as int]),
            ));
            i += 1;
        }
        assert(l.humans@.take(i as int) =~= l.humans@);
        push_field(&mut fields, f);
        let ghost head = views(fields@);
        assert(head =~= e1 + seq![
            "n="@ + decimal(l.frequency as nat),
            "seed="@ + decimal(l.seed as nat),
            "players="@ + decimal(l.players as nat),
            "human="@ + faction_letters(l@.humans),
        ]);
        let mut k: usize = 0;
        while k < l.ai.len()
            invariant
                k <= l.ai@.len(),
                views(fields@) == head + Seq::new(k as nat, |j: int| "ai="@ + ai_text(l.ai@[j])),
            decreases l.ai.len() - k,
        {
            let a = l.ai[k];
            let mut f = chars_of("ai=");
            f.push(a.faction.letter());
            push_str(&mut f, ":h");
            push_decimal(&mut f, a.hostility as u64);
            push_str(&mut f, ",i");
            push_decimal(&mut f, a.intelligence as u64);
            assert(f@ =~= "ai="@ + ai_text(a));
            push_field(&mut fields, f);
            assert(views(fields@) =~= head + Seq::new((k + 1) as nat, |j: int| "ai="@ + ai_text(l.ai@[j])));
            k += 1;
        }
        let ghost mid = views(fields@);
        let mut f = chars_of("land=");
        push_decimal(&mut f, l.land_percent as u64);
        push_field(&mut fields, f);
        let mut f = chars_of("forest=");
        push_decimal(&mut f, l.forest_percent as u64);
        push_field(&mut fields, f);
        let mut f = chars_of("victory=");
        match l.victory {
            Victory::Majority { percent, turns } => {
                push_str(&mut f, "majority:");
                push_decimal(&mut f, percent as u64);
                push_str(&mut f, ",");
                push_decimal(&mut f, turns as u64);
            },
        }
        assert(f@ =~= "victory="@ + victory_text(l.victory));
        push_field(&mut fields, f);
        let ghost tail = views(fields@);
        assert(tail =~= mid + seq![
            "land="@ + decimal(l.land_percent as nat),
            "forest="@ + decimal(l.forest_percent as nat),
            "victory="@ + victory_text(l.victory),
        ]);
        if l.tiles.len() > 0 {
            let mut texts: Vec<Vec<char>> = Vec::new();
            let mut j: usize = 0;
            while j < l.tiles.len()
                invariant
                    j <= l.tiles@.len(),
                    views(texts@) == Seq::new(j as nat, |x: int| tile_diff_text(l.tiles@[x])),
                decreases l.tiles.len() - j,
            {
                let t = l.tiles[j].text();
                push_field(&mut texts, t);
                assert(views(texts@) =~= Seq::new((j + 1) as nat, |x: int| tile_diff_text(l.tiles@[x])));
                j += 1;
            }
            let mut f = chars_of("tiles=");
            let joined = join_chars(&texts, ',');
            push_chars(&mut f, &joined);
            push_field(&mut fields, f);
        }
        assert(views(fields@) =~= level_fields(l@));
        string_of(&join_chars(&fields, ';'))
    }
}

} // verus!
