//! Reading the canonical form of a level gives the level back.

use vstd::prelude::*;

use crate::faction::{faction_letter, faction_of_letter, lemma_faction_codes, Faction};
use crate::level::{
    ai_violation, default_level, diff_violation, level_violation, AiSpec, LevelView, TileDiff, Victory,
    FORMAT_VERSION,
};
use crate::level_text::{
    ai_parts, ai_text, apply_key, cover_part, diff_letters, factions_from, faction_letters, initial_state, is_name,
    is_name_char, is_range_char, join, level_fields, level_text, owner_part, parse_field, parse_fields, range_end,
    range_text, spec_parse, spec_parse_ai, spec_parse_factions, spec_parse_tile, spec_parse_u8, spec_parse_victory,
    terrain_part, tile_bounds, tile_diff_text, tile_entries, tile_letters, u8_in_range, unit_part, victory_text,
    ParseState,
};
use crate::text::{
    all_digits, decimal, digits_value, index_of, is_ascii_alphanumeric, is_digit, is_white, lemma_decimal_parses,
    lemma_index_of_from, lemma_index_of_is, lemma_split_once_join, lemma_split_once_none, lemma_split_step,
    parse_unsigned, split_on, split_once, trim, trim_end, trim_start,
};
use crate::tile::{
    cover_letter, cover_of_letter, terrain_letter, terrain_of_letter, unit_letter, unit_of_letter,
};

verus! {

// ---------------------------------------------------------------------------------------------
// Characters of the canonical form

/// A character the canonical form writes inside a field: letters, digits and `_.-:,=`.
pub open spec fn is_plain(c: char) -> bool {
    is_ascii_alphanumeric(c) || c == '_' || c == '.' || c == '-' || c == ':' || c == ',' || c == '='
}

/// Every character of `s` is plain.
pub open spec fn plain(s: Seq<char>) -> bool {
    forall|i: int| 0 <= i < s.len() ==> is_plain(#[trigger] s[i])
}

proof fn lemma_plain_add(a: Seq<char>, b: Seq<char>)
    requires
        plain(a),
        plain(b),
    ensures
        plain(a + b),
{
    assert forall|i: int| 0 <= i < (a + b).len() implies is_plain(#[trigger] (a + b)[i]) by {
        if i < a.len() {
            assert((a + b)[i] == a[i]);
        } else {
            assert((a + b)[i] == b[i - a.len()]);
        }
    }
}

proof fn lemma_decimal_plain(n: nat)
    ensures
        plain(decimal(n)),
        decimal(n).len() > 0,
        !decimal(n).contains('-'),
        !decimal(n).contains(','),
        !decimal(n).contains(':'),
        decimal(n)[0] != '+',
        parse_unsigned(decimal(n), n) == Some(n),
{
    lemma_decimal_parses(n);
    let d = decimal(n);
    assert forall|i: int| 0 <= i < d.len() implies is_plain(#[trigger] d[i]) by {
        assert(is_digit(d[i]));
    }
    assert(is_digit(d[0]));
}

/// `parse_unsigned` reads a decimal form back under any limit it fits.
proof fn lemma_decimal_reads(n: nat, max: nat)
    requires
        n <= max,
    ensures
        parse_unsigned(decimal(n), max) == Some(n),
{
    lemma_decimal_parses(n);
    let d = decimal(n);
    assert(is_digit(d[0]));
}

/// The literals the canonical form is written with, character by character.
proof fn lemma_literals()
    ensures
        FORMAT_VERSION@ =~= seq!['C', 'L', '1'],
        "name"@ =~= seq!['n', 'a', 'm', 'e'],
        "name="@ =~= seq!['n', 'a', 'm', 'e', '='],
        "n"@ =~= seq!['n'],
        "n="@ =~= seq!['n', '='],
        "seed"@ =~= seq!['s', 'e', 'e', 'd'],
        "seed="@ =~= seq!['s', 'e', 'e', 'd', '='],
        "players"@ =~= seq!['p', 'l', 'a', 'y', 'e', 'r', 's'],
        "players="@ =~= seq!['p', 'l', 'a', 'y', 'e', 'r', 's', '='],
        "human"@ =~= seq!['h', 'u', 'm', 'a', 'n'],
        "human="@ =~= seq!['h', 'u', 'm', 'a', 'n', '='],
        "ai"@ =~= seq!['a', 'i'],
        "ai="@ =~= seq!['a', 'i', '='],
        "land"@ =~= seq!['l', 'a', 'n', 'd'],
        "land="@ =~= seq!['l', 'a', 'n', 'd', '='],
        "forest"@ =~= seq!['f', 'o', 'r', 'e', 's', 't'],
        "forest="@ =~= seq!['f', 'o', 'r', 'e', 's', 't', '='],
        "victory"@ =~= seq!['v', 'i', 'c', 't', 'o', 'r', 'y'],
        "victory="@ =~= seq!['v', 'i', 'c', 't', 'o', 'r', 'y', '='],
        "tiles"@ =~= seq!['t', 'i', 'l', 'e', 's'],
        "tiles="@ =~= seq!['t', 'i', 'l', 'e', 's', '='],
        "majority"@ =~= seq!['m', 'a', 'j', 'o', 'r', 'i', 't', 'y'],
        "majority:"@ =~= seq!['m', 'a', 'j', 'o', 'r', 'i', 't', 'y', ':'],
        ":h"@ =~= seq![':', 'h'],
        ",i"@ =~= seq![',', 'i'],
        ","@ =~= seq![','],
        "-"@ =~= seq!['-'],
{
    reveal_strlit("CL1");
    reveal_strlit("name");
    reveal_strlit("name=");
    reveal_strlit("n");
    reveal_strlit("n=");
    reveal_strlit("seed");
    reveal_strlit("seed=");
    reveal_strlit("players");
    reveal_strlit("players=");
    reveal_strlit("human");
    reveal_strlit("human=");
    reveal_strlit("ai");
    reveal_strlit("ai=");
    reveal_strlit("land");
    reveal_strlit("land=");
    reveal_strlit("forest");
    reveal_strlit("forest=");
    reveal_strlit("victory");
    reveal_strlit("victory=");
    reveal_strlit("tiles");
    reveal_strlit("tiles=");
    reveal_strlit("majority");
    reveal_strlit("majority:");
    reveal_strlit(":h");
    reveal_strlit(",i");
    reveal_strlit(",");
    reveal_strlit("-");
}


// ---------------------------------------------------------------------------------------------
// Splitting what was joined

proof fn lemma_split_single(x: Seq<char>, sep: char)
    requires
        !x.contains(sep),
    ensures
        split_on(x, sep) == seq![x],
{
    lemma_split_step(x, Seq::empty(), sep);
    assert(x + Seq::<char>::empty() =~= x);
}

proof fn lemma_split_join_last(x: Seq<char>, y: Seq<char>, sep: char)
    requires
        !y.contains(sep),
    ensures
        split_on(x + seq![sep] + y, sep) == split_on(x, sep).push(y),
    decreases x.len(),
{
    let s = x + seq![sep] + y;
    lemma_index_of_from(x, sep, 0);
    let i = index_of(x, sep);
    if i < x.len() {
        assert forall|j: int| 0 <= j < i implies s[j] != sep by {
            assert(s[j] == x[j]);
        }
        assert(s[i as int] == x[i as int]);
        lemma_index_of_is(s, sep, i);
        assert(s.take(i as int) =~= x.take(i as int));
        assert(s.skip(i as int + 1) =~= x.skip(i as int + 1) + seq![sep] + y);
        lemma_split_join_last(x.skip(i as int + 1), y, sep);
        assert(split_on(s, sep) =~= seq![x.take(i as int)] + split_on(x.skip(i as int + 1), sep).push(y));
    } else {
        assert forall|j: int| 0 <= j < x.len() implies s[j] != sep by {
            assert(s[j] == x[j]);
        }
        lemma_index_of_is(s, sep, x.len());
        assert(s.take(x.len() as int) =~= x);
        assert(s.skip(x.len() as int + 1) =~= y);
        lemma_split_single(y, sep);
        assert(!x.contains(sep));
        lemma_split_single(x, sep);
        assert(split_on(s, sep) =~= seq![x] + seq![y]);
    }
}

/// Pieces without the separator split back out of their join.
proof fn lemma_split_join(parts: Seq<Seq<char>>, sep: char)
    requires
        parts.len() >= 1,
        forall|k: int| 0 <= k < parts.len() ==> !(#[trigger] parts[k]).contains(sep),
    ensures
        split_on(join(parts, sep), sep) == parts,
    decreases parts.len(),
{
    if parts.len() == 1 {
        assert(!parts[0].contains(sep));
        lemma_split_single(parts[0], sep);
        assert(seq![parts[0]] =~= parts);
    } else {
        let init = parts.drop_last();
        assert forall|k: int| 0 <= k < init.len() implies !(#[trigger] init[k]).contains(sep) by {
            assert(init[k] == parts[k]);
        }
        lemma_split_join(init, sep);
        assert(!parts.last().contains(sep));
        lemma_split_join_last(join(init, sep), parts.last(), sep);
        assert(init.push(parts.last()) =~= parts);
    }
}

/// A join of plain pieces with a separator `sep`: every character is plain or `sep`.
proof fn lemma_join_chars(parts: Seq<Seq<char>>, sep: char)
    requires
        forall|k: int| 0 <= k < parts.len() ==> plain(#[trigger] parts[k]),
    ensures
        forall|i: int| 0 <= i < join(parts, sep).len() ==> is_plain(#[trigger] join(parts, sep)[i]) || join(
            parts,
            sep,
        )[i] == sep,
    decreases parts.len(),
{
    if parts.len() == 1 {
        assert(plain(parts[0]));
    } else if parts.len() > 1 {
        let init = parts.drop_last();
        assert forall|k: int| 0 <= k < init.len() implies plain(#[trigger] init[k]) by {
            assert(init[k] == parts[k]);
        }
        lemma_join_chars(init, sep);
        let a = join(init, sep);
        let b = parts.last();
        assert(plain(b));
        let j = join(parts, sep);
        assert(j == a + seq![sep] + b);
        assert forall|i: int| 0 <= i < j.len() implies is_plain(#[trigger] j[i]) || j[i] == sep by {
            if i < a.len() {
                assert(j[i] == a[i]);
            } else if i == a.len() {
            } else {
                assert(j[i] == b[i - a.len() - 1]);
            }
        }
    }
}

/// A join of plain pieces with a plain separator is plain.
proof fn lemma_join_plain(parts: Seq<Seq<char>>, sep: char)
    requires
        is_plain(sep),
        forall|k: int| 0 <= k < parts.len() ==> plain(#[trigger] parts[k]),
    ensures
        plain(join(parts, sep)),
{
    lemma_join_chars(parts, sep);
}

/// Text without white space at either end is its own trim.
proof fn lemma_trim_nothing(s: Seq<char>)
    requires
        forall|i: int| 0 <= i < s.len() ==> !is_white(#[trigger] s[i]),
    ensures
        trim(s) == s,
{
    if s.len() > 0 {
        assert(!is_white(s[0]));
        assert(!is_white(s[s.len() - 1]));
    }
}

// ---------------------------------------------------------------------------------------------
// Reading field lists piece by piece

/// Reading the fields `fs` from the first.
#[verifier::opaque]
pub open spec fn run(st: ParseState, fs: Seq<Seq<char>>) -> Option<Result<ParseState, crate::level::LevelErrorView>> {
    parse_fields(st, fs, 0)
}

proof fn lemma_run_skip(st: ParseState, fs: Seq<Seq<char>>, i: nat)
    requires
        i <= fs.len(),
    ensures
        parse_fields(st, fs, i) == run(st, fs.skip(i as int)),
    decreases fs.len() - i,
{
    reveal(run);
    if i < fs.len() {
        assert(fs.skip(i as int)[0] == fs[i as int]);
        match parse_field(st, fs[i as int]) {
            Some(Ok(next)) => {
                lemma_run_skip(next, fs, i + 1);
                lemma_run_skip(next, fs.skip(i as int), 1);
                assert(fs.skip(i as int).skip(1) =~= fs.skip(i as int + 1));
            },
            _ => {},
        }
    } else {
        assert(fs.skip(i as int).len() == 0);
    }
}

/// Reading `a + b` is reading `a`, then `b` from where `a` left off.
proof fn lemma_run_concat(st: ParseState, a: Seq<Seq<char>>, b: Seq<Seq<char>>, mid: ParseState)
    requires
        run(st, a) == Some(Ok::<ParseState, crate::level::LevelErrorView>(mid)),
    ensures
        run(st, a + b) == run(mid, b),
    decreases a.len(),
{
    reveal(run);
    if a.len() == 0 {
        assert(a + b =~= b);
    } else {
        assert((a + b)[0] == a[0]);
        let next = match parse_field(st, a[0]) {
            Some(Ok(n)) => n,
            _ => st,
        };
        lemma_run_skip(next, a, 1);
        lemma_run_skip(next, a + b, 1);
        assert((a + b).skip(1) =~= a.skip(1) + b);
        lemma_run_concat(next, a.skip(1), b, mid);
    }
}

proof fn lemma_run_one(st: ParseState, f: Seq<char>, next: ParseState)
    requires
        parse_field(st, f) == Some(Ok::<ParseState, crate::level::LevelErrorView>(next)),
    ensures
        run(st, seq![f]) == Some(Ok::<ParseState, crate::level::LevelErrorView>(next)),
{
    reveal(run);
    assert(seq![f][0] == f);
    assert(parse_fields(next, seq![f], 1) == Some(Ok::<ParseState, crate::level::LevelErrorView>(next)));
}

/// A field `key=value` with a new key (not `ai`) is the key applied to the value.
proof fn lemma_key_field(st: ParseState, key: Seq<char>, eq: Seq<char>, value: Seq<char>)
    requires
        eq == key + seq!['='],
        key.len() > 0,
        !key.contains('='),
        key != "ai"@,
        !st.seen.contains(key),
    ensures
        parse_field(st, eq + value) == apply_key(ParseState { seen: st.seen.push(key), ..st }, key, value),
{
    lemma_split_once_join(key, value, '=');
    assert(eq + value =~= key + seq!['='] + value);
}


proof fn lemma_run_empty(st: ParseState)
    ensures
        run(st, Seq::empty()) == Some(Ok::<ParseState, crate::level::LevelErrorView>(st)),
{
    reveal(run);
}

proof fn lemma_run_first(st: ParseState, f: Seq<char>, rest: Seq<Seq<char>>, next: ParseState)
    requires
        parse_field(st, f) == Some(Ok::<ParseState, crate::level::LevelErrorView>(next)),
    ensures
        run(st, seq![f] + rest) == run(next, rest),
{
    lemma_run_one(st, f, next);
    lemma_run_concat(st, seq![f], rest, next);
}

proof fn lemma_push_contains<A>(s: Seq<A>, x: A, y: A)
    ensures
        s.push(x).contains(y) == (s.contains(y) || x == y),
{
    if s.contains(y) {
        let j = choose|j: int| 0 <= j < s.len() && s[j] == y;
        assert(s.push(x)[j] == y);
    }
    if x == y {
        assert(s.push(x)[s.len() as int] == x);
    }
    if s.push(x).contains(y) {
        let j = choose|j: int| 0 <= j < s.push(x).len() && s.push(x)[j] == y;
        if j < s.len() {
            assert(s[j] == y);
        }
    }
}

proof fn lemma_no_char_add(a: Seq<char>, b: Seq<char>, c: char)
    requires
        !a.contains(c),
        !b.contains(c),
    ensures
        !(a + b).contains(c),
{
    assert forall|i: int| 0 <= i < (a + b).len() implies (a + b)[i] != c by {
        if i < a.len() {
            assert((a + b)[i] == a[i]);
        } else {
            assert((a + b)[i] == b[i - a.len()]);
        }
    }
}

// ---------------------------------------------------------------------------------------------
// Values read back

proof fn lemma_u8_reads(key: Seq<char>, v: u8, lo: nat, hi: nat)
    requires
        lo <= v <= hi,
    ensures
        spec_parse_u8(key, decimal(v as nat), lo, hi) == Ok::<u8, crate::level::LevelErrorView>(v),
        u8_in_range(decimal(v as nat), lo, hi) == Some(v),
{
    lemma_decimal_reads(v as nat, 255);
}

/// Distinct factions read back from their letters.
proof fn lemma_factions_read(key: Seq<char>, fs: Seq<Faction>, i: nat)
    requires
        i <= fs.len(),
        fs.len() > 0,
        forall|j: int, k: int| 0 <= j < k < fs.len() ==> fs[j] != fs[k],
    ensures
        factions_from(key, faction_letters(fs), fs.take(i as int), i) == Ok::<
            Seq<Faction>,
            crate::level::LevelErrorView,
        >(fs),
    decreases fs.len() - i,
{
    let v = faction_letters(fs);
    if i < fs.len() {
        lemma_faction_codes(fs[i as int]);
        assert(v[i as int] == faction_letter(fs[i as int]));
        assert forall|j: int| 0 <= j < fs.take(i as int).len() implies fs.take(i as int)[j] != fs[i as int] by {
            assert(fs.take(i as int)[j] == fs[j]);
        }
        assert(fs.take(i as int).push(fs[i as int]) =~= fs.take(i as int + 1));
        lemma_factions_read(key, fs, i + 1);
    } else {
        assert(fs.take(i as int) =~= fs);
    }
}

proof fn lemma_faction_letter_plain(f: Faction)
    ensures
        is_plain(faction_letter(f)),
        faction_letter(f) != ':',
        faction_letter(f) != ',',
        faction_letter(f) != 'N',
        faction_of_letter(faction_letter(f)) == Some(f),
{
    lemma_faction_codes(f);
}

/// An AI profile reads back from its `ai` value.
proof fn lemma_ai_reads(a: AiSpec)
    requires
        a.hostility <= 100,
        a.intelligence <= 3,
    ensures
        spec_parse_ai(ai_text(a)) == Some(Ok::<AiSpec, crate::level::LevelErrorView>(a)),
        plain(ai_text(a)),
{
    lemma_literals();
    lemma_faction_letter_plain(a.faction);
    let c = faction_letter(a.faction);
    let dh = decimal(a.hostility as nat);
    let di = decimal(a.intelligence as nat);
    lemma_decimal_plain(a.hostility as nat);
    lemma_decimal_plain(a.intelligence as nat);
    let p1 = seq!['h'] + dh;
    let p2 = seq!['i'] + di;
    let rest = p1 + seq![','] + p2;
    let text = ai_text(a);
    assert(text =~= seq![c] + seq![':'] + rest);
    assert(!seq![c].contains(':')) by {
        assert(seq![c][0] == c);
    }
    lemma_split_once_join(seq![c], rest, ':');
    assert(!seq!['h'].contains(',')) by {
        assert(seq!['h'][0] == 'h');
    }
    assert(!seq!['i'].contains(',')) by {
        assert(seq!['i'][0] == 'i');
    }
    lemma_no_char_add(seq!['h'], dh, ',');
    lemma_no_char_add(seq!['i'], di, ',');
    let parts = seq![p1, p2];
    assert(parts.drop_last() =~= seq![p1]);
    assert(join(seq![p1], ',') == p1);
    assert(parts.last() == p2);
    assert(join(parts, ',') == join(seq![p1], ',') + seq![','] + p2);
    assert(join(parts, ',') =~= rest);
    lemma_split_join(parts, ',');
    assert(p1[0] == 'h');
    assert(p2[0] == 'i');
    assert(p1.skip(1) =~= dh);
    assert(p2.skip(1) =~= di);
    lemma_u8_reads("ai"@, a.hostility, 0, 100);
    lemma_u8_reads("ai"@, a.intelligence, 0, 3);
    let a0 = AiSpec {
        faction: a.faction,
        hostility: crate::level::DEFAULT_HOSTILITY,
        intelligence: crate::level::DEFAULT_INTELLIGENCE,
    };
    let a1 = AiSpec { hostility: a.hostility, ..a0 };
    assert(ai_parts(a, text, parts, 2) == Some(Ok::<AiSpec, crate::level::LevelErrorView>(a)));
    assert(ai_parts(a1, text, parts, 1) == ai_parts(a, text, parts, 2));
    assert(ai_parts(a0, text, parts, 0) == ai_parts(a1, text, parts, 1));
    assert(seq![c][0] == c);
    lemma_plain_add(seq![c], seq![':']);
    assert(plain(seq!['h'])) by {
        assert(seq!['h'][0] == 'h');
    }
    assert(plain(seq!['i'])) by {
        assert(seq!['i'][0] == 'i');
    }
    assert(plain(seq![c])) by {
        assert(seq![c][0] == c);
    }
    assert(plain(seq![':'])) by {
        assert(seq![':'][0] == ':');
    }
    assert(plain(seq![','])) by {
        assert(seq![','][0] == ',');
    }
    lemma_plain_add(seq!['h'], dh);
    lemma_plain_add(seq!['i'], di);
    lemma_plain_add(p1, seq![',']);
    lemma_plain_add(p1 + seq![','], p2);
    lemma_plain_add(seq![c] + seq![':'], rest);
}

/// A victory rule with both numbers in `1..=100` reads back.
proof fn lemma_victory_reads(v: Victory)
    requires
        v matches Victory::Majority { percent, turns } && 1 <= percent <= 100 && 1 <= turns <= 100,
    ensures
        spec_parse_victory(victory_text(v)) == Ok::<Victory, crate::level::LevelErrorView>(v),
        plain(victory_text(v)),
{
    lemma_literals();
    match v {
        Victory::Majority { percent, turns } => {
            let dp = decimal(percent as nat);
            let dt = decimal(turns as nat);
            lemma_decimal_plain(percent as nat);
            lemma_decimal_plain(turns as nat);
            let args = dp + seq![','] + dt;
            assert(victory_text(v) =~= "majority"@ + seq![':'] + args);
            lemma_split_once_join("majority"@, args, ':');
            lemma_split_once_join(dp, dt, ',');
            lemma_u8_reads("victory"@, percent, 1, 100);
            lemma_u8_reads("victory"@, turns, 1, 100);
            assert(plain("majority:"@));
            assert(plain(seq![','])) by {
                assert(seq![','][0] == ',');
            }
            lemma_plain_add("majority:"@, dp);
            lemma_plain_add("majority:"@ + dp, ","@);
            lemma_plain_add("majority:"@ + dp + ","@, dt);
        },
    }
}

// ---------------------------------------------------------------------------------------------
// Tiles read back

/// A tile diff that names at least one field; its range is in order.
pub open spec fn diff_writable(d: TileDiff) -> bool {
    d.from <= d.to && diff_letters(d).len() > 0
}

proof fn lemma_range_text(d: TileDiff)
    ensures
        range_text(d).len() > 0,
        forall|j: int| 0 <= j < range_text(d).len() ==> is_range_char(#[trigger] range_text(d)[j]),
        plain(range_text(d)),
        !range_text(d).contains(','),
{
    lemma_literals();
    let df = decimal(d.from as nat);
    let dt = decimal(d.to as nat);
    lemma_decimal_parses(d.from as nat);
    lemma_decimal_parses(d.to as nat);
    lemma_decimal_plain(d.from as nat);
    lemma_decimal_plain(d.to as nat);
    let r = range_text(d);
    assert forall|j: int| 0 <= j < r.len() implies is_range_char(#[trigger] r[j]) && is_plain(r[j]) && r[j] != ',' by {
        if d.from == d.to {
            assert(is_digit(df[j]));
        } else {
            assert(r == df + seq!['-'] + dt);
            if j < df.len() {
                assert(r[j] == df[j]);
                assert(is_digit(df[j]));
            } else if j == df.len() {
            } else {
                assert(r[j] == dt[j - df.len() - 1]);
                assert(is_digit(dt[j - df.len() - 1]));
            }
        }
    }
}

proof fn lemma_letter_parts(d: TileDiff)
    ensures
        forall|j: int| 0 <= j < diff_letters(d).len() ==> is_ascii_alphanumeric(#[trigger] diff_letters(d)[j])
            && !is_range_char(diff_letters(d)[j]),
{
    let t = terrain_part(d);
    let c = cover_part(d);
    let o = owner_part(d);
    let u = unit_part(d);
    let l = diff_letters(d);
    assert(l == t + c + o + u);
    assert forall|j: int| 0 <= j < l.len() implies is_ascii_alphanumeric(#[trigger] l[j]) && !is_range_char(l[j]) by {
        if j < t.len() {
            assert(l[j] == t[j]);
        } else if j < t.len() + c.len() {
            assert(l[j] == c[j - t.len()]);
        } else if j < t.len() + c.len() + o.len() {
            assert(l[j] == o[j - t.len() - c.len()]);
        } else {
            assert(l[j] == u[j - t.len() - c.len() - o.len()]);
        }
    }
}

/// The letters of a diff rebuild its fields, one kind after another.
proof fn lemma_letters_read(e: Seq<char>, d: TileDiff)
    ensures
        tile_letters(
            e,
            TileDiff { from: d.from, to: d.to, terrain: None, cover: None, owner: None, unit: None },
            diff_letters(d),
            0,
        ) == Ok::<TileDiff, crate::level::LevelErrorView>(d),
{
    let t = terrain_part(d);
    let c = cover_part(d);
    let o = owner_part(d);
    let u = unit_part(d);
    let l = diff_letters(d);
    assert(l == t + c + o + u);
    let b0 = TileDiff { from: d.from, to: d.to, terrain: None, cover: None, owner: None, unit: None };
    let b1 = TileDiff { terrain: d.terrain, ..b0 };
    let b2 = TileDiff { cover: d.cover, ..b1 };
    let b3 = TileDiff { owner: d.owner, ..b2 };
    let i1 = t.len();
    let i2 = i1 + c.len();
    let i3 = i2 + o.len();
    let i4 = i3 + u.len();
    assert(tile_letters(e, d, l, i4) == Ok::<TileDiff, crate::level::LevelErrorView>(d));
    assert(tile_letters(e, b3, l, i3) == tile_letters(e, d, l, i4)) by {
        if u.len() > 0 {
            assert(l[i3 as int] == u[0]);
        }
    }
    assert(tile_letters(e, b2, l, i2) == tile_letters(e, b3, l, i3)) by {
        if o.len() > 0 {
            assert(l[i2 as int] == o[0]);
            match d.owner {
                Some(Some(f)) => {
                    lemma_faction_codes(f);
                },
                _ => {},
            }
        }
    }
    assert(tile_letters(e, b1, l, i1) == tile_letters(e, b2, l, i2)) by {
        if c.len() > 0 {
            assert(l[i1 as int] == c[0]);
        }
    }
    assert(tile_letters(e, b0, l, 0) == tile_letters(e, b1, l, i1)) by {
        if t.len() > 0 {
            assert(l[0] == t[0]);
        }
    }
}

/// A writable diff reads back from its tile entry.
proof fn lemma_tile_reads(d: TileDiff)
    requires
        diff_writable(d),
    ensures
        spec_parse_tile(tile_diff_text(d)) == Ok::<TileDiff, crate::level::LevelErrorView>(d),
        plain(tile_diff_text(d)),
        tile_diff_text(d).len() > 0,
        !tile_diff_text(d).contains(','),
{
    lemma_literals();
    let r = range_text(d);
    let l = diff_letters(d);
    let e = tile_diff_text(d);
    lemma_range_text(d);
    lemma_letter_parts(d);
    assert(e == r + l);
    assert forall|j: int| 0 <= j < r.len() implies is_range_char(#[trigger] e[j]) by {
        assert(e[j] == r[j]);
    }
    assert(e[r.len() as int] == l[0]);
    crate::level_text::lemma_range_end(e, 0, r.len());
    assert(e.take(r.len() as int) =~= r);
    assert(e.skip(r.len() as int) =~= l);
    let df = decimal(d.from as nat);
    let dt = decimal(d.to as nat);
    lemma_decimal_plain(d.from as nat);
    lemma_decimal_plain(d.to as nat);
    lemma_decimal_reads(d.from as nat, u32::MAX as nat);
    lemma_decimal_reads(d.to as nat, u32::MAX as nat);
    if d.from == d.to {
        lemma_split_once_none(r, '-');
    } else {
        assert(r =~= df + seq!['-'] + dt);
        lemma_split_once_join(df, dt, '-');
    }
    assert(tile_bounds(r) == Ok::<(nat, nat), Seq<char>>((d.from as nat, d.to as nat)));
    lemma_letters_read(e, d);
    assert forall|j: int| 0 <= j < e.len() implies is_plain(#[trigger] e[j]) && e[j] != ',' by {
        if j < r.len() {
            assert(e[j] == r[j]);
        } else {
            assert(e[j] == l[j - r.len()]);
        }
    }
}

/// Writable diffs read back, in order, from their entries.
proof fn lemma_tiles_read(ts: Seq<TileDiff>, i: nat)
    requires
        i <= ts.len(),
        forall|k: int| 0 <= k < ts.len() ==> diff_writable(#[trigger] ts[k]),
    ensures
        tile_entries(ts.take(i as int), Seq::new(ts.len(), |k: int| tile_diff_text(ts[k])), i) == Ok::<
            Seq<TileDiff>,
            crate::level::LevelErrorView,
        >(ts),
    decreases ts.len() - i,
{
    let texts = Seq::new(ts.len(), |k: int| tile_diff_text(ts[k]));
    if i < ts.len() {
        assert(diff_writable(ts[i as int]));
        lemma_tile_reads(ts[i as int]);
        assert(texts[i as int] == tile_diff_text(ts[i as int]));
        assert(ts.take(i as int).push(ts[i as int]) =~= ts.take(i as int + 1));
        lemma_tiles_read(ts, i + 1);
    } else {
        assert(ts.take(i as int) =~= ts);
    }
}


// ---------------------------------------------------------------------------------------------
// What a valid level guarantees

proof fn lemma_ai_ok(l: LevelView, i: int)
    requires
        0 <= i,
        ai_violation(l, i) is None,
    ensures
        forall|k: int| i <= k < l.ai.len() ==> (#[trigger] l.ai[k]).hostility <= 100 && l.ai[k].intelligence <= 3,
    decreases l.ai.len() - i,
{
    if i < l.ai.len() {
        lemma_ai_ok(l, i + 1);
    }
}

proof fn lemma_diffs_ok(l: LevelView, i: int)
    requires
        0 <= i,
        diff_violation(l, i) is None,
    ensures
        forall|k: int| i <= k < l.tiles.len() ==> (#[trigger] l.tiles[k]).from <= l.tiles[k].to,
    decreases l.tiles.len() - i,
{
    if i < l.tiles.len() {
        lemma_diffs_ok(l, i + 1);
    }
}

// ---------------------------------------------------------------------------------------------
// The field groups of the canonical form

/// The `name` field, when there is a name.
pub open spec fn name_fields(l: LevelView) -> Seq<Seq<char>> {
    match l.name {
        Some(n) => seq!["name="@ + n],
        None => Seq::empty(),
    }
}

/// The keys the `name` field adds.
pub open spec fn name_seen(l: LevelView) -> Seq<Seq<char>> {
    match l.name {
        Some(_) => seq!["name"@],
        None => Seq::empty(),
    }
}

/// `n`, `seed`, `players`, `human`.
pub open spec fn scalar_fields(l: LevelView) -> Seq<Seq<char>> {
    seq![
        "n="@ + decimal(l.frequency as nat),
        "seed="@ + decimal(l.seed as nat),
        "players="@ + decimal(l.players as nat),
        "human="@ + faction_letters(l.humans),
    ]
}

/// One `ai` field per profile.
pub open spec fn ai_fields(ais: Seq<AiSpec>, k: nat) -> Seq<Seq<char>> {
    Seq::new(k, |i: int| "ai="@ + ai_text(ais[i]))
}

/// `land`, `forest`, `victory`.
pub open spec fn rule_fields(l: LevelView) -> Seq<Seq<char>> {
    seq![
        "land="@ + decimal(l.land_percent as nat),
        "forest="@ + decimal(l.forest_percent as nat),
        "victory="@ + victory_text(l.victory),
    ]
}

/// The `tiles` field, when there are diffs.
pub open spec fn tile_fields(l: LevelView) -> Seq<Seq<char>> {
    if l.tiles.len() > 0 {
        seq!["tiles="@ + join(Seq::new(l.tiles.len(), |i: int| tile_diff_text(l.tiles[i])), ',')]
    } else {
        Seq::empty()
    }
}

/// Keys seen before the `land` field: `name`, `n`, `seed`, `players`, `human`.
pub open spec fn early_key(k: Seq<char>) -> bool {
    k == "name"@ || k == "n"@ || k == "seed"@ || k == "players"@ || k == "human"@
}

/// The keys of the level line: each told apart by its length and first letter, none holding
/// `=`, and each followed by `=` in its field.
proof fn lemma_key_facts()
    ensures
        "name"@.len() == 4,
        "name"@[0] == 'n',
        !"name"@.contains('='),
        "name="@ == "name"@ + seq!['='],
        plain("name="@),
        "n"@.len() == 1,
        "n"@[0] == 'n',
        !"n"@.contains('='),
        "n="@ == "n"@ + seq!['='],
        plain("n="@),
        "seed"@.len() == 4,
        "seed"@[0] == 's',
        !"seed"@.contains('='),
        "seed="@ == "seed"@ + seq!['='],
        plain("seed="@),
        "players"@.len() == 7,
        "players"@[0] == 'p',
        !"players"@.contains('='),
        "players="@ == "players"@ + seq!['='],
        plain("players="@),
        "human"@.len() == 5,
        "human"@[0] == 'h',
        !"human"@.contains('='),
        "human="@ == "human"@ + seq!['='],
        plain("human="@),
        "ai"@.len() == 2,
        "ai"@[0] == 'a',
        !"ai"@.contains('='),
        "ai="@ == "ai"@ + seq!['='],
        plain("ai="@),
        "land"@.len() == 4,
        "land"@[0] == 'l',
        !"land"@.contains('='),
        "land="@ == "land"@ + seq!['='],
        plain("land="@),
        "forest"@.len() == 6,
        "forest"@[0] == 'f',
        !"forest"@.contains('='),
        "forest="@ == "forest"@ + seq!['='],
        plain("forest="@),
        "victory"@.len() == 7,
        "victory"@[0] == 'v',
        !"victory"@.contains('='),
        "victory="@ == "victory"@ + seq!['='],
        plain("victory="@),
        "tiles"@.len() == 5,
        "tiles"@[0] == 't',
        !"tiles"@.contains('='),
        "tiles="@ == "tiles"@ + seq!['='],
        plain("tiles="@),
{
    lemma_literals();
    assert("name="@ =~= "name"@ + seq!['=']);
    assert(plain("name="@)) by {
        assert forall|i: int| 0 <= i < "name="@.len() implies is_plain(#[trigger] "name="@[i]) by {}
    }
    assert("n="@ =~= "n"@ + seq!['=']);
    assert(plain("n="@)) by {
        assert forall|i: int| 0 <= i < "n="@.len() implies is_plain(#[trigger] "n="@[i]) by {}
    }
    assert("seed="@ =~= "seed"@ + seq!['=']);
    assert(plain("seed="@)) by {
        assert forall|i: int| 0 <= i < "seed="@.len() implies is_plain(#[trigger] "seed="@[i]) by {}
    }
    assert("players="@ =~= "players"@ + seq!['=']);
    assert(plain("players="@)) by {
        assert forall|i: int| 0 <= i < "players="@.len() implies is_plain(#[trigger] "players="@[i]) by {}
    }
    assert("human="@ =~= "human"@ + seq!['=']);
    assert(plain("human="@)) by {
        assert forall|i: int| 0 <= i < "human="@.len() implies is_plain(#[trigger] "human="@[i]) by {}
    }
    assert("ai="@ =~= "ai"@ + seq!['=']);
    assert(plain("ai="@)) by {
        assert forall|i: int| 0 <= i < "ai="@.len() implies is_plain(#[trigger] "ai="@[i]) by {}
    }
    assert("land="@ =~= "land"@ + seq!['=']);
    assert(plain("land="@)) by {
        assert forall|i: int| 0 <= i < "land="@.len() implies is_plain(#[trigger] "land="@[i]) by {}
    }
    assert("forest="@ =~= "forest"@ + seq!['=']);
    assert(plain("forest="@)) by {
        assert forall|i: int| 0 <= i < "forest="@.len() implies is_plain(#[trigger] "forest="@[i]) by {}
    }
    assert("victory="@ =~= "victory"@ + seq!['=']);
    assert(plain("victory="@)) by {
        assert forall|i: int| 0 <= i < "victory="@.len() implies is_plain(#[trigger] "victory="@[i]) by {}
    }
    assert("tiles="@ =~= "tiles"@ + seq!['=']);
    assert(plain("tiles="@)) by {
        assert forall|i: int| 0 <= i < "tiles="@.len() implies is_plain(#[trigger] "tiles="@[i]) by {}
    }
}

proof fn lemma_name_group(l: LevelView) -> (st: ParseState)
    requires
        l.name matches Some(n) ==> is_name(n),
    ensures
        run(initial_state(), name_fields(l)) == Some(Ok::<ParseState, crate::level::LevelErrorView>(st)),
        st == (ParseState { level: LevelView { name: l.name, ..default_level() }, seen: name_seen(l), has_n: false }),
{
    lemma_key_facts();
    let st0 = initial_state();
    match l.name {
        Some(n) => {
            lemma_key_field(st0, "name"@, "name="@, n);
            let st = ParseState { level: LevelView { name: l.name, ..default_level() }, seen: name_seen(l), has_n: false };
            assert(st0.seen.push("name"@) =~= name_seen(l));
            lemma_run_one(st0, "name="@ + n, st);
            st
        },
        None => {
            let st = ParseState { level: LevelView { name: l.name, ..default_level() }, seen: name_seen(l), has_n: false };
            assert(st.level =~= default_level());
            assert(st =~= st0);
            lemma_run_empty(st0);
            assert(name_fields(l) =~= Seq::<Seq<char>>::empty());
            st
        },
    }
}

proof fn lemma_scalar_group(st: ParseState, l: LevelView) -> (r: ParseState)
    requires
        forall|j: int| 0 <= j < st.seen.len() ==> #[trigger] st.seen[j] == "name"@,
        2 <= l.frequency <= 12,
        2 <= l.players <= 4,
        l.humans.len() > 0,
        forall|j: int, k: int| 0 <= j < k < l.humans.len() ==> l.humans[j] != l.humans[k],
    ensures
        run(st, scalar_fields(l)) == Some(Ok::<ParseState, crate::level::LevelErrorView>(r)),
        r == (ParseState {
            level: LevelView {
                frequency: l.frequency,
                seed: l.seed,
                players: l.players,
                humans: l.humans,
                ..st.level
            },
            seen: st.seen + seq!["n"@, "seed"@, "players"@, "human"@],
            has_n: true,
        }),
{
    lemma_key_facts();
    let f1 = "n="@ + decimal(l.frequency as nat);
    let f2 = "seed="@ + decimal(l.seed as nat);
    let f3 = "players="@ + decimal(l.players as nat);
    let f4 = "human="@ + faction_letters(l.humans);
    assert(!st.seen.contains("n"@));
    lemma_key_field(st, "n"@, "n="@, decimal(l.frequency as nat));
    lemma_u8_reads("n"@, l.frequency, 2, 12);
    let s1 = ParseState {
        level: LevelView { frequency: l.frequency, ..st.level },
        seen: st.seen.push("n"@),
        has_n: true,
    };
    assert(parse_field(st, f1) == Some(Ok::<ParseState, crate::level::LevelErrorView>(s1)));
    lemma_push_contains(st.seen, "n"@, "seed"@);
    assert(!s1.seen.contains("seed"@));
    lemma_key_field(s1, "seed"@, "seed="@, decimal(l.seed as nat));
    lemma_decimal_reads(l.seed as nat, u32::MAX as nat);
    let s2 = ParseState { level: LevelView { seed: l.seed, ..s1.level }, seen: s1.seen.push("seed"@), ..s1 };
    assert(parse_field(s1, f2) == Some(Ok::<ParseState, crate::level::LevelErrorView>(s2)));
    lemma_push_contains(st.seen, "n"@, "players"@);
    lemma_push_contains(s1.seen, "seed"@, "players"@);
    assert(!s2.seen.contains("players"@));
    lemma_key_field(s2, "players"@, "players="@, decimal(l.players as nat));
    lemma_u8_reads("players"@, l.players, 2, 4);
    let s3 = ParseState { level: LevelView { players: l.players, ..s2.level }, seen: s2.seen.push("players"@), ..s2 };
    assert(parse_field(s2, f3) == Some(Ok::<ParseState, crate::level::LevelErrorView>(s3)));
    lemma_push_contains(st.seen, "n"@, "human"@);
    lemma_push_contains(s1.seen, "seed"@, "human"@);
    lemma_push_contains(s2.seen, "players"@, "human"@);
    assert(!s3.seen.contains("human"@));
    lemma_key_field(s3, "human"@, "human="@, faction_letters(l.humans));
    lemma_factions_read("human"@, l.humans, 0);
    assert(l.humans.take(0) =~= Seq::<Faction>::empty());
    let s4 = ParseState { level: LevelView { humans: l.humans, ..s3.level }, seen: s3.seen.push("human"@), ..s3 };
    assert(parse_field(s3, f4) == Some(Ok::<ParseState, crate::level::LevelErrorView>(s4)));
    assert(scalar_fields(l) =~= seq![f1] + (seq![f2] + (seq![f3] + seq![f4])));
    lemma_run_first(st, f1, seq![f2] + (seq![f3] + seq![f4]), s1);
    lemma_run_first(s1, f2, seq![f3] + seq![f4], s2);
    lemma_run_first(s2, f3, seq![f4], s3);
    lemma_run_one(s3, f4, s4);
    assert(s4.seen =~= st.seen + seq!["n"@, "seed"@, "players"@, "human"@]);
    s4
}

proof fn lemma_ai_group(st: ParseState, ais: Seq<AiSpec>, k: nat) -> (r: ParseState)
    requires
        k <= ais.len(),
        forall|i: int| 0 <= i < ais.len() ==> (#[trigger] ais[i]).hostility <= 100 && ais[i].intelligence <= 3,
    ensures
        run(st, ai_fields(ais, k)) == Some(Ok::<ParseState, crate::level::LevelErrorView>(r)),
        r == (ParseState { level: LevelView { ai: st.level.ai + ais.take(k as int), ..st.level }, ..st }),
    decreases k,
{
    lemma_key_facts();
    if k == 0 {
        assert(ai_fields(ais, 0) =~= Seq::<Seq<char>>::empty());
        assert(st.level.ai + ais.take(0) =~= st.level.ai);
        let r = ParseState { level: LevelView { ai: st.level.ai + ais.take(0), ..st.level }, ..st };
        assert(r.level =~= st.level);
        assert(r =~= st);
        lemma_run_empty(st);
        r
    } else {
        let mid = lemma_ai_group(st, ais, (k - 1) as nat);
        let a = ais[k - 1];
        let text = ai_text(a);
        let f = "ai="@ + text;
        assert(ai_fields(ais, k) =~= ai_fields(ais, (k - 1) as nat) + seq![f]);
        lemma_run_concat(st, ai_fields(ais, (k - 1) as nat), seq![f], mid);
        assert(f =~= "ai"@ + seq!['='] + text);
        lemma_split_once_join("ai"@, text, '=');
        lemma_ai_reads(a);
        let r = ParseState { level: LevelView { ai: mid.level.ai.push(a), ..mid.level }, ..mid };
        assert(parse_field(mid, f) == Some(Ok::<ParseState, crate::level::LevelErrorView>(r)));
        lemma_run_one(mid, f, r);
        assert(st.level.ai + ais.take(k as int) =~= (st.level.ai + ais.take(k - 1)).push(a));
        r
    }
}

proof fn lemma_land_step(st: ParseState, v: u8) -> (r: ParseState)
    requires
        !st.seen.contains("land"@),
        v <= 100,
    ensures
        forall|rest: Seq<Seq<char>>| #[trigger] run(st, seq!["land="@ + decimal(v as nat)] + rest) == run(r, rest),
        r == (ParseState { level: LevelView { land_percent: v, ..st.level }, seen: st.seen.push("land"@), ..st }),
{
    lemma_key_facts();
    lemma_key_field(st, "land"@, "land="@, decimal(v as nat));
    lemma_u8_reads("land"@, v, 0, 100);
    let r = ParseState { level: LevelView { land_percent: v, ..st.level }, seen: st.seen.push("land"@), ..st };
    assert forall|rest: Seq<Seq<char>>| #[trigger] run(st, seq!["land="@ + decimal(v as nat)] + rest) == run(r, rest) by {
        lemma_run_first(st, "land="@ + decimal(v as nat), rest, r);
    }
    r
}

proof fn lemma_forest_step(st: ParseState, v: u8) -> (r: ParseState)
    requires
        !st.seen.contains("forest"@),
        v <= 100,
    ensures
        forall|rest: Seq<Seq<char>>| #[trigger] run(st, seq!["forest="@ + decimal(v as nat)] + rest) == run(r, rest),
        r == (ParseState { level: LevelView { forest_percent: v, ..st.level }, seen: st.seen.push("forest"@), ..st }),
{
    lemma_key_facts();
    lemma_key_field(st, "forest"@, "forest="@, decimal(v as nat));
    lemma_u8_reads("forest"@, v, 0, 100);
    let r = ParseState { level: LevelView { forest_percent: v, ..st.level }, seen: st.seen.push("forest"@), ..st };
    assert forall|rest: Seq<Seq<char>>| #[trigger] run(st, seq!["forest="@ + decimal(v as nat)] + rest) == run(r, rest) by {
        lemma_run_first(st, "forest="@ + decimal(v as nat), rest, r);
    }
    r
}

proof fn lemma_victory_step(st: ParseState, v: Victory) -> (r: ParseState)
    requires
        !st.seen.contains("victory"@),
        v matches Victory::Majority { percent, turns } && 1 <= percent <= 100 && 1 <= turns <= 100,
    ensures
        forall|rest: Seq<Seq<char>>| #[trigger] run(st, seq!["victory="@ + victory_text(v)] + rest) == run(r, rest),
        r == (ParseState { level: LevelView { victory: v, ..st.level }, seen: st.seen.push("victory"@), ..st }),
{
    lemma_key_facts();
    lemma_key_field(st, "victory"@, "victory="@, victory_text(v));
    lemma_victory_reads(v);
    let r = ParseState { level: LevelView { victory: v, ..st.level }, seen: st.seen.push("victory"@), ..st };
    assert forall|rest: Seq<Seq<char>>| #[trigger] run(st, seq!["victory="@ + victory_text(v)] + rest) == run(r, rest) by {
        lemma_run_first(st, "victory="@ + victory_text(v), rest, r);
    }
    r
}

proof fn lemma_rule_group(st: ParseState, l: LevelView) -> (r: ParseState)
    requires
        !st.seen.contains("land"@),
        !st.seen.contains("forest"@),
        !st.seen.contains("victory"@),
        !st.seen.contains("tiles"@),
        l.land_percent <= 100,
        l.forest_percent <= 100,
        l.victory matches Victory::Majority { percent, turns } && 1 <= percent <= 100 && 1 <= turns <= 100,
    ensures
        run(st, rule_fields(l)) == Some(Ok::<ParseState, crate::level::LevelErrorView>(r)),
        r.level == (LevelView {
            land_percent: l.land_percent,
            forest_percent: l.forest_percent,
            victory: l.victory,
            ..st.level
        }),
        r.has_n == st.has_n,
        !r.seen.contains("tiles"@),
{
    lemma_key_facts();
    let f1 = "land="@ + decimal(l.land_percent as nat);
    let f2 = "forest="@ + decimal(l.forest_percent as nat);
    let f3 = "victory="@ + victory_text(l.victory);
    let s1 = lemma_land_step(st, l.land_percent);
    lemma_push_contains(st.seen, "land"@, "forest"@);
    lemma_push_contains(st.seen, "land"@, "victory"@);
    lemma_push_contains(st.seen, "land"@, "tiles"@);
    let s2 = lemma_forest_step(s1, l.forest_percent);
    lemma_push_contains(s1.seen, "forest"@, "victory"@);
    lemma_push_contains(s1.seen, "forest"@, "tiles"@);
    let s3 = lemma_victory_step(s2, l.victory);
    lemma_push_contains(s2.seen, "victory"@, "tiles"@);
    assert(rule_fields(l) =~= seq![f1] + (seq![f2] + (seq![f3] + Seq::empty())));
    assert(run(st, seq![f1] + (seq![f2] + (seq![f3] + Seq::empty()))) == run(s1, seq![f2] + (seq![f3] + Seq::empty())));
    assert(run(s1, seq![f2] + (seq![f3] + Seq::empty())) == run(s2, seq![f3] + Seq::empty()));
    assert(run(s2, seq![f3] + Seq::empty()) == run(s3, Seq::empty()));
    lemma_run_empty(s3);
    s3
}

proof fn lemma_tile_group(st: ParseState, l: LevelView) -> (r: ParseState)
    requires
        !st.seen.contains("tiles"@),
        st.level.tiles == Seq::<TileDiff>::empty(),
        forall|k: int| 0 <= k < l.tiles.len() ==> diff_writable(#[trigger] l.tiles[k]),
    ensures
        run(st, tile_fields(l)) == Some(Ok::<ParseState, crate::level::LevelErrorView>(r)),
        r.level == (LevelView { tiles: l.tiles, ..st.level }),
        r.has_n == st.has_n,
        forall|k: int| 0 <= k < tile_fields(l).len() ==> plain(#[trigger] tile_fields(l)[k]),
{
    lemma_key_facts();
    if l.tiles.len() == 0 {
        assert(tile_fields(l) =~= Seq::<Seq<char>>::empty());
        lemma_run_empty(st);
        assert(l.tiles =~= st.level.tiles);
        assert((LevelView { tiles: l.tiles, ..st.level }) =~= st.level);
        st
    } else {
        let texts = Seq::new(l.tiles.len(), |i: int| tile_diff_text(l.tiles[i]));
        let value = join(texts, ',');
        let f = "tiles="@ + value;
        assert forall|k: int| 0 <= k < texts.len() implies !(#[trigger] texts[k]).contains(',') && plain(texts[k]) by {
            assert(diff_writable(l.tiles[k]));
            lemma_tile_reads(l.tiles[k]);
        }
        lemma_split_join(texts, ',');
        lemma_join_plain(texts, ',');
        lemma_tiles_read(l.tiles, 0);
        assert(l.tiles.take(0) =~= Seq::<TileDiff>::empty());
        lemma_key_field(st, "tiles"@, "tiles="@, value);
        let r = ParseState { level: LevelView { tiles: l.tiles, ..st.level }, seen: st.seen.push("tiles"@), ..st };
        assert(parse_field(st, f) == Some(Ok::<ParseState, crate::level::LevelErrorView>(r)));
        lemma_run_one(st, f, r);
        assert(tile_fields(l) =~= seq![f]);
        lemma_plain_add("tiles="@, value);
        r
    }
}


// ---------------------------------------------------------------------------------------------
// The whole line

/// Every field is plain.
pub open spec fn all_plain(fs: Seq<Seq<char>>) -> bool {
    forall|k: int| 0 <= k < fs.len() ==> plain(#[trigger] fs[k])
}

proof fn lemma_all_plain_add(a: Seq<Seq<char>>, b: Seq<Seq<char>>)
    requires
        all_plain(a),
        all_plain(b),
    ensures
        all_plain(a + b),
{
    assert forall|k: int| 0 <= k < (a + b).len() implies plain(#[trigger] (a + b)[k]) by {
        if k < a.len() {
            assert((a + b)[k] == a[k]);
        } else {
            assert((a + b)[k] == b[k - a.len()]);
        }
    }
}

proof fn lemma_decimal_field_plain(key_eq: Seq<char>, n: nat)
    requires
        plain(key_eq),
    ensures
        plain(key_eq + decimal(n)),
{
    lemma_decimal_plain(n);
    lemma_plain_add(key_eq, decimal(n));
}

proof fn lemma_fields_plain(l: LevelView)
    requires
        l.name matches Some(n) ==> is_name(n),
        forall|k: int| 0 <= k < l.ai.len() ==> (#[trigger] l.ai[k]).hostility <= 100 && l.ai[k].intelligence <= 3,
        l.victory matches Victory::Majority { percent, turns } && 1 <= percent <= 100 && 1 <= turns <= 100,
        all_plain(tile_fields(l)),
    ensures
        all_plain(level_fields(l)),
{
    lemma_key_facts();
    lemma_literals();
    assert(all_plain(seq![FORMAT_VERSION@])) by {
        assert(plain(FORMAT_VERSION@)) by {
            assert forall|i: int| 0 <= i < FORMAT_VERSION@.len() implies is_plain(#[trigger] FORMAT_VERSION@[i]) by {}
        }
    }
    assert(all_plain(name_fields(l))) by {
        match l.name {
            Some(n) => {
                assert(plain(n)) by {
                    assert forall|i: int| 0 <= i < n.len() implies is_plain(#[trigger] n[i]) by {
                        assert(is_name_char(n[i]));
                    }
                }
                lemma_plain_add("name="@, n);
            },
            None => {},
        }
    }
    assert(all_plain(scalar_fields(l))) by {
        lemma_decimal_field_plain("n="@, l.frequency as nat);
        lemma_decimal_field_plain("seed="@, l.seed as nat);
        lemma_decimal_field_plain("players="@, l.players as nat);
        let fl = faction_letters(l.humans);
        assert forall|i: int| 0 <= i < fl.len() implies is_plain(#[trigger] fl[i]) by {
            lemma_faction_letter_plain(l.humans[i]);
        }
        lemma_plain_add("human="@, fl);
    }
    let af = ai_fields(l.ai, l.ai.len());
    assert(all_plain(af)) by {
        assert forall|k: int| 0 <= k < af.len() implies plain(#[trigger] af[k]) by {
            lemma_ai_reads(l.ai[k]);
            lemma_plain_add("ai="@, ai_text(l.ai[k]));
        }
    }
    assert(all_plain(rule_fields(l))) by {
        lemma_decimal_field_plain("land="@, l.land_percent as nat);
        lemma_decimal_field_plain("forest="@, l.forest_percent as nat);
        lemma_victory_reads(l.victory);
        lemma_plain_add("victory="@, victory_text(l.victory));
    }
    let t = tile_fields(l);
    lemma_all_plain_add(rule_fields(l), t);
    lemma_all_plain_add(af, rule_fields(l) + t);
    lemma_all_plain_add(scalar_fields(l), af + (rule_fields(l) + t));
    lemma_all_plain_add(name_fields(l), scalar_fields(l) + (af + (rule_fields(l) + t)));
    lemma_all_plain_add(seq![FORMAT_VERSION@], name_fields(l) + (scalar_fields(l) + (af + (rule_fields(l) + t))));
    assert(level_fields(l) =~= seq![FORMAT_VERSION@] + (name_fields(l) + (scalar_fields(l) + (af + (rule_fields(l)
        + t)))));
}

/// What the canonical form needs, beyond a valid level, to read back as the same level: a name,
/// when given, of `[A-Za-z0-9_.-]+`; no human faction listed twice; both victory numbers in
/// `1..=100`; and every tile diff naming at least one of terrain, cover, owner and unit.
pub open spec fn writes_back(l: LevelView) -> bool {
    &&& l.name matches Some(n) ==> is_name(n)
    &&& forall|j: int, k: int| 0 <= j < k < l.humans.len() ==> l.humans[j] != l.humans[k]
    &&& l.victory matches Victory::Majority { percent, turns } && 1 <= percent <= 100 && 1 <= turns <= 100
    &&& forall|k: int| 0 <= k < l.tiles.len() ==> diff_letters(#[trigger] l.tiles[k]).len() > 0
}

/// What a valid level guarantees of its values.
proof fn lemma_valid_facts(l: LevelView)
    requires
        level_violation(l) is None,
        writes_back(l),
    ensures
        2 <= l.frequency <= 12,
        2 <= l.players <= 4,
        l.humans.len() > 0,
        l.land_percent <= 100,
        l.forest_percent <= 100,
        forall|k: int| 0 <= k < l.ai.len() ==> (#[trigger] l.ai[k]).hostility <= 100 && l.ai[k].intelligence <= 3,
        forall|k: int| 0 <= k < l.tiles.len() ==> diff_writable(#[trigger] l.tiles[k]),
{
    assert(ai_violation(l, 0) is None);
    assert(diff_violation(l, 0) is None);
    lemma_ai_ok(l, 0);
    lemma_diffs_ok(l, 0);
    assert forall|k: int| 0 <= k < l.tiles.len() implies diff_writable(#[trigger] l.tiles[k]) by {
        assert(l.tiles[k].from <= l.tiles[k].to);
    }
}

/// The keys seen once `human` is read leave the later keys unseen.
proof fn lemma_early_seen(l: LevelView, seen: Seq<Seq<char>>)
    requires
        seen == name_seen(l) + seq!["n"@, "seed"@, "players"@, "human"@],
    ensures
        !seen.contains("land"@),
        !seen.contains("forest"@),
        !seen.contains("victory"@),
        !seen.contains("tiles"@),
{
    lemma_key_facts();
    assert forall|j: int| 0 <= j < seen.len() implies early_key(#[trigger] seen[j]) by {
        if j < name_seen(l).len() {
            assert(seen[j] == name_seen(l)[j]);
        } else {
            assert(seen[j] == seq!["n"@, "seed"@, "players"@, "human"@][j - name_seen(l).len()]);
        }
    }
    assert forall|j: int| 0 <= j < seen.len() implies seen[j] != "land"@ && seen[j] != "forest"@ && seen[j]
        != "victory"@ && seen[j] != "tiles"@ by {
        assert(early_key(seen[j]));
    }
}

/// The first groups: name, scalars and AI profiles.
proof fn lemma_head_read(l: LevelView) -> (st: ParseState)
    requires
        level_violation(l) is None,
        writes_back(l),
    ensures
        run(initial_state(), name_fields(l) + (scalar_fields(l) + ai_fields(l.ai, l.ai.len()))) == Some(
            Ok::<ParseState, crate::level::LevelErrorView>(st),
        ),
        st.level == (LevelView {
            name: l.name,
            frequency: l.frequency,
            seed: l.seed,
            players: l.players,
            humans: l.humans,
            ai: l.ai,
            ..default_level()
        }),
        st.has_n,
        st.seen == name_seen(l) + seq!["n"@, "seed"@, "players"@, "human"@],
{
    lemma_valid_facts(l);
    let st1 = lemma_name_group(l);
    assert forall|j: int| 0 <= j < st1.seen.len() implies #[trigger] st1.seen[j] == "name"@ by {}
    let st2 = lemma_scalar_group(st1, l);
    let af = ai_fields(l.ai, l.ai.len());
    let st3 = lemma_ai_group(st2, l.ai, l.ai.len());
    lemma_run_concat(st1, scalar_fields(l), af, st2);
    lemma_run_concat(initial_state(), name_fields(l), scalar_fields(l) + af, st1);
    assert(l.ai.take(l.ai.len() as int) =~= l.ai);
    assert(default_level().ai + l.ai =~= l.ai);
    assert(st3.level =~= (LevelView {
        name: l.name,
        frequency: l.frequency,
        seed: l.seed,
        players: l.players,
        humans: l.humans,
        ai: l.ai,
        ..default_level()
    }));
    st3
}

/// Every field of the canonical line of a valid level reads back into the level.
proof fn lemma_fields_read(l: LevelView) -> (st: ParseState)
    requires
        level_violation(l) is None,
        writes_back(l),
    ensures
        parse_fields(initial_state(), level_fields(l), 1) == Some(Ok::<ParseState, crate::level::LevelErrorView>(st)),
        st.level == l,
        st.has_n,
{
    lemma_valid_facts(l);
    let st3 = lemma_head_read(l);
    lemma_early_seen(l, st3.seen);
    let st4 = lemma_rule_group(st3, l);
    let st5 = lemma_tile_group(st4, l);
    let t = tile_fields(l);
    let af = ai_fields(l.ai, l.ai.len());
    let head = name_fields(l) + (scalar_fields(l) + af);
    let tail = rule_fields(l) + t;
    let fields = level_fields(l);
    assert(fields =~= seq![FORMAT_VERSION@] + (head + tail));
    assert(fields.skip(1) =~= head + tail);
    lemma_run_concat(st3, rule_fields(l), t, st4);
    lemma_run_concat(initial_state(), head, tail, st3);
    lemma_run_skip(initial_state(), fields, 1);
    assert(st5.level =~= l);
    st5
}

/// The canonical line of a valid level has no white space to trim and splits into its fields.
proof fn lemma_text_splits(l: LevelView)
    requires
        level_violation(l) is None,
        writes_back(l),
    ensures
        split_on(trim(level_text(l)), ';') == level_fields(l),
{
    assert(ai_violation(l, 0) is None);
    assert(diff_violation(l, 0) is None);
    lemma_ai_ok(l, 0);
    lemma_diffs_ok(l, 0);
    assert forall|k: int| 0 <= k < l.tiles.len() implies diff_writable(#[trigger] l.tiles[k]) by {
        assert(l.tiles[k].from <= l.tiles[k].to);
    }
    let fields = level_fields(l);
    let t = tile_fields(l);
    assert(all_plain(t)) by {
        if l.tiles.len() > 0 {
            let texts = Seq::new(l.tiles.len(), |i: int| tile_diff_text(l.tiles[i]));
            assert forall|k: int| 0 <= k < texts.len() implies plain(#[trigger] texts[k]) by {
                assert(diff_writable(l.tiles[k]));
                lemma_tile_reads(l.tiles[k]);
            }
            lemma_join_plain(texts, ',');
            lemma_key_facts();
            lemma_plain_add("tiles="@, join(texts, ','));
            assert(t =~= seq!["tiles="@ + join(texts, ',')]);
        }
    }
    lemma_fields_plain(l);
    assert forall|k: int| 0 <= k < fields.len() implies !(#[trigger] fields[k]).contains(';') by {
        assert(plain(fields[k]));
        if fields[k].contains(';') {
            let j = choose|j: int| 0 <= j < fields[k].len() && fields[k][j] == ';';
            assert(is_plain(fields[k][j]));
        }
    }
    lemma_split_join(fields, ';');
    assert forall|k: int| 0 <= k < fields.len() implies plain(#[trigger] fields[k]) by {}
    lemma_join_chars(fields, ';');
    let text = level_text(l);
    assert forall|i: int| 0 <= i < text.len() implies !is_white(#[trigger] text[i]) by {
        assert(is_plain(text[i]) || text[i] == ';');
    }
    lemma_trim_nothing(text);
}

/// Reading the canonical line of a valid level gives the same level back: what
/// `Level::to_string` writes, `Level::parse` reads as the level it was written from.
pub proof fn lemma_parse_to_string(l: LevelView)
    requires
        level_violation(l) is None,
        writes_back(l),
    ensures
        spec_parse(level_text(l)) == Some(Ok::<LevelView, crate::level::LevelErrorView>(l)),
{
    let st = lemma_fields_read(l);
    lemma_text_splits(l);
    assert(level_fields(l)[0] == FORMAT_VERSION@);
}

} // verus!
