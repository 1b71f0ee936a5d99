//! What the HUD shows and what it asks of the app.

use vstd::prelude::*;

use crate::text::{decimal, push_decimal, push_str, string_from_str, string_of};

verus! {

/// Facts the HUD displays; the app fills it each frame.
#[derive(Debug, Clone, Copy, PartialEq, Eq, Default)]
pub struct HudInfo {
    /// Number of tiles on the planet.
    pub tiles: usize,
    /// Land tiles.
    pub land: usize,
    /// Pentagon tiles.
    pub pentagons: usize,
    /// Hex-sphere frequency.
    pub frequency: u8,
    /// World seed.
    pub seed: u32,
    /// Current pixel scale.
    pub pixel_scale: u32,
    /// Low-resolution target size in texels.
    pub target: (u32, u32),
    /// Build identifier shown in the readout.
    pub build: &'static str,
}

/// What the app should do after a HUD interaction.
#[derive(Debug, Clone, Copy, PartialEq, Eq, Structural)]
pub enum HudAction {
    /// Nothing.
    Nothing,
    /// Change the pixel scale.
    SetPixelScale(u32),
}

/// The top-left readout plus the debug toggle.
#[derive(Debug, Default)]
pub struct Hud {
    /// Whether the instrumentation panel is open.
    pub debug: bool,
}

/// `a - b`, or 0 when `b` is larger.
pub open spec fn saturating(a: nat, b: nat) -> nat {
    if a >= b { (a - b) as nat } else { 0 }
}

/// The readout's rows, label then value: tile count, hexagons and pentagons, land and sea, seed
/// and frequency, target size.
pub open spec fn readout_rows(i: HudInfo) -> Seq<(Seq<char>, Seq<char>)> {
    seq![
        ("TILES"@, decimal(i.tiles as nat)),
        ("HEX / PENT"@, decimal(saturating(i.tiles as nat, i.pentagons as nat)) + " / "@ + decimal(i.pentagons as nat)),
        ("LAND / SEA"@, decimal(i.land as nat) + " / "@ + decimal(saturating(i.tiles as nat, i.land as nat))),
        ("SEED"@, decimal(i.seed as nat) + " @ n"@ + decimal(i.frequency as nat)),
        ("TARGET"@, decimal(i.target.0 as nat) + "x"@ + decimal(i.target.1 as nat)),
    ]
}

fn row(label: &str, value: Vec<char>) -> (r: (String, String))
    ensures
        r.0@ == label@,
        r.1@ == value@,
{
    (string_from_str(label), string_of(&value))
}

fn pair_value(a: u64, sep: &str, b: u64) -> (v: Vec<char>)
    ensures
        v@ == decimal(a as nat) + sep@ + decimal(b as nat),
{
    let mut v = Vec::new();
    push_decimal(&mut v, a);
    push_str(&mut v, sep);
    push_decimal(&mut v, b);
    assert(v@ =~= decimal(a as nat) + sep@ + decimal(b as nat));
    v
}

impl HudInfo {
    /// The readout's rows, label then value, in display order.
    pub fn readout(&self) -> (rows: Vec<(String, String)>)
        ensures
            rows@.len() == readout_rows(*self).len(),
            forall|k: int|
                0 <= k < rows@.len() ==> (#[trigger] rows@[k]).0@ == readout_rows(*self)[k].0 && rows@[k].1@
                    == readout_rows(*self)[k].1,
    {
        let mut rows: Vec<(String, String)> = Vec::new();
        let mut t = Vec::new();
        push_decimal(&mut t, self.tiles as u64);
        rows.push(row("TILES", t));
        let hex = if self.tiles >= self.pentagons { self.tiles - self.pentagons } else { 0 };
        rows.push(row("HEX / PENT", pair_value(hex as u64, " / ", self.pentagons as u64)));
        let sea = if self.tiles >= self.land { self.tiles - self.land } else { 0 };
        rows.push(row("LAND / SEA", pair_value(self.land as u64, " / ", sea as u64)));
        rows.push(row("SEED", pair_value(self.seed as u64, " @ n", self.frequency as u64)));
        rows.push(row("TARGET", pair_value(self.target.0 as u64, "x", self.target.1 as u64)));
        rows
    }
}

} // verus!
