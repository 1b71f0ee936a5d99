use claimlands::image::hex_rgb;
use claimlands::render::{target_size, Blend, Cull, Depth, MaterialDesc, Shading, Topology};
use claimlands::scenery::{Wrap, Zones, SKY_RIM};
use claimlands::shell::startup_size;
use claimlands::ui::{HudAction, HudInfo};

#[test]
fn a_resize_during_gpu_start_up_is_not_lost() {
    // The web: no canvas layout when the window is created, the real size delivered while the
    // GPU was still starting. Taking the creation size here is what left the surface at 1x1.
    assert_eq!(startup_size((0, 0), (1350, 1270)), (1350, 1270));
    // Any platform: a resize that landed mid-start-up wins over the size at creation.
    assert_eq!(startup_size((1280, 720), (1000, 700)), (1000, 700));
    // A window that still reports nothing keeps what it was created at rather than collapsing.
    assert_eq!(startup_size((1280, 720), (0, 0)), (1280, 720));
    assert_eq!(startup_size((1280, 720), (1000, 0)), (1280, 720));
}

#[test]
fn the_clear_is_the_rim_of_the_sky() {
    const CLEAR: [f64; 3] = [3.0 / 255.0, 2.0 / 255.0, 9.0 / 255.0];
    let rim = hex_rgb(SKY_RIM);
    assert_eq!(CLEAR, rim.map(|c| f64::from(c) / 255.0));
}

#[test]
fn target_size_rounds_like_the_prototype() {
    assert_eq!(target_size(900, 600, 3), (300, 200));
    assert_eq!(target_size(901, 599, 3), (300, 200));
    assert_eq!(target_size(1, 1, 3), (1, 1));
    assert_eq!(target_size(1000, 500, 0), (1000, 500));
    assert_eq!(target_size(7, 7, 2), (4, 4), "3.5 rounds up");
}

#[test]
fn target_size_never_drops_below_one_texel() {
    assert_eq!(target_size(0, 0, 4), (1, 1));
    assert_eq!(target_size(u32::MAX, 5, 1), (u32::MAX, 5));
    assert_eq!(target_size(5, 9, 2), (3, 5));
}

#[test]
fn material_presets_match_the_visuals_table() {
    assert_eq!(MaterialDesc::border().depth_bias, (-2, -2));
    assert_eq!(MaterialDesc::border().cull, Cull::Nothing);
    assert_eq!(MaterialDesc::halo().depth, Depth::ReadOnly);
    assert_eq!(MaterialDesc::halo().blend, Blend::Alpha);
    assert_eq!(MaterialDesc::space().depth, Depth::Off);
    assert_eq!(MaterialDesc::lambert_double_sided().cull, Cull::Nothing);
    assert_eq!(MaterialDesc::lambert().shading, Shading::Lambert);
}

#[test]
fn presets_differ_only_where_they_say() {
    let base = MaterialDesc::default();
    assert_eq!(MaterialDesc::lambert(), base);
    assert_eq!(base.topology, Topology::Triangles);
    assert_eq!(base.depth_bias, (0, 0));
    let unlit = MaterialDesc::unlit();
    assert_eq!(unlit, MaterialDesc { shading: Shading::Unlit, cull: Cull::Nothing, ..base });
    assert_eq!(MaterialDesc::space().blend, Blend::Opaque);
    assert_eq!(MaterialDesc::halo().shading, Shading::Unlit);
}

#[test]
fn readout_rows_in_display_order() {
    let info = HudInfo {
        tiles: 642,
        land: 270,
        pentagons: 12,
        frequency: 8,
        seed: 31676,
        pixel_scale: 3,
        target: (427, 300),
        build: "test",
    };
    let rows = info.readout();
    let expect = [
        ("TILES", "642"),
        ("HEX / PENT", "630 / 12"),
        ("LAND / SEA", "270 / 372"),
        ("SEED", "31676 @ n8"),
        ("TARGET", "427x300"),
    ];
    assert_eq!(rows.len(), expect.len());
    for (row, (k, v)) in rows.iter().zip(expect) {
        assert_eq!(row.0, k);
        assert_eq!(row.1, v);
    }
    let odd = HudInfo { tiles: 3, land: 5, pentagons: 9, ..HudInfo::default() };
    assert_eq!(odd.readout()[1].1, "0 / 9");
    assert_eq!(odd.readout()[2].1, "5 / 0");
    assert_eq!(HudAction::SetPixelScale(2), HudAction::SetPixelScale(2));
    assert_ne!(HudAction::Nothing, HudAction::SetPixelScale(1));
}

#[test]
fn plain_scenery_data() {
    let z = Zones::default();
    assert!(z.zones.is_empty() && z.zone_of.is_empty());
    assert_eq!(z.total, 0);
    assert_ne!(Wrap::Clamp, Wrap::Repeat);
    assert_eq!(SKY_RIM, "#030209");
}
