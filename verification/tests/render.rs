use bubble_simulation::gpu::render::{
    FieldMode, RenderSettings, ViewUniform, VolumeRenderer, COLORMAPS,
};
use bubble_simulation::scalar::Scalar;

fn s(x: f32) -> Scalar {
    Scalar::of_bits(x.to_bits())
}

fn f(x: Scalar) -> f32 {
    f32::from_bits(x.bits)
}

#[test]
fn view_uniform_matches_the_wgsl_struct() {
    // mat4x4 (64) + 7 * vec4 (112).
    assert_eq!(std::mem::size_of::<ViewUniform>(), 176);
}

#[test]
fn every_field_mode_has_a_valid_default_colormap() {
    for m in FieldMode::ALL {
        assert!(m.default_colormap() < COLORMAPS.len());
        assert!(f(m.default_gain()) > 0.0);
    }
}

#[test]
fn field_modes_have_their_settings() {
    let gains: Vec<f32> = FieldMode::ALL.iter().map(|m| f(m.default_gain())).collect();
    assert_eq!(gains, vec![0.5, 4.0, 15.0, 20.0]);
    let maps: Vec<usize> = FieldMode::ALL.iter().map(|m| m.default_colormap()).collect();
    assert_eq!(maps, vec![0, 1, 2, 1]);
    let labels: Vec<&str> = FieldMode::ALL.iter().map(|m| m.label()).collect();
    assert_eq!(labels[3], "Kinetic energy  w W^2 v^2");
    assert_eq!(COLORMAPS, ["viridis", "inferno", "signed"]);
    assert_eq!(FieldMode::default(), FieldMode::Kinetic);
}

#[test]
fn settings_start_from_the_field() {
    let d = RenderSettings::default();
    assert_eq!(d, RenderSettings::with_field(FieldMode::Kinetic));
    assert_eq!(f(d.iso_level), 0.5);
    assert_eq!(f(d.wall_opacity), 0.55);
    assert_eq!(f(d.samples_per_cell), 1.5);
    assert_eq!(f(d.exposure), 1.5);
    assert_eq!(f(d.absorption), 12.0);
    assert_eq!(f(d.background), 1.0);
    assert_eq!(d.clip_axis, -1);
    let t = RenderSettings::with_field(FieldMode::Temperature);
    assert_eq!((t.colormap, f(t.field_gain)), (2, 15.0));
    assert_eq!(t.absorption, d.absorption);
}

#[test]
fn the_longest_axis_spans_one() {
    for grid in [[64u32, 64, 64], [96, 48, 48], [7, 1000, 333], [1, 1, 3_000_000_001]] {
        let r = VolumeRenderer::new(grid);
        let n_max = *grid.iter().max().unwrap();
        for axis in 0..3 {
            let half = f(r.box_half()[axis]);
            assert_eq!(half, 0.5 * grid[axis] as f32 / n_max as f32);
            assert!((0.0..=0.5).contains(&half));
            if grid[axis] == n_max {
                assert_eq!(half, 0.5);
            }
        }
        assert_eq!(f(r.cell), 1.0 / n_max as f32);
    }
}

#[test]
fn the_renderer_follows_a_resize() {
    let mut r = VolumeRenderer::new([64, 64, 64]);
    let before = r.box_half();
    r.update([s(0.0); 16], [s(0.0); 3], &RenderSettings::default());
    r.rebind([96, 48, 48]);
    let after = r.box_half();
    assert_ne!(before[1], after[1]);
    assert!(f(after[0]) > f(after[1]), "the long axis should have the largest half-extent");
    assert_eq!(r.grid, [96, 48, 48]);
    assert_eq!(r.frame, 1);
}

#[test]
fn the_view_block_is_dense_and_in_order() {
    let mut r = VolumeRenderer::new([100, 50, 25]);
    let mut m = [s(0.0); 16];
    for (i, x) in m.iter_mut().enumerate() {
        *x = s(i as f32);
    }
    let settings = RenderSettings {
        clip_axis: 2,
        clip_pos: s(-0.25),
        show_volume: false,
        ..RenderSettings::with_field(FieldMode::Temperature)
    };
    let words = r.update(m, [s(7.0), s(8.0), s(9.0)], &settings).words();
    assert_eq!(words.len(), 44);
    let x: Vec<f32> = words.iter().map(|w| f32::from_bits(*w)).collect();
    let matrix: Vec<f32> = (0..16).map(|i| i as f32).collect();
    assert_eq!(x[..16], matrix[..]);
    assert_eq!(x[16..20], [7.0, 8.0, 9.0, 0.0]);
    assert_eq!(x[20..24], [0.5, 0.25, 0.125, 0.01]);
    assert_eq!(x[24..28], [100.0, 50.0, 25.0, 0.0]);
    assert_eq!(x[28..32], [0.5, 0.55, 1.5, 1.5]);
    assert_eq!(x[32..36], [2.0, 2.0, -0.25, 2.0]);
    assert_eq!(x[36..40], [15.0, 12.0, 1.0, 0.0]);
    assert_eq!(x[40..44], [0.618_034, 1.0, 1.0, 0.0]);
    let off = r.update(m, [s(0.0); 3], &RenderSettings::default()).words();
    assert_eq!(f32::from_bits(off[33]), -1.0);
    assert_eq!(f32::from_bits(off[40]), 2.0 * 0.618_034);
}

#[test]
fn the_frame_counter_wraps() {
    let mut r = VolumeRenderer { frame: u32::MAX, ..VolumeRenderer::new([8, 8, 8]) };
    let words = r.update([s(0.0); 16], [s(0.0); 3], &RenderSettings::default()).words();
    assert_eq!(r.frame, 0);
    assert_eq!(words[40], 0);
}
