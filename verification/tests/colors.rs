use mca_viewer_rs::colors::{
    alpha_blend, alpha_blend_cols, alpha_soft_depth_darken, alpha_soft_depth_darken_branchless,
    alpha_water_dark, alpha_water_dark_branchless, alpha_water_transparency, calc_water_color,
    modulate_col, soft_depth_darken_col,
};

#[test]
fn eq() {
    for depth in 0u16..30 {
        assert_eq!(alpha_water_dark(depth), alpha_water_dark_branchless(depth));
        assert_eq!(alpha_soft_depth_darken(depth), alpha_soft_depth_darken_branchless(depth))
    }
}

#[test]
fn tables_agree_beyond_thirty() {
    for depth in [30u16, 100, 1000, u16::MAX] {
        assert_eq!(alpha_water_dark(depth), alpha_water_dark_branchless(depth));
        assert_eq!(alpha_soft_depth_darken(depth), alpha_soft_depth_darken_branchless(depth))
    }
}

#[test]
fn blend_values() {
    assert_eq!(alpha_blend(255, 0, 255), 255);
    assert_eq!(alpha_blend(255, 0, 0), 0);
    assert_eq!(alpha_blend(200, 100, 128), 150);
    assert_eq!(alpha_blend_cols([10, 20, 30, 7], [0, 0, 0, 255], 255), [10, 20, 30, 255]);
}

#[test]
fn modulation_values() {
    assert_eq!(modulate_col([100, 100, 100, 9], 0), [100, 100, 100, 9]);
    assert_eq!(modulate_col([100, 100, 100, 9], 3), [133, 133, 133, 9]);
    assert_eq!(modulate_col([255, 255, 255, 255], 3), [255, 255, 255, 255]);
    assert_eq!(modulate_col([100, 0, 200, 1], -1), [90, 0, 180, 1]);
}

#[test]
fn water_and_depth() {
    assert_eq!(alpha_water_transparency(3), 43);
    let w = [0, 0, 200, 255];
    let c = calc_water_color(w, [100, 100, 100, 255], 0);
    assert_eq!(c[3], 255);
    assert_eq!(soft_depth_darken_col([100, 100, 100, 255], 0), alpha_blend_cols([100, 100, 100, 255], [0, 0, 0, 255], alpha_soft_depth_darken(0)));
}
