use vstd::prelude::*;

verus! {

/// Opacity of the dark water layer at a given water depth.
pub open spec fn spec_alpha_water_dark(depth: u16) -> u8 {
    if depth < 2 {
        255
    } else if depth < 4 {
        204
    } else if depth < 7 {
        153
    } else if depth < 13 {
        102
    } else if depth < 24 {
        51
    } else {
        0
    }
}

/// Opacity of the ground seen through water of a given depth.
pub open spec fn spec_alpha_water_transparency(depth: u16) -> u8 {
    if depth == 0 {
        140
    } else if depth == 1 {
        109
    } else if depth == 2 {
        73
    } else if depth == 3 {
        43
    } else if depth == 4 {
        10
    } else {
        0
    }
}

/// Opacity of a colour (against black) at a given depth below the surface.
pub open spec fn spec_alpha_soft_depth_darken(depth: u16) -> u8 {
    if depth < 3 {
        255
    } else if depth < 8 {
        245
    } else if depth < 16 {
        180
    } else if depth < 24 {
        130
    } else if depth < 28 {
        60
    } else {
        30
    }
}

/// `c` over `d` with opacity `alpha / 255`, rounded.
pub open spec fn spec_alpha_blend(c: u8, d: u8, alpha: u8) -> u8 {
    let sum = c * alpha + d * (255 - alpha) + 128;
    ((sum + sum / 256) / 256) as u8
}

/// Blends the colour channels; the result is opaque.
pub open spec fn spec_alpha_blend_cols(c_1: [u8; 4], c_2: [u8; 4], alpha: u8) -> [u8; 4] {
    [
        spec_alpha_blend(c_1[0], c_2[0], alpha),
        spec_alpha_blend(c_1[1], c_2[1], alpha),
        spec_alpha_blend(c_1[2], c_2[2], alpha),
        255,
    ]
}

/// A channel scaled by `scale / 256`, rounded and capped at 255.
pub open spec fn spec_scale_channel(a: u8, scale: u32) -> u8 {
    let v = (a * scale + 128) / 256;
    (if v > 255 { 255 } else { v }) as u8
}

/// The scale factor (out of 256) for a brightness step `m` in `-3..=3`.
pub open spec fn modulation_scale(m: i8) -> u32 {
    if m == 3 {
        341
    } else if m == 2 {
        310
    } else if m == 1 {
        282
    } else if m == -1 {
        230
    } else if m == -2 {
        207
    } else {
        187
    }
}

/// A colour brightened (`m > 0`) or darkened (`m < 0`) by `|m|` steps; alpha is kept.
pub open spec fn spec_modulate_col(col: [u8; 4], m: i8) -> [u8; 4] {
    if m == 0 {
        col
    } else {
        [
            spec_scale_channel(col[0], modulation_scale(m)),
            spec_scale_channel(col[1], modulation_scale(m)),
            spec_scale_channel(col[2], modulation_scale(m)),
            col[3],
        ]
    }
}

/// The colour of water of a given depth over ground of colour `block_col`.
pub open spec fn spec_water_color(water_col: [u8; 4], block_col: [u8; 4], depth: u16) -> [u8; 4] {
    let water_col_dark = spec_alpha_blend_cols(water_col, [0, 0, 0, 255], 153);
    let darkened = spec_alpha_blend_cols(water_col, water_col_dark, spec_alpha_water_dark(depth));
    spec_alpha_blend_cols(block_col, darkened, spec_alpha_water_transparency(depth))
}

/// Table lookup for [`spec_alpha_water_dark`].
pub fn alpha_water_dark_branchless(depth: u16) -> (r: u8)
    ensures
        r == water_dark_table()[if depth < 24 { depth as int } else { 24 }],
        r == spec_alpha_water_dark(depth),
{
    let vals: [u8; 25] = [
        255, 255, 204, 204, 153, 153, 153, 102, 102, 102, 102, 102, 102, 51, 51, 51, 51, 51, 51,
        51, 51, 51, 51, 51, 0,
    ];
    let i: u16 = if depth < 24 { depth } else { 24 };
    proof {
        assert(vals@ =~= water_dark_table());
        lemma_branchless_tables_agree(depth);
    }
    vals[i as usize]
}

/// Opacity of the dark water layer: full in shallow water, none from depth 24 on.
pub fn alpha_water_dark(depth: u16) -> (r: u8)
    ensures
        r == spec_alpha_water_dark(depth),
{
    if depth < 2 {
        255
    } else if depth < 4 {
        204
    } else if depth < 7 {
        153
    } else if depth < 13 {
        102
    } else if depth < 24 {
        51
    } else {
        0
    }
}

/// Opacity of the ground seen through water of a given depth.
pub fn alpha_water_transparency(depth: u16) -> (r: u8)
    ensures
        r == spec_alpha_water_transparency(depth),
{
    match depth {
        0 => 140,
        1 => 109,
        2 => 73,
        3 => 43,
        4 => 10,
        _ => 0,
    }
}

/// One channel scaled by `C / 256`, rounded and capped at 255.
pub fn apply_one<const C: u32>(a: u8) -> (r: u8)
    requires
        C <= 341,
    ensures
        r == spec_scale_channel(a, C),
{
    proof {
        assert((a as u32) * C <= 255 * 341) by (nonlinear_arith) requires a <= 255, C <= 341;
    }
    let v = ((a as u32) * C + 128) >> 8;
    proof {
        vstd::bits::lemma_u32_shr_is_div(((a as u32) * C + 128) as u32, 8);
        vstd::arithmetic::power2::lemma2_to64();
    }
    (if v > 255 { 255 } else { v }) as u8
}

/// The colour channels scaled by `C / 256`; alpha is kept.
pub fn apply_rgb<const C: u32>(col: [u8; 4]) -> (r: [u8; 4])
    requires
        C <= 341,
    ensures
        r@ == seq![spec_scale_channel(col[0], C), spec_scale_channel(col[1], C), spec_scale_channel(col[2], C), col[3]],
{
    let r = [apply_one::<C>(col[0]), apply_one::<C>(col[1]), apply_one::<C>(col[2]), col[3]];
    proof {
        assert(r@ =~= seq![spec_scale_channel(col[0], C), spec_scale_channel(col[1], C), spec_scale_channel(col[2], C), col[3]]);
    }
    r
}

/// Roughly brightens (`m > 0`) or darkens (`m < 0`) a colour by `|m|` steps;
/// `m` must lie in `-3..=3`.
pub fn modulate_col(col: [u8; 4], m: i8) -> (r: [u8; 4])
    requires
        -3 <= m <= 3,
    ensures
        r@ == spec_modulate_col(col, m)@,
{
    match m {
        3 => apply_rgb::<341>(col),
        2 => apply_rgb::<310>(col),
        1 => apply_rgb::<282>(col),
        0 => col,
        -1 => apply_rgb::<230>(col),
        -2 => apply_rgb::<207>(col),
        _ => apply_rgb::<187>(col),
    }
}

/// `c` over `d` with opacity `alpha / 255`, rounded.
pub fn alpha_blend(c: u8, d: u8, alpha: u8) -> (r: u8)
    ensures
        r == spec_alpha_blend(c, d, alpha),
{
    proof {
        assert((c as u32) * (alpha as u32) + (d as u32) * (255 - alpha as u32) <= 65025) by (nonlinear_arith)
            requires c <= 255, d <= 255, alpha <= 255;
        assert((c as u32) * (alpha as u32) <= 65025) by (nonlinear_arith) requires c <= 255, alpha <= 255;
        assert((d as u32) * (255 - alpha as u32) <= 65025) by (nonlinear_arith) requires d <= 255, alpha <= 255;
    }
    let c = (c as u32) * (alpha as u32);
    let d = (d as u32) * (255 - alpha as u32);
    let sum = c + d + 128;
    proof {
        vstd::bits::lemma_u32_shr_is_div(sum, 8);
        vstd::bits::lemma_u32_shr_is_div((sum + (sum >> 8)) as u32, 8);
        vstd::arithmetic::power2::lemma2_to64();
    }
    ((sum + (sum >> 8)) >> 8) as u8
}

/// Blends the colour channels of `c_1` over `c_2` with opacity `alpha / 255`; the
/// result is opaque.
pub fn alpha_blend_cols(c_1: [u8; 4], c_2: [u8; 4], alpha: u8) -> (r: [u8; 4])
    ensures
        r@ == spec_alpha_blend_cols(c_1, c_2, alpha)@,
{
    let r = alpha_blend(c_1[0], c_2[0], alpha);
    let g = alpha_blend(c_1[1], c_2[1], alpha);
    let b = alpha_blend(c_1[2], c_2[2], alpha);
    let res = [r, g, b, 255];
    proof {
        assert(res@ =~= spec_alpha_blend_cols(c_1, c_2, alpha)@);
    }
    res
}

/// The colour of water of a given depth over ground of colour `block_col`:
/// the water colour darkens with depth and lets less of the ground through.
pub fn calc_water_color(water_col: [u8; 4], block_col: [u8; 4], depth: u16) -> (r: [u8; 4])
    ensures
        r@ == spec_water_color(water_col, block_col, depth)@,
{
    let water_col_dark = alpha_blend_cols(water_col, [0, 0, 0, 255], 153);
    let darkened_water_col = alpha_blend_cols(water_col, water_col_dark, alpha_water_dark_branchless(depth));
    proof {
        assert(water_col_dark =~= spec_alpha_blend_cols(water_col, [0, 0, 0, 255], 153));
        assert(darkened_water_col =~= spec_alpha_blend_cols(water_col, spec_alpha_blend_cols(water_col, [0, 0, 0, 255], 153), spec_alpha_water_dark(depth)));
    }
    alpha_blend_cols(block_col, darkened_water_col, alpha_water_transparency(depth))
}

/// Darkens a colour that lies `depth` blocks below the reference height.
pub fn soft_depth_darken_col(c: [u8; 4], depth: u16) -> (r: [u8; 4])
    ensures
        r@ == spec_alpha_blend_cols(c, [0, 0, 0, 255], spec_alpha_soft_depth_darken(depth))@,
{
    let alpha = alpha_soft_depth_darken_branchless(depth);
    alpha_blend_cols(c, [0, 0, 0, 255], alpha)
}

/// Table lookup for [`spec_alpha_soft_depth_darken`].
pub fn alpha_soft_depth_darken_branchless(depth: u16) -> (r: u8)
    ensures
        r == soft_depth_darken_table()[if depth < 28 { depth as int } else { 28 }],
        r == spec_alpha_soft_depth_darken(depth),
{
    let vals: [u8; 29] = [
        255, 255, 255, 245, 245, 245, 245, 245, 180, 180, 180, 180, 180, 180, 180, 180, 130, 130,
        130, 130, 130, 130, 130, 130, 60, 60, 60, 60, 30,
    ];
    let i: u16 = if depth < 28 { depth } else { 28 };
    proof {
        assert(vals@ =~= soft_depth_darken_table());
        lemma_branchless_tables_agree(depth);
    }
    vals[i as usize]
}

/// Opacity of a colour against black at a given depth: opaque near the reference
/// height, fading to 30 from depth 28 on.
pub fn alpha_soft_depth_darken(depth: u16) -> (r: u8)
    ensures
        r == spec_alpha_soft_depth_darken(depth),
{
    if depth < 3 {
        255
    } else if depth < 8 {
        245
    } else if depth < 16 {
        180
    } else if depth < 24 {
        130
    } else if depth < 28 {
        60
    } else {
        30
    }
}

/// The table of dark-water opacities by depth (the last entry holds for every greater depth).
pub open spec fn water_dark_table() -> Seq<u8> {
    seq![
        255u8, 255, 204, 204, 153, 153, 153, 102, 102, 102, 102, 102, 102, 51, 51, 51, 51, 51, 51,
        51, 51, 51, 51, 51, 0,
    ]
}

/// The table of depth-darkening opacities by depth (the last entry holds for every greater depth).
pub open spec fn soft_depth_darken_table() -> Seq<u8> {
    seq![
        255u8, 255, 255, 245, 245, 245, 245, 245, 180, 180, 180, 180, 180, 180, 180, 180, 130, 130,
        130, 130, 130, 130, 130, 130, 60, 60, 60, 60, 30,
    ]
}

/// The lookup tables agree with the depth ranges at every depth.
pub proof fn lemma_branchless_tables_agree(depth: u16)
    ensures
        water_dark_table()[if depth < 24 { depth as int } else { 24 }] == spec_alpha_water_dark(depth),
        soft_depth_darken_table()[if depth < 28 { depth as int } else { 28 }] == spec_alpha_soft_depth_darken(depth),
{
    let i = if depth < 24 { depth as int } else { 24 };
    let j = if depth < 28 { depth as int } else { 28 };
    assert(water_dark_table()[i] == spec_alpha_water_dark(depth)) by {
        if i < 2 {} else if i < 4 {} else if i < 7 {} else if i < 13 {} else if i < 24 {} else {}
    }
    assert(soft_depth_darken_table()[j] == spec_alpha_soft_depth_darken(depth)) by {
        if j < 3 {} else if j < 8 {} else if j < 16 {} else if j < 24 {} else if j < 28 {} else {}
    }
}

} // verus!
