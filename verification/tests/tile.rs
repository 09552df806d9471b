use mca_viewer_rs::region::Region;
use mca_viewer_rs::tile::{
    box_dist, visible_region_order, RenderMode, RenderOptions, TileSpacePos, TileSpaceRectangle, View,
};
use std::path::PathBuf;

#[test]
fn rectangles_and_views() {
    let a = TileSpaceRectangle::new(-2..=3, 0..=4);
    let b = TileSpaceRectangle::new(-2..=3, 0..=4);
    let c = TileSpaceRectangle::new(-2..=3, 0..=5);
    assert!(a.eq(&b));
    assert!(!a.eq(&c));
    assert!(a.contains(TileSpacePos { x: -2, z: 4 }));
    assert!(!a.contains(TileSpacePos { x: 4, z: 4 }));
    assert_eq!(a.center(), TileSpacePos { x: 0, z: 2 });
    assert_eq!(TileSpaceRectangle::new(-5..=0, -3..=-1).center(), TileSpacePos { x: -2, z: -2 });

    let v = View::new(a, c);
    assert!(v.keep(3, 5));
    assert!(!v.keep(3, 6));
    assert!(v.eq(&View::new(b, c)));
    assert!(!v.eq(&View::new(c, c)));
    let mut w = View::empty();
    assert!(!w.overflow());
    w.set_overflow();
    assert!(w.overflow());
}

#[test]
fn default_options() {
    let o = RenderOptions::default();
    assert_eq!(o.mode, RenderMode::Normal);
    assert!(o.depth_darken);
    assert!(!o.with_block_map);
    assert_ne!(RenderMode::Slice(64), RenderMode::Normal);
}

#[test]
fn nearest_visible_region_comes_last() {
    let regions: Vec<Region> = [(0, 0), (5, 5), (1, 0), (-1, 0), (9, 9), (0, -2)]
        .iter()
        .map(|&(x, z)| Region::new(x, z, PathBuf::from("r")))
        .collect();
    let vis = TileSpaceRectangle::new(-2..=2, -2..=2);
    let order = visible_region_order(&regions, &vis);
    assert_eq!(order, vec![5, 2, 3, 0]);
    assert_eq!(box_dist(&regions[4], TileSpacePos { x: 0, z: 0 }), 9);
    assert_eq!(box_dist(&regions[5], TileSpacePos { x: 1, z: 0 }), 2);
}

use mca_viewer_rs::tile::TileScheduler;

fn regions() -> Vec<Region> {
    [(0, 0), (1, 0), (5, 5), (-1, -1)]
        .iter()
        .map(|&(x, z)| Region::new(x, z, PathBuf::from("r")))
        .collect()
}

#[test]
fn scheduler_hands_out_each_tile_once() {
    let mut s = TileScheduler::new();
    s.handle_view_update(View::new(
        TileSpaceRectangle::new(-2..=2, -2..=2),
        TileSpaceRectangle::new(-3..=3, -3..=3),
    ));
    s.handle_regions_update(regions());
    let mut got = Vec::new();
    while let Some(i) = s.next_task() {
        got.push(i);
    }
    assert_eq!(got, vec![0, 3, 1]);
    // the same view again: everything is cached
    s.handle_view_update(View::new(
        TileSpaceRectangle::new(-2..=2, -2..=2),
        TileSpaceRectangle::new(-3..=3, -3..=3),
    ));
    assert_eq!(s.next_task(), None);
    // a view that keeps only tiles with x >= 0
    s.handle_view_update(View::new(
        TileSpaceRectangle::new(-2..=2, -2..=2),
        TileSpaceRectangle::new(0..=3, -3..=3),
    ));
    assert_eq!(s.next_task(), Some(3));
    assert_eq!(s.next_task(), None);
    assert_eq!(s.target(3).x, -1);
}

#[test]
fn scheduler_options_and_overflow() {
    let mut s = TileScheduler::new();
    s.handle_regions_update(regions());
    let mut v = View::new(TileSpaceRectangle::new(-2..=2, -2..=2), TileSpaceRectangle::new(-3..=3, -3..=3));
    s.handle_view_update(v);
    while s.next_task().is_some() {}
    assert!(!s.handle_options_update(RenderOptions::default()));
    assert_eq!(s.next_task(), None);
    let mut o = RenderOptions::default();
    o.mode = RenderMode::Slice(64);
    assert!(s.handle_options_update(o));
    assert_eq!(s.opt(), o);
    assert_eq!(s.next_task(), Some(0));
    while s.next_task().is_some() {}
    v.set_overflow();
    s.handle_view_update(v);
    assert_eq!(s.next_task(), Some(0));
}
