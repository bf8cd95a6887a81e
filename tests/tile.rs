use filtile::config::Config;
use filtile::layout::{build_tile, generate_layout, layout_name};
use filtile::tile::{
    flip, rotate, AnyTile, Flipped, LeftPrimary, Monocle, Padded, Params, Rect, Rotated, Tile,
    TileType,
};

#[test]
fn it_diminishes() {
    assert_eq!(
        (0..5)
            .map(|i| LeftPrimary::diminish(1000, i, 5))
            .sum::<u32>(),
        1000
    );
}

#[test]
fn diminish_gives_rounded_geometric_shares() {
    let parts: Vec<u32> = (0..5).map(|i| LeftPrimary::diminish(1000, i, 5)).collect();
    assert_eq!(parts, vec![3, 12, 47, 188, 750]);
    assert_eq!(LeftPrimary::diminish(0, 0, 1), 0);
    assert_eq!(LeftPrimary::diminish(7, 0, 1), 7);
    assert_eq!(LeftPrimary::diminish(1, 0, 3), 0);
    assert_eq!(LeftPrimary::diminish(1, 2, 3), 1);
}

#[test]
fn diminish_sums_exactly_for_long_stacks() {
    for total in [16u32, 17, 40, 41, 45, 60] {
        for size in [0u32, 1, 999, 123_456, u32::MAX] {
            let sum: u64 = (0..total).map(|i| LeftPrimary::diminish(size, i, total) as u64).sum();
            assert_eq!(sum, size as u64);
        }
    }
    // far from the last part nothing is left
    assert_eq!(LeftPrimary::diminish(u32::MAX, 0, 60), 0);
    // near the end of a long stack the share depends only on the distance to the end
    assert_eq!(LeftPrimary::diminish(1000, 58, 60), 188);
    assert_eq!(LeftPrimary::diminish(1000, 57, 60), 47);
    assert_eq!(LeftPrimary::diminish(1000, 59, 60), 749);
}

fn rect(tile: &dyn Tile, p: &Params, i: u32) -> (i32, i32, u32, u32) {
    (tile.get_x(p, i), tile.get_y(p, i), tile.get_width(p, i), tile.get_height(p, i))
}

fn params(view_count: u32) -> Params {
    Params { view_count, usable_width: 1000, usable_height: 600 }
}

#[test]
fn left_primary_places_primary_and_stack() {
    let tile = LeftPrimary::new(6, 6, 55, 1, 0);
    let p = params(3);
    assert_eq!(tile.get_main(), 1);
    assert_eq!(rect(&tile, &p, 0), (12, 12, 532, 576));
    assert_eq!(rect(&tile, &p, 1), (556, 12, 432, 282));
    assert_eq!(rect(&tile, &p, 2), (556, 306, 432, 282));
    // a lone window takes the full width
    assert_eq!(rect(&tile, &params(1), 0), (12, 12, 976, 576));
}

#[test]
fn skewed_stack_diminishes_downward() {
    let tile = LeftPrimary::new(0, 0, 50, 1, 50);
    let p = Params { view_count: 3, usable_width: 100, usable_height: 1000 };
    // 1000 over two windows: 500 stolen, 250 each as base, then 400 and 100 of the stolen part
    assert_eq!(tile.get_stack_height(&p, 1), 650);
    assert_eq!(tile.get_stack_height(&p, 2), 350);
    assert_eq!(tile.get_stack_y(&p, 2), 650);
    let up = LeftPrimary::new(0, 0, 50, 1, -50);
    assert_eq!(up.get_stack_height(&p, 1), 350);
    assert_eq!(up.get_stack_height(&p, 2), 650);
}

#[test]
fn degenerate_areas_have_no_rectangles() {
    let tile = LeftPrimary::new(6, 6, 55, 1, 0);
    let p = Params { view_count: 2, usable_width: 1000, usable_height: 20 };
    assert_eq!(tile.primary_rect(&p, 0), None);
    assert_eq!(tile.stack_rect(&p, 1), None);
    assert_eq!(tile.stack_rect(&params(2), 0), None);
    let config = Config::new();
    assert!(generate_layout(&config, 2, 1000, 20).is_none());
}

#[test]
fn flipped_mirrors_horizontally() {
    let tile = Flipped::new(AnyTile::Base(LeftPrimary::new(6, 6, 55, 1, 0)));
    let p = params(3);
    assert_eq!(rect(&tile, &p, 0), (456, 12, 532, 576));
    assert_eq!(rect(&tile, &p, 1), (12, 12, 432, 282));
    assert_eq!(rect(&tile, &p, 2), (12, 306, 432, 282));
}

#[test]
fn rotated_exchanges_axes() {
    let tile = Rotated::new(AnyTile::Base(LeftPrimary::new(6, 6, 55, 1, 0)));
    let p = Params { view_count: 3, usable_width: 600, usable_height: 1000 };
    assert_eq!(rect(&tile, &p, 0), (12, 12, 576, 532));
    assert_eq!(rect(&tile, &p, 1), (12, 556, 282, 432));
    assert_eq!(rect(&tile, &p, 2), (306, 556, 282, 432));
}

#[test]
fn padded_shifts_and_shrinks() {
    let tile = Padded::new(AnyTile::Base(LeftPrimary::new(6, 6, 55, 1, 0)), 100, 50);
    let p = params(1);
    assert_eq!(rect(&tile, &p, 0), (112, 62, 776, 476));
    // a margin that leaves no room keeps the area as it is
    let wide = Padded::new(AnyTile::Base(LeftPrimary::new(6, 6, 55, 1, 0)), 500, 0);
    assert_eq!(rect(&wide, &p, 0), (512, 12, 976, 576));
    // negative margins grow the area
    let grown = Padded::new(AnyTile::Base(LeftPrimary::new(6, 6, 55, 1, 0)), -6, -6);
    assert_eq!(rect(&grown, &p, 0), (6, 6, 988, 588));
}

#[test]
fn monocle_answers_every_window_alike() {
    let tile = Monocle::new(AnyTile::Base(LeftPrimary::new(6, 6, 55, 1, 0)));
    let p = params(4);
    for i in 0..4 {
        assert_eq!(rect(&tile, &p, i), (12, 12, 976, 576));
    }
}

#[test]
fn flip_and_rotate_wrap() {
    let t = flip(AnyTile::Base(LeftPrimary::new(6, 6, 55, 1, 0)));
    assert!(matches!(t, AnyTile::Flipped(_)));
    let t = rotate(t);
    assert!(matches!(t, AnyTile::Rotated(_)));
    assert_eq!(t.get_main(), 1);
    assert_eq!(t.rect(&params(3), 0), Some(Rect { x: 12, y: 276, width: 976, height: 312 }));
}

#[test]
fn assembled_layouts_follow_the_config() {
    let mut config = Config::new();
    let plan = generate_layout(&config, 3, 1000, 600).unwrap();
    assert_eq!(plan.name, "\u{2190}");
    assert_eq!(plan.views[0], Rect { x: 12, y: 12, width: 532, height: 576 });
    assert_eq!(plan.views[2], Rect { x: 556, y: 306, width: 432, height: 282 });

    config.tile = TileType::Right;
    assert_eq!(layout_name(&config), "\u{2192}");
    let plan = generate_layout(&config, 3, 1000, 600).unwrap();
    assert_eq!(plan.views[0], Rect { x: 456, y: 12, width: 532, height: 576 });

    // single-stack centring pads by half the width the stack would have taken
    config.tile = TileType::Left;
    config.pad = true;
    let plan = generate_layout(&config, 1, 1000, 600).unwrap();
    assert_eq!(plan.views[0], Rect { x: 237, y: 12, width: 526, height: 576 });

    // smart gaps replace the usual gaps around a lone window
    config.pad = false;
    config.smart_h = Some(0);
    let plan = generate_layout(&config, 1, 1000, 600).unwrap();
    assert_eq!(plan.views[0], Rect { x: 0, y: 12, width: 1000, height: 576 });

    let params = Params { view_count: 1, usable_width: 1000, usable_height: 600 };
    assert!(build_tile(&config, &params).is_some());
    config.ratio = 150;
    config.pad = true;
    assert!(build_tile(&config, &params).is_none());
}

#[test]
fn centring_monocle_and_smart_gaps_wrap_in_turn() {
    let mut config = Config::new();
    config.monocle = true;
    config.smart_h = Some(20);
    config.smart_v = Some(20);
    let plan = generate_layout(&config, 1, 1000, 600).unwrap();
    assert_eq!(plan.name, "M");
    assert_eq!(plan.views[0], Rect { x: 20, y: 20, width: 960, height: 560 });
    // with several windows the smart gaps stay out, monocle stays in
    let plan = generate_layout(&config, 2, 1000, 600).unwrap();
    assert_eq!(plan.views[1], Rect { x: 12, y: 12, width: 976, height: 576 });

    // centring then smart gaps: 225 on each side, then 8 more
    let mut config = Config::new();
    config.pad = true;
    config.smart_h = Some(20);
    let plan = generate_layout(&config, 1, 1000, 600).unwrap();
    assert_eq!(plan.views[0], Rect { x: 245, y: 12, width: 510, height: 576 });
}
