use filtile::config::{Config, ConfigStorage};
use filtile::tile::TileType;

#[test]
fn it_applies_configs() {
    let mut storage = ConfigStorage::new();

    // apply a new default
    let mut c = storage.build(None, None);
    c.inner = 32;
    c.tile = TileType::Top;
    storage.apply(None, None, &c);

    assert_eq!(storage.build(None, None).inner, 32);
    assert_eq!(storage.build(None, None).tile, TileType::Top);

    assert_eq!(storage.build(Some(32), Some("HD-1")).inner, 32);
    assert_eq!(storage.build(Some(32), Some("HD-1")).tile, TileType::Top);

    // now a single tag
    let mut c = storage.build(Some(32), None);
    c.inner = 16;
    storage.apply(Some(32), None, &c);

    assert_eq!(storage.build(Some(32), Some("HD-1")).inner, 16);
    assert_eq!(storage.build(Some(32), None).inner, 16);

    // now a single monitor
    let mut c = storage.build(None, Some("HD-1"));
    c.inner = 8;
    storage.apply(None, Some("HD-1"), &c);

    assert_eq!(storage.build(Some(32), Some("HD-1")).inner, 8);
    assert_eq!(storage.build(None, Some("HD-1")).inner, 8);

    // finally, override everything we monitor-tag combination
    let mut c = storage.build(Some(32), Some("HD-1"));
    c.inner = 4;
    storage.apply(Some(32), Some("HD-1"), &c);

    assert_eq!(storage.build(Some(32), Some("HD-1")).inner, 4);
    assert_eq!(storage.build(Some(4), Some("HD-1")).inner, 8);
}

fn set_with(storage: &mut ConfigStorage, tags: Option<u32>, output: Option<&str>, f: impl Fn(&mut Config)) {
    let mut c = storage.build(tags, output);
    f(&mut c);
    storage.apply(tags, output, &c);
}

#[test]
fn defaults_hold_without_overrides() {
    let storage = ConfigStorage::new();
    let c = storage.build(Some(3), Some("DP-2"));
    assert_eq!(c.inner, 6);
    assert_eq!(c.outer, 6);
    assert_eq!(c.ratio, 55);
    assert_eq!(c.main, 1);
    assert_eq!(c.tile, TileType::Left);
    assert!(!c.pad);
    assert!(!c.monocle);
    assert_eq!(c.smart_h, None);
    assert_eq!(c.smart_v, None);
    assert_eq!(storage.len(), 0);
}

#[test]
fn later_entries_win_regardless_of_scope() {
    let mut storage = ConfigStorage::new();
    set_with(&mut storage, None, Some("HD-1"), |c| c.pad = true);
    set_with(&mut storage, Some(1), Some("HD-1"), |c| c.ratio = 80);
    set_with(&mut storage, Some(1), Some("HD-1"), |c| c.tile = TileType::Right);

    let other = storage.build(Some(32), Some("HD-1"));
    assert!(other.pad);
    assert_eq!(other.ratio, 55);
    assert_eq!(other.tile, TileType::Left);

    let one = storage.build(Some(1), Some("HD-1"));
    assert!(one.pad);
    assert_eq!(one.ratio, 80);
    assert_eq!(one.tile, TileType::Right);
}

#[test]
fn independent_fields_both_apply() {
    let mut storage = ConfigStorage::new();
    set_with(&mut storage, Some(32), Some("HD-1"), |c| c.ratio = 9);
    set_with(&mut storage, Some(32), None, |c| c.inner = 42);
    let c = storage.build(Some(32), Some("HD-1"));
    assert_eq!(c.ratio, 9);
    assert_eq!(c.inner, 42);
}

#[test]
fn wildcard_written_later_shadows_specific() {
    let mut storage = ConfigStorage::new();
    set_with(&mut storage, Some(2), Some("HD-1"), |c| c.outer = 20);
    set_with(&mut storage, None, None, |c| c.outer = 3);
    assert_eq!(storage.build(Some(2), Some("HD-1")).outer, 3);
}

#[test]
fn build_twice_gives_the_same() {
    let mut storage = ConfigStorage::new();
    set_with(&mut storage, Some(4), None, |c| {
        c.main = 3;
        c.smart_h = Some(10);
    });
    let a = storage.build(Some(4), Some("X"));
    let b = storage.build(Some(4), Some("X"));
    assert_eq!(a, b);
    assert_eq!(a.main, 3);
    assert_eq!(a.smart_h, Some(10));
}

#[test]
fn applying_the_resolved_config_adds_nothing() {
    let mut storage = ConfigStorage::new();
    set_with(&mut storage, Some(4), Some("X"), |c| c.inner = 1);
    set_with(&mut storage, None, None, |c| c.monocle = true);
    let before = storage.len();
    assert_eq!(before, 2);
    let current = storage.build(Some(4), Some("X"));
    storage.apply(Some(4), Some("X"), &current);
    assert_eq!(storage.len(), before);
    assert_eq!(storage.build(Some(4), Some("X")), current);
}

#[test]
fn exact_duplicates_are_compacted() {
    let mut storage = ConfigStorage::new();
    set_with(&mut storage, Some(1), None, |c| c.pad = true);
    set_with(&mut storage, Some(1), None, |c| c.pad = false);
    assert_eq!(storage.len(), 2);
    set_with(&mut storage, Some(1), None, |c| c.pad = true);
    // the first entry is the same as the new one and goes; the `false` one stays, shadowed
    assert_eq!(storage.len(), 2);
    assert!(storage.build(Some(1), None).pad);
    set_with(&mut storage, Some(1), None, |c| c.pad = false);
    assert_eq!(storage.len(), 2);
    assert!(!storage.build(Some(1), None).pad);
}

#[test]
fn outer_padding_increments_up_to_the_limit() {
    let mut storage = ConfigStorage::new();
    assert!(storage.apply_cmd(None, None, "outer-padding +3"));
    assert_eq!(storage.build(None, None).outer, 9);
    assert!(storage.apply_cmd(None, None, "outer-padding +3"));
    assert_eq!(storage.build(None, None).outer, 12);
    assert!(storage.apply_cmd(None, None, "outer-padding +1000"));
    assert_eq!(storage.build(None, None).outer, 1012);
    assert!(storage.apply_cmd(None, None, "outer-padding +20"));
    assert_eq!(storage.build(None, None).outer, 1024);
    assert!(storage.apply_cmd(None, None, "outer-padding +3"));
    assert_eq!(storage.build(None, None).outer, 1024);
}

#[test]
fn flip_toggles_between_left_and_right() {
    let mut storage = ConfigStorage::new();
    assert!(storage.apply_cmd(None, None, "flip"));
    assert_eq!(storage.build(None, None).tile, TileType::Right);
    assert!(storage.apply_cmd(None, None, "flip"));
    assert_eq!(storage.build(None, None).tile, TileType::Left);
    assert!(storage.apply_cmd(None, None, "main-location top"));
    assert!(storage.apply_cmd(None, None, "flip"));
    assert_eq!(storage.build(None, None).tile, TileType::Bottom);
    assert!(storage.apply_cmd(None, None, "flip"));
    assert_eq!(storage.build(None, None).tile, TileType::Top);
}

#[test]
fn commands_set_each_field() {
    let mut storage = ConfigStorage::new();
    assert!(storage.apply_cmd(Some(2), None, "pad on"));
    assert!(storage.apply_cmd(Some(2), None, "monocle"));
    assert!(storage.apply_cmd(Some(2), None, "main-ratio 0.75"));
    assert!(storage.apply_cmd(Some(2), None, "main-count +20"));
    assert!(storage.apply_cmd(Some(2), None, "view-padding -10"));
    assert!(storage.apply_cmd(Some(2), None, "smart-padding +4"));
    assert!(storage.apply_cmd(Some(2), None, "smart-padding-v 2000"));
    let c = storage.build(Some(2), None);
    assert!(c.pad);
    assert!(c.monocle);
    assert_eq!(c.ratio, 75);
    assert_eq!(c.main, 16);
    assert_eq!(c.inner, 0);
    assert_eq!(c.smart_h, Some(10));
    assert_eq!(c.smart_v, Some(1024));
    assert!(storage.apply_cmd(Some(2), None, "smart-padding off"));
    assert!(storage.apply_cmd(Some(2), None, "main-ratio -90"));
    let c = storage.build(Some(2), None);
    assert_eq!(c.smart_h, None);
    assert_eq!(c.smart_v, None);
    assert_eq!(c.ratio, 10);
}

#[test]
fn unknown_commands_change_nothing() {
    let mut storage = ConfigStorage::new();
    assert!(!storage.apply_cmd(None, None, "free-ice-cream for you and me"));
    assert!(!storage.apply_cmd(None, None, "pad maybe"));
    assert!(!storage.apply_cmd(None, None, "dance"));
    assert_eq!(storage.len(), 0);
}

#[test]
fn config_mutators_clamp() {
    let mut c = Config::new();
    c.dec_ratio(100);
    assert_eq!(c.ratio, 10);
    c.inc_ratio(u32::MAX);
    assert_eq!(c.ratio, 90);
    c.set_main(0);
    assert_eq!(c.main, 1);
    c.set_main(99);
    assert_eq!(c.main, 16);
    c.dec_main(3);
    assert_eq!(c.main, 13);
    c.inc_inner(u32::MAX);
    assert_eq!(c.inner, 1024);
    c.set_outer(5000);
    assert_eq!(c.outer, 1024);
    c.dec_smart_v(1);
    // with no smart gap set, the change starts from the sum of the two gaps, kept within range
    assert_eq!(c.smart_v, Some(1024));
    c.set_inner(100);
    c.set_outer(100);
    c.dec_smart_h(50);
    assert_eq!(c.smart_h, Some(150));
    c.set_smart_h(0);
    c.inc_smart_h(1);
    assert_eq!(c.smart_h, Some(1));
}

#[test]
fn smart_padding_commands_stay_within_range() {
    let mut storage = ConfigStorage::new();
    assert!(storage.apply_cmd(None, None, "view-padding 1024"));
    assert!(storage.apply_cmd(None, None, "outer-padding 1024"));
    assert!(storage.apply_cmd(None, None, "smart-padding -1"));
    let c = storage.build(None, None);
    assert_eq!(c.smart_h, Some(1024));
    assert_eq!(c.smart_v, Some(1024));
    assert!(storage.apply_cmd(None, None, "smart-padding-h -2000"));
    assert_eq!(storage.build(None, None).smart_h, Some(0));
}

#[test]
fn out_of_range_fields_come_back_into_range() {
    let mut c = Config::new();
    c.ratio = 5;
    c.inc_ratio(1);
    assert_eq!(c.ratio, 10);
    c.main = 40;
    c.dec_main(1);
    assert_eq!(c.main, 16);
}
