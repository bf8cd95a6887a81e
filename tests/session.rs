use filtile::session::{Session, TagLog};
use filtile::tile::TileType;

#[test]
fn it_logs_single_tags() {
    let mut log = TagLog::new();

    log.record_tags(512);
    log.record_tags(14);
    log.record_tags(12);

    assert_eq!(Some(512), log.last_tag);
}

#[test]
fn tag_log_accepts_zero_and_low_bits_only() {
    let mut log = TagLog::new();
    assert_eq!(log.last_tag, None);
    log.record_tags(0);
    assert_eq!(log.last_tag, Some(0));
    log.record_tags(1 << 30);
    assert_eq!(log.last_tag, Some(1 << 30));
    log.record_tags(1 << 31);
    assert_eq!(log.last_tag, Some(1 << 30));
    log.record_tags(1);
    assert_eq!(log.last_tag, Some(1));
}

#[test]
fn user_commands_chain_and_scope() {
    let mut session = Session::new();
    assert!(session.user_cmd("outer-padding +3, view-padding 10", Some(4), "all"));
    assert_eq!(session.tag_log.last_tag, Some(4));
    let c = session.configs.build(Some(4), Some("HD-1"));
    assert_eq!(c.outer, 9);
    assert_eq!(c.inner, 10);
    // another tag is untouched
    assert_eq!(session.configs.build(Some(8), Some("HD-1")).outer, 6);

    assert!(session.user_cmd("-main-location right -main-ratio 0.6", None, "HD-1"));
    let c = session.configs.build(Some(4), Some("HD-1"));
    assert_eq!(c.tile, TileType::Right);
    assert_eq!(c.ratio, 60);
    assert_eq!(session.configs.build(Some(4), Some("DP-1")).tile, TileType::Left);

    assert!(session.user_cmd("flip --tags 8 --output DP-1", None, "HD-1"));
    assert_eq!(session.configs.build(Some(8), Some("DP-1")).tile, TileType::Right);
    assert_eq!(session.configs.build(Some(4), Some("DP-1")).tile, TileType::Left);
}

#[test]
fn session_lays_out_with_the_last_single_tag() {
    let mut session = Session::new();
    assert!(session.user_cmd("monocle", Some(2), "all"));
    let plan = session.generate_layout(3, 1000, 600, 2, "HD-1").unwrap();
    assert_eq!(plan.name, "M");
    assert_eq!(plan.views.len(), 3);
    for r in &plan.views {
        assert_eq!((r.x, r.y, r.width, r.height), (12, 12, 976, 576));
    }
    // a combination of tags keeps the last single tag
    let plan = session.generate_layout(2, 1000, 600, 6, "HD-1").unwrap();
    assert_eq!(plan.name, "M");
    let plan = session.generate_layout(2, 1000, 600, 1, "HD-1").unwrap();
    assert_eq!(plan.name, "\u{2190}");
}

#[test]
fn unknown_commands_are_reported_and_the_rest_still_run() {
    let mut session = Session::new();
    assert!(!session.user_cmd("dance, flip", Some(1), "all"));
    assert_eq!(session.configs.build(Some(1), None).tile, TileType::Right);
    assert_eq!(session.configs.len(), 1);
}

#[test]
fn chained_commands_inherit_tags_and_output() {
    let mut session = Session::new();
    session.tag_log.record_tags(4);
    assert!(session.user_cmd("flip --tags 8 --output DP-1, pad on", None, "HD-1"));
    let scoped = session.configs.build(Some(8), Some("DP-1"));
    assert_eq!(scoped.tile, TileType::Right);
    assert!(scoped.pad);
    assert!(!session.configs.build(Some(4), Some("DP-1")).pad);
    assert!(!session.configs.build(Some(4), Some("HD-1")).pad);
    assert_eq!(session.tag_log.last_tag, Some(4));
}
