use cursor_chat_cleanup::headers::{live_or_refuse, live_set, SessionHeader};
use cursor_chat_cleanup::lineage::{Attach, Lineage};

fn session(id: &str, parent: Option<&str>, is_subagent: bool) -> SessionHeader {
    SessionHeader {
        composer_id: id.into(),
        name: None,
        created_at: None,
        last_updated_at: None,
        recency: 0,
        is_archived: false,
        is_subagent,
        is_best_of_n: false,
        workspace_id: None,
        workspace_folder: None,
        parent_composer_id: parent.map(str::to_owned),
        sub_composer_ids: Vec::new(),
        in_header_table: true,
        in_legacy_blob: false,
    }
}

#[test]
fn main_attached_and_descendants() {
    // main <- sub1 <- sub2; main2 has no children
    let sessions = vec![
        session("main", None, false),
        session("sub1", Some("main"), true),
        session("sub2", Some("sub1"), true),
        session("main2", None, false),
    ];
    let l = Lineage::build(&sessions);
    assert_eq!(l.attach("main"), Attach::Main);
    assert_eq!(l.attach("sub1"), Attach::Attached);
    assert_eq!(l.attach("sub2"), Attach::Attached, "子代理的子代理仍挂靠,不是主代理");
    assert_eq!(l.attach("main2"), Attach::Main);
    assert_eq!(l.descendants_of("main"), vec!["sub1", "sub2"]);
    assert!(l.descendants_of("main2").is_empty());
    assert!(l.dangling_ids().is_empty());
}

#[test]
fn dangling_chain_and_conservative_edges() {
    let sessions = vec![
        // true subagents whose chain of parents is broken
        session("d1", Some("ghost"), true),
        session("d2", Some("d1"), true),
        // not a true subagent: kept
        session("bn", Some("d1"), false),
        // a subagent of which no parent is known: kept
        session("task-old", None, true),
        // below one that is kept: attached
        session("sub", Some("task-old"), true),
    ];
    let l = Lineage::build(&sessions);
    assert_eq!(l.attach("d1"), Attach::Dangling);
    assert_eq!(l.attach("d2"), Attach::Dangling);
    assert_eq!(l.attach("bn"), Attach::Unattributable);
    assert_eq!(l.attach("task-old"), Attach::Unattributable);
    assert_eq!(l.attach("sub"), Attach::Attached);
    assert_eq!(l.dangling_ids(), vec!["d1", "d2"]);
}

#[test]
fn cycle_is_kept_conservatively() {
    let sessions = vec![
        session("a", Some("b"), true),
        session("b", Some("a"), true),
        session("c", Some("a"), true), // below the cycle
    ];
    let l = Lineage::build(&sessions);
    assert_eq!(l.attach("a"), Attach::Unattributable);
    assert_eq!(l.attach("b"), Attach::Unattributable);
    assert_eq!(l.attach("c"), Attach::Attached);
    assert!(l.dangling_ids().is_empty());
}

#[test]
fn best_of_n_links_via_parent_side() {
    // the parent lists its children, which do not name it
    let mut parent = session("main", None, false);
    parent.sub_composer_ids = vec!["bn1".into(), "bn2".into(), "missing".into()];
    let mut bn1 = session("bn1", None, false);
    bn1.is_best_of_n = true;
    let mut bn2 = session("bn2", None, false);
    bn2.is_best_of_n = true;
    let sessions = vec![parent, bn1, bn2];
    let l = Lineage::build(&sessions);
    assert_eq!(l.attach("bn1"), Attach::Attached);
    assert_eq!(l.attach("bn2"), Attach::Attached);
    assert_eq!(l.children_of("main"), ["bn1", "bn2"], "不存在的子 id 不进 children");
    assert_eq!(l.descendants_of("main"), vec!["bn1", "bn2"]);
}

#[test]
fn live_set_excludes_dangling() {
    let sessions = vec![
        session("main", None, false),
        session("sub", Some("main"), true),
        session("dangling", Some("ghost"), true),
    ];
    let live = live_set(&sessions).unwrap();
    assert!(live.contains("main"));
    assert!(live.contains("sub"));
    assert!(!live.contains("dangling"), "孤儿子代理不算存活");
}

#[test]
fn descendants_come_level_by_level() {
    let sessions = vec![
        session("r", None, false),
        session("b", Some("r"), true),
        session("a", Some("r"), true),
        session("a2", Some("a"), true),
        session("b1", Some("b"), true),
    ];
    let l = Lineage::build(&sessions);
    assert_eq!(l.descendants_of("r"), vec!["a", "b", "a2", "b1"]);
    assert_eq!(l.children_of("r"), ["a", "b"]);
    assert!(l.children_of("nobody").is_empty());
    assert_eq!(l.attach("nobody"), Attach::Main);
    assert!(!l.is_dangling("nobody"));
}

#[test]
fn one_bad_id_refuses_the_live_set() {
    let sessions = vec![session("ok", None, false), session("no:good", None, false)];
    let e = live_set(&sessions).unwrap_err();
    assert!(e.message().contains("\"no:good\""));
    assert!(e.render().starts_with("headers 里出现非法 composerId"));
}

#[test]
fn an_empty_live_set_is_refused() {
    let e = live_or_refuse(&[], "清扫").unwrap_err();
    assert_eq!(e.message(), "存活会话集合为空,拒绝清扫(库不对或已损坏?)");
    assert!(live_or_refuse(&[session("main", None, false)], "清扫").unwrap().contains("main"));
}
