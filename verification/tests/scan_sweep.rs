use cursor_chat_cleanup::fx::NameSet;
use cursor_chat_cleanup::headers::{live_set, load_union, HeaderRow};
use cursor_chat_cleanup::patch::{apply_patch, ScanPatch};
use cursor_chat_cleanup::progress::Progress;
use cursor_chat_cleanup::scan::{
    attribute, scan_keys, Attribution, KvRow, Prefix, ScanResult, Scanner, PREFIXES,
};
use cursor_chat_cleanup::steps::{batches, Step};
use cursor_chat_cleanup::sweep::{apply, apply_keys, is_main, plan, Planner, SweepPlan};
use cursor_chat_cleanup::types::LiveSet;

fn row(key: &str, length: i64, is_null: bool) -> KvRow {
    KvRow { key: Some(key.as_bytes().to_vec()), length, is_null }
}

fn header(id: &str, name: &str) -> HeaderRow {
    HeaderRow {
        composer_id: id.into(),
        workspace_id: None,
        created_at: Some(1000),
        last_updated_at: None,
        is_archived: None,
        is_subagent: None,
        recency: Some(1000),
        value: Some(format!(r#"{{"composerId":"{id}","name":"{name}"}}"#)),
    }
}

fn fixture() -> Vec<KvRow> {
    vec![
        // alive: kept
        row("composerData:live1", 5, false),
        row("bubbleId:live2:b1", 4, false),
        // orphans: deleted
        row("composerData:dead1", 9, false),
        row("bubbleId:dead1:b1", 2, false),
        row("agentKv:checkpoint:dead1", 4, false),
        row("agentKv:bubbleCheckpoint:dead1:b1", 4, false),
        row("composerVirtualRowHeights:dead1", 2, false),
        // a tombstone of a live session: deleted
        row("composerData:live2", 0, true),
        // a row of another kind without a value: kept
        row("bubbleId:live1:tomb", 0, true),
        // never touched
        row("agentKv:blob:aabbcc", 1, false),
        row("agentKv:artifact:x:/p", 1, false),
        row("composer.composerHeaders.migratedToTable", 1, false),
        row("composer.content.deadbeef", 12, false),
        row("ai_hashes.2026-01-01", 1, false),
    ]
}

fn live() -> LiveSet {
    let legacy =
        br#"{"allComposers":[{"type":"head","composerId":"live2","createdAt":2000}]}"#.to_vec();
    let sessions = load_union(vec![header("live1", "a")], Some(&legacy)).unwrap();
    live_set(&sessions).unwrap()
}

fn scan(live: &LiveSet, rows: &[KvRow], deep: bool, collect: bool) -> ScanResult {
    let mut s = Scanner::new(live, deep, collect);
    assert!(s.fits(rows));
    scan_keys(&mut s, rows, &mut Progress::new()).unwrap();
    s.finish()
}

fn sweep_plan(live: &LiveSet, rows: &[KvRow], with_bytes: bool) -> SweepPlan {
    let mut p = Planner::new(live, with_bytes);
    assert!(p.fits(rows));
    p.read(rows, &mut Progress::new()).unwrap();
    let tombs = rows
        .iter()
        .filter(|r| r.is_null)
        .map(|r| String::from_utf8(r.key.clone().unwrap()).unwrap())
        .filter(|k| k.starts_with("composerData:"))
        .collect();
    plan(p, tombs, Vec::new())
}

#[test]
fn cancelled_scan_exits_early() {
    let rows: Vec<KvRow> =
        (0..5_000).map(|i| row(&format!("bubbleId:orphan-{:08}:b", i), 1, false)).collect();
    let live = LiveSet::default();
    let mut p = Progress::new();
    p.cancel();
    let mut s = Scanner::new(&live, false, false);
    let err = scan_keys(&mut s, &rows, &mut p).unwrap_err();
    assert_eq!(err.message(), "操作已取消", "应以 Cancelled 退出");
    assert!(p.fraction().0 < 5_000);
}

#[test]
fn keys_are_attributed() {
    assert_eq!(attribute("composerData:a:b"), Attribution::Owned(Prefix::ComposerData, "a:b"));
    assert_eq!(attribute("bubbleId:a:b"), Attribution::Owned(Prefix::BubbleId, "a"));
    assert_eq!(attribute("checkpointId:a:b"), Attribution::Owned(Prefix::CheckpointId, "a"));
    assert_eq!(attribute("codeBlockDiff:a:b"), Attribution::Owned(Prefix::CodeBlockDiff, "a"));
    assert_eq!(
        attribute("codeBlockPartialInlineDiffFates:a:b"),
        Attribution::Owned(Prefix::CodeBlockPartialInlineDiffFates, "a")
    );
    assert_eq!(attribute("ofsContent:a"), Attribution::Owned(Prefix::OfsContent, "a"));
    assert_eq!(
        attribute("composerVirtualRowHeights:a"),
        Attribution::Owned(Prefix::ComposerVirtualRowHeights, "a")
    );
    assert_eq!(attribute("agentKv:blob:ff"), Attribution::Blob);
    assert_eq!(attribute("agentKv:checkpoint:a:b"), Attribution::Owned(Prefix::AgentCheckpoint, "a:b"));
    assert_eq!(
        attribute("agentKv:bubbleCheckpoint:a:b"),
        Attribution::Owned(Prefix::AgentBubbleCheckpoint, "a")
    );
    assert_eq!(attribute("agentKv:artifact:x"), Attribution::Other);
    assert_eq!(attribute("composer.content.ff"), Attribution::Content);
    assert_eq!(attribute("ai_hashes"), Attribution::Other);
}

#[test]
fn scan_counts_live_tombstones() {
    let live = live();
    let rows = fixture();
    let fast = scan(&live, &rows, false, true);
    assert_eq!(fast.live_tombstone_rows, 1, "composerData:live2 的 NULL 墓碑");
    assert_eq!(fast.orphan_composers.len(), 1);

    // the keys that a scan collects are those of a plan
    let plan_fast = sweep_plan(&live, &rows, false);
    let mut from_scan = fast.condemned_keys.clone();
    let mut from_plan = plan_fast.keys.clone();
    from_scan.sort();
    from_plan.sort();
    assert_eq!(from_scan, from_plan, "condemned_keys 必须等价于 sweep::plan 的结果");

    // but for the bytes, both ways of scanning say the same
    let deep = scan(&live, &rows, true, true);
    assert!(deep.sized && !fast.sized);
    assert_eq!(deep.total_rows, fast.total_rows);
    assert_eq!(deep.live_tombstone_rows, fast.live_tombstone_rows);
    assert_eq!(deep.orphan_composers, fast.orphan_composers);
    assert_eq!(deep.ghost_headers, fast.ghost_headers);
    let mut deep_condemned = deep.condemned_keys.clone();
    deep_condemned.sort();
    assert_eq!(deep_condemned, from_scan, "两档待删清单必须一致");
    for i in 0..PREFIXES {
        let p = Prefix::at(i);
        assert_eq!(deep.per_prefix.get(p).rows, fast.per_prefix.get(p).rows);
    }

    let plan_deep = sweep_plan(&live, &rows, true);
    let mut deep_keys = plan_deep.keys.clone();
    deep_keys.sort();
    assert_eq!(deep_keys, from_plan, "sweep::plan 两档 key 清单必须一致");
    assert_eq!(plan_deep.tombstone_rows, plan_fast.tombstone_rows);
}

#[test]
fn a_sweep_takes_orphans_and_tombstones_only() {
    let live = live();
    let plan = sweep_plan(&live, &fixture(), true);
    let mut keys = plan.keys.clone();
    keys.sort();
    assert_eq!(
        keys,
        vec![
            "agentKv:bubbleCheckpoint:dead1:b1",
            "agentKv:checkpoint:dead1",
            "bubbleId:dead1:b1",
            "composerData:dead1",
            "composerData:live2",
            "composerVirtualRowHeights:dead1",
        ]
    );
    assert_eq!(plan.tombstone_rows, 1);
    assert_eq!(plan.orphan_composers, 1);
    assert_eq!(plan.total_bytes, 21);
    assert_eq!(apply(&plan, true)[0], Step::BackUpRows);
    assert_eq!(apply(&plan, false)[0], Step::DeleteRows);
    assert_eq!(apply_keys(&[], true), vec![Step::BackUpRows, Step::DeleteRows]);
    assert_eq!(apply_keys(&["d".into()], false)[1], Step::DeleteHeaders);
}

#[test]
fn the_figures_of_a_scan() {
    let live = live();
    let mut rows = fixture();
    rows.push(KvRow { key: None, length: 3, is_null: false });
    rows.push(KvRow { key: Some(vec![0xff]), length: -1, is_null: false });
    let s = scan(&live, &rows, true, false);
    assert_eq!(s.total_rows, 16);
    assert_eq!(s.orphan_composers, vec!["dead1"]);
    assert_eq!(s.per_composer.get("dead1").unwrap().rows, 5);
    assert_eq!(s.per_composer.get("dead1").unwrap().bytes, 21);
    assert_eq!(s.per_prefix.get(Prefix::ComposerData).rows, 3);
    assert_eq!(s.per_prefix.get(Prefix::ComposerData).orphan_rows, 1);
    assert_eq!(s.blob.rows, 1);
    assert_eq!(s.content.bytes, 12);
    assert_eq!(s.other.rows, 5);
    assert_eq!(s.other.bytes, 6);
    assert_eq!(s.ghost_headers, 0);
    assert!(s.condemned_keys.is_empty());
}

#[test]
fn nothing_to_sweep_takes_no_steps() {
    let live = live();
    let plan = sweep_plan(&live, &[row("composerData:live1", 5, false)], true);
    assert!(apply(&plan, true).is_empty());
    assert!(is_main("/a", "/a"));
    assert!(!is_main("/a", "/b"));
}

#[test]
fn keys_go_in_batches() {
    assert!(batches(0).is_empty());
    assert_eq!(batches(5000), vec![(0, 5000)]);
    assert_eq!(batches(12001), vec![(0, 5000), (5000, 10000), (10000, 12001)]);
}

fn keys_without(rows: Vec<KvRow>, gone: &dyn Fn(&str) -> bool) -> Vec<KvRow> {
    rows.into_iter()
        .filter(|r| !gone(std::str::from_utf8(r.key.as_ref().unwrap()).unwrap()))
        .collect()
}

fn assert_counts_agree(a: &ScanResult, b: &ScanResult, owners: &[&str]) {
    assert_eq!(a.total_rows, b.total_rows);
    for i in 0..PREFIXES {
        let p = Prefix::at(i);
        assert_eq!(a.per_prefix.get(p).rows, b.per_prefix.get(p).rows);
        assert_eq!(a.per_prefix.get(p).bytes, b.per_prefix.get(p).bytes);
    }
    for c in owners {
        let rows = |s: &ScanResult| s.per_composer.get(c).map_or(0, |x| x.rows);
        assert_eq!(rows(a), rows(b));
    }
}

/// After an operation the patched figures are those of another scan.
#[test]
fn patched_figures_are_those_of_a_scan() {
    let live = live();
    let mut selected = NameSet::new();
    let owners = ["live1", "live2", "dead1"];

    let mut s = scan(&live, &fixture(), true, true);
    apply_patch(&mut s, &mut selected, &ScanPatch::RemoveComposers(vec!["live1".into()]));
    let left = keys_without(fixture(), &|k| k.contains("live1"));
    assert_counts_agree(&s, &scan(&live, &left, true, true), &owners);

    let mut rows = fixture();
    rows.push(row("checkpointId:live1:c", 8, false));
    rows.push(row("ofsContent:live1:f", 9, false));
    let mut s = scan(&live, &rows, true, true);
    apply_patch(&mut s, &mut selected, &ScanPatch::TrimPrefixes(vec!["live1".into()]));
    assert_counts_agree(&s, &scan(&live, &fixture(), true, true), &owners);

    let mut s = scan(&live, &fixture(), true, true);
    apply_patch(&mut s, &mut selected, &ScanPatch::SweepOrphans);
    let left = keys_without(fixture(), &|k| k.contains("dead1"));
    assert_counts_agree(&s, &scan(&live, &left, true, true), &owners);
    assert!(s.orphan_composers.is_empty());
}

/// The rows as a quick reading meets them: in the order of the keys, without lengths.
fn by_index(rows: &[KvRow]) -> Vec<KvRow> {
    let mut out: Vec<KvRow> =
        rows.iter().map(|r| KvRow { key: r.key.clone(), length: 0, is_null: r.is_null }).collect();
    out.sort_by(|a, b| a.key.cmp(&b.key));
    out
}

#[test]
fn quick_and_deep_scans_differ_in_bytes_alone() {
    let live = live();
    let rows = fixture();
    let deep = scan(&live, &rows, true, true);
    let quick = scan(&live, &by_index(&rows), false, true);
    assert_eq!(quick.total_rows, 14);
    assert_eq!(quick.total_rows, deep.total_rows);
    assert_eq!(quick.live_tombstone_rows, deep.live_tombstone_rows);
    assert_eq!(quick.ghost_headers, deep.ghost_headers);
    assert_eq!(quick.orphan_composers, deep.orphan_composers);
    assert_ne!(quick.condemned_keys, deep.condemned_keys);
    let sorted = |keys: &[String]| {
        let mut k = keys.to_vec();
        k.sort();
        k
    };
    assert_eq!(sorted(&quick.condemned_keys), sorted(&deep.condemned_keys));
    for i in 0..PREFIXES {
        let p = Prefix::at(i);
        assert_eq!(quick.per_prefix.get(p).rows, deep.per_prefix.get(p).rows);
        assert_eq!(quick.per_prefix.get(p).orphan_rows, deep.per_prefix.get(p).orphan_rows);
        assert_eq!(quick.per_prefix.get(p).bytes, 0);
        assert_eq!(quick.per_prefix.get(p).orphan_bytes, 0);
    }
    for c in ["live1", "live2", "dead1"] {
        let (q, d) = (quick.per_composer.get(c).unwrap(), deep.per_composer.get(c).unwrap());
        assert_eq!(q.rows, d.rows);
        assert_eq!(q.bytes, 0);
    }
    assert_eq!(deep.per_composer.get("dead1").unwrap().bytes, 21);
    assert_eq!((quick.blob.rows, quick.content.rows, quick.other.rows), (1, 1, 3));
    assert_eq!((quick.blob.bytes, quick.content.bytes, quick.other.bytes), (0, 0, 0));
}

#[test]
fn quick_and_full_plans_name_the_same_rows_once() {
    let live = live();
    let rows = fixture();
    let full = sweep_plan(&live, &rows, true);
    let quick = sweep_plan(&live, &by_index(&rows), false);
    let mut keys = quick.keys.clone();
    keys.sort();
    assert_eq!(
        keys,
        vec![
            "agentKv:bubbleCheckpoint:dead1:b1",
            "agentKv:checkpoint:dead1",
            "bubbleId:dead1:b1",
            "composerData:dead1",
            "composerData:live2",
            "composerVirtualRowHeights:dead1",
        ]
    );
    let mut from_full = full.keys.clone();
    from_full.sort();
    assert_eq!(keys, from_full);
    assert_eq!((quick.tombstone_rows, full.tombstone_rows), (1, 1));
    assert_eq!((quick.orphan_composers, full.orphan_composers), (1, 1));
    assert_eq!((quick.total_bytes, full.total_bytes), (0, 21));
}
