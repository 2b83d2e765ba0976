use std::time::Duration;

use cursor_chat_cleanup::delete::{resolve_targets_cascading, DeleteOutcome, DeletePlan};
use cursor_chat_cleanup::gc::GcPlan;
use cursor_chat_cleanup::headers::{
    header_of_entry, load_header_table, load_legacy_blob, load_union, HeaderRow, SessionHeader,
};
use cursor_chat_cleanup::json::{parse, parse_bytes, render};
use cursor_chat_cleanup::mark::{MarkCounts, MarkStats};
use cursor_chat_cleanup::progress::Progress;
use cursor_chat_cleanup::report::{
    census, delete_plan_lines, gc_plan_lines, report, shrunk_line, sweep_plan_lines,
    trim_plan_lines, PhaseTimes,
};
use cursor_chat_cleanup::scan::{ComposerStat, Prefix, PrefixStat, PrefixTable, ScanResult};
use cursor_chat_cleanup::summary::{
    dangling_note, delete_outcome_summary, delete_summary, shrink_summary, sweep_outcome_summary,
    sweep_summary, sweep_summary_from_scan, target_names, trim_outcome_summary, trim_summary,
};
use cursor_chat_cleanup::sweep::SweepPlan;
use cursor_chat_cleanup::trim::{TrimOutcome, TrimPlan};
use cursor_chat_cleanup::vacuum::{
    choose_strategy, freed_bytes, freelist, shrink_auto, Incremental, Next, Pages, Shrink, Strategy,
};

fn session(id: &str, name: Option<&str>) -> SessionHeader {
    SessionHeader {
        composer_id: id.into(),
        name: name.map(str::to_owned),
        created_at: None,
        last_updated_at: None,
        recency: 0,
        is_archived: false,
        is_subagent: false,
        is_best_of_n: false,
        workspace_id: None,
        workspace_folder: None,
        parent_composer_id: None,
        sub_composer_ids: Vec::new(),
        in_header_table: true,
        in_legacy_blob: false,
    }
}

fn header_row(id: &str, value: Option<&str>) -> HeaderRow {
    HeaderRow {
        composer_id: id.into(),
        workspace_id: None,
        created_at: Some(5),
        last_updated_at: None,
        is_archived: Some(1),
        is_subagent: Some(0),
        recency: None,
        value: value.map(str::to_owned),
    }
}

#[test]
fn headers_come_from_the_table_and_the_document() {
    let v = r#"{"name":"N","subagentInfo":{"parentComposerId":"p"},"subComposerIds":["x"]}"#;
    let t = load_header_table(vec![header_row("a", Some(v)), header_row("b", Some("no json"))]);
    assert_eq!(t[0].name.as_deref(), Some("N"));
    assert!(t[0].is_archived && t[0].in_header_table);
    assert_eq!(t[0].recency, 5);
    let mut r = header_row("a", None);
    r.created_at = Some(1);
    r.last_updated_at = Some(9);
    r.recency = Some(5);
    assert_eq!(load_header_table(vec![r])[0].recency, 9);
    let mut r = header_row("a", None);
    r.created_at = None;
    r.recency = Some(5);
    assert_eq!(load_header_table(vec![r])[0].recency, 0);
    assert_eq!(t[1].name, None);

    let legacy = br#"{"allComposers":[{"type":"head","composerId":"c","createdAt":1,"lastUpdatedAt":9},{"type":"head","composerId":"a","createdAt":2},{"composerId":"d"}]}"#;
    let l = load_legacy_blob(Some(legacy)).unwrap();
    assert_eq!(l[0].composer_id, "c");
    assert!(load_legacy_blob(None).unwrap().is_empty());
    assert!(load_legacy_blob(Some(b"{")).is_err());

    let all = load_union(vec![header_row("a", Some(v))], Some(legacy)).unwrap();
    let ids: Vec<&str> = all.iter().map(|h| h.composer_id.as_str()).collect();
    assert_eq!(ids, vec!["c", "a"]);
    assert!(all[1].in_header_table && all[1].in_legacy_blob);
    assert!(!all[0].in_header_table && all[0].in_legacy_blob);
    assert!(header_of_entry(&parse(r#"{"name":"x"}"#).unwrap()).is_none());
}

#[test]
fn json_goes_both_ways() {
    let j = parse(r#"{"b":[1,2.5,null,true],"a":"x"}"#).unwrap();
    assert_eq!(render(&j).unwrap(), r#"{"a":"x","b":[1,2.5,null,true]}"#);
    assert_eq!(j.get("a").unwrap().as_str(), Some("x"));
    let b = j.get("b").unwrap().as_array().unwrap();
    assert_eq!(b[0].as_i64(), Some(1));
    assert_eq!(b[1].as_i64(), None);
    assert_eq!(b[3].as_bool(), Some(true));
    assert!(parse("{").is_err());
    assert!(parse_bytes(&[0xff]).is_err());
    assert_eq!(parse(r#"{"o":{"t":"y"}}"#).unwrap().inner_text("o", "t").as_deref(), Some("y"));
}

fn table(kinds: &[(Prefix, u64, u64, u64, u64)]) -> PrefixTable {
    let mut t = PrefixTable::new();
    for (p, rows, bytes, orphan_rows, orphan_bytes) in kinds {
        t.set(
            *p,
            PrefixStat {
                rows: *rows,
                bytes: *bytes,
                orphan_rows: *orphan_rows,
                orphan_bytes: *orphan_bytes,
            },
        );
    }
    t
}

#[test]
fn the_report_lists_the_largest_and_the_latest() {
    let mut sessions = vec![session("aaaaaaaa-1", Some("A")), session("bbbbbbbb-2", None)];
    sessions[0].is_archived = true;
    sessions[1].is_archived = true;
    sessions[1].in_header_table = false;
    sessions[1].in_legacy_blob = true;
    let mut scan = ScanResult { total_rows: 20, ghost_headers: 1, sized: true, ..Default::default() };
    scan.per_prefix =
        table(&[(Prefix::BubbleId, 3, 30, 1, 10), (Prefix::ComposerData, 7, 2048, 0, 0)]);
    for i in 0..20u64 {
        let c = ComposerStat { rows: i, bytes: i, per_prefix: PrefixTable::new() };
        scan.per_composer.insert(format!("owner-{i:03}"), c);
    }
    scan.per_composer.insert(
        "aaaaaaaa-1".into(),
        ComposerStat { rows: 9, bytes: 2048, per_prefix: PrefixTable::new() },
    );
    let percents: Vec<String> = (0..9).map(|i| format!("{i}.0")).collect();
    let times = vec!["T1".to_string(), "T2".to_string()];
    let lines = report(&sessions, &scan, true, &percents, &times);
    assert_eq!(lines[1], "  composerHeaders 表:     1");
    assert_eq!(lines[3], "  并集(存活判定):         2");
    assert_eq!(lines[4], "  仅在表里 / 仅在 blob 里: 1 / 1");
    assert_eq!(lines[6], "  疑似墓碑(isArchived=1 且无 name): 1");
    assert_eq!(lines[7], "  幽灵 header(无对应 composerData): 1");
    assert_eq!(lines[8], "\n== 孤儿行统计 == (cursorDiskKV 共 20 行)");
    assert_eq!(
        lines[9],
        "  composerData                                7        0   6.0%     2.0 KiB(孤儿 0 B)"
    );
    assert!(lines[10].starts_with("  bubbleId "));
    assert_eq!(lines[11], "  孤儿 composerId 数: 0");
    assert_eq!(lines[14], "\n== 会话体积 Top 15 ==");
    assert_eq!(lines[15], "     2.0 KiB        9 行  A  aaaaaaaa");
    assert_eq!(lines[16], "        19 B       19 行  *(孤儿)  owner-01");
    assert_eq!(lines[29], "         6 B        6 行  *(孤儿)  owner-00");
    assert_eq!(lines[30], "\n最近 10 个会话:");
    assert_eq!(lines[31], "  T1  [归档] A  aaaaaaaa");
    assert_eq!(lines[32], "  T2  [归档] (未命名)  bbbbbbbb");
    assert_eq!(lines.len(), 33);
    let short = report(&sessions, &scan, false, &percents, &times);
    assert_eq!(short[9], "  composerData                                7        0   6.0%");
    assert_eq!(short.len(), 16);
    let c = census(&sessions);
    assert_eq!((c.in_table, c.in_blob, c.table_only, c.blob_only), (1, 1, 1, 1));
}

fn sweep() -> SweepPlan {
    SweepPlan {
        keys: vec!["bubbleId:o:1".into()],
        per_prefix: table(&[(Prefix::BubbleId, 1, 10, 0, 0)]),
        tombstone_rows: 0,
        total_bytes: 10,
        orphan_composers: 1,
        dangling_sessions: vec!["d".into()],
    }
}

#[test]
fn what_a_sweep_says() {
    let mut p = sweep();
    assert_eq!(
        sweep_summary(&p),
        "将清扫孤儿数据 1 行 / 10 B(涉及 1 个孤儿 composer,墓碑行 0)。\n含 1 个孤儿子代理(父会话已删除),将连 header 一起清除。\n只删界面上不可见的死数据,自动生成可回滚备份。"
    );
    assert_eq!(
        sweep_plan_lines(&p),
        vec![
            "可清扫: 1 行 / 10 B,涉及 1 个孤儿 composer,其中墓碑行 0",
            "  bubbleId                                    1 行        10 B",
        ]
    );
    p.total_bytes = 0;
    assert_eq!(sweep_plan_lines(&p)[0], "可清扫: 1 行,涉及 1 个孤儿 composer,其中墓碑行 0");
    p.keys.clear();
    assert_eq!(sweep_plan_lines(&p), vec!["没有可清扫的孤儿数据。"]);
    assert_eq!(dangling_note(0), "");
    assert_eq!(
        sweep_outcome_summary(3, 2, &Some("/b".into())),
        "已清扫 3 行孤儿数据,连带清除 2 个孤儿子代理 header。备份: /b"
    );
    assert_eq!(sweep_outcome_summary(3, 0, &None), "已清扫 3 行孤儿数据。备份: 无");
    let mut scan = ScanResult { live_tombstone_rows: 2, ..Default::default() };
    scan.per_prefix = table(&[(Prefix::BubbleId, 5, 50, 3, 30)]);
    scan.orphan_composers = vec!["o".into()];
    assert_eq!(
        sweep_summary_from_scan(&scan, 0, true),
        "将清扫孤儿数据 5 行 / 30 B(涉及 1 个孤儿 composer,存活会话墓碑行 2)。\n只删界面上不可见的死数据,自动生成可回滚备份。\n(维护模式: 排他锁保证该清单精确,执行时直接删除,无需重扫)"
    );
}

fn deletion() -> DeletePlan {
    let mut sub = session("subagent-1", None);
    sub.is_subagent = true;
    sub.parent_composer_id = Some("mainmain-1".into());
    sub.in_legacy_blob = true;
    let sessions = vec![session("mainmain-1", Some("M")), sub];
    let targets = resolve_targets_cascading(&sessions, &["mainmain-1".into()]).unwrap();
    DeletePlan {
        targets,
        keys: vec!["k".into()],
        per_prefix: table(&[(Prefix::ComposerData, 1, 5, 0, 0)]),
        total_bytes: 5,
    }
}

#[test]
fn what_a_deletion_says() {
    let p = deletion();
    assert_eq!(
        delete_summary(&p),
        "将删除 2 个会话(含连带子代理 1 个),共 1 行 / 5 B:\n  mainmain  M\n  └ 连带 subagent  (未命名)\n同步四处存储,自动生成可回滚备份。"
    );
    assert_eq!(
        delete_plan_lines(&p),
        vec![
            "目标会话:",
            "  mainmain  M  [表]",
            "  subagent  (未命名)  [表+旧blob]",
            "将删除 cursorDiskKV 1 行 / 5 B:",
            "  composerData                                1 行         5 B",
        ]
    );
    assert_eq!(target_names(&p.targets), vec!["mainmain-1", "subagent-1"]);
    let o = DeleteOutcome {
        plan: p,
        deleted_rows: 1,
        deleted_header_rows: 2,
        legacy_blob_edited: true,
        workspaces_edited: vec!["/w".into()],
        backup_path: Some("/b".into()),
    };
    assert_eq!(
        delete_outcome_summary(&o),
        "已删除 2 个会话(1 行,workspace 库改写 1 个)。备份: /b"
    );
}

#[test]
fn what_trimming_says() {
    let mut p = TrimPlan {
        targets: deletion().targets,
        keys: vec!["k".into()],
        per_prefix: table(&[(Prefix::CheckpointId, 1, 5, 0, 0)]),
        total_bytes: 5,
    };
    assert_eq!(
        trim_summary(&p),
        "将修剪 2 个会话的快照数据,共 1 行 / 5 B(正文保留):\n  checkpointId                           1 行        5 B\n影响仅限\"恢复到检查点\",自动生成可回滚备份。"
    );
    assert_eq!(trim_plan_lines(&p)[3], "将删除快照数据 1 行 / 5 B(正文保留,影响仅限\"恢复到检查点\"):");
    p.keys.clear();
    assert_eq!(trim_plan_lines(&p)[3], "没有可修剪的数据。");
    let o = TrimOutcome {
        plan: p,
        deleted_rows: 1,
        backup_path: None,
        page_size: 0,
        page_count_before: 0,
        page_count_after: 0,
        shrink: None,
    };
    assert_eq!(trim_outcome_summary(&o), "已修剪 1 行 / 5 B。备份: 无");
}

#[test]
fn the_lines_on_a_collection() {
    let p = GcPlan {
        total_blobs: 3,
        total_bytes: 30,
        live_blobs: 2,
        live_bytes: 20,
        orphans: vec!["x".into()],
        orphan_bytes: 10,
        dangling_refs: 4,
        content_total: 1,
        content_bytes: 7,
        content_orphans: vec![],
        content_orphan_bytes: 0,
        stats: MarkStats {
            counts: MarkCounts {
                root_rows: 1,
                root_states: 2,
                root_decode_errors: 3,
                checkpoint_roots: 4,
                cloud_agent_roots: 5,
                missing_blobs: 6,
                expanded_blobs: 7,
            },
            root_phase: Duration::ZERO,
            pointer_phase: Duration::ZERO,
            expand_phase: Duration::ZERO,
        },
        listing_phase: Duration::ZERO,
    };
    let t = PhaseTimes {
        listing: "0.10".into(),
        roots: "0.20".into(),
        pointers: "0.30".into(),
        expansion: "0.40".into(),
    };
    let l = gc_plan_lines(&p, "60.00", &t);
    assert_eq!(l[0], "blob 总量: 3 个 / 30 B");
    assert_eq!(l[3], "composer.content: 1 个 / 7 B,其中孤儿(可回收) 0 个 / 0 B");
    assert_eq!(
        l[4],
        "mark 统计: 根行 1 / 解出 state 2 / 根解码失败 3(60.00%) / checkpoint 根 4 / cloudAgent 根 5 / 展开 blob 7"
    );
    assert_eq!(l[5], "阶段耗时: blob 清单 0.10s | 根解码 0.20s | 指针根 0.30s | 展开 0.40s");
    assert!(l[6].starts_with("注意: 4 个被引用的 blob 已不存在"));
    assert_eq!(l[7], "  (其中展开阶段遇到 6 个缺失 blob)");
}

#[test]
fn the_cheaper_way_to_shrink() {
    let few = Pages { free: 10, count: 100_000, size: 4096, auto_vacuum: 2 };
    assert!(few.check());
    assert_eq!(choose_strategy(&few).0, Strategy::Incremental);
    let many = Pages { free: 50_000, count: 100_000, size: 4096, auto_vacuum: 2 };
    assert_eq!(choose_strategy(&many).0, Strategy::Full);
    let plain = Pages { free: 10, count: 100_000, size: 4096, auto_vacuum: 0 };
    assert_eq!(choose_strategy(&plain), (Strategy::Full, "库未开启 incremental auto_vacuum".into()));
    assert_eq!(freelist(&few), (10, 40960));
    assert_eq!(shrink_auto(&Pages { free: 0, ..few }), None);
    assert_eq!(shrink_auto(&few), Some(Strategy::Incremental));
    assert_eq!(freed_bytes(10, 4, 100), 600);
    assert_eq!(freed_bytes(4, 10, 100), 0);
    assert_eq!(shrink_summary(0, 0, true), "没有空闲页可回收,文件已是紧凑状态。");
    assert!(shrink_summary(3, 2048, true).starts_with("全量 VACUUM: 顺序重建整库,回收空闲 3 页 / 2.0 KiB。\n"));
    assert!(shrink_summary(3, 2048, false).starts_with("增量收缩: 回收空闲 3 页 / 2.0 KiB。\n"));
}

#[test]
fn small_steps_can_be_stopped_and_resumed() {
    let mut p = Progress::new();
    assert_eq!(Incremental::begin(0, 5, &mut p).unwrap_err(), Shrink::Unsupported);
    let mut i = Incremental::begin(2, 5000, &mut p).unwrap();
    assert_eq!(i.next(&p), Next::Batch { checkpoint: false });
    assert_eq!(i.measured(3000, &mut p), None);
    p.cancel();
    assert_eq!(i.next(&p), Next::End(Shrink::Cancelled { done: 2000, remaining: 3000 }));
    let mut p = Progress::new();
    let mut i = Incremental::begin(2, 3000, &mut p).unwrap();
    assert_eq!(i.next(&p), Next::Batch { checkpoint: false });
    assert_eq!(i.measured(0, &mut p), None);
    assert_eq!(i.next(&p), Next::End(Shrink::Done { pages: 3000 }));
    let mut i = Incremental::begin(2, 3000, &mut p).unwrap();
    i.next(&p);
    assert_eq!(i.measured(3000, &mut p), Some(Shrink::Stalled { remaining: 3000 }));
    assert_eq!(Shrink::Skipped.describe(), "没有空闲页,无需收缩");
    assert_eq!(Shrink::Vacuumed { freed_bytes: 2048 }.describe(), "全量 VACUUM 完成,文件缩小 2.0 KiB");
}

#[test]
fn how_shrinking_ended() {
    assert_eq!(shrunk_line(None, 0), "本次未做物理收缩;需要时运行 `vacuum` 子命令。");
    assert_eq!(
        shrunk_line(Some(Shrink::Done { pages: 1 }), 2048),
        "物理收缩完成,文件缩小 2.0 KiB。"
    );
    assert!(shrunk_line(Some(Shrink::Unsupported), 0).contains("vacuum --full"));
    assert_eq!(shrunk_line(Some(Shrink::Skipped), 0), "没有空闲页,无需收缩。");
}
