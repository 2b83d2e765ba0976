use std::time::Duration;

use cursor_chat_cleanup::error::Error;
use cursor_chat_cleanup::gc::{
    apply_plan, content_row, errors_exceed_limit, fits, plan, GcOutcome, GcPlan, Listing,
};
use cursor_chat_cleanup::json::parse;
use cursor_chat_cleanup::mark::{
    blob_content, collect_json_field, decode_conversation_state, decode_root, root_state,
    scan_content_keys, Cell, MarkCounts, MarkOutcome, Marker, RootDecodeError, RootState, RootVerdict,
};
use cursor_chat_cleanup::messages::{
    expand_blob, Attachment, BlobId, ConversationState, FileState, ReadOutput, Readings, Step,
    SummaryArchive, ToolCall, Turn, UserMessage,
};
use cursor_chat_cleanup::patch::{gc_patch, ScanPatch};
use cursor_chat_cleanup::progress::Progress;
use cursor_chat_cleanup::scan::KvRow;
use cursor_chat_cleanup::steps;
use cursor_chat_cleanup::summary::{gc_outcome_summary, gc_summary};
use cursor_chat_cleanup::types::{BlobHex, ComposerId, LiveSet};

fn id(n: u8) -> BlobId {
    BlobId::new(vec![n; 32]).unwrap()
}

fn hexs(n: u8) -> String {
    id(n).hex().as_str().to_owned()
}

fn state() -> ConversationState {
    ConversationState {
        turns: vec![],
        root_prompt_messages_json: vec![],
        todos: vec![],
        summary_archives: vec![],
        summary: None,
        summary_archive: None,
        plan: None,
        file_states: vec![],
        file_states_v2: vec![],
        subagent_state_refs: vec![],
        subagent_states: vec![],
    }
}

fn nothing() -> Readings {
    Readings { state: None, turn: None, step: None, archive: None, message: None }
}

/// What each blob can be read as.
fn readings(n: u8) -> Readings {
    match n {
        1 => Readings {
            turn: Some(Turn::Agent { user_message: id(2), steps: vec![id(3)] }),
            ..nothing()
        },
        3 => Readings {
            step: Some(Step::ToolCall(ToolCall::Read(Some(ReadOutput::ContentBlobId(id(4)))))),
            ..nothing()
        },
        5 => Readings {
            archive: Some(SummaryArchive {
                summarized_messages: vec![id(6)],
                summary_message: id(7),
            }),
            ..nothing()
        },
        9 => Readings {
            state: Some(ConversationState { todos: vec![id(0x0a)], ..state() }),
            ..nothing()
        },
        _ => nothing(),
    }
}

fn live() -> LiveSet {
    LiveSet::from_ids(vec![ComposerId::parse("live1").unwrap()])
}

fn mark(c1: &str, c2: &str) -> MarkOutcome {
    let live = live();
    let mut m = Marker::new();
    let mut p = Progress::new();

    // the roots: a session and a bubble
    let json = br#"{"conversationState":"00"}"#.to_vec();
    let cell = Cell::Text(json.clone());
    let raw = m.root_row(Some(b"composerData:live1"), &cell, &live).unwrap();
    let root = ConversationState { turns: vec![id(1)], summary_archives: vec![id(5)], ..state() };
    let r = decode_root(raw, &RootState::State(root));
    m.take_root(r);
    let json = format!(r#"{{"toolFormerData":{{"beforeContentId":"{c2}"}}}}"#);
    let cell = Cell::Text(json.into_bytes());
    let raw = m.root_row(Some(b"bubbleId:live1:b1"), &cell, &live).unwrap();
    let bubble = ConversationState { todos: vec![id(8)], ..state() };
    let r = decode_root(raw, &RootState::State(bubble));
    m.take_root(r);
    // one of a session that is not alive is not read
    assert!(m.root_row(Some(b"composerData:dead1"), &Cell::Text(vec![b'{']), &live).is_none());

    // a pointer, in capitals
    let up = hexs(9).to_ascii_uppercase().into_bytes();
    m.pointer(Some(b"agentKv:checkpoint:live1"), &Cell::Text(up), &live);

    while let Some(h) = m.head() {
        let n = u8::from_str_radix(&h[..2], 16).unwrap();
        if n == 7 {
            m.missing();
            continue;
        }
        let content = if n == 4 {
            format!("edit result referencing {c1} inline").into_bytes()
        } else {
            vec![n]
        };
        m.expanded(&content, &readings(n), &mut p).unwrap();
    }
    m.finish(Duration::from_secs(1), Duration::from_secs(2), Duration::from_secs(3))
}

fn kv(key: &str, length: i64) -> KvRow {
    KvRow { key: Some(key.as_bytes().to_vec()), length, is_null: false }
}

fn gc_plan() -> (GcPlan, String) {
    let c1 = format!("composer.content.{}", "11".repeat(32));
    let c2 = format!("composer.content.{}", "22".repeat(32));
    let c3 = format!("composer.content.{}", "33".repeat(32));
    let outcome = mark(&c1, &c2);
    let mut listing = Listing::new();
    let mut p = Progress::new();
    for n in [1u8, 2, 3, 4, 5, 6, 8, 9, 0x0a, 0x99] {
        listing.list(&kv(&format!("agentKv:blob:{}", hexs(n)), 10), &mut p).unwrap();
    }
    let contents: Vec<(String, u64)> =
        [&c1, &c2, &c3].iter().map(|c| content_row(&kv(c, 12)).unwrap()).collect();
    assert!(fits(&listing, &contents));
    (plan(listing, contents, outcome, Duration::from_secs(4)), c3)
}

#[test]
fn a_collection_follows_every_reference() {
    let (p, c3) = gc_plan();
    assert_eq!(p.orphans, vec![hexs(0x99)]);
    assert_eq!(p.content_orphans, vec![c3.clone()]);
    assert_eq!((p.total_blobs, p.total_bytes), (10, 100));
    assert_eq!((p.live_blobs, p.live_bytes), (9, 90));
    assert_eq!((p.content_total, p.content_bytes, p.content_orphan_bytes), (3, 36, 12));
    assert_eq!(p.dangling_refs, 1);
    assert_eq!(p.listing_phase, Duration::from_secs(4));
    let c = &p.stats.counts;
    assert_eq!((c.root_rows, c.root_states, c.root_decode_errors), (2, 2, 0));
    assert_eq!((c.checkpoint_roots, c.missing_blobs, c.expanded_blobs), (1, 1, 9));
    let job = apply_plan(&p, true, true, String::new(), String::new()).unwrap();
    assert_eq!(job.keys, vec![format!("agentKv:blob:{}", hexs(0x99)), c3]);
    assert_eq!(job.steps[0], steps::Step::BackUpRows);
}

#[test]
fn too_many_unreadable_roots_stop_a_collection() {
    let (mut p, _) = gc_plan();
    p.stats.counts.root_states = 49;
    p.stats.counts.root_decode_errors = 1;
    assert!(!errors_exceed_limit(&p.stats));
    p.stats.counts.root_states = 48;
    assert!(errors_exceed_limit(&p.stats));
    assert!(matches!(
        apply_plan(&p, true, true, "2.04".into(), "2".into()),
        Err(Error::RootErrorRate { .. })
    ));
    p.stats.counts = MarkCounts { root_states: 0, root_decode_errors: 0, ..p.stats.counts };
    assert!(matches!(
        apply_plan(&p, true, true, String::new(), String::new()),
        Err(Error::NoDecodedRoots)
    ));
}

#[test]
fn states_are_kept_in_two_ways() {
    assert_eq!(decode_conversation_state(None).unwrap(), None);
    assert_eq!(decode_conversation_state(Some("")).unwrap(), None);
    assert_eq!(decode_conversation_state(Some("~")).unwrap(), None);
    assert_eq!(decode_conversation_state(Some("~AQID")).unwrap(), Some(vec![1, 2, 3]));
    assert_eq!(decode_conversation_state(Some("0102")).unwrap(), Some(vec![1, 2]));
    assert!(matches!(decode_conversation_state(Some("~!")), Err(RootDecodeError::Base64(_))));
    assert!(matches!(decode_conversation_state(Some("xyz")), Err(RootDecodeError::Hex)));
}

#[test]
fn contents_are_found_in_bytes() {
    let key = format!("composer.content.{}", "ab".repeat(32));
    let text = format!("x{key}y composer.content.short {key}");
    assert_eq!(scan_content_keys(text.as_bytes()), vec![key.clone(), key.clone()]);
    let text = format!(
        "composer.content.{}ff composer.content.{} composer.content.12",
        "a1".repeat(32),
        "A1".repeat(32)
    );
    assert_eq!(
        scan_content_keys(text.as_bytes()),
        vec![format!("composer.content.{}", "a1".repeat(32))]
    );
    assert!(scan_content_keys(b"composer.content.").is_empty());
    let upper = format!("composer.content.{}", "AB".repeat(32));
    assert!(scan_content_keys(upper.as_bytes()).is_empty());
}

#[test]
fn fields_are_collected_at_any_depth() {
    let j = parse(r#"{"a":{"id":"1"},"b":[{"id":"2"},{"id":3}],"id":"4"}"#).unwrap();
    let mut out = Vec::new();
    collect_json_field(&j, "id", &mut out);
    out.sort();
    assert_eq!(out, vec!["1", "2", "4"]);
    let mut m = Marker::new();
    let cell = Cell::Blob(br#"{"x":{"cloudAgentStateBlobId":"AA"}}"#.to_vec());
    assert!(m.cloud_agent_row(&cell));
    assert_eq!(m.head(), Some("aa"));
    assert!(m.cloud_agent_row(&Cell::Text(b"no json".to_vec())));
}

#[test]
fn every_part_of_a_message_is_followed() {
    let message = UserMessage {
        conversation_state_blob_id: id(1),
        text_blob_id: Some(id(2)),
        rich_text_blob_id: None,
        images: vec![Attachment::BlobId(id(3)), Attachment::Data],
        documents: vec![Attachment::BlobIdWithData(id(4))],
        videos: vec![],
        extra_context: vec![Some(id(5)), None],
        pull_requests: vec![],
        diff_selections: vec![],
        external_links: vec![],
        invocation: Some(id(6)),
    };
    let sub = ConversationState { plan: Some(id(9)), ..state() };
    let st = ConversationState {
        file_states_v2: vec![FileState { content: Some(id(7)), initial_content: Some(id(8)) }],
        subagent_states: vec![sub],
        ..state()
    };
    let r = Readings { state: Some(st), message: Some(message), ..nothing() };
    let mut got: Vec<String> =
        expand_blob(&r).iter().map(|b: &BlobHex| b.as_str()[..2].to_owned()).collect();
    got.sort();
    assert_eq!(got, vec!["01", "02", "03", "04", "05", "06", "07", "08", "09"]);
    let turn = Readings {
        turn: Some(Turn::Shell { shell_command: id(1), shell_output: id(2) }),
        step: Some(Step::ToolCall(ToolCall::Task(Some(vec![Step::ToolCall(
            ToolCall::Truncated { original_step_blob_id: id(3) },
        )])))),
        ..nothing()
    };
    assert_eq!(expand_blob(&turn).len(), 3);
}

#[test]
fn empty_blobs_hold_nothing() {
    assert_eq!(blob_content(Cell::Blob(vec![])), None);
    assert_eq!(blob_content(Cell::Blob(vec![0])), None);
    assert_eq!(blob_content(Cell::Blob(vec![1])), Some(vec![1]));
    assert_eq!(blob_content(Cell::Other), None);
}

#[test]
fn unreadable_roots_are_counted() {
    let live = live();
    let mut m = Marker::new();
    let cell = Cell::Text(vec![b'{']);
    let raw = m.root_row(Some(b"composerData:live1"), &cell, &live).unwrap();
    let r = decode_root(raw, &RootState::Unreadable);
    assert_eq!(r.verdict, RootVerdict::Error);
    m.take_root(r);
    assert!(m.has_room());
    let o = m.finish(Duration::ZERO, Duration::ZERO, Duration::ZERO);
    assert_eq!(o.stats.counts.root_decode_errors, 1);
    assert_eq!(o.marked.len(), 0);
    assert_eq!(o.content_keys.len(), 0);
}

#[test]
fn what_a_collection_says() {
    let (p, _) = gc_plan();
    assert_eq!(
        gc_summary(&p, "0.00"),
        "blob: 10 个 / 100 B,可回收 1 个 / 10 B\ncomposer.content: 3 个 / 36 B,可回收 1 个 / 12 B\n根解码失败率 0.00%(阈值 2%)。自动生成可回滚备份。"
    );
    let o = GcOutcome {
        plan: p,
        deleted_rows: 2,
        backup_path: None,
        page_size: 4096,
        page_count_before: 2,
        page_count_after: 1,
        shrink: None,
    };
    assert_eq!(gc_outcome_summary(&o), "已回收 1 个孤儿 blob + 1 个 content 行,共 22 B。备份: 无");
    assert!(matches!(
        gc_patch(&o),
        ScanPatch::Gc { blob_rows: 1, blob_bytes: 10, content_rows: 1, content_bytes: 12 }
    ));
}

#[test]
fn what_a_row_held() {
    // a document that cannot be parsed
    assert!(matches!(root_state(&None, None), RootState::Unreadable));
    // bytes that cannot be decoded
    let read = Some(decode_conversation_state(Some("xyz")));
    assert!(matches!(root_state(&read, None), RootState::Unreadable));
    // no bytes
    assert!(matches!(root_state(&Some(decode_conversation_state(None)), None), RootState::NoState));
    assert!(matches!(
        root_state(&Some(decode_conversation_state(Some(""))), None),
        RootState::NoState
    ));
    // bytes that stand for a state, or for none
    let read = Some(decode_conversation_state(Some("00")));
    assert!(matches!(root_state(&read, None), RootState::Unreadable));
    let s = ConversationState { todos: vec![id(4)], ..state() };
    match root_state(&read, Some(s)) {
        RootState::State(s) => assert_eq!(s.todos.len(), 1),
        _ => unreachable!(),
    }
}

#[test]
fn a_collection_accounts_for_every_row() {
    let mut listing = Listing::new();
    let mut p = Progress::new();
    for (n, length) in [(9u8, 5i64), (1, 2), (3, 7)] {
        listing.list(&kv(&format!("agentKv:blob:{}", hexs(n)), length), &mut p).unwrap();
    }
    let live = live();
    let mut m = Marker::new();
    let content = |n: &str| format!("composer.content.{}", n.repeat(32));
    let json = Cell::Text(format!(r#"{{"a":"{}"}}"#, content("22")).into_bytes());
    let raw = m.root_row(Some(b"composerData:live1"), &json, &live).unwrap();
    let root = ConversationState { todos: vec![id(3), id(8)], ..state() };
    let r = decode_root(raw, &RootState::State(root));
    m.take_root(r);
    while m.head().is_some() {
        m.missing();
    }
    let outcome = m.finish(Duration::ZERO, Duration::ZERO, Duration::ZERO);
    let contents = vec![(content("33"), 4), (content("22"), 6), (content("11"), 1)];
    assert!(fits(&listing, &contents));
    let plan: GcPlan = plan(listing, contents, outcome, Duration::ZERO);
    assert_eq!(plan.orphans, vec![hexs(1), hexs(9)]);
    assert_eq!(plan.live_blobs + plan.orphans.len() as u64, plan.total_blobs);
    assert_eq!((plan.total_blobs, plan.live_blobs), (3, 1));
    assert_eq!(plan.live_bytes + plan.orphan_bytes, plan.total_bytes);
    assert_eq!((plan.live_bytes, plan.orphan_bytes), (7, 7));
    assert_eq!(plan.dangling_refs, 1);
    assert_eq!(plan.content_orphans, vec![content("11"), content("33")]);
    assert_eq!((plan.content_bytes, plan.content_orphan_bytes), (11, 5));
}
