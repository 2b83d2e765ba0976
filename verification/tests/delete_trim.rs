use cursor_chat_cleanup::delete::{
    apply, edit_item_table_json, ids_of_targets, plan, resolve_targets, resolve_targets_cascading,
    strip_ids_from_json,
};
use cursor_chat_cleanup::error::Error;
use cursor_chat_cleanup::headers::SessionHeader;
use cursor_chat_cleanup::json::{parse, render};
use cursor_chat_cleanup::progress::Progress;
use cursor_chat_cleanup::rows::{collect_session_keys, session_queries, Collector, KeyQuery};
use cursor_chat_cleanup::scan::{KvRow, Prefix, PREFIXES};
use cursor_chat_cleanup::steps::Step;
use cursor_chat_cleanup::trim;
use cursor_chat_cleanup::types::ComposerId;

fn session(id: &str) -> SessionHeader {
    SessionHeader {
        composer_id: id.into(),
        name: None,
        created_at: None,
        last_updated_at: None,
        recency: 0,
        is_archived: false,
        is_subagent: false,
        is_best_of_n: false,
        workspace_id: None,
        workspace_folder: None,
        parent_composer_id: None,
        sub_composer_ids: Vec::new(),
        in_header_table: true,
        in_legacy_blob: false,
    }
}

fn below(id: &str, parent: &str) -> SessionHeader {
    let mut s = session(id);
    s.is_subagent = true;
    s.parent_composer_id = Some(parent.into());
    s
}

#[test]
fn resolve_rejects_ambiguous_prefix() {
    let sessions = vec![session("abcdef-1"), session("abcdef-2")];
    assert!(resolve_targets(&sessions, &["abcdef".into()]).is_err());
    assert!(resolve_targets(&sessions, &["abcdef-1".into()]).is_ok());
}

#[test]
fn targets_are_named_by_id_or_prefix() {
    let sessions = vec![session("abcdef-1"), session("zzzzzz-2")];
    let ts = resolve_targets(&sessions, &["zzzzzz".into(), " abcdef-1 ".into(), "abcdef".into()])
        .unwrap();
    let ids: Vec<&str> = ts.iter().map(|t| t.composer_id.as_str()).collect();
    assert_eq!(ids, vec!["zzzzzz-2", "abcdef-1"]);
    assert!(matches!(resolve_targets(&sessions, &["abc".into()]), Err(Error::Id(_))));
    // a whole id names its session, however short, and though another begins with it
    let sessions = vec![session("abcdef-1"), session("abcdef"), session("abc")];
    let ts = resolve_targets(&sessions, &["abcdef".into(), "abc".into()]).unwrap();
    let ids: Vec<&str> = ts.iter().map(|t| t.composer_id.as_str()).collect();
    assert_eq!(ids, vec!["abcdef", "abc"]);
    let sessions = vec![session("abcdef-1"), session("zzzzzz-2")];
    assert!(!ts[0].cascaded);
    assert!(matches!(
        resolve_targets(&sessions, &["nobody-1".into()]),
        Err(Error::TargetNotFound { .. })
    ));
    assert!(resolve_targets(&sessions, &["abcde".into()]).is_err());
    match resolve_targets(&[session("abcdef-1"), session("abcdef-2")], &["abcdef".into()]) {
        Err(Error::AmbiguousPrefix { arg, candidates }) => {
            assert_eq!(arg, "abcdef");
            assert_eq!(candidates, vec!["abcdef-1", "abcdef-2"]);
        }
        _ => panic!("not refused"),
    }
}

#[test]
fn deleting_takes_the_subagents_along() {
    let sessions = vec![
        session("main-000"),
        below("sub1-000", "main-000"),
        below("sub2-000", "sub1-000"),
        session("other-00"),
    ];
    let ts = resolve_targets_cascading(&sessions, &["main-000".into()]).unwrap();
    let ids: Vec<(&str, bool)> =
        ts.iter().map(|t| (t.composer_id.as_str(), t.cascaded)).collect();
    assert_eq!(ids, vec![("main-000", false), ("sub1-000", true), ("sub2-000", true)]);
    let job = apply(&sessions, &["main-000".into()], true, true).unwrap();
    assert_eq!(job.targets.len(), 3);
    assert_eq!(job.steps[0], Step::BackUpRows);
    assert_eq!(job.steps[1], Step::BackUpHeaders);
    assert_eq!(*job.steps.last().unwrap(), Step::Checkpoint);
    assert_eq!(ids_of_targets(&job.targets)[2].as_str(), "sub2-000");
}

#[test]
fn deleting_everything_is_refused() {
    let sessions = vec![session("main-000"), below("sub1-000", "main-000")];
    assert!(matches!(
        apply(&sessions, &["main-000".into()], true, true),
        Err(Error::RefuseWipeAll)
    ));
    assert!(matches!(apply(&sessions, &[], true, true), Err(Error::NoTargets)));
}

#[test]
fn documents_lose_the_sessions_and_keep_the_rest() {
    let ids = vec!["gone".to_string()];
    let text = r#"{"allComposers":[{"composerId":"gone"},{"composerId":"kept"}],"selectedComposerIds":["gone","kept"],"flag":true}"#;
    let (json, changed) = strip_ids_from_json(parse(text).unwrap(), &ids);
    assert!(changed);
    assert_eq!(
        parse(&render(&json).unwrap()).unwrap().get("allComposers").unwrap().as_array().unwrap().len(),
        1
    );
    assert_eq!(json.get("flag").unwrap().as_bool(), Some(true));
    let edited = edit_item_table_json(Some(text.as_bytes()), &ids).unwrap().unwrap();
    assert!(!edited.contains("gone"));
    assert!(edited.contains("kept"));
    assert_eq!(edit_item_table_json(Some(br#"{"a":1}"#), &ids).unwrap(), None);
    assert_eq!(edit_item_table_json(Some(b"not json"), &ids).unwrap(), None);
    assert_eq!(edit_item_table_json(None, &ids).unwrap(), None);
}

fn row(key: &str, length: i64) -> KvRow {
    KvRow { key: Some(key.as_bytes().to_vec()), length, is_null: false }
}

fn answers(q: &KeyQuery, table: &[KvRow]) -> Vec<KvRow> {
    table
        .iter()
        .filter(|r| {
            let k = std::str::from_utf8(r.key.as_ref().unwrap()).unwrap();
            match q {
                KeyQuery::Range { lo, hi } => k >= lo.as_str() && k < hi.as_str(),
                KeyQuery::Exact { key } => k == key,
            }
        })
        .map(|r| KvRow { key: r.key.clone(), length: r.length, is_null: r.is_null })
        .collect()
}

fn gather(id: &str, kinds: &[Prefix], table: &[KvRow]) -> Collector {
    let ids = vec![ComposerId::parse(id).unwrap()];
    let mut c = Collector::new();
    for q in session_queries(&ids, kinds) {
        let rows = answers(&q.query, table);
        assert!(c.fits(&ids[0], &rows));
        collect_session_keys(&mut c, &q, &rows, &mut Progress::new());
    }
    c
}

const L1: &str = "live1-aaaaaa-0000";

fn table() -> Vec<KvRow> {
    vec![
        row(&format!("composerData:{L1}"), 4),
        row(&format!("bubbleId:{L1}:b1"), 3),
        row(&format!("checkpointId:{L1}:c1"), 8),
        row(&format!("ofsContent:{L1}:f1"), 4),
        row(&format!("composerVirtualRowHeights:{L1}"), 2),
        row(&format!("agentKv:checkpoint:{L1}"), 4),
        row("composerData:live1-aaaaaa-00001", 4),
        row("bubbleId:live1-aaaaaa-00001:b1", 3),
        row("bubbleId:live1-aaaaaa-00001", 3),
    ]
}

#[test]
fn trimming_keeps_the_history() {
    let sessions = vec![session(L1)];
    let targets = trim::trim_targets(&sessions, &[L1.into()]).unwrap();
    let p = trim::plan(targets, gather(L1, &trim::trimmable(false), &table()));
    assert_eq!(
        p.keys,
        vec![
            format!("checkpointId:{L1}:c1"),
            format!("composerVirtualRowHeights:{L1}"),
            format!("ofsContent:{L1}:f1"),
        ]
    );
    assert_eq!(p.total_bytes, 14);
    assert_eq!(trim::apply(&p, true, false), vec![Step::BackUpRows, Step::DeleteRows]);
    let targets = trim::trim_targets(&sessions, &[L1.into()]).unwrap();
    let p = trim::plan(targets, gather(L1, &trim::trimmable(true), &table()));
    assert_eq!(p.keys, vec![format!("composerVirtualRowHeights:{L1}")]);
    assert!(matches!(trim::trim_targets(&sessions, &[]), Err(Error::NothingToTrim)));
}

#[test]
fn deleting_finds_all_rows_of_a_session_and_no_others() {
    let kinds: Vec<Prefix> = (0..PREFIXES).map(Prefix::at).collect();
    let targets = resolve_targets(&[session(L1)], &[L1.into()]).unwrap();
    let p = plan(targets, gather(L1, &kinds, &table()));
    assert_eq!(p.keys.len(), 6);
    assert!(p.keys.iter().all(|k| !k.contains("00001")));
    assert_eq!(p.total_bytes, 25);
    assert_eq!(p.per_prefix.get(Prefix::CheckpointId).bytes, 8);

    // a key of the tag and the id alone is the session's too
    let mut rows = table();
    rows.push(row(&format!("bubbleId:{L1}"), 7));
    let targets = resolve_targets(&[session(L1)], &[L1.into()]).unwrap();
    let p = plan(targets, gather(L1, &kinds, &rows));
    assert_eq!(p.keys.len(), 7);
    assert!(p.keys.contains(&format!("bubbleId:{L1}")));
    assert_eq!(p.total_bytes, 32);
}
