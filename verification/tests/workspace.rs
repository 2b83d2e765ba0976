use cursor_chat_cleanup::fx::IdMap;
use cursor_chat_cleanup::headers::SessionHeader;
use cursor_chat_cleanup::workspace::{
    fallback, folder_from_json, label_of, percent_decode, resolve, unresolved,
};

#[test]
fn label_takes_last_segment_decoded() {
    assert_eq!(
        label_of("vscode-remote://wsl%2Bdebian/home/wisd/repos/cursor-chat-cleanup"),
        "cursor-chat-cleanup"
    );
    assert_eq!(label_of("file:///c%3A/My%20Project/"), "My Project");
    assert_eq!(label_of("plain"), "plain");
}

#[test]
fn fallback_labels() {
    assert_eq!(fallback("empty-window").label, "(无工作区)");
    assert_eq!(fallback("1785751935302").label, "(临时窗口 1785751935302)");
    assert_eq!(fallback("ec906c28db45012cbcdadbace50901a9").label, "(ec906c28…)");
}

#[test]
fn percent_decode_keeps_invalid_sequences() {
    assert_eq!(percent_decode("a%2Bb"), "a+b");
    assert_eq!(percent_decode("bad%2"), "bad%2");
    assert_eq!(percent_decode("bad%zz"), "bad%zz");
}

fn mk(wid: &str, folder: Option<&str>) -> SessionHeader {
    SessionHeader {
        composer_id: format!("c-{wid}"),
        name: None,
        created_at: None,
        last_updated_at: None,
        recency: 0,
        is_archived: false,
        is_subagent: false,
        is_best_of_n: false,
        workspace_id: Some(wid.to_owned()),
        workspace_folder: folder.map(str::to_owned),
        parent_composer_id: None,
        sub_composer_ids: Vec::new(),
        in_header_table: true,
        in_legacy_blob: false,
    }
}

/// The header goes before the file, and both before the fallback.
#[test]
fn resolve_priority() {
    let sessions = vec![
        mk("hdr", Some("file:///home/x/proj")),
        mk("abc123", None),
        mk("empty-window", None),
    ];
    assert_eq!(unresolved(&sessions), vec!["abc123", "empty-window"]);
    let mut files: IdMap<String> = IdMap::new();
    files.insert(
        "abc123".to_owned(),
        r#"{"folder": "vscode-remote://wsl%2Bdebian/tmp/from-json"}"#.to_owned(),
    );
    let map = resolve(&sessions, &files);
    assert_eq!(map.get("hdr").unwrap().label, "proj");
    assert_eq!(map.get("abc123").unwrap().label, "from-json");
    assert_eq!(
        map.get("abc123").unwrap().folder.as_deref(),
        Some("vscode-remote://wsl%2Bdebian/tmp/from-json")
    );
    assert_eq!(map.get("empty-window").unwrap().label, "(无工作区)");
}

#[test]
fn workspace_files_name_a_folder_or_a_workspace() {
    assert_eq!(folder_from_json(r#"{"folder":"file:///a/b"}"#).as_deref(), Some("file:///a/b"));
    assert_eq!(
        folder_from_json(r#"{"workspace":"file:///a/b.code-workspace"}"#).as_deref(),
        Some("file:///a/b.code-workspace")
    );
    assert_eq!(folder_from_json("{}"), None);
    assert_eq!(folder_from_json("not json"), None);
}

#[test]
fn percent_decode_reads_utf8_bytes() {
    assert_eq!(percent_decode("%E4%B8%AD"), "中");
    assert_eq!(percent_decode("100%"), "100%");
    assert_eq!(percent_decode("%ff"), "\u{FFFD}");
}

/// The workspaces whose files must be read come in the order of the sessions, each once.
#[test]
fn unresolved_workspaces_come_once_and_in_order() {
    let sessions = vec![
        mk("w9", None),
        mk("w1", Some("file:///home/x/proj")),
        mk("w3", None),
        mk("w9", None),
        mk("w1", None),
        mk("w2", None),
    ];
    assert_eq!(unresolved(&sessions), vec!["w9", "w3", "w2"]);
    assert!(unresolved(&[]).is_empty());
}
