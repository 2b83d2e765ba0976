use cursor_chat_cleanup::db::{analysis_uri, try_again, uri_escape, MAX_ATTEMPTS};
use cursor_chat_cleanup::error::{Ctx, Error, Fault, FaultCode};
use cursor_chat_cleanup::progress::Cancelled;
use cursor_chat_cleanup::safety::{
    backup_path, backup_status, corrupted_residue, lock_gate, wal_gate,
};
use cursor_chat_cleanup::mark::Cell;
use cursor_chat_cleanup::types::IdError;
use cursor_chat_cleanup::workspace::percent_decode;

#[test]
fn render_joins_source_chain() {
    let inner = Error::DbBusy;
    let e = Error::Ctx { op: "预检", source: Box::new(inner) };
    assert_eq!(e.render(), format!("预检: {}", Error::DbBusy.message()));
}

#[test]
fn cancellation_is_detected_through_ctx() {
    let e = Error::Ctx { op: "扫描", source: Box::new(Error::Cancelled(Cancelled)) };
    assert!(e.is_cancelled());
    assert!(!Error::DbBusy.is_cancelled());
}

fn fault(code: FaultCode) -> Fault {
    Fault { code, text: "disk I/O".into(), causes: vec!["cause".into()] }
}

#[test]
fn labels_keep_what_is_inside() {
    let r: Result<(), Error> = Err(Error::Sqlite(fault(FaultCode::Interrupted)));
    let e = r.ctx("读取").unwrap_err();
    assert!(e.is_cancelled());
    assert_eq!(e.render(), "读取: disk I/O: cause");
    let r: Result<(), Fault> = Err(fault(FaultCode::Corrupt));
    let e = r.ctx("读取").unwrap_err();
    assert!(e.is_snapshot_torn());
    assert!(!e.is_cancelled());
    let ok: Result<u8, Error> = Ok(3);
    assert_eq!(ok.ctx("x").unwrap(), 3);
}

#[test]
fn each_error_has_its_text() {
    assert_eq!(Error::Cancelled(Cancelled).message(), "操作已取消");
    assert_eq!(Error::Id(IdError::Empty).message(), "id 为空");
    assert_eq!(Error::Io(fault(FaultCode::Other)).render(), "disk I/O: cause");
    assert_eq!(
        Error::DbNotFound.message(),
        "未找到 Cursor 数据库,请用 --db 指定 state.vscdb 路径"
    );
    assert_eq!(Error::DbMissing { path: "/x".into() }.message(), "数据库不存在: /x");
    assert_eq!(
        Error::OpenDb { path: "/x".into(), source: fault(FaultCode::Other) }.render(),
        "打开数据库失败: /x: disk I/O: cause"
    );
    assert_eq!(
        Error::OpenWorkspaceDb { path: "/w".into(), source: fault(FaultCode::Other) }.message(),
        "打开 workspace 库失败: /w"
    );
    assert!(Error::CursorRunning { age_secs: 3 }.message().starts_with("-wal 文件 3 秒前"));
    assert!(Error::DbBusy.message().starts_with("数据库正被其它连接占用"));
    assert_eq!(Error::NoTargets.message(), "请指定会话 id(report/TUI 里可以查到)");
    assert_eq!(Error::NothingToTrim.message(), "没有要修剪的会话");
    assert_eq!(
        Error::TargetNotFound { arg: "abc".into() }.message(),
        "找不到会话: abc(先用 report/TUI 确认 id;孤儿数据请用 sweep)"
    );
    assert_eq!(
        Error::AmbiguousPrefix { arg: "a".into(), candidates: vec!["a1".into(), "a2".into()] }
            .message(),
        "前缀 a 匹配到多个会话: a1, a2"
    );
    assert!(Error::RefuseWipeAll.message().starts_with("拒绝删除"));
    assert_eq!(
        Error::BadHeaderId { raw: "a\"b".into(), source: IdError::Empty }.render(),
        "headers 里出现非法 composerId: \"a\\\"b\": id 为空"
    );
    assert_eq!(
        Error::RootErrorRate { rate: "5.00".into(), limit: "2".into() }.message(),
        "根解码失败率 5.00% 超过阈值 2%,数据可能损坏,拒绝清理"
    );
    assert_eq!(Error::NoDecodedRoots.message(), "没有成功解码任何会话根,拒绝清理");
    assert_eq!(Error::BackupExists { path: "/b".into() }.message(), "备份文件已存在: /b");
    assert_eq!(Error::BackupMissing { path: "/b".into() }.message(), "备份文件不存在: /b");
    assert_eq!(
        Error::BackupPathNotUtf8 { path: "/b".into() }.message(),
        "备份路径不是合法 UTF-8: /b"
    );
    assert_eq!(
        Error::CreateBackup { path: "/b".into(), source: fault(FaultCode::Other) }.message(),
        "创建备份库失败: /b"
    );
    assert_eq!(
        Error::Json { what: "旧 header blob", source: "bad".into() }.render(),
        "解析 JSON 失败(旧 header blob): bad"
    );
    assert_eq!(
        Error::RemoveFile { path: "/f".into(), source: fault(FaultCode::Other) }.message(),
        "删除文件失败: /f"
    );
}

#[test]
fn a_fresh_log_closes_the_gate() {
    assert!(matches!(wal_gate(Some(3)), Err(Error::CursorRunning { age_secs: 3 })));
    assert!(wal_gate(Some(15)).is_ok());
    assert!(wal_gate(None).is_ok());
}

#[test]
fn a_held_lock_closes_the_gate() {
    assert!(lock_gate(Ok(())).is_ok());
    assert!(matches!(lock_gate(Err(fault(FaultCode::Busy))), Err(Error::DbBusy)));
    assert_eq!(
        lock_gate(Err(fault(FaultCode::Other))).unwrap_err().render(),
        "排他锁探测失败: disk I/O: cause"
    );
}

#[test]
fn residue_is_found_by_name_and_sorted() {
    let files = vec![
        ("state.vscdb.corrupted.2".to_string(), 5),
        ("state.vscdb.backup".to_string(), 9),
        ("state.vscdb.corrupted.1".to_string(), 7),
        ("other.corrupted.1".to_string(), 1),
    ];
    assert_eq!(
        corrupted_residue("state.vscdb", &files),
        vec![
            ("state.vscdb.corrupted.1".to_string(), 7),
            ("state.vscdb.corrupted.2".to_string(), 5)
        ]
    );
}

#[test]
fn backups_have_names_and_a_state() {
    assert_eq!(
        backup_path("/d/state.vscdb", "sweep", "20260101-000000"),
        "/d/state.vscdb.sweep-backup-20260101-000000.sqlite"
    );
    let s = backup_status("/b".into(), 5, None, Some(Cell::Text(b"true".to_vec())));
    assert_eq!(s.disabled, Some(true));
    let s = backup_status("/b".into(), 5, None, Some(Cell::Text(b"false".to_vec())));
    assert_eq!(s.disabled, Some(false));
    let s = backup_status("/b".into(), 5, None, None);
    assert_eq!(s.disabled, None);
    assert_eq!((s.path.as_str(), s.size), ("/b", 5));
}

#[test]
fn addresses_are_escaped() {
    assert_eq!(uri_escape("/a b?c#d%e"), "/a b%3Fc%23d%25e");
    assert_eq!(analysis_uri("/x?"), "file:/x%3F?immutable=1");
    assert_eq!(uri_escape("/plain/中"), "/plain/中");
    for path in ["/a b?c#d%e", "/中%25", "%%3F?"] {
        assert_eq!(percent_decode(&uri_escape(path)), path);
    }
}

#[test]
fn a_torn_snapshot_is_tried_again_a_few_times() {
    let torn = Error::Sqlite(fault(FaultCode::Corrupt));
    assert!(try_again(1, &torn));
    assert!(!try_again(MAX_ATTEMPTS, &torn));
    assert!(!try_again(1, &Error::DbBusy));
}
