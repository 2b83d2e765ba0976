//! Errors as data: the variants carry what decisions are made on, and only the text
//! shown to people is rendered from them.

use vstd::prelude::*;

use crate::progress::Cancelled;
use crate::text::{
    decimal, decimal_text, join, joined, lemma_occurs_grows, lemma_stands, occurs, quote, quoted,
    views,
};
use crate::types::{id_error_text, IdError};

verus! {

/// What kind of fault the database reported, as far as a decision depends on it.
#[derive(Debug, Clone, Copy, PartialEq, Eq, Structural)]
pub enum FaultCode {
    /// A statement was interrupted.
    Interrupted,
    /// The database image is malformed.
    Corrupt,
    /// Another connection holds a lock.
    Busy,
    /// Anything else, or no database fault at all.
    Other,
}

/// A fault that came from outside: its code, its text, and the texts of its causes.
#[derive(Debug)]
pub struct Fault {
    pub code: FaultCode,
    pub text: String,
    pub causes: Vec<String>,
}

/// Everything that can go wrong.
#[allow(inconsistent_fields)]
#[derive(Debug)]
pub enum Error {
    Sqlite(Fault),
    Cancelled(Cancelled),
    Id(IdError),
    Io(Fault),
    /// A label for the operation in which another error came up.
    Ctx { op: &'static str, source: Box<Error> },
    DbNotFound,
    DbMissing { path: String },
    OpenDb { path: String, source: Fault },
    OpenWorkspaceDb { path: String, source: Fault },
    CursorRunning { age_secs: u64 },
    DbBusy,
    NoTargets,
    NothingToTrim,
    TargetNotFound { arg: String },
    AmbiguousPrefix { arg: String, candidates: Vec<String> },
    RefuseWipeAll,
    BadHeaderId { raw: String, source: IdError },
    EmptyLiveSet { action: &'static str },
    /// The two numbers are percentages, as they are shown.
    RootErrorRate { rate: String, limit: String },
    NoDecodedRoots,
    BackupExists { path: String },
    BackupMissing { path: String },
    BackupPathNotUtf8 { path: String },
    CreateBackup { path: String, source: Fault },
    Json { what: &'static str, source: String },
    RemoveFile { path: String, source: Fault },
}

/// The text of an error by itself, without its causes.
pub open spec fn error_text(e: Error) -> Seq<char> {
    match e {
        Error::Sqlite(f) => f.text@,
        Error::Cancelled(_) => "操作已取消"@,
        Error::Id(i) => id_error_text(i),
        Error::Io(f) => f.text@,
        Error::Ctx { op, .. } => op@,
        Error::DbNotFound => "未找到 Cursor 数据库,请用 --db 指定 state.vscdb 路径"@,
        Error::DbMissing { path } => "数据库不存在: "@ + path@,
        Error::OpenDb { path, .. } => "打开数据库失败: "@ + path@,
        Error::OpenWorkspaceDb { path, .. } => "打开 workspace 库失败: "@ + path@,
        Error::CursorRunning { age_secs } => "-wal 文件 "@ + decimal(age_secs as nat)
            + " 秒前刚被写入,Cursor 很可能正在运行。\n请完全退出 Cursor(不只是关窗口)后重试。"@,
        Error::DbBusy => "数据库正被其它连接占用(Cursor 可能正在运行)。请完全退出 Cursor 后重试。"@,
        Error::NoTargets => "请指定会话 id(report/TUI 里可以查到)"@,
        Error::NothingToTrim => "没有要修剪的会话"@,
        Error::TargetNotFound { arg } => "找不到会话: "@ + arg@
            + "(先用 report/TUI 确认 id;孤儿数据请用 sweep)"@,
        Error::AmbiguousPrefix { arg, candidates } => "前缀 "@ + arg@ + " 匹配到多个会话: "@ + joined(
            views(candidates@),
            ", "@,
        ),
        Error::RefuseWipeAll => "拒绝删除: 删除后将不剩任何主代理会话(如确实需要,请分批并至少保留一个主代理)"@,
        Error::BadHeaderId { raw, .. } => "headers 里出现非法 composerId: "@ + quoted(raw@),
        Error::EmptyLiveSet { action } => "存活会话集合为空,拒绝"@ + action@ + "(库不对或已损坏?)"@,
        Error::RootErrorRate { rate, limit } => "根解码失败率 "@ + rate@ + "% 超过阈值 "@ + limit@
            + "%,数据可能损坏,拒绝清理"@,
        Error::NoDecodedRoots => "没有成功解码任何会话根,拒绝清理"@,
        Error::BackupExists { path } => "备份文件已存在: "@ + path@,
        Error::BackupMissing { path } => "备份文件不存在: "@ + path@,
        Error::BackupPathNotUtf8 { path } => "备份路径不是合法 UTF-8: "@ + path@,
        Error::CreateBackup { path, .. } => "创建备份库失败: "@ + path@,
        Error::Json { what, .. } => "解析 JSON 失败("@ + what@ + ")"@,
        Error::RemoveFile { path, .. } => "删除文件失败: "@ + path@,
    }
}

/// The texts of a fault and of its causes.
pub open spec fn fault_chain(f: Fault) -> Seq<Seq<char>> {
    seq![f.text@] + views(f.causes@)
}

/// The texts of an error and of its causes, outermost first.
pub open spec fn error_chain(e: Error) -> Seq<Seq<char>>
    decreases e,
{
    match e {
        Error::Sqlite(f) => fault_chain(f),
        Error::Io(f) => fault_chain(f),
        Error::Ctx { source, .. } => seq![error_text(e)] + error_chain(*source),
        Error::OpenDb { source, .. } => seq![error_text(e)] + fault_chain(source),
        Error::OpenWorkspaceDb { source, .. } => seq![error_text(e)] + fault_chain(source),
        Error::CreateBackup { source, .. } => seq![error_text(e)] + fault_chain(source),
        Error::RemoveFile { source, .. } => seq![error_text(e)] + fault_chain(source),
        Error::BadHeaderId { source, .. } => seq![error_text(e), id_error_text(source)],
        Error::Json { source, .. } => seq![error_text(e), source@],
        _ => seq![error_text(e)],
    }
}

/// The code of the database fault in an error, looking past no label.
pub open spec fn sqlite_code(e: Error) -> Option<FaultCode> {
    match e {
        Error::Sqlite(f) => Some(f.code),
        Error::OpenDb { source, .. } => Some(source.code),
        Error::OpenWorkspaceDb { source, .. } => Some(source.code),
        Error::CreateBackup { source, .. } => Some(source.code),
        _ => None,
    }
}

/// The error below all labels.
pub open spec fn innermost(e: Error) -> Error
    decreases e,
{
    match e {
        Error::Ctx { source, .. } => innermost(*source),
        _ => e,
    }
}

/// `prefix` and then `rest`.
fn with(prefix: &str, rest: &str) -> (r: String)
    ensures
        r@ == prefix@ + rest@,
{
    crate::text::join2(prefix, rest)
}

/// Appends a copy of each text.
fn push_all(out: &mut Vec<String>, more: &Vec<String>)
    ensures
        views(final(out)@) == views(old(out)@) + views(more@),
{
    let mut i: usize = 0;
    assert(views(out@) =~= views(old(out)@) + views(more@).take(0));
    while i < more.len()
        invariant
            i <= more@.len(),
            views(out@) == views(old(out)@) + views(more@).take(i as int),
        decreases more@.len() - i,
    {
        let ghost before = views(out@);
        out.push(more[i].clone());
        proof {
            assert(views(out@) =~= before.push(more@[i as int]@));
            assert(views(more@).take(i + 1) =~= views(more@).take(i as int).push(
                more@[i as int]@,
            ));
            assert(views(out@) =~= views(old(out)@) + views(more@).take(i + 1));
        }
        i += 1;
    }
    assert(views(more@).take(i as int) =~= views(more@));
}

impl Error {
    /// The text of the error by itself.
    pub fn message(&self) -> (r: String)
        ensures
            r@ == error_text(*self),
    {
        match self {
            Error::Sqlite(f) => f.text.clone(),
            Error::Cancelled(c) => c.message(),
            Error::Id(i) => i.message(),
            Error::Io(f) => f.text.clone(),
            Error::Ctx { op, .. } => (*op).to_owned(),
            Error::DbNotFound => "未找到 Cursor 数据库,请用 --db 指定 state.vscdb 路径".to_owned(),
            Error::DbMissing { path } => with("数据库不存在: ", path.as_str()),
            Error::OpenDb { path, .. } => with("打开数据库失败: ", path.as_str()),
            Error::OpenWorkspaceDb { path, .. } => with("打开 workspace 库失败: ", path.as_str()),
            Error::CursorRunning { age_secs } => {
                let n = decimal_text(*age_secs);
                let mut out = with("-wal 文件 ", n.as_str());
                out.push_str(
                    " 秒前刚被写入,Cursor 很可能正在运行。\n请完全退出 Cursor(不只是关窗口)后重试。",
                );
                out
            },
            Error::DbBusy => "数据库正被其它连接占用(Cursor 可能正在运行)。请完全退出 Cursor 后重试。".to_owned(),
            Error::NoTargets => "请指定会话 id(report/TUI 里可以查到)".to_owned(),
            Error::NothingToTrim => "没有要修剪的会话".to_owned(),
            Error::TargetNotFound { arg } => {
                let mut out = with("找不到会话: ", arg.as_str());
                out.push_str("(先用 report/TUI 确认 id;孤儿数据请用 sweep)");
                out
            },
            Error::AmbiguousPrefix { arg, candidates } => {
                let mut out = with("前缀 ", arg.as_str());
                out.push_str(" 匹配到多个会话: ");
                let all = join(candidates.as_slice(), ", ");
                out.push_str(all.as_str());
                out
            },
            Error::RefuseWipeAll => "拒绝删除: 删除后将不剩任何主代理会话(如确实需要,请分批并至少保留一个主代理)".to_owned(),
            Error::BadHeaderId { raw, .. } => {
                let q = quote(raw.as_str());
                with("headers 里出现非法 composerId: ", q.as_str())
            },
            Error::EmptyLiveSet { action } => {
                let mut out = with("存活会话集合为空,拒绝", *action);
                out.push_str("(库不对或已损坏?)");
                out
            },
            Error::RootErrorRate { rate, limit } => {
                let mut out = with("根解码失败率 ", rate.as_str());
                out.push_str("% 超过阈值 ");
                out.push_str(limit.as_str());
                out.push_str("%,数据可能损坏,拒绝清理");
                out
            },
            Error::NoDecodedRoots => "没有成功解码任何会话根,拒绝清理".to_owned(),
            Error::BackupExists { path } => with("备份文件已存在: ", path.as_str()),
            Error::BackupMissing { path } => with("备份文件不存在: ", path.as_str()),
            Error::BackupPathNotUtf8 { path } => with("备份路径不是合法 UTF-8: ", path.as_str()),
            Error::CreateBackup { path, .. } => with("创建备份库失败: ", path.as_str()),
            Error::Json { what, .. } => {
                let mut out = with("解析 JSON 失败(", *what);
                out.push_str(")");
                out
            },
            Error::RemoveFile { path, .. } => with("删除文件失败: ", path.as_str()),
        }
    }

    /// The texts of the error and of its causes.
    fn chain(&self) -> (r: Vec<String>)
        ensures
            views(r@) == error_chain(*self),
        decreases self,
    {
        let mut out: Vec<String> = Vec::new();
        out.push(self.message());
        proof {
            assert(views(out@) =~= seq![error_text(*self)]);
        }
        match self {
            Error::Sqlite(f) | Error::Io(f) => {
                push_all(&mut out, &f.causes);
            },
            Error::Ctx { source, .. } => {
                let below = source.chain();
                push_all(&mut out, &below);
            },
            Error::OpenDb { source, .. } | Error::OpenWorkspaceDb { source, .. }
            | Error::CreateBackup { source, .. } | Error::RemoveFile { source, .. } => {
                out.push(source.text.clone());
                proof {
                    assert(views(out@) =~= seq![error_text(*self), source.text@]);
                }
                push_all(&mut out, &source.causes);
                proof {
                    assert(views(out@) =~= seq![error_text(*self)] + fault_chain(*source));
                }
            },
            Error::BadHeaderId { source, .. } => {
                out.push(source.message());
                proof {
                    assert(views(out@) =~= seq![error_text(*self), id_error_text(*source)]);
                }
            },
            Error::Json { source, .. } => {
                out.push(source.clone());
                proof {
                    assert(views(out@) =~= seq![error_text(*self), source@]);
                }
            },
            _ => {},
        }
        out
    }

    /// The whole chain for people: each text after the one it explains, with `": "`
    /// between them.
    pub fn render(&self) -> (r: String)
        ensures
            r@ == joined(error_chain(*self), ": "@),
    {
        let parts = self.chain();
        join(parts.as_slice(), ": ")
    }

    /// The code of the database fault.
    fn code(&self) -> (r: Option<FaultCode>)
        ensures
            r == sqlite_code(*self),
    {
        match self {
            Error::Sqlite(f) => Some(f.code),
            Error::OpenDb { source, .. } | Error::OpenWorkspaceDb { source, .. }
            | Error::CreateBackup { source, .. } => Some(source.code),
            _ => None,
        }
    }

    /// Whether the user asked for the stop: at a checkpoint of a loop, or while a
    /// statement ran.
    pub fn is_cancelled(&self) -> (r: bool)
        ensures
            r == (innermost(*self) is Cancelled || sqlite_code(innermost(*self)) == Some(
                FaultCode::Interrupted,
            )),
        decreases self,
    {
        match self {
            Error::Cancelled(_) => true,
            Error::Ctx { source, .. } => source.is_cancelled(),
            _ => match self.code() {
                Some(c) => c == FaultCode::Interrupted,
                None => false,
            },
        }
    }

    /// Whether a read-only snapshot was torn by a checkpoint of the database's owner:
    /// no real damage, a new connection reads it again.
    pub fn is_snapshot_torn(&self) -> (r: bool)
        ensures
            r == (sqlite_code(innermost(*self)) == Some(FaultCode::Corrupt)),
        decreases self,
    {
        match self {
            Error::Ctx { source, .. } => source.is_snapshot_torn(),
            _ => match self.code() {
                Some(c) => c == FaultCode::Corrupt,
                None => false,
            },
        }
    }
}

/// Labels an error with the operation in which it came up.
pub trait Ctx<T>: Sized {
    fn ctx(self, op: &'static str) -> Result<T, Error>;
}

impl<T> Ctx<T> for Result<T, Error> {
    fn ctx(self, op: &'static str) -> (r: Result<T, Error>)
        ensures
            match self {
                Ok(v) => r == Ok::<T, Error>(v),
                Err(e) => r == Err::<T, Error>(Error::Ctx { op, source: Box::new(e) }),
            },
    {
        match self {
            Ok(v) => Ok(v),
            Err(e) => Err(Error::Ctx { op, source: Box::new(e) }),
        }
    }
}

impl<T> Ctx<T> for Result<T, Fault> {
    fn ctx(self, op: &'static str) -> (r: Result<T, Error>)
        ensures
            match self {
                Ok(v) => r == Ok::<T, Error>(v),
                Err(f) => r == Err::<T, Error>(
                    Error::Ctx { op, source: Box::new(Error::Sqlite(f)) },
                ),
            },
    {
        match self {
            Ok(v) => Ok(v),
            Err(f) => Err(Error::Ctx { op, source: Box::new(Error::Sqlite(f)) }),
        }
    }
}

/// A label changes neither whether an error is a cancellation nor whether it is a torn
/// snapshot.
pub proof fn lemma_label_is_transparent(e: Error, op: &'static str)
    ensures
        innermost((Error::Ctx { op, source: Box::new(e) })) == innermost(e),
{
}

/// A labelled error renders as the label, `": "` and the error's own rendering.
pub proof fn lemma_label_renders_first(e: Error, op: &'static str)
    ensures
        joined(error_chain((Error::Ctx { op, source: Box::new(e) })), ": "@) == op@ + ": "@ + joined(
            error_chain(e),
            ": "@,
        ),
{
    assert(error_chain(e).len() > 0);
    lemma_joined_front(op@, error_chain(e), ": "@);
}

proof fn lemma_joined_front(x: Seq<char>, parts: Seq<Seq<char>>, sep: Seq<char>)
    requires
        parts.len() > 0,
    ensures
        joined(seq![x] + parts, sep) == x + sep + joined(parts, sep),
    decreases parts.len(),
{
    let all = seq![x] + parts;
    assert(all.last() == parts.last());
    assert(all.drop_last() =~= seq![x] + parts.drop_last());
    if parts.len() == 1 {
        assert(parts.drop_last() =~= Seq::<Seq<char>>::empty());
        assert(all.drop_last() =~= seq![x]);
        assert(joined(all.drop_last(), sep) == x);
    } else {
        lemma_joined_front(x, parts.drop_last(), sep);
        assert(joined(all, sep) =~= x + sep + joined(parts, sep));
    }
}

/// What went wrong is named: an error shows the path, the argument or the id that it is
/// about.
pub proof fn lemma_error_names(e: Error)
    ensures
        e is DbMissing ==> occurs(e->DbMissing_path@, error_text(e)),
        e is OpenDb ==> occurs(e->OpenDb_path@, error_text(e)),
        e is OpenWorkspaceDb ==> occurs(e->OpenWorkspaceDb_path@, error_text(e)),
        e is BackupExists ==> occurs(e->BackupExists_path@, error_text(e)),
        e is BackupMissing ==> occurs(e->BackupMissing_path@, error_text(e)),
        e is BackupPathNotUtf8 ==> occurs(e->BackupPathNotUtf8_path@, error_text(e)),
        e is CreateBackup ==> occurs(e->CreateBackup_path@, error_text(e)),
        e is RemoveFile ==> occurs(e->RemoveFile_path@, error_text(e)),
        e is TargetNotFound ==> occurs(e->TargetNotFound_arg@, error_text(e)),
        e is AmbiguousPrefix ==> occurs(
            joined(views(e->AmbiguousPrefix_candidates@), ", "@),
            error_text(e),
        ),
        e is BadHeaderId ==> occurs(quoted(e->BadHeaderId_raw@), error_text(e)),
        e is CursorRunning ==> occurs(decimal(e->CursorRunning_age_secs as nat), error_text(e)),
{
    match e {
        Error::DbMissing { path } => lemma_stands("数据库不存在: "@, path@),
        Error::OpenDb { path, .. } => lemma_stands("打开数据库失败: "@, path@),
        Error::OpenWorkspaceDb { path, .. } => lemma_stands("打开 workspace 库失败: "@, path@),
        Error::BackupExists { path } => lemma_stands("备份文件已存在: "@, path@),
        Error::BackupMissing { path } => lemma_stands("备份文件不存在: "@, path@),
        Error::BackupPathNotUtf8 { path } => lemma_stands("备份路径不是合法 UTF-8: "@, path@),
        Error::CreateBackup { path, .. } => lemma_stands("创建备份库失败: "@, path@),
        Error::RemoveFile { path, .. } => lemma_stands("删除文件失败: "@, path@),
        Error::TargetNotFound { arg } => {
            lemma_stands("找不到会话: "@, arg@);
            lemma_occurs_grows(
                arg@,
                "找不到会话: "@ + arg@,
                "(先用 report/TUI 确认 id;孤儿数据请用 sweep)"@,
            );
        },
        Error::AmbiguousPrefix { arg, candidates } => {
            lemma_stands(
                "前缀 "@ + arg@ + " 匹配到多个会话: "@,
                joined(views(candidates@), ", "@),
            );
        },
        Error::BadHeaderId { raw, .. } => lemma_stands(
            "headers 里出现非法 composerId: "@,
            quoted(raw@),
        ),
        Error::CursorRunning { age_secs } => {
            lemma_stands("-wal 文件 "@, decimal(age_secs as nat));
            lemma_occurs_grows(
                decimal(age_secs as nat),
                "-wal 文件 "@ + decimal(age_secs as nat),
                " 秒前刚被写入,Cursor 很可能正在运行。\n请完全退出 Cursor(不只是关窗口)后重试。"@,
            );
        },
        _ => {},
    }
}

/// An error is a wish to stop exactly where it is that wish, or an interrupted statement, below
/// whatever labels; it is a torn snapshot only where the database calls itself malformed.
pub proof fn lemma_error_kinds(f: Fault, op: &'static str, path: String)
    ensures
        sqlite_code(innermost(Error::Sqlite(f))) == Some(f.code),
        sqlite_code(innermost((Error::Ctx { op, source: Box::new(Error::Sqlite(f)) }))) == Some(
            f.code,
        ),
        sqlite_code(innermost((Error::OpenDb { path, source: f }))) == Some(f.code),
        sqlite_code(innermost((Error::CreateBackup { path, source: f }))) == Some(f.code),
        sqlite_code(innermost(Error::DbBusy)) is None,
        innermost((Error::Ctx { op, source: Box::new(Error::Cancelled(Cancelled)) })) is Cancelled,
{
    reveal_with_fuel(innermost, 3);
}

/// The text of an error comes first, then the texts of what caused it.
pub proof fn lemma_error_chain(e: Error)
    ensures
        error_chain(e).len() > 0,
        error_chain(e)[0] == error_text(e),
{
}

} // verus!
