//! The texts that say what an operation will do and what it did.

use crate::delete::{DeleteOutcome, DeletePlan, Target};
use crate::gc::{GcOutcome, GcPlan};
use crate::panes::{both, wrapped};
use crate::scan::{
    condemned_keys, kind_at, kind_stat_ok, kinds_ok, prefix_name, rank, row_owner, scan_ok, tally,
    Owner, Prefix, PrefixStat, PrefixTable, RowView, ScanResult, Sel, PREFIXES,
};
use crate::sweep::SweepPlan;
use crate::text::{
    byte_size, decimal, decimal_text, head, left_aligned, lemma_follows, lemma_occurs_grows,
    lemma_occurs_self, lemma_stands, occurs, push_left, push_number, push_right, push_size,
    right_aligned, size_text,
};
use crate::trim::{TrimOutcome, TrimPlan};
use vstd::prelude::*;

verus! {

broadcast use vstd::string::group_string_axioms;

/// The widths of a line on a kind of row, and what stands between its numbers.
pub struct KindFormat {
    pub name: usize,
    pub rows: usize,
    pub gap: &'static str,
    pub bytes: usize,
}

/// A line on a kind of row.
pub open spec fn kind_text(f: KindFormat, name: Seq<char>, s: PrefixStat) -> Seq<char> {
    "  "@ + left_aligned(name, f.name as int) + " "@ + right_aligned(
        decimal(s.rows as nat),
        f.rows as int,
    ) + f.gap@ + right_aligned(byte_size(s.bytes), f.bytes as int)
}

/// The lines on the first `n` kinds of which there are rows, in the order of their names.
pub open spec fn kind_texts(f: KindFormat, t: Seq<PrefixStat>, n: int) -> Seq<Seq<char>>
    decreases n,
{
    if n <= 0 {
        Seq::empty()
    } else {
        let rest = kind_texts(f, t, n - 1);
        if t[n - 1].rows > 0 {
            rest.push(kind_text(f, prefix_name(kind_at(n - 1)), t[n - 1]))
        } else {
            rest
        }
    }
}

/// A line on a kind of row.
fn kind_line(f: &KindFormat, p: Prefix, s: PrefixStat) -> (r: String)
    ensures
        r@ == kind_text(*f, prefix_name(p), s),
{
    let mut out = "  ".to_owned();
    push_left(&mut out, p.name(), f.name);
    out.push_str(" ");
    push_right(&mut out, decimal_text(s.rows).as_str(), f.rows);
    out.push_str(f.gap);
    push_right(&mut out, size_text(s.bytes).as_str(), f.bytes);
    out
}

/// A line on each kind of which there are rows.
pub fn kind_lines(f: &KindFormat, t: &PrefixTable) -> (r: Vec<String>)
    requires
        t.wf(),
    ensures
        crate::text::views(r@) == kind_texts(*f, t@, PREFIXES as int),
{
    let mut out: Vec<String> = Vec::new();
    let mut i: usize = 0;
    assert(crate::text::views(out@) =~= kind_texts(*f, t@, 0));
    while i < PREFIXES
        invariant
            i <= PREFIXES,
            t.wf(),
            crate::text::views(out@) == kind_texts(*f, t@, i as int),
        decreases PREFIXES - i,
    {
        let p = Prefix::at(i);
        assert(p == kind_at(i as int));
        let s = t.get(p);
        if s.rows > 0 {
            let ghost before = crate::text::views(out@);
            let line = kind_line(f, p, s);
            out.push(line);
            assert(crate::text::views(out@) =~= before.push(line@));
        }
        i += 1;
    }
    out
}

/// A line on subagents whose parent is gone; empty where there are none.
pub open spec fn dangling_text(n: nat) -> Seq<char> {
    if n == 0 {
        Seq::empty()
    } else {
        "含 "@ + decimal(n) + " 个孤儿子代理(父会话已删除),将连 header 一起清除。\n"@
    }
}

/// A line on subagents whose parent is gone; empty where there are none.
pub fn dangling_note(n: usize) -> (r: String)
    ensures
        r@ == dangling_text(n as nat),
{
    if n == 0 {
        let r = String::new();
        assert(r@ =~= Seq::<char>::empty());
        return r;
    }
    let mut out = "含 ".to_owned();
    push_number(&mut out, n as u64);
    out.push_str(" 个孤儿子代理(父会话已删除),将连 header 一起清除。\n");
    out
}

/// The rows of orphans among the first `n` kinds.
pub open spec fn orphan_rows(t: Seq<PrefixStat>, n: int) -> nat
    decreases n,
{
    if n <= 0 {
        0
    } else {
        orphan_rows(t, n - 1) + t[n - 1].orphan_rows as nat
    }
}

/// The bytes of orphans among the first `n` kinds.
pub open spec fn orphan_bytes(t: Seq<PrefixStat>, n: int) -> nat
    decreases n,
{
    if n <= 0 {
        0
    } else {
        orphan_bytes(t, n - 1) + t[n - 1].orphan_bytes as nat
    }
}

/// The bytes of the first `n` kinds.
pub open spec fn owned_bytes(t: Seq<PrefixStat>, n: int) -> nat
    decreases n,
{
    if n <= 0 {
        0
    } else {
        owned_bytes(t, n - 1) + t[n - 1].bytes as nat
    }
}

/// What the kinds add up to: the rows and the bytes of orphans, and all bytes.
pub(crate) struct Sums {
    pub(crate) orphan_rows: u64,
    pub(crate) orphan_bytes: u64,
    pub(crate) bytes: u64,
}

pub(crate) fn sum_kinds(t: &PrefixTable) -> (r: Sums)
    requires
        t.wf(),
    ensures
        r.orphan_rows == wrapped(orphan_rows(t@, PREFIXES as int)),
        r.orphan_bytes == wrapped(orphan_bytes(t@, PREFIXES as int)),
        r.bytes == wrapped(owned_bytes(t@, PREFIXES as int)),
{
    let mut rows: u64 = 0;
    let mut lost: u64 = 0;
    let mut bytes: u64 = 0;
    let mut i: usize = 0;
    while i < PREFIXES
        invariant
            i <= PREFIXES,
            t.wf(),
            rows == wrapped(orphan_rows(t@, i as int)),
            lost == wrapped(orphan_bytes(t@, i as int)),
            bytes == wrapped(owned_bytes(t@, i as int)),
        decreases PREFIXES - i,
    {
        let s = t.get(Prefix::at(i));
        rows = both(
            rows,
            s.orphan_rows,
            Ghost(orphan_rows(t@, i as int)),
            Ghost(s.orphan_rows as nat),
        );
        lost = both(
            lost,
            s.orphan_bytes,
            Ghost(orphan_bytes(t@, i as int)),
            Ghost(s.orphan_bytes as nat),
        );
        bytes = both(bytes, s.bytes, Ghost(owned_bytes(t@, i as int)), Ghost(s.bytes as nat));
        i += 1;
    }
    Sums { orphan_rows: rows, orphan_bytes: lost, bytes }
}

/// What a sweep will do, from the figures of a scan.
pub open spec fn scan_sweep_text(scan: ScanResult, dangling: nat, locked: bool) -> Seq<char> {
    let rows = wrapped(
        orphan_rows(scan.per_prefix@, PREFIXES as int) + scan.live_tombstone_rows as nat,
    );
    let note = if locked {
        "(维护模式: 排他锁保证该清单精确,执行时直接删除,无需重扫)"@
    } else {
        "(数字来自当前扫描快照,执行时在写连接上重新精确计算;r 键可先重扫)"@
    };
    "将清扫孤儿数据 "@ + decimal(rows as nat) + " 行 / "@ + byte_size(
        wrapped(orphan_bytes(scan.per_prefix@, PREFIXES as int)),
    ) + "(涉及 "@ + decimal(scan.orphan_composers@.len()) + " 个孤儿 composer,存活会话墓碑行 "@
        + decimal(scan.live_tombstone_rows as nat) + ")。\n"@ + dangling_text(dangling)
        + "只删界面上不可见的死数据,自动生成可回滚备份。\n"@ + note
}

/// What a sweep will do, from the figures of a scan.
pub fn sweep_summary_from_scan(scan: &ScanResult, dangling: usize, locked: bool) -> (r: String)
    requires
        scan.per_prefix.wf(),
    ensures
        r@ == scan_sweep_text(*scan, dangling as nat, locked),
{
    let sums = sum_kinds(&scan.per_prefix);
    let rows: u64 = both(
        sums.orphan_rows,
        scan.live_tombstone_rows,
        Ghost(orphan_rows(scan.per_prefix@, PREFIXES as int)),
        Ghost(scan.live_tombstone_rows as nat),
    );
    let mut out = "将清扫孤儿数据 ".to_owned();
    push_number(&mut out, rows);
    out.push_str(" 行 / ");
    push_size(&mut out, sums.orphan_bytes);
    out.push_str("(涉及 ");
    push_number(&mut out, scan.orphan_composers.len() as u64);
    out.push_str(" 个孤儿 composer,存活会话墓碑行 ");
    push_number(&mut out, scan.live_tombstone_rows);
    out.push_str(")。\n");
    out.push_str(dangling_note(dangling).as_str());
    out.push_str("只删界面上不可见的死数据,自动生成可回滚备份。\n");
    out.push_str(
        if locked {
            "(维护模式: 排他锁保证该清单精确,执行时直接删除,无需重扫)"
        } else {
            "(数字来自当前扫描快照,执行时在写连接上重新精确计算;r 键可先重扫)"
        },
    );
    out
}

/// What a sweep will do.
pub open spec fn sweep_text(plan: SweepPlan) -> Seq<char> {
    "将清扫孤儿数据 "@ + decimal(plan.keys@.len()) + " 行 / "@ + byte_size(plan.total_bytes) + "(涉及 "@
        + decimal(plan.orphan_composers as nat) + " 个孤儿 composer,墓碑行 "@ + decimal(
        plan.tombstone_rows as nat,
    ) + ")。\n"@ + dangling_text(plan.dangling_sessions@.len())
        + "只删界面上不可见的死数据,自动生成可回滚备份。"@
}

/// What a sweep will do.
pub fn sweep_summary(plan: &SweepPlan) -> (r: String)
    ensures
        r@ == sweep_text(*plan),
{
    let mut out = "将清扫孤儿数据 ".to_owned();
    push_number(&mut out, plan.keys.len() as u64);
    out.push_str(" 行 / ");
    push_size(&mut out, plan.total_bytes);
    out.push_str("(涉及 ");
    push_number(&mut out, plan.orphan_composers);
    out.push_str(" 个孤儿 composer,墓碑行 ");
    push_number(&mut out, plan.tombstone_rows);
    out.push_str(")。\n");
    out.push_str(dangling_note(plan.dangling_sessions.len()).as_str());
    out.push_str("只删界面上不可见的死数据,自动生成可回滚备份。");
    out
}

/// Where the backup is.
pub open spec fn backup_text(path: Option<String>) -> Seq<char> {
    match path {
        Some(p) => p@,
        None => "无"@,
    }
}

/// Where the backup is.
pub fn backup_label(path: &Option<String>) -> (r: &str)
    ensures
        r@ == backup_text(*path),
{
    match path {
        Some(p) => p.as_str(),
        None => "无",
    }
}

/// What a sweep did.
pub open spec fn swept_text(rows: u64, headers: u64, backup: Option<String>) -> Seq<char> {
    let purged = if headers > 0 {
        ",连带清除 "@ + decimal(headers as nat) + " 个孤儿子代理 header"@
    } else {
        Seq::empty()
    };
    "已清扫 "@ + decimal(rows as nat) + " 行孤儿数据"@ + purged + "。备份: "@ + backup_text(backup)
}

/// What a sweep did.
pub fn sweep_outcome_summary(rows: u64, purged_headers: u64, backup: &Option<String>) -> (r: String)
    ensures
        r@ == swept_text(rows, purged_headers, *backup),
{
    let mut purged = String::new();
    if purged_headers > 0 {
        purged.push_str(",连带清除 ");
        push_number(&mut purged, purged_headers);
        purged.push_str(" 个孤儿子代理 header");
        assert(purged@ =~= ",连带清除 "@ + decimal(purged_headers as nat) + " 个孤儿子代理 header"@);
    } else {
        assert(purged@ =~= Seq::<char>::empty());
    }
    let mut out = "已清扫 ".to_owned();
    push_number(&mut out, rows);
    out.push_str(" 行孤儿数据");
    out.push_str(purged.as_str());
    out.push_str("。备份: ");
    out.push_str(backup_label(backup));
    out
}

/// The name of a session on the screen.
pub open spec fn name_text(name: Option<String>) -> Seq<char> {
    match name {
        Some(n) => n@,
        None => "(未命名)"@,
    }
}

/// The name of a session on the screen.
pub(crate) fn shown_name(name: &Option<String>) -> (r: &str)
    ensures
        r@ == name_text(*name),
{
    match name {
        Some(n) => n.as_str(),
        None => "(未命名)",
    }
}

/// A line on a session to delete.
pub open spec fn target_text(t: Target) -> Seq<char> {
    "  "@ + (if t.cascaded {
        "└ 连带 "@
    } else {
        ""@
    }) + head(t.composer_id@, 8) + "  "@ + name_text(t.name) + "\n"@
}

/// Lines on the sessions to delete.
pub open spec fn target_texts(ts: Seq<Target>) -> Seq<char>
    decreases ts.len(),
{
    if ts.len() == 0 {
        Seq::empty()
    } else {
        target_texts(ts.drop_last()) + target_text(ts.last())
    }
}

/// How many of the sessions go along with another.
pub open spec fn going_along(ts: Seq<Target>) -> nat
    decreases ts.len(),
{
    if ts.len() == 0 {
        0
    } else {
        going_along(ts.drop_last()) + if ts.last().cascaded {
            1nat
        } else {
            0
        }
    }
}

/// What a deletion will do.
pub open spec fn delete_text(plan: DeletePlan) -> Seq<char> {
    let along = going_along(plan.targets@);
    "将删除 "@ + decimal(plan.targets@.len()) + " 个会话"@ + (if along > 0 {
        "(含连带子代理 "@ + decimal(along) + " 个)"@
    } else {
        Seq::empty()
    }) + ",共 "@ + decimal(plan.keys@.len()) + " 行 / "@ + byte_size(plan.total_bytes) + ":\n"@
        + target_texts(plan.targets@) + "同步四处存储,自动生成可回滚备份。"@
}

/// What a deletion will do.
pub fn delete_summary(plan: &DeletePlan) -> (r: String)
    ensures
        r@ == delete_text(*plan),
{
    let ghost ts = plan.targets@;
    let mut along: u64 = 0;
    let mut lines = String::new();
    let mut i: usize = 0;
    let n: usize = plan.targets.len();
    assert(lines@ =~= target_texts(ts.take(0)));
    while i < n
        invariant
            i <= n,
            n == ts.len(),
            ts == plan.targets@,
            along == going_along(ts.take(i as int)),
            along <= i,
            lines@ == target_texts(ts.take(i as int)),
        decreases n - i,
    {
        let t = &plan.targets[i];
        let ghost before = lines@;
        lines.push_str("  ");
        lines.push_str(
            if t.cascaded {
                "└ 连带 "
            } else {
                ""
            },
        );
        lines.push_str(t.composer_id.short());
        lines.push_str("  ");
        lines.push_str(shown_name(&t.name));
        lines.push_str("\n");
        if t.cascaded {
            along += 1;
        }
        proof {
            let u = ts.take(i + 1);
            assert(u.drop_last() =~= ts.take(i as int));
            assert(u.last() == *t);
            assert(lines@ =~= before + target_text(*t));
        }
        i += 1;
    }
    assert(ts.take(i as int) =~= ts);
    let mut extra = String::new();
    if along > 0 {
        extra.push_str("(含连带子代理 ");
        push_number(&mut extra, along);
        extra.push_str(" 个)");
        assert(extra@ =~= "(含连带子代理 "@ + decimal(along as nat) + " 个)"@);
    } else {
        assert(extra@ =~= Seq::<char>::empty());
    }
    let mut out = "将删除 ".to_owned();
    push_number(&mut out, n as u64);
    out.push_str(" 个会话");
    out.push_str(extra.as_str());
    out.push_str(",共 ");
    push_number(&mut out, plan.keys.len() as u64);
    out.push_str(" 行 / ");
    push_size(&mut out, plan.total_bytes);
    out.push_str(":\n");
    out.push_str(lines.as_str());
    out.push_str("同步四处存储,自动生成可回滚备份。");
    out
}

/// What a deletion did.
pub open spec fn deleted_text(o: DeleteOutcome) -> Seq<char> {
    "已删除 "@ + decimal(o.plan.targets@.len()) + " 个会话("@ + decimal(o.deleted_rows as nat)
        + " 行,workspace 库改写 "@ + decimal(o.workspaces_edited@.len()) + " 个)。备份: "@ + backup_text(
        o.backup_path,
    )
}

/// What a deletion did.
pub fn delete_outcome_summary(o: &DeleteOutcome) -> (r: String)
    ensures
        r@ == deleted_text(*o),
{
    let mut out = "已删除 ".to_owned();
    push_number(&mut out, o.plan.targets.len() as u64);
    out.push_str(" 个会话(");
    push_number(&mut out, o.deleted_rows);
    out.push_str(" 行,workspace 库改写 ");
    push_number(&mut out, o.workspaces_edited.len() as u64);
    out.push_str(" 个)。备份: ");
    out.push_str(backup_label(&o.backup_path));
    out
}

/// The form of a line on a kind in a summary.
pub open spec fn summary_format() -> KindFormat {
    KindFormat { name: 32, rows: 7, gap: " 行 ", bytes: 10 }
}

/// The lines, each with its end.
pub open spec fn ended(lines: Seq<Seq<char>>) -> Seq<char>
    decreases lines.len(),
{
    if lines.len() == 0 {
        Seq::empty()
    } else {
        ended(lines.drop_last()) + lines.last() + "\n"@
    }
}

/// What trimming will do.
pub open spec fn trim_text(plan: TrimPlan) -> Seq<char> {
    "将修剪 "@ + decimal(plan.targets@.len()) + " 个会话的快照数据,共 "@ + decimal(plan.keys@.len())
        + " 行 / "@ + byte_size(plan.total_bytes) + "(正文保留):\n"@ + ended(
        kind_texts(summary_format(), plan.per_prefix@, PREFIXES as int),
    ) + "影响仅限\"恢复到检查点\",自动生成可回滚备份。"@
}

/// What trimming will do.
pub fn trim_summary(plan: &TrimPlan) -> (r: String)
    requires
        plan.per_prefix.wf(),
    ensures
        r@ == trim_text(*plan),
{
    let f = KindFormat { name: 32, rows: 7, gap: " 行 ", bytes: 10 };
    let kinds = kind_lines(&f, &plan.per_prefix);
    let ghost ks = crate::text::views(kinds@);
    let mut lines = String::new();
    let mut i: usize = 0;
    assert(lines@ =~= ended(ks.take(0)));
    while i < kinds.len()
        invariant
            i <= kinds@.len(),
            ks == crate::text::views(kinds@),
            lines@ == ended(ks.take(i as int)),
        decreases kinds@.len() - i,
    {
        lines.push_str(kinds[i].as_str());
        lines.push_str("\n");
        proof {
            let u = ks.take(i + 1);
            assert(u.drop_last() =~= ks.take(i as int));
            assert(u.last() == kinds@[i as int]@);
        }
        i += 1;
    }
    assert(ks.take(i as int) =~= ks);
    let mut out = "将修剪 ".to_owned();
    push_number(&mut out, plan.targets.len() as u64);
    out.push_str(" 个会话的快照数据,共 ");
    push_number(&mut out, plan.keys.len() as u64);
    out.push_str(" 行 / ");
    push_size(&mut out, plan.total_bytes);
    out.push_str("(正文保留):\n");
    out.push_str(lines.as_str());
    out.push_str("影响仅限\"恢复到检查点\",自动生成可回滚备份。");
    out
}

/// What trimming did.
pub open spec fn trimmed_text(o: TrimOutcome) -> Seq<char> {
    "已修剪 "@ + decimal(o.deleted_rows as nat) + " 行 / "@ + byte_size(o.plan.total_bytes)
        + "。备份: "@ + backup_text(o.backup_path)
}

/// What trimming did.
pub fn trim_outcome_summary(o: &TrimOutcome) -> (r: String)
    ensures
        r@ == trimmed_text(*o),
{
    let mut out = "已修剪 ".to_owned();
    push_number(&mut out, o.deleted_rows);
    out.push_str(" 行 / ");
    push_size(&mut out, o.plan.total_bytes);
    out.push_str("。备份: ");
    out.push_str(backup_label(&o.backup_path));
    out
}

/// What a collection will do; `percent` is the share of roots that could not be read.
pub open spec fn gc_text(plan: GcPlan, percent: Seq<char>) -> Seq<char> {
    "blob: "@ + decimal(plan.total_blobs as nat) + " 个 / "@ + byte_size(plan.total_bytes)
        + ",可回收 "@ + decimal(plan.orphans@.len()) + " 个 / "@ + byte_size(plan.orphan_bytes)
        + "\ncomposer.content: "@ + decimal(plan.content_total as nat) + " 个 / "@ + byte_size(
        plan.content_bytes,
    ) + ",可回收 "@ + decimal(plan.content_orphans@.len()) + " 个 / "@ + byte_size(
        plan.content_orphan_bytes,
    ) + "\n根解码失败率 "@ + percent + "%(阈值 2%)。自动生成可回滚备份。"@
}

/// What a collection will do; `percent` is the share of roots that could not be read.
pub fn gc_summary(plan: &GcPlan, percent: &str) -> (r: String)
    ensures
        r@ == gc_text(*plan, percent@),
{
    let mut out = "blob: ".to_owned();
    push_number(&mut out, plan.total_blobs);
    out.push_str(" 个 / ");
    push_size(&mut out, plan.total_bytes);
    out.push_str(",可回收 ");
    push_number(&mut out, plan.orphans.len() as u64);
    out.push_str(" 个 / ");
    push_size(&mut out, plan.orphan_bytes);
    out.push_str("\ncomposer.content: ");
    push_number(&mut out, plan.content_total);
    out.push_str(" 个 / ");
    push_size(&mut out, plan.content_bytes);
    out.push_str(",可回收 ");
    push_number(&mut out, plan.content_orphans.len() as u64);
    out.push_str(" 个 / ");
    push_size(&mut out, plan.content_orphan_bytes);
    out.push_str("\n根解码失败率 ");
    out.push_str(percent);
    out.push_str("%(阈值 2%)。自动生成可回滚备份。");
    out
}

/// What a collection did.
pub open spec fn collected_text(o: GcOutcome) -> Seq<char> {
    "已回收 "@ + decimal(o.plan.orphans@.len()) + " 个孤儿 blob + "@ + decimal(
        o.plan.content_orphans@.len(),
    ) + " 个 content 行,共 "@ + byte_size(
        wrapped((o.plan.orphan_bytes + o.plan.content_orphan_bytes) as nat),
    ) + "。备份: "@ + backup_text(o.backup_path)
}

/// What a collection did.
pub fn gc_outcome_summary(o: &GcOutcome) -> (r: String)
    ensures
        r@ == collected_text(*o),
{
    let mut out = "已回收 ".to_owned();
    push_number(&mut out, o.plan.orphans.len() as u64);
    out.push_str(" 个孤儿 blob + ");
    push_number(&mut out, o.plan.content_orphans.len() as u64);
    out.push_str(" 个 content 行,共 ");
    push_size(&mut out, o.plan.orphan_bytes.wrapping_add(o.plan.content_orphan_bytes));
    out.push_str("。备份: ");
    out.push_str(backup_label(&o.backup_path));
    out
}

/// What giving pages back will do, in one go or in small steps.
pub open spec fn shrink_plan_text(pages: u64, bytes: u64, full: bool) -> Seq<char> {
    if pages == 0 {
        "没有空闲页可回收,文件已是紧凑状态。"@
    } else if full {
        "全量 VACUUM: 顺序重建整库,回收空闲 "@ + decimal(pages as nat) + " 页 / "@ + byte_size(bytes)
            + "。\n空闲占比高时比增量快一个数量级,但需要约等于有效数据量的临时磁盘空间,\n且单事务执行,**中途不可取消**。"@
    } else {
        "增量收缩: 回收空闲 "@ + decimal(pages as nat) + " 页 / "@ + byte_size(bytes)
            + "。\n逐批进行,**随时可按 Esc 取消**,已回收部分保留、下次可续做。\n代价是随机 I/O——空闲页很多或文件系统很慢时会以小时计,\n那种情况下改用全量 VACUUM(帮助里的 V 键)更划算。"@
    }
}

/// What giving pages back will do, in one go or in small steps.
pub fn shrink_summary(pages: u64, bytes: u64, full: bool) -> (r: String)
    ensures
        r@ == shrink_plan_text(pages, bytes, full),
{
    if pages == 0 {
        return "没有空闲页可回收,文件已是紧凑状态。".to_owned();
    }
    let mut out = if full {
        "全量 VACUUM: 顺序重建整库,回收空闲 ".to_owned()
    } else {
        "增量收缩: 回收空闲 ".to_owned()
    };
    push_number(&mut out, pages);
    out.push_str(" 页 / ");
    push_size(&mut out, bytes);
    out.push_str(
        if full {
            "。\n空闲占比高时比增量快一个数量级,但需要约等于有效数据量的临时磁盘空间,\n且单事务执行,**中途不可取消**。"
        } else {
            "。\n逐批进行,**随时可按 Esc 取消**,已回收部分保留、下次可续做。\n代价是随机 I/O——空闲页很多或文件系统很慢时会以小时计,\n那种情况下改用全量 VACUUM(帮助里的 V 键)更划算。"
        },
    );
    out
}

/// The ids of the sessions that an operation was about.
pub fn target_names(targets: &[Target]) -> (r: Vec<String>)
    ensures
        crate::text::views(r@) == targets@.map_values(|t: Target| t.composer_id@),
{
    let ghost all = targets@.map_values(|t: Target| t.composer_id@);
    let mut out: Vec<String> = Vec::new();
    let mut i: usize = 0;
    assert(crate::text::views(out@) =~= all.take(0));
    while i < targets.len()
        invariant
            i <= targets@.len(),
            all == targets@.map_values(|t: Target| t.composer_id@),
            crate::text::views(out@) == all.take(i as int),
        decreases targets@.len() - i,
    {
        let ghost before = crate::text::views(out@);
        let id = targets[i].composer_id.as_str().to_owned();
        out.push(id);
        proof {
            assert(crate::text::views(out@) =~= before.push(id@));
            assert(all.take(i + 1) =~= all.take(i as int).push(all[i as int]));
        }
        i += 1;
    }
    assert(all.take(i as int) =~= all);
    out
}

/// The rows of orphans of the first `n` kinds in a table.
spec fn orphans_of(live: Set<Seq<char>>, rows: Seq<RowView>, n: int) -> nat
    decreases n,
{
    if n <= 0 {
        0
    } else {
        orphans_of(live, rows, n - 1) + tally(live, rows, Sel::OrphanKind(kind_at(n - 1)))
    }
}

/// One row more counts for its kind, where it is an orphan's.
proof fn lemma_orphans_push(live: Set<Seq<char>>, rows: Seq<RowView>, n: int)
    requires
        rows.len() > 0,
        n <= PREFIXES,
    ensures
        orphans_of(live, rows, n) == orphans_of(live, rows.drop_last(), n) + (match row_owner(
            rows.last(),
        ) {
            Owner::Owned(p, c) => if !live.contains(c) && rank(p) < n {
                1nat
            } else {
                0
            },
            _ => 0,
        }),
    decreases n,
{
    if n > 0 {
        lemma_orphans_push(live, rows, n - 1);
        assert(rank(kind_at(n - 1)) == n - 1);
    }
}

proof fn lemma_condemned_count(live: Set<Seq<char>>, rows: Seq<RowView>)
    ensures
        condemned_keys(live, rows).len() == orphans_of(live, rows, PREFIXES as int) + tally(
            live,
            rows,
            Sel::LiveTombstone,
        ),
    decreases rows.len(),
{
    if rows.len() > 0 {
        lemma_condemned_count(live, rows.drop_last());
        lemma_orphans_push(live, rows, PREFIXES as int);
    } else {
        lemma_no_orphans_of(live, rows, PREFIXES as int);
    }
}

proof fn lemma_no_orphans_of(live: Set<Seq<char>>, rows: Seq<RowView>, n: int)
    requires
        rows.len() == 0,
    ensures
        orphans_of(live, rows, n) == 0,
    decreases n,
{
    if n > 0 {
        lemma_no_orphans_of(live, rows, n - 1);
    }
}

proof fn lemma_orphan_rows(scan: ScanResult, live: Set<Seq<char>>, rows: Seq<RowView>, n: int)
    requires
        kinds_ok(scan.per_prefix, live, rows),
        n <= PREFIXES,
    ensures
        orphan_rows(scan.per_prefix@, n) == orphans_of(live, rows, n),
    decreases n,
{
    if n > 0 {
        lemma_orphan_rows(scan, live, rows, n - 1);
        assert(rank(kind_at(n - 1)) == n - 1);
        assert(kind_stat_ok(scan.per_prefix@[rank(kind_at(n - 1))], live, rows, kind_at(n - 1)));
    }
}

/// What is said of a sweep from the figures of a scan is exact: the rows that it names are
/// as many as the keys that go.
pub proof fn lemma_sweep_text_is_exact(
    scan: ScanResult,
    live: Set<Seq<char>>,
    rows: Seq<RowView>,
    deep: bool,
    collect: bool,
)
    requires
        scan_ok(scan, live, rows, deep, collect),
    ensures
        wrapped(
            orphan_rows(scan.per_prefix@, PREFIXES as int) + scan.live_tombstone_rows as nat,
        ) == condemned_keys(live, rows).len(),
        collect ==> scan.condemned_keys@.len() == condemned_keys(live, rows).len(),
{
    lemma_orphan_rows(scan, live, rows, PREFIXES as int);
    lemma_condemned_count(live, rows);
    lemma_condemned_bound(live, rows);
    if collect {
        assert(crate::text::views(scan.condemned_keys@).len() == scan.condemned_keys@.len());
    }
}

proof fn lemma_condemned_bound(live: Set<Seq<char>>, rows: Seq<RowView>)
    ensures
        condemned_keys(live, rows).len() <= rows.len(),
    decreases rows.len(),
{
    if rows.len() > 0 {
        lemma_condemned_bound(live, rows.drop_last());
    }
}

/// A line on a kind shows its name, its rows and its bytes, in this order.
pub proof fn lemma_kind_text(f: KindFormat, name: Seq<char>, s: PrefixStat)
    ensures
        occurs(left_aligned(name, f.name as int) + " "@
            + right_aligned(decimal(s.rows as nat), f.rows as int), kind_text(f, name, s)),
        occurs(right_aligned(decimal(s.rows as nat), f.rows as int) + f.gap@
            + right_aligned(byte_size(s.bytes), f.bytes as int), kind_text(f, name, s)),
{
    let p0 = "  "@;
    let p1 = left_aligned(name, f.name as int);
    let p2 = " "@;
    let p3 = right_aligned(decimal(s.rows as nat), f.rows as int);
    let p4 = f.gap@;
    let p5 = right_aligned(byte_size(s.bytes), f.bytes as int);
    let t0 = p0;
    let t1 = t0 + p1;
    let t2 = t1 + p2;
    let t3 = t2 + p3;
    let t4 = t3 + p4;
    let t5 = t4 + p5;
    assert(kind_text(f, name, s) == t5);
    assert(t3 =~= t0 + (p1 + p2 + p3));
    lemma_stands(t0, p1 + p2 + p3);
    lemma_occurs_grows(p1 + p2 + p3, t3, p4);
    lemma_occurs_grows(p1 + p2 + p3, t4, p5);
    assert(t5 =~= t2 + (p3 + p4 + p5));
    lemma_stands(t2, p3 + p4 + p5);
}

/// What a sweep will do by the figures of a scan: the rows of orphans and the tombstones go, and
/// the bytes, the owners and the tombstones stand each behind their name.
pub proof fn lemma_scan_sweep_text(scan: ScanResult, dangling: nat, locked: bool)
    ensures
        occurs("将清扫孤儿数据 "@ + decimal(wrapped(orphan_rows(scan.per_prefix@, PREFIXES as int)
            + scan.live_tombstone_rows as nat) as nat), scan_sweep_text(scan, dangling, locked)),
        occurs(" 行 / "@
            + byte_size(wrapped(orphan_bytes(scan.per_prefix@, PREFIXES as int))), scan_sweep_text(scan, dangling, locked)),
        occurs("(涉及 "@
            + decimal(scan.orphan_composers@.len()), scan_sweep_text(scan, dangling, locked)),
        occurs(" 个孤儿 composer,存活会话墓碑行 "@
            + decimal(scan.live_tombstone_rows as nat), scan_sweep_text(scan, dangling, locked)),
        occurs(")。\n"@ + dangling_text(dangling), scan_sweep_text(scan, dangling, locked)),
{
    let p0 = "将清扫孤儿数据 "@;
    let p1 = decimal(wrapped(orphan_rows(scan.per_prefix@, PREFIXES as int)
        + scan.live_tombstone_rows as nat) as nat);
    let p2 = " 行 / "@;
    let p3 = byte_size(wrapped(orphan_bytes(scan.per_prefix@, PREFIXES as int)));
    let p4 = "(涉及 "@;
    let p5 = decimal(scan.orphan_composers@.len());
    let p6 = " 个孤儿 composer,存活会话墓碑行 "@;
    let p7 = decimal(scan.live_tombstone_rows as nat);
    let p8 = ")。\n"@;
    let p9 = dangling_text(dangling);
    let p10 = "只删界面上不可见的死数据,自动生成可回滚备份。\n"@;
    let p11 = (if locked { "(维护模式: 排他锁保证该清单精确,执行时直接删除,无需重扫)"@ } else { "(数字来自当前扫描快照,执行时在写连接上重新精确计算;r 键可先重扫)"@ });
    let t0 = p0;
    let t1 = t0 + p1;
    let t2 = t1 + p2;
    let t3 = t2 + p3;
    let t4 = t3 + p4;
    let t5 = t4 + p5;
    let t6 = t5 + p6;
    let t7 = t6 + p7;
    let t8 = t7 + p8;
    let t9 = t8 + p9;
    let t10 = t9 + p10;
    let t11 = t10 + p11;
    assert(scan_sweep_text(scan, dangling, locked) == t11);
    lemma_occurs_self(p0 + p1);
    lemma_occurs_grows(p0 + p1, t1, p2);
    lemma_occurs_grows(p0 + p1, t2, p3);
    lemma_occurs_grows(p0 + p1, t3, p4);
    lemma_occurs_grows(p0 + p1, t4, p5);
    lemma_occurs_grows(p0 + p1, t5, p6);
    lemma_occurs_grows(p0 + p1, t6, p7);
    lemma_occurs_grows(p0 + p1, t7, p8);
    lemma_occurs_grows(p0 + p1, t8, p9);
    lemma_occurs_grows(p0 + p1, t9, p10);
    lemma_occurs_grows(p0 + p1, t10, p11);
    lemma_follows(t1, p2, p3);
    lemma_occurs_grows(p2 + p3, t3, p4);
    lemma_occurs_grows(p2 + p3, t4, p5);
    lemma_occurs_grows(p2 + p3, t5, p6);
    lemma_occurs_grows(p2 + p3, t6, p7);
    lemma_occurs_grows(p2 + p3, t7, p8);
    lemma_occurs_grows(p2 + p3, t8, p9);
    lemma_occurs_grows(p2 + p3, t9, p10);
    lemma_occurs_grows(p2 + p3, t10, p11);
    lemma_follows(t3, p4, p5);
    lemma_occurs_grows(p4 + p5, t5, p6);
    lemma_occurs_grows(p4 + p5, t6, p7);
    lemma_occurs_grows(p4 + p5, t7, p8);
    lemma_occurs_grows(p4 + p5, t8, p9);
    lemma_occurs_grows(p4 + p5, t9, p10);
    lemma_occurs_grows(p4 + p5, t10, p11);
    lemma_follows(t5, p6, p7);
    lemma_occurs_grows(p6 + p7, t7, p8);
    lemma_occurs_grows(p6 + p7, t8, p9);
    lemma_occurs_grows(p6 + p7, t9, p10);
    lemma_occurs_grows(p6 + p7, t10, p11);
    lemma_follows(t7, p8, p9);
    lemma_occurs_grows(p8 + p9, t9, p10);
    lemma_occurs_grows(p8 + p9, t10, p11);
}

/// What a sweep will do: each number stands behind its name.
pub proof fn lemma_sweep_text(plan: SweepPlan)
    ensures
        occurs("将清扫孤儿数据 "@ + decimal(plan.keys@.len()), sweep_text(plan)),
        occurs(" 行 / "@ + byte_size(plan.total_bytes), sweep_text(plan)),
        occurs("(涉及 "@ + decimal(plan.orphan_composers as nat), sweep_text(plan)),
        occurs(" 个孤儿 composer,墓碑行 "@ + decimal(plan.tombstone_rows as nat), sweep_text(plan)),
        occurs(")。\n"@ + dangling_text(plan.dangling_sessions@.len()), sweep_text(plan)),
{
    let p0 = "将清扫孤儿数据 "@;
    let p1 = decimal(plan.keys@.len());
    let p2 = " 行 / "@;
    let p3 = byte_size(plan.total_bytes);
    let p4 = "(涉及 "@;
    let p5 = decimal(plan.orphan_composers as nat);
    let p6 = " 个孤儿 composer,墓碑行 "@;
    let p7 = decimal(plan.tombstone_rows as nat);
    let p8 = ")。\n"@;
    let p9 = dangling_text(plan.dangling_sessions@.len());
    let p10 = "只删界面上不可见的死数据,自动生成可回滚备份。"@;
    let t0 = p0;
    let t1 = t0 + p1;
    let t2 = t1 + p2;
    let t3 = t2 + p3;
    let t4 = t3 + p4;
    let t5 = t4 + p5;
    let t6 = t5 + p6;
    let t7 = t6 + p7;
    let t8 = t7 + p8;
    let t9 = t8 + p9;
    let t10 = t9 + p10;
    assert(sweep_text(plan) == t10);
    lemma_occurs_self(p0 + p1);
    lemma_occurs_grows(p0 + p1, t1, p2);
    lemma_occurs_grows(p0 + p1, t2, p3);
    lemma_occurs_grows(p0 + p1, t3, p4);
    lemma_occurs_grows(p0 + p1, t4, p5);
    lemma_occurs_grows(p0 + p1, t5, p6);
    lemma_occurs_grows(p0 + p1, t6, p7);
    lemma_occurs_grows(p0 + p1, t7, p8);
    lemma_occurs_grows(p0 + p1, t8, p9);
    lemma_occurs_grows(p0 + p1, t9, p10);
    lemma_follows(t1, p2, p3);
    lemma_occurs_grows(p2 + p3, t3, p4);
    lemma_occurs_grows(p2 + p3, t4, p5);
    lemma_occurs_grows(p2 + p3, t5, p6);
    lemma_occurs_grows(p2 + p3, t6, p7);
    lemma_occurs_grows(p2 + p3, t7, p8);
    lemma_occurs_grows(p2 + p3, t8, p9);
    lemma_occurs_grows(p2 + p3, t9, p10);
    lemma_follows(t3, p4, p5);
    lemma_occurs_grows(p4 + p5, t5, p6);
    lemma_occurs_grows(p4 + p5, t6, p7);
    lemma_occurs_grows(p4 + p5, t7, p8);
    lemma_occurs_grows(p4 + p5, t8, p9);
    lemma_occurs_grows(p4 + p5, t9, p10);
    lemma_follows(t5, p6, p7);
    lemma_occurs_grows(p6 + p7, t7, p8);
    lemma_occurs_grows(p6 + p7, t8, p9);
    lemma_occurs_grows(p6 + p7, t9, p10);
    lemma_follows(t7, p8, p9);
    lemma_occurs_grows(p8 + p9, t9, p10);
}

/// What a sweep did: the rows, the headers where any went, and where the backup is.
pub proof fn lemma_swept_text(rows: u64, headers: u64, backup: Option<String>)
    ensures
        occurs("已清扫 "@ + decimal(rows as nat) + " 行孤儿数据"@, swept_text(rows, headers, backup)),
        occurs("。备份: "@ + backup_text(backup), swept_text(rows, headers, backup)),
{
    let p0 = "已清扫 "@;
    let p1 = decimal(rows as nat);
    let p2 = " 行孤儿数据"@;
    let p3 = (if headers > 0 { ",连带清除 "@ + decimal(headers as nat)
        + " 个孤儿子代理 header"@ } else { Seq::empty() });
    let p4 = "。备份: "@;
    let p5 = backup_text(backup);
    let t0 = p0;
    let t1 = t0 + p1;
    let t2 = t1 + p2;
    let t3 = t2 + p3;
    let t4 = t3 + p4;
    let t5 = t4 + p5;
    assert(swept_text(rows, headers, backup) == t5);
    lemma_occurs_self(p0 + p1 + p2);
    lemma_occurs_grows(p0 + p1 + p2, t2, p3);
    lemma_occurs_grows(p0 + p1 + p2, t3, p4);
    lemma_occurs_grows(p0 + p1 + p2, t4, p5);
    lemma_follows(t3, p4, p5);
}

/// What a deletion will do: the sessions, the rows and their bytes stand each behind their name,
/// and a line on each session follows.
pub proof fn lemma_delete_text(plan: DeletePlan)
    ensures
        occurs("将删除 "@ + decimal(plan.targets@.len()) + " 个会话"@, delete_text(plan)),
        occurs(",共 "@ + decimal(plan.keys@.len()), delete_text(plan)),
        occurs(" 行 / "@ + byte_size(plan.total_bytes), delete_text(plan)),
        occurs(":\n"@ + target_texts(plan.targets@), delete_text(plan)),
{
    let p0 = "将删除 "@;
    let p1 = decimal(plan.targets@.len());
    let p2 = " 个会话"@;
    let p3 = (if going_along(plan.targets@) > 0 { "(含连带子代理 "@
        + decimal(going_along(plan.targets@)) + " 个)"@ } else { Seq::empty() });
    let p4 = ",共 "@;
    let p5 = decimal(plan.keys@.len());
    let p6 = " 行 / "@;
    let p7 = byte_size(plan.total_bytes);
    let p8 = ":\n"@;
    let p9 = target_texts(plan.targets@);
    let p10 = "同步四处存储,自动生成可回滚备份。"@;
    let t0 = p0;
    let t1 = t0 + p1;
    let t2 = t1 + p2;
    let t3 = t2 + p3;
    let t4 = t3 + p4;
    let t5 = t4 + p5;
    let t6 = t5 + p6;
    let t7 = t6 + p7;
    let t8 = t7 + p8;
    let t9 = t8 + p9;
    let t10 = t9 + p10;
    assert(delete_text(plan) == t10);
    lemma_occurs_self(p0 + p1 + p2);
    lemma_occurs_grows(p0 + p1 + p2, t2, p3);
    lemma_occurs_grows(p0 + p1 + p2, t3, p4);
    lemma_occurs_grows(p0 + p1 + p2, t4, p5);
    lemma_occurs_grows(p0 + p1 + p2, t5, p6);
    lemma_occurs_grows(p0 + p1 + p2, t6, p7);
    lemma_occurs_grows(p0 + p1 + p2, t7, p8);
    lemma_occurs_grows(p0 + p1 + p2, t8, p9);
    lemma_occurs_grows(p0 + p1 + p2, t9, p10);
    lemma_follows(t3, p4, p5);
    lemma_occurs_grows(p4 + p5, t5, p6);
    lemma_occurs_grows(p4 + p5, t6, p7);
    lemma_occurs_grows(p4 + p5, t7, p8);
    lemma_occurs_grows(p4 + p5, t8, p9);
    lemma_occurs_grows(p4 + p5, t9, p10);
    lemma_follows(t5, p6, p7);
    lemma_occurs_grows(p6 + p7, t7, p8);
    lemma_occurs_grows(p6 + p7, t8, p9);
    lemma_occurs_grows(p6 + p7, t9, p10);
    lemma_follows(t7, p8, p9);
    lemma_occurs_grows(p8 + p9, t9, p10);
}

/// What a deletion did: the sessions, the rows, the workspaces that changed, and where the
/// backup is.
pub proof fn lemma_deleted_text(o: DeleteOutcome)
    ensures
        occurs("已删除 "@ + decimal(o.plan.targets@.len()) + " 个会话("@, deleted_text(o)),
        occurs(" 个会话("@ + decimal(o.deleted_rows as nat) + " 行,workspace 库改写 "@, deleted_text(o)),
        occurs(" 行,workspace 库改写 "@ + decimal(o.workspaces_edited@.len())
            + " 个)。备份: "@, deleted_text(o)),
        occurs(" 个)。备份: "@ + backup_text(o.backup_path), deleted_text(o)),
{
    let p0 = "已删除 "@;
    let p1 = decimal(o.plan.targets@.len());
    let p2 = " 个会话("@;
    let p3 = decimal(o.deleted_rows as nat);
    let p4 = " 行,workspace 库改写 "@;
    let p5 = decimal(o.workspaces_edited@.len());
    let p6 = " 个)。备份: "@;
    let p7 = backup_text(o.backup_path);
    let t0 = p0;
    let t1 = t0 + p1;
    let t2 = t1 + p2;
    let t3 = t2 + p3;
    let t4 = t3 + p4;
    let t5 = t4 + p5;
    let t6 = t5 + p6;
    let t7 = t6 + p7;
    assert(deleted_text(o) == t7);
    lemma_occurs_self(p0 + p1 + p2);
    lemma_occurs_grows(p0 + p1 + p2, t2, p3);
    lemma_occurs_grows(p0 + p1 + p2, t3, p4);
    lemma_occurs_grows(p0 + p1 + p2, t4, p5);
    lemma_occurs_grows(p0 + p1 + p2, t5, p6);
    lemma_occurs_grows(p0 + p1 + p2, t6, p7);
    assert(t4 =~= t1 + (p2 + p3 + p4));
    lemma_stands(t1, p2 + p3 + p4);
    lemma_occurs_grows(p2 + p3 + p4, t4, p5);
    lemma_occurs_grows(p2 + p3 + p4, t5, p6);
    lemma_occurs_grows(p2 + p3 + p4, t6, p7);
    assert(t6 =~= t3 + (p4 + p5 + p6));
    lemma_stands(t3, p4 + p5 + p6);
    lemma_occurs_grows(p4 + p5 + p6, t6, p7);
    lemma_follows(t5, p6, p7);
}

/// What trimming will do: the sessions, the rows and their bytes.
pub proof fn lemma_trim_text(plan: TrimPlan)
    ensures
        occurs("将修剪 "@ + decimal(plan.targets@.len()) + " 个会话的快照数据,共 "@, trim_text(plan)),
        occurs(" 个会话的快照数据,共 "@ + decimal(plan.keys@.len()) + " 行 / "@, trim_text(plan)),
        occurs(" 行 / "@ + byte_size(plan.total_bytes) + "(正文保留):\n"@, trim_text(plan)),
        occurs("(正文保留):\n"@
            + ended(kind_texts(summary_format(), plan.per_prefix@, PREFIXES as int)), trim_text(plan)),
{
    let p0 = "将修剪 "@;
    let p1 = decimal(plan.targets@.len());
    let p2 = " 个会话的快照数据,共 "@;
    let p3 = decimal(plan.keys@.len());
    let p4 = " 行 / "@;
    let p5 = byte_size(plan.total_bytes);
    let p6 = "(正文保留):\n"@;
    let p7 = ended(kind_texts(summary_format(), plan.per_prefix@, PREFIXES as int));
    let p8 = "影响仅限\"恢复到检查点\",自动生成可回滚备份。"@;
    let t0 = p0;
    let t1 = t0 + p1;
    let t2 = t1 + p2;
    let t3 = t2 + p3;
    let t4 = t3 + p4;
    let t5 = t4 + p5;
    let t6 = t5 + p6;
    let t7 = t6 + p7;
    let t8 = t7 + p8;
    assert(trim_text(plan) == t8);
    lemma_occurs_self(p0 + p1 + p2);
    lemma_occurs_grows(p0 + p1 + p2, t2, p3);
    lemma_occurs_grows(p0 + p1 + p2, t3, p4);
    lemma_occurs_grows(p0 + p1 + p2, t4, p5);
    lemma_occurs_grows(p0 + p1 + p2, t5, p6);
    lemma_occurs_grows(p0 + p1 + p2, t6, p7);
    lemma_occurs_grows(p0 + p1 + p2, t7, p8);
    assert(t4 =~= t1 + (p2 + p3 + p4));
    lemma_stands(t1, p2 + p3 + p4);
    lemma_occurs_grows(p2 + p3 + p4, t4, p5);
    lemma_occurs_grows(p2 + p3 + p4, t5, p6);
    lemma_occurs_grows(p2 + p3 + p4, t6, p7);
    lemma_occurs_grows(p2 + p3 + p4, t7, p8);
    assert(t6 =~= t3 + (p4 + p5 + p6));
    lemma_stands(t3, p4 + p5 + p6);
    lemma_occurs_grows(p4 + p5 + p6, t6, p7);
    lemma_occurs_grows(p4 + p5 + p6, t7, p8);
    lemma_follows(t5, p6, p7);
    lemma_occurs_grows(p6 + p7, t7, p8);
}

/// What trimming did: the rows that went, the bytes, and where the backup is.
pub proof fn lemma_trimmed_text(o: TrimOutcome)
    ensures
        occurs("已修剪 "@ + decimal(o.deleted_rows as nat) + " 行 / "@
            + byte_size(o.plan.total_bytes), trimmed_text(o)),
        occurs("。备份: "@ + backup_text(o.backup_path), trimmed_text(o)),
{
    let p0 = "已修剪 "@;
    let p1 = decimal(o.deleted_rows as nat);
    let p2 = " 行 / "@;
    let p3 = byte_size(o.plan.total_bytes);
    let p4 = "。备份: "@;
    let p5 = backup_text(o.backup_path);
    let t0 = p0;
    let t1 = t0 + p1;
    let t2 = t1 + p2;
    let t3 = t2 + p3;
    let t4 = t3 + p4;
    let t5 = t4 + p5;
    assert(trimmed_text(o) == t5);
    lemma_occurs_self(p0 + p1 + p2 + p3);
    lemma_occurs_grows(p0 + p1 + p2 + p3, t3, p4);
    lemma_occurs_grows(p0 + p1 + p2 + p3, t4, p5);
    lemma_follows(t3, p4, p5);
}

/// What a collection will do: all blobs and those that can go, all contents and those that can
/// go, each with their bytes.
pub proof fn lemma_gc_text(plan: GcPlan, percent: Seq<char>)
    ensures
        occurs("blob: "@ + decimal(plan.total_blobs as nat) + " 个 / "@
            + byte_size(plan.total_bytes) + ",可回收 "@ + decimal(plan.orphans@.len()) + " 个 / "@
            + byte_size(plan.orphan_bytes), gc_text(plan, percent)),
        occurs("\ncomposer.content: "@ + decimal(plan.content_total as nat) + " 个 / "@
            + byte_size(plan.content_bytes) + ",可回收 "@ + decimal(plan.content_orphans@.len())
            + " 个 / "@ + byte_size(plan.content_orphan_bytes), gc_text(plan, percent)),
        occurs("\n根解码失败率 "@ + percent + "%(阈值 2%)。自动生成可回滚备份。"@, gc_text(plan, percent)),
{
    let p0 = "blob: "@;
    let p1 = decimal(plan.total_blobs as nat);
    let p2 = " 个 / "@;
    let p3 = byte_size(plan.total_bytes);
    let p4 = ",可回收 "@;
    let p5 = decimal(plan.orphans@.len());
    let p6 = " 个 / "@;
    let p7 = byte_size(plan.orphan_bytes);
    let p8 = "\ncomposer.content: "@;
    let p9 = decimal(plan.content_total as nat);
    let p10 = " 个 / "@;
    let p11 = byte_size(plan.content_bytes);
    let p12 = ",可回收 "@;
    let p13 = decimal(plan.content_orphans@.len());
    let p14 = " 个 / "@;
    let p15 = byte_size(plan.content_orphan_bytes);
    let p16 = "\n根解码失败率 "@;
    let p17 = percent;
    let p18 = "%(阈值 2%)。自动生成可回滚备份。"@;
    let t0 = p0;
    let t1 = t0 + p1;
    let t2 = t1 + p2;
    let t3 = t2 + p3;
    let t4 = t3 + p4;
    let t5 = t4 + p5;
    let t6 = t5 + p6;
    let t7 = t6 + p7;
    let t8 = t7 + p8;
    let t9 = t8 + p9;
    let t10 = t9 + p10;
    let t11 = t10 + p11;
    let t12 = t11 + p12;
    let t13 = t12 + p13;
    let t14 = t13 + p14;
    let t15 = t14 + p15;
    let t16 = t15 + p16;
    let t17 = t16 + p17;
    let t18 = t17 + p18;
    assert(gc_text(plan, percent) == t18);
    lemma_occurs_self(p0 + p1 + p2 + p3 + p4 + p5 + p6 + p7);
    lemma_occurs_grows(p0 + p1 + p2 + p3 + p4 + p5 + p6 + p7, t7, p8);
    lemma_occurs_grows(p0 + p1 + p2 + p3 + p4 + p5 + p6 + p7, t8, p9);
    lemma_occurs_grows(p0 + p1 + p2 + p3 + p4 + p5 + p6 + p7, t9, p10);
    lemma_occurs_grows(p0 + p1 + p2 + p3 + p4 + p5 + p6 + p7, t10, p11);
    lemma_occurs_grows(p0 + p1 + p2 + p3 + p4 + p5 + p6 + p7, t11, p12);
    lemma_occurs_grows(p0 + p1 + p2 + p3 + p4 + p5 + p6 + p7, t12, p13);
    lemma_occurs_grows(p0 + p1 + p2 + p3 + p4 + p5 + p6 + p7, t13, p14);
    lemma_occurs_grows(p0 + p1 + p2 + p3 + p4 + p5 + p6 + p7, t14, p15);
    lemma_occurs_grows(p0 + p1 + p2 + p3 + p4 + p5 + p6 + p7, t15, p16);
    lemma_occurs_grows(p0 + p1 + p2 + p3 + p4 + p5 + p6 + p7, t16, p17);
    lemma_occurs_grows(p0 + p1 + p2 + p3 + p4 + p5 + p6 + p7, t17, p18);
    assert(t15 =~= t7 + (p8 + p9 + p10 + p11 + p12 + p13 + p14 + p15));
    lemma_stands(t7, p8 + p9 + p10 + p11 + p12 + p13 + p14 + p15);
    lemma_occurs_grows(p8 + p9 + p10 + p11 + p12 + p13 + p14 + p15, t15, p16);
    lemma_occurs_grows(p8 + p9 + p10 + p11 + p12 + p13 + p14 + p15, t16, p17);
    lemma_occurs_grows(p8 + p9 + p10 + p11 + p12 + p13 + p14 + p15, t17, p18);
    assert(t18 =~= t15 + (p16 + p17 + p18));
    lemma_stands(t15, p16 + p17 + p18);
}

/// What a collection did: the blobs and the contents that went, what they weighed together, and
/// where the backup is.
pub proof fn lemma_collected_text(o: GcOutcome)
    ensures
        occurs("已回收 "@ + decimal(o.plan.orphans@.len()) + " 个孤儿 blob + "@, collected_text(o)),
        occurs(" 个孤儿 blob + "@ + decimal(o.plan.content_orphans@.len())
            + " 个 content 行,共 "@, collected_text(o)),
        occurs(" 个 content 行,共 "@ + byte_size(wrapped((o.plan.orphan_bytes
            + o.plan.content_orphan_bytes) as nat)), collected_text(o)),
        occurs("。备份: "@ + backup_text(o.backup_path), collected_text(o)),
{
    let p0 = "已回收 "@;
    let p1 = decimal(o.plan.orphans@.len());
    let p2 = " 个孤儿 blob + "@;
    let p3 = decimal(o.plan.content_orphans@.len());
    let p4 = " 个 content 行,共 "@;
    let p5 = byte_size(wrapped((o.plan.orphan_bytes + o.plan.content_orphan_bytes) as nat));
    let p6 = "。备份: "@;
    let p7 = backup_text(o.backup_path);
    let t0 = p0;
    let t1 = t0 + p1;
    let t2 = t1 + p2;
    let t3 = t2 + p3;
    let t4 = t3 + p4;
    let t5 = t4 + p5;
    let t6 = t5 + p6;
    let t7 = t6 + p7;
    assert(collected_text(o) == t7);
    lemma_occurs_self(p0 + p1 + p2);
    lemma_occurs_grows(p0 + p1 + p2, t2, p3);
    lemma_occurs_grows(p0 + p1 + p2, t3, p4);
    lemma_occurs_grows(p0 + p1 + p2, t4, p5);
    lemma_occurs_grows(p0 + p1 + p2, t5, p6);
    lemma_occurs_grows(p0 + p1 + p2, t6, p7);
    assert(t4 =~= t1 + (p2 + p3 + p4));
    lemma_stands(t1, p2 + p3 + p4);
    lemma_occurs_grows(p2 + p3 + p4, t4, p5);
    lemma_occurs_grows(p2 + p3 + p4, t5, p6);
    lemma_occurs_grows(p2 + p3 + p4, t6, p7);
    lemma_follows(t3, p4, p5);
    lemma_occurs_grows(p4 + p5, t5, p6);
    lemma_occurs_grows(p4 + p5, t6, p7);
    lemma_follows(t5, p6, p7);
}

/// The kinds of which there are rows are listed, each by its own name and with its own counts.
pub proof fn lemma_kind_texts(f: KindFormat, t: Seq<PrefixStat>, n: int, i: int)
    requires
        0 <= i < n <= PREFIXES,
        t[i].rows > 0,
    ensures
        kind_texts(f, t, n).contains(kind_text(f, prefix_name(kind_at(i)), t[i])),
    decreases n,
{
    let rest = kind_texts(f, t, n - 1);
    crate::text::lemma_push_contains(rest, kind_text(f, prefix_name(kind_at(n - 1)), t[n - 1]));
    if i < n - 1 {
        lemma_kind_texts(f, t, n - 1, i);
    }
}

/// Only the kinds of which there are rows are listed.
pub proof fn lemma_kind_texts_only(f: KindFormat, t: Seq<PrefixStat>, n: int, line: Seq<char>)
    requires
        0 <= n <= PREFIXES,
        kind_texts(f, t, n).contains(line),
    ensures
        exists|i: int|
            0 <= i < n && (#[trigger] t[i]).rows > 0 && line == kind_text(
                f,
                prefix_name(kind_at(i)),
                t[i],
            ),
    decreases n,
{
    if n > 0 {
        let rest = kind_texts(f, t, n - 1);
        crate::text::lemma_push_contains(rest, kind_text(f, prefix_name(kind_at(n - 1)), t[n - 1]));
        if rest.contains(line) {
            lemma_kind_texts_only(f, t, n - 1, line);
        } else {
            assert(t[n - 1].rows > 0);
        }
    }
}

/// What the kinds add up to grows with each kind by its own rows and bytes.
pub proof fn lemma_sums(t: Seq<PrefixStat>, n: int)
    requires
        0 <= n < t.len(),
    ensures
        orphan_rows(t, 0) == 0,
        orphan_bytes(t, 0) == 0,
        owned_bytes(t, 0) == 0,
        orphan_rows(t, n + 1) == orphan_rows(t, n) + t[n].orphan_rows,
        orphan_bytes(t, n + 1) == orphan_bytes(t, n) + t[n].orphan_bytes,
        owned_bytes(t, n + 1) == owned_bytes(t, n) + t[n].bytes,
{
}

/// A line on a session to delete shows the beginning of its id and its name, and whether it
/// goes along with another; all sessions have their line, in their order.
pub proof fn lemma_target_text(ts: Seq<Target>, t: Target)
    ensures
        occurs(head(t.composer_id@, 8) + "  "@ + name_text(t.name) + "\n"@, target_text(t)),
        t.cascaded ==> occurs("└ 连带 "@ + head(t.composer_id@, 8), target_text(t)),
        target_texts(ts.push(t)) == target_texts(ts) + target_text(t),
        going_along(ts.push(t)) == going_along(ts) + (if t.cascaded {
            1nat
        } else {
            0
        }),
{
    let h = head(t.composer_id@, 8);
    let n = name_text(t.name);
    let m = if t.cascaded {
        "└ 连带 "@
    } else {
        ""@
    };
    let g = h + "  "@ + n + "\n"@;
    assert(target_text(t) =~= ("  "@ + m) + g);
    lemma_stands("  "@ + m, g);
    lemma_follows("  "@, m, h);
    lemma_occurs_grows(m + h, "  "@ + m + h, "  "@);
    lemma_occurs_grows(m + h, "  "@ + m + h + "  "@, n);
    lemma_occurs_grows(m + h, "  "@ + m + h + "  "@ + n, "\n"@);
    assert(ts.push(t).drop_last() =~= ts);
}

/// Writing the database anew says how many pages and bytes come free.
pub proof fn lemma_full_shrink_text(pages: u64, bytes: u64)
    requires
        pages > 0,
    ensures
        occurs("全量 VACUUM: 顺序重建整库,回收空闲 "@ + decimal(pages as nat) + " 页 / "@
            + byte_size(bytes), shrink_plan_text(pages, bytes, true)),
        occurs("。\n空闲占比高时比增量快一个数量级,但需要约等于有效数据量的临时磁盘空间,\n且单事务执行,**中途不可取消**。"@, shrink_plan_text(pages, bytes, true)),
{
    let p0 = "全量 VACUUM: 顺序重建整库,回收空闲 "@;
    let p1 = decimal(pages as nat);
    let p2 = " 页 / "@;
    let p3 = byte_size(bytes);
    let p4 = "。\n空闲占比高时比增量快一个数量级,但需要约等于有效数据量的临时磁盘空间,\n且单事务执行,**中途不可取消**。"@;
    let t0 = p0;
    let t1 = t0 + p1;
    let t2 = t1 + p2;
    let t3 = t2 + p3;
    let t4 = t3 + p4;
    assert(shrink_plan_text(pages, bytes, true) == t4);
    lemma_occurs_self(p0 + p1 + p2 + p3);
    lemma_occurs_grows(p0 + p1 + p2 + p3, t3, p4);
    assert(t4 =~= t3 + (p4));
    lemma_stands(t3, p4);
}

/// Giving pages back in small steps says how many pages and bytes come free.
pub proof fn lemma_small_shrink_text(pages: u64, bytes: u64)
    requires
        pages > 0,
    ensures
        occurs("增量收缩: 回收空闲 "@ + decimal(pages as nat) + " 页 / "@
            + byte_size(bytes), shrink_plan_text(pages, bytes, false)),
        occurs("。\n逐批进行,**随时可按 Esc 取消**,已回收部分保留、下次可续做。\n代价是随机 I/O——空闲页很多或文件系统很慢时会以小时计,\n那种情况下改用全量 VACUUM(帮助里的 V 键)更划算。"@, shrink_plan_text(pages, bytes, false)),
{
    let p0 = "增量收缩: 回收空闲 "@;
    let p1 = decimal(pages as nat);
    let p2 = " 页 / "@;
    let p3 = byte_size(bytes);
    let p4 = "。\n逐批进行,**随时可按 Esc 取消**,已回收部分保留、下次可续做。\n代价是随机 I/O——空闲页很多或文件系统很慢时会以小时计,\n那种情况下改用全量 VACUUM(帮助里的 V 键)更划算。"@;
    let t0 = p0;
    let t1 = t0 + p1;
    let t2 = t1 + p2;
    let t3 = t2 + p3;
    let t4 = t3 + p4;
    assert(shrink_plan_text(pages, bytes, false) == t4);
    lemma_occurs_self(p0 + p1 + p2 + p3);
    lemma_occurs_grows(p0 + p1 + p2 + p3, t3, p4);
    assert(t4 =~= t3 + (p4));
    lemma_stands(t3, p4);
}

/// Subagents whose parent is gone are counted where there are any, and else not spoken of; the
/// backup is named by its path; a session without a name is called so.
pub proof fn lemma_small_texts(n: nat, path: Option<String>, name: Option<String>)
    ensures
        n == 0 ==> dangling_text(n).len() == 0,
        n > 0 ==> occurs("含 "@ + decimal(n), dangling_text(n)),
        path matches Some(p) ==> backup_text(path) == p@,
        path is None ==> backup_text(path) == "无"@,
        name matches Some(m) ==> name_text(name) == m@,
        name is None ==> name_text(name) == "(未命名)"@,
{
    lemma_occurs_self("含 "@ + decimal(n));
    lemma_occurs_grows(
        "含 "@ + decimal(n),
        "含 "@ + decimal(n),
        " 个孤儿子代理(父会话已删除),将连 header 一起清除。\n"@,
    );
}

} // verus!
