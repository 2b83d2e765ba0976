//! The texts on the screen and how they stand out.

use crate::entries::{key_label, lens_label, Entry};
use crate::headers::{opt_text, SessionHeader};
use crate::lineage::Attach;
use crate::panes::{subtree_bytes, tree_bytes, wrapped, ws_label, ws_label_of, WsRow};
use crate::scan::{ComposerStat, ScanResult, PREFIXES};
use crate::summary::{
    kind_lines, kind_texts, name_text, orphan_bytes, owned_bytes, shown_name, sum_kinds, KindFormat,
};
use crate::text::{
    blanks, byte_size, decimal, decimal_text, first_chars, head, join2, join3, lemma_follows,
    lemma_occurs_grows, lemma_occurs_self, occurs, push_number, push_size, put, same, size_text,
    views,
};
use crate::tree::SubRow;
use crate::tui::{verb_text, App, InputMode, MaintState, OpState, ScanState};
use vstd::prelude::*;

verus! {

broadcast use vstd::string::group_string_axioms;

/// How a text stands out.
#[derive(Debug, Clone, Copy, PartialEq, Eq, Structural)]
pub enum Tone {
    Plain,
    Dim,
    Bold,
    Red,
    Green,
    Yellow,
    /// An operation runs.
    Busy,
}

/// A piece of a line.
pub struct Span {
    pub text: String,
    pub tone: Tone,
}

/// A line.
pub struct Line {
    pub spans: Vec<Span>,
}

/// A piece of a line.
pub type Mark = (Seq<char>, Tone);

impl View for Line {
    type V = Seq<Mark>;

    open spec fn view(&self) -> Seq<Mark> {
        self.spans@.map_values(|s: Span| (s.text@, s.tone))
    }
}

/// The lines.
pub open spec fn lines(v: Seq<Line>) -> Seq<Seq<Mark>> {
    v.map_values(|l: Line| l@)
}

/// A line of one piece.
pub open spec fn one(text: Seq<char>, tone: Tone) -> Seq<Mark> {
    seq![(text, tone)]
}

/// A line that says what a thing is.
pub open spec fn field(label: Seq<char>, text: Seq<char>) -> Seq<Mark> {
    seq![(label, Tone::Dim), (text, Tone::Plain)]
}

fn append(out: &mut Vec<Line>, l: Line)
    ensures
        lines(final(out)@) == lines(old(out)@).push(l@),
{
    let ghost v = out@;
    out.push(l);
    assert(lines(out@) =~= lines(v).push(l@));
}

fn blank_line() -> (r: Line)
    ensures
        r@ == Seq::<Mark>::empty(),
{
    let r = Line { spans: Vec::new() };
    assert(r@ =~= Seq::<Mark>::empty());
    r
}

fn extend(l: Line, text: String, tone: Tone) -> (r: Line)
    ensures
        r@ == l@.push((text@, tone)),
{
    let ghost v = l@;
    let mut l = l;
    let ghost t = text@;
    l.spans.push(Span { text, tone });
    assert(l@ =~= v.push((t, tone)));
    l
}

fn one_line(text: String, tone: Tone) -> (r: Line)
    ensures
        r@ == one(text@, tone),
{
    let r = extend(blank_line(), text, tone);
    assert(r@ =~= one(text@, tone));
    r
}

fn field_line(label: &str, text: &str) -> (r: Line)
    ensures
        r@ == field(label@, text@),
{
    let r = extend(one_line(label.to_owned(), Tone::Dim), text.to_owned(), Tone::Plain);
    assert(r@ =~= field(label@, text@));
    r
}

/// The text, or another where there is none.
pub open spec fn text_or(o: Option<Seq<char>>, other: Seq<char>) -> Seq<char> {
    match o {
        Some(t) => t,
        None => other,
    }
}

fn or_text(o: &Option<String>, other: &str) -> (r: String)
    ensures
        r@ == text_or(opt_text(*o), other@),
{
    match o {
        Some(t) => t.clone(),
        None => other.to_owned(),
    }
}

/// What stands over the panes while the database is held, or is being taken or given back.
/// `secs` says for how long, and `scan` and `act` how far the scan and the operation are.
pub open spec fn banner_text(
    m: MaintState,
    secs: Seq<char>,
    scan: Option<Seq<char>>,
    act: Option<Seq<char>>,
) -> Option<Seq<char>> {
    match m {
        MaintState::Off => None,
        MaintState::Entering => Some(
            " 维护模式启动中 "@ + secs + "s | "@ + text_or(scan, "取锁中…"@) + " | [Esc/M] 取消 "@,
        ),
        MaintState::Leaving => Some(
            " 退出维护模式 "@ + secs + "s | "@ + text_or(act, "收尾中…"@) + " "@,
        ),
        MaintState::Held | MaintState::Working => Some(
            " ⚠ 维护模式: 已独占数据库(零重扫)。此期间切勿启动 Cursor——它会把主库判为损坏并回滚。[M] 退出 "@,
        ),
    }
}

/// What stands over the panes while the database is held, or is being taken or given back.
pub fn banner(m: MaintState, secs: &str, scan: &Option<String>, act: &Option<String>) -> (r: Option<
    String,
>)
    ensures
        opt_text(r) == banner_text(m, secs@, opt_text(*scan), opt_text(*act)),
{
    match m {
        MaintState::Off => None,
        MaintState::Entering => {
            let mut out = " 维护模式启动中 ".to_owned();
            out.push_str(secs);
            out.push_str("s | ");
            out.push_str(or_text(scan, "取锁中…").as_str());
            out.push_str(" | [Esc/M] 取消 ");
            Some(out)
        },
        MaintState::Leaving => {
            let mut out = " 退出维护模式 ".to_owned();
            out.push_str(secs);
            out.push_str("s | ");
            out.push_str(or_text(act, "收尾中…").as_str());
            out.push_str(" ");
            Some(out)
        },
        MaintState::Held | MaintState::Working => Some(
            " ⚠ 维护模式: 已独占数据库(零重扫)。此期间切勿启动 Cursor——它会把主库判为损坏并回滚。[M] 退出 ".to_owned(),
        ),
    }
}

/// The line at the top: what is shown, in which order, and through which filters.
pub open spec fn title_text(a: App) -> Seq<Mark> {
    let l = seq![
        (" cursor-chat-cleanup "@, Tone::Bold),
        ("视图:"@ + lens_label(a.view) + " "@, Tone::Plain),
        ("排序:"@ + key_label(a.sort) + (if a.reverse {
            "↑"@
        } else {
            "↓"@
        }) + " "@, Tone::Plain),
    ];
    let l = match a.ws_filter {
        Some(w) => l.push(("工作区:"@ + ws_label(a.ws_rows@, a.workspaces@, w@) + " "@, Tone::Green)),
        None => l,
    };
    let l = if a.filter@.len() > 0 || a.input == InputMode::Filter {
        l.push(
            (
                "过滤:"@ + a.filter@ + (if a.input == InputMode::Filter {
                    "▏"@
                } else {
                    ""@
                }) + " "@,
                Tone::Yellow,
            ),
        )
    } else {
        l
    };
    l.push(("[?]帮助"@, Tone::Dim))
}

/// The line at the top: what is shown, in which order, and through which filters.
pub fn title(a: &App) -> (r: Line)
    requires
        a.workspaces.wf(),
    ensures
        r@ == title_text(*a),
{
    let l = one_line(" cursor-chat-cleanup ".to_owned(), Tone::Bold);
    let l = extend(l, join3("视图:", a.view.label(), " "), Tone::Plain);
    let mut sort = "排序:".to_owned();
    sort.push_str(a.sort.label());
    sort.push_str(
        if a.reverse {
            "↑"
        } else {
            "↓"
        },
    );
    sort.push_str(" ");
    let ghost sorted = sort@;
    let mut l = extend(l, sort, Tone::Plain);
    assert(l@ =~= seq![
        (" cursor-chat-cleanup "@, Tone::Bold),
        ("视图:"@ + lens_label(a.view) + " "@, Tone::Plain),
        (sorted, Tone::Plain),
    ]);
    if let Some(w) = &a.ws_filter {
        let label = ws_label_of(a.ws_rows.as_slice(), &a.workspaces, w.as_str());
        l = extend(l, join3("工作区:", label.as_str(), " "), Tone::Green);
    }
    let editing = a.input == InputMode::Filter;
    if !a.filter.as_str().is_empty() || editing {
        let mut text = join2("过滤:", a.filter.as_str());
        text.push_str(
            if editing {
                "▏"
            } else {
                ""
            },
        );
        text.push_str(" ");
        l = extend(l, text, Tone::Yellow);
    }
    extend(l, "[?]帮助".to_owned(), Tone::Dim)
}

/// The text behind a bar, where there is one.
pub open spec fn tail_text(o: Option<Seq<char>>) -> Seq<char> {
    match o {
        Some(t) => " | "@ + t,
        None => Seq::empty(),
    }
}

fn tail(o: &Option<String>) -> (r: String)
    ensures
        r@ == tail_text(opt_text(*o)),
{
    match o {
        Some(t) => join2(" | ", t.as_str()),
        None => {
            let r = String::new();
            assert(r@ =~= Seq::<char>::empty());
            r
        },
    }
}

/// What runs, where an operation does.
pub open spec fn running_text(op: OpState) -> Option<Seq<char>> {
    match op {
        OpState::Previewing { action } => Some(verb_text(action) + " 预览"@),
        OpState::Applying { action } => Some(verb_text(action) + " 执行"@),
        _ => None,
    }
}

fn running(op: &OpState) -> (r: Option<String>)
    ensures
        opt_text(r) == running_text(*op),
{
    match op {
        OpState::Previewing { action } => Some(join2(action.verb(), " 预览")),
        OpState::Applying { action } => Some(join2(action.verb(), " 执行")),
        _ => None,
    }
}

/// The figures of a complete scan.
pub open spec fn figures_text(scan: ScanResult) -> Seq<Mark> {
    seq![
        (
            " 共 "@ + decimal(scan.total_rows as nat) + " 行 | 会话自有 "@ + byte_size(
                wrapped(owned_bytes(scan.per_prefix@, PREFIXES as int)),
            ) + " | blob "@ + byte_size(scan.blob.bytes) + " | content "@ + byte_size(
                scan.content.bytes,
            ) + " "@,
            Tone::Plain,
        ),
        (
            "| 孤儿可回收 "@ + byte_size(wrapped(orphan_bytes(scan.per_prefix@, PREFIXES as int))) + " "@,
            Tone::Yellow,
        ),
        ("[h/l]栏 [空格]选 [d]删 [t]修剪 [x]清扫 [c]GC [v]收缩 [r]重扫 [M]维护"@, Tone::Dim),
    ]
}

/// The line at the bottom: what runs goes before what was last said, and that before the
/// figures. `op_secs` and `scan_secs` say for how long, `scan` and `act` how far.
pub open spec fn status_text(
    a: App,
    op_secs: Seq<char>,
    scan_secs: Seq<char>,
    scan: Option<Seq<char>>,
    act: Option<Seq<char>>,
) -> Seq<Mark> {
    match running_text(a.op) {
        Some(verb) => one(
            " "@ + verb + "中… "@ + op_secs + "s"@ + tail_text(act) + "(执行期间请勿启动 Cursor) "@,
            Tone::Busy,
        ),
        None => if a.scan_state == ScanState::Running && a.maint == MaintState::Off {
            one(
                " 扫描中 "@ + scan_secs + "s | "@ + text_or(scan, "准备中…"@) + tail_text(
                    opt_text(a.status),
                ) + " "@,
                Tone::Yellow,
            )
        } else if a.status is Some {
            one(" "@ + a.status->0@ + " "@, Tone::Yellow)
        } else if a.scan_state == ScanState::Ready {
            figures_text(a.scan)
        } else {
            one(
                " 扫描中… "@ + scan_secs + "s"@ + tail_text(scan) + ",行数与体积稍后填充 "@,
                Tone::Yellow,
            )
        },
    }
}

fn figures(scan: &ScanResult) -> (r: Line)
    requires
        scan.per_prefix.wf(),
    ensures
        r@ == figures_text(*scan),
{
    let sums = sum_kinds(&scan.per_prefix);
    let mut all = " 共 ".to_owned();
    push_number(&mut all, scan.total_rows);
    all.push_str(" 行 | 会话自有 ");
    push_size(&mut all, sums.bytes);
    all.push_str(" | blob ");
    push_size(&mut all, scan.blob.bytes);
    all.push_str(" | content ");
    push_size(&mut all, scan.content.bytes);
    all.push_str(" ");
    let l = one_line(all, Tone::Plain);
    let lost = join3("| 孤儿可回收 ", size_text(sums.orphan_bytes).as_str(), " ");
    let l = extend(l, lost, Tone::Yellow);
    let l = extend(
        l,
        "[h/l]栏 [空格]选 [d]删 [t]修剪 [x]清扫 [c]GC [v]收缩 [r]重扫 [M]维护".to_owned(),
        Tone::Dim,
    );
    assert(l@ =~= figures_text(*scan));
    l
}

/// The line at the bottom.
pub fn status_line(
    a: &App,
    op_secs: &str,
    scan_secs: &str,
    scan: &Option<String>,
    act: &Option<String>,
) -> (r: Line)
    requires
        a.scan.per_prefix.wf(),
    ensures
        r@ == status_text(*a, op_secs@, scan_secs@, opt_text(*scan), opt_text(*act)),
{
    if let Some(verb) = running(&a.op) {
        let mut out = " ".to_owned();
        out.push_str(verb.as_str());
        out.push_str("中… ");
        out.push_str(op_secs);
        out.push_str("s");
        out.push_str(tail(act).as_str());
        out.push_str("(执行期间请勿启动 Cursor) ");
        return one_line(out, Tone::Busy);
    }
    if !a.scan_ready() && !a.maint.engaged() {
        let mut out = " 扫描中 ".to_owned();
        out.push_str(scan_secs);
        out.push_str("s | ");
        out.push_str(or_text(scan, "准备中…").as_str());
        out.push_str(tail(&a.status).as_str());
        out.push_str(" ");
        return one_line(out, Tone::Yellow);
    }
    if let Some(s) = &a.status {
        return one_line(join3(" ", s.as_str(), " "), Tone::Yellow);
    }
    if a.scan_ready() {
        return figures(&a.scan);
    }
    let mut out = " 扫描中… ".to_owned();
    out.push_str(scan_secs);
    out.push_str("s");
    out.push_str(tail(scan).as_str());
    out.push_str(",行数与体积稍后填充 ");
    one_line(out, Tone::Yellow)
}

/// The size, or dots while it is not known.
pub open spec fn size_or_dots(bytes: Option<u64>) -> Seq<char> {
    match bytes {
        Some(b) => byte_size(b),
        None => "…"@,
    }
}

fn size_or(bytes: Option<u64>) -> (r: String)
    ensures
        r@ == size_or_dots(bytes),
{
    match bytes {
        Some(b) => size_text(b),
        None => "…".to_owned(),
    }
}

/// What marks a row of the list.
pub open spec fn marks_text(e: Entry) -> Seq<char> {
    let dangles = e.attach == Some(Attach::Dangling);
    let s = if e.attach is None || dangles {
        seq!['孤']
    } else {
        Seq::empty()
    };
    let s = if dangles {
        s.push('子')
    } else {
        s
    };
    let s = if e.attach == Some(Attach::Unattributable) {
        s.push('悬')
    } else {
        s
    };
    if e.is_archived {
        s.push('档')
    } else {
        s
    }
}

fn marks(e: &Entry) -> (r: String)
    ensures
        r@ == marks_text(*e),
{
    let mut s = String::new();
    assert(s@ =~= Seq::<char>::empty());
    if !e.has_header() || e.is_dangling() {
        s.push('孤');
        assert(s@ =~= seq!['孤']);
    }
    if e.is_dangling() {
        s.push('子');
    }
    if matches!(e.attach, Some(Attach::Unattributable)) {
        s.push('悬');
    }
    if e.is_archived {
        s.push('档');
    }
    s
}

/// The name of a row of the list, with the number of subagents below it.
pub open spec fn row_name(e: Entry) -> Seq<char> {
    let name = text_or(
        opt_text(e.name),
        if e.attach is Some {
            "(未命名)"@
        } else {
            "(孤儿数据)"@
        },
    );
    if e.descendants > 0 {
        name + " (+"@ + decimal(e.descendants as nat) + "子)"@
    } else {
        name
    }
}

fn named(e: &Entry) -> (r: String)
    ensures
        r@ == row_name(*e),
{
    let mut name = or_text(
        &e.name,
        if e.has_header() {
            "(未命名)"
        } else {
            "(孤儿数据)"
        },
    );
    if e.descendants > 0 {
        name.push_str(" (+");
        push_number(&mut name, e.descendants as u64);
        name.push_str("子)");
    }
    name
}

/// The cells of a row of the list. The workspace is left out where one is chosen. `time` is
/// when the session was last used.
pub open spec fn chat_cells(
    e: Entry,
    selected: bool,
    rows_ready: bool,
    show_ws: bool,
    time: Seq<char>,
) -> Seq<Seq<char>> {
    let front = seq![
        if selected {
            "✓"@
        } else {
            ""@
        },
        size_or_dots(e.bytes),
        if rows_ready {
            decimal(e.rows as nat)
        } else {
            "…"@
        },
        if e.recency > 0 {
            time
        } else {
            "-"@
        },
        marks_text(e),
    ];
    let middle = if show_ws {
        front.push(text_or(opt_text(e.ws_label), "-"@))
    } else {
        front
    };
    middle.push(row_name(e)).push(head(e.composer_id@, 8))
}

/// How a row of the list stands out.
pub open spec fn chat_tone(e: Entry, selected: bool) -> Tone {
    if selected {
        Tone::Yellow
    } else if e.attach is None || e.attach == Some(Attach::Dangling) {
        Tone::Red
    } else if e.is_archived {
        Tone::Dim
    } else {
        Tone::Plain
    }
}

/// The cells of a row of the list, and how it stands out.
pub fn chat_row(e: &Entry, selected: bool, rows_ready: bool, show_ws: bool, time: &str) -> (r: (
    Vec<String>,
    Tone,
))
    ensures
        views(r.0@) == chat_cells(*e, selected, rows_ready, show_ws, time@),
        r.1 == chat_tone(*e, selected),
{
    let mut out: Vec<String> = Vec::new();
    assert(views(out@) =~= Seq::<Seq<char>>::empty());
    put(
        &mut out,
        if selected {
            "✓".to_owned()
        } else {
            "".to_owned()
        },
    );
    put(&mut out, size_or(e.bytes));
    put(
        &mut out,
        if rows_ready {
            decimal_text(e.rows)
        } else {
            "…".to_owned()
        },
    );
    put(
        &mut out,
        if e.recency > 0 {
            time.to_owned()
        } else {
            "-".to_owned()
        },
    );
    put(&mut out, marks(e));
    assert(views(out@) =~= seq![
        if selected {
            "✓"@
        } else {
            ""@
        },
        size_or_dots(e.bytes),
        if rows_ready {
            decimal(e.rows as nat)
        } else {
            "…"@
        },
        if e.recency > 0 {
            time@
        } else {
            "-"@
        },
        marks_text(*e),
    ]);
    if show_ws {
        put(&mut out, or_text(&e.ws_label, "-"));
    }
    put(&mut out, named(e));
    put(&mut out, first_chars(e.composer_id.as_str(), 8).to_owned());
    let tone = if selected {
        Tone::Yellow
    } else if !e.has_header() || e.is_dangling() {
        Tone::Red
    } else if e.is_archived {
        Tone::Dim
    } else {
        Tone::Plain
    };
    (out, tone)
}

/// The names of the columns of the list.
pub open spec fn chat_columns(show_ws: bool) -> Seq<Seq<char>> {
    let front = seq![""@, "体积"@, "行数"@, "最后更新"@, "标记"@];
    let middle = if show_ws {
        front.push("工作区"@)
    } else {
        front
    };
    middle.push("名称"@).push("id"@)
}

/// The names of the columns of the list.
pub fn chat_header(show_ws: bool) -> (r: Vec<String>)
    ensures
        views(r@) == chat_columns(show_ws),
{
    let mut out: Vec<String> = Vec::new();
    put(&mut out, "".to_owned());
    put(&mut out, "体积".to_owned());
    put(&mut out, "行数".to_owned());
    put(&mut out, "最后更新".to_owned());
    put(&mut out, "标记".to_owned());
    assert(views(out@) =~= seq![""@, "体积"@, "行数"@, "最后更新"@, "标记"@]);
    if show_ws {
        put(&mut out, "工作区".to_owned());
    }
    put(&mut out, "名称".to_owned());
    put(&mut out, "id".to_owned());
    out
}

/// The row of the list has as many cells as there are columns.
pub proof fn lemma_cells_fit(
    e: Entry,
    selected: bool,
    rows_ready: bool,
    show_ws: bool,
    time: Seq<char>,
)
    ensures
        chat_cells(e, selected, rows_ready, show_ws, time).len() == chat_columns(show_ws).len(),
{
}

/// The title of the list.
pub open spec fn chat_title_text(a: App) -> Seq<char> {
    "会话 "@ + decimal(a.visible@.len()) + "/"@ + decimal(a.entries@.len()) + " (孤儿 composer "@
        + decimal(a.scan.orphan_composers@.len()) + ",已选 "@ + decimal(a.selected_ids.order().len())
        + ")"@
}

/// The title of the list.
pub fn chat_title(a: &App) -> (r: String)
    ensures
        r@ == chat_title_text(*a),
{
    let mut out = "会话 ".to_owned();
    push_number(&mut out, a.visible.len() as u64);
    out.push_str("/");
    push_number(&mut out, a.entries.len() as u64);
    out.push_str(" (孤儿 composer ");
    push_number(&mut out, a.scan.orphan_composers.len() as u64);
    out.push_str(",已选 ");
    push_number(&mut out, a.selected_ids.len() as u64);
    out.push_str(")");
    out
}

/// The cells of a row of the workspaces: the chosen one is marked.
pub open spec fn ws_cells(r: WsRow, chosen: Option<Seq<char>>) -> Seq<Seq<char>> {
    seq![
        if opt_text(r.id) == chosen {
            "●"@
        } else {
            " "@
        },
        r.label@,
        decimal(r.sessions as nat),
    ]
}

/// The cells of a row of the workspaces.
pub fn ws_row(row: &WsRow, chosen: &Option<String>) -> (r: Vec<String>)
    ensures
        views(r@) == ws_cells(*row, opt_text(*chosen)),
{
    let here = match (&row.id, chosen) {
        (None, None) => true,
        (Some(id), Some(w)) => same(id.as_str(), w.as_str()),
        _ => false,
    };
    let mut out: Vec<String> = Vec::new();
    put(
        &mut out,
        if here {
            "●".to_owned()
        } else {
            " ".to_owned()
        },
    );
    put(&mut out, row.label.clone());
    put(&mut out, decimal_text(row.sessions));
    assert(views(out@) =~= ws_cells(*row, opt_text(*chosen)));
    out
}

/// The cells of a row of the tree.
pub open spec fn sub_cells(s: SubRow) -> Seq<Seq<char>> {
    let label = blanks(2 * (s.depth - 1)) + "└ "@ + name_text(s.name);
    seq![
        if s.is_dangling {
            label + " [孤]"@
        } else {
            label
        },
        size_or_dots(s.bytes),
        head(s.composer_id@, 8),
    ]
}

/// How a row of the tree stands out.
pub open spec fn sub_tone(s: SubRow) -> Tone {
    if s.is_dangling {
        Tone::Red
    } else {
        Tone::Plain
    }
}

/// The cells of a row of the tree, and how it stands out.
pub fn sub_row(s: &SubRow) -> (r: (Vec<String>, Tone))
    ensures
        views(r.0@) == sub_cells(*s),
        r.1 == sub_tone(*s),
{
    let mut label = String::new();
    let mut i: usize = 1;
    assert(label@ =~= blanks(0));
    if s.depth == 0 {
        assert(blanks(2 * (s.depth - 1)) =~= blanks(0));
    }
    while i < s.depth
        invariant
            1 <= i,
            i <= s.depth || s.depth == 0 && i == 1,
            label@ == blanks(2 * (i - 1)),
        decreases s.depth - i,
    {
        label.push(' ');
        label.push(' ');
        assert(label@ =~= blanks(2 * i as int));
        i += 1;
    }
    label.push_str("└ ");
    label.push_str(shown_name(&s.name));
    if s.is_dangling {
        label.push_str(" [孤]");
    }
    let mut out: Vec<String> = Vec::new();
    put(&mut out, label);
    put(&mut out, size_or(s.bytes));
    put(&mut out, first_chars(s.composer_id.as_str(), 8).to_owned());
    assert(views(out@) =~= sub_cells(*s));
    (
        out,
        if s.is_dangling {
            Tone::Red
        } else {
            Tone::Plain
        },
    )
}

/// The height of the tree in a pane of `inner` lines: as many as it has rows and two more,
/// but no more than half.
pub open spec fn tree_lines(rows: nat, inner: u16) -> u16 {
    let want = ((rows % 0x1_0000) + 2) % 0x1_0000;
    if rows == 0 {
        0
    } else if want < inner / 2 {
        want as u16
    } else {
        inner / 2
    }
}

/// The height of the tree in a pane of `inner` lines.
pub fn tree_height(rows: usize, inner: u16) -> (r: u16)
    ensures
        r == tree_lines(rows as nat, inner),
{
    if rows == 0 {
        return 0;
    }
    let want: u16 = ((rows % 0x1_0000) as u16).wrapping_add(2);
    let half: u16 = inner / 2;
    if want < half {
        want
    } else {
        half
    }
}

/// Where the header of a session was found.
pub open spec fn source_text(h: SessionHeader) -> Seq<char> {
    if h.in_header_table && h.in_legacy_blob {
        "header 表 + 旧 blob"@
    } else if h.in_header_table {
        "header 表"@
    } else if h.in_legacy_blob {
        "仅旧 blob"@
    } else {
        "-"@
    }
}

/// What a session is marked as.
pub open spec fn flags_text(h: SessionHeader) -> Option<Seq<char>> {
    if h.is_archived && h.is_best_of_n {
        Some("已归档"@ + ", "@ + "Best-of-N 子会话"@)
    } else if h.is_archived {
        Some("已归档"@)
    } else if h.is_best_of_n {
        Some("Best-of-N 子会话"@)
    } else {
        None
    }
}

/// The lines on the workspace of a session.
pub open spec fn home_lines(a: App, h: SessionHeader, l: Seq<Seq<Mark>>) -> Seq<Seq<Mark>> {
    match h.workspace_id {
        Some(w) => {
            let l = l.push(field("工作区      "@, ws_label(a.ws_rows@, a.workspaces@, w@)));
            if a.workspaces@.contains_key(w@) && a.workspaces@[w@].folder is Some {
                l.push(
                    seq![
                        ("            "@, Tone::Dim),
                        (a.workspaces@[w@].folder->0@, Tone::Dim),
                    ],
                )
            } else {
                l
            }
        },
        None => l.push(field("工作区      "@, "-"@)),
    }
}

/// The line on the parent of a session.
pub open spec fn kin_lines(
    attach: Option<Attach>,
    h: SessionHeader,
    l: Seq<Seq<Mark>>,
) -> Seq<Seq<Mark>> {
    match attach {
        Some(Attach::Dangling) => l.push(
            one(
                "孤儿子代理  父会话 "@ + head(text_or(opt_text(h.parent_composer_id), "?"@), 8)
                    + " 已删除,可被清扫"@,
                Tone::Red,
            ),
        ),
        Some(Attach::Unattributable) => l.push(
            one("无归属子代理(父链接未知,保守保留)"@, Tone::Yellow),
        ),
        _ => match h.parent_composer_id {
            Some(p) => l.push(field("父会话      "@, p@)),
            None => l,
        },
    }
}

/// The lines on the header of a session. `created` and `updated` are the two times of the
/// header, as far as it has them.
pub open spec fn header_lines(
    a: App,
    attach: Option<Attach>,
    h: SessionHeader,
    created: Seq<char>,
    updated: Seq<char>,
    l: Seq<Seq<Mark>>,
) -> Seq<Seq<Mark>> {
    let l = l.push(
        field(
            "创建        "@,
            if h.created_at is Some {
                created
            } else {
                "-"@
            },
        ),
    );
    let l = l.push(
        field(
            "最后更新    "@,
            if h.last_updated_at is Some {
                updated
            } else {
                "-"@
            },
        ),
    );
    let l = home_lines(a, h, l);
    let l = kin_lines(attach, h, l);
    let l = l.push(field("来源        "@, source_text(h)));
    match flags_text(h) {
        Some(t) => l.push(field("标记        "@, t)),
        None => l,
    }
}

/// The form of a line on a kind in the details.
pub open spec fn detail_format() -> KindFormat {
    KindFormat { name: 30, rows: 6, gap: " 行 ", bytes: 9 }
}

/// The lines on what a session has in the store.
pub open spec fn store_lines(a: App, e: Entry, l: Seq<Seq<Mark>>) -> Seq<Seq<Mark>> {
    let id = e.composer_id@;
    if !a.scan.per_composer@.contains_key(id) {
        l.push(one("存储占用: 无 cursorDiskKV 行(幽灵 header)"@, Tone::Plain))
    } else {
        let c = a.scan.per_composer@[id];
        if a.scan_state == ScanState::Ready {
            let l = l.push(
                one(
                    "存储占用: "@ + decimal(c.rows as nat) + " 行 / "@ + byte_size(c.bytes),
                    Tone::Bold,
                ),
            );
            let l = if e.descendants > 0 && a.scan.sized {
                l.push(
                    one(
                        "含 "@ + decimal(e.descendants as nat) + " 个子代理合计: "@ + byte_size(
                            wrapped(tree_bytes(a.scan, a.lineage.sessions(), id)),
                        ),
                        Tone::Plain,
                    ),
                )
            } else {
                l
            };
            l + kind_texts(detail_format(), c.per_prefix@, PREFIXES as int).map_values(
                |t: Seq<char>| one(t, Tone::Plain),
            )
        } else {
            l.push(
                one("存储占用: "@ + decimal(c.rows as nat) + " 行(体积扫描中…)"@, Tone::Plain),
            )
        }
    }
}

/// The lines on the row under the cursor; `h` is its header, where it has one.
pub open spec fn detail_text(
    a: App,
    e: Entry,
    h: Option<SessionHeader>,
    created: Seq<char>,
    updated: Seq<char>,
) -> Seq<Seq<Mark>> {
    let l = Seq::<Seq<Mark>>::empty().push(field("composerId  "@, e.composer_id@)).push(
        field("名称        "@, name_text(e.name)),
    );
    let l = match h {
        Some(h) => header_lines(a, e.attach, h, created, updated, l),
        None => l.push(one("状态        孤儿(不在任何 header 来源)"@, Tone::Red)),
    };
    store_lines(a, e, l.push(Seq::empty()))
}

fn add_home(a: &App, h: &SessionHeader, out: &mut Vec<Line>)
    requires
        a.workspaces.wf(),
    ensures
        lines(final(out)@) == home_lines(*a, *h, lines(old(out)@)),
{
    match &h.workspace_id {
        Some(w) => {
            let label = ws_label_of(a.ws_rows.as_slice(), &a.workspaces, w.as_str());
            append(out, field_line("工作区      ", label.as_str()));
            if let Some(info) = a.workspaces.get(w.as_str()) {
                if let Some(folder) = &info.folder {
                    let l = extend(
                        one_line("            ".to_owned(), Tone::Dim),
                        folder.clone(),
                        Tone::Dim,
                    );
                    assert(l@ =~= seq![("            "@, Tone::Dim), (folder@, Tone::Dim)]);
                    append(out, l);
                }
            }
        },
        None => append(out, field_line("工作区      ", "-")),
    }
}

fn add_kin(attach: Option<Attach>, h: &SessionHeader, out: &mut Vec<Line>)
    ensures
        lines(final(out)@) == kin_lines(attach, *h, lines(old(out)@)),
{
    match attach {
        Some(Attach::Dangling) => {
            let parent = or_text(&h.parent_composer_id, "?");
            let text = join3("孤儿子代理  父会话 ", first_chars(parent.as_str(), 8), " 已删除,可被清扫");
            append(out, one_line(text, Tone::Red));
        },
        Some(Attach::Unattributable) => {
            append(out, one_line("无归属子代理(父链接未知,保守保留)".to_owned(), Tone::Yellow));
        },
        _ => {
            if let Some(p) = &h.parent_composer_id {
                append(out, field_line("父会话      ", p.as_str()));
            }
        },
    }
}

fn source_of(h: &SessionHeader) -> (r: &'static str)
    ensures
        r@ == source_text(*h),
{
    if h.in_header_table && h.in_legacy_blob {
        "header 表 + 旧 blob"
    } else if h.in_header_table {
        "header 表"
    } else if h.in_legacy_blob {
        "仅旧 blob"
    } else {
        "-"
    }
}

fn add_header(
    a: &App,
    attach: Option<Attach>,
    h: &SessionHeader,
    created: &str,
    updated: &str,
    out: &mut Vec<Line>,
)
    requires
        a.workspaces.wf(),
    ensures
        lines(final(out)@) == header_lines(*a, attach, *h, created@, updated@, lines(old(out)@)),
{
    append(
        out,
        field_line(
            "创建        ",
            if h.created_at.is_some() {
                created
            } else {
                "-"
            },
        ),
    );
    append(
        out,
        field_line(
            "最后更新    ",
            if h.last_updated_at.is_some() {
                updated
            } else {
                "-"
            },
        ),
    );
    add_home(a, h, out);
    add_kin(attach, h, out);
    append(out, field_line("来源        ", source_of(h)));
    if h.is_archived && h.is_best_of_n {
        let both = join3("已归档", ", ", "Best-of-N 子会话");
        append(out, field_line("标记        ", both.as_str()));
    } else if h.is_archived {
        append(out, field_line("标记        ", "已归档"));
    } else if h.is_best_of_n {
        append(out, field_line("标记        ", "Best-of-N 子会话"));
    }
}

fn add_kinds(c: &ComposerStat, out: &mut Vec<Line>)
    requires
        c.per_prefix.wf(),
    ensures
        lines(final(out)@) == lines(old(out)@) + kind_texts(
            detail_format(),
            c.per_prefix@,
            PREFIXES as int,
        ).map_values(|t: Seq<char>| one(t, Tone::Plain)),
{
    let f = KindFormat { name: 30, rows: 6, gap: " 行 ", bytes: 9 };
    let kinds = kind_lines(&f, &c.per_prefix);
    let ghost l0 = lines(out@);
    let ghost ks = views(kinds@);
    let ghost ms = ks.map_values(|t: Seq<char>| one(t, Tone::Plain));
    let mut i: usize = 0;
    assert(lines(out@) =~= l0 + ms.take(0));
    while i < kinds.len()
        invariant
            i <= kinds@.len(),
            ks == views(kinds@),
            ms == ks.map_values(|t: Seq<char>| one(t, Tone::Plain)),
            lines(out@) == l0 + ms.take(i as int),
        decreases kinds@.len() - i,
    {
        append(out, one_line(kinds[i].clone(), Tone::Plain));
        proof {
            assert(ms.take(i + 1) =~= ms.take(i as int).push(ms[i as int]));
            assert(lines(out@) =~= l0 + ms.take(i + 1));
        }
        i += 1;
    }
    assert(ms.take(i as int) =~= ms);
}

fn add_store(a: &App, e: &Entry, out: &mut Vec<Line>)
    requires
        a.scan.wf(),
    ensures
        lines(final(out)@) == store_lines(*a, *e, lines(old(out)@)),
{
    match a.scan.per_composer.get(e.composer_id.as_str()) {
        None => append(
            out,
            one_line("存储占用: 无 cursorDiskKV 行(幽灵 header)".to_owned(), Tone::Plain),
        ),
        Some(c) => {
            let mut text = "存储占用: ".to_owned();
            push_number(&mut text, c.rows);
            if a.scan_ready() {
                text.push_str(" 行 / ");
                push_size(&mut text, c.bytes);
                append(out, one_line(text, Tone::Bold));
                if e.descendants > 0 {
                    if let Some(total) = subtree_bytes(&a.scan, &a.lineage, e.composer_id.as_str()) {
                        let mut sum = "含 ".to_owned();
                        push_number(&mut sum, e.descendants as u64);
                        sum.push_str(" 个子代理合计: ");
                        push_size(&mut sum, total);
                        append(out, one_line(sum, Tone::Plain));
                    }
                }
                add_kinds(c, out);
            } else {
                text.push_str(" 行(体积扫描中…)");
                append(out, one_line(text, Tone::Plain));
            }
        },
    }
}

/// The first session with an id.
pub open spec fn first_session(s: Seq<SessionHeader>, id: Seq<char>) -> Option<SessionHeader>
    decreases s.len(),
{
    if s.len() == 0 {
        None
    } else if s[0].composer_id@ == id {
        Some(s[0])
    } else {
        first_session(s.drop_first(), id)
    }
}

/// The first session with an id.
pub fn find_session<'a>(sessions: &'a [SessionHeader], id: &str) -> (r: Option<&'a SessionHeader>)
    ensures
        match r {
            Some(h) => first_session(sessions@, id@) == Some(*h),
            None => first_session(sessions@, id@) is None,
        },
{
    let ghost all = sessions@;
    let mut i: usize = 0;
    assert(all.skip(0) =~= all);
    while i < sessions.len()
        invariant
            i <= sessions@.len(),
            all == sessions@,
            first_session(all, id@) == first_session(all.skip(i as int), id@),
        decreases sessions@.len() - i,
    {
        assert(all.skip(i as int).drop_first() =~= all.skip(i + 1));
        if same(sessions[i].composer_id.as_str(), id) {
            return Some(&sessions[i]);
        }
        i += 1;
    }
    None
}

/// The lines on a row of the list. `created` and `updated` are the two times of its header.
pub fn detail_lines(a: &App, e: &Entry, created: &str, updated: &str) -> (r: Vec<Line>)
    requires
        a.wf(),
    ensures
        lines(r@) == detail_text(
            *a,
            *e,
            first_session(a.sessions@, e.composer_id@),
            created@,
            updated@,
        ),
{
    let mut out: Vec<Line> = Vec::new();
    assert(lines(out@) =~= Seq::<Seq<Mark>>::empty());
    append(&mut out, field_line("composerId  ", e.composer_id.as_str()));
    append(&mut out, field_line("名称        ", shown_name(&e.name)));
    match find_session(a.sessions.as_slice(), e.composer_id.as_str()) {
        Some(h) => add_header(a, e.attach, h, created, updated, &mut out),
        None => append(
            &mut out,
            one_line("状态        孤儿(不在任何 header 来源)".to_owned(), Tone::Red),
        ),
    }
    append(&mut out, blank_line());
    add_store(a, e, &mut out);
    out
}

/// The line at the top names the order, with an arrow down, and with one up where it is
/// reversed; it names the view, the chosen workspace and the text where there are any.
pub proof fn lemma_title(a: App)
    ensures
        title_text(a)[1].0 == "视图:"@ + lens_label(a.view) + " "@,
        !a.reverse ==> title_text(a)[2].0 == "排序:"@ + key_label(a.sort) + "↓"@ + " "@,
        a.reverse ==> title_text(a)[2].0 == "排序:"@ + key_label(a.sort) + "↑"@ + " "@,
        a.ws_filter matches Some(w) ==> title_text(a)[3].0 == "工作区:"@ + ws_label(
            a.ws_rows@,
            a.workspaces@,
            a.ws_filter->0@,
        ) + " "@,
        a.ws_filter is None && a.filter@.len() > 0 && a.input == InputMode::Normal ==> title_text(
            a,
        )[3].0 == "过滤:"@ + a.filter@ + ""@ + " "@,
        a.ws_filter is None && a.filter@.len() == 0 && a.input == InputMode::Normal ==> title_text(
            a,
        ).len() == 4,
{
}

/// Each cell of a row stands below the name of its column.
pub proof fn lemma_cells(e: Entry, selected: bool, rows_ready: bool, show_ws: bool, time: Seq<char>)
    ensures
        ({
            let c = chat_cells(e, selected, rows_ready, show_ws, time);
            let n = chat_columns(show_ws);
            &&& c.len() == n.len()
            &&& selected ==> c[0] == "✓"@
            &&& !selected ==> c[0] == ""@
            &&& n[1] == "体积"@ && (e.bytes matches Some(b) ==> c[1] == byte_size(e.bytes->0))
            &&& n[2] == "行数"@ && (rows_ready ==> c[2] == decimal(e.rows as nat))
            &&& n[3] == "最后更新"@ && (e.recency > 0 ==> c[3] == time)
            &&& n[4] == "标记"@ && c[4] == marks_text(e)
            &&& show_ws ==> n[5] == "工作区"@ && (e.ws_label is Some ==> c[5] == e.ws_label->0@)
            &&& n[n.len() - 2] == "名称"@ && c[c.len() - 2] == row_name(e)
            &&& n.last() == "id"@ && c.last() == head(e.composer_id@, 8)
        }),
{
}

/// The marks of an entry say that it has no header or dangles, that it is a subagent that
/// dangles or that nobody owns, and that it is archived; an entry that is none of these has no
/// mark.
pub proof fn lemma_marks(e: Entry)
    ensures
        marks_text(e).contains('孤') <==> e.attach is None || e.attach == Some(Attach::Dangling),
        marks_text(e).contains('子') <==> e.attach == Some(Attach::Dangling),
        marks_text(e).contains('悬') <==> e.attach == Some(Attach::Unattributable),
        marks_text(e).contains('档') <==> e.is_archived,
{
    let m = marks_text(e);
    let d = e.attach == Some(Attach::Dangling);
    if e.attach is None || d {
        assert(m[0] == '孤');
    }
    if d {
        assert(m[1] == '子');
    }
    if e.attach == Some(Attach::Unattributable) {
        assert(m[0] == '悬');
    }
    if e.is_archived {
        assert(m[m.len() - 1] == '档');
    }
}

/// Selected entries stand out before all others, then those that can be swept, then archived
/// ones.
pub proof fn lemma_tones(e: Entry, s: SubRow)
    ensures
        chat_tone(e, true) == Tone::Yellow,
        chat_tone(e, false) == Tone::Red <==> e.attach is None || e.attach == Some(
            Attach::Dangling,
        ),
        chat_tone(e, false) == Tone::Dim <==> e.is_archived && e.attach is Some && e.attach != Some(
            Attach::Dangling,
        ),
        sub_tone(s) == Tone::Red <==> s.is_dangling,
{
}

/// The name of an entry, and behind it how many subagents stand below it.
pub proof fn lemma_row_name(e: Entry)
    ensures
        e.name is Some && e.descendants == 0 ==> row_name(e) == e.name->0@,
        e.name is Some && e.descendants > 0 ==> row_name(e) == e.name->0@ + " (+"@ + decimal(
            e.descendants as nat,
        ) + "子)"@,
        e.name is None && e.attach is None && e.descendants == 0 ==> row_name(e) == "(孤儿数据)"@,
        e.name is None && e.attach is Some && e.descendants == 0 ==> row_name(e) == "(未命名)"@,
{
}

/// The chosen workspace is marked, and no other; a row shows its name and its sessions.
pub proof fn lemma_ws_cells(r: WsRow, chosen: Option<Seq<char>>)
    ensures
        opt_text(r.id) == chosen ==> ws_cells(r, chosen)[0] == "●"@,
        opt_text(r.id) != chosen ==> ws_cells(r, chosen)[0] == " "@,
        ws_cells(r, chosen)[1] == r.label@,
        ws_cells(r, chosen)[2] == decimal(r.sessions as nat),
{
}

/// Where a header was found is named by its two sources.
pub proof fn lemma_source_text(h: SessionHeader)
    ensures
        h.in_header_table && h.in_legacy_blob ==> source_text(h) == "header 表 + 旧 blob"@,
        h.in_header_table && !h.in_legacy_blob ==> source_text(h) == "header 表"@,
        !h.in_header_table && h.in_legacy_blob ==> source_text(h) == "仅旧 blob"@,
        flags_text(h) is None <==> !h.is_archived && !h.is_best_of_n,
        h.is_archived && !h.is_best_of_n ==> flags_text(h) == Some("已归档"@),
        !h.is_archived && h.is_best_of_n ==> flags_text(h) == Some("Best-of-N 子会话"@),
{
}

/// While an operation runs the line at the bottom names it; else the scan, where one runs and
/// the database is not held; else what was last said; and else the figures, once complete.
pub proof fn lemma_status(
    a: App,
    op_secs: Seq<char>,
    scan_secs: Seq<char>,
    scan: Option<Seq<char>>,
    act: Option<Seq<char>>,
)
    ensures
        a.op is Applying ==> status_text(a, op_secs, scan_secs, scan, act)[0].0 == " "@
            + (verb_text(
            a.op->Applying_action,
        ) + " 执行"@) + "中… "@ + op_secs + "s"@ + tail_text(act) + "(执行期间请勿启动 Cursor) "@,
        a.op is Previewing ==> status_text(a, op_secs, scan_secs, scan, act)[0].0 == " "@ + (
        verb_text(a.op->Previewing_action) + " 预览"@) + "中… "@ + op_secs + "s"@ + tail_text(act)
            + "(执行期间请勿启动 Cursor) "@,
        a.op is Idle && a.scan_state == ScanState::Ready && a.status is Some ==> status_text(
            a,
            op_secs,
            scan_secs,
            scan,
            act,
        )[0].0 == " "@ + a.status->0@ + " "@,
        a.op is Idle && a.scan_state == ScanState::Ready && a.status is None ==> status_text(
            a,
            op_secs,
            scan_secs,
            scan,
            act,
        ) == figures_text(a.scan),
{
}

/// The details show the rows and the bytes that the session has in the store, and where it
/// has none say so.
pub proof fn lemma_store_lines(a: App, e: Entry, l: Seq<Seq<Mark>>)
    ensures
        !a.scan.per_composer@.contains_key(e.composer_id@) ==> store_lines(a, e, l) == l.push(
            seq![("存储占用: 无 cursorDiskKV 行(幽灵 header)"@, Tone::Plain)],
        ),
        a.scan.per_composer@.contains_key(e.composer_id@) && a.scan_state == ScanState::Ready
            ==> store_lines(a, e, l).len() > l.len() && store_lines(a, e, l)[l.len() as int] == seq![
            (
                "存储占用: "@ + decimal(a.scan.per_composer@[e.composer_id@].rows as nat) + " 行 / "@
                    + byte_size(a.scan.per_composer@[e.composer_id@].bytes),
                Tone::Bold,
            ),
        ],
{
}

/// The header that the details show is the first with the id.
pub proof fn lemma_first_session(s: Seq<SessionHeader>, id: Seq<char>, i: int)
    requires
        0 <= i < s.len(),
        s[i].composer_id@ == id,
        forall|k: int| 0 <= k < i ==> (#[trigger] s[k]).composer_id@ != id,
    ensures
        first_session(s, id) == Some(s[i]),
    decreases s.len(),
{
    if i > 0 {
        assert(s[0].composer_id@ != id);
        let d = s.drop_first();
        assert forall|k: int| 0 <= k < i - 1 implies (#[trigger] d[k]).composer_id@ != id by {
            assert(s[k + 1].composer_id@ != id);
        }
        assert(d[i - 1] == s[i]);
        lemma_first_session(d, id, i - 1);
    }
}

/// The figures name the rows, what sessions own, the blobs and the contents, each behind its
/// name.
pub proof fn lemma_figures_text(scan: ScanResult)
    ensures
        occurs(" 共 "@ + decimal(scan.total_rows as nat) + " 行 | 会话自有 "@, figures_text(scan)[0].0),
        occurs(" 行 | 会话自有 "@
            + byte_size(wrapped(owned_bytes(scan.per_prefix@, PREFIXES as int))), figures_text(scan)[0].0),
        occurs(" | blob "@ + byte_size(scan.blob.bytes), figures_text(scan)[0].0),
        occurs(" | content "@ + byte_size(scan.content.bytes), figures_text(scan)[0].0),
{
    let p0 = " 共 "@;
    let p1 = decimal(scan.total_rows as nat);
    let p2 = " 行 | 会话自有 "@;
    let p3 = byte_size(wrapped(owned_bytes(scan.per_prefix@, PREFIXES as int)));
    let p4 = " | blob "@;
    let p5 = byte_size(scan.blob.bytes);
    let p6 = " | content "@;
    let p7 = byte_size(scan.content.bytes);
    let p8 = " "@;
    let t0 = p0;
    let t1 = t0 + p1;
    let t2 = t1 + p2;
    let t3 = t2 + p3;
    let t4 = t3 + p4;
    let t5 = t4 + p5;
    let t6 = t5 + p6;
    let t7 = t6 + p7;
    let t8 = t7 + p8;
    assert(figures_text(scan)[0].0 == t8);
    lemma_occurs_self(p0 + p1 + p2);
    lemma_occurs_grows(p0 + p1 + p2, t2, p3);
    lemma_occurs_grows(p0 + p1 + p2, t3, p4);
    lemma_occurs_grows(p0 + p1 + p2, t4, p5);
    lemma_occurs_grows(p0 + p1 + p2, t5, p6);
    lemma_occurs_grows(p0 + p1 + p2, t6, p7);
    lemma_occurs_grows(p0 + p1 + p2, t7, p8);
    lemma_follows(t1, p2, p3);
    lemma_occurs_grows(p2 + p3, t3, p4);
    lemma_occurs_grows(p2 + p3, t4, p5);
    lemma_occurs_grows(p2 + p3, t5, p6);
    lemma_occurs_grows(p2 + p3, t6, p7);
    lemma_occurs_grows(p2 + p3, t7, p8);
    lemma_follows(t3, p4, p5);
    lemma_occurs_grows(p4 + p5, t5, p6);
    lemma_occurs_grows(p4 + p5, t6, p7);
    lemma_occurs_grows(p4 + p5, t7, p8);
    lemma_follows(t5, p6, p7);
    lemma_occurs_grows(p6 + p7, t7, p8);
}

/// Behind them stands what sweeping the orphans would free.
pub proof fn lemma_recoverable_text(scan: ScanResult)
    ensures
        occurs("| 孤儿可回收 "@
            + byte_size(wrapped(orphan_bytes(scan.per_prefix@, PREFIXES as int))), figures_text(scan)[1].0),
{
    let p0 = "| 孤儿可回收 "@;
    let p1 = byte_size(wrapped(orphan_bytes(scan.per_prefix@, PREFIXES as int)));
    let p2 = " "@;
    let t0 = p0;
    let t1 = t0 + p1;
    let t2 = t1 + p2;
    assert(figures_text(scan)[1].0 == t2);
    lemma_occurs_self(p0 + p1);
    lemma_occurs_grows(p0 + p1, t1, p2);
}

/// The title of the list counts what is shown, all entries, the owners that are gone, and what is
/// selected.
pub proof fn lemma_chat_title(a: App)
    ensures
        occurs("会话 "@ + decimal(a.visible@.len()) + "/"@
            + decimal(a.entries@.len()), chat_title_text(a)),
        occurs(" (孤儿 composer "@ + decimal(a.scan.orphan_composers@.len()), chat_title_text(a)),
        occurs(",已选 "@ + decimal(a.selected_ids.order().len()), chat_title_text(a)),
{
    let p0 = "会话 "@;
    let p1 = decimal(a.visible@.len());
    let p2 = "/"@;
    let p3 = decimal(a.entries@.len());
    let p4 = " (孤儿 composer "@;
    let p5 = decimal(a.scan.orphan_composers@.len());
    let p6 = ",已选 "@;
    let p7 = decimal(a.selected_ids.order().len());
    let p8 = ")"@;
    let t0 = p0;
    let t1 = t0 + p1;
    let t2 = t1 + p2;
    let t3 = t2 + p3;
    let t4 = t3 + p4;
    let t5 = t4 + p5;
    let t6 = t5 + p6;
    let t7 = t6 + p7;
    let t8 = t7 + p8;
    assert(chat_title_text(a) == t8);
    lemma_occurs_self(p0 + p1 + p2 + p3);
    lemma_occurs_grows(p0 + p1 + p2 + p3, t3, p4);
    lemma_occurs_grows(p0 + p1 + p2 + p3, t4, p5);
    lemma_occurs_grows(p0 + p1 + p2 + p3, t5, p6);
    lemma_occurs_grows(p0 + p1 + p2 + p3, t6, p7);
    lemma_occurs_grows(p0 + p1 + p2 + p3, t7, p8);
    lemma_follows(t3, p4, p5);
    lemma_occurs_grows(p4 + p5, t5, p6);
    lemma_occurs_grows(p4 + p5, t6, p7);
    lemma_occurs_grows(p4 + p5, t7, p8);
    lemma_follows(t5, p6, p7);
    lemma_occurs_grows(p6 + p7, t7, p8);
}

/// A row of the tree is indented by its level, shows its name, its size and the beginning of
/// its id, and says where it dangles.
pub proof fn lemma_sub_cells(s: SubRow)
    ensures
        sub_cells(s).len() == 3,
        !s.is_dangling ==> sub_cells(s)[0] == blanks(2 * (s.depth - 1)) + "└ "@ + name_text(s.name),
        s.is_dangling ==> sub_cells(s)[0] == blanks(2 * (s.depth - 1)) + "└ "@ + name_text(s.name)
            + " [孤]"@,
        s.bytes matches Some(b) ==> sub_cells(s)[1] == byte_size(s.bytes->0),
        sub_cells(s)[2] == head(s.composer_id@, 8),
{
}

/// While the database is held, taken or given back, that is shown above all; else nothing is.
pub proof fn lemma_banner(
    m: MaintState,
    secs: Seq<char>,
    scan: Option<Seq<char>>,
    act: Option<Seq<char>>,
)
    ensures
        banner_text(m, secs, scan, act) is None <==> m == MaintState::Off,
        m == MaintState::Held ==> banner_text(m, secs, scan, act) == banner_text(
            MaintState::Working,
            secs,
            None,
            None,
        ),
        m == MaintState::Entering && scan is Some ==> banner_text(m, secs, scan, act) == Some(
            " 维护模式启动中 "@ + secs + "s | "@ + scan->0 + " | [Esc/M] 取消 "@,
        ),
        m == MaintState::Leaving && act is Some ==> banner_text(m, secs, scan, act) == Some(
            " 退出维护模式 "@ + secs + "s | "@ + act->0 + " "@,
        ),
{
}

/// The details name the parent of a session, say where it is gone, and say where none is known.
pub proof fn lemma_kin_lines(attach: Option<Attach>, h: SessionHeader, l: Seq<Seq<Mark>>)
    ensures
        attach == Some(Attach::Attached) && h.parent_composer_id is Some ==> kin_lines(attach, h, l)
            == l.push(seq![("父会话      "@, Tone::Dim), (h.parent_composer_id->0@, Tone::Plain)]),
        attach == Some(Attach::Main) && h.parent_composer_id is None ==> kin_lines(attach, h, l) == l,
        attach == Some(Attach::Dangling) && h.parent_composer_id is Some ==> kin_lines(attach, h, l)
            == l.push(
            seq![
                (
                    "孤儿子代理  父会话 "@ + head(h.parent_composer_id->0@, 8) + " 已删除,可被清扫"@,
                    Tone::Red,
                ),
            ],
        ),
{
}

/// The details begin with the id and the name, and for rows without a session say so.
pub proof fn lemma_detail_begins(
    a: App,
    e: Entry,
    h: Option<SessionHeader>,
    created: Seq<char>,
    updated: Seq<char>,
)
    ensures
        detail_text(a, e, h, created, updated).len() >= 2,
        detail_text(a, e, h, created, updated)[0] == seq![
            ("composerId  "@, Tone::Dim),
            (e.composer_id@, Tone::Plain),
        ],
        detail_text(a, e, h, created, updated)[1] == seq![
            ("名称        "@, Tone::Dim),
            (name_text(e.name), Tone::Plain),
        ],
        h is None ==> detail_text(a, e, h, created, updated)[2] == seq![
            ("状态        孤儿(不在任何 header 来源)"@, Tone::Red),
        ],
        h matches Some(x) ==> detail_text(a, e, h, created, updated)[2] == seq![
            ("创建        "@, Tone::Dim),
            (if h->0.created_at is Some {
                created
            } else {
                "-"@
            }, Tone::Plain),
        ] && detail_text(a, e, h, created, updated)[3] == seq![
            ("最后更新    "@, Tone::Dim),
            (if h->0.last_updated_at is Some {
                updated
            } else {
                "-"@
            }, Tone::Plain),
        ],
{
    let l0 = Seq::<Seq<Mark>>::empty().push(field("composerId  "@, e.composer_id@)).push(
        field("名称        "@, name_text(e.name)),
    );
    let l1 = match h {
        Some(x) => header_lines(a, e.attach, x, created, updated, l0),
        None => l0.push(one("状态        孤儿(不在任何 header 来源)"@, Tone::Red)),
    };
    lemma_store_goes_on(a, e, l1.push(Seq::empty()));
    match h {
        Some(x) => lemma_header_goes_on(a, e.attach, x, created, updated, l0),
        None => {},
    }
}

/// The lines go on from these.
spec fn goes_on(x: Seq<Seq<Mark>>, l: Seq<Seq<Mark>>) -> bool {
    x.len() >= l.len() && forall|k: int| 0 <= k < l.len() ==> #[trigger] x[k] == l[k]
}

proof fn lemma_store_goes_on(a: App, e: Entry, l: Seq<Seq<Mark>>)
    ensures
        goes_on(store_lines(a, e, l), l),
{
}

proof fn lemma_header_goes_on(
    a: App,
    attach: Option<Attach>,
    h: SessionHeader,
    created: Seq<char>,
    updated: Seq<char>,
    l: Seq<Seq<Mark>>,
)
    ensures
        ({
            let c = field(
                "创建        "@,
                if h.created_at is Some {
                    created
                } else {
                    "-"@
                },
            );
            let u = field(
                "最后更新    "@,
                if h.last_updated_at is Some {
                    updated
                } else {
                    "-"@
                },
            );
            goes_on(header_lines(a, attach, h, created, updated, l), l.push(c).push(u))
        }),
{
    let c = field(
        "创建        "@,
        if h.created_at is Some {
            created
        } else {
            "-"@
        },
    );
    let u = field(
        "最后更新    "@,
        if h.last_updated_at is Some {
            updated
        } else {
            "-"@
        },
    );
    let l2 = l.push(c).push(u);
    let l3 = home_lines(a, h, l2);
    let l4 = kin_lines(attach, h, l3);
    assert(goes_on(l3, l2));
    assert(goes_on(l4, l3));
}

} // verus!
