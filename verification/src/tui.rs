//! The state behind the screen: what the panes show, which operation runs, and what each
//! key and each result of a task does to them. Tasks are carried out elsewhere.

use crate::entries::{
    heft, in_order, keep_cursor, kept_cursor, lemma_in_order, lemma_shown, lemma_sorted_by_name,
    lemma_sorted_by_rows, lemma_sorted_by_size, lemma_sorted_by_time, lemma_sorting_again,
    not_behind, places, row_of, shown, shows, sort_entries, visible_entries, Entry, Lens, SortKey,
};
use crate::error::{error_chain, innermost, sqlite_code, Error, FaultCode};
use crate::fx::{IdMap, NameSet};
use crate::gc::GcPlan;
use crate::headers::{has_bad_id, is_live_error, live_ids, live_set, opt_text, SessionHeader};
use crate::lineage::{dangling, Lineage};
use crate::panes::{
    are_rows, are_ws_rows, build_entries, build_ws_rows, wrapped, ws_cursor, ws_place, WsRow,
};
use crate::patch::{apply_patch, patched, patched_selection, ScanPatch};
use crate::progress::{Progress, ProgressView};
use crate::scan::{no_figures, ScanResult};
use crate::summary::{scan_sweep_text, sweep_summary_from_scan};
use crate::text::{
    byte_size, decimal, join2, joined, push_number, push_size, same, unicode_lower, views,
};
use crate::tree::{expand, is_sub_row, is_tree, nodes, SubRow};
use crate::types::LiveSet;
use crate::vacuum::{choose_strategy, strategy, Pages, Strategy};
use crate::workspace::{file_text, info_of, is_used, resolve, WorkspaceInfo};
use vstd::prelude::*;

verus! {

broadcast use vstd::string::group_string_axioms;

/// What the user can have done.
#[derive(Clone)]
pub enum Action {
    Delete(Vec<String>),
    Trim(Vec<String>),
    Sweep,
    Gc,
    /// Give free pages back in small steps, each of which can be the last.
    Shrink,
    /// Write the database anew.
    VacuumFull,
}

/// What an action is called.
pub open spec fn verb_text(a: Action) -> Seq<char> {
    match a {
        Action::Delete(_) => "删除会话"@,
        Action::Trim(_) => "修剪快照"@,
        Action::Sweep => "清扫孤儿"@,
        Action::Gc => "blob GC"@,
        Action::Shrink => "增量收缩"@,
        Action::VacuumFull => "全量 VACUUM"@,
    }
}

impl Action {
    /// What it is called.
    pub fn verb(&self) -> (r: &'static str)
        ensures
            r@ == verb_text(*self),
    {
        match self {
            Action::Delete(_) => "删除会话",
            Action::Trim(_) => "修剪快照",
            Action::Sweep => "清扫孤儿",
            Action::Gc => "blob GC",
            Action::Shrink => "增量收缩",
            Action::VacuumFull => "全量 VACUUM",
        }
    }

    /// Whether it can be stopped while it runs.
    pub fn interruptible(&self) -> (r: bool)
        ensures
            r == (self is Shrink),
    {
        matches!(self, Action::Shrink)
    }
}

/// Where an operation stands. It is in one of these states at any time.
pub enum OpState {
    Idle,
    Previewing { action: Action },
    Confirming { action: Action, summary: String, gc_plan: Option<GcPlan> },
    Applying { action: Action },
}

/// Whether the database is held for maintenance.
#[derive(Debug, Clone, Copy, PartialEq, Eq, Structural)]
pub enum MaintState {
    Off,
    Entering,
    Held,
    /// Held, and lent to a task.
    Working,
    Leaving,
}

impl MaintState {
    /// Whether the lock is held, or is being taken or given back.
    pub fn engaged(self) -> (r: bool)
        ensures
            r == (self != MaintState::Off),
    {
        !matches!(self, MaintState::Off)
    }
}

/// Who gets the keys.
#[derive(Debug, Clone, Copy, PartialEq, Eq, Structural)]
pub enum InputMode {
    Normal,
    Filter,
}

/// What lies over the panes.
#[derive(Debug, Clone, Copy, PartialEq, Eq, Structural)]
pub enum InfoLayer {
    Hidden,
    Help,
}

/// The panes, from left to right.
#[derive(Debug, Clone, Copy, PartialEq, Eq, Structural)]
pub enum Pane {
    Workspaces,
    Chats,
    Detail,
}

/// Whether a scan runs.
#[derive(Debug, Clone, Copy, PartialEq, Eq, Structural)]
pub enum ScanState {
    Running,
    Ready,
}

/// What a preview brought: its text, and the plan of a collection where the database is
/// held, so that it need not be made again.
pub struct Preview {
    pub summary: String,
    pub gc_plan: Option<GcPlan>,
}

/// What is to be carried out next.
pub enum Task {
    Nothing,
    /// Scan the table, first without the sizes and then with them.
    Scan { generation: u64, collect: bool, live: LiveSet, progress: Progress },
    /// Take the lock, read the headers and scan the table.
    Enter { generation: u64, progress: Progress },
    /// Write back what is held, and give the lock back.
    Leave,
    /// Preview the operation that is being previewed.
    Preview { in_session: bool },
    /// Carry out the operation that is being applied.
    Apply { in_session: bool, backup: bool, gc_plan: Option<GcPlan> },
    /// Ask the database about its pages.
    WeighShrink,
}

/// All that the screen shows.
pub struct App {
    pub sessions: Vec<SessionHeader>,
    pub lineage: Lineage,
    pub entries: Vec<Entry>,
    /// The places of the rows that are shown.
    pub visible: Vec<usize>,
    pub scan: ScanResult,
    pub scan_state: ScanState,
    pub sort: SortKey,
    pub reverse: bool,
    pub view: Lens,
    pub filter: String,
    /// Nothing for all; empty for what belongs to no workspace.
    pub ws_filter: Option<String>,
    pub workspaces: IdMap<WorkspaceInfo>,
    pub focus: Pane,
    pub ws_rows: Vec<WsRow>,
    pub ws_cursor: Option<usize>,
    pub sub_rows: Vec<SubRow>,
    pub sub_cursor: Option<usize>,
    /// The session whose tree is shown.
    pub sub_of: Option<String>,
    pub input: InputMode,
    pub cursor: Option<usize>,
    pub selected_ids: NameSet,
    pub op: OpState,
    pub info: InfoLayer,
    pub maint: MaintState,
    pub quit_requested: bool,
    pub status: Option<String>,
    /// Counts the scans; what an earlier one brings is thrown away.
    pub scan_gen: u64,
    /// The operations carried out since the database has been held.
    pub writes: u64,
}

/// The row under a cursor that may never have been set.
pub open spec fn row_at(cursor: Option<usize>) -> int {
    match cursor {
        Some(c) => c as int,
        None => 0,
    }
}

/// The row of the list under the cursor.
pub open spec fn current(a: App) -> Option<Entry> {
    let c = row_at(a.cursor);
    if c < a.visible@.len() && a.visible@[c] < a.entries@.len() {
        Some(a.entries@[a.visible@[c] as int])
    } else {
        None
    }
}

/// The id of the row under the cursor.
pub open spec fn current_id(a: App) -> Option<Seq<char>> {
    match current(a) {
        Some(e) => Some(e.composer_id@),
        None => None,
    }
}

/// The id of the session under the cursor; rows without a header are no session.
pub open spec fn current_session(a: App) -> Option<Seq<char>> {
    match current(a) {
        Some(e) => if e.attach is Some {
            Some(e.composer_id@)
        } else {
            None
        },
        None => None,
    }
}

/// The row of the tree under the cursor.
pub open spec fn current_sub_id(a: App) -> Option<Seq<char>> {
    match a.sub_cursor {
        Some(c) => if c < a.sub_rows@.len() {
            Some(a.sub_rows@[c as int].composer_id@)
        } else {
            None
        },
        None => None,
    }
}

/// `b` shows the rows `e0` as `a` asks for, with the cursor on the row `keep`.
pub open spec fn listed(a: App, b: App, e0: Seq<Entry>, keep: Option<Seq<char>>) -> bool {
    &&& b.entries@ == in_order(a.sort, a.reverse, e0)
    &&& places(b.visible@) == shown(
        b.entries@,
        a.view,
        opt_text(a.ws_filter),
        unicode_lower(a.filter@),
    )
    &&& b.cursor is Some
    &&& b.cursor->0 == kept_cursor(b.entries@, places(b.visible@), keep)
}

/// `b` is `a` with its list sorted and filtered anew.
pub open spec fn refiltered(a: App, b: App) -> bool {
    &&& listed(a, b, a.entries@, current_id(a))
    &&& b == (App { entries: b.entries, visible: b.visible, cursor: b.cursor, ..a })
}

/// `b` is `a` with its list and its workspaces built anew.
pub open spec fn rebuilt(a: App, b: App) -> bool {
    &&& exists|e0: Seq<Entry>| #[trigger]
        are_rows(
            e0,
            a.sessions@,
            a.lineage.sessions(),
            a.scan,
            a.workspaces@,
            b.ws_rows@,
        ) && listed(
            a,
            b,
            e0,
            current_id(a),
        )
    &&& are_ws_rows(b.ws_rows@, a.sessions@, a.lineage.sessions(), a.scan, a.workspaces@)
    &&& b.ws_cursor is Some
    &&& b.ws_cursor->0 == ws_place(b.ws_rows@, opt_text(a.ws_filter))
    &&& b == (App {
        entries: b.entries,
        visible: b.visible,
        cursor: b.cursor,
        ws_rows: b.ws_rows,
        ws_cursor: b.ws_cursor,
        sub_of: None,
        ..a
    })
}

/// `b` is `a` with its tree that of the session under the cursor.
pub open spec fn synced(a: App, b: App) -> bool {
    if current_session(a) == opt_text(a.sub_of) {
        b == a
    } else {
        &&& opt_text(b.sub_of) == current_session(a)
        &&& match current_session(a) {
            Some(root) => is_tree(a.lineage.sessions(), root, nodes(b.sub_rows@)) && forall|i: int|
                0 <= i < b.sub_rows@.len() ==> is_sub_row(
                    #[trigger] b.sub_rows@[i],
                    a.sessions@,
                    a.lineage.sessions(),
                    a.scan,
                ),
            None => b.sub_rows@.len() == 0,
        }
        &&& b.sub_cursor == (if b.sub_rows@.len() > 0 {
            Some(0usize)
        } else {
            None
        })
        &&& b == (App {
            sub_of: b.sub_of,
            sub_rows: b.sub_rows,
            sub_cursor: b.sub_cursor,
            ..a
        })
    }
}

/// A number moved into the range from nought to below `len`.
pub open spec fn clamped(n: int, len: int) -> int {
    if n < 0 {
        0
    } else if n >= len {
        len - 1
    } else {
        n
    }
}

/// `to` is the cursor `from` moved by `delta` in a list of `len` rows.
pub open spec fn stepped(from: Option<usize>, len: nat, delta: int, to: Option<usize>) -> bool {
    if len == 0 {
        to == from
    } else {
        to is Some && to->0 == clamped(row_at(from) + delta, len as int)
    }
}

/// `to` is the cursor on the first or the last of `len` rows.
pub open spec fn jumped(len: nat, to_end: bool, to: Option<usize>) -> bool {
    to is Some && to->0 == (if to_end && len > 0 {
        len - 1
    } else {
        0
    })
}

/// The workspace under the cursor.
pub open spec fn pointed_ws(a: App) -> Option<Seq<char>> {
    let c = row_at(a.ws_cursor);
    if c < a.ws_rows@.len() {
        opt_text(a.ws_rows@[c].id)
    } else {
        None
    }
}

/// `b` is `a` with the workspace under the cursor chosen.
pub open spec fn ws_applied(a: App, b: App) -> bool {
    if pointed_ws(a) == opt_text(a.ws_filter) {
        b == a
    } else {
        opt_text(b.ws_filter) == pointed_ws(a) && refiltered(App { ws_filter: b.ws_filter, ..a }, b)
    }
}

/// `b` is `a` with the cursor of its pane moved by `delta`.
pub open spec fn moved(a: App, b: App, delta: int) -> bool {
    match a.focus {
        Pane::Chats => stepped(a.cursor, a.visible@.len(), delta, b.cursor) && b == (App {
            cursor: b.cursor,
            ..a
        }),
        Pane::Detail => stepped(a.sub_cursor, a.sub_rows@.len(), delta, b.sub_cursor) && b == (App {
            sub_cursor: b.sub_cursor,
            ..a
        }),
        Pane::Workspaces => stepped(a.ws_cursor, a.ws_rows@.len(), delta, b.ws_cursor)
            && ws_applied(App { ws_cursor: b.ws_cursor, ..a }, b),
    }
}

/// `b` is `a` with the cursor of its pane on the first or the last row.
pub open spec fn jumped_to(a: App, b: App, to_end: bool) -> bool {
    match a.focus {
        Pane::Chats => jumped(a.visible@.len(), to_end, b.cursor) && b == (App {
            cursor: b.cursor,
            ..a
        }),
        Pane::Detail => jumped(a.sub_rows@.len(), to_end, b.sub_cursor) && b == (App {
            sub_cursor: b.sub_cursor,
            ..a
        }),
        Pane::Workspaces => jumped(a.ws_rows@.len(), to_end, b.ws_cursor) && ws_applied(
            App { ws_cursor: b.ws_cursor, ..a },
            b,
        ),
    }
}

/// The place of a pane, from left to right.
pub open spec fn pane_place(p: Pane) -> int {
    match p {
        Pane::Workspaces => 0,
        Pane::Chats => 1,
        Pane::Detail => 2,
    }
}

/// The pane at a place.
pub open spec fn pane_at(i: int) -> Pane {
    if i <= 0 {
        Pane::Workspaces
    } else if i == 1 {
        Pane::Chats
    } else {
        Pane::Detail
    }
}

/// `a` with the keys going to a pane; the tree gets a cursor where it has none.
pub open spec fn focused(a: App, p: Pane) -> App {
    App {
        focus: p,
        sub_cursor: if p == Pane::Detail && a.sub_cursor is None && a.sub_rows@.len() > 0 {
            Some(0usize)
        } else {
            a.sub_cursor
        },
        ..a
    }
}

/// Whether two optional texts are the same.
fn same_opt(a: &Option<String>, b: &Option<String>) -> (r: bool)
    ensures
        r == (opt_text(*a) == opt_text(*b)),
{
    match (a, b) {
        (Some(x), Some(y)) => same(x.as_str(), y.as_str()),
        (None, None) => true,
        _ => false,
    }
}

fn step(from: Option<usize>, len: usize, delta: i64) -> (to: Option<usize>)
    ensures
        stepped(from, len as nat, delta as int, to),
{
    if len == 0 {
        return from;
    }
    let c: usize = match from {
        Some(c) => c,
        None => 0,
    };
    let n: i128 = c as i128 + delta as i128;
    if n < 0 {
        Some(0)
    } else if n >= len as i128 {
        Some(len - 1)
    } else {
        Some(n as usize)
    }
}

fn jump(len: usize, to_end: bool) -> (to: Option<usize>)
    ensures
        jumped(len as nat, to_end, to),
{
    if to_end && len > 0 {
        Some(len - 1)
    } else {
        Some(0)
    }
}

impl App {
    /// The tables are whole.
    pub open spec fn wf(&self) -> bool {
        self.scan.wf() && self.workspaces.wf()
    }

    /// Nothing is shown yet; a scan is due.
    pub fn new(sessions: Vec<SessionHeader>, files: &IdMap<String>) -> (r: Self)
        requires
            files.wf(),
        ensures
            r.wf(),
            r.sessions == sessions,
            r.lineage.sessions() == sessions@,
            forall|w: Seq<char>| #[trigger]
                r.workspaces@.contains_key(w) <==> is_used(sessions@, w),
            forall|w: Seq<char>| #[trigger]
                r.workspaces@.contains_key(w) ==> r.workspaces@[w]@ == info_of(
                    sessions@,
                    w,
                    file_text(files@, w),
                ),
            exists|a: App| #[trigger] rebuilt(a, r) && a.entries@.len() == 0,
            r.scan@ == no_figures(),
            r.scan_state == ScanState::Running,
            r.sort == SortKey::Recency,
            !r.reverse,
            r.view == Lens::All,
            r.filter@.len() == 0,
            r.ws_filter is None,
            r.focus == Pane::Chats,
            r.sub_rows@.len() == 0,
            r.sub_cursor is None,
            r.input == InputMode::Normal,
            r.selected_ids@ == Set::<Seq<char>>::empty(),
            r.op is Idle,
            r.info == InfoLayer::Hidden,
            r.maint == MaintState::Off,
            !r.quit_requested,
            r.status is None,
            r.scan_gen == 0,
            r.writes == 0,
    {
        let lineage = Lineage::build(sessions.as_slice());
        let workspaces = resolve(sessions.as_slice(), files);
        let mut r = App {
            sessions,
            lineage,
            entries: Vec::new(),
            visible: Vec::new(),
            scan: ScanResult::default(),
            scan_state: ScanState::Running,
            sort: SortKey::Recency,
            reverse: false,
            view: Lens::All,
            filter: String::new(),
            ws_filter: None,
            workspaces,
            focus: Pane::Chats,
            ws_rows: Vec::new(),
            ws_cursor: Some(0),
            sub_rows: Vec::new(),
            sub_cursor: None,
            sub_of: None,
            input: InputMode::Normal,
            cursor: Some(0),
            selected_ids: NameSet::new(),
            op: OpState::Idle,
            info: InfoLayer::Hidden,
            maint: MaintState::Off,
            quit_requested: false,
            status: None,
            scan_gen: 0,
            writes: 0,
        };
        r.rebuild_entries();
        r
    }

    /// Whether the figures are complete.
    pub fn scan_ready(&self) -> (r: bool)
        ensures
            r == (self.scan_state == ScanState::Ready),
    {
        matches!(self.scan_state, ScanState::Ready)
    }

    /// Whether the rows are counted.
    pub fn rows_ready(&self) -> (r: bool)
        ensures
            r == (self.scan.total_rows > 0 || self.scan_state == ScanState::Ready),
    {
        self.scan.total_rows > 0 || self.scan_ready()
    }

    /// The row of the list under the cursor.
    pub fn current_entry(&self) -> (r: Option<&Entry>)
        ensures
            r is Some <==> current(*self) is Some,
            r matches Some(e) ==> *e == current(*self)->0,
    {
        let c: usize = match self.cursor {
            Some(c) => c,
            None => 0,
        };
        if c < self.visible.len() {
            let i: usize = self.visible[c];
            if i < self.entries.len() {
                return Some(&self.entries[i]);
            }
        }
        None
    }

    /// The row of the tree under the cursor.
    pub fn current_sub(&self) -> (r: Option<&SubRow>)
        ensures
            r is Some <==> current_sub_id(*self) is Some,
            r matches Some(s) ==> *s == self.sub_rows@[self.sub_cursor->0 as int],
    {
        match self.sub_cursor {
            Some(c) => if c < self.sub_rows.len() {
                Some(&self.sub_rows[c])
            } else {
                None
            },
            None => None,
        }
    }

    fn here(&self) -> (r: Option<String>)
        ensures
            opt_text(r) == current_id(*self),
    {
        match self.current_entry() {
            Some(e) => Some(e.composer_id.clone()),
            None => None,
        }
    }

    /// Sorts and filters the list, with the cursor on the row `keep`.
    fn refilter(&mut self, keep: Option<String>)
        ensures
            listed(*old(self), *final(self), old(self).entries@, opt_text(keep)),
            *final(self) == (App {
                entries: final(self).entries,
                visible: final(self).visible,
                cursor: final(self).cursor,
                ..*old(self)
            }),
    {
        sort_entries(&mut self.entries, self.sort, self.reverse);
        let visible = visible_entries(
            self.entries.as_slice(),
            self.view,
            &self.ws_filter,
            self.filter.as_str(),
        );
        proof {
            let ws = opt_text(self.ws_filter);
            let q = unicode_lower(self.filter@);
            lemma_shown(self.entries@, self.view, ws, q);
            let t = shown(self.entries@, self.view, ws, q);
            assert forall|j: int| 0 <= j < visible@.len() implies #[trigger] visible@[j]
                < self.entries@.len() by {
                assert(places(visible@)[j] == visible@[j]);
                assert(t.contains(t[j]));
            }
        }
        let c: usize = keep_cursor(self.entries.as_slice(), visible.as_slice(), &keep);
        self.visible = visible;
        self.cursor = Some(c);
    }

    /// Sorts and filters the list anew; the cursor stays on its row.
    pub fn sort_and_refilter(&mut self)
        ensures
            refiltered(*old(self), *final(self)),
    {
        let keep = self.here();
        self.refilter(keep);
    }

    /// Builds the list of workspaces anew; its cursor stays on the one that is chosen.
    pub fn rebuild_ws_rows(&mut self)
        requires
            old(self).wf(),
        ensures
            are_ws_rows(
                final(self).ws_rows@,
                old(self).sessions@,
                old(self).lineage.sessions(),
                old(self).scan,
                old(self).workspaces@,
            ),
            final(self).ws_cursor is Some,
            final(self).ws_cursor->0 == ws_place(
                final(self).ws_rows@,
                opt_text(old(self).ws_filter),
            ),
            *final(self) == (App {
                ws_rows: final(self).ws_rows,
                ws_cursor: final(self).ws_cursor,
                ..*old(self)
            }),
    {
        let rows = build_ws_rows(
            self.sessions.as_slice(),
            &self.lineage,
            &self.scan,
            &self.workspaces,
        );
        let c: usize = ws_cursor(rows.as_slice(), &self.ws_filter);
        self.ws_rows = rows;
        self.ws_cursor = Some(c);
    }

    /// Builds the list and the workspaces anew; the cursors stay on their rows.
    pub fn rebuild_entries(&mut self)
        requires
            old(self).wf(),
        ensures
            rebuilt(*old(self), *final(self)),
            final(self).wf(),
    {
        let ghost a = *self;
        let keep = self.here();
        self.rebuild_ws_rows();
        let rows = build_entries(
            self.sessions.as_slice(),
            &self.lineage,
            &self.scan,
            &self.workspaces,
            self.ws_rows.as_slice(),
        );
        let ghost e0 = rows@;
        self.entries = rows;
        self.sub_of = None;
        self.refilter(keep);
        proof {
            assert(are_rows(
                e0,
                a.sessions@,
                a.lineage.sessions(),
                a.scan,
                a.workspaces@,
                self.ws_rows@,
            ));
            assert(listed(a, *self, e0, current_id(a)));
        }
    }

    /// Shows the tree of the session under the cursor.
    pub fn sync_sub_rows(&mut self)
        requires
            old(self).wf(),
        ensures
            synced(*old(self), *final(self)),
    {
        let id = match self.current_entry() {
            Some(e) => if e.has_header() {
                Some(e.composer_id.clone())
            } else {
                None
            },
            None => None,
        };
        if same_opt(&id, &self.sub_of) {
            return;
        }
        let rows = match &id {
            Some(root) => expand(
                self.sessions.as_slice(),
                &self.lineage,
                &self.scan,
                root.as_str(),
            ),
            None => Vec::new(),
        };
        self.sub_of = id;
        self.sub_cursor = if rows.len() > 0 {
            Some(0)
        } else {
            None
        };
        self.sub_rows = rows;
    }

    /// Chooses the workspace under the cursor.
    fn apply_ws_cursor(&mut self)
        ensures
            ws_applied(*old(self), *final(self)),
    {
        let c: usize = match self.ws_cursor {
            Some(c) => c,
            None => 0,
        };
        let chosen = if c < self.ws_rows.len() {
            self.ws_rows[c].id.clone()
        } else {
            None
        };
        if !same_opt(&chosen, &self.ws_filter) {
            self.ws_filter = chosen;
            self.sort_and_refilter();
        }
    }

    /// Moves the cursor of the pane that has the keys.
    pub fn move_selection(&mut self, delta: i64)
        ensures
            moved(*old(self), *final(self), delta as int),
    {
        match self.focus {
            Pane::Chats => {
                self.cursor = step(self.cursor, self.visible.len(), delta);
            },
            Pane::Workspaces => {
                self.ws_cursor = step(self.ws_cursor, self.ws_rows.len(), delta);
                self.apply_ws_cursor();
            },
            Pane::Detail => {
                self.sub_cursor = step(self.sub_cursor, self.sub_rows.len(), delta);
            },
        }
    }

    /// Moves the cursor of the pane that has the keys to its first or its last row.
    pub fn jump_selection(&mut self, to_end: bool)
        ensures
            jumped_to(*old(self), *final(self), to_end),
    {
        match self.focus {
            Pane::Chats => {
                self.cursor = jump(self.visible.len(), to_end);
            },
            Pane::Workspaces => {
                self.ws_cursor = jump(self.ws_rows.len(), to_end);
                self.apply_ws_cursor();
            },
            Pane::Detail => {
                self.sub_cursor = jump(self.sub_rows.len(), to_end);
            },
        }
    }

    /// Gives the keys to a pane further right, or left where `delta` is negative.
    pub fn move_focus(&mut self, delta: i64)
        ensures
            *final(self) == focused(
                *old(self),
                pane_at(clamped(pane_place(old(self).focus) + delta, 3)),
            ),
    {
        let cur: i128 = match self.focus {
            Pane::Workspaces => 0,
            Pane::Chats => 1,
            Pane::Detail => 2,
        };
        let next: i128 = cur + delta as i128;
        let p = if next <= 0 {
            Pane::Workspaces
        } else if next == 1 {
            Pane::Chats
        } else {
            Pane::Detail
        };
        self.set_focus(p);
    }

    fn set_focus(&mut self, p: Pane)
        ensures
            *final(self) == focused(*old(self), p),
    {
        self.focus = p;
        if p == Pane::Detail && self.sub_cursor.is_none() && self.sub_rows.len() > 0 {
            self.sub_cursor = Some(0);
        }
    }
}

/// A text that is shown in the status line.
pub open spec fn says(o: Option<String>, t: Seq<char>) -> bool {
    opt_text(o) == Some(t)
}

/// What cannot be left unfinished, where there is such a thing.
pub open spec fn busy_with(a: App) -> Option<Seq<char>> {
    if a.op is Applying {
        Some("执行"@)
    } else if a.maint == MaintState::Working {
        Some("维护会话操作"@)
    } else if a.maint == MaintState::Leaving {
        Some("维护模式收尾"@)
    } else {
        None
    }
}

/// A progress with the wish to stop.
pub open spec fn stopped(p: ProgressView) -> ProgressView {
    ProgressView { cancelled: true, ..p }
}

/// The operation that runs can be stopped.
pub open spec fn can_stop(op: OpState) -> bool {
    match op {
        OpState::Previewing { .. } => true,
        OpState::Applying { action } => action is Shrink,
        _ => false,
    }
}

/// `b` is `a` with the wish to leave: what can be stopped is stopped, and what cannot is
/// named.
pub open spec fn quitting(
    a: App,
    b: App,
    scan0: ProgressView,
    scan1: ProgressView,
    act0: ProgressView,
    act1: ProgressView,
) -> bool {
    &&& scan1 == (if a.maint == MaintState::Entering || a.scan_state == ScanState::Running {
        stopped(scan0)
    } else {
        scan0
    })
    &&& act1 == (if can_stop(a.op) {
        stopped(act0)
    } else {
        act0
    })
    &&& match busy_with(a) {
        Some(what) => says(b.status, what + "完成后将自动退出…"@),
        None => b.status == a.status,
    }
    &&& b == (App { quit_requested: true, status: b.status, ..a })
}

/// No operation runs, and none was asked to stop.
pub open spec fn fresh() -> ProgressView {
    ProgressView { stage: Seq::empty(), done: 0, total: 0, cancelled: false }
}

/// `b` is `a` with a new scan begun: the one before is stopped, and the new one has a
/// number and a progress of its own.
pub open spec fn begun(a: App, b: App, run0: ProgressView, run1: ProgressView) -> bool {
    &&& run1 == stopped(run0)
    &&& b == (App {
        scan_gen: wrapped(a.scan_gen as nat + 1),
        scan_state: ScanState::Running,
        ..a
    })
}

/// The texts of an error and of its causes in one line.
pub open spec fn rendered(e: Error) -> Seq<char> {
    joined(error_chain(e), ": "@)
}

/// The user asked for the stop.
pub open spec fn was_cancelled(e: Error) -> bool {
    innermost(e) is Cancelled || sqlite_code(innermost(e)) == Some(FaultCode::Interrupted)
}

/// Every id of the sessions that are not dangling can be one.
pub open spec fn ids_are_good(s: Seq<SessionHeader>) -> bool {
    forall|i: int| 0 <= i < s.len() ==> !#[trigger] has_bad_id(s, i)
}

/// `b` is `a` with a scan of the table begun, or with the reason why there is none.
pub open spec fn scanning(
    a: App,
    b: App,
    run0: ProgressView,
    run1: ProgressView,
    t: Task,
) -> bool {
    if ids_are_good(a.sessions@) {
        &&& begun(a, b, run0, run1)
        &&& t matches Task::Scan { generation, collect, live, progress } && generation == b.scan_gen
            && collect == (a.maint != MaintState::Off) && live@ == live_ids(a.sessions@)
            && progress@ == fresh()
    } else {
        &&& run1 == run0
        &&& t is Nothing
        &&& exists|e: Error| #[trigger]
            is_live_error(a.sessions@, e) && says(b.status, "存活集合构建失败: "@ + rendered(e))
        &&& b == (App { status: b.status, ..a })
    }
}

/// `b` is `a` on the way into maintenance.
pub open spec fn entering(
    a: App,
    b: App,
    run0: ProgressView,
    run1: ProgressView,
    t: Task,
) -> bool {
    &&& begun(App { maint: MaintState::Entering, ..a }, b, run0, run1)
    &&& t matches Task::Enter { generation, progress } && generation == b.scan_gen && progress@
        == fresh()
}

/// `b` is `a` on the way out of maintenance, where it holds the database.
pub open spec fn leaving(a: App, b: App, t: Task) -> bool {
    if a.maint == MaintState::Held {
        &&& t is Leave
        &&& says(
            b.status,
            "退出维护模式(会话内执行了 "@ + decimal(a.writes as nat) + " 次操作),收尾中…"@,
        )
        &&& b == (App { maint: MaintState::Leaving, status: b.status, ..a })
    } else {
        t is Nothing && b == a
    }
}

/// The database while a task uses it: what is held is lent out.
pub open spec fn lent(m: MaintState) -> MaintState {
    if m == MaintState::Held {
        MaintState::Working
    } else {
        m
    }
}

/// `b` is `a` with a preview of an action begun, where none runs and the database is not
/// being taken or given back. What a sweep will do is known once the scan is complete.
pub open spec fn previewing(a: App, b: App, action: Action, t: Task) -> bool {
    if !(a.op is Idle) {
        t is Nothing && says(b.status, "已有操作进行中。"@) && b == (App { status: b.status, ..a })
    } else if a.maint == MaintState::Entering || a.maint == MaintState::Leaving {
        t is Nothing && says(b.status, "维护模式切换中,请稍候。"@) && b == (App {
            status: b.status,
            ..a
        })
    } else if action is Sweep && a.scan_state == ScanState::Ready {
        &&& t is Nothing
        &&& b.op matches OpState::Confirming { action: chosen, summary, gc_plan } && chosen == action
            && gc_plan is None && summary@ == scan_sweep_text(
            a.scan,
            dangling_count(a.lineage.sessions()),
            a.maint != MaintState::Off,
        )
        &&& b == (App { op: b.op, ..a })
    } else {
        &&& t == (Task::Preview { in_session: a.maint == MaintState::Held })
        &&& b == (App { op: OpState::Previewing { action }, maint: lent(a.maint), ..a })
    }
}

/// How many subagents dangle.
pub open spec fn dangling_count(kin: Seq<SessionHeader>) -> nat {
    Set::new(|x: Seq<char>| dangling(kin, x)).len()
}

/// `a` with an action begun.
pub open spec fn applying(a: App, action: Action) -> App {
    App { op: OpState::Applying { action }, maint: lent(a.maint), ..a }
}

/// `b` is `a` once a task has ended that may have had the database lent to it. Where it
/// does not give it back, the lock is gone.
pub open spec fn given_back(a: App, b: App, returned: bool) -> bool {
    if returned {
        b == (App { maint: MaintState::Held, ..a })
    } else if a.maint == MaintState::Working {
        says(b.status, "维护会话已丢失,已退回普通模式。"@) && b == (App {
            maint: MaintState::Off,
            status: b.status,
            ..a
        })
    } else {
        b == a
    }
}

/// The key once the sizes are known: what was sorted by time for want of them is sorted by
/// size.
pub open spec fn sized_sort(k: SortKey) -> SortKey {
    if k == SortKey::Recency {
        SortKey::Bytes
    } else {
        k
    }
}

/// `b` is `a` with the result of a scan.
pub open spec fn scanned(a: App, b: App, generation: u64, r: Result<ScanResult, Error>) -> bool {
    if generation != a.scan_gen {
        b == a
    } else {
        match r {
            Ok(scan) => rebuilt(
                App {
                    scan,
                    scan_state: if scan.sized {
                        ScanState::Ready
                    } else {
                        a.scan_state
                    },
                    sort: if scan.sized {
                        sized_sort(a.sort)
                    } else {
                        a.sort
                    },
                    ..a
                },
                b,
            ),
            Err(e) => says(
                b.status,
                if was_cancelled(e) {
                    "扫描已取消。"@
                } else {
                    "扫描失败: "@ + rendered(e)
                },
            ) && b == (App { scan_state: ScanState::Ready, status: b.status, ..a }),
        }
    }
}

/// `b` is `a` with the result of a preview.
pub open spec fn previewed(
    a: App,
    b: App,
    action: Action,
    r: Result<Preview, Error>,
    returned: bool,
) -> bool {
    exists|m: App|
        {
            &&& #[trigger] given_back(a, m, returned)
            &&& match r {
                Ok(p) => b == (App {
                    op: OpState::Confirming { action, summary: p.summary, gc_plan: p.gc_plan },
                    ..m
                }),
                Err(e) => says(b.status, "预览失败: "@ + rendered(e)) && b == (App {
                    op: OpState::Idle,
                    status: b.status,
                    ..m
                }),
            }
        }
}

/// `b` is `a` with the result of an action; where it was carried out, the headers are to
/// be read again.
pub open spec fn applied(
    a: App,
    b: App,
    r: Result<(String, ScanPatch), Error>,
    returned: bool,
    reload: Option<ScanPatch>,
) -> bool {
    exists|m: App|
        {
            &&& #[trigger] given_back(App { op: OpState::Idle, ..a }, m, returned)
            &&& match r {
                Ok((summary, patch)) => {
                    &&& reload == Some(patch)
                    &&& b.selected_ids@ == Set::<Seq<char>>::empty()
                    &&& b == (App {
                        status: Some(summary),
                        selected_ids: b.selected_ids,
                        writes: if returned {
                            wrapped(a.writes as nat + 1)
                        } else {
                            a.writes
                        },
                        ..m
                    })
                },
                Err(e) => reload is None && says(b.status, "执行失败: "@ + rendered(e)) && b == (App {
                    status: b.status,
                    ..m
                }),
            }
        }
}

/// `b` is `a` with other sessions, and all that is derived from them.
pub open spec fn remodelled(
    a: App,
    b: App,
    sessions: Vec<SessionHeader>,
    files: Map<Seq<char>, String>,
) -> bool {
    &&& b.lineage.sessions() == sessions@
    &&& b.workspaces.wf()
    &&& forall|w: Seq<char>| #[trigger] b.workspaces@.contains_key(w) <==> is_used(sessions@, w)
    &&& forall|w: Seq<char>| #[trigger]
        b.workspaces@.contains_key(w) ==> b.workspaces@[w]@ == info_of(
            sessions@,
            w,
            file_text(files, w),
        )
    &&& b == (App { sessions, lineage: b.lineage, workspaces: b.workspaces, ..a })
}

/// `b` is `a` with an action's effect on the figures.
pub open spec fn patched_app(a: App, b: App, patch: ScanPatch) -> bool {
    exists|m: App|
        {
            &&& m.scan@ == patched(a.scan@, patch)
            &&& m.selected_ids@ == patched_selection(a.selected_ids@, a.scan@, patch)
            &&& m == (App { scan: m.scan, selected_ids: m.selected_ids, ..a })
            &&& #[trigger] rebuilt(m, b)
        }
}

/// `b` is `a` once an action was carried out and the headers were read again, or could not
/// be.
pub open spec fn reloaded(
    a: App,
    b: App,
    r: Result<(Vec<SessionHeader>, IdMap<String>), Error>,
    patch: ScanPatch,
) -> bool {
    exists|m: App|
        {
            &&& #[trigger] patched_app(m, b, patch)
            &&& match r {
                Ok((sessions, files)) => remodelled(a, m, sessions, files@),
                Err(e) => says(m.status, "刷新失败: "@ + rendered(e)) && m == (App {
                    status: m.status,
                    ..a
                }),
            }
        }
}

/// `b` is `a` once the database is held, with what was read in it.
pub open spec fn held(
    a: App,
    b: App,
    sessions: Vec<SessionHeader>,
    files: Map<Seq<char>, String>,
    scan: ScanResult,
) -> bool {
    exists|m: App, n: App|
        {
            &&& remodelled(
                App {
                    maint: MaintState::Held,
                    writes: 0,
                    scan,
                    scan_state: ScanState::Ready,
                    sort: sized_sort(a.sort),
                    ..a
                },
                m,
                sessions,
                files,
            )
            &&& #[trigger] rebuilt(m, n)
            &&& says(b.status, "已进入维护模式: 独占数据库,后续操作零重扫。"@)
            &&& b == (App { status: b.status, ..n })
        }
}

/// `b` is `a` where the database could not be held; a scan takes the place of the one that
/// was to come with it.
pub open spec fn not_held(
    a: App,
    b: App,
    e: Error,
    run0: ProgressView,
    run1: ProgressView,
    t: Task,
) -> bool {
    exists|m: App|
        {
            &&& #[trigger] off_again(a, m, e)
            &&& if was_cancelled(e) || a.quit_requested {
                b == m && run1 == run0 && t is Nothing
            } else {
                scanning(m, b, run0, run1, t)
            }
        }
}

/// `b` is `a` without the database, and with the reason.
pub open spec fn off_again(a: App, b: App, e: Error) -> bool {
    &&& says(
        b.status,
        if was_cancelled(e) {
            "已中止维护模式启动,数据库锁已释放。"@
        } else {
            "进入维护模式失败: "@ + rendered(e)
        },
    )
    &&& b == (App {
        maint: MaintState::Off,
        scan_state: ScanState::Ready,
        status: b.status,
        ..a
    })
}

/// What is said once the database was given back.
pub open spec fn released_text(r: Result<u64, Error>) -> Seq<char> {
    match r {
        Ok(pending) => if pending > 0 {
            "已退出维护模式。仍有 "@ + byte_size(pending) + " 空闲空间未回收,可按 v(增量,可中断)或 V(全量)。"@
        } else {
            "已退出维护模式。"@
        },
        Err(e) => "退出维护模式时出错: "@ + rendered(e),
    }
}

/// `b` is `a` with the result of asking the database about its pages: where it could be
/// asked, the better way to give pages back is previewed.
pub open spec fn weighed(a: App, b: App, r: Result<Pages, Error>, t: Task) -> bool {
    match r {
        Ok(p) => previewing(
            a,
            b,
            match strategy(p) {
                Strategy::Incremental => Action::Shrink,
                Strategy::Full => Action::VacuumFull,
            },
            t,
        ),
        Err(e) => t is Nothing && says(b.status, "无法评估空闲页: "@ + rendered(e)) && b == (App {
            status: b.status,
            ..a
        }),
    }
}

/// The sessions that an action is about: in the tree the one under the cursor, else those
/// that are selected, else the one under the cursor.
pub open spec fn is_targets(a: App, t: Seq<Seq<char>>) -> bool {
    if a.focus == Pane::Detail {
        t == (match current_sub_id(a) {
            Some(id) => seq![id],
            None => Seq::empty(),
        })
    } else if a.selected_ids.order().len() > 0 {
        t == a.selected_ids.order()
    } else {
        t == (match current_session(a) {
            Some(id) => seq![id],
            None => Seq::empty(),
        })
    }
}

fn one_name(s: &str) -> (r: Vec<String>)
    ensures
        views(r@) == seq![s@],
{
    let mut out: Vec<String> = Vec::new();
    out.push(s.to_owned());
    assert(views(out@) =~= seq![s@]);
    out
}

fn no_names() -> (r: Vec<String>)
    ensures
        views(r@) == Seq::<Seq<char>>::empty(),
{
    let out: Vec<String> = Vec::new();
    assert(views(out@) =~= Seq::<Seq<char>>::empty());
    out
}

impl App {
    /// What cannot be left unfinished.
    pub fn busy_reason(&self) -> (r: Option<&'static str>)
        ensures
            match r {
                Some(what) => busy_with(*self) == Some(what@),
                None => busy_with(*self) is None,
            },
    {
        if matches!(self.op, OpState::Applying { .. }) {
            return Some("执行");
        }
        match self.maint {
            MaintState::Working => Some("维护会话操作"),
            MaintState::Leaving => Some("维护模式收尾"),
            _ => None,
        }
    }

    /// Asks to leave.
    pub fn request_quit(&mut self, scan: &mut Progress, act: &mut Progress)
        ensures
            quitting(*old(self), *final(self), old(scan)@, final(scan)@, old(act)@, final(act)@),
    {
        self.quit_requested = true;
        if matches!(self.maint, MaintState::Entering) || !self.scan_ready() {
            scan.cancel();
        }
        let stop = match &self.op {
            OpState::Previewing { .. } => true,
            OpState::Applying { action } => action.interruptible(),
            _ => false,
        };
        if stop {
            act.cancel();
        }
        if let Some(what) = self.busy_reason() {
            self.status = Some(join2(what, "完成后将自动退出…"));
        }
    }

    /// Whether the wish to leave can be granted.
    pub fn ready_to_quit(&self) -> (r: bool)
        ensures
            r == (self.quit_requested && busy_with(*self) is None),
    {
        self.quit_requested && self.busy_reason().is_none()
    }

    /// Begins a scan: the one that runs is stopped, and the new one gets a number and a
    /// progress of its own.
    pub fn begin_scan_task(&mut self, running: &mut Progress) -> (r: (u64, Progress))
        ensures
            begun(*old(self), *final(self), old(running)@, final(running)@),
            r.0 == final(self).scan_gen,
            r.1@ == fresh(),
    {
        running.cancel();
        self.scan_gen = self.scan_gen.wrapping_add(1);
        self.scan_state = ScanState::Running;
        (self.scan_gen, Progress::new())
    }

    fn say(&mut self, text: &str)
        ensures
            says(final(self).status, text@),
            *final(self) == (App { status: final(self).status, ..*old(self) }),
    {
        self.status = Some(text.to_owned());
    }

    fn complain(&mut self, what: &str, e: &Error)
        ensures
            says(final(self).status, what@ + rendered(*e)),
            *final(self) == (App { status: final(self).status, ..*old(self) }),
    {
        self.status = Some(join2(what, e.render().as_str()));
    }

    /// Has the table scanned anew.
    pub fn spawn_deep_scan(&mut self, running: &mut Progress) -> (t: Task)
        ensures
            scanning(*old(self), *final(self), old(running)@, final(running)@, t),
    {
        match live_set(self.sessions.as_slice()) {
            Ok(live) => {
                assert(ids_are_good(self.sessions@));
                let collect = self.maint.engaged();
                let (generation, progress) = self.begin_scan_task(running);
                Task::Scan { generation, collect, live, progress }
            },
            Err(e) => {
                assert(!ids_are_good(self.sessions@));
                self.complain("存活集合构建失败: ", &e);
                Task::Nothing
            },
        }
    }

    /// Has the database taken for maintenance.
    pub fn enter_maintenance(&mut self, running: &mut Progress) -> (t: Task)
        ensures
            entering(*old(self), *final(self), old(running)@, final(running)@, t),
    {
        self.maint = MaintState::Entering;
        let (generation, progress) = self.begin_scan_task(running);
        Task::Enter { generation, progress }
    }

    /// Has the database given back.
    pub fn leave_maintenance(&mut self) -> (t: Task)
        ensures
            leaving(*old(self), *final(self), t),
    {
        if !matches!(self.maint, MaintState::Held) {
            return Task::Nothing;
        }
        self.maint = MaintState::Leaving;
        let mut text = "退出维护模式(会话内执行了 ".to_owned();
        push_number(&mut text, self.writes);
        text.push_str(" 次操作),收尾中…");
        self.status = Some(text);
        Task::Leave
    }

    /// The subagents whose parent is gone.
    pub fn dangling_ids(&self) -> (r: Vec<String>)
        ensures
            crate::text::lex_increasing(views(r@)),
            forall|x: Seq<char>| #[trigger]
                views(r@).contains(x) <==> dangling(self.lineage.sessions(), x),
            r@.len() == dangling_count(self.lineage.sessions()),
    {
        let r = self.lineage.dangling_ids();
        proof {
            let v = views(r@);
            let all = Set::new(|x: Seq<char>| dangling(self.lineage.sessions(), x));
            assert(v.no_duplicates()) by {
                assert forall|i: int, j: int|
                    0 <= i < v.len() && 0 <= j < v.len() && i != j implies v[i] != v[j] by {
                    crate::text::lemma_lex_irreflexive(v[i]);
                }
            }
            v.unique_seq_to_set();
            assert(v.to_set() =~= all);
        }
        r
    }

    /// Has an action previewed.
    pub fn start_preview(&mut self, action: Action) -> (t: Task)
        requires
            old(self).wf(),
        ensures
            previewing(*old(self), *final(self), action, t),
    {
        if !matches!(self.op, OpState::Idle) {
            self.say("已有操作进行中。");
            return Task::Nothing;
        }
        if matches!(self.maint, MaintState::Entering | MaintState::Leaving) {
            self.say("维护模式切换中,请稍候。");
            return Task::Nothing;
        }
        if matches!(action, Action::Sweep) && self.scan_ready() {
            let n: usize = self.dangling_ids().len();
            let summary = sweep_summary_from_scan(&self.scan, n, self.maint.engaged());
            self.op = OpState::Confirming { action, summary, gc_plan: None };
            return Task::Nothing;
        }
        self.op = OpState::Previewing { action };
        Task::Preview { in_session: self.lend() }
    }

    /// Lends the database to a task where it is held, and says whether it is.
    fn lend(&mut self) -> (r: bool)
        ensures
            r == (old(self).maint == MaintState::Held),
            *final(self) == (App { maint: lent(old(self).maint), ..*old(self) }),
    {
        if matches!(self.maint, MaintState::Held) {
            self.maint = MaintState::Working;
            true
        } else {
            false
        }
    }

    /// Has an action carried out.
    pub fn start_apply(&mut self, action: Action, backup: bool, gc_plan: Option<GcPlan>) -> (t: Task)
        ensures
            *final(self) == applying(*old(self), action),
            t == (Task::Apply { in_session: old(self).maint == MaintState::Held, backup, gc_plan }),
    {
        self.op = OpState::Applying { action };
        Task::Apply { in_session: self.lend(), backup, gc_plan }
    }

    /// A task has ended that may have had the database lent to it.
    fn return_session(&mut self, returned: bool)
        ensures
            given_back(*old(self), *final(self), returned),
    {
        if returned {
            self.maint = MaintState::Held;
        } else if matches!(self.maint, MaintState::Working) {
            self.maint = MaintState::Off;
            self.say("维护会话已丢失,已退回普通模式。");
        }
    }

    /// A scan has ended, without the sizes or with them.
    pub fn on_scan(&mut self, generation: u64, result: Result<ScanResult, Error>)
        requires
            old(self).wf(),
            result matches Ok(scan) ==> scan.wf(),
        ensures
            scanned(*old(self), *final(self), generation, result),
            final(self).wf(),
    {
        if generation != self.scan_gen {
            return;
        }
        match result {
            Ok(scan) => {
                if scan.sized {
                    self.scan_state = ScanState::Ready;
                    if matches!(self.sort, SortKey::Recency) {
                        self.sort = SortKey::Bytes;
                    }
                }
                self.scan = scan;
                self.rebuild_entries();
            },
            Err(e) => {
                if e.is_cancelled() {
                    self.say("扫描已取消。");
                } else {
                    self.complain("扫描失败: ", &e);
                }
                self.scan_state = ScanState::Ready;
            },
        }
    }

    /// A preview has ended.
    pub fn on_preview(&mut self, action: Action, result: Result<Preview, Error>, returned: bool)
        requires
            old(self).wf(),
        ensures
            previewed(*old(self), *final(self), action, result, returned),
            final(self).wf(),
    {
        self.return_session(returned);
        assert(given_back(*old(self), *self, returned));
        match result {
            Ok(p) => {
                self.op = OpState::Confirming { action, summary: p.summary, gc_plan: p.gc_plan };
            },
            Err(e) => {
                self.op = OpState::Idle;
                self.complain("预览失败: ", &e);
            },
        }
    }

    /// An action has ended. Where it was carried out, the headers are to be read again, and
    /// its effect on the figures is handed back.
    pub fn on_applied(&mut self, result: Result<(String, ScanPatch), Error>, returned: bool) -> (r:
        Option<ScanPatch>)
        requires
            old(self).wf(),
        ensures
            applied(*old(self), *final(self), result, returned, r),
            final(self).wf(),
    {
        let ghost a = *self;
        self.op = OpState::Idle;
        self.return_session(returned);
        assert(given_back(App { op: OpState::Idle, ..a }, *self, returned));
        match result {
            Ok((summary, patch)) => {
                self.status = Some(summary);
                self.selected_ids = NameSet::new();
                if returned {
                    self.writes = self.writes.wrapping_add(1);
                }
                Some(patch)
            },
            Err(e) => {
                self.complain("执行失败: ", &e);
                None
            },
        }
    }

    /// Derives from the sessions what depends on them alone.
    fn refresh_model(&mut self, sessions: Vec<SessionHeader>, files: &IdMap<String>)
        requires
            files.wf(),
        ensures
            remodelled(*old(self), *final(self), sessions, files@),
    {
        self.workspaces = resolve(sessions.as_slice(), files);
        self.lineage = Lineage::build(sessions.as_slice());
        self.sessions = sessions;
    }

    /// Brings the figures up to date after an action.
    pub fn apply_patch(&mut self, patch: &ScanPatch)
        requires
            old(self).wf(),
        ensures
            patched_app(*old(self), *final(self), *patch),
            final(self).wf(),
    {
        let ghost a = *self;
        apply_patch(&mut self.scan, &mut self.selected_ids, patch);
        let ghost m = *self;
        self.rebuild_entries();
        assert(rebuilt(m, *self));
    }

    /// The headers were read again after an action.
    pub fn on_reloaded(
        &mut self,
        result: Result<(Vec<SessionHeader>, IdMap<String>), Error>,
        patch: &ScanPatch,
    )
        requires
            old(self).wf(),
            result matches Ok(r) ==> r.1.wf(),
        ensures
            reloaded(*old(self), *final(self), result, *patch),
            final(self).wf(),
    {
        match result {
            Ok((sessions, files)) => self.refresh_model(sessions, &files),
            Err(e) => self.complain("刷新失败: ", &e),
        }
        let ghost m = *self;
        self.apply_patch(patch);
        assert(patched_app(m, *self, *patch));
    }

    /// The database is held, or could not be.
    pub fn on_entered(
        &mut self,
        generation: u64,
        result: Result<(Vec<SessionHeader>, IdMap<String>, ScanResult), Error>,
        running: &mut Progress,
    ) -> (t: Task)
        requires
            old(self).wf(),
            result matches Ok(r) ==> r.1.wf() && r.2.wf(),
        ensures
            final(self).wf(),
            if generation != old(self).scan_gen {
                *final(self) == *old(self) && t is Nothing && final(running)@ == old(running)@
            } else {
                match result {
                    Ok((sessions, files, scan)) => held(
                        *old(self),
                        *final(self),
                        sessions,
                        files@,
                        scan,
                    ) && t is Nothing && final(running)@ == old(running)@,
                    Err(e) => not_held(
                        *old(self),
                        *final(self),
                        e,
                        old(running)@,
                        final(running)@,
                        t,
                    ),
                }
            },
    {
        if generation != self.scan_gen {
            return Task::Nothing;
        }
        match result {
            Ok((sessions, files, scan)) => {
                self.maint = MaintState::Held;
                self.writes = 0;
                self.scan = scan;
                self.scan_state = ScanState::Ready;
                if matches!(self.sort, SortKey::Recency) {
                    self.sort = SortKey::Bytes;
                }
                self.refresh_model(sessions, &files);
                let ghost m = *self;
                self.rebuild_entries();
                assert(rebuilt(m, *self));
                self.say("已进入维护模式: 独占数据库,后续操作零重扫。");
                Task::Nothing
            },
            Err(e) => {
                self.maint = MaintState::Off;
                self.scan_state = ScanState::Ready;
                if e.is_cancelled() {
                    self.say("已中止维护模式启动,数据库锁已释放。");
                    assert(off_again(*old(self), *self, e));
                    return Task::Nothing;
                }
                self.complain("进入维护模式失败: ", &e);
                assert(off_again(*old(self), *self, e));
                if self.quit_requested {
                    return Task::Nothing;
                }
                self.spawn_deep_scan(running)
            },
        }
    }

    /// The database was given back; `result` says how many bytes are still free in it.
    pub fn on_released(&mut self, result: Result<u64, Error>)
        ensures
            says(final(self).status, released_text(result)),
            *final(self) == (App {
                maint: MaintState::Off,
                status: final(self).status,
                ..*old(self)
            }),
    {
        self.maint = MaintState::Off;
        match result {
            Ok(pending) => {
                if pending > 0 {
                    let mut text = "已退出维护模式。仍有 ".to_owned();
                    push_size(&mut text, pending);
                    text.push_str(" 空闲空间未回收,可按 v(增量,可中断)或 V(全量)。");
                    self.status = Some(text);
                } else {
                    self.say("已退出维护模式。");
                }
            },
            Err(e) => self.complain("退出维护模式时出错: ", &e),
        }
    }

    /// The database was asked about its pages.
    pub fn on_pages(&mut self, result: Result<Pages, Error>) -> (t: Task)
        requires
            old(self).wf(),
            result matches Ok(p) ==> p.fits(),
        ensures
            weighed(*old(self), *final(self), result, t),
    {
        match result {
            Ok(p) => {
                let (s, _) = choose_strategy(&p);
                match s {
                    Strategy::Incremental => self.start_preview(Action::Shrink),
                    Strategy::Full => self.start_preview(Action::VacuumFull),
                }
            },
            Err(e) => {
                self.complain("无法评估空闲页: ", &e);
                Task::Nothing
            },
        }
    }

    /// The sessions that an action is about.
    pub fn action_targets(&self) -> (r: Vec<String>)
        ensures
            is_targets(*self, views(r@)),
    {
        if self.focus == Pane::Detail {
            return match self.current_sub() {
                Some(s) => one_name(s.composer_id.as_str()),
                None => no_names(),
            };
        }
        let n: usize = self.selected_ids.len();
        if n > 0 {
            let ghost all = self.selected_ids.order();
            let mut out = no_names();
            let mut i: usize = 0;
            assert(views(out@) =~= all.take(0));
            while i < n
                invariant
                    i <= n,
                    n == all.len(),
                    all == self.selected_ids.order(),
                    views(out@) == all.take(i as int),
                decreases n - i,
            {
                let ghost before = views(out@);
                out.push(self.selected_ids.get(i).clone());
                proof {
                    assert(views(out@) =~= before.push(all[i as int]));
                    assert(all.take(i + 1) =~= all.take(i as int).push(all[i as int]));
                }
                i += 1;
            }
            assert(all.take(i as int) =~= all);
            return out;
        }
        match self.current_entry() {
            Some(e) => if e.has_header() {
                one_name(e.composer_id.as_str())
            } else {
                no_names()
            },
            None => no_names(),
        }
    }
}

/// What an earlier scan brings is thrown away once a new one has begun.
pub proof fn lemma_stale_scan(
    a: App,
    b: App,
    c: App,
    run0: ProgressView,
    run1: ProgressView,
    r: Result<ScanResult, Error>,
)
    requires
        begun(a, b, run0, run1),
        scanned(b, c, a.scan_gen, r),
    ensures
        c == b,
        run1.cancelled,
        c.scan_state == ScanState::Running,
{
    assert(wrapped(a.scan_gen as nat + 1) != a.scan_gen);
}

/// Once the list was sorted and filtered the cursor stands on one of its rows, where there
/// are any, and on the row that it stood on before, where that is still shown.
pub proof fn lemma_cursor_stays(a: App, b: App)
    requires
        refiltered(a, b),
    ensures
        b.visible@.len() > 0 ==> current(b) is Some,
        current_id(a) is Some && (exists|k: int|
            0 <= k < b.visible@.len() && b.entries@[#[trigger] b.visible@[k] as int].composer_id@
                == current_id(a)->0) ==> current_id(b) == current_id(a),
{
    let ws = opt_text(a.ws_filter);
    let q = unicode_lower(a.filter@);
    let v = places(b.visible@);
    lemma_shown(b.entries@, a.view, ws, q);
    if b.visible@.len() > 0 {
        if current_id(a) is Some {
            lemma_row_found(b.entries@, v, current_id(a)->0);
        }
        let c = row_at(b.cursor);
        assert(v.contains(v[c]));
        assert(v[c] == b.visible@[c]);
        if current_id(a) is Some && (exists|k: int|
            0 <= k < b.visible@.len() && b.entries@[#[trigger] b.visible@[k] as int].composer_id@
                == current_id(a)->0) {
            let k = choose|k: int|
                0 <= k < b.visible@.len()
                    && b.entries@[#[trigger] b.visible@[k] as int].composer_id@ == current_id(a)->0;
            assert(b.entries@[v[k]].composer_id@ == current_id(a)->0);
        }
    }
}

proof fn lemma_row_found(s: Seq<Entry>, visible: Seq<int>, id: Seq<char>)
    ensures
        0 <= row_of(s, visible, id) <= visible.len(),
        row_of(s, visible, id) < visible.len() ==> s[visible[row_of(s, visible, id)]].composer_id@
            == id,
        forall|k: int|
            0 <= k < visible.len() && s[#[trigger] visible[k]].composer_id@ == id ==> row_of(
                s,
                visible,
                id,
            ) <= k,
    decreases visible.len(),
{
    if visible.len() > 0 && s[visible[0]].composer_id@ != id {
        let rest = visible.drop_first();
        lemma_row_found(s, rest, id);
        assert forall|k: int|
            0 <= k < visible.len() && s[#[trigger] visible[k]].composer_id@ == id implies row_of(
            s,
            visible,
            id,
        ) <= k by {
            assert(s[rest[k - 1]].composer_id@ == id);
        }
    }
}

/// Sorting and filtering again changes nothing.
pub proof fn lemma_refilter_again(a: App, b: App, c: App)
    requires
        refiltered(a, b),
        refiltered(b, c),
    ensures
        c.entries@ == b.entries@,
        places(c.visible@) == places(b.visible@),
{
    lemma_in_order(a.sort, a.reverse, a.entries@);
    lemma_sorting_again(a.sort, a.reverse, b.entries@);
}

/// The entries that are shown stand in the order that was asked for: by size, rows or time
/// they fall, and rise where the order is reversed.
pub proof fn lemma_listed_in_order(
    a: App,
    b: App,
    e0: Seq<Entry>,
    keep: Option<Seq<char>>,
    i: int,
    j: int,
)
    requires
        listed(a, b, e0, keep),
        0 <= i < j < b.visible@.len(),
    ensures
        b.visible@[i] < b.visible@[j] < b.entries@.len(),
        a.sort == SortKey::Rows && !a.reverse ==> b.entries@[b.visible@[i] as int].rows
            >= b.entries@[b.visible@[j] as int].rows,
        a.sort == SortKey::Rows && a.reverse ==> b.entries@[b.visible@[i] as int].rows
            <= b.entries@[b.visible@[j] as int].rows,
        a.sort == SortKey::Recency && !a.reverse ==> b.entries@[b.visible@[i] as int].recency
            >= b.entries@[b.visible@[j] as int].recency,
        a.sort == SortKey::Recency && a.reverse ==> b.entries@[b.visible@[i] as int].recency
            <= b.entries@[b.visible@[j] as int].recency,
        a.sort == SortKey::Bytes && !a.reverse ==> heft(b.entries@[b.visible@[i] as int]) >= heft(
            b.entries@[b.visible@[j] as int],
        ),
        a.sort == SortKey::Bytes && a.reverse ==> heft(b.entries@[b.visible@[i] as int]) <= heft(
            b.entries@[b.visible@[j] as int],
        ),
        a.sort == SortKey::Name && !a.reverse ==> not_behind(
            b.entries@[b.visible@[i] as int].name,
            b.entries@[b.visible@[j] as int].name,
        ),
{
    let q = unicode_lower(a.filter@);
    let w = opt_text(a.ws_filter);
    lemma_shown(b.entries@, a.view, w, q);
    let v = places(b.visible@);
    let (x, y) = (b.visible@[i] as int, b.visible@[j] as int);
    assert(v[i] == x && v[j] == y);
    assert(v.contains(v[j]));
    lemma_in_order(a.sort, a.reverse, e0);
    lemma_sorted_by_rows(e0, x, y);
    lemma_sorted_by_time(e0, x, y);
    lemma_sorted_by_size(e0, x, y);
    lemma_sorted_by_name(e0, x, y);
}

/// Every entry that is shown passes the choices that were made, and every entry that does is
/// shown; sorting loses and adds none.
pub proof fn lemma_listed_exactly(
    a: App,
    b: App,
    e0: Seq<Entry>,
    keep: Option<Seq<char>>,
    k: int,
)
    requires
        listed(a, b, e0, keep),
        0 <= k < b.entries@.len(),
    ensures
        b.entries@.to_multiset() == e0.to_multiset(),
        places(b.visible@).contains(k) <==> shows(
            b.entries@[k],
            a.view,
            opt_text(a.ws_filter),
            unicode_lower(a.filter@),
        ),
{
    lemma_shown(b.entries@, a.view, opt_text(a.ws_filter), unicode_lower(a.filter@));
    lemma_in_order(a.sort, a.reverse, e0);
}

/// The program does not leave while an action is carried out or the database is being worked
/// on or given back, and in no other case is it held up.
pub proof fn lemma_busy(a: App)
    ensures
        busy_with(a) is Some <==> a.op is Applying || a.maint == MaintState::Working || a.maint
            == MaintState::Leaving,
{
}

/// Leaving stops whatever can be stopped: a scan, the way into maintenance, a preview, and
/// giving pages back; nothing else is stopped.
pub proof fn lemma_quitting_stops(
    a: App,
    b: App,
    scan0: ProgressView,
    scan1: ProgressView,
    act0: ProgressView,
    act1: ProgressView,
)
    requires
        quitting(a, b, scan0, scan1, act0, act1),
    ensures
        b.quit_requested,
        a.scan_state == ScanState::Running || a.maint == MaintState::Entering ==> scan1.cancelled,
        a.scan_state != ScanState::Running && a.maint != MaintState::Entering ==> scan1 == scan0,
        a.op is Previewing ==> act1.cancelled,
        a.op is Applying && a.op->Applying_action is Shrink ==> act1.cancelled,
        a.op is Applying && !(a.op->Applying_action is Shrink) ==> act1 == act0,
        b.op == a.op && b.maint == a.maint && b.sessions == a.sessions,
{
}

/// Once an action has ended none runs. Where it was carried out, nothing is selected any
/// more, its summary is shown, and its effect is to be applied; where it failed, the selection
/// stays and nothing is to be applied.
pub proof fn lemma_after_action(
    a: App,
    b: App,
    r: Result<(String, ScanPatch), Error>,
    returned: bool,
    reload: Option<ScanPatch>,
)
    requires
        applied(a, b, r, returned, reload),
    ensures
        b.op is Idle,
        r matches Ok((summary, patch)) ==> b.selected_ids@ == Set::<Seq<char>>::empty() && b.status
            == Some(r->Ok_0.0) && reload == Some(r->Ok_0.1),
        r is Err ==> b.selected_ids == a.selected_ids && reload is None,
        returned ==> b.maint == MaintState::Held,
        !returned && a.maint == MaintState::Working ==> b.maint == MaintState::Off,
        r is Ok && returned && a.writes < u64::MAX ==> b.writes == a.writes + 1,
        r is Err ==> b.writes == a.writes,
{
}

/// A preview asks whether to go on, with its summary; where it failed, nothing is asked.
pub proof fn lemma_after_preview(
    a: App,
    b: App,
    action: Action,
    r: Result<Preview, Error>,
    returned: bool,
)
    requires
        previewed(a, b, action, r, returned),
    ensures
        r matches Ok(p) ==> b.op is Confirming && b.op->Confirming_action == action
            && b.op->Confirming_summary == r->Ok_0.summary && b.op->Confirming_gc_plan
            == r->Ok_0.gc_plan,
        r is Err ==> b.op is Idle,
        b.sessions == a.sessions && b.scan == a.scan && b.selected_ids == a.selected_ids,
{
}

/// A scan that was asked for last gives its figures; a deep one is the end of it, and then
/// what was sorted by time is sorted by size.
pub proof fn lemma_after_scan(a: App, b: App, scan: ScanResult)
    requires
        scanned(a, b, a.scan_gen, Ok(scan)),
    ensures
        b.scan == scan,
        scan.sized ==> b.scan_state == ScanState::Ready,
        !scan.sized ==> b.scan_state == a.scan_state && b.sort == a.sort,
        scan.sized && a.sort == SortKey::Recency ==> b.sort == SortKey::Bytes,
        a.sort != SortKey::Recency ==> b.sort == a.sort,
        b.sessions == a.sessions && b.selected_ids == a.selected_ids,
{
}

/// A scan looks for the rows of the sessions that are alive, and collects the keys to sweep
/// where the database is held or about to be.
pub proof fn lemma_scan_task(a: App, b: App, run0: ProgressView, run1: ProgressView, t: Task)
    requires
        scanning(a, b, run0, run1, t),
        ids_are_good(a.sessions@),
    ensures
        t is Scan,
        t->Scan_live@ == live_ids(a.sessions@),
        t->Scan_collect <==> a.maint != MaintState::Off,
        t->Scan_generation == b.scan_gen,
        b.scan_gen != a.scan_gen,
        run1.cancelled,
        !t->Scan_progress@.cancelled,
        b.scan_state == ScanState::Running,
{
}

/// A wish to give pages back is met by small steps where they are cheaper, and by writing the
/// database anew otherwise.
pub proof fn lemma_reclaim(a: App, b: App, p: Pages, t: Task)
    requires
        weighed(a, b, Ok(p), t),
        a.op is Idle,
        a.maint == MaintState::Off || a.maint == MaintState::Held,
    ensures
        t is Preview && b.op is Previewing,
        strategy(p) == Strategy::Incremental ==> b.op->Previewing_action is Shrink,
        strategy(p) == Strategy::Full ==> b.op->Previewing_action is VacuumFull,
{
}

/// An action is about the sessions that are selected; where none is, about the one under the
/// cursor, if it is a session; in the tree always about the one under its cursor.
pub proof fn lemma_targets(a: App, t: Seq<Seq<char>>)
    requires
        is_targets(a, t),
    ensures
        a.focus != Pane::Detail && a.selected_ids.order().len() > 0 ==> t == a.selected_ids.order(),
        a.focus != Pane::Detail && a.selected_ids.order().len() == 0 && current(a) is Some
            && current(a)->0.attach is Some ==> t == seq![current(a)->0.composer_id@],
        a.focus != Pane::Detail && a.selected_ids.order().len() == 0 && (current(a) is None || current(
            a,
        )->0.attach is None) ==> t.len() == 0,
        a.focus == Pane::Detail && a.sub_cursor is Some && a.sub_cursor->0 < a.sub_rows@.len()
            ==> t == seq![a.sub_rows@[a.sub_cursor->0 as int].composer_id@],
{
}

/// Leaving maintenance says how many operations were carried out in it.
pub proof fn lemma_leaving_text(a: App, b: App, t: Task)
    requires
        leaving(a, b, t),
        a.maint == MaintState::Held,
    ensures
        crate::text::occurs("退出维护模式(会话内执行了 "@ + decimal(a.writes as nat), b.status->0@),
{
    let p0 = "退出维护模式(会话内执行了 "@;
    let p1 = decimal(a.writes as nat);
    let p2 = " 次操作),收尾中…"@;
    let t0 = p0;
    let t1 = t0 + p1;
    let t2 = t1 + p2;
    assert(b.status->0@ == t2);
    crate::text::lemma_occurs_self(p0 + p1);
    crate::text::lemma_occurs_grows(p0 + p1, t1, p2);
}

/// Each action has a name of its own.
pub proof fn lemma_verbs(ids: Vec<String>)
    ensures
        verb_text(Action::Delete(ids)) == "删除会话"@,
        verb_text(Action::Trim(ids)) == "修剪快照"@,
        verb_text(Action::Sweep) == "清扫孤儿"@,
        verb_text(Action::Gc) == "blob GC"@,
        verb_text(Action::Shrink) == "增量收缩"@,
        verb_text(Action::VacuumFull) == "全量 VACUUM"@,
{
}

/// What the database was lent for, it is given back from; where it is not, it is lost, and
/// maintenance is over.
pub proof fn lemma_lent(a: App, action: Action, b: App, c: App, returned: bool)
    requires
        a.maint == MaintState::Held,
        b == applying(a, action),
        given_back(b, c, returned),
    ensures
        b.maint == MaintState::Working,
        returned ==> c.maint == MaintState::Held,
        !returned ==> c.maint == MaintState::Off,
        c.sessions == a.sessions && c.scan == a.scan,
{
}

} // verus!
