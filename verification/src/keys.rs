//! What each key does.

use crate::entries::{next_key, next_lens};
use crate::progress::{Progress, ProgressView};
use crate::text::views;
use crate::tui::{
    applying, clamped, current, entering, focused, is_targets, jumped_to, leaving, moved, pane_at,
    pane_place, previewing, quitting, refiltered, says, scanning, stopped, synced, Action, App,
    InfoLayer, InputMode, MaintState, OpState, Pane, ScanState, Task,
};
use vstd::prelude::*;

verus! {

broadcast use vstd::string::group_string_axioms;

/// A key.
#[derive(Debug, Clone, Copy, PartialEq, Eq, Structural)]
pub enum Key {
    Esc,
    Enter,
    Backspace,
    Tab,
    Up,
    Down,
    Left,
    Right,
    PageUp,
    PageDown,
    Home,
    End,
    Char(char),
    Other,
}

/// What a key asks for.
#[derive(Debug, Clone, Copy, PartialEq, Eq, Structural)]
pub enum Intent {
    Ignore,
    /// Empty the filter and stop writing it.
    FilterClear,
    /// Keep the filter and stop writing it.
    FilterDone,
    FilterPop,
    FilterPush(char),
    /// Stop giving pages back.
    StopShrink,
    /// Carry out what was previewed, with a backup or without.
    Confirm(bool),
    Decline,
    CloseInfo,
    /// Empty the filter.
    ClearText,
    /// Show all workspaces.
    ClearWorkspace,
    /// Stop taking the database for maintenance.
    AbortEntering,
    FocusChats,
    FocusWorkspaces,
    Quit,
    Move(i64),
    MoveFocus(i64),
    Jump(bool),
    NextSort,
    Reverse,
    NextView,
    StartFilter,
    /// Go on to the next pane.
    Descend,
    Help,
    /// Select the row, or no longer.
    Toggle,
    Delete,
    Trim,
    Rescan,
    /// Give pages back, in the better way.
    Reclaim,
    VacuumFull,
    /// Take the database for maintenance, or give it back.
    Maintenance,
    Sweep,
    Gc,
}

/// What a key asks for while the filter is written.
pub open spec fn filter_intent(key: Key) -> Intent {
    match key {
        Key::Esc => Intent::FilterClear,
        Key::Enter => Intent::FilterDone,
        Key::Backspace => Intent::FilterPop,
        Key::Char(c) => Intent::FilterPush(c),
        _ => Intent::Ignore,
    }
}

/// What the escape key asks for: it undoes the nearest thing, and leaves where there is none.
pub open spec fn escape_intent(a: App) -> Intent {
    if a.filter@.len() > 0 {
        Intent::ClearText
    } else if a.ws_filter is Some {
        Intent::ClearWorkspace
    } else if a.maint == MaintState::Entering {
        Intent::AbortEntering
    } else if a.focus != Pane::Chats {
        Intent::FocusChats
    } else {
        Intent::Quit
    }
}

/// What a character asks for.
pub open spec fn char_intent(a: App, c: char) -> Intent {
    if c == 'q' {
        Intent::Quit
    } else if c == 'j' {
        Intent::Move(1)
    } else if c == 'k' {
        Intent::Move(-1i64)
    } else if c == 'h' {
        Intent::MoveFocus(-1i64)
    } else if c == 'l' {
        Intent::MoveFocus(1)
    } else if c == 'g' {
        Intent::Jump(false)
    } else if c == 'G' {
        Intent::Jump(true)
    } else if c == 's' {
        Intent::NextSort
    } else if c == 'S' {
        Intent::Reverse
    } else if c == '/' {
        Intent::StartFilter
    } else if c == '?' {
        Intent::Help
    } else if c == ' ' && a.focus == Pane::Chats {
        Intent::Toggle
    } else if c == 'd' || c == 'D' {
        Intent::Delete
    } else if c == 't' {
        Intent::Trim
    } else if c == 'r' {
        Intent::Rescan
    } else if c == 'v' {
        Intent::Reclaim
    } else if c == 'V' {
        Intent::VacuumFull
    } else if c == 'M' {
        Intent::Maintenance
    } else if c == 'w' {
        Intent::FocusWorkspaces
    } else if c == 'x' {
        Intent::Sweep
    } else if c == 'c' {
        Intent::Gc
    } else {
        Intent::Ignore
    }
}

/// Pages are being given back, which can be stopped.
pub open spec fn shrinking(op: OpState) -> bool {
    match op {
        OpState::Applying { action } => action is Shrink,
        _ => false,
    }
}

/// What a key asks for. The filter while it is written, a question and an open layer take
/// all keys, in this order.
pub open spec fn intent(a: App, key: Key) -> Intent {
    if a.input == InputMode::Filter {
        filter_intent(key)
    } else if shrinking(a.op) && key == Key::Esc {
        Intent::StopShrink
    } else if a.op is Confirming {
        if key == Key::Char('y') {
            Intent::Confirm(true)
        } else if key == Key::Char('Y') {
            Intent::Confirm(false)
        } else {
            Intent::Decline
        }
    } else if a.info != InfoLayer::Hidden {
        Intent::CloseInfo
    } else {
        match key {
            Key::Esc => escape_intent(a),
            Key::Down => Intent::Move(1),
            Key::Up => Intent::Move(-1i64),
            Key::PageDown => Intent::Move(20),
            Key::PageUp => Intent::Move(-20i64),
            Key::Left => Intent::MoveFocus(-1i64),
            Key::Right => Intent::MoveFocus(1),
            Key::Home => Intent::Jump(false),
            Key::End => Intent::Jump(true),
            Key::Tab => Intent::NextView,
            Key::Enter => Intent::Descend,
            Key::Char(c) => char_intent(a, c),
            _ => Intent::Ignore,
        }
    }
}

fn route_escape(a: &App) -> (r: Intent)
    ensures
        r == escape_intent(*a),
{
    if !a.filter.as_str().is_empty() {
        Intent::ClearText
    } else if a.ws_filter.is_some() {
        Intent::ClearWorkspace
    } else if a.maint == MaintState::Entering {
        Intent::AbortEntering
    } else if a.focus != Pane::Chats {
        Intent::FocusChats
    } else {
        Intent::Quit
    }
}

fn route_char(a: &App, c: char) -> (r: Intent)
    ensures
        r == char_intent(*a, c),
{
    match c {
        'q' => Intent::Quit,
        'j' => Intent::Move(1),
        'k' => Intent::Move(-1),
        'h' => Intent::MoveFocus(-1),
        'l' => Intent::MoveFocus(1),
        'g' => Intent::Jump(false),
        'G' => Intent::Jump(true),
        's' => Intent::NextSort,
        'S' => Intent::Reverse,
        '/' => Intent::StartFilter,
        '?' => Intent::Help,
        ' ' => if a.focus == Pane::Chats {
            Intent::Toggle
        } else {
            Intent::Ignore
        },
        'd' => Intent::Delete,
        'D' => Intent::Delete,
        't' => Intent::Trim,
        'r' => Intent::Rescan,
        'v' => Intent::Reclaim,
        'V' => Intent::VacuumFull,
        'M' => Intent::Maintenance,
        'w' => Intent::FocusWorkspaces,
        'x' => Intent::Sweep,
        'c' => Intent::Gc,
        _ => Intent::Ignore,
    }
}

/// What a key asks for.
pub fn route(a: &App, key: Key) -> (r: Intent)
    ensures
        r == intent(*a, key),
{
    if a.input == InputMode::Filter {
        return match key {
            Key::Esc => Intent::FilterClear,
            Key::Enter => Intent::FilterDone,
            Key::Backspace => Intent::FilterPop,
            Key::Char(c) => Intent::FilterPush(c),
            _ => Intent::Ignore,
        };
    }
    let shrinks = match &a.op {
        OpState::Applying { action } => action.interruptible(),
        _ => false,
    };
    if shrinks && key == Key::Esc {
        return Intent::StopShrink;
    }
    if matches!(a.op, OpState::Confirming { .. }) {
        return match key {
            Key::Char('y') => Intent::Confirm(true),
            Key::Char('Y') => Intent::Confirm(false),
            _ => Intent::Decline,
        };
    }
    if a.info != InfoLayer::Hidden {
        return Intent::CloseInfo;
    }
    match key {
        Key::Esc => route_escape(a),
        Key::Down => Intent::Move(1),
        Key::Up => Intent::Move(-1),
        Key::PageDown => Intent::Move(20),
        Key::PageUp => Intent::Move(-20),
        Key::Left => Intent::MoveFocus(-1),
        Key::Right => Intent::MoveFocus(1),
        Key::Home => Intent::Jump(false),
        Key::End => Intent::Jump(true),
        Key::Tab => Intent::NextView,
        Key::Enter => Intent::Descend,
        Key::Char(c) => route_char(a, c),
        _ => Intent::Ignore,
    }
}

/// The two progresses that a key can stop: that of the scan and that of the operation.
pub struct Meters {
    pub scan: ProgressView,
    pub act: ProgressView,
}

/// `b` is `a` with a text in the status line.
pub open spec fn told(a: App, b: App, text: Seq<char>) -> bool {
    says(b.status, text) && b == (App { status: b.status, ..a })
}

/// `b` is `a` with another filter, and the list filtered by it.
pub open spec fn filtered(a: App, b: App, text: Seq<char>) -> bool {
    b.filter@ == text && refiltered(App { filter: b.filter, ..a }, b)
}

/// The names with one more, or with one less where it is among them.
pub open spec fn toggled(s: Set<Seq<char>>, x: Seq<char>) -> Set<Seq<char>> {
    if s.contains(x) {
        s.remove(x)
    } else {
        s.insert(x)
    }
}

/// Going on to the next pane: from the workspaces to the list, and from a row of the list
/// to its tree.
pub open spec fn descended(a: App, b: App) -> bool {
    match a.focus {
        Pane::Workspaces => b == (App { focus: Pane::Chats, ..a }),
        Pane::Chats => if current(a) is Some {
            exists|m: App| #[trigger]
                synced(App { focus: Pane::Detail, ..a }, m) && b == focused(m, Pane::Detail)
        } else {
            b == a
        },
        Pane::Detail => b == a,
    }
}

/// Selecting the row under the cursor, or no longer, and going on to the next. Rows without
/// a header cannot be selected.
pub open spec fn toggling(a: App, b: App) -> bool {
    match current(a) {
        None => b == a,
        Some(e) => if e.attach is None {
            told(a, b, "孤儿数据不按会话删,用 x(清扫)处理。"@)
        } else {
            &&& b.selected_ids@ == toggled(a.selected_ids@, e.composer_id@)
            &&& moved(App { selected_ids: b.selected_ids, ..a }, b, 1)
        },
    }
}

/// An action on the sessions that it is about is previewed; where there are none, `hint` is
/// shown.
pub open spec fn asked(a: App, b: App, delete: bool, hint: Seq<char>, t: Task) -> bool {
    exists|ids: Vec<String>|
        {
            &&& is_targets(a, #[trigger] views(ids@))
            &&& if ids@.len() == 0 {
                told(a, b, hint) && t is Nothing
            } else if delete {
                previewing(a, b, Action::Delete(ids), t)
            } else {
                previewing(a, b, Action::Trim(ids), t)
            }
        }
}

/// The table is scanned anew, but where the database is held: there the figures are exact,
/// and a scan would read an older state.
pub open spec fn rescanned(
    a: App,
    b: App,
    run0: ProgressView,
    run1: ProgressView,
    t: Task,
) -> bool {
    if a.maint != MaintState::Off {
        told(a, b, "维护模式下模型由排他锁保证精确,无需重扫(统计已增量修正)。"@) && run1 == run0 && t is Nothing
    } else if a.scan_state == ScanState::Ready {
        exists|m: App| #[trigger]
            told(a, m, "重新扫描…"@) && scanning(m, b, run0, run1, t)
    } else {
        b == a && run1 == run0 && t is Nothing
    }
}

/// The database is taken for maintenance, or given back.
pub open spec fn switched(
    a: App,
    b: App,
    run0: ProgressView,
    run1: ProgressView,
    t: Task,
) -> bool {
    match a.maint {
        MaintState::Off => if a.op is Idle {
            exists|m: App| #[trigger]
                told(a, m, "正在取得数据库独占锁…"@) && entering(m, b, run0, run1, t)
        } else {
            told(a, b, "有操作进行中,无法切换维护模式。"@) && run1 == run0 && t is Nothing
        },
        MaintState::Held => leaving(a, b, t) && run1 == run0,
        MaintState::Entering => told(a, b, "正在中止维护模式启动…"@) && run1 == stopped(run0)
            && t is Nothing,
        MaintState::Leaving | MaintState::Working => told(a, b, "维护会话忙,请稍候。"@) && run1 == run0
            && t is Nothing,
    }
}

/// `b` is `a` once it was done what was asked for, with the progresses as they are left
/// and what is to be carried out next.
pub open spec fn done(a: App, i: Intent, b: App, m0: Meters, m1: Meters, t: Task) -> bool {
    &&& match i {
        Intent::Ignore => b == a,
        Intent::FilterClear => filtered(App { input: InputMode::Normal, ..a }, b, Seq::empty()),
        Intent::FilterDone => b == (App { input: InputMode::Normal, ..a }),
        Intent::FilterPop => filtered(
            a,
            b,
            if a.filter@.len() > 0 {
                a.filter@.drop_last()
            } else {
                a.filter@
            },
        ),
        Intent::FilterPush(c) => filtered(a, b, a.filter@.push(c)),
        Intent::StopShrink => told(a, b, "正在停止收缩…"@),
        Intent::Confirm(backup) => a.op matches OpState::Confirming { action, gc_plan, .. } && b
            == applying(a, action) && t == (Task::Apply {
            in_session: a.maint == MaintState::Held,
            backup,
            gc_plan,
        }),
        Intent::Decline => told(App { op: OpState::Idle, ..a }, b, "已取消。"@),
        Intent::CloseInfo => b == (App { info: InfoLayer::Hidden, ..a }),
        Intent::ClearText => filtered(a, b, Seq::empty()),
        Intent::ClearWorkspace => refiltered(
            App { ws_filter: None, ws_cursor: Some(0usize), ..a },
            b,
        ),
        Intent::AbortEntering => told(a, b, "正在中止维护模式启动…"@),
        Intent::FocusChats => b == (App { focus: Pane::Chats, ..a }),
        Intent::FocusWorkspaces => b == (App { focus: Pane::Workspaces, ..a }),
        Intent::Quit => quitting(a, b, m0.scan, m1.scan, m0.act, m1.act),
        Intent::Move(d) => moved(a, b, d as int),
        Intent::MoveFocus(d) => b == focused(a, pane_at(clamped(pane_place(a.focus) + d, 3))),
        Intent::Jump(to_end) => jumped_to(a, b, to_end),
        Intent::NextSort => refiltered(App { sort: next_key(a.sort), ..a }, b),
        Intent::Reverse => refiltered(App { reverse: !a.reverse, ..a }, b),
        Intent::NextView => refiltered(App { view: next_lens(a.view), ..a }, b),
        Intent::StartFilter => b == (App { input: InputMode::Filter, ..a }),
        Intent::Descend => descended(a, b),
        Intent::Help => b == (App { info: InfoLayer::Help, ..a }),
        Intent::Toggle => toggling(a, b),
        Intent::Delete => asked(a, b, true, "先用空格选中或将光标移到要删除的会话。"@, t),
        Intent::Trim => asked(a, b, false, "先用空格选中或将光标移到要修剪的会话。"@, t),
        Intent::Rescan => rescanned(a, b, m0.scan, m1.scan, t),
        Intent::Reclaim => b == a,
        Intent::VacuumFull => previewing(a, b, Action::VacuumFull, t),
        Intent::Maintenance => switched(a, b, m0.scan, m1.scan, t),
        Intent::Sweep => previewing(a, b, Action::Sweep, t),
        Intent::Gc => previewing(a, b, Action::Gc, t),
    }
    &&& gives_task(i) || t == (if i == Intent::Reclaim {
        Task::WeighShrink
    } else {
        Task::Nothing
    })
    &&& i == Intent::Quit || m1.act == (if i == Intent::StopShrink {
        stopped(m0.act)
    } else {
        m0.act
    })
    &&& i == Intent::Quit || i == Intent::Rescan || i == Intent::Maintenance || m1.scan == (if i
        == Intent::AbortEntering {
        stopped(m0.scan)
    } else {
        m0.scan
    })
}

/// What is to be carried out next is said where the intent is described.
pub open spec fn gives_task(i: Intent) -> bool {
    match i {
        Intent::Confirm(_) | Intent::Delete | Intent::Trim | Intent::Rescan | Intent::VacuumFull
        | Intent::Maintenance | Intent::Sweep | Intent::Gc => true,
        _ => false,
    }
}

impl App {
    fn tell(&mut self, text: &str)
        ensures
            told(*old(self), *final(self), text@),
    {
        self.status = Some(text.to_owned());
    }

    fn set_filter(&mut self, text: String)
        ensures
            filtered(*old(self), *final(self), text@),
    {
        self.filter = text;
        self.sort_and_refilter();
    }

    fn descend(&mut self)
        requires
            old(self).wf(),
        ensures
            descended(*old(self), *final(self)),
            final(self).wf(),
    {
        match self.focus {
            Pane::Workspaces => {
                self.focus = Pane::Chats;
            },
            Pane::Chats => {
                if self.current_entry().is_some() {
                    let ghost a = *self;
                    self.focus = Pane::Detail;
                    self.sync_sub_rows();
                    let ghost m = *self;
                    assert(synced(App { focus: Pane::Detail, ..a }, m));
                    if self.sub_cursor.is_none() && self.sub_rows.len() > 0 {
                        self.sub_cursor = Some(0);
                    }
                    assert(*self == focused(m, Pane::Detail));
                }
            },
            Pane::Detail => {},
        }
    }

    fn toggle(&mut self)
        requires
            old(self).wf(),
        ensures
            toggling(*old(self), *final(self)),
            final(self).wf(),
    {
        let id = match self.current_entry() {
            None => {
                return;
            },
            Some(e) => if e.has_header() {
                Some(e.composer_id.clone())
            } else {
                None
            },
        };
        match id {
            None => self.tell("孤儿数据不按会话删,用 x(清扫)处理。"),
            Some(id) => {
                if !self.selected_ids.remove(id.as_str()) {
                    assert(self.selected_ids@ =~= old(self).selected_ids@);
                    self.selected_ids.insert(id);
                }
                self.move_selection(1);
            },
        }
    }

    fn ask(&mut self, delete: bool, hint: &str) -> (t: Task)
        requires
            old(self).wf(),
        ensures
            asked(*old(self), *final(self), delete, hint@, t),
            final(self).wf(),
    {
        let ids = self.action_targets();
        assert(is_targets(*self, views(ids@)));
        if ids.len() == 0 {
            self.tell(hint);
            return Task::Nothing;
        }
        if delete {
            self.start_preview(Action::Delete(ids))
        } else {
            self.start_preview(Action::Trim(ids))
        }
    }

    fn rescan(&mut self, running: &mut Progress) -> (t: Task)
        requires
            old(self).wf(),
        ensures
            rescanned(*old(self), *final(self), old(running)@, final(running)@, t),
            final(self).wf(),
    {
        if self.maint.engaged() {
            self.tell("维护模式下模型由排他锁保证精确,无需重扫(统计已增量修正)。");
            Task::Nothing
        } else if self.scan_ready() {
            self.tell("重新扫描…");
            assert(told(*old(self), *self, "重新扫描…"@));
            self.spawn_deep_scan(running)
        } else {
            Task::Nothing
        }
    }

    fn switch(&mut self, running: &mut Progress) -> (t: Task)
        requires
            old(self).wf(),
        ensures
            switched(*old(self), *final(self), old(running)@, final(running)@, t),
            final(self).wf(),
    {
        match self.maint {
            MaintState::Off => {
                if matches!(self.op, OpState::Idle) {
                    self.tell("正在取得数据库独占锁…");
                    assert(told(*old(self), *self, "正在取得数据库独占锁…"@));
                    self.enter_maintenance(running)
                } else {
                    self.tell("有操作进行中,无法切换维护模式。");
                    Task::Nothing
                }
            },
            MaintState::Held => self.leave_maintenance(),
            MaintState::Entering => {
                running.cancel();
                self.tell("正在中止维护模式启动…");
                Task::Nothing
            },
            MaintState::Leaving | MaintState::Working => {
                self.tell("维护会话忙,请稍候。");
                Task::Nothing
            },
        }
    }

    /// Answers a question.
    fn confirm(&mut self, backup: bool) -> (t: Task)
        requires
            old(self).op is Confirming,
            old(self).wf(),
        ensures
            old(self).op matches OpState::Confirming { action, gc_plan, .. } && *final(self)
                == applying(*old(self), action) && t == (Task::Apply {
                in_session: old(self).maint == MaintState::Held,
                backup,
                gc_plan,
            }),
            final(self).wf(),
    {
        let mut op = OpState::Idle;
        std::mem::swap(&mut op, &mut self.op);
        match op {
            OpState::Confirming { action, gc_plan, .. } => self.start_apply(action, backup, gc_plan),
            _ => Task::Nothing,
        }
    }

    /// Does what a key asks for, and says what is to be carried out next. `scan` and `act`
    /// are the progresses of the scan and of the operation that run.
    pub fn on_key(&mut self, key: Key, scan: &mut Progress, act: &mut Progress) -> (t: Task)
        requires
            old(self).wf(),
        ensures
            final(self).wf(),
            done(
                *old(self),
                intent(*old(self), key),
                *final(self),
                (Meters { scan: old(scan)@, act: old(act)@ }),
                (Meters { scan: final(scan)@, act: final(act)@ }),
                t,
            ),
    {
        match route(self, key) {
            Intent::Ignore => {},
            Intent::FilterClear => {
                self.input = InputMode::Normal;
                let none = String::new();
                assert(none@ =~= Seq::<char>::empty());
                self.set_filter(none);
            },
            Intent::FilterDone => {
                self.input = InputMode::Normal;
            },
            Intent::FilterPop => {
                let mut text = self.filter.clone();
                text.pop();
                self.set_filter(text);
            },
            Intent::FilterPush(c) => {
                let mut text = self.filter.clone();
                text.push(c);
                self.set_filter(text);
            },
            Intent::StopShrink => {
                act.cancel();
                self.tell("正在停止收缩…");
            },
            Intent::Confirm(backup) => {
                return self.confirm(backup);
            },
            Intent::Decline => {
                self.op = OpState::Idle;
                self.tell("已取消。");
            },
            Intent::CloseInfo => {
                self.info = InfoLayer::Hidden;
            },
            Intent::ClearText => {
                let none = String::new();
                assert(none@ =~= Seq::<char>::empty());
                self.set_filter(none);
            },
            Intent::ClearWorkspace => {
                self.ws_filter = None;
                self.ws_cursor = Some(0);
                self.sort_and_refilter();
            },
            Intent::AbortEntering => {
                scan.cancel();
                self.tell("正在中止维护模式启动…");
            },
            Intent::FocusChats => {
                self.focus = Pane::Chats;
            },
            Intent::FocusWorkspaces => {
                self.focus = Pane::Workspaces;
            },
            Intent::Quit => {
                self.request_quit(scan, act);
            },
            Intent::Move(d) => {
                self.move_selection(d);
            },
            Intent::MoveFocus(d) => {
                self.move_focus(d);
            },
            Intent::Jump(to_end) => {
                self.jump_selection(to_end);
            },
            Intent::NextSort => {
                self.sort = self.sort.next();
                self.sort_and_refilter();
            },
            Intent::Reverse => {
                self.reverse = !self.reverse;
                self.sort_and_refilter();
            },
            Intent::NextView => {
                self.view = self.view.next();
                self.sort_and_refilter();
            },
            Intent::StartFilter => {
                self.input = InputMode::Filter;
            },
            Intent::Descend => {
                self.descend();
            },
            Intent::Help => {
                self.info = InfoLayer::Help;
            },
            Intent::Toggle => {
                self.toggle();
            },
            Intent::Delete => {
                return self.ask(true, "先用空格选中或将光标移到要删除的会话。");
            },
            Intent::Trim => {
                return self.ask(false, "先用空格选中或将光标移到要修剪的会话。");
            },
            Intent::Rescan => {
                return self.rescan(scan);
            },
            Intent::Reclaim => {
                return Task::WeighShrink;
            },
            Intent::VacuumFull => {
                return self.start_preview(Action::VacuumFull);
            },
            Intent::Maintenance => {
                return self.switch(scan);
            },
            Intent::Sweep => {
                return self.start_preview(Action::Sweep);
            },
            Intent::Gc => {
                return self.start_preview(Action::Gc);
            },
        }
        Task::Nothing
    }
}

/// Nothing is carried out that was not previewed and confirmed: a key begins an action only
/// as the answer to the question on that very action.
pub proof fn lemma_two_stages(a: App, key: Key, b: App, m0: Meters, m1: Meters, t: Task)
    requires
        done(a, intent(a, key), b, m0, m1, t),
    ensures
        t is Apply ==> a.op is Confirming && (key == Key::Char('y') || key == Key::Char('Y')),
        b.op is Applying && !(a.op is Applying) ==> a.op is Confirming && b.op->Applying_action
            == a.op->Confirming_action && (key == Key::Char('y') || key == Key::Char('Y')),
{
}

/// One operation runs at a time: while one is previewed or carried out, no key begins another
/// or changes it.
pub proof fn lemma_one_at_a_time(a: App, key: Key, b: App, m0: Meters, m1: Meters, t: Task)
    requires
        done(a, intent(a, key), b, m0, m1, t),
        a.op is Previewing || a.op is Applying,
    ensures
        b.op == a.op,
        !(t is Preview) && !(t is Apply),
{
}

/// A backup is left out only where the user asked for that.
pub proof fn lemma_backup_by_default(a: App, key: Key, b: App, m0: Meters, m1: Meters, t: Task)
    requires
        done(a, intent(a, key), b, m0, m1, t),
        t is Apply,
    ensures
        t->backup <==> key != Key::Char('Y'),
{
}

/// A key never touches the sessions, the figures or the parentage.
pub proof fn lemma_keys_only_look(a: App, key: Key, b: App, m0: Meters, m1: Meters, t: Task)
    requires
        done(a, intent(a, key), b, m0, m1, t),
    ensures
        b.sessions == a.sessions,
        b.scan == a.scan,
        b.lineage == a.lineage,
        b.workspaces == a.workspaces,
{
}

/// No layer takes the keys: nothing is written, asked or shown above the panes.
pub open spec fn is_plain(a: App) -> bool {
    a.input == InputMode::Normal && a.op is Idle && a.info == InfoLayer::Hidden
}

/// What the keys ask for where no layer takes them.
pub proof fn lemma_plain_keys(a: App)
    requires
        is_plain(a),
    ensures
        intent(a, Key::Char('q')) == Intent::Quit,
        intent(a, Key::Char('j')) == Intent::Move(1),
        intent(a, Key::Down) == Intent::Move(1),
        intent(a, Key::Char('k')) == Intent::Move(-1i64),
        intent(a, Key::Up) == Intent::Move(-1i64),
        intent(a, Key::PageDown) == Intent::Move(20),
        intent(a, Key::PageUp) == Intent::Move(-20i64),
        intent(a, Key::Char('h')) == Intent::MoveFocus(-1i64),
        intent(a, Key::Left) == Intent::MoveFocus(-1i64),
        intent(a, Key::Char('l')) == Intent::MoveFocus(1),
        intent(a, Key::Right) == Intent::MoveFocus(1),
        intent(a, Key::Char('g')) == Intent::Jump(false),
        intent(a, Key::Home) == Intent::Jump(false),
        intent(a, Key::Char('G')) == Intent::Jump(true),
        intent(a, Key::End) == Intent::Jump(true),
        intent(a, Key::Char('s')) == Intent::NextSort,
        intent(a, Key::Char('S')) == Intent::Reverse,
        intent(a, Key::Tab) == Intent::NextView,
        intent(a, Key::Char('/')) == Intent::StartFilter,
        intent(a, Key::Char('?')) == Intent::Help,
        intent(a, Key::Enter) == Intent::Descend,
        a.focus == Pane::Chats ==> intent(a, Key::Char(' ')) == Intent::Toggle,
        intent(a, Key::Char('d')) == Intent::Delete,
        intent(a, Key::Char('D')) == Intent::Delete,
        intent(a, Key::Char('t')) == Intent::Trim,
        intent(a, Key::Char('x')) == Intent::Sweep,
        intent(a, Key::Char('c')) == Intent::Gc,
        intent(a, Key::Char('v')) == Intent::Reclaim,
        intent(a, Key::Char('V')) == Intent::VacuumFull,
        intent(a, Key::Char('M')) == Intent::Maintenance,
        intent(a, Key::Char('r')) == Intent::Rescan,
        intent(a, Key::Char('w')) == Intent::FocusWorkspaces,
{
}

/// Escape undoes the nearest thing: the text, then the workspace, then the way into
/// maintenance, then the pane; only where there is nothing to undo does it leave.
pub proof fn lemma_escape(a: App)
    requires
        is_plain(a),
    ensures
        intent(a, Key::Esc) == Intent::ClearText <==> a.filter@.len() > 0,
        intent(a, Key::Esc) == Intent::ClearWorkspace <==> a.filter@.len() == 0 && a.ws_filter
            is Some,
        intent(a, Key::Esc) == Intent::Quit <==> a.filter@.len() == 0 && a.ws_filter is None
            && a.maint != MaintState::Entering && a.focus == Pane::Chats,
{
}

/// While a text is typed each character comes to its end, the backspace takes the last one
/// off, and escape all; no other key does anything then, whatever it does otherwise.
pub proof fn lemma_typing(a: App, b: App, c: char, m0: Meters, m1: Meters, t: Task)
    requires
        a.input == InputMode::Filter,
    ensures
        done(a, intent(a, Key::Char(c)), b, m0, m1, t) ==> b.filter@ == a.filter@.push(c) && b.input
            == InputMode::Filter && t is Nothing,
        done(a, intent(a, Key::Backspace), b, m0, m1, t) && a.filter@.len() > 0 ==> b.filter@
            == a.filter@.drop_last() && t is Nothing,
        done(a, intent(a, Key::Esc), b, m0, m1, t) ==> b.filter@.len() == 0 && b.input
            == InputMode::Normal,
        done(a, intent(a, Key::Enter), b, m0, m1, t) ==> b.filter@ == a.filter@ && b.input
            == InputMode::Normal && b.visible == a.visible,
{
}

/// The key to delete previews the deletion of the sessions that are selected; where none is,
/// of the one under the cursor; in the tree always of the one under its cursor. The key to
/// trim does the same for trimming.
pub proof fn lemma_delete_and_trim(a: App, b: App, m0: Meters, m1: Meters, t: Task)
    requires
        is_plain(a),
        a.maint == MaintState::Off || a.maint == MaintState::Held,
        a.focus != Pane::Detail,
        a.selected_ids.order().len() > 0,
    ensures
        done(a, intent(a, Key::Char('d')), b, m0, m1, t) ==> t is Preview && b.op is Previewing
            && b.op->Previewing_action is Delete && views(b.op->Previewing_action->Delete_0@)
            == a.selected_ids.order(),
        done(a, intent(a, Key::Char('t')), b, m0, m1, t) ==> t is Preview && b.op is Previewing
            && b.op->Previewing_action is Trim && views(b.op->Previewing_action->Trim_0@)
            == a.selected_ids.order(),
{
    let s = a.selected_ids.order();
    if done(a, intent(a, Key::Char('d')), b, m0, m1, t) {
        let ids = choose|ids: Vec<String>|
            {
                &&& is_targets(a, #[trigger] views(ids@))
                &&& if ids@.len() == 0 {
                    told(a, b, "先用空格选中或将光标移到要删除的会话。"@) && t is Nothing
                } else {
                    previewing(a, b, Action::Delete(ids), t)
                }
            };
        assert(views(ids@).len() == ids@.len());
    }
    if done(a, intent(a, Key::Char('t')), b, m0, m1, t) {
        let ids = choose|ids: Vec<String>|
            {
                &&& is_targets(a, #[trigger] views(ids@))
                &&& if ids@.len() == 0 {
                    told(a, b, "先用空格选中或将光标移到要修剪的会话。"@) && t is Nothing
                } else {
                    previewing(a, b, Action::Trim(ids), t)
                }
            };
        assert(views(ids@).len() == ids@.len());
    }
}

/// The keys for sweeping, collecting and rewriting ask for just that, and nothing is carried
/// out yet.
pub proof fn lemma_other_actions(a: App, b: App, m0: Meters, m1: Meters, t: Task)
    requires
        is_plain(a),
        a.maint == MaintState::Off || a.maint == MaintState::Held,
    ensures
        done(a, intent(a, Key::Char('c')), b, m0, m1, t) ==> t is Preview && b.op is Previewing
            && b.op->Previewing_action is Gc,
        done(a, intent(a, Key::Char('V')), b, m0, m1, t) ==> t is Preview && b.op is Previewing
            && b.op->Previewing_action is VacuumFull,
        done(a, intent(a, Key::Char('x')), b, m0, m1, t) ==> (if a.scan_state == ScanState::Ready {
            t is Nothing && b.op is Confirming && b.op->Confirming_action is Sweep
        } else {
            t is Preview && b.op is Previewing && b.op->Previewing_action is Sweep
        }),
        done(a, intent(a, Key::Char('v')), b, m0, m1, t) ==> t is WeighShrink && b == a,
{
}

/// A question is answered by one of two keys, and turned down by any other.
pub proof fn lemma_answers(a: App, key: Key, b: App, m0: Meters, m1: Meters, t: Task)
    requires
        a.input == InputMode::Normal,
        a.op is Confirming,
        done(a, intent(a, key), b, m0, m1, t),
    ensures
        key == Key::Char('y') || key == Key::Char('Y') ==> t is Apply && b.op is Applying
            && b.op->Applying_action == a.op->Confirming_action,
        key != Key::Char('y') && key != Key::Char('Y') ==> t is Nothing && b.op is Idle,
{
}

/// The keys for the order and the view change just that, and list the same entries anew.
pub proof fn lemma_order_and_view(a: App, b: App, m0: Meters, m1: Meters, t: Task)
    requires
        is_plain(a),
    ensures
        done(a, intent(a, Key::Char('S')), b, m0, m1, t) ==> b.reverse == !a.reverse && b.sort
            == a.sort && b.view == a.view,
        done(a, intent(a, Key::Char('s')), b, m0, m1, t) ==> b.reverse == a.reverse && b.sort
            != a.sort && b.view == a.view,
        done(a, intent(a, Key::Tab), b, m0, m1, t) ==> b.reverse == a.reverse && b.sort == a.sort
            && b.view != a.view,
{
}

/// The keys that move in the list move by one or by twenty rows, and stop at its ends.
pub proof fn lemma_moving(a: App, b: App, m0: Meters, m1: Meters, t: Task)
    requires
        is_plain(a),
        a.focus == Pane::Chats,
        a.cursor is Some,
        a.cursor->0 < a.visible@.len(),
    ensures
        done(a, intent(a, Key::Down), b, m0, m1, t) ==> b.cursor is Some && b.cursor->0 == (
        if a.cursor->0 + 1 < a.visible@.len() {
            a.cursor->0 + 1
        } else {
            a.cursor->0 as int
        }),
        done(a, intent(a, Key::Up), b, m0, m1, t) ==> b.cursor is Some && b.cursor->0 == (
        if a.cursor->0 > 0 {
            a.cursor->0 - 1
        } else {
            0
        }),
        done(a, intent(a, Key::PageDown), b, m0, m1, t) ==> b.cursor is Some && b.cursor->0 == (
        if a.cursor->0 + 20 < a.visible@.len() {
            a.cursor->0 + 20
        } else {
            a.visible@.len() - 1
        }),
        done(a, intent(a, Key::Home), b, m0, m1, t) ==> b.cursor == Some(0usize),
        done(a, intent(a, Key::End), b, m0, m1, t) ==> b.cursor is Some && b.cursor->0
            == a.visible@.len() - 1,
        done(a, intent(a, Key::Down), b, m0, m1, t) ==> b.visible == a.visible && b.selected_ids
            == a.selected_ids,
{
}

/// Selecting takes the session under the cursor up, or lets it go where it was selected, and
/// touches no other; rows without a header cannot be selected.
pub proof fn lemma_selecting(a: App, b: App, m0: Meters, m1: Meters, t: Task, x: Seq<char>)
    requires
        is_plain(a),
        a.focus == Pane::Chats,
        current(a) is Some,
        done(a, intent(a, Key::Char(' ')), b, m0, m1, t),
    ensures
        current(a)->0.attach is None ==> b.selected_ids == a.selected_ids,
        current(a)->0.attach is Some && x != current(a)->0.composer_id@ ==> (
        b.selected_ids@.contains(x) <==> a.selected_ids@.contains(x)),
        current(a)->0.attach is Some ==> (b.selected_ids@.contains(current(a)->0.composer_id@)
            <==> !a.selected_ids@.contains(current(a)->0.composer_id@)),
{
}

/// The keys that go between the panes go from the workspaces to the list and on to the tree,
/// and back, and stop at the ends.
pub proof fn lemma_between_panes(a: App, b: App, m0: Meters, m1: Meters, t: Task)
    requires
        is_plain(a),
    ensures
        done(a, intent(a, Key::Right), b, m0, m1, t) ==> b.focus == (match a.focus {
            Pane::Workspaces => Pane::Chats,
            Pane::Chats => Pane::Detail,
            Pane::Detail => Pane::Detail,
        }),
        done(a, intent(a, Key::Left), b, m0, m1, t) ==> b.focus == (match a.focus {
            Pane::Workspaces => Pane::Workspaces,
            Pane::Chats => Pane::Workspaces,
            Pane::Detail => Pane::Chats,
        }),
        done(a, intent(a, Key::Char('w')), b, m0, m1, t) ==> b.focus == Pane::Workspaces,
{
}

/// Maintenance begins only where nothing runs, and ends only where the database is held.
pub proof fn lemma_maintenance(a: App, b: App, m0: Meters, m1: Meters, t: Task)
    requires
        is_plain(a),
        done(a, intent(a, Key::Char('M')), b, m0, m1, t),
    ensures
        a.maint == MaintState::Off ==> t is Enter && b.maint == MaintState::Entering,
        a.maint == MaintState::Held ==> t is Leave && b.maint == MaintState::Leaving,
        a.maint == MaintState::Entering ==> t is Nothing && m1.scan.cancelled,
        a.maint == MaintState::Working || a.maint == MaintState::Leaving ==> t is Nothing && b.maint
            == a.maint,
{
}

/// A scan is begun anew where none runs and the database is not held; while it is held the
/// figures are exact, and none is begun.
pub proof fn lemma_rescan(a: App, b: App, m0: Meters, m1: Meters, t: Task)
    requires
        is_plain(a),
        done(a, intent(a, Key::Char('r')), b, m0, m1, t),
    ensures
        a.maint != MaintState::Off ==> t is Nothing && b.scan_gen == a.scan_gen,
        a.maint == MaintState::Off && a.scan_state == ScanState::Ready
            && crate::tui::ids_are_good(a.sessions@) ==> t is Scan && b.scan_state
            == ScanState::Running,
        a.maint == MaintState::Off && a.scan_state != ScanState::Ready ==> t is Nothing && b == a,
{
}

} // verus!
