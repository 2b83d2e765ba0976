//! How far a long operation has come, and whether it was asked to stop.

use vstd::prelude::*;

use crate::text::{decimal, decimal_text, lemma_stands, occurs};

verus! {

/// The operation was asked to stop.
#[derive(Debug, Clone, Copy, PartialEq, Eq, Structural)]
pub struct Cancelled;

impl Cancelled {
    /// What is shown to the user.
    pub fn message(&self) -> (r: String)
        ensures
            r@ == "操作已取消"@,
    {
        "操作已取消".to_owned()
    }
}

/// The stage of an operation, its count, and the wish to stop it.
pub struct Progress {
    stage: String,
    done: u64,
    total: u64,
    cancelled: bool,
}

/// What a [`Progress`] holds.
pub struct ProgressView {
    /// The label of the stage; empty where no operation runs.
    pub stage: Seq<char>,
    pub done: u64,
    /// Zero where it is unknown.
    pub total: u64,
    pub cancelled: bool,
}

impl View for Progress {
    type V = ProgressView;

    closed spec fn view(&self) -> ProgressView {
        ProgressView {
            stage: self.stage@,
            done: self.done,
            total: self.total,
            cancelled: self.cancelled,
        }
    }
}

/// The number of cells of the bar.
pub const WIDTH: u64 = 20;

/// `n` times the character `c`.
pub open spec fn repeated(c: char, n: nat) -> Seq<char> {
    Seq::new(n, |i: int| c)
}

/// The part of the work that counts as done: no more than all of it.
pub open spec fn counted(v: ProgressView) -> u64 {
    if v.done < v.total {
        v.done
    } else {
        v.total
    }
}

/// The filled cells of the bar.
pub open spec fn filled(v: ProgressView) -> nat {
    (counted(v) as nat * WIDTH as nat) / v.total as nat
}

/// One line of text for a running stage, where `percent` is the share done in percent.
pub open spec fn progress_line(v: ProgressView, percent: Seq<char>) -> Seq<char> {
    if v.total > 0 {
        v.stage + " ["@ + repeated('█', filled(v)) + repeated('░', (WIDTH - filled(v)) as nat)
            + "] "@ + percent + "% "@ + decimal(counted(v) as nat) + "/"@ + decimal(v.total as nat)
    } else if v.done > 0 {
        v.stage + " "@ + decimal(v.done as nat)
    } else {
        v.stage
    }
}

/// Appends `n` times the character `c`.
fn push_repeated(out: &mut String, c: char, n: u64)
    ensures
        final(out)@ == old(out)@ + repeated(c, n as nat),
{
    let mut i: u64 = 0;
    assert(out@ =~= old(out)@ + repeated(c, 0));
    while i < n
        invariant
            i <= n,
            out@ == old(out)@ + repeated(c, i as nat),
        decreases n - i,
    {
        out.push(c);
        proof {
            assert(repeated(c, (i + 1) as nat) =~= repeated(c, i as nat).push(c));
            assert(out@ =~= old(out)@ + repeated(c, (i + 1) as nat));
        }
        i += 1;
    }
}

impl Default for Progress {
    fn default() -> (r: Self)
        ensures
            r@ == (ProgressView {
                stage: Seq::empty(),
                done: 0,
                total: 0,
                cancelled: false,
            }),
    {
        let r = Progress { stage: String::new(), done: 0, total: 0, cancelled: false };
        assert(r@.stage =~= Seq::<char>::empty());
        r
    }
}

impl Progress {
    /// No operation runs, and none was asked to stop.
    pub fn new() -> (r: Self)
        ensures
            r@ == (ProgressView {
                stage: Seq::empty(),
                done: 0,
                total: 0,
                cancelled: false,
            }),
    {
        Progress::default()
    }

    /// Enters a stage with nothing done of `total`, where zero says that it is unknown.
    pub fn stage(&mut self, label: &str, total: u64)
        ensures
            final(self)@ == (ProgressView { stage: label@, done: 0, total, ..old(self)@ }),
    {
        self.stage = label.to_owned();
        self.done = 0;
        self.total = total;
    }

    /// Counts `n` more; the counter wraps around at its end.
    pub fn add(&mut self, n: u64)
        ensures
            final(self)@ == (ProgressView {
                done: ((old(self)@.done + n) % 0x1_0000_0000_0000_0000) as u64,
                ..old(self)@
            }),
    {
        self.done = self.done.wrapping_add(n);
    }

    pub fn set_done(&mut self, n: u64)
        ensures
            final(self)@ == (ProgressView { done: n, ..old(self)@ }),
    {
        self.done = n;
    }

    /// Ends the operation: no stage is shown, and the wish to stop is forgotten.
    pub fn finish(&mut self)
        ensures
            final(self)@ == (ProgressView { stage: Seq::empty(), cancelled: false, ..old(self)@ }),
    {
        self.stage = String::new();
        self.cancelled = false;
        assert(self@.stage =~= Seq::<char>::empty());
    }

    /// Asks the operation to stop at its next checkpoint.
    pub fn cancel(&mut self)
        ensures
            final(self)@ == (ProgressView { cancelled: true, ..old(self)@ }),
    {
        self.cancelled = true;
    }

    pub fn is_cancelled(&self) -> (r: bool)
        ensures
            r == self@.cancelled,
    {
        self.cancelled
    }

    /// The checkpoint of a long loop.
    pub fn check(&self) -> (r: Result<(), Cancelled>)
        ensures
            r == (if self@.cancelled {
                Err::<(), Cancelled>(Cancelled)
            } else {
                Ok(())
            }),
    {
        if self.is_cancelled() {
            Err(Cancelled)
        } else {
            Ok(())
        }
    }

    /// What is done, and of how much, where that is known.
    pub fn fraction(&self) -> (r: (u64, u64))
        ensures
            r == (if self@.total > 0 {
                counted(self@)
            } else {
                self@.done
            }, self@.total),
    {
        if self.total > 0 && self.total <= self.done {
            (self.total, self.total)
        } else {
            (self.done, self.total)
        }
    }

    /// One line of text, where an operation runs. `percent` is the share that
    /// [`Progress::fraction`] amounts to, as text; it is shown where the total is known.
    pub fn render(&self, percent: &str) -> (r: Option<String>)
        ensures
            r is Some <==> self@.stage.len() > 0,
            r matches Some(line) ==> line@ == progress_line(self@, percent@),
    {
        if self.stage.as_str().is_empty() {
            return None;
        }
        let mut out = self.stage.clone();
        if self.total > 0 {
            let (done, total) = self.fraction();
            let full: u128 = done as u128 * WIDTH as u128 / total as u128;
            proof {
                let (d, t) = (done as int, total as int);
                assert(0 <= (d * 20) / t <= 20) by (nonlinear_arith)
                    requires
                        0 <= d <= t,
                        0 < t,
                ;
                assert(full as nat == filled(self@));
            }
            let filled: u64 = full as u64;
            out.push_str(" [");
            push_repeated(&mut out, '█', filled);
            push_repeated(&mut out, '░', WIDTH - filled);
            out.push_str("] ");
            out.push_str(percent);
            out.push_str("% ");
            let d = decimal_text(done);
            out.push_str(d.as_str());
            out.push_str("/");
            let t = decimal_text(total);
            out.push_str(t.as_str());
        } else if self.done > 0 {
            out.push_str(" ");
            let d = decimal_text(self.done);
            out.push_str(d.as_str());
        }
        Some(out)
    }
}

/// The bar has twenty cells. It is full exactly where all is done, empty at the beginning,
/// and never shrinks while more is done.
pub proof fn lemma_bar(v: ProgressView, w: ProgressView)
    requires
        v.total > 0,
        w.total == v.total,
        v.done <= w.done,
    ensures
        filled(v) <= 20,
        filled(v) <= filled(w),
        filled(v) == 20 <==> v.done >= v.total,
        v.done == 0 ==> filled(v) == 0,
{
    let (a, b, t) = (counted(v) as int, counted(w) as int, v.total as int);
    assert(a * 20 <= b * 20);
    assert((a * 20) / t <= (b * 20) / t) by (nonlinear_arith)
        requires
            a * 20 <= b * 20,
            t > 0,
    ;
    assert((a * 20) / t <= 20 && ((a * 20) / t == 20 <==> a == t)) by (nonlinear_arith)
        requires
            0 <= a <= t,
            t > 0,
    ;
}

/// A stage whose end is known shows how much of how much is done, and never more than all;
/// one whose end is not shows how much is done.
pub proof fn lemma_progress_line(v: ProgressView, percent: Seq<char>)
    ensures
        v.total > 0 && v.done <= v.total ==> occurs(
            percent + "% "@ + decimal(v.done as nat) + "/"@ + decimal(v.total as nat),
            progress_line(v, percent),
        ),
        v.total > 0 && v.done > v.total ==> occurs(
            percent + "% "@ + decimal(v.total as nat) + "/"@ + decimal(v.total as nat),
            progress_line(v, percent),
        ),
        v.total == 0 && v.done > 0 ==> progress_line(v, percent) == v.stage + " "@ + decimal(
            v.done as nat,
        ),
        v.stage.is_prefix_of(progress_line(v, percent)),
{
    if v.total > 0 {
        let bar = v.stage + " ["@ + repeated('█', filled(v)) + repeated(
            '░',
            (WIDTH - filled(v)) as nat,
        ) + "] "@;
        let g = percent + "% "@ + decimal(counted(v) as nat) + "/"@ + decimal(v.total as nat);
        assert(progress_line(v, percent) =~= bar + g);
        lemma_stands(bar, g);
    }
    let l = progress_line(v, percent);
    assert(l.subrange(0, v.stage.len() as int) =~= v.stage);
}

} // verus!
