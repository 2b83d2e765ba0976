//! Giving free pages back.
//!
//! In small steps, each of which can be the last, or by writing the whole database anew,
//! which is faster where much is free but cannot be stopped. Neither is needed for the
//! data to be safe.

use vstd::prelude::*;

use crate::progress::{Progress, ProgressView};
use crate::text::{
    byte_size, decimal, decimal_text, lemma_follows, lemma_occurs_grows, lemma_occurs_self, occurs,
    size_text,
};

verus! {

/// How giving pages back ended.
#[derive(Debug, Clone, Copy, PartialEq, Eq, Structural)]
pub enum Shrink {
    /// No page was free.
    Skipped,
    /// All free pages went back, in small steps.
    Done { pages: u64 },
    /// The user stopped; what went back stays back.
    Cancelled { done: u64, remaining: u64 },
    /// The database was written anew.
    Vacuumed { freed_bytes: u64 },
    /// The database does not support small steps.
    Unsupported,
    /// A step gave nothing back.
    Stalled { remaining: u64 },
}

/// One line for people.
pub open spec fn shrink_text(s: Shrink) -> Seq<char> {
    match s {
        Shrink::Skipped => "没有空闲页,无需收缩"@,
        Shrink::Done { pages } => "增量收缩完成,回收 "@ + decimal(pages as nat) + " 页"@,
        Shrink::Cancelled { done, remaining } => "收缩已取消: 已回收 "@ + decimal(done as nat) + " 页,剩余 "@
            + decimal(remaining as nat) + " 页(可随时续做)"@,
        Shrink::Vacuumed { freed_bytes } => "全量 VACUUM 完成,文件缩小 "@ + byte_size(freed_bytes),
        Shrink::Unsupported => "库未开启 incremental auto_vacuum,需全量 VACUUM"@,
        Shrink::Stalled { remaining } => "收缩无进展,剩余 "@ + decimal(remaining as nat) + " 页"@,
    }
}

/// `a`, a number, and `b`.
fn numbered(a: &str, n: u64, b: &str) -> (r: String)
    ensures
        r@ == a@ + decimal(n as nat) + b@,
{
    let mut out = a.to_owned();
    let t = decimal_text(n);
    out.push_str(t.as_str());
    out.push_str(b);
    out
}

impl Shrink {
    /// One line for people.
    pub fn describe(&self) -> (r: String)
        ensures
            r@ == shrink_text(*self),
    {
        match self {
            Shrink::Skipped => "没有空闲页,无需收缩".to_owned(),
            Shrink::Done { pages } => numbered("增量收缩完成,回收 ", *pages, " 页"),
            Shrink::Cancelled { done, remaining } => {
                let mut out = numbered("收缩已取消: 已回收 ", *done, " 页,剩余 ");
                let t = decimal_text(*remaining);
                out.push_str(t.as_str());
                out.push_str(" 页(可随时续做)");
                out
            },
            Shrink::Vacuumed { freed_bytes } => {
                let mut out = "全量 VACUUM 完成,文件缩小 ".to_owned();
                let t = size_text(*freed_bytes);
                out.push_str(t.as_str());
                out
            },
            Shrink::Unsupported => "库未开启 incremental auto_vacuum,需全量 VACUUM".to_owned(),
            Shrink::Stalled { remaining } => numbered("收缩无进展,剩余 ", *remaining, " 页"),
        }
    }
}

/// A way to give pages back.
#[derive(Debug, Clone, Copy, PartialEq, Eq, Structural)]
pub enum Strategy {
    Incremental,
    Full,
}

/// How much more a byte costs that moves at random than one that is written in sequence.
pub const RANDOM_IO_PENALTY: u64 = 50;

/// The setting of a database that supports small steps.
pub const INCREMENTAL: i64 = 2;

/// A number that counts as zero where it is negative.
pub open spec fn clamped(n: i64) -> nat {
    if n < 0 {
        0
    } else {
        n as nat
    }
}

fn clamp(n: i64) -> (r: u64)
    ensures
        r == clamped(n),
{
    if n < 0 {
        0
    } else {
        n as u64
    }
}

/// What the database says of its pages.
#[derive(Debug, Clone, Copy)]
pub struct Pages {
    pub free: i64,
    pub count: i64,
    pub size: i64,
    pub auto_vacuum: i64,
}

impl Pages {
    /// The sizes in bytes fit.
    pub open spec fn fits(&self) -> bool {
        clamped(self.free) * clamped(self.size) <= i64::MAX && clamped(self.count) * clamped(
            self.size,
        ) <= u64::MAX
    }

    pub open spec fn free_bytes(&self) -> nat {
        clamped(self.free) * clamped(self.size)
    }

    /// The bytes of the pages that are not free.
    pub open spec fn live_bytes(&self) -> nat {
        if clamped(self.count) * clamped(self.size) < self.free_bytes() {
            0
        } else {
            (clamped(self.count) * clamped(self.size) - self.free_bytes()) as nat
        }
    }

    /// Whether the sizes in bytes fit.
    pub fn check(&self) -> (r: bool)
        ensures
            r == self.fits(),
    {
        let (f, c, s): (u64, u64, u64) = (clamp(self.free), clamp(self.count), clamp(self.size));
        proof {
            assert(f as int * s as int <= 0x7fff_ffff_ffff_ffff * 0x7fff_ffff_ffff_ffff)
                by (nonlinear_arith)
                requires
                    f <= 0x7fff_ffff_ffff_ffff,
                    s <= 0x7fff_ffff_ffff_ffff,
            ;
            assert(c as int * s as int <= 0x7fff_ffff_ffff_ffff * 0x7fff_ffff_ffff_ffff)
                by (nonlinear_arith)
                requires
                    c <= 0x7fff_ffff_ffff_ffff,
                    s <= 0x7fff_ffff_ffff_ffff,
            ;
        }
        f as u128 * s as u128 <= 0x7fff_ffff_ffff_ffff && c as u128 * s as u128
            <= 0xffff_ffff_ffff_ffff
    }
}

/// The free pages, and their bytes.
pub fn freelist(p: &Pages) -> (r: (u64, u64))
    requires
        p.fits(),
    ensures
        r.0 == clamped(p.free),
        r.1 == p.free_bytes(),
{
    let f: u64 = clamp(p.free);
    let s: u64 = clamp(p.size);
    (f, f * s)
}

/// Which way is cheaper: small steps where what is free, times the penalty, is less than
/// what would be written anew.
pub open spec fn strategy(p: Pages) -> Strategy {
    if p.auto_vacuum == INCREMENTAL && p.free_bytes() * RANDOM_IO_PENALTY < p.live_bytes() {
        Strategy::Incremental
    } else {
        Strategy::Full
    }
}

/// Why, for people.
pub open spec fn reason(p: Pages) -> Seq<char> {
    if p.auto_vacuum != INCREMENTAL {
        "库未开启 incremental auto_vacuum"@
    } else if strategy(p) == Strategy::Incremental {
        "空闲 "@ + decimal(clamped(p.free)) + " 页 / "@ + byte_size(p.free_bytes() as u64)
            + ",相对有效数据量小,增量更划算(且可随时取消)"@
    } else {
        "空闲 "@ + byte_size(p.free_bytes() as u64) + " 已达有效数据("@ + byte_size(
            p.live_bytes() as u64,
        ) + ")的 1/"@ + decimal(RANDOM_IO_PENALTY as nat) + " 以上,增量的随机 I/O 会以小时计,顺序重建快得多"@
    }
}

/// Chooses the cheaper way, and says why.
pub fn choose_strategy(p: &Pages) -> (r: (Strategy, String))
    requires
        p.fits(),
    ensures
        r.0 == strategy(*p),
        r.1@ == reason(*p),
{
    let (pages, free) = freelist(p);
    let all: u64 = clamp(p.count) * clamp(p.size);
    let live: u64 = if all < free {
        0
    } else {
        all - free
    };
    if p.auto_vacuum != INCREMENTAL {
        return (Strategy::Full, "库未开启 incremental auto_vacuum".to_owned());
    }
    if free as u128 * RANDOM_IO_PENALTY as u128 <= 0xffff_ffff_ffff_ffff && free as u128
        * (RANDOM_IO_PENALTY as u128) < live as u128 {
        let mut out = numbered("空闲 ", pages, " 页 / ");
        let t = size_text(free);
        out.push_str(t.as_str());
        out.push_str(",相对有效数据量小,增量更划算(且可随时取消)");
        (Strategy::Incremental, out)
    } else {
        let mut out = "空闲 ".to_owned();
        let t = size_text(free);
        out.push_str(t.as_str());
        out.push_str(" 已达有效数据(");
        let l = size_text(live);
        out.push_str(l.as_str());
        out.push_str(")的 1/");
        let n = decimal_text(RANDOM_IO_PENALTY);
        out.push_str(n.as_str());
        out.push_str(" 以上,增量的随机 I/O 会以小时计,顺序重建快得多");
        (Strategy::Full, out)
    }
}

/// What to do by itself: nothing where no page is free, else the cheaper way.
pub fn shrink_auto(p: &Pages) -> (r: Option<Strategy>)
    requires
        p.fits(),
    ensures
        r == (if clamped(p.free) == 0 {
            None::<Strategy>
        } else {
            Some(strategy(*p))
        }),
{
    if freelist(p).0 == 0 {
        None
    } else {
        Some(choose_strategy(p).0)
    }
}

/// The bytes by which writing anew made the database smaller.
pub fn freed_bytes(before: i64, after: i64, page_size: i64) -> (r: u64)
    requires
        i64::MIN <= before - after <= i64::MAX,
        clamped((before - after) as i64) * clamped(page_size) <= i64::MAX,
    ensures
        r == clamped((before - after) as i64) * clamped(page_size),
{
    let d: u64 = clamp(before - after);
    let s: u64 = clamp(page_size);
    d * s
}

/// How many pages one small step gives back at most.
pub const BATCH_PAGES: u32 = 2000;

/// After how many small steps the log is written back, lest it grow as large as what was
/// given back.
pub const CHECKPOINT_EVERY: u32 = 25;

/// Giving pages back in small steps.
#[derive(Debug)]
pub struct Incremental {
    start: i64,
    prev: i64,
    since: u32,
}

/// What comes next.
#[derive(Debug, Clone, Copy, PartialEq, Eq, Structural)]
pub enum Next {
    End(Shrink),
    /// A small step, and after it the log, where that is due.
    Batch { checkpoint: bool },
}

/// The difference, where it is positive.
pub open spec fn gap(a: i64, b: i64) -> nat {
    if a < b {
        0
    } else {
        (a - b) as nat
    }
}

fn positive_gap(a: i64, b: i64) -> (r: u64)
    ensures
        r == gap(a, b),
{
    if a < b {
        0
    } else {
        (a as i128 - b as i128) as u64
    }
}

impl Incremental {
    /// The free pages at the start.
    pub closed spec fn start(&self) -> i64 {
        self.start
    }

    /// The free pages when they were last counted.
    pub closed spec fn left(&self) -> i64 {
        self.prev
    }

    /// The small steps since the log was last written back.
    pub closed spec fn since(&self) -> u32 {
        self.since
    }

    pub open spec fn wf(&self) -> bool {
        self.since() < CHECKPOINT_EVERY && self.left() <= self.start()
    }

    /// Starts with the free pages that there are; an `Err` where the database does not
    /// support small steps.
    pub fn begin(auto_vacuum: i64, free: i64, p: &mut Progress) -> (r: Result<Self, Shrink>)
        ensures
            match r {
                Ok(i) => auto_vacuum == INCREMENTAL && i.wf() && i.start() == free && i.left()
                    == free && i.since() == 0 && final(p)@ == (ProgressView {
                    stage: "物理收缩(空闲页,可取消)"@,
                    done: 0,
                    total: clamped(free) as u64,
                    ..old(p)@
                }),
                Err(s) => auto_vacuum != INCREMENTAL && s == Shrink::Unsupported && final(p)@ == old(
                    p,
                )@,
            },
    {
        if auto_vacuum != INCREMENTAL {
            return Err(Shrink::Unsupported);
        }
        p.stage("物理收缩(空闲页,可取消)", clamp(free));
        Ok(Incremental { start: free, prev: free, since: 0 })
    }

    /// What comes next: the end where nothing is left or the user asked to stop, else a
    /// small step.
    pub fn next(&mut self, p: &Progress) -> (r: Next)
        requires
            old(self).wf(),
        ensures
            final(self).wf(),
            final(self).start() == old(self).start(),
            final(self).left() == old(self).left(),
            r == (if old(self).left() <= 0 {
                Next::End(Shrink::Done { pages: clamped(old(self).start()) as u64 })
            } else if p@.cancelled {
                Next::End(
                    Shrink::Cancelled {
                        done: gap(old(self).start(), old(self).left()) as u64,
                        remaining: clamped(old(self).left()) as u64,
                    },
                )
            } else {
                Next::Batch { checkpoint: old(self).since() + 1 == CHECKPOINT_EVERY }
            }),
            final(self).since() == (match r {
                Next::Batch { checkpoint: true } => 0,
                Next::Batch { checkpoint: false } => (old(self).since() + 1) as u32,
                Next::End(_) => old(self).since(),
            }),
    {
        if self.prev <= 0 {
            return Next::End(Shrink::Done { pages: clamp(self.start) });
        }
        if p.is_cancelled() {
            return Next::End(
                Shrink::Cancelled {
                    done: positive_gap(self.start, self.prev),
                    remaining: clamp(self.prev),
                },
            );
        }
        let due = self.since + 1 == CHECKPOINT_EVERY;
        if due {
            self.since = 0;
        } else {
            self.since = self.since + 1;
        }
        Next::Batch { checkpoint: due }
    }

    /// Takes note of the free pages after a small step. Where they are not fewer than
    /// before, that is the end; else there are fewer than before, so it ends at some time.
    pub fn measured(&mut self, free: i64, p: &mut Progress) -> (r: Option<Shrink>)
        requires
            old(self).wf(),
        ensures
            final(self).wf(),
            final(self).start() == old(self).start(),
            final(self).since() == old(self).since(),
            final(p)@ == (ProgressView { done: gap(old(self).start(), free) as u64, ..old(p)@ }),
            free >= old(self).left() ==> r == Some(
                Shrink::Stalled { remaining: clamped(free) as u64 },
            ) && final(self).left() == old(self).left(),
            free < old(self).left() ==> r is None && final(self).left() == free,
    {
        p.set_done(positive_gap(self.start, free));
        if free >= self.prev {
            return Some(Shrink::Stalled { remaining: clamp(free) });
        }
        self.prev = free;
        None
    }
}

/// Stopping loses nothing: what went back and what remains make up what was free.
pub proof fn lemma_cancelled_adds_up(i: Incremental)
    requires
        i.wf(),
        i.left() > 0,
    ensures
        gap(i.start(), i.left()) + clamped(i.left()) == clamped(i.start()),
{
}

/// Small steps are taken exactly where the database supports them and the free pages, fifty
/// times over, take less room than the others. Where it does not, it is written anew.
pub proof fn lemma_strategy(p: Pages)
    requires
        0 <= p.free <= p.count,
        p.size > 0,
    ensures
        strategy(p) == Strategy::Incremental <==> p.auto_vacuum == 2 && 50 * p.free < p.count
            - p.free,
        strategy(p) == Strategy::Full <==> !(p.auto_vacuum == 2 && 50 * p.free < p.count - p.free),
{
    let (f, c, s) = (p.free as int, p.count as int, p.size as int);
    assert(f * s <= c * s) by (nonlinear_arith)
        requires
            0 <= f <= c,
            s > 0,
    ;
    assert(c * s - f * s == (c - f) * s) by (nonlinear_arith);
    assert(f * s * 50 == (50 * f) * s) by (nonlinear_arith);
    assert((50 * f) * s < (c - f) * s <==> 50 * f < c - f) by (nonlinear_arith)
        requires
            s > 0,
    ;
}

/// The more pages are free, the less small steps pay.
pub proof fn lemma_strategy_falls(p: Pages, q: Pages)
    requires
        0 <= p.free <= q.free <= p.count,
        p.size > 0,
        q.count == p.count,
        q.size == p.size,
        q.auto_vacuum == p.auto_vacuum,
        strategy(q) == Strategy::Incremental,
    ensures
        strategy(p) == Strategy::Incremental,
{
    lemma_strategy(p);
    lemma_strategy(q);
}

/// A shrink that was stopped says how many pages were given back and how many are left.
pub proof fn lemma_cancelled_text(done: u64, remaining: u64)
    ensures
        occurs("收缩已取消: 已回收 "@
            + decimal(done as nat), shrink_text((Shrink::Cancelled { done, remaining }))),
        occurs(" 页,剩余 "@
            + decimal(remaining as nat), shrink_text((Shrink::Cancelled { done, remaining }))),
{
    let p0 = "收缩已取消: 已回收 "@;
    let p1 = decimal(done as nat);
    let p2 = " 页,剩余 "@;
    let p3 = decimal(remaining as nat);
    let p4 = " 页(可随时续做)"@;
    let t0 = p0;
    let t1 = t0 + p1;
    let t2 = t1 + p2;
    let t3 = t2 + p3;
    let t4 = t3 + p4;
    assert(shrink_text((Shrink::Cancelled { done, remaining })) == t4);
    lemma_occurs_self(p0 + p1);
    lemma_occurs_grows(p0 + p1, t1, p2);
    lemma_occurs_grows(p0 + p1, t2, p3);
    lemma_occurs_grows(p0 + p1, t3, p4);
    lemma_follows(t1, p2, p3);
    lemma_occurs_grows(p2 + p3, t3, p4);
}

} // verus!
