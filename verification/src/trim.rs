//! Trimming a large session: it stays readable, and only copies of files go.

use vstd::prelude::*;

use crate::delete::{resolve_targets, resolved, is_resolve_error, target_views, Target};
use crate::error::Error;
use crate::headers::SessionHeader;
use crate::rows::{collected, kinds_of, Collector};
use crate::scan::{Prefix, PrefixTable, Sel, weigh};
use crate::steps::{backs_up_first, make_run, reaches_rows_only, run, Step};
use crate::text::{lex_sorted, views};
use crate::vacuum::Shrink;

verus! {

/// The kinds that may be trimmed: the cached row heights alone, or the copies of files
/// that checkpoints hold too.
pub open spec fn trimmable_kinds(ui_only: bool) -> Seq<Prefix> {
    if ui_only {
        seq![Prefix::ComposerVirtualRowHeights]
    } else {
        seq![Prefix::ComposerVirtualRowHeights, Prefix::CheckpointId, Prefix::OfsContent]
    }
}

/// The kinds that may be trimmed.
pub fn trimmable(ui_only: bool) -> (r: Vec<Prefix>)
    ensures
        r@ == trimmable_kinds(ui_only),
{
    let mut out: Vec<Prefix> = Vec::new();
    out.push(Prefix::ComposerVirtualRowHeights);
    if !ui_only {
        out.push(Prefix::CheckpointId);
        out.push(Prefix::OfsContent);
    }
    assert(out@ =~= trimmable_kinds(ui_only));
    out
}

/// What a trim would delete.
pub struct TrimPlan {
    pub targets: Vec<Target>,
    pub keys: Vec<String>,
    pub per_prefix: PrefixTable,
    pub total_bytes: u64,
}

/// What a trim did.
pub struct TrimOutcome {
    pub plan: TrimPlan,
    pub deleted_rows: u64,
    pub backup_path: Option<String>,
    pub page_size: i64,
    pub page_count_before: i64,
    pub page_count_after: i64,
    /// `None` where nothing was given back yet.
    pub shrink: Option<Shrink>,
}

/// The sessions to trim.
pub fn trim_targets(sessions: &[SessionHeader], args: &[String]) -> (r: Result<Vec<Target>, Error>)
    ensures
        match resolved(sessions@, views(args@)) {
            Some(ts) => if ts.len() == 0 {
                r matches Err(Error::NothingToTrim)
            } else {
                r matches Ok(v) && target_views(v@) == ts
            },
            None => r matches Err(e) && is_resolve_error(sessions@, views(args@), e),
        },
{
    match resolve_targets(sessions, args) {
        Ok(ts) => {
            assert(target_views(ts@).len() == ts@.len());
            if ts.len() == 0 {
                Err(Error::NothingToTrim)
            } else {
                Ok(ts)
            }
        },
        Err(e) => {
            proof {
                crate::delete::lemma_resolve_error(sessions@, views(args@), e);
            }
            Err(e)
        },
    }
}

/// The plan for the rows that were gathered.
pub fn plan(targets: Vec<Target>, c: Collector) -> (r: TrimPlan)
    requires
        c.wf(),
    ensures
        r.targets == targets,
        views(r.keys@).to_multiset() == crate::rows::keys_of(c.rows()).to_multiset(),
        lex_sorted(views(r.keys@)),
        kinds_of(r.per_prefix, c.rows()),
        r.total_bytes == weigh(Set::empty(), c.rows(), Sel::All),
{
    let got = collected(c);
    TrimPlan {
        targets,
        keys: got.keys,
        per_prefix: got.per_prefix,
        total_bytes: got.total_bytes,
    }
}

/// The steps that carry the plan out: none where there is nothing to delete.
pub fn apply(plan: &TrimPlan, make_backup: bool, finalize: bool) -> (r: Vec<Step>)
    ensures
        r@ == (if plan.keys@.len() == 0 {
            Seq::<Step>::empty()
        } else {
            run(false, make_backup, finalize)
        }),
        make_backup ==> backs_up_first(r@),
        plan.keys@.len() > 0 ==> reaches_rows_only(r@) && (r@.contains(Step::BackUpRows)
            <==> make_backup) && (r@.contains(Step::Shrink) <==> finalize),
{
    if plan.keys.len() == 0 {
        Vec::new()
    } else {
        make_run(false, make_backup, finalize)
    }
}

/// No trim touches what a session says, nor its pointers to checkpoints: only the cached
/// row heights and the copies of files.
pub proof fn lemma_trim_keeps_history(ui_only: bool, p: Prefix)
    requires
        trimmable_kinds(ui_only).contains(p),
    ensures
        p != Prefix::ComposerData,
        p != Prefix::BubbleId,
        p != Prefix::AgentCheckpoint,
        p != Prefix::AgentBubbleCheckpoint,
        p != Prefix::CodeBlockDiff,
        p != Prefix::CodeBlockPartialInlineDiffFates,
        ui_only ==> p == Prefix::ComposerVirtualRowHeights,
{
}

/// Trimming takes the cached row heights, and the copies of files unless it is to spare them.
pub proof fn lemma_trim_takes(ui_only: bool)
    ensures
        trimmable_kinds(ui_only).contains(Prefix::ComposerVirtualRowHeights),
        trimmable_kinds(ui_only).contains(Prefix::CheckpointId) <==> !ui_only,
        trimmable_kinds(ui_only).contains(Prefix::OfsContent) <==> !ui_only,
        trimmable_kinds(ui_only).no_duplicates(),
{
    let k = trimmable_kinds(ui_only);
    assert(k[0] == Prefix::ComposerVirtualRowHeights);
    if !ui_only {
        assert(k[1] == Prefix::CheckpointId);
        assert(k[2] == Prefix::OfsContent);
    }
}

} // verus!
