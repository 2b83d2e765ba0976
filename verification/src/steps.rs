//! The steps by which a plan is carried out, and what their order promises.

use vstd::prelude::*;

verus! {

/// One step against the databases.
#[derive(Debug, Clone, Copy, PartialEq, Eq, Structural)]
pub enum Step {
    /// Copies the rows that will be deleted into a new backup.
    BackUpRows,
    /// Copies the headers and documents that will change into the same backup.
    BackUpHeaders,
    /// Deletes the planned rows.
    DeleteRows,
    /// Deletes the sessions' rows in the table of headers.
    DeleteHeaders,
    /// Takes the sessions out of the two documents of the main database.
    EditDocuments,
    /// Takes the sessions out of the document of each workspace.
    EditWorkspaces,
    /// Writes the log back into the database and truncates it.
    Checkpoint,
    /// Gives free pages back.
    Shrink,
}

/// The step loses rows.
pub open spec fn loses_rows(s: Step) -> bool {
    s == Step::DeleteRows
}

/// The step loses what headers and documents say.
pub open spec fn loses_headers(s: Step) -> bool {
    s == Step::DeleteHeaders || s == Step::EditDocuments || s == Step::EditWorkspaces
}

/// Whatever a step loses was copied before.
pub open spec fn backs_up_first(steps: Seq<Step>) -> bool {
    forall|i: int|
        #![trigger steps[i]]
        0 <= i < steps.len() ==> (loses_rows(steps[i]) ==> steps.take(i).contains(Step::BackUpRows))
            && (loses_headers(steps[i]) ==> steps.take(i).contains(Step::BackUpHeaders))
}

/// The steps take a session out of all four places where it is kept.
pub open spec fn reaches_all_places(steps: Seq<Step>) -> bool {
    steps.contains(Step::DeleteRows) && steps.contains(Step::DeleteHeaders) && steps.contains(
        Step::EditDocuments,
    ) && steps.contains(Step::EditWorkspaces)
}

/// The steps delete rows and touch neither headers nor documents.
pub open spec fn reaches_rows_only(steps: Seq<Step>) -> bool {
    steps.contains(Step::DeleteRows) && !steps.contains(Step::DeleteHeaders) && !steps.contains(
        Step::EditDocuments,
    ) && !steps.contains(Step::EditWorkspaces)
}

/// The end of an operation: the log is written back, free pages are given back, and what
/// that wrote is written back too.
pub open spec fn closing() -> Seq<Step> {
    seq![Step::Checkpoint, Step::Shrink, Step::Checkpoint]
}

/// The steps that copy, and then delete and close.
pub open spec fn run(rows_and_headers: bool, backup: bool, close: bool) -> Seq<Step> {
    (if backup {
        if rows_and_headers {
            seq![Step::BackUpRows, Step::BackUpHeaders]
        } else {
            seq![Step::BackUpRows]
        }
    } else {
        Seq::empty()
    }) + (if rows_and_headers {
        seq![Step::DeleteRows, Step::DeleteHeaders, Step::EditDocuments, Step::EditWorkspaces]
    } else {
        seq![Step::DeleteRows]
    }) + (if close {
        closing()
    } else {
        Seq::empty()
    })
}

/// With a backup, nothing is lost that was not copied before.
pub proof fn lemma_run_backs_up(rows_and_headers: bool, close: bool)
    ensures
        backs_up_first(run(rows_and_headers, true, close)),
{
    let steps = run(rows_and_headers, true, close);
    assert forall|i: int| #![trigger steps[i]] 0 <= i < steps.len() implies (loses_rows(steps[i])
        ==> steps.take(i).contains(Step::BackUpRows)) && (loses_headers(steps[i])
        ==> steps.take(i).contains(Step::BackUpHeaders)) by {
        assert(steps[0] == Step::BackUpRows);
        if i > 0 {
            assert(steps.take(i)[0] == Step::BackUpRows);
        }
        if rows_and_headers {
            assert(steps[1] == Step::BackUpHeaders);
            if i > 1 {
                assert(steps.take(i)[1] == Step::BackUpHeaders);
            }
        }
    }
}

/// The steps of an operation.
pub(crate) fn make_run(rows_and_headers: bool, backup: bool, close: bool) -> (r: Vec<Step>)
    ensures
        r@ == run(rows_and_headers, backup, close),
        backup ==> backs_up_first(r@),
        rows_and_headers ==> reaches_all_places(r@),
        !rows_and_headers ==> reaches_rows_only(r@),
        r@.contains(Step::BackUpRows) <==> backup,
        close <==> r@.contains(Step::Shrink),
{
    proof {
        lemma_run_places(backup, close);
        lemma_run_closes(rows_and_headers, backup);
        let a = run(rows_and_headers, backup, false);
        let c = seq![Step::Checkpoint, Step::Shrink, Step::Checkpoint];
        assert(c[1] == Step::Shrink);
        crate::text::lemma_add_contains(a, c, Step::Shrink);
    }
    let mut out: Vec<Step> = Vec::new();
    if backup {
        out.push(Step::BackUpRows);
        if rows_and_headers {
            out.push(Step::BackUpHeaders);
        }
    }
    out.push(Step::DeleteRows);
    if rows_and_headers {
        out.push(Step::DeleteHeaders);
        out.push(Step::EditDocuments);
        out.push(Step::EditWorkspaces);
    }
    if close {
        out.push(Step::Checkpoint);
        out.push(Step::Shrink);
        out.push(Step::Checkpoint);
    }
    proof {
        assert(out@ =~= run(rows_and_headers, backup, close));
        lemma_run_backs_up(rows_and_headers, close);
    }
    out
}

/// How many rows one transaction deletes at most.
pub const BATCH: usize = 5000;

/// The batches cut what there is into consecutive parts, none of them empty or too long.
pub open spec fn is_cut(parts: Seq<(usize, usize)>, n: int) -> bool {
    &&& forall|i: int|
        0 <= i < parts.len() ==> (#[trigger] parts[i]).0 < parts[i].1 <= n && parts[i].1
            - parts[i].0 <= BATCH
    &&& forall|i: int|
        #![trigger parts[i]]
        0 <= i < parts.len() - 1 ==> parts[i].1 == parts[i + 1].0 && parts[i].1 - parts[i].0
            == BATCH
    &&& (parts.len() == 0 <==> n == 0)
    &&& parts.len() > 0 ==> parts[0].0 == 0 && parts.last().1 == n
}

/// The batches in which `n` rows are deleted: full ones, and one for what remains.
pub fn batches(n: usize) -> (r: Vec<(usize, usize)>)
    ensures
        is_cut(r@, n as int),
{
    let mut out: Vec<(usize, usize)> = Vec::new();
    let mut start: usize = 0;
    while start < n
        invariant
            start <= n,
            is_cut(out@, start as int),
            start < n ==> forall|i: int|
                0 <= i < out@.len() ==> (#[trigger] out@[i]).1 - out@[i].0 == BATCH,
        decreases n - start,
    {
        let end: usize = if n - start > BATCH {
            start + BATCH
        } else {
            n
        };
        let ghost o0 = out@;
        out.push((start, end));
        proof {
            assert forall|i: int| #![trigger out@[i]] 0 <= i < out@.len() - 1 implies out@[i].1
                == out@[i + 1].0 && out@[i].1 - out@[i].0 == BATCH by {
                assert(out@[i] == o0[i]);
                if i < o0.len() - 1 {
                    assert(o0[i].1 == o0[i + 1].0);
                    assert(out@[i + 1] == o0[i + 1]);
                } else {
                    assert(o0.last() == o0[i]);
                }
            }
            assert forall|i: int| 0 <= i < out@.len() implies (#[trigger] out@[i]).0 < out@[i].1
                <= end && out@[i].1 - out@[i].0 <= BATCH by {
                if i < o0.len() {
                    assert(out@[i] == o0[i]);
                }
            }
            assert(out@[0].0 == 0) by {
                if o0.len() > 0 {
                    assert(out@[0] == o0[0]);
                }
            }
        }
        start = end;
    }
    out
}

/// What the databases hold: rows, headers, and the documents that list sessions, each under
/// the name of its database.
#[verifier::ext_equal]
pub struct Store<V> {
    pub rows: Map<Seq<char>, V>,
    pub headers: Map<Seq<char>, V>,
    pub docs: Map<Seq<char>, V>,
}

/// What an operation is about: the keys of rows, the ids of sessions, which documents are
/// those of the main database, and what takes the sessions out of a document.
#[verifier::reject_recursive_types(V)]
pub struct Scope<V> {
    pub keys: Set<Seq<char>>,
    pub ids: Set<Seq<char>>,
    pub main: Set<Seq<char>>,
    pub edit: spec_fn(V) -> V,
}

/// The databases, and the backup where one is open.
#[verifier::ext_equal]
pub struct World<V> {
    pub store: Store<V>,
    pub backup: Option<Store<V>>,
}

/// The documents, those among them edited that are of the main database, or those that are
/// not.
pub open spec fn edited<V>(docs: Map<Seq<char>, V>, s: Scope<V>, in_main: bool) -> Map<
    Seq<char>,
    V,
> {
    Map::new(
        |k: Seq<char>| docs.contains_key(k),
        |k: Seq<char>|
            if s.main.contains(k) == in_main {
                (s.edit)(docs[k])
            } else {
                docs[k]
            },
    )
}

/// What a step does.
pub open spec fn after<V>(w: World<V>, s: Scope<V>, step: Step) -> World<V> {
    match step {
        // The rows come first: they open the backup.
        Step::BackUpRows => World {
            backup: Some(
                Store {
                    rows: w.store.rows.restrict(s.keys),
                    headers: Map::empty(),
                    docs: Map::empty(),
                },
            ),
            ..w
        },
        Step::BackUpHeaders => World {
            backup: match w.backup {
                Some(b) => Some(
                    Store {
                        headers: w.store.headers.restrict(s.ids),
                        docs: w.store.docs.restrict(s.main),
                        ..b
                    },
                ),
                None => None,
            },
            ..w
        },
        Step::DeleteRows => World {
            store: Store { rows: w.store.rows.remove_keys(s.keys), ..w.store },
            ..w
        },
        Step::DeleteHeaders => World {
            store: Store { headers: w.store.headers.remove_keys(s.ids), ..w.store },
            ..w
        },
        Step::EditDocuments => World {
            store: Store { docs: edited(w.store.docs, s, true), ..w.store },
            ..w
        },
        // Where a backup is open, the document of a workspace is copied right before it
        // changes.
        Step::EditWorkspaces => World {
            store: Store { docs: edited(w.store.docs, s, false), ..w.store },
            backup: match w.backup {
                Some(b) => Some(
                    Store {
                        docs: b.docs.union_prefer_right(w.store.docs.remove_keys(s.main)),
                        ..b
                    },
                ),
                None => None,
            },
        },
        Step::Checkpoint => w,
        Step::Shrink => w,
    }
}

/// What the steps do, one after the other.
pub open spec fn after_all<V>(w: World<V>, s: Scope<V>, steps: Seq<Step>) -> World<V>
    decreases steps.len(),
{
    if steps.len() == 0 {
        w
    } else {
        after(after_all(w, s, steps.drop_last()), s, steps.last())
    }
}

/// What a restore gives: whatever the backup holds is put in its place.
pub open spec fn restored<V>(w: World<V>) -> Store<V> {
    match w.backup {
        Some(b) => Store {
            rows: w.store.rows.union_prefer_right(b.rows),
            headers: w.store.headers.union_prefer_right(b.headers),
            docs: w.store.docs.union_prefer_right(b.docs),
        },
        None => w.store,
    }
}

proof fn lemma_after_add<V>(w: World<V>, s: Scope<V>, a: Seq<Step>, b: Seq<Step>)
    ensures
        after_all(w, s, a + b) == after_all(after_all(w, s, a), s, b),
    decreases b.len(),
{
    if b.len() == 0 {
        assert(a + b =~= a);
    } else {
        lemma_after_add(w, s, a, b.drop_last());
        assert((a + b).drop_last() =~= a + b.drop_last());
        assert((a + b).last() == b.last());
    }
}

/// The end of an operation changes nothing.
proof fn lemma_closing<V>(w: World<V>, s: Scope<V>)
    ensures
        after_all(w, s, closing()) == w,
{
    reveal_with_fuel(after_all, 4);
    let c = closing();
    assert(c.drop_last() =~= seq![Step::Checkpoint, Step::Shrink]);
    assert(c.drop_last().drop_last() =~= seq![Step::Checkpoint]);
    assert(c.drop_last().drop_last().drop_last() =~= Seq::<Step>::empty());
}

/// What the steps of a deletion with its backup come to.
proof fn lemma_full_run<V>(w: World<V>, s: Scope<V>, close: bool)
    ensures
        ({
            let w1 = after(w, s, Step::BackUpRows);
            let w2 = after(w1, s, Step::BackUpHeaders);
            let w3 = after(w2, s, Step::DeleteRows);
            let w4 = after(w3, s, Step::DeleteHeaders);
            let w5 = after(w4, s, Step::EditDocuments);
            after_all(w, s, run(true, true, close)) == after(w5, s, Step::EditWorkspaces)
        }),
{
    reveal_with_fuel(after_all, 7);
    let main = seq![
        Step::BackUpRows,
        Step::BackUpHeaders,
        Step::DeleteRows,
        Step::DeleteHeaders,
        Step::EditDocuments,
        Step::EditWorkspaces,
    ];
    let end = if close {
        closing()
    } else {
        Seq::empty()
    };
    assert(run(true, true, close) =~= main + end);
    lemma_after_add(w, s, main, end);
    let m = after_all(w, s, main);
    lemma_closing(m, s);
    assert(after_all(m, s, end) == m);
    let s5 = main.drop_last();
    let s4 = s5.drop_last();
    let s3 = s4.drop_last();
    let s2 = s3.drop_last();
    let s1 = s2.drop_last();
    assert(s1.drop_last() =~= Seq::<Step>::empty());
    let w1 = after(w, s, Step::BackUpRows);
    let w2 = after(w1, s, Step::BackUpHeaders);
    let w3 = after(w2, s, Step::DeleteRows);
    let w4 = after(w3, s, Step::DeleteHeaders);
    let w5 = after(w4, s, Step::EditDocuments);
    assert(after_all(w, s, s1) == w1);
    assert(after_all(w, s, s2) == w2);
    assert(after_all(w, s, s3) == w3);
    assert(after_all(w, s, s4) == w4);
    assert(after_all(w, s, s5) == w5);
}

/// An operation with its backup can be undone: a restore gives back all that there was.
#[verifier::rlimit(50)]
pub proof fn lemma_restore_undoes<V>(
    store: Store<V>,
    s: Scope<V>,
    rows_and_headers: bool,
    close: bool,
)
    ensures
        restored(
            after_all(
                World { store, backup: None },
                s,
                run(rows_and_headers, true, close),
            ),
        ) =~= store,
{
    reveal_with_fuel(after_all, 7);
    let w = World { store, backup: None::<Store<V>> };
    let end = if close {
        closing()
    } else {
        Seq::empty()
    };
    let main = if rows_and_headers {
        seq![
            Step::BackUpRows,
            Step::BackUpHeaders,
            Step::DeleteRows,
            Step::DeleteHeaders,
            Step::EditDocuments,
            Step::EditWorkspaces,
        ]
    } else {
        seq![Step::BackUpRows, Step::DeleteRows]
    };
    assert(run(rows_and_headers, true, close) =~= main + end);
    lemma_after_add(w, s, main, end);
    let m = after_all(w, s, main);
    lemma_closing(m, s);
    assert(after_all(m, s, end) == m);
    if rows_and_headers {
        let s5 = main.drop_last();
        let s4 = s5.drop_last();
        let s3 = s4.drop_last();
        let s2 = s3.drop_last();
        let s1 = s2.drop_last();
        assert(s1.drop_last() =~= Seq::<Step>::empty());
        let w1 = after(w, s, Step::BackUpRows);
        let w2 = after(w1, s, Step::BackUpHeaders);
        let w3 = after(w2, s, Step::DeleteRows);
        let w4 = after(w3, s, Step::DeleteHeaders);
        let w5 = after(w4, s, Step::EditDocuments);
        let w6 = after(w5, s, Step::EditWorkspaces);
        assert(after_all(w, s, s1) == w1);
        assert(after_all(w, s, s2) == w2);
        assert(after_all(w, s, s3) == w3);
        assert(after_all(w, s, s4) == w4);
        assert(after_all(w, s, s5) == w5);
        assert(m == w6);
        assert(restored(w6).rows =~= store.rows);
        assert(restored(w6).headers =~= store.headers);
        assert(restored(w6).docs =~= store.docs) by {
            assert forall|k: Seq<char>| store.docs.contains_key(k) implies restored(w6).docs[k]
                == store.docs[k] by {
                if s.main.contains(k) {
                    assert(w2.backup->0.docs.contains_key(k));
                } else {
                    assert(w5.store.docs[k] == store.docs[k]);
                }
            }
        }
    } else {
        let s1 = main.drop_last();
        assert(s1.drop_last() =~= Seq::<Step>::empty());
        assert(after_all(w, s, s1) == after(w, s, Step::BackUpRows));
        assert(restored(m).rows =~= store.rows);
        assert(restored(m).headers =~= store.headers);
        assert(restored(m).docs =~= store.docs);
    }
}

/// An operation without a backup leaves none.
pub proof fn lemma_run_without_backup<V>(
    w: World<V>,
    s: Scope<V>,
    rows_and_headers: bool,
    close: bool,
)
    requires
        w.backup is None,
    ensures
        after_all(w, s, run(rows_and_headers, false, close)).backup is None,
{
    let steps = run(rows_and_headers, false, close);
    assert(!steps.contains(Step::BackUpRows)) by {
        assert forall|i: int| 0 <= i < steps.len() implies steps[i] != Step::BackUpRows by {}
    }
    lemma_opens_none(w, s, steps);
}

proof fn lemma_opens_none<V>(w: World<V>, s: Scope<V>, steps: Seq<Step>)
    requires
        w.backup is None,
        !steps.contains(Step::BackUpRows),
    ensures
        after_all(w, s, steps).backup is None,
    decreases steps.len(),
{
    if steps.len() > 0 {
        let rest = steps.drop_last();
        assert(steps =~= rest.push(steps.last()));
        crate::text::lemma_push_contains(rest, steps.last());
        lemma_opens_none(w, s, rest);
    }
}

/// An operation touches nothing but what it is about.
pub proof fn lemma_run_touches_only<V>(
    w: World<V>,
    s: Scope<V>,
    steps: Seq<Step>,
    k: Seq<char>,
)
    ensures
        !s.keys.contains(k) ==> (after_all(w, s, steps).store.rows.contains_key(k)
            <==> w.store.rows.contains_key(k)) && (w.store.rows.contains_key(k) ==> after_all(
            w,
            s,
            steps,
        ).store.rows[k] == w.store.rows[k]),
        !s.ids.contains(k) ==> (after_all(w, s, steps).store.headers.contains_key(k)
            <==> w.store.headers.contains_key(k)) && (w.store.headers.contains_key(k) ==> after_all(
            w,
            s,
            steps,
        ).store.headers[k] == w.store.headers[k]),
    decreases steps.len(),
{
    if steps.len() > 0 {
        lemma_run_touches_only(w, s, steps.drop_last(), k);
    }
}

/// After a deletion neither the rows nor the headers that it is about are left.
pub proof fn lemma_run_removes_all<V>(
    w: World<V>,
    s: Scope<V>,
    make_backup: bool,
    close: bool,
    k: Seq<char>,
)
    ensures
        s.keys.contains(k) ==> !after_all(
            w,
            s,
            run(true, make_backup, close),
        ).store.rows.contains_key(k),
        s.ids.contains(k) ==> !after_all(
            w,
            s,
            run(true, make_backup, close),
        ).store.headers.contains_key(k),
{
    let steps = run(true, make_backup, close);
    lemma_gone(w, s, steps, k);
    let at = if make_backup {
        2int
    } else {
        0
    };
    assert(steps[at] == Step::DeleteRows);
    assert(steps[at + 1] == Step::DeleteHeaders);
    assert(steps.contains(Step::DeleteRows));
    assert(steps.contains(Step::DeleteHeaders));
}

proof fn lemma_gone<V>(w: World<V>, s: Scope<V>, steps: Seq<Step>, k: Seq<char>)
    ensures
        s.keys.contains(k) && steps.contains(Step::DeleteRows) ==> !after_all(
            w,
            s,
            steps,
        ).store.rows.contains_key(k),
        s.ids.contains(k) && steps.contains(Step::DeleteHeaders) ==> !after_all(
            w,
            s,
            steps,
        ).store.headers.contains_key(k),
    decreases steps.len(),
{
    if steps.len() > 0 {
        let rest = steps.drop_last();
        lemma_gone(w, s, rest, k);
        assert(steps =~= rest.push(steps.last()));
        crate::text::lemma_push_contains(rest, steps.last());
    }
}

/// What one step does to a document: a step that edits changes those of its own databases,
/// and any other step none.
proof fn lemma_after_docs<V>(w: World<V>, s: Scope<V>, step: Step, k: Seq<char>)
    ensures
        after(w, s, step).store.docs.contains_key(k) <==> w.store.docs.contains_key(k),
        w.store.docs.contains_key(k) ==> after(w, s, step).store.docs[k] == (if step
            == Step::EditDocuments && s.main.contains(k) || step == Step::EditWorkspaces
            && !s.main.contains(k) {
            (s.edit)(w.store.docs[k])
        } else {
            w.store.docs[k]
        }),
{
}

/// After a deletion, with or without a backup, every document says what the edit makes of
/// what it said, those of the main database and those of the workspaces alike; none is
/// added and none goes.
pub proof fn lemma_run_edits_all<V>(
    w: World<V>,
    s: Scope<V>,
    make_backup: bool,
    close: bool,
    k: Seq<char>,
)
    ensures
        after_all(w, s, run(true, make_backup, close)).store.docs.contains_key(k)
            <==> w.store.docs.contains_key(k),
        w.store.docs.contains_key(k) ==> after_all(
            w,
            s,
            run(true, make_backup, close),
        ).store.docs[k] == (s.edit)(w.store.docs[k]),
{
    let steps = run(true, make_backup, close);
    let head = if make_backup {
        seq![Step::BackUpRows, Step::BackUpHeaders]
    } else {
        Seq::empty()
    };
    let end = if close {
        closing()
    } else {
        Seq::empty()
    };
    let body = seq![
        Step::DeleteRows,
        Step::DeleteHeaders,
        Step::EditDocuments,
        Step::EditWorkspaces,
    ];
    assert(steps =~= head + (body + end));
    lemma_after_add(w, s, head, body + end);
    let w0 = after_all(w, s, head);
    lemma_plain_docs(w, s, head, k);
    lemma_after_add(w0, s, body, end);
    let w4 = after_all(w0, s, body);
    lemma_plain_docs(w4, s, end, k);
    reveal_with_fuel(after_all, 5);
    let b3 = body.drop_last();
    let b2 = b3.drop_last();
    let b1 = b2.drop_last();
    assert(b1.drop_last() =~= Seq::<Step>::empty());
    let w1 = after(w0, s, Step::DeleteRows);
    let w2 = after(w1, s, Step::DeleteHeaders);
    let w3 = after(w2, s, Step::EditDocuments);
    assert(after_all(w0, s, b1) == w1);
    assert(after_all(w0, s, b2) == w2);
    assert(after_all(w0, s, b3) == w3);
    assert(w4 == after(w3, s, Step::EditWorkspaces));
    lemma_after_docs(w0, s, Step::DeleteRows, k);
    lemma_after_docs(w1, s, Step::DeleteHeaders, k);
    lemma_after_docs(w2, s, Step::EditDocuments, k);
    lemma_after_docs(w3, s, Step::EditWorkspaces, k);
}

/// Steps that edit nothing leave every document as it was.
proof fn lemma_plain_docs<V>(w: World<V>, s: Scope<V>, steps: Seq<Step>, k: Seq<char>)
    requires
        forall|i: int|
            0 <= i < steps.len() ==> #[trigger] steps[i] != Step::EditDocuments && steps[i]
                != Step::EditWorkspaces,
    ensures
        after_all(w, s, steps).store.docs.contains_key(k) <==> w.store.docs.contains_key(k),
        w.store.docs.contains_key(k) ==> after_all(w, s, steps).store.docs[k] == w.store.docs[k],
    decreases steps.len(),
{
    if steps.len() > 0 {
        let rest = steps.drop_last();
        assert forall|i: int| 0 <= i < rest.len() implies #[trigger] rest[i] != Step::EditDocuments
            && rest[i] != Step::EditWorkspaces by {
            assert(steps[i] == rest[i]);
        }
        lemma_plain_docs(w, s, rest, k);
        assert(steps[steps.len() - 1] == steps.last());
        lemma_after_docs(after_all(w, s, rest), s, steps.last(), k);
    }
}

/// A deletion goes through all four places where a session is kept: its rows, the table of
/// headers, the documents of the main database and those of the workspaces. An operation on
/// rows alone touches no header and no document.
pub proof fn lemma_run_places(make_backup: bool, close: bool)
    ensures
        run(true, make_backup, close).contains(Step::DeleteRows),
        run(true, make_backup, close).contains(Step::DeleteHeaders),
        run(true, make_backup, close).contains(Step::EditDocuments),
        run(true, make_backup, close).contains(Step::EditWorkspaces),
        run(true, make_backup, close).contains(Step::BackUpRows) <==> make_backup,
        run(true, make_backup, close).contains(Step::BackUpHeaders) <==> make_backup,
        run(false, make_backup, close).contains(Step::DeleteRows),
        run(false, make_backup, close).contains(Step::BackUpRows) <==> make_backup,
        !run(false, make_backup, close).contains(Step::DeleteHeaders),
        !run(false, make_backup, close).contains(Step::EditDocuments),
        !run(false, make_backup, close).contains(Step::EditWorkspaces),
        !run(false, make_backup, close).contains(Step::BackUpHeaders),
{
    let a = run(true, make_backup, close);
    let n = if make_backup {
        2int
    } else {
        0
    };
    assert(a[n] == Step::DeleteRows && a[n + 1] == Step::DeleteHeaders);
    assert(a[n + 2] == Step::EditDocuments && a[n + 3] == Step::EditWorkspaces);
    let b = run(false, make_backup, close);
    let m = if make_backup {
        1int
    } else {
        0
    };
    assert(b[m] == Step::DeleteRows);
    if make_backup {
        assert(a[0] == Step::BackUpRows && a[1] == Step::BackUpHeaders);
        assert(b[0] == Step::BackUpRows);
    }
}

/// An operation on rows alone leaves every header and every document as it was.
pub proof fn lemma_run_on_rows<V>(
    w: World<V>,
    s: Scope<V>,
    make_backup: bool,
    close: bool,
    k: Seq<char>,
)
    ensures
        s.keys.contains(k) ==> !after_all(
            w,
            s,
            run(false, make_backup, close),
        ).store.rows.contains_key(k),
        after_all(w, s, run(false, make_backup, close)).store.headers == w.store.headers,
        after_all(w, s, run(false, make_backup, close)).store.docs.contains_key(k)
            <==> w.store.docs.contains_key(k),
        w.store.docs.contains_key(k) ==> after_all(
            w,
            s,
            run(false, make_backup, close),
        ).store.docs[k] == w.store.docs[k],
{
    let steps = run(false, make_backup, close);
    lemma_run_places(make_backup, close);
    lemma_gone(w, s, steps, k);
    assert forall|i: int| 0 <= i < steps.len() implies #[trigger] steps[i] != Step::EditDocuments
        && steps[i] != Step::EditWorkspaces && steps[i] != Step::DeleteHeaders by {
        assert(steps.contains(steps[i]));
    }
    lemma_plain_docs(w, s, steps, k);
    lemma_plain_headers(w, s, steps);
}

proof fn lemma_plain_headers<V>(w: World<V>, s: Scope<V>, steps: Seq<Step>)
    requires
        forall|i: int| 0 <= i < steps.len() ==> #[trigger] steps[i] != Step::DeleteHeaders,
    ensures
        after_all(w, s, steps).store.headers == w.store.headers,
    decreases steps.len(),
{
    if steps.len() > 0 {
        let rest = steps.drop_last();
        assert forall|i: int| 0 <= i < rest.len() implies #[trigger] rest[i]
            != Step::DeleteHeaders by {
            assert(steps[i] == rest[i]);
        }
        lemma_plain_headers(w, s, rest);
        assert(steps[steps.len() - 1] == steps.last());
    }
}

/// An operation that closes writes the log back before and after it gives free pages back,
/// behind everything else it does; one that does not close does neither.
pub proof fn lemma_run_closes(rows_and_headers: bool, make_backup: bool)
    ensures
        run(rows_and_headers, make_backup, true) == run(rows_and_headers, make_backup, false)
            + seq![Step::Checkpoint, Step::Shrink, Step::Checkpoint],
        !run(rows_and_headers, make_backup, false).contains(Step::Checkpoint),
        !run(rows_and_headers, make_backup, false).contains(Step::Shrink),
{
    let a = run(rows_and_headers, make_backup, false);
    let c = closing();
    assert(run(rows_and_headers, make_backup, true) =~= a + c);
    assert(c =~= seq![Step::Checkpoint, Step::Shrink, Step::Checkpoint]);
}

/// What is copied is what was there before anything went: the backup of an operation holds
/// every row, header and document that it is about, as it was.
pub proof fn lemma_backup_holds_all<V>(store: Store<V>, s: Scope<V>, close: bool, k: Seq<char>)
    ensures
        ({
            let end = after_all(World { store, backup: None }, s, run(true, true, close));
            &&& end.backup is Some
            &&& s.keys.contains(k) && store.rows.contains_key(k)
                ==> end.backup->0.rows.contains_key(k) && end.backup->0.rows[k] == store.rows[k]
            &&& s.ids.contains(k) && store.headers.contains_key(k)
                ==> end.backup->0.headers.contains_key(k) && end.backup->0.headers[k]
                == store.headers[k]
            &&& store.docs.contains_key(k) ==> end.backup->0.docs.contains_key(k)
                && end.backup->0.docs[k] == store.docs[k]
        }),
{
    let w = World { store, backup: None::<Store<V>> };
    lemma_full_run(w, s, close);
    let w1 = after(w, s, Step::BackUpRows);
    let w2 = after(w1, s, Step::BackUpHeaders);
    let w3 = after(w2, s, Step::DeleteRows);
    let w4 = after(w3, s, Step::DeleteHeaders);
    lemma_after_docs(w1, s, Step::BackUpHeaders, k);
    lemma_after_docs(w2, s, Step::DeleteRows, k);
    lemma_after_docs(w3, s, Step::DeleteHeaders, k);
    lemma_after_docs(w4, s, Step::EditDocuments, k);
    if store.docs.contains_key(k) && s.main.contains(k) {
        assert(w2.backup->0.docs.contains_key(k));
    }
}

/// Deleting in batches deletes every row once: the batches follow one another without a gap
/// from the first row to the last, none is empty, and none holds more than five thousand.
pub proof fn lemma_batches(parts: Seq<(usize, usize)>, n: int, k: int)
    requires
        is_cut(parts, n),
        0 <= k < n,
    ensures
        exists|i: int|
            0 <= i < parts.len() && (#[trigger] parts[i]).0 <= k < parts[i].1 && parts[i].1
                - parts[i].0 <= 5000,
        forall|i: int, j: int|
            0 <= i < j < parts.len() ==> (#[trigger] parts[i]).1 <= (#[trigger] parts[j]).0,
{
    lemma_batch_of(parts, n, k, parts.len() as int);
    assert forall|i: int, j: int| 0 <= i < j < parts.len() implies (#[trigger] parts[i]).1 <= (
    #[trigger] parts[j]).0 by {
        lemma_batches_rise(parts, n, i, j);
    }
}

proof fn lemma_batch_of(parts: Seq<(usize, usize)>, n: int, k: int, m: int)
    requires
        is_cut(parts, n),
        0 < m <= parts.len(),
        0 <= k < parts[m - 1].1,
    ensures
        exists|i: int|
            0 <= i < parts.len() && (#[trigger] parts[i]).0 <= k < parts[i].1 && parts[i].1
                - parts[i].0 <= 5000,
    decreases m,
{
    assert(parts[m - 1].1 - parts[m - 1].0 <= 5000);
    if k < parts[m - 1].0 {
        assert(m > 1) by {
            if m == 1 {
                assert(parts[0].0 == 0);
            }
        }
        assert(parts[m - 2].1 == parts[m - 2 + 1].0);
        lemma_batch_of(parts, n, k, m - 1);
    }
}

proof fn lemma_batches_rise(parts: Seq<(usize, usize)>, n: int, i: int, j: int)
    requires
        is_cut(parts, n),
        0 <= i < j < parts.len(),
    ensures
        parts[i].1 <= parts[j].0,
    decreases j - i,
{
    assert(parts[i].1 == parts[i + 1].0);
    if i + 1 < j {
        assert(parts[i + 1].0 < parts[i + 1].1);
        lemma_batches_rise(parts, n, i + 1, j);
    }
}

} // verus!
