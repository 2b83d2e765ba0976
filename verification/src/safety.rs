//! Gates in front of writing, and what lies around the database.

use std::time::Duration;

use vstd::prelude::*;

use crate::error::{Error, Fault, FaultCode};
use crate::mark::Cell;
use crate::text::{join2, join3, lex_lt, starts_with};

verus! {

broadcast use vstd::string::group_string_axioms;

/// For how many seconds after a write to the log the database counts as in use.
pub const WAL_FRESH_SECS: u64 = 15;

/// Refuses to write while the log is fresh. `age` is how long ago it was written, in
/// seconds, where there is one.
pub fn wal_gate(age: Option<u64>) -> (r: Result<(), Error>)
    ensures
        match age {
            Some(a) => if a < WAL_FRESH_SECS {
                r == Err::<(), Error>(Error::CursorRunning { age_secs: a })
            } else {
                r is Ok
            },
            None => r is Ok,
        },
        r is Err <==> (age matches Some(a) && a < 15),
{
    match age {
        Some(a) => if a < WAL_FRESH_SECS {
            Err(Error::CursorRunning { age_secs: a })
        } else {
            Ok(())
        },
        None => Ok(()),
    }
}

/// What trying for the exclusive lock says: another connection holds it, or something else
/// went wrong.
pub fn lock_gate(probe: Result<(), Fault>) -> (r: Result<(), Error>)
    ensures
        match probe {
            Ok(()) => r is Ok,
            Err(f) => if f.code == FaultCode::Busy {
                r matches Err(Error::DbBusy)
            } else {
                r matches Err(Error::Ctx { op, source }) && op@ == "排他锁探测失败"@ && *source
                    == Error::Sqlite(f)
            },
        },
{
    match probe {
        Ok(()) => Ok(()),
        Err(f) => if f.code == FaultCode::Busy {
            Err(Error::DbBusy)
        } else {
            Err(Error::Ctx { op: "排他锁探测失败", source: Box::new(Error::Sqlite(f)) })
        },
    }
}

/// The owner's own backup of the database.
#[derive(Debug)]
pub struct BackupStatus {
    pub path: String,
    pub size: u64,
    /// By how much it is older than the database.
    pub stale_for: Option<Duration>,
    /// Whether it will never be renewed.
    pub disabled: Option<bool>,
}

/// Whether a setting is `true`, where it is a text.
pub open spec fn setting_is_true(c: Option<Cell>) -> Option<bool> {
    match c {
        Some(Cell::Text(t)) => Some(t@ == vstd::utf8::encode_utf8("true"@)),
        _ => None,
    }
}

/// Whether two sequences of bytes are the same.
fn same_bytes(a: &[u8], b: &[u8]) -> (r: bool)
    ensures
        r == (a@ == b@),
{
    if a.len() != b.len() {
        return false;
    }
    let mut i: usize = 0;
    while i < a.len()
        invariant
            i <= a@.len(),
            a@.len() == b@.len(),
            a@.take(i as int) =~= b@.take(i as int),
        decreases a@.len() - i,
    {
        if a[i] != b[i] {
            assert(a@[i as int] != b@[i as int]);
            return false;
        }
        proof {
            assert(a@.take(i + 1) =~= a@.take(i as int).push(a@[i as int]));
            assert(b@.take(i + 1) =~= b@.take(i as int).push(b@[i as int]));
        }
        i += 1;
    }
    assert(a@.take(i as int) =~= a@);
    assert(b@.take(i as int) =~= b@);
    true
}

/// The state of the owner's own backup, where there is one: `setting` is the value of the
/// setting that says whether it is renewed.
pub fn backup_status(
    path: String,
    size: u64,
    stale_for: Option<Duration>,
    setting: Option<Cell>,
) -> (r: BackupStatus)
    ensures
        r.path == path,
        r.size == size,
        r.stale_for == stale_for,
        r.disabled == setting_is_true(setting),
{
    let disabled = match &setting {
        Some(Cell::Text(t)) => Some(same_bytes(t.as_slice(), "true".as_bytes())),
        _ => None,
    };
    BackupStatus { path, size, stale_for, disabled }
}

/// The views of files and their sizes.
pub open spec fn file_views(s: Seq<(String, u64)>) -> Seq<(Seq<char>, u64)> {
    s.map_values(|f: (String, u64)| (f.0@, f.1))
}

/// Pairs in the order of their texts, and then of their numbers.
pub open spec fn pair_le(a: (Seq<char>, u64), b: (Seq<char>, u64)) -> bool {
    lex_lt(a.0, b.0) || (a.0 == b.0 && a.1 <= b.1)
}

/// `slice::sort` on pairs: a permutation, in the order of the texts and then of the numbers.
#[verifier::external_body]
fn sort_files(v: &mut Vec<(String, u64)>)
    ensures
        file_views(final(v)@).to_multiset() == file_views(old(v)@).to_multiset(),
        forall|i: int, j: int|
            0 <= i < j < final(v)@.len() ==> pair_le(
                #[trigger] file_views(final(v)@)[i],
                #[trigger] file_views(final(v)@)[j],
            ),
{
    v.sort()
}

/// The files whose name begins with that of the database and the mark of a damaged one.
pub open spec fn residue(base: Seq<char>, files: Seq<(Seq<char>, u64)>) -> Seq<(Seq<char>, u64)>
    decreases files.len(),
{
    if files.len() == 0 {
        Seq::empty()
    } else if (base + ".corrupted."@).is_prefix_of(files.last().0) {
        residue(base, files.drop_last()).push(files.last())
    } else {
        residue(base, files.drop_last())
    }
}

/// What is left of databases that were put aside as damaged, in order.
pub fn corrupted_residue(base: &str, files: &[(String, u64)]) -> (r: Vec<(String, u64)>)
    ensures
        file_views(r@).to_multiset() == residue(base@, file_views(files@)).to_multiset(),
        forall|i: int, j: int|
            0 <= i < j < r@.len() ==> pair_le(
                #[trigger] file_views(r@)[i],
                #[trigger] file_views(r@)[j],
            ),
{
    let prefix = join2(base, ".corrupted.");
    let ghost fs = file_views(files@);
    let mut out: Vec<(String, u64)> = Vec::new();
    let mut i: usize = 0;
    assert(file_views(out@) =~= residue(base@, fs.take(0)));
    while i < files.len()
        invariant
            i <= files@.len(),
            fs == file_views(files@),
            prefix@ == base@ + ".corrupted."@,
            file_views(out@) == residue(base@, fs.take(i as int)),
        decreases files@.len() - i,
    {
        proof {
            assert(fs.take(i + 1).drop_last() =~= fs.take(i as int));
            assert(fs.take(i + 1).last() == fs[i as int]);
        }
        if starts_with(files[i].0.as_str(), prefix.as_str()) {
            let ghost o0 = file_views(out@);
            out.push((files[i].0.clone(), files[i].1));
            assert(file_views(out@) =~= o0.push(fs[i as int]));
        }
        i += 1;
    }
    assert(fs.take(i as int) =~= fs);
    sort_files(&mut out);
    out
}

/// Where the backup of an operation goes: beside the database, with its name and a time.
pub fn backup_path(db: &str, label: &str, stamp: &str) -> (r: String)
    ensures
        r@ == db@ + "."@ + label@ + "-backup-"@ + stamp@ + ".sqlite"@,
{
    let mut out = join3(db, ".", label);
    out.push_str("-backup-");
    out.push_str(stamp);
    out.push_str(".sqlite");
    out
}

/// Every file that was put aside as damaged is found, and no other.
pub proof fn lemma_residue(base: Seq<char>, files: Seq<(Seq<char>, u64)>, f: (Seq<char>, u64))
    ensures
        residue(base, files).contains(f) <==> files.contains(f) && (base
            + ".corrupted."@).is_prefix_of(f.0),
    decreases files.len(),
{
    if files.len() > 0 {
        let rest = files.drop_last();
        lemma_residue(base, rest, f);
        assert(files =~= rest.push(files.last()));
        crate::text::lemma_push_contains(rest, files.last());
        crate::text::lemma_push_contains(residue(base, rest), files.last());
    }
}

} // verus!
