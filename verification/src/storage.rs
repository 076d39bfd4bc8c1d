//! The record store: a durable table of per-file records keyed by the stable
//! remote identifier, together with the change-detection upsert of the
//! synchroniser and the collector's status transitions.
//!
//! Time is modelled by a logical clock: every mutation stamps the touched
//! record with a fresh, strictly larger value, so timestamps are distinct
//! across the store and monotone per record.

use vstd::prelude::*;

use crate::models::{DropboxId, FileHash, FileRecord, FileStatus, JobResult, RecordModel, ResultModel};
use crate::text::{
    contains_seq, lemma_lex_refl, lemma_lex_total, lemma_lex_trans, lex_le, str_contains, str_eq,
    str_le,
};

verus! {

/// The index of the first record with identifier `id`, or `-1` when none
/// holds it.
pub open spec fn find_rec(recs: Seq<RecordModel>, id: Seq<char>) -> int
    decreases recs.len(),
{
    if recs.len() == 0 {
        -1
    } else if recs[0].id == id {
        0
    } else {
        let r = find_rec(recs.drop_first(), id);
        if r == -1 {
            -1
        } else {
            r + 1
        }
    }
}

/// What `find_rec` returns: a first index that holds `id`, or `-1` when no
/// index does.
pub proof fn lemma_find_rec(recs: Seq<RecordModel>, id: Seq<char>)
    ensures
        find_rec(recs, id) == -1 ==> forall|j: int| 0 <= j < recs.len() ==> recs[j].id != id,
        find_rec(recs, id) != -1 ==> {
            let r = find_rec(recs, id);
            &&& 0 <= r < recs.len()
            &&& recs[r].id == id
            &&& forall|j: int| 0 <= j < r ==> recs[j].id != id
        },
    decreases recs.len(),
{
    if recs.len() == 0 {
    } else if recs[0].id == id {
    } else {
        let rest = recs.drop_first();
        lemma_find_rec(rest, id);
        if find_rec(rest, id) == -1 {
            assert(find_rec(recs, id) == -1);
            assert forall|j: int| 0 <= j < recs.len() implies recs[j].id != id by {
                if j > 0 {
                    assert(recs[j] == rest[j - 1]);
                }
            }
        } else {
            let r = find_rec(rest, id);
            assert(find_rec(recs, id) == r + 1);
            assert(recs[r + 1] == rest[r]);
            assert forall|j: int| 0 <= j < r + 1 implies recs[j].id != id by {
                if j > 0 {
                    assert(recs[j] == rest[j - 1]);
                }
            }
        }
    }
}

/// `find_rec` looks only at identifiers: two sequences that agree on them
/// agree on every search.
pub proof fn lemma_find_rec_same_ids(a: Seq<RecordModel>, b: Seq<RecordModel>, id: Seq<char>)
    requires
        a.len() == b.len(),
        forall|i: int| 0 <= i < a.len() ==> a[i].id == b[i].id,
    ensures
        find_rec(a, id) == find_rec(b, id),
    decreases a.len(),
{
    if a.len() > 0 && a[0].id != id {
        let ra = a.drop_first();
        let rb = b.drop_first();
        assert forall|i: int| 0 <= i < ra.len() implies ra[i].id == rb[i].id by {
            assert(ra[i] == a[i + 1]);
            assert(rb[i] == b[i + 1]);
        }
        lemma_find_rec_same_ids(ra, rb, id);
    }
}

/// The fresh record the synchroniser inserts on first sighting of a remote
/// file.
pub open spec fn fresh_record(id: Seq<char>, name: Seq<char>, hash: Seq<char>, stamp: u64) -> RecordModel {
    RecordModel {
        id: id,
        name: Some(name),
        hash: hash,
        status: FileStatus::Pending,
        title: None,
        authors: None,
        summary: None,
        target_paths: None,
        last_error: None,
        updated_at: stamp,
    }
}

/// How an existing record is reconciled with a freshly listed remote entry:
/// an unchanged hash refreshes only name and timestamp, a changed hash also
/// rewrites the hash and forces the status back to `Pending`.
pub open spec fn reconciled(r: RecordModel, name: Seq<char>, hash: Seq<char>, stamp: u64) -> RecordModel {
    if r.hash == hash {
        RecordModel { name: Some(name), updated_at: stamp, ..r }
    } else {
        RecordModel {
            name: Some(name),
            hash: hash,
            status: FileStatus::Pending,
            last_error: None,
            updated_at: stamp,
            ..r
        }
    }
}

/// The store contents after one upsert of a remote entry.
pub open spec fn upsert_step(
    recs: Seq<RecordModel>,
    id: Seq<char>,
    name: Seq<char>,
    hash: Seq<char>,
    stamp: u64,
) -> Seq<RecordModel> {
    let i = find_rec(recs, id);
    if i == -1 {
        recs.push(fresh_record(id, name, hash, stamp))
    } else {
        recs.update(i, reconciled(recs[i], name, hash, stamp))
    }
}

/// The record after the collector applies one job result to it.
pub open spec fn applied(r: RecordModel, res: ResultModel, stamp: u64) -> RecordModel {
    match res {
        ResultModel::Success { meta, target_paths, .. } => RecordModel {
            status: FileStatus::Processed,
            title: Some(meta.title),
            authors: Some(meta.authors),
            summary: Some(meta.summary),
            target_paths: Some(target_paths),
            last_error: None,
            updated_at: stamp,
            ..r
        },
        ResultModel::Failure { error, .. } => RecordModel {
            status: FileStatus::Error,
            target_paths: None,
            last_error: Some(error),
            updated_at: stamp,
            ..r
        },
    }
}

/// The store contents after the collector applies one job result.
pub open spec fn apply_step(recs: Seq<RecordModel>, res: ResultModel, stamp: u64) -> Seq<RecordModel> {
    let i = find_rec(recs, res.id());
    if i == -1 {
        recs
    } else {
        recs.update(i, applied(recs[i], res, stamp))
    }
}

/// The store contents after one unconditional status overwrite.
pub open spec fn set_status_step(
    recs: Seq<RecordModel>,
    id: Seq<char>,
    status: FileStatus,
    stamp: u64,
) -> Seq<RecordModel> {
    let i = find_rec(recs, id);
    if i == -1 {
        recs
    } else {
        recs.update(
            i,
            RecordModel {
                status: status,
                last_error: if status is Error {
                    recs[i].last_error
                } else {
                    None
                },
                updated_at: stamp,
                ..recs[i]
            },
        )
    }
}

/// The records whose status is `Pending`, in store order.
pub open spec fn pending_of(recs: Seq<RecordModel>) -> Seq<RecordModel>
    decreases recs.len(),
{
    if recs.len() == 0 {
        Seq::empty()
    } else {
        let rest = pending_of(recs.drop_last());
        if recs.last().status is Pending {
            rest.push(recs.last())
        } else {
            rest
        }
    }
}

/// What `pending_of` keeps: pending records of the input, all of them, with
/// distinct timestamps whenever the input has distinct timestamps.
pub proof fn lemma_pending_of(recs: Seq<RecordModel>)
    ensures
        forall|i: int|
            0 <= i < pending_of(recs).len() ==> (#[trigger] pending_of(recs)[i]).status
                is Pending,
        forall|i: int| 0 <= i < pending_of(recs).len() ==> recs.contains(#[trigger] pending_of(recs)[i]),
        forall|k: int|
            0 <= k < recs.len() && (#[trigger] recs[k]).status is Pending ==> pending_of(
                recs,
            ).contains(recs[k]),
        (forall|i: int, j: int| 0 <= i < j < recs.len() ==> recs[i].updated_at != recs[j].updated_at)
            ==> (forall|i: int, j: int|
            0 <= i < j < pending_of(recs).len() ==> pending_of(recs)[i].updated_at != pending_of(
                recs,
            )[j].updated_at),
    decreases recs.len(),
{
    if recs.len() > 0 {
        let butlast = recs.drop_last();
        lemma_pending_of(butlast);
        let rest = pending_of(butlast);
        assert forall|i: int| 0 <= i < rest.len() implies recs.contains(#[trigger] rest[i]) by {
            let k = choose|k: int| 0 <= k < butlast.len() && butlast[k] == rest[i];
            assert(recs[k] == rest[i]);
        }
        assert forall|k: int|
            0 <= k < recs.len() && (#[trigger] recs[k]).status is Pending implies pending_of(
            recs,
        ).contains(recs[k]) by {
            if k < recs.len() - 1 {
                assert(butlast[k] == recs[k]);
                let p = choose|p: int| 0 <= p < rest.len() && rest[p] == recs[k];
                assert(pending_of(recs)[p] == recs[k]);
            } else {
                assert(pending_of(recs).last() == recs[k]);
            }
        }
        if forall|i: int, j: int|
            0 <= i < j < recs.len() ==> recs[i].updated_at != recs[j].updated_at {
            assert forall|i: int, j: int|
                0 <= i < j < butlast.len() implies butlast[i].updated_at
                != butlast[j].updated_at by {
                assert(butlast[i] == recs[i]);
                assert(butlast[j] == recs[j]);
            }
            if recs.last().status is Pending {
                assert forall|i: int|
                    0 <= i < rest.len() implies rest[i].updated_at
                    != recs.last().updated_at by {
                    let k = choose|k: int| 0 <= k < butlast.len() && butlast[k] == rest[i];
                    assert(recs[k] == rest[i]);
                    assert(recs[k].updated_at != recs[recs.len() - 1].updated_at);
                }
            }
        }
    }
}

/// The index of the first record carrying the greatest timestamp.
pub open spec fn max_stamp_idx(s: Seq<RecordModel>) -> int
    decreases s.len(),
{
    if s.len() <= 1 {
        0
    } else {
        let m = max_stamp_idx(s.drop_first()) + 1;
        if s[0].updated_at >= s[m].updated_at {
            0
        } else {
            m
        }
    }
}

/// `max_stamp_idx` names a position of the sequence whose timestamp no other
/// position exceeds.
pub proof fn lemma_max_stamp_idx(s: Seq<RecordModel>)
    requires
        s.len() > 0,
    ensures
        0 <= max_stamp_idx(s) < s.len(),
        forall|j: int| 0 <= j < s.len() ==> (#[trigger] s[j]).updated_at <= s[max_stamp_idx(s)].updated_at,
    decreases s.len(),
{
    if s.len() > 1 {
        let rest = s.drop_first();
        lemma_max_stamp_idx(rest);
        assert forall|j: int| 0 <= j < s.len() implies (#[trigger] s[j]).updated_at <= s[max_stamp_idx(
            s,
        )].updated_at by {
            if j > 0 {
                assert(rest[j - 1] == s[j]);
                assert(rest[max_stamp_idx(rest)] == s[max_stamp_idx(rest) + 1]);
            }
        }
    }
}

/// The sequence rearranged into strictly descending timestamp order by
/// repeatedly moving a greatest-timestamp record to the front.
pub open spec fn sorted_desc(s: Seq<RecordModel>) -> Seq<RecordModel>
    decreases s.len(),
    via sorted_desc_decreases
{
    if s.len() == 0 {
        Seq::empty()
    } else {
        seq![s[max_stamp_idx(s)]] + sorted_desc(s.remove(max_stamp_idx(s)))
    }
}

#[via_fn]
proof fn sorted_desc_decreases(s: Seq<RecordModel>) {
    if s.len() > 0 {
        lemma_max_stamp_idx(s);
    }
}

/// `sorted_desc` keeps the length and the elements of its input, and keeps
/// timestamps distinct whenever the input has them distinct.
pub proof fn lemma_sorted_desc(s: Seq<RecordModel>)
    ensures
        sorted_desc(s).len() == s.len(),
        forall|i: int| 0 <= i < s.len() ==> sorted_desc(s).contains(#[trigger] s[i]),
        forall|i: int| 0 <= i < sorted_desc(s).len() ==> s.contains(#[trigger] sorted_desc(s)[i]),
        (forall|i: int, j: int| 0 <= i < j < s.len() ==> s[i].updated_at != s[j].updated_at) ==> (
        forall|i: int, j: int|
            0 <= i < j < sorted_desc(s).len() ==> sorted_desc(s)[i].updated_at != sorted_desc(
                s,
            )[j].updated_at),
    decreases s.len(),
{
    if s.len() > 0 {
        lemma_max_stamp_idx(s);
        let m = max_stamp_idx(s);
        let rest = s.remove(m);
        lemma_sorted_desc(rest);
        if forall|i: int, j: int| 0 <= i < j < s.len() ==> s[i].updated_at != s[j].updated_at {
            assert forall|i: int, j: int|
                0 <= i < j < rest.len() implies rest[i].updated_at != rest[j].updated_at by {
                let a = if i < m {
                    i
                } else {
                    i + 1
                };
                let b = if j < m {
                    j
                } else {
                    j + 1
                };
                assert(rest[i] == s[a]);
                assert(rest[j] == s[b]);
            }
            assert forall|i: int, j: int|
                0 <= i < j < sorted_desc(s).len() implies sorted_desc(s)[i].updated_at
                != sorted_desc(s)[j].updated_at by {
                if i == 0 {
                    assert(sorted_desc(s)[j] == sorted_desc(rest)[j - 1]);
                    assert(rest.contains(sorted_desc(rest)[j - 1]));
                    let k = choose|k: int|
                        0 <= k < rest.len() && rest[k] == sorted_desc(rest)[j - 1];
                    let k0 = if k < m {
                        k
                    } else {
                        k + 1
                    };
                    assert(rest[k] == s[k0]);
                    assert(s[k0].updated_at != s[m].updated_at);
                } else {
                    assert(sorted_desc(s)[i] == sorted_desc(rest)[i - 1]);
                    assert(sorted_desc(s)[j] == sorted_desc(rest)[j - 1]);
                }
            }
        }
        assert forall|i: int| 0 <= i < s.len() implies sorted_desc(s).contains(#[trigger] s[i]) by {
            if i == m {
                assert(sorted_desc(s)[0] == s[m]);
            } else {
                let k = if i < m {
                    i
                } else {
                    i - 1
                };
                assert(rest[k] == s[i]);
                let p = choose|p: int| 0 <= p < sorted_desc(rest).len() && sorted_desc(rest)[p] == rest[k];
                assert(sorted_desc(s)[p + 1] == sorted_desc(rest)[p]);
            }
        }
        assert forall|i: int|
            0 <= i < sorted_desc(s).len() implies s.contains(#[trigger] sorted_desc(s)[i]) by {
            if i == 0 {
                assert(sorted_desc(s)[0] == s[m]);
            } else {
                assert(sorted_desc(s)[i] == sorted_desc(rest)[i - 1]);
                let k = choose|k: int| 0 <= k < rest.len() && rest[k] == sorted_desc(rest)[i - 1];
                if k < m {
                    assert(s[k] == rest[k]);
                } else {
                    assert(s[k + 1] == rest[k]);
                }
            }
        }
    }
}

/// The scanner's answer: the pending records, most recently updated first,
/// truncated at `limit`.
pub open spec fn scan_batch(recs: Seq<RecordModel>, limit: int) -> Seq<RecordModel> {
    let p = sorted_desc(pending_of(recs));
    if limit < p.len() {
        p.take(limit)
    } else {
        p
    }
}

/// The text a record is ordered by in folder listings: its title, or
/// nothing while none was extracted.
pub open spec fn title_key(r: RecordModel) -> Seq<char> {
    match r.title {
        Some(t) => t,
        None => Seq::empty(),
    }
}

/// Some element of `tps` contains `folder`.
pub open spec fn any_contains(tps: Seq<Seq<char>>, folder: Seq<char>) -> bool {
    exists|i: int| 0 <= i < tps.len() && #[trigger] contains_seq(tps[i], folder)
}

/// Whether a record was re-filed somewhere inside the folder: one of its
/// written target paths contains the folder's name.
pub open spec fn in_folder(r: RecordModel, folder: Seq<char>) -> bool {
    match r.target_paths {
        Some(tps) => any_contains(tps, folder),
        None => false,
    }
}

/// The records re-filed inside the folder, in store order.
pub open spec fn folder_records(recs: Seq<RecordModel>, folder: Seq<char>) -> Seq<RecordModel>
    decreases recs.len(),
{
    if recs.len() == 0 {
        Seq::empty()
    } else {
        let rest = folder_records(recs.drop_last(), folder);
        if in_folder(recs.last(), folder) {
            rest.push(recs.last())
        } else {
            rest
        }
    }
}

/// The index of the first record carrying the least title.
pub open spec fn min_title_idx(s: Seq<RecordModel>) -> int
    decreases s.len(),
{
    if s.len() <= 1 {
        0
    } else {
        let m = min_title_idx(s.drop_first()) + 1;
        if lex_le(title_key(s[0]), title_key(s[m])) {
            0
        } else {
            m
        }
    }
}

/// `min_title_idx` names the first position whose title no other position
/// goes below: its title is least, and everything before it is strictly
/// greater.
pub proof fn lemma_min_title_idx(s: Seq<RecordModel>)
    requires
        s.len() > 0,
    ensures
        0 <= min_title_idx(s) < s.len(),
        forall|j: int|
            0 <= j < s.len() ==> lex_le(title_key(s[min_title_idx(s)]), title_key(#[trigger] s[j])),
        forall|j: int|
            0 <= j < min_title_idx(s) ==> !lex_le(
                title_key(#[trigger] s[j]),
                title_key(s[min_title_idx(s)]),
            ),
    decreases s.len(),
{
    if s.len() <= 1 {
        lemma_lex_refl(title_key(s[0]));
    } else {
        let rest = s.drop_first();
        lemma_min_title_idx(rest);
        let mr = min_title_idx(rest);
        let m = mr + 1;
        assert(rest[mr] == s[m]);
        if lex_le(title_key(s[0]), title_key(s[m])) {
            assert forall|j: int|
                0 <= j < s.len() implies lex_le(
                title_key(s[min_title_idx(s)]),
                title_key(#[trigger] s[j]),
            ) by {
                if j == 0 {
                    lemma_lex_refl(title_key(s[0]));
                } else {
                    assert(rest[j - 1] == s[j]);
                    assert(lex_le(title_key(rest[mr]), title_key(rest[j - 1])));
                    lemma_lex_trans(title_key(s[0]), title_key(s[m]), title_key(s[j]));
                }
            }
        } else {
            lemma_lex_total(title_key(s[0]), title_key(s[m]));
            assert forall|j: int|
                0 <= j < s.len() implies lex_le(
                title_key(s[min_title_idx(s)]),
                title_key(#[trigger] s[j]),
            ) by {
                if j > 0 {
                    assert(rest[j - 1] == s[j]);
                    assert(lex_le(title_key(rest[mr]), title_key(rest[j - 1])));
                }
            }
            assert forall|j: int|
                0 <= j < min_title_idx(s) implies !lex_le(
                title_key(#[trigger] s[j]),
                title_key(s[min_title_idx(s)]),
            ) by {
                if j > 0 {
                    assert(rest[j - 1] == s[j]);
                    assert(!lex_le(title_key(rest[j - 1]), title_key(rest[mr])));
                }
            }
        }
    }
}

/// The sequence rearranged into ascending title order by repeatedly moving
/// a least-titled record to the front; records with equal titles keep their
/// relative order.
pub open spec fn sorted_by_title(s: Seq<RecordModel>) -> Seq<RecordModel>
    decreases s.len(),
    via sorted_by_title_decreases
{
    if s.len() == 0 {
        Seq::empty()
    } else {
        seq![s[min_title_idx(s)]] + sorted_by_title(s.remove(min_title_idx(s)))
    }
}

#[via_fn]
proof fn sorted_by_title_decreases(s: Seq<RecordModel>) {
    if s.len() > 0 {
        lemma_min_title_idx(s);
    }
}

/// What a scanned batch holds: pending records of the store, no more than
/// `limit` of them, pairwise distinct by timestamp; and when the limit does
/// not cut, every pending record of the store.
pub proof fn lemma_scan_batch(recs: Seq<RecordModel>, limit: int)
    requires
        limit >= 0,
        forall|i: int, j: int| 0 <= i < j < recs.len() ==> recs[i].updated_at != recs[j].updated_at,
    ensures
        ({
            let b = scan_batch(recs, limit);
            &&& b.len() == if limit < pending_of(recs).len() {
                limit
            } else {
                pending_of(recs).len() as int
            }
            &&& forall|k: int| 0 <= k < b.len() ==> (#[trigger] b[k]).status is Pending
            &&& forall|k: int| 0 <= k < b.len() ==> recs.contains(#[trigger] b[k])
            &&& forall|k1: int, k2: int|
                0 <= k1 < k2 < b.len() ==> b[k1].updated_at != b[k2].updated_at
            &&& (pending_of(recs).len() <= limit ==> forall|i: int|
                0 <= i < recs.len() && (#[trigger] recs[i]).status is Pending ==> b.contains(
                    recs[i],
                ))
        }),
{
    lemma_pending_of(recs);
    let p = pending_of(recs);
    lemma_sorted_desc(p);
    let sd = sorted_desc(p);
    let b = scan_batch(recs, limit);
    assert forall|k: int| 0 <= k < b.len() implies (#[trigger] b[k]).status is Pending by {
        assert(b[k] == sd[k]);
        assert(p.contains(sd[k]));
        let q = choose|q: int| 0 <= q < p.len() && p[q] == sd[k];
    }
    assert forall|k: int| 0 <= k < b.len() implies recs.contains(#[trigger] b[k]) by {
        assert(b[k] == sd[k]);
        assert(p.contains(sd[k]));
        let q = choose|q: int| 0 <= q < p.len() && p[q] == sd[k];
        assert(recs.contains(p[q]));
    }
    if pending_of(recs).len() <= limit {
        assert(b =~= sd);
        assert forall|i: int|
            0 <= i < recs.len() && (#[trigger] recs[i]).status is Pending implies b.contains(
            recs[i],
        ) by {
            assert(p.contains(recs[i]));
            let q = choose|q: int| 0 <= q < p.len() && p[q] == recs[i];
            assert(sd.contains(p[q]));
        }
    }
}

/// The record's ordering key for folder listings, as text.
fn title_key_of(rec: &FileRecord) -> (r: &str)
    ensures
        r@ == title_key(rec@),
{
    match &rec.title {
        Some(t) => t.as_str(),
        None => {
            proof {
                reveal_strlit("");
            }
            ""
        },
    }
}

/// Returns whether one of the record's written targets lies inside the
/// folder.
fn record_in_folder(rec: &FileRecord, folder: &str) -> (b: bool)
    ensures
        b == in_folder(rec@, folder@),
{
    match &rec.target_paths {
        Some(tps) => {
            let mut i: usize = 0;
            while i < tps.len()
                invariant
                    i <= tps@.len(),
                    rec@.target_paths == Some(tps.deep_view()),
                    tps.deep_view().len() == tps@.len(),
                    forall|j: int| 0 <= j < tps@.len() ==> tps.deep_view()[j] == tps@[j]@,
                    forall|j: int| 0 <= j < i ==> !(#[trigger] contains_seq(tps.deep_view()[j], folder@)),
                decreases tps.len() - i,
            {
                if str_contains(tps[i].0.as_str(), folder) {
                    proof {
                        assert(rec@.target_paths == Some(tps.deep_view()));
                        assert(contains_seq(tps.deep_view()[i as int], folder@));
                        assert(any_contains(tps.deep_view(), folder@));
                    }
                    return true;
                }
                i = i + 1;
            }
            false
        },
        None => false,
    }
}

/// Durable table of per-file records, keyed by remote identifier.
pub struct Storage {
    records: Vec<FileRecord>,
    clock: u64,
}

impl Storage {
    /// The mathematical contents of the store.
    pub closed spec fn recs(&self) -> Seq<RecordModel> {
        self.records.deep_view()
    }

    /// The logical clock; every stamp ever given out is at most this value.
    pub closed spec fn clock(&self) -> u64 {
        self.clock
    }

    /// Well-formedness: identifiers are unique, stamps are distinct and never
    /// ahead of the clock, and error text is only carried by `Error` records.
    pub open spec fn wf(&self) -> bool {
        &&& forall|i: int, j: int|
            0 <= i < j < self.recs().len() ==> self.recs()[i].id != self.recs()[j].id
        &&& forall|i: int, j: int|
            0 <= i < j < self.recs().len() ==> self.recs()[i].updated_at != self.recs()[j].updated_at
        &&& forall|i: int| 0 <= i < self.recs().len() ==> self.recs()[i].updated_at <= self.clock()
        &&& forall|i: int|
            0 <= i < self.recs().len() ==> (self.recs()[i].last_error is Some ==> self.recs()[i].status is Error)
    }

    /// Records that a store may be rebuilt from: unique identifiers,
    /// distinct timestamps, and error text only on `Error` records.
    pub open spec fn restorable(recs: Seq<RecordModel>) -> bool {
        &&& forall|i: int, j: int| 0 <= i < j < recs.len() ==> recs[i].id != recs[j].id
        &&& forall|i: int, j: int|
            0 <= i < j < recs.len() ==> recs[i].updated_at != recs[j].updated_at
        &&& forall|i: int|
            0 <= i < recs.len() ==> ((#[trigger] recs[i]).last_error is Some ==> recs[i].status
                is Error)
    }

    /// Rebuilds a store from persisted records — how a run resumes where
    /// the last one left off.  Records that break the store's invariants
    /// are refused, and only such records are.
    pub fn from_records(records: Vec<FileRecord>) -> (r: Option<Storage>)
        ensures
            match r {
                Some(s) => {
                    &&& Self::restorable(records.deep_view())
                    &&& s.wf()
                    &&& s.recs() == records.deep_view()
                },
                None => !Self::restorable(records.deep_view()),
            },
    {
        let ghost recs = records.deep_view();
        proof {
            assert forall|j: int| 0 <= j < records@.len() implies recs[j] == records@[j]@ by {}
        }
        let mut clock: u64 = 0;
        let mut i: usize = 0;
        while i < records.len()
            invariant
                i <= records@.len(),
                recs == records.deep_view(),
                recs.len() == records@.len(),
                forall|j: int| 0 <= j < records@.len() ==> recs[j] == records@[j]@,
                forall|a: int, b: int| 0 <= a < b < i ==> recs[a].id != recs[b].id,
                forall|a: int, b: int| 0 <= a < b < i ==> recs[a].updated_at != recs[b].updated_at,
                forall|a: int|
                    0 <= a < i ==> ((#[trigger] recs[a]).last_error is Some ==> recs[a].status
                        is Error),
                forall|a: int| 0 <= a < i ==> recs[a].updated_at <= clock,
            decreases records.len() - i,
        {
            if records[i].last_error.is_some() && !matches!(records[i].status, FileStatus::Error) {
                return None;
            }
            let mut j: usize = 0;
            while j < i
                invariant
                    j <= i < records@.len(),
                    recs == records.deep_view(),
                    recs.len() == records@.len(),
                    forall|k: int| 0 <= k < records@.len() ==> recs[k] == records@[k]@,
                    forall|k: int| 0 <= k < j ==> recs[k].id != recs[i as int].id,
                    forall|k: int| 0 <= k < j ==> recs[k].updated_at != recs[i as int].updated_at,
                decreases i - j,
            {
                if str_eq(records[j].dropbox_id.0.as_str(), records[i].dropbox_id.0.as_str()) {
                    proof {
                        assert(recs[j as int].id == recs[i as int].id);
                        assert(!Self::restorable(recs));
                    }
                    return None;
                }
                if records[j].updated_at == records[i].updated_at {
                    proof {
                        assert(recs[j as int].updated_at == recs[i as int].updated_at);
                        assert(!Self::restorable(recs));
                    }
                    return None;
                }
                j = j + 1;
            }
            if records[i].updated_at > clock {
                clock = records[i].updated_at;
            }
            i = i + 1;
        }
        Some(Storage { records, clock })
    }

    /// An empty store.
    pub fn new() -> (r: Storage)
        ensures
            r.wf(),
            r.recs() == Seq::<RecordModel>::empty(),
            r.clock() == 0,
    {
        let r = Storage { records: Vec::new(), clock: 0 };
        proof {
            assert(r.recs() =~= Seq::<RecordModel>::empty());
        }
        r
    }

    /// The index of the record holding `id`, if any, as an executable search.
    fn find_index(&self, id: &DropboxId) -> (r: Option<usize>)
        ensures
            match r {
                Some(i) => i < self.recs().len() && find_rec(self.recs(), id@) == i,
                None => find_rec(self.recs(), id@) == -1,
            },
    {
        let mut i: usize = 0;
        while i < self.records.len()
            invariant
                i <= self.records.len(),
                self.recs().len() == self.records@.len(),
                forall|j: int| 0 <= j < i ==> self.recs()[j].id != id@,
                forall|j: int| 0 <= j < self.records@.len() ==> self.recs()[j] == self.records@[j]@,
            decreases self.records.len() - i,
        {
            if str_eq(self.records[i].dropbox_id.0.as_str(), id.0.as_str()) {
                proof {
                    lemma_find_rec(self.recs(), id@);
                    let r = find_rec(self.recs(), id@);
                    assert(self.recs()[i as int].id == id@);
                    if r == -1 {
                        assert(false);
                    } else if r < i {
                        assert(self.recs()[r].id != id@);
                        assert(false);
                    } else if r > i {
                        assert(false);
                    }
                }
                return Some(i);
            }
            i = i + 1;
        }
        proof {
            lemma_find_rec(self.recs(), id@);
        }
        None
    }

    /// The logical clock's current value, as a plain number.
    pub fn clock_value(&self) -> (r: u64)
        ensures
            r == self.clock(),
    {
        self.clock
    }

    /// Every record of the store, in store order; what a caller persists
    /// to survive between runs.
    pub fn all_records(&self) -> (r: Vec<FileRecord>)
        ensures
            r.deep_view() == self.recs(),
    {
        let mut r: Vec<FileRecord> = Vec::new();
        let mut i: usize = 0;
        while i < self.records.len()
            invariant
                i <= self.records@.len(),
                self.recs().len() == self.records@.len(),
                forall|j: int| 0 <= j < self.records@.len() ==> self.recs()[j] == self.records@[j]@,
                r@.len() == i,
                forall|j: int| 0 <= j < i ==> r@[j]@ == self.recs()[j],
            decreases self.records.len() - i,
        {
            let d = self.records[i].duplicate();
            r.push(d);
            i = i + 1;
        }
        proof {
            assert forall|j: int| 0 <= j < r.deep_view().len() implies r.deep_view()[j]
                == self.recs()[j] by {
                assert(r.deep_view()[j] == r@[j]@);
            }
            assert(r.deep_view() =~= self.recs());
        }
        r
    }

    /// Reads one record by its remote identifier.
    pub fn get_file(&self, id: &DropboxId) -> (r: Option<FileRecord>)
        ensures
            match r {
                Some(rec) => find_rec(self.recs(), id@) != -1 && rec@ == self.recs()[find_rec(
                    self.recs(),
                    id@,
                )],
                None => find_rec(self.recs(), id@) == -1,
            },
    {
        match self.find_index(id) {
            Some(i) => Some(self.records[i].duplicate()),
            None => None,
        }
    }

    /// Reads the scanner's batch: the `Pending` records, most recently
    /// updated first, at most `limit` of them.  Purely read-only.
    pub fn get_pending_files(&self, limit: usize) -> (r: Vec<FileRecord>)
        requires
            self.wf(),
        ensures
            r.deep_view() == scan_batch(self.recs(), limit as int),
    {
        proof {
            lemma_pending_of(self.recs());
        }
        let mut rem: Vec<FileRecord> = Vec::new();
        let mut i: usize = 0;
        while i < self.records.len()
            invariant
                i <= self.records.len(),
                self.recs().len() == self.records@.len(),
                forall|j: int| 0 <= j < self.records@.len() ==> self.recs()[j] == self.records@[j]@,
                rem.deep_view() == pending_of(self.recs().take(i as int)),
            decreases self.records.len() - i,
        {
            proof {
                assert(self.recs().take(i + 1).drop_last() =~= self.recs().take(i as int));
                assert(self.recs().take(i + 1).last() == self.recs()[i as int]);
            }
            if matches!(self.records[i].status, FileStatus::Pending) {
                let d = self.records[i].duplicate();
                rem.push(d);
                proof {
                    assert(rem.deep_view() =~= pending_of(self.recs().take(i + 1)));
                }
            } else {
                proof {
                    assert(rem.deep_view() =~= pending_of(self.recs().take(i + 1)));
                }
            }
            i = i + 1;
        }
        proof {
            assert(self.recs().take(self.recs().len() as int) =~= self.recs());
        }
        let ghost all_pending = pending_of(self.recs());
        let mut out: Vec<FileRecord> = Vec::new();
        while out.len() < limit && rem.len() > 0
            invariant
                out@.len() <= limit,
                out.deep_view() + sorted_desc(rem.deep_view()) == sorted_desc(all_pending),
                forall|i2: int, j2: int|
                    0 <= i2 < j2 < rem.deep_view().len() ==> rem.deep_view()[i2].updated_at
                        != rem.deep_view()[j2].updated_at,
            decreases rem.len(),
        {
            let ghost v = rem.deep_view();
            proof {
                lemma_max_stamp_idx(v);
            }
            let mut bi: usize = 0;
            let mut j: usize = 1;
            while j < rem.len()
                invariant
                    v == rem.deep_view(),
                    v.len() == rem@.len(),
                    forall|k: int| 0 <= k < rem@.len() ==> v[k] == rem@[k]@,
                    bi < rem@.len(),
                    j <= rem@.len(),
                    forall|k: int| 0 <= k < j ==> v[k].updated_at <= v[bi as int].updated_at,
                decreases rem.len() - j,
            {
                if rem[j].updated_at > rem[bi].updated_at {
                    bi = j;
                }
                j = j + 1;
            }
            proof {
                let m = max_stamp_idx(v);
                if m != bi {
                    assert(v[m].updated_at <= v[bi as int].updated_at);
                    assert(v[bi as int].updated_at <= v[m].updated_at);
                    assert(false);
                }
            }
            let picked = rem[bi].duplicate();
            out.push(picked);
            rem.remove(bi);
            proof {
                let m = max_stamp_idx(v);
                assert(rem.deep_view() =~= v.remove(m)) by {
                    assert forall|k: int|
                        0 <= k < rem.deep_view().len() implies rem.deep_view()[k] == v.remove(m)[k] by {
                        assert(rem.deep_view()[k] == rem@[k]@);
                    }
                }
                assert(out.deep_view() + sorted_desc(rem.deep_view()) =~= sorted_desc(all_pending));
                assert forall|i2: int, j2: int|
                    0 <= i2 < j2 < rem.deep_view().len() implies rem.deep_view()[i2].updated_at
                    != rem.deep_view()[j2].updated_at by {
                    let a = if i2 < m {
                        i2
                    } else {
                        i2 + 1
                    };
                    let b = if j2 < m {
                        j2
                    } else {
                        j2 + 1
                    };
                    assert(v.remove(m)[i2] == v[a]);
                    assert(v.remove(m)[j2] == v[b]);
                }
            }
        }
        proof {
            lemma_sorted_desc(rem.deep_view());
            lemma_sorted_desc(all_pending);
            if rem.len() == 0 {
                assert(sorted_desc(rem.deep_view()) =~= Seq::<RecordModel>::empty());
                assert(out.deep_view() =~= sorted_desc(all_pending));
                assert(out.deep_view() =~= scan_batch(self.recs(), limit as int));
            } else {
                assert(out@.len() == limit);
                assert(out.deep_view() =~= scan_batch(self.recs(), limit as int));
            }
        }
        out
    }

    /// Reads the records re-filed inside `folder`, ordered by title; used
    /// by index rendering.  Purely read-only.
    pub fn get_files_in_folder(&self, folder: &str) -> (r: Vec<FileRecord>)
        ensures
            r.deep_view() == sorted_by_title(folder_records(self.recs(), folder@)),
    {
        let mut rem: Vec<FileRecord> = Vec::new();
        let mut i: usize = 0;
        while i < self.records.len()
            invariant
                i <= self.records.len(),
                self.recs().len() == self.records@.len(),
                forall|j: int| 0 <= j < self.records@.len() ==> self.recs()[j] == self.records@[j]@,
                rem.deep_view() == folder_records(self.recs().take(i as int), folder@),
            decreases self.records.len() - i,
        {
            proof {
                assert(self.recs().take(i + 1).drop_last() =~= self.recs().take(i as int));
                assert(self.recs().take(i + 1).last() == self.recs()[i as int]);
            }
            if record_in_folder(&self.records[i], folder) {
                let d = self.records[i].duplicate();
                rem.push(d);
                proof {
                    assert(rem.deep_view() =~= folder_records(self.recs().take(i + 1), folder@));
                }
            } else {
                proof {
                    assert(rem.deep_view() =~= folder_records(self.recs().take(i + 1), folder@));
                }
            }
            i = i + 1;
        }
        proof {
            assert(self.recs().take(self.recs().len() as int) =~= self.recs());
        }
        let ghost selected = folder_records(self.recs(), folder@);
        let mut out: Vec<FileRecord> = Vec::new();
        while rem.len() > 0
            invariant
                out.deep_view() + sorted_by_title(rem.deep_view()) == sorted_by_title(selected),
            decreases rem.len(),
        {
            let ghost v = rem.deep_view();
            proof {
                lemma_min_title_idx(v);
                lemma_lex_refl(title_key(v[0]));
            }
            let mut bi: usize = 0;
            let mut j: usize = 1;
            while j < rem.len()
                invariant
                    v == rem.deep_view(),
                    v.len() == rem@.len(),
                    rem@.len() > 0,
                    forall|k: int| 0 <= k < rem@.len() ==> v[k] == rem@[k]@,
                    bi < rem@.len(),
                    j <= rem@.len(),
                    forall|k: int| 0 <= k < j ==> lex_le(title_key(v[bi as int]), title_key(v[k])),
                    forall|k: int|
                        0 <= k < bi ==> !lex_le(title_key(v[k]), title_key(v[bi as int])),
                decreases rem.len() - j,
            {
                let kb = title_key_of(&rem[bi]);
                let kj = title_key_of(&rem[j]);
                if !str_le(kb, kj) {
                    proof {
                        lemma_lex_total(title_key(v[bi as int]), title_key(v[j as int]));
                        assert forall|k: int|
                            0 <= k < j + 1 implies lex_le(
                            title_key(v[j as int]),
                            title_key(v[k]),
                        ) by {
                            if k < j {
                                lemma_lex_trans(
                                    title_key(v[j as int]),
                                    title_key(v[bi as int]),
                                    title_key(v[k]),
                                );
                            } else if k == j {
                                lemma_lex_refl(title_key(v[j as int]));
                            }
                        }
                        assert forall|k: int|
                            0 <= k < j implies !lex_le(
                            title_key(v[k]),
                            title_key(v[j as int]),
                        ) by {
                            if lex_le(title_key(v[k]), title_key(v[j as int])) {
                                lemma_lex_trans(
                                    title_key(v[bi as int]),
                                    title_key(v[k]),
                                    title_key(v[j as int]),
                                );
                            }
                        }
                    }
                    bi = j;
                }
                j = j + 1;
            }
            proof {
                let m = min_title_idx(v);
                lemma_min_title_idx(v);
                if m < bi {
                    assert(lex_le(title_key(v[m]), title_key(v[bi as int])));
                    assert(!lex_le(title_key(v[m]), title_key(v[bi as int])));
                } else if m > bi {
                    assert(lex_le(title_key(v[bi as int]), title_key(v[m])));
                    assert(!lex_le(title_key(v[bi as int]), title_key(v[m])));
                }
            }
            let picked = rem[bi].duplicate();
            out.push(picked);
            rem.remove(bi);
            proof {
                let m = min_title_idx(v);
                assert(rem.deep_view() =~= v.remove(m)) by {
                    assert forall|k: int|
                        0 <= k < rem.deep_view().len() implies rem.deep_view()[k] == v.remove(
                        m,
                    )[k] by {
                        assert(rem.deep_view()[k] == rem@[k]@);
                    }
                }
                assert(out.deep_view() + sorted_by_title(rem.deep_view()) =~= sorted_by_title(
                    selected,
                ));
            }
        }
        proof {
            assert(sorted_by_title(rem.deep_view()) =~= Seq::<RecordModel>::empty());
            assert(out.deep_view() =~= sorted_by_title(selected));
        }
        out
    }

    /// Reconciles one freshly listed remote file into the store (§ change
    /// detection): inserts a `Pending` record on first sighting, refreshes
    /// name and timestamp when the hash is unchanged, and resets the status
    /// to `Pending` when the hash differs — the only way a terminal record
    /// re-enters the backlog.
    pub fn upsert_file(&mut self, id: &DropboxId, name: &str, hash: &FileHash)
        requires
            old(self).wf(),
            old(self).clock() < u64::MAX,
        ensures
            final(self).wf(),
            final(self).clock() == old(self).clock() + 1,
            final(self).recs() == upsert_step(
                old(self).recs(),
                id@,
                name@,
                hash@,
                (old(self).clock() + 1) as u64,
            ),
    {
        let ghost old_recs = self.recs();
        let stamp = self.clock + 1;
        self.clock = stamp;
        match self.find_index(id) {
            Some(i) => {
                let mut r = self.records.remove(i);
                let same = str_eq(r.content_hash.0.as_str(), hash.0.as_str());
                r.file_name = Some(String::from_str(name));
                r.updated_at = stamp;
                if !same {
                    r.content_hash = FileHash(String::from_str(hash.0.as_str()));
                    r.status = FileStatus::Pending;
                    r.last_error = None;
                }
                proof {
                    assert(r@ == reconciled(old_recs[i as int], name@, hash@, stamp));
                }
                self.records.insert(i, r);
                proof {
                    assert forall|j: int|
                        0 <= j < self.recs().len() implies self.recs()[j] == upsert_step(
                        old_recs,
                        id@,
                        name@,
                        hash@,
                        stamp,
                    )[j] by {
                        assert(self.recs()[j] == self.records@[j]@);
                    }
                    assert(self.recs() =~= upsert_step(old_recs, id@, name@, hash@, stamp));
                    lemma_find_rec(old_recs, id@);
                }
            },
            None => {
                let r = FileRecord {
                    dropbox_id: id.duplicate(),
                    file_name: Some(String::from_str(name)),
                    content_hash: hash.duplicate(),
                    status: FileStatus::Pending,
                    title: None,
                    authors: None,
                    summary: None,
                    target_paths: None,
                    last_error: None,
                    updated_at: stamp,
                };
                proof {
                    assert(r@ == fresh_record(id@, name@, hash@, stamp));
                }
                self.records.push(r);
                proof {
                    assert forall|j: int|
                        0 <= j < self.recs().len() implies self.recs()[j] == upsert_step(
                        old_recs,
                        id@,
                        name@,
                        hash@,
                        stamp,
                    )[j] by {
                        assert(self.recs()[j] == self.records@[j]@);
                    }
                    assert(self.recs() =~= upsert_step(old_recs, id@, name@, hash@, stamp));
                    lemma_find_rec(old_recs, id@);
                }
            },
        }
    }

    /// Overwrites the status of the record holding `id`, refreshing its
    /// timestamp; error text survives only while the record stays in
    /// `Error`.  A missing record leaves the store untouched.
    pub fn update_status(&mut self, id: &DropboxId, status: FileStatus)
        requires
            old(self).wf(),
            old(self).clock() < u64::MAX,
        ensures
            final(self).wf(),
            final(self).clock() == old(self).clock() + 1,
            final(self).recs() == set_status_step(
                old(self).recs(),
                id@,
                status,
                (old(self).clock() + 1) as u64,
            ),
    {
        let ghost old_recs = self.recs();
        let stamp = self.clock + 1;
        self.clock = stamp;
        match self.find_index(id) {
            Some(i) => {
                let mut r = self.records.remove(i);
                r.status = status;
                if !matches!(status, FileStatus::Error) {
                    r.last_error = None;
                }
                r.updated_at = stamp;
                self.records.insert(i, r);
                proof {
                    assert forall|j: int|
                        0 <= j < self.recs().len() implies self.recs()[j] == set_status_step(
                        old_recs,
                        id@,
                        status,
                        stamp,
                    )[j] by {
                        assert(self.recs()[j] == self.records@[j]@);
                    }
                    assert(self.recs() =~= set_status_step(old_recs, id@, status, stamp));
                    lemma_find_rec(old_recs, id@);
                }
            },
            None => {
                proof {
                    assert(self.recs() =~= set_status_step(old_recs, id@, status, stamp));
                }
            },
        }
    }

    /// The collector's single store mutation for one job result: a success
    /// marks the record `Processed` and files the extracted metadata and the
    /// targets written; a failure marks it `Error`, records the cause and
    /// withdraws any stale claim of written targets.
    pub fn apply_result(&mut self, result: &JobResult)
        requires
            old(self).wf(),
            old(self).clock() < u64::MAX,
        ensures
            final(self).wf(),
            final(self).clock() == old(self).clock() + 1,
            final(self).recs() == apply_step(
                old(self).recs(),
                result@,
                (old(self).clock() + 1) as u64,
            ),
    {
        let ghost old_recs = self.recs();
        let stamp = self.clock + 1;
        self.clock = stamp;
        let rid = match result {
            JobResult::Success { id, .. } => id,
            JobResult::Failure { id, .. } => id,
        };
        match self.find_index(rid) {
            Some(i) => {
                let mut r = self.records.remove(i);
                match result {
                    JobResult::Success { meta, target_paths, .. } => {
                        r.status = FileStatus::Processed;
                        r.title = Some(meta.title.clone());
                        r.authors = Some(crate::models::dup_strings(&meta.authors));
                        r.summary = Some(meta.summary.0.clone());
                        r.target_paths = Some(crate::models::dup_remote_paths(target_paths));
                        r.last_error = None;
                    },
                    JobResult::Failure { error, .. } => {
                        r.status = FileStatus::Error;
                        r.target_paths = None;
                        r.last_error = Some(error.clone());
                    },
                }
                r.updated_at = stamp;
                proof {
                    assert(r@ == applied(old_recs[i as int], result@, stamp));
                }
                self.records.insert(i, r);
                proof {
                    assert forall|j: int|
                        0 <= j < self.recs().len() implies self.recs()[j] == apply_step(
                        old_recs,
                        result@,
                        stamp,
                    )[j] by {
                        assert(self.recs()[j] == self.records@[j]@);
                    }
                    assert(self.recs() =~= apply_step(old_recs, result@, stamp));
                    lemma_find_rec(old_recs, result@.id());
                }
            },
            None => {
                proof {
                    assert(self.recs() =~= apply_step(old_recs, result@, stamp));
                }
            },
        }
    }
}

} // verus!
