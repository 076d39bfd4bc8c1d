//! The change-detection synchroniser: reconciling a whole remote listing
//! into the record store, and the laws that make re-running it safe.

use vstd::prelude::*;

use crate::clients::{DropboxEntry, EntryModel};
use crate::models::RecordModel;
use crate::storage::{
    find_rec, fresh_record, lemma_find_rec, lemma_find_rec_same_ids, reconciled, upsert_step,
    Storage,
};

verus! {

/// The store contents after a whole listing is reconciled, entry by entry,
/// each upsert stamping with the next clock value.
pub open spec fn sync_fold(
    recs: Seq<RecordModel>,
    clock: u64,
    entries: Seq<EntryModel>,
) -> Seq<RecordModel>
    decreases entries.len(),
{
    if entries.len() == 0 {
        recs
    } else {
        let e = entries[0];
        sync_fold(
            upsert_step(recs, e.id, e.name, e.hash, (clock + 1) as u64),
            (clock + 1) as u64,
            entries.drop_first(),
        )
    }
}

/// Folding one more entry at the end is one more upsert.
pub proof fn lemma_sync_fold_snoc(
    recs: Seq<RecordModel>,
    clock: u64,
    entries: Seq<EntryModel>,
    e: EntryModel,
)
    requires
        clock + entries.len() + 1 <= u64::MAX,
    ensures
        sync_fold(recs, clock, entries.push(e)) == upsert_step(
            sync_fold(recs, clock, entries),
            e.id,
            e.name,
            e.hash,
            (clock + entries.len() + 1) as u64,
        ),
    decreases entries.len(),
{
    if entries.len() == 0 {
        assert(entries.push(e)[0] == e);
        assert(entries.push(e).drop_first() =~= Seq::<EntryModel>::empty());
        let stepped = upsert_step(recs, e.id, e.name, e.hash, (clock + 1) as u64);
        assert(sync_fold(recs, clock, entries.push(e)) == sync_fold(
            stepped,
            (clock + 1) as u64,
            Seq::<EntryModel>::empty(),
        ));
        assert(sync_fold(stepped, (clock + 1) as u64, Seq::<EntryModel>::empty()) == stepped);
        assert(sync_fold(recs, clock, entries) == recs);
    } else {
        let first = entries[0];
        assert(entries.push(e)[0] == first);
        assert(entries.push(e).drop_first() =~= entries.drop_first().push(e));
        let stepped = upsert_step(recs, first.id, first.name, first.hash, (clock + 1) as u64);
        assert(sync_fold(recs, clock, entries.push(e)) == sync_fold(
            stepped,
            (clock + 1) as u64,
            entries.drop_first().push(e),
        ));
        lemma_sync_fold_snoc(stepped, (clock + 1) as u64, entries.drop_first(), e);
        assert(sync_fold(recs, clock, entries) == sync_fold(
            stepped,
            (clock + 1) as u64,
            entries.drop_first(),
        ));
    }
}

/// Appending a record moves no earlier search and finds the new record
/// only where nothing earlier held its identifier.
pub proof fn lemma_find_rec_push(recs: Seq<RecordModel>, r: RecordModel, id: Seq<char>)
    ensures
        find_rec(recs.push(r), id) == if find_rec(recs, id) != -1 {
            find_rec(recs, id)
        } else if r.id == id {
            recs.len() as int
        } else {
            -1
        },
    decreases recs.len(),
{
    if recs.len() == 0 {
        assert(recs.push(r)[0] == r);
        if r.id != id {
            assert(recs.push(r).drop_first() =~= Seq::<RecordModel>::empty());
            assert(find_rec(recs.push(r).drop_first(), id) == -1);
            assert(find_rec(recs.push(r), id) == -1);
        } else {
            assert(find_rec(recs, id) == -1);
            assert(find_rec(recs.push(r), id) == 0);
        }
    } else {
        assert(recs.push(r)[0] == recs[0]);
        if recs[0].id == id {
            assert(find_rec(recs, id) == 0);
            assert(find_rec(recs.push(r), id) == 0);
        }
        if recs[0].id != id {
            let rest = recs.drop_first();
            assert(recs.push(r).drop_first() =~= rest.push(r));
            lemma_find_rec(rest, id);
            lemma_find_rec(rest.push(r), id);
            lemma_find_rec_push(rest, r, id);
            assert(find_rec(recs.push(r), id) == (if find_rec(rest.push(r), id) == -1 {
                -1int
            } else {
                find_rec(rest.push(r), id) + 1
            }));
            assert(find_rec(recs, id) == (if find_rec(rest, id) == -1 {
                -1int
            } else {
                find_rec(rest, id) + 1
            }));
        }
    }
}

/// The store knows the entry: a record holds its identifier, and carries
/// exactly the entry's hash and name.
pub open spec fn registered(recs: Seq<RecordModel>, e: EntryModel) -> bool {
    let i = find_rec(recs, e.id);
    &&& i != -1
    &&& recs[i].hash == e.hash
    &&& recs[i].name == Some(e.name)
}

/// One upsert registers its own entry.
pub proof fn lemma_upsert_registers(
    recs: Seq<RecordModel>,
    e: EntryModel,
    stamp: u64,
)
    ensures
        registered(upsert_step(recs, e.id, e.name, e.hash, stamp), e),
{
    lemma_find_rec(recs, e.id);
    let i = find_rec(recs, e.id);
    let out = upsert_step(recs, e.id, e.name, e.hash, stamp);
    if i == -1 {
        lemma_find_rec_push(recs, fresh_record(e.id, e.name, e.hash, stamp), e.id);
        assert(out[recs.len() as int] == fresh_record(e.id, e.name, e.hash, stamp));
    } else {
        assert forall|j: int| 0 <= j < out.len() implies out[j].id == recs[j].id by {}
        lemma_find_rec_same_ids(out, recs, e.id);
        assert(out[i] == reconciled(recs[i], e.name, e.hash, stamp));
    }
}

/// An upsert of a different identifier leaves an entry's registration as it
/// was.
pub proof fn lemma_upsert_preserves_registered(
    recs: Seq<RecordModel>,
    e: EntryModel,
    id: Seq<char>,
    name: Seq<char>,
    hash: Seq<char>,
    stamp: u64,
)
    requires
        registered(recs, e),
        id != e.id,
    ensures
        registered(upsert_step(recs, id, name, hash, stamp), e),
{
    lemma_find_rec(recs, id);
    lemma_find_rec(recs, e.id);
    let i = find_rec(recs, id);
    let ie = find_rec(recs, e.id);
    let out = upsert_step(recs, id, name, hash, stamp);
    if i == -1 {
        lemma_find_rec_push(recs, fresh_record(id, name, hash, stamp), e.id);
        assert(out[ie] == recs[ie]);
    } else {
        assert(recs[i].id == id);
        assert(recs[ie].id == e.id);
        assert(i != ie);
        assert forall|j: int| 0 <= j < out.len() implies out[j].id == recs[j].id by {}
        lemma_find_rec_same_ids(out, recs, e.id);
        assert(out[ie] == recs[ie]);
    }
}

/// A whole fold of upserts with other identifiers leaves an entry's
/// registration as it was.
pub proof fn lemma_fold_preserves_registered(
    recs: Seq<RecordModel>,
    clock: u64,
    entries: Seq<EntryModel>,
    e: EntryModel,
)
    requires
        registered(recs, e),
        forall|j: int| 0 <= j < entries.len() ==> (#[trigger] entries[j]).id != e.id,
    ensures
        registered(sync_fold(recs, clock, entries), e),
    decreases entries.len(),
{
    if entries.len() > 0 {
        let first = entries[0];
        lemma_upsert_preserves_registered(recs, e, first.id, first.name, first.hash, (clock
            + 1) as u64);
        let stepped = upsert_step(recs, first.id, first.name, first.hash, (clock + 1) as u64);
        assert forall|j: int|
            0 <= j < entries.drop_first().len() implies (#[trigger] entries.drop_first()[j]).id
            != e.id by {
            assert(entries.drop_first()[j] == entries[j + 1]);
        }
        lemma_fold_preserves_registered(stepped, (clock + 1) as u64, entries.drop_first(), e);
    }
}

/// After a listing is reconciled once, every listed entry is registered.
pub proof fn lemma_sync_registers(recs: Seq<RecordModel>, clock: u64, entries: Seq<EntryModel>)
    requires
        forall|i: int, j: int| 0 <= i < j < entries.len() ==> entries[i].id != entries[j].id,
    ensures
        forall|j: int|
            0 <= j < entries.len() ==> registered(
                sync_fold(recs, clock, entries),
                #[trigger] entries[j],
            ),
    decreases entries.len(),
{
    if entries.len() > 0 {
        let first = entries[0];
        let stepped = upsert_step(recs, first.id, first.name, first.hash, (clock + 1) as u64);
        lemma_upsert_registers(recs, first, (clock + 1) as u64);
        assert forall|i: int, j: int|
            0 <= i < j < entries.drop_first().len() implies entries.drop_first()[i].id
            != entries.drop_first()[j].id by {
            assert(entries.drop_first()[i] == entries[i + 1]);
            assert(entries.drop_first()[j] == entries[j + 1]);
        }
        lemma_sync_registers(stepped, (clock + 1) as u64, entries.drop_first());
        assert forall|j: int|
            0 <= j < entries.drop_first().len() implies (#[trigger] entries.drop_first()[j]).id
            != first.id by {
            assert(entries.drop_first()[j] == entries[j + 1]);
        }
        lemma_fold_preserves_registered(stepped, (clock + 1) as u64, entries.drop_first(), first);
        assert forall|j: int|
            0 <= j < entries.len() implies registered(
            sync_fold(recs, clock, entries),
            #[trigger] entries[j],
        ) by {
            if j > 0 {
                assert(entries[j] == entries.drop_first()[j - 1]);
            }
        }
    }
}

/// Two stores agree on everything but their timestamps.
pub open spec fn same_stable(a: Seq<RecordModel>, b: Seq<RecordModel>) -> bool {
    &&& a.len() == b.len()
    &&& forall|i: int| 0 <= i < a.len() ==> (#[trigger] a[i]).stable_part() == b[i].stable_part()
}

/// Upserting an entry that `once` already registers keeps a store stably
/// equal to `once`: only a timestamp moves.
pub proof fn lemma_upsert_stable(
    cur: Seq<RecordModel>,
    once: Seq<RecordModel>,
    e: EntryModel,
    stamp: u64,
)
    requires
        same_stable(cur, once),
        registered(once, e),
    ensures
        same_stable(upsert_step(cur, e.id, e.name, e.hash, stamp), once),
{
    assert forall|i: int| 0 <= i < cur.len() implies cur[i].id == once[i].id by {
        assert(cur[i].stable_part() == once[i].stable_part());
    }
    lemma_find_rec_same_ids(cur, once, e.id);
    lemma_find_rec(once, e.id);
    let i = find_rec(once, e.id);
    assert(cur[i].stable_part() == once[i].stable_part());
    assert(cur[i].hash == e.hash);
    assert(cur[i].name == Some(e.name));
    let out = upsert_step(cur, e.id, e.name, e.hash, stamp);
    assert(out[i] == reconciled(cur[i], e.name, e.hash, stamp));
    assert(out[i].stable_part() == cur[i].stable_part());
    assert forall|k: int|
        0 <= k < out.len() implies (#[trigger] out[k]).stable_part() == once[k].stable_part() by {
        if k != i {
            assert(out[k] == cur[k]);
        }
    }
}

/// A whole second fold over registered entries keeps the store stably
/// equal: re-running the synchroniser moves only timestamps.
pub proof fn lemma_fold_stable(
    cur: Seq<RecordModel>,
    clock: u64,
    entries: Seq<EntryModel>,
    once: Seq<RecordModel>,
)
    requires
        same_stable(cur, once),
        forall|j: int| 0 <= j < entries.len() ==> registered(once, #[trigger] entries[j]),
    ensures
        same_stable(sync_fold(cur, clock, entries), once),
    decreases entries.len(),
{
    if entries.len() > 0 {
        let first = entries[0];
        lemma_upsert_stable(cur, once, first, (clock + 1) as u64);
        let stepped = upsert_step(cur, first.id, first.name, first.hash, (clock + 1) as u64);
        assert forall|j: int|
            0 <= j < entries.drop_first().len() implies registered(
            once,
            #[trigger] entries.drop_first()[j],
        ) by {
            assert(entries.drop_first()[j] == entries[j + 1]);
        }
        lemma_fold_stable(stepped, (clock + 1) as u64, entries.drop_first(), once);
    }
}

/// Idempotent synchronisation: reconciling the same unchanged listing a
/// second time disturbs no record — every field but the timestamp, the
/// status above all, stays exactly as the first reconciliation left it.
pub proof fn lemma_sync_idempotent(
    recs: Seq<RecordModel>,
    clock: u64,
    clock2: u64,
    entries: Seq<EntryModel>,
)
    requires
        forall|i: int, j: int| 0 <= i < j < entries.len() ==> entries[i].id != entries[j].id,
    ensures
        same_stable(
            sync_fold(sync_fold(recs, clock, entries), clock2, entries),
            sync_fold(recs, clock, entries),
        ),
{
    let once = sync_fold(recs, clock, entries);
    lemma_sync_registers(recs, clock, entries);
    lemma_fold_stable(once, clock2, entries, once);
}

/// Hash-change reprocessing: a record whose remote hash differs — however
/// terminal its status — is forced back to `Pending` by the next upsert of
/// its entry, and so re-enters the backlog.
pub proof fn lemma_hash_change_resets(recs: Seq<RecordModel>, e: EntryModel, stamp: u64)
    requires
        find_rec(recs, e.id) != -1,
        recs[find_rec(recs, e.id)].hash != e.hash,
    ensures
        ({
            let out = upsert_step(recs, e.id, e.name, e.hash, stamp);
            &&& out[find_rec(recs, e.id)].status is Pending
            &&& out[find_rec(recs, e.id)].hash == e.hash
        }),
{
    lemma_find_rec(recs, e.id);
}

/// Unchanged-hash stability: an upsert whose hash matches the record leaves
/// status, metadata and error text untouched — only name and timestamp are
/// refreshed.
pub proof fn lemma_unchanged_hash_keeps_status(recs: Seq<RecordModel>, e: EntryModel, stamp: u64)
    requires
        find_rec(recs, e.id) != -1,
        recs[find_rec(recs, e.id)].hash == e.hash,
    ensures
        ({
            let i = find_rec(recs, e.id);
            let out = upsert_step(recs, e.id, e.name, e.hash, stamp);
            &&& out[i].status == recs[i].status
            &&& out[i].title == recs[i].title
            &&& out[i].authors == recs[i].authors
            &&& out[i].summary == recs[i].summary
            &&& out[i].target_paths == recs[i].target_paths
            &&& out[i].last_error == recs[i].last_error
        }),
{
    lemma_find_rec(recs, e.id);
}

/// Reconciles a freshly listed remote backlog into the store, entry by
/// entry (§ change detection): new files get `Pending` records, unchanged
/// files keep their status, changed files are forced back to `Pending`.
pub fn sync_listing(storage: &mut Storage, entries: &Vec<DropboxEntry>)
    requires
        old(storage).wf(),
        old(storage).clock() + entries@.len() <= u64::MAX,
    ensures
        final(storage).wf(),
        final(storage).clock() == old(storage).clock() + entries@.len(),
        final(storage).recs() == sync_fold(
            old(storage).recs(),
            old(storage).clock(),
            entries.deep_view(),
        ),
{
    let mut i: usize = 0;
    while i < entries.len()
        invariant
            i <= entries@.len(),
            entries.deep_view().len() == entries@.len(),
            forall|j: int| 0 <= j < entries@.len() ==> entries.deep_view()[j] == entries@[j]@,
            storage.wf(),
            old(storage).clock() + entries@.len() <= u64::MAX,
            storage.clock() == old(storage).clock() + i,
            storage.recs() == sync_fold(
                old(storage).recs(),
                old(storage).clock(),
                entries.deep_view().take(i as int),
            ),
        decreases entries.len() - i,
    {
        let entry = &entries[i];
        storage.upsert_file(&entry.id, entry.name.as_str(), &entry.content_hash);
        proof {
            let es = entries.deep_view();
            assert(es.take(i + 1) =~= es.take(i as int).push(es[i as int]));
            lemma_sync_fold_snoc(
                old(storage).recs(),
                old(storage).clock(),
                es.take(i as int),
                es[i as int],
            );
        }
        i = i + 1;
    }
    proof {
        assert(entries.deep_view().take(entries@.len() as int) =~= entries.deep_view());
    }
}

} // verus!
