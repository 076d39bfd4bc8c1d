//! The concurrent batch-processing pipeline's core: the per-job execution
//! sequence (fetch, persist, extract, classify, publish) and the batch
//! runner that scans pending records, dispatches jobs and applies exactly
//! one status transition per result.

use vstd::prelude::*;

use crate::clients::{DropboxClient, LlmClient, LocalStore};
use crate::extract::extract_text;
use crate::models::{
    ArticleMetadata, DropboxId, Job, JobResult, LocalPath, MetaModel, RecordModel, RemotePath,
    ResultModel, Rule, RuleModel, Rules, WorkDirectory,
};
use crate::pool::Dispatcher;
use crate::storage::{
    find_rec, lemma_find_rec, lemma_find_rec_same_ids, lemma_scan_batch, pending_of, scan_batch,
    Storage,
};
use crate::text::{join_with, sanitize_text, sanitized, join_strings};

verus! {

/// The deterministic local name of a working copy: the sanitised remote
/// identifier, as a document file under the work directory's raw area.
pub open spec fn raw_copy_path(work_dir: Seq<char>, id: Seq<char>) -> Seq<char> {
    work_dir + "/raw/"@ + sanitized(id) + ".pdf"@
}

/// Builds the working-copy path for one remote identifier.
pub fn raw_copy_path_of(work_dir: &WorkDirectory, id: &DropboxId) -> (r: LocalPath)
    ensures
        r@ == raw_copy_path(work_dir@, id@),
{
    let mut s = work_dir.0.clone();
    s.append("/raw/");
    let san = sanitize_text(id.0.as_str());
    s.append(san.as_str());
    s.append(".pdf");
    LocalPath(s)
}

/// The remote path one matched rule re-files a document to: the rule's
/// target folder plus the document's display name.
pub open spec fn target_file_path(rule_path: Seq<char>, name: Option<Seq<char>>) -> Seq<char> {
    rule_path + "/"@ + match name {
        Some(n) => n,
        None => "unknown"@,
    }
}

/// Builds the re-filing path for one matched rule.
pub fn target_file_path_of(path: &RemotePath, file_name: &Option<String>) -> (r: RemotePath)
    ensures
        r@ == target_file_path(path@, file_name.deep_view()),
{
    let mut s = path.0.clone();
    s.append("/");
    match file_name {
        Some(n) => s.append(n.as_str()),
        None => s.append("unknown"),
    }
    RemotePath(s)
}

/// The deterministic sibling path of a target's sidecar document.
pub open spec fn sidecar_path(target: Seq<char>) -> Seq<char> {
    target + ".md"@
}

/// Builds the sidecar path for one target.
pub fn sidecar_path_of(target: &RemotePath) -> (r: RemotePath)
    ensures
        r@ == sidecar_path(target@),
{
    let mut s = target.0.clone();
    s.append(".md");
    RemotePath(s)
}

/// The rendered sidecar document: title, authors, summary and abstract of
/// the classification result.
pub open spec fn sidecar_text(meta: MetaModel) -> Seq<char> {
    "# "@ + meta.title + "\n\n## Authors\n"@ + join_with(meta.authors, ", "@)
        + "\n\n## Summary\n"@ + meta.summary + "\n\n## Abstract\n"@ + meta.abstract_text + "\n"@
}

/// Renders the sidecar document for one classification result.
pub fn render_sidecar(meta: &ArticleMetadata) -> (r: String)
    ensures
        r@ == sidecar_text(meta@),
{
    let mut s = String::from_str("# ");
    s.append(meta.title.as_str());
    s.append("\n\n## Authors\n");
    let authors = join_strings(&meta.authors, ", ");
    s.append(authors.as_str());
    s.append("\n\n## Summary\n");
    s.append(meta.summary.0.as_str());
    s.append("\n\n## Abstract\n");
    s.append(meta.abstract_text.as_str());
    s.append("\n");
    proof {
        assert(s@ =~= sidecar_text(meta@));
    }
    s
}

/// The remote store's contents after a job's publish step: for each target
/// in turn, the original bytes at the target path and the sidecar bytes at
/// the sidecar path.
pub open spec fn publish_fold(
    files: Map<Seq<char>, Seq<u8>>,
    targets: Seq<Seq<char>>,
    content: Seq<u8>,
    sidecar: Seq<u8>,
) -> Map<Seq<char>, Seq<u8>>
    decreases targets.len(),
{
    if targets.len() == 0 {
        files
    } else {
        publish_fold(
            files.insert(targets[0], content).insert(sidecar_path(targets[0]), sidecar),
            targets.drop_first(),
            content,
            sidecar,
        )
    }
}

/// Publishing one more target is two more uploads.
pub proof fn lemma_publish_fold_snoc(
    files: Map<Seq<char>, Seq<u8>>,
    targets: Seq<Seq<char>>,
    t: Seq<char>,
    content: Seq<u8>,
    sidecar: Seq<u8>,
)
    ensures
        publish_fold(files, targets.push(t), content, sidecar) == publish_fold(
            files,
            targets,
            content,
            sidecar,
        ).insert(t, content).insert(sidecar_path(t), sidecar),
    decreases targets.len(),
{
    if targets.len() == 0 {
        assert(targets.push(t)[0] == t);
        assert(targets.push(t).drop_first() =~= Seq::<Seq<char>>::empty());
        let stepped = files.insert(t, content).insert(sidecar_path(t), sidecar);
        assert(publish_fold(files, targets.push(t), content, sidecar) == publish_fold(
            stepped,
            Seq::<Seq<char>>::empty(),
            content,
            sidecar,
        ));
        assert(publish_fold(stepped, Seq::<Seq<char>>::empty(), content, sidecar) == stepped);
        assert(publish_fold(files, targets, content, sidecar) == files);
    } else {
        let first = targets[0];
        assert(targets.push(t)[0] == first);
        assert(targets.push(t).drop_first() =~= targets.drop_first().push(t));
        let stepped = files.insert(first, content).insert(sidecar_path(first), sidecar);
        assert(publish_fold(files, targets.push(t), content, sidecar) == publish_fold(
            stepped,
            targets.drop_first().push(t),
            content,
            sidecar,
        ));
        lemma_publish_fold_snoc(stepped, targets.drop_first(), t, content, sidecar);
        assert(publish_fold(files, targets, content, sidecar) == publish_fold(
            stepped,
            targets.drop_first(),
            content,
            sidecar,
        ));
    }
}

/// A key that no target and no sidecar path touches keeps its binding
/// through a whole publish.
pub proof fn lemma_publish_fold_frame(
    files: Map<Seq<char>, Seq<u8>>,
    targets: Seq<Seq<char>>,
    content: Seq<u8>,
    sidecar: Seq<u8>,
    key: Seq<char>,
)
    requires
        forall|k: int| 0 <= k < targets.len() ==> (#[trigger] targets[k]) != key,
        forall|k: int| 0 <= k < targets.len() ==> sidecar_path(#[trigger] targets[k]) != key,
    ensures
        publish_fold(files, targets, content, sidecar).contains_key(key) == files.contains_key(key),
        files.contains_key(key) ==> publish_fold(files, targets, content, sidecar)[key]
            == files[key],
    decreases targets.len(),
{
    if targets.len() > 0 {
        let stepped = files.insert(targets[0], content).insert(sidecar_path(targets[0]), sidecar);
        let rest = targets.drop_first();
        assert forall|k: int| 0 <= k < rest.len() implies (#[trigger] rest[k]) != key by {
            assert(rest[k] == targets[k + 1]);
        }
        assert forall|k: int| 0 <= k < rest.len() implies sidecar_path(#[trigger] rest[k]) != key by {
            assert(rest[k] == targets[k + 1]);
        }
        lemma_publish_fold_frame(stepped, rest, content, sidecar, key);
    }
}

/// The sidecar naming is injective: two distinct targets never share a
/// sidecar path.
pub proof fn lemma_sidecar_path_injective(a: Seq<char>, b: Seq<char>)
    requires
        sidecar_path(a) == sidecar_path(b),
    ensures
        a == b,
{
    assert(sidecar_path(a).len() == a.len() + ".md"@.len());
    assert(sidecar_path(b).len() == b.len() + ".md"@.len());
    assert(a.len() == b.len());
    assert(a =~= sidecar_path(a).subrange(0, a.len() as int));
    assert(b =~= sidecar_path(b).subrange(0, b.len() as int));
    assert(sidecar_path(a).subrange(0, a.len() as int) == sidecar_path(b).subrange(
        0,
        b.len() as int,
    ));
}

/// All-or-nothing publish, the success side: when the targets collide
/// neither with each other nor with each other's sidecar paths, a finished
/// publish holds every target's original bytes and every target's sidecar.
pub proof fn lemma_publish_fold_complete(
    files: Map<Seq<char>, Seq<u8>>,
    targets: Seq<Seq<char>>,
    content: Seq<u8>,
    sidecar: Seq<u8>,
)
    requires
        forall|k1: int, k2: int| 0 <= k1 < k2 < targets.len() ==> targets[k1] != targets[k2],
        forall|k1: int, k2: int|
            0 <= k1 < targets.len() && 0 <= k2 < targets.len() ==> (#[trigger] targets[k1])
                != sidecar_path(#[trigger] targets[k2]),
    ensures
        forall|k: int|
            0 <= k < targets.len() ==> {
                let out = publish_fold(files, targets, content, sidecar);
                &&& out.contains_key(#[trigger] targets[k])
                &&& out[targets[k]] == content
                &&& out.contains_key(sidecar_path(targets[k]))
                &&& out[sidecar_path(targets[k])] == sidecar
            },
    decreases targets.len(),
{
    if targets.len() > 0 {
        let t0 = targets[0];
        let stepped = files.insert(t0, content).insert(sidecar_path(t0), sidecar);
        let rest = targets.drop_first();
        assert forall|k1: int, k2: int|
            0 <= k1 < k2 < rest.len() implies rest[k1] != rest[k2] by {
            assert(rest[k1] == targets[k1 + 1]);
            assert(rest[k2] == targets[k2 + 1]);
        }
        assert forall|k1: int, k2: int|
            0 <= k1 < rest.len() && 0 <= k2 < rest.len() implies (#[trigger] rest[k1])
            != sidecar_path(#[trigger] rest[k2]) by {
            assert(rest[k1] == targets[k1 + 1]);
            assert(rest[k2] == targets[k2 + 1]);
        }
        lemma_publish_fold_complete(stepped, rest, content, sidecar);
        // The head's bindings survive the rest of the publish.
        assert forall|k: int| 0 <= k < rest.len() implies (#[trigger] rest[k]) != t0 by {
            assert(rest[k] == targets[k + 1]);
        }
        assert forall|k: int| 0 <= k < rest.len() implies sidecar_path(#[trigger] rest[k]) != t0 by {
            assert(rest[k] == targets[k + 1]);
        }
        lemma_publish_fold_frame(stepped, rest, content, sidecar, t0);
        assert forall|k: int| 0 <= k < rest.len() implies (#[trigger] rest[k]) != sidecar_path(
            t0,
        ) by {
            assert(rest[k] == targets[k + 1]);
        }
        assert forall|k: int|
            0 <= k < rest.len() implies sidecar_path(#[trigger] rest[k]) != sidecar_path(t0) by {
            assert(rest[k] == targets[k + 1]);
            if sidecar_path(rest[k]) == sidecar_path(t0) {
                lemma_sidecar_path_injective(rest[k], t0);
            }
        }
        lemma_publish_fold_frame(stepped, rest, content, sidecar, sidecar_path(t0));
        assert forall|k: int|
            0 <= k < targets.len() implies {
            let out = publish_fold(files, targets, content, sidecar);
            &&& out.contains_key(#[trigger] targets[k])
            &&& out[targets[k]] == content
            &&& out.contains_key(sidecar_path(targets[k]))
            &&& out[sidecar_path(targets[k])] == sidecar
        } by {
            if k > 0 {
                assert(targets[k] == rest[k - 1]);
            }
        }
    }
}

/// The re-filing paths one classification answer plans: each matched
/// rule's target folder joined with the document's display name, in rule
/// order.
pub open spec fn planned_targets(rules: Seq<RuleModel>, name: Option<Seq<char>>) -> Seq<Seq<char>> {
    rules.map_values(|r: RuleModel| target_file_path(r.path, name))
}

/// Names the target an upload failed for, ahead of the collaborator's own
/// message.
fn name_failing_target(target: &RemotePath, cause: &String) -> (r: String)
    ensures
        r@ == "upload to "@ + target@ + " failed: "@ + cause@,
{
    let mut msg = String::from_str("upload to ");
    msg.append(target.0.as_str());
    msg.append(" failed: ");
    msg.append(cause.as_str());
    msg
}

/// The publish step for one classification answer: for each matched rule,
/// in order, the original bytes to the planned target, then the sidecar
/// bytes beside it.  A success returns exactly the planned targets and has
/// written exactly their artifacts; any single failed upload aborts the
/// whole step, leaving the store at a prefix of the plan (possibly plus
/// the failing target's original) and claiming no target.
pub fn publish_to_targets<D: DropboxClient>(
    dropbox: &mut D,
    matched: &Vec<Rule>,
    file_name: &Option<String>,
    content: &Vec<u8>,
    sidecar_bytes: &Vec<u8>,
) -> (r: Result<Vec<RemotePath>, String>)
    ensures
        ({
            let plan = planned_targets(matched.deep_view(), file_name.deep_view());
            match r {
                Ok(tps) => {
                    &&& tps.deep_view() == plan
                    &&& final(dropbox).files() == publish_fold(
                        old(dropbox).files(),
                        plan,
                        content@,
                        sidecar_bytes@,
                    )
                },
                Err(e) => exists|k: int|
                    0 <= k < plan.len() && crate::text::starts_with_seq(
                        e@,
                        "upload to "@ + plan[k] + " failed: "@,
                    ) && {
                        let done = publish_fold(
                            old(dropbox).files(),
                            #[trigger] plan.take(k),
                            content@,
                            sidecar_bytes@,
                        );
                        ||| final(dropbox).files() == done
                        ||| final(dropbox).files() == done.insert(plan[k], content@)
                    },
            }
        }),
{
    let ghost files0 = dropbox.files();
    let ghost plan = planned_targets(matched.deep_view(), file_name.deep_view());
    let mut targets: Vec<RemotePath> = Vec::new();
    let mut t: usize = 0;
    while t < matched.len()
        invariant
            t <= matched@.len(),
            targets@.len() == t,
            files0 == old(dropbox).files(),
            plan == planned_targets(matched.deep_view(), file_name.deep_view()),
            plan.len() == matched@.len(),
            forall|j: int| 0 <= j < matched@.len() ==> matched.deep_view()[j] == matched@[j]@,
            targets.deep_view() == plan.take(t as int),
            dropbox.files() == publish_fold(files0, targets.deep_view(), content@, sidecar_bytes@),
        decreases matched.len() - t,
    {
        let ghost targets0 = targets.deep_view();
        let target = target_file_path_of(&matched[t].path, file_name);
        proof {
            assert(plan[t as int] == target_file_path(
                matched.deep_view()[t as int].path,
                file_name.deep_view(),
            ));
            assert(target@ == plan[t as int]);
        }
        let cb = content.clone();
        proof {
            assert(cb@ =~= content@);
        }
        if let Err(e) = dropbox.upload_file(&target, cb) {
            let msg = name_failing_target(&target, &e);
            proof {
                assert(dropbox.files() == publish_fold(
                    files0,
                    plan.take(t as int),
                    content@,
                    sidecar_bytes@,
                ));
                assert(msg@ =~= "upload to "@ + plan[t as int] + " failed: "@ + e@);
                let prefix = "upload to "@ + plan[t as int] + " failed: "@;
                assert(msg@.subrange(0, prefix.len() as int) =~= prefix);
            }
            return Err(msg);
        }
        let side = sidecar_path_of(&target);
        let sb = sidecar_bytes.clone();
        proof {
            assert(sb@ =~= sidecar_bytes@);
        }
        if let Err(e) = dropbox.upload_file(&side, sb) {
            let msg = name_failing_target(&target, &e);
            proof {
                assert(dropbox.files() == publish_fold(
                    files0,
                    plan.take(t as int),
                    content@,
                    sidecar_bytes@,
                ).insert(plan[t as int], content@));
                assert(msg@ =~= "upload to "@ + plan[t as int] + " failed: "@ + e@);
                let prefix = "upload to "@ + plan[t as int] + " failed: "@;
                assert(msg@.subrange(0, prefix.len() as int) =~= prefix);
            }
            return Err(msg);
        }
        targets.push(target);
        proof {
            assert(targets.deep_view() =~= targets0.push(plan[t as int]));
            assert(plan.take(t + 1) =~= plan.take(t as int).push(plan[t as int]));
            lemma_publish_fold_snoc(files0, targets0, plan[t as int], content@, sidecar_bytes@);
        }
        t = t + 1;
    }
    proof {
        assert(plan.take(plan.len() as int) =~= plan);
    }
    Ok(targets)
}

/// Runs the per-job pipeline once: fetch, persist a working copy, extract
/// text, classify, publish to every matched target.  The first failure
/// short-circuits into a `Failure` result; a job with no matched target
/// succeeds with an empty target list.  On success, the downloaded bytes
/// parsed and yielded non-blank text, the remote store holds exactly the
/// claimed targets' originals and their rendered sidecars on top of what
/// it held, and the working copy of the downloaded bytes is saved; a
/// failed job may have left earlier artifacts behind remotely, but its
/// result claims no target.  Which targets a success claims is pinned one
/// call down, by [`publish_to_targets`]: exactly the classification's
/// matched rules, joined with the display name.
#[verifier::rlimit(30)]
pub fn process_file<D: DropboxClient, L: LlmClient, S: LocalStore>(
    job: Job,
    dropbox: &mut D,
    llm: &L,
    local: &mut S,
    work_dir: &WorkDirectory,
    rules: &Rules,
) -> (r: JobResult)
    ensures
        r@.id() == job@.id,
        r@.name() == job@.name,
        match r@ {
            ResultModel::Success { meta, target_paths, .. } => {
                &&& old(dropbox).files().contains_key(job@.id)
                &&& exists|matched: Seq<RuleModel>|
                    target_paths == #[trigger] planned_targets(matched, job@.name)
                &&& final(dropbox).files() == publish_fold(
                    old(dropbox).files(),
                    target_paths,
                    old(dropbox).files()[job@.id],
                    vstd::utf8::encode_utf8(sidecar_text(meta)),
                )
                &&& final(local).saved() == old(local).saved().insert(
                    raw_copy_path(work_dir@, job@.id),
                    old(dropbox).files()[job@.id],
                )
            },
            ResultModel::Failure { .. } => {
                &&& {
                    ||| final(local).saved() == old(local).saved()
                    ||| (old(dropbox).files().contains_key(job@.id) && final(local).saved() == old(
                        local,
                    ).saved().insert(
                        raw_copy_path(work_dir@, job@.id),
                        old(dropbox).files()[job@.id],
                    ))
                }
                &&& {
                    ||| final(dropbox).files() == old(dropbox).files()
                    ||| (old(dropbox).files().contains_key(job@.id) && exists|
                        plan: Seq<Seq<char>>,
                        sb: Seq<u8>,
                        k: int,
                    |
                        0 <= k < plan.len() && {
                            ||| final(dropbox).files() == #[trigger] publish_fold(
                                old(dropbox).files(),
                                plan.take(k),
                                old(dropbox).files()[job@.id],
                                sb,
                            )
                            ||| final(dropbox).files() == publish_fold(
                                old(dropbox).files(),
                                plan.take(k),
                                old(dropbox).files()[job@.id],
                                sb,
                            ).insert(plan[k], old(dropbox).files()[job@.id])
                        })
                }
            },
        },
{
    // 1. Fetch.
    let content = match dropbox.download_file(&job.id) {
        Ok(c) => c,
        Err(e) => {
            return JobResult::Failure { id: job.id, file_name: job.file_name, error: e };
        },
    };
    // 2. Persist a local working copy; a failure here fails the job.
    let raw = raw_copy_path_of(work_dir, &job.id);
    if let Err(e) = local.save(&raw, &content) {
        let mut msg = String::from_str("Failed to save local copy: ");
        msg.append(e.as_str());
        return JobResult::Failure { id: job.id, file_name: job.file_name, error: msg };
    }
    // 3. Extract text, bounded to the leading pages.
    let text = match extract_text(&content) {
        Ok(t) => t,
        Err(e) => {
            return JobResult::Failure { id: job.id, file_name: job.file_name, error: e };
        },
    };
    // 4. Classify against the full rule set; no match is still a success.
    let (meta, matched) = match llm.query_llm(text.as_str(), rules) {
        Ok(p) => p,
        Err(e) => {
            return JobResult::Failure { id: job.id, file_name: job.file_name, error: e };
        },
    };
    // 5. Publish: for every matched target, the original and its sidecar.
    let sidecar = render_sidecar(&meta);
    let sidecar_bytes = sidecar.as_str().as_bytes_vec();
    proof {
        assert(sidecar_bytes@ == vstd::utf8::encode_utf8(sidecar_text(meta@)));
    }
    let ghost files0 = dropbox.files();
    match publish_to_targets(dropbox, &matched, &job.file_name, &content, &sidecar_bytes) {
        Ok(targets) => JobResult::Success {
            id: job.id,
            file_name: job.file_name,
            meta,
            target_paths: targets,
        },
        Err(e) => {
            proof {
                let plan = planned_targets(matched.deep_view(), job.file_name.deep_view());
                let k = choose|k: int|
                    0 <= k < plan.len() && crate::text::starts_with_seq(
                        e@,
                        "upload to "@ + plan[k] + " failed: "@,
                    ) && {
                        ||| dropbox.files() == publish_fold(
                            files0,
                            #[trigger] plan.take(k),
                            content@,
                            sidecar_bytes@,
                        )
                        ||| dropbox.files() == publish_fold(
                            files0,
                            plan.take(k),
                            content@,
                            sidecar_bytes@,
                        ).insert(plan[k], content@)
                    };
                assert(0 <= k < plan.len() && {
                    ||| dropbox.files() == publish_fold(
                        old(dropbox).files(),
                        plan.take(k),
                        old(dropbox).files()[job@.id],
                        sidecar_bytes@,
                    )
                    ||| dropbox.files() == publish_fold(
                        old(dropbox).files(),
                        plan.take(k),
                        old(dropbox).files()[job@.id],
                        sidecar_bytes@,
                    ).insert(plan[k], old(dropbox).files()[job@.id])
                });
            }
            JobResult::Failure { id: job.id, file_name: job.file_name, error: e }
        },
    }
}


/// Whether a key is one of the batch's working-copy paths.
pub open spec fn batch_copy_path(work_dir: Seq<char>, batch: Seq<RecordModel>, key: Seq<char>) -> bool {
    exists|j: int| 0 <= j < batch.len() && key == raw_copy_path(work_dir, (#[trigger] batch[j]).id)
}

/// The batch's working-copy paths, as a set: outside it, a batch run
/// leaves the local store untouched.
pub open spec fn batch_copy_paths(work_dir: Seq<char>, batch: Seq<RecordModel>) -> Set<Seq<char>> {
    Set::new(|key: Seq<char>| batch_copy_path(work_dir, batch, key))
}

/// Inserting at a removed key changes nothing of the remainder.
proof fn lemma_remove_keys_insert(
    m: Map<Seq<char>, Seq<u8>>,
    s: Set<Seq<char>>,
    key: Seq<char>,
    v: Seq<u8>,
)
    requires
        s.contains(key),
    ensures
        m.insert(key, v).remove_keys(s) == m.remove_keys(s),
{
    assert(m.insert(key, v).remove_keys(s) =~= m.remove_keys(s));
}

/// No job among the first `k` of the batch carries this identifier.
pub open spec fn spared_by_prefix(batch: Seq<RecordModel>, k: int, id: Seq<char>) -> bool {
    forall|j2: int| 0 <= j2 < k ==> (#[trigger] batch[j2]).id != id
}

/// The batch runner's accounting after `k` results: length and
/// identifiers preserved, records no handled job touched unchanged, and
/// every handled record rewritten from its pre-batch state by its own
/// logged result, stamped in dispatch order.
pub open spec fn batch_accounted(
    before: Seq<RecordModel>,
    cur: Seq<RecordModel>,
    batch: Seq<RecordModel>,
    clock0: u64,
    k: int,
    log: Seq<(ResultModel, u64)>,
) -> bool {
    &&& cur.len() == before.len()
    &&& forall|i2: int| 0 <= i2 < before.len() ==> (#[trigger] cur[i2]).id == before[i2].id
    &&& forall|i2: int|
        0 <= i2 < before.len() && spared_by_prefix(batch, k, (#[trigger] before[i2]).id)
            ==> cur[i2] == before[i2]
    &&& log.len() == k
    &&& forall|j2: int|
        0 <= j2 < k ==> {
            let idx = find_rec(before, (#[trigger] batch[j2]).id);
            &&& 0 <= idx < before.len()
            &&& terminal_record(cur[idx])
            &&& log[j2].0.id() == batch[j2].id
            &&& log[j2].0.name() == batch[j2].name
            &&& log[j2].1 == (clock0 + j2 + 1) as u64
            &&& cur[idx] == crate::storage::applied(before[idx], log[j2].0, log[j2].1)
        }
}

/// The collector's step for one job result: applies the single status
/// transition for the `k`-th dispatched job and extends the batch's
/// accounting — the touched record was still in its pre-batch state, and
/// afterwards it is exactly that state rewritten by this result.
#[verifier::rlimit(60)]
#[verifier::spinoff_prover]
fn collect_result(
    storage: &mut Storage,
    res: &JobResult,
    Ghost(before): Ghost<Seq<RecordModel>>,
    Ghost(batch): Ghost<Seq<RecordModel>>,
    Ghost(k): Ghost<int>,
    Ghost(clock0): Ghost<u64>,
    Ghost(log): Ghost<Seq<(ResultModel, u64)>>,
) -> (new_log: Ghost<Seq<(ResultModel, u64)>>)
    requires
        old(storage).wf(),
        0 <= k < batch.len(),
        clock0 + batch.len() <= u64::MAX,
        old(storage).clock() == clock0 + k,
        res@.id() == batch[k as int].id,
        res@.name() == batch[k as int].name,
        forall|k1: int, k2: int|
            0 <= k1 < k2 < batch.len() ==> batch[k1].updated_at != batch[k2].updated_at,
        forall|kk: int| 0 <= kk < batch.len() ==> before.contains(#[trigger] batch[kk]),
        forall|i2: int, j2: int| 0 <= i2 < j2 < before.len() ==> before[i2].id != before[j2].id,
        batch_accounted(before, old(storage).recs(), batch, clock0, k, log),
    ensures
        final(storage).wf(),
        final(storage).clock() == clock0 + k + 1,
        new_log@ == log.push((res@, (clock0 + k + 1) as u64)),
        batch_accounted(before, final(storage).recs(), batch, clock0, k + 1, new_log@),
{
    let ghost cur = storage.recs();
    proof {
        assert(batch_accounted(before, cur, batch, clock0, k, log));
        lemma_find_rec(before, batch[k as int].id);
        lemma_find_rec_same_ids(cur, before, batch[k as int].id);
        let w = choose|w: int| 0 <= w < before.len() && before[w] == batch[k as int];
        if find_rec(before, batch[k as int].id) == -1 {
            assert(before[w].id == batch[k as int].id);
            assert(false);
        }
    }
    storage.apply_result(res);
    let ghost new_log = log.push((res@, (clock0 + k + 1) as u64));
    proof {
        let idx = find_rec(before, batch[k as int].id);
        assert(storage.recs()[idx] == crate::storage::applied(
            cur[idx],
            res@,
            (clock0 + k + 1) as u64,
        ));
        // The touched record was still in its pre-batch state: earlier
        // jobs carried other identifiers.
        assert forall|j2: int| 0 <= j2 < k implies (#[trigger] batch[j2]).id != batch[k as int].id by {
            if batch[j2].id == batch[k as int].id {
                let wj = choose|wj: int| 0 <= wj < before.len() && before[wj] == batch[j2];
                let wk = choose|wk: int| 0 <= wk < before.len() && before[wk] == batch[k as int];
                assert(before[wj].id == before[wk].id);
                assert(wj == wk);
                assert(batch[j2] == batch[k as int]);
            }
        }
        assert(cur[idx] == before[idx]);
        assert(terminal_record(storage.recs()[idx]));
        assert forall|j2: int| 0 <= j2 < k + 1 implies {
            let idx2 = find_rec(before, (#[trigger] batch[j2]).id);
            &&& 0 <= idx2 < before.len()
            &&& terminal_record(storage.recs()[idx2])
            &&& new_log[j2].0.id() == batch[j2].id
            &&& new_log[j2].0.name() == batch[j2].name
            &&& new_log[j2].1 == (clock0 + j2 + 1) as u64
            &&& storage.recs()[idx2] == crate::storage::applied(
                before[idx2],
                new_log[j2].0,
                new_log[j2].1,
            )
        } by {
            if j2 < k {
                let idx2 = find_rec(before, batch[j2].id);
                lemma_find_rec(before, batch[j2].id);
                let w2 = choose|w2: int| 0 <= w2 < before.len() && before[w2] == batch[j2];
                if idx2 == -1 {
                    assert(before[w2].id == batch[j2].id);
                    assert(false);
                }
                if idx2 == idx {
                    assert(before[idx].id == batch[k as int].id);
                    assert(before[idx2].id == batch[j2].id);
                    let wk = choose|wk: int| 0 <= wk < before.len() && before[wk] == batch[k as int];
                    assert(before[wk].id == batch[k as int].id);
                    assert(wk == idx);
                    assert(w2 == idx2);
                    assert(batch[j2] == batch[k as int]);
                    assert(false);
                }
                assert(storage.recs()[idx2] == cur[idx2]);
            }
        }
        assert(batch_accounted(before, storage.recs(), batch, clock0, k + 1, new_log));
    }
    Ghost(new_log)
}

/// Surfaces the batch accounting as the runner's public guarantees: a
/// record outside the batch is untouched; one inside it is terminal,
/// rewritten from its pre-batch state by its own job's result, stamped
/// within the batch's clock window.
#[verifier::spinoff_prover]
#[verifier::rlimit(60)]
proof fn lemma_surface_accounting(
    before: Seq<RecordModel>,
    after: Seq<RecordModel>,
    batch: Seq<RecordModel>,
    clock0: u64,
    log: Seq<(ResultModel, u64)>,
)
    requires
        batch_accounted(before, after, batch, clock0, batch.len() as int, log),
        forall|kk: int| 0 <= kk < batch.len() ==> before.contains(#[trigger] batch[kk]),
        forall|i2: int, j2: int| 0 <= i2 < j2 < before.len() ==> before[i2].id != before[j2].id,
        clock0 + batch.len() <= u64::MAX,
    ensures
        forall|i: int|
            0 <= i < before.len() && !batch.contains(#[trigger] before[i]) ==> after[i]
                == before[i],
        forall|i: int|
            0 <= i < before.len() && batch.contains(#[trigger] before[i]) ==> terminal_record(
                after[i],
            ),
        forall|i: int|
            0 <= i < before.len() && batch.contains(#[trigger] before[i]) ==> exists|
                res: ResultModel,
                stamp: u64,
            |
                res.id() == before[i].id && res.name() == before[i].name && clock0 < stamp
                    <= clock0 + batch.len() && after[i] == #[trigger] crate::storage::applied(
                    before[i],
                    res,
                    stamp,
                ),
{
    assert forall|i: int|
        0 <= i < before.len() && !batch.contains(#[trigger] before[i]) implies after[i]
        == before[i] by {
        assert forall|j2: int|
            0 <= j2 < batch.len() implies (#[trigger] batch[j2]).id != before[i].id by {
            if batch[j2].id == before[i].id {
                let w = choose|w: int| 0 <= w < before.len() && before[w] == batch[j2];
                assert(before[w].id == before[i].id);
                assert(w == i);
                assert(batch.contains(before[i]));
            }
        }
        assert(spared_by_prefix(batch, batch.len() as int, before[i].id));
    }
    assert forall|i: int|
        0 <= i < before.len() && batch.contains(#[trigger] before[i]) implies terminal_record(
        after[i],
    ) && exists|res: ResultModel, stamp: u64|
        res.id() == before[i].id && res.name() == before[i].name && clock0 < stamp <= clock0
            + batch.len() && after[i] == #[trigger] crate::storage::applied(
            before[i],
            res,
            stamp,
        ) by {
        let j2 = choose|j2: int| 0 <= j2 < batch.len() && batch[j2] == before[i];
        lemma_find_rec(before, batch[j2].id);
        let idx = find_rec(before, batch[j2].id);
        if idx == -1 {
            assert(before[i].id == batch[j2].id);
            assert(false);
        }
        assert(before[idx].id == before[i].id);
        assert(idx == i);
        assert(log[j2].0.id() == before[i].id);
        assert(log[j2].0.name() == before[i].name);
        assert(log[j2].1 == (clock0 + j2 + 1) as u64);
        assert(clock0 < log[j2].1 <= clock0 + batch.len());
        assert(after[i] == crate::storage::applied(before[i], log[j2].0, log[j2].1));
    }
}

/// Runs one job for the batch runner.  This narrows [`process_file`]'s
/// contract to what the runner's accounting relies on: the result speaks
/// of the job, and the only local-store change a job can make is its own
/// working copy.
fn dispatch_job<D: DropboxClient, L: LlmClient, S: LocalStore>(
    job: Job,
    dropbox: &mut D,
    llm: &L,
    local: &mut S,
    work_dir: &WorkDirectory,
    rules: &Rules,
) -> (r: JobResult)
    ensures
        r@.id() == job@.id,
        r@.name() == job@.name,
        final(local).saved() == old(local).saved() || (old(dropbox).files().contains_key(job@.id)
            && final(local).saved() == old(local).saved().insert(
            raw_copy_path(work_dir@, job@.id),
            old(dropbox).files()[job@.id],
        )),
{
    process_file(job, dropbox, llm, local, work_dir, rules)
}

/// What one batch reported back: how many jobs were dispatched, and how
/// they ended.
#[derive(Debug, Clone, Copy, PartialEq, Eq, Structural)]
pub struct BatchSummary {
    pub dispatched: usize,
    pub processed: usize,
    pub errored: usize,
}

/// The facts that hold of a record once the collector has applied its job's
/// result: the record is terminal, a processed record carries its written
/// targets and no error, an errored record carries its cause.
pub open spec fn terminal_record(r: RecordModel) -> bool {
    &&& (r.status is Processed || r.status is Error)
    &&& (r.status is Processed ==> r.target_paths is Some && r.last_error is None)
    &&& (r.status is Error ==> r.last_error is Some)
}

/// The pipeline: the record store and the batch's collaborators, wired
/// together for `run_batch`.
pub struct Pipeline<D: DropboxClient, L: LlmClient, S: LocalStore> {
    pub storage: Storage,
    pub dropbox: D,
    pub llm: L,
    pub local: S,
    pub work_dir: WorkDirectory,
    pub rules: Rules,
}

impl<D: DropboxClient, L: LlmClient, S: LocalStore> Pipeline<D, L, S> {
    /// Wires a pipeline together from its collaborators.
    pub fn new(storage: Storage, dropbox: D, llm: L, local: S, work_dir: WorkDirectory, rules: Rules) -> (r:
        Pipeline<D, L, S>)
        ensures
            r.storage == storage,
            r.dropbox == dropbox,
            r.llm == llm,
            r.local == local,
            r.work_dir == work_dir,
            r.rules == rules,
    {
        Pipeline { storage, dropbox, llm, local, work_dir, rules }
    }

    /// Runs one batch end to end: scans at most `batch_size` pending
    /// records, turns each into a job, runs every job through the per-job
    /// pipeline, and applies exactly one status transition per result.
    /// Every dispatched record ends `Processed` or `Error` — never
    /// `Pending` — and untouched records keep their state; with a batch
    /// size that covers the backlog, no record is left `Pending`.
    #[verifier::rlimit(100)]
    pub fn run_batch(&mut self, batch_size: usize, worker_count: usize) -> (r: BatchSummary)
        requires
            old(self).storage.wf(),
            worker_count >= 1,
            old(self).storage.clock() + batch_size <= u64::MAX,
        ensures
            final(self).storage.wf(),
            final(self).work_dir == old(self).work_dir,
            final(self).rules == old(self).rules,
            ({
                let before = old(self).storage.recs();
                let after = final(self).storage.recs();
                let batch = scan_batch(before, batch_size as int);
                &&& after.len() == before.len()
                &&& forall|i: int| 0 <= i < before.len() ==> after[i].id == (#[trigger] before[i]).id
                &&& r.dispatched == batch.len()
                &&& r.processed + r.errored == r.dispatched
                &&& forall|i: int|
                    0 <= i < before.len() && !batch.contains(#[trigger] before[i]) ==> after[i]
                        == before[i]
                &&& forall|i: int|
                    0 <= i < before.len() && batch.contains(#[trigger] before[i])
                        ==> terminal_record(after[i])
                &&& forall|i: int|
                    0 <= i < before.len() && batch.contains(#[trigger] before[i])
                        ==> exists|res: ResultModel, stamp: u64|
                        res.id() == before[i].id && res.name() == before[i].name && old(self).storage.clock() < stamp <= old(self).storage.clock() + batch.len()
                            && after[i] == #[trigger] crate::storage::applied(before[i], res, stamp)
                &&& final(self).local.saved().remove_keys(
                    batch_copy_paths(old(self).work_dir@, batch),
                ) == old(self).local.saved().remove_keys(
                    batch_copy_paths(old(self).work_dir@, batch),
                )
                &&& (pending_of(before).len() <= batch_size ==> forall|i: int|
                    0 <= i < before.len() && (#[trigger] before[i]).status is Pending
                        ==> terminal_record(after[i]))
                &&& (batch.len() == 0 ==> *final(self) == *old(self))
            }),
    {
        let ghost before = self.storage.recs();
        let ghost clock0 = self.storage.clock();
        proof {
            lemma_scan_batch(before, batch_size as int);
        }
        let pending = self.storage.get_pending_files(batch_size);
        let ghost batch = pending.deep_view();
        // Scanner: one job per pending record.
        let mut jobs: Vec<Job> = Vec::new();
        let mut i: usize = 0;
        while i < pending.len()
            invariant
                i <= pending@.len(),
                batch == pending.deep_view(),
                batch.len() == pending@.len(),
                forall|j: int| 0 <= j < pending@.len() ==> batch[j] == pending@[j]@,
                jobs@.len() == i,
                forall|j: int|
                    0 <= j < i ==> (#[trigger] jobs@[j]@).id == batch[j].id && jobs@[j]@.name
                        == batch[j].name,
            decreases pending.len() - i,
        {
            let job = Job {
                id: pending[i].dropbox_id.duplicate(),
                file_name: crate::models::dup_opt_string(&pending[i].file_name),
                path: RemotePath(String::new()),
            };
            jobs.push(job);
            i = i + 1;
        }
        let total = jobs.len();
        let mut d = Dispatcher::new(jobs, worker_count);
        let mut processed: usize = 0;
        let mut errored: usize = 0;
        let ghost mut results_log: Seq<(ResultModel, u64)> = Seq::empty();
        loop
            invariant
                self.work_dir == old(self).work_dir,
                self.rules == old(self).rules,
                d.wf(),
                d.in_flight() == 0,
                d.jobs().len() == batch.len(),
                forall|j: int|
                    0 <= j < batch.len() ==> (#[trigger] d.jobs()[j]).id == batch[j].id
                        && d.jobs()[j].name == batch[j].name,
                total == batch.len(),
                processed + errored == d.dispatched(),
                d.dispatched() <= batch.len(),
                batch == scan_batch(before, batch_size as int),
                batch.len() <= batch_size,
                forall|k1: int, k2: int|
                    0 <= k1 < k2 < batch.len() ==> batch[k1].updated_at != batch[k2].updated_at,
                forall|k: int| 0 <= k < batch.len() ==> before.contains(#[trigger] batch[k]),
                forall|i2: int, j2: int|
                    0 <= i2 < j2 < before.len() ==> before[i2].id != before[j2].id,
                self.storage.wf(),
                self.storage.clock() == clock0 + d.dispatched(),
                clock0 + batch_size <= u64::MAX,
                batch_accounted(
                    before,
                    self.storage.recs(),
                    batch,
                    clock0,
                    d.dispatched(),
                    results_log,
                ),
                self.local.saved().remove_keys(batch_copy_paths(old(self).work_dir@, batch))
                    == old(self).local.saved().remove_keys(
                    batch_copy_paths(old(self).work_dir@, batch),
                ),
                d.dispatched() == 0 ==> *self == *old(self),
            ensures
                self.work_dir == old(self).work_dir,
                self.rules == old(self).rules,
                d.dispatched() == batch.len(),
                total == batch.len(),
                processed + errored == d.dispatched(),
                batch == scan_batch(before, batch_size as int),
                forall|k: int| 0 <= k < batch.len() ==> before.contains(#[trigger] batch[k]),
                forall|i2: int, j2: int|
                    0 <= i2 < j2 < before.len() ==> before[i2].id != before[j2].id,
                self.storage.wf(),
                batch_accounted(
                    before,
                    self.storage.recs(),
                    batch,
                    clock0,
                    batch.len() as int,
                    results_log,
                ),
                self.local.saved().remove_keys(batch_copy_paths(old(self).work_dir@, batch))
                    == old(self).local.saved().remove_keys(
                    batch_copy_paths(old(self).work_dir@, batch),
                ),
                d.dispatched() == 0 ==> *self == *old(self),
            decreases batch.len() - d.dispatched(),
        {
            let next = d.start_next();
            match next {
                None => {
                    break ;
                },
                Some(job) => {
                    let ghost k = d.dispatched() - 1;
                    let ghost pre_saved = self.local.saved();
                    let ghost pre_files = self.dropbox.files();
                    let res = dispatch_job(
                        job,
                        &mut self.dropbox,
                        &self.llm,
                        &mut self.local,
                        &self.work_dir,
                        &self.rules,
                    );
                    d.finish_job();
                    if matches!(res, JobResult::Success { .. }) {
                        processed = processed + 1;
                    } else {
                        errored = errored + 1;
                    }
                    let new_log = collect_result(
                        &mut self.storage,
                        &res,
                        Ghost(before),
                        Ghost(batch),
                        Ghost(k),
                        Ghost(clock0),
                        Ghost(results_log),
                    );
                    proof {
                        results_log = new_log@;
                    }
                },
            }
        }
        proof {
            assert(d.dispatched() == batch.len());
            lemma_surface_accounting(before, self.storage.recs(), batch, clock0, results_log);
            // A batch size that covers the backlog leaves nothing pending.
            lemma_scan_batch(before, batch_size as int);
            if pending_of(before).len() <= batch_size {
                assert forall|i2: int|
                    0 <= i2 < before.len() && (#[trigger] before[i2]).status is Pending implies terminal_record(
                    self.storage.recs()[i2],
                ) by {
                    assert(batch.contains(before[i2]));
                }
            }
        }
        BatchSummary { dispatched: total, processed, errored }
    }
}

} // verus!
