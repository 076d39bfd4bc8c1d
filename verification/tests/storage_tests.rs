//! The record store's change detection, scanning and status transitions on
//! concrete values.

use sci_librarian::clients::{DropboxEntry, FakeDropboxClient};
use sci_librarian::models::{
    ArticleMetadata, DropboxId, FileHash, FileStatus, JobResult, OneLineSummary, RemotePath,
};
use sci_librarian::storage::Storage;
use sci_librarian::sync::sync_listing;

fn entry(id: &str, name: &str, hash: &str) -> DropboxEntry {
    DropboxEntry {
        id: DropboxId(id.to_string()),
        name: name.to_string(),
        path: RemotePath(format!("/0_inbox/{}", name)),
        content_hash: FileHash(hash.to_string()),
    }
}

fn success_result(id: &str, targets: Vec<&str>) -> JobResult {
    JobResult::Success {
        id: DropboxId(id.to_string()),
        file_name: None,
        meta: ArticleMetadata {
            title: "A Title".to_string(),
            authors: vec!["An Author".to_string()],
            summary: OneLineSummary("A summary.".to_string()),
            abstract_text: "An abstract.".to_string(),
        },
        target_paths: targets
            .into_iter()
            .map(|t| RemotePath(t.to_string()))
            .collect(),
    }
}

#[test]
fn test_upsert_inserts_pending() {
    let mut storage = Storage::new();
    storage.upsert_file(
        &DropboxId("id:1".to_string()),
        "a.pdf",
        &FileHash("h1".to_string()),
    );
    let rec = storage.get_file(&DropboxId("id:1".to_string())).unwrap();
    assert_eq!(rec.status, FileStatus::Pending);
    assert_eq!(rec.file_name.as_deref(), Some("a.pdf"));
    assert_eq!(rec.content_hash, FileHash("h1".to_string()));
    assert_eq!(rec.last_error, None);
}

#[test]
fn test_upsert_unchanged_hash_keeps_status() {
    let mut storage = Storage::new();
    let id = DropboxId("id:1".to_string());
    storage.upsert_file(&id, "a.pdf", &FileHash("h1".to_string()));
    storage.update_status(&id, FileStatus::Processed);
    // Same hash, new display name: rename tolerance without status churn.
    storage.upsert_file(&id, "renamed.pdf", &FileHash("h1".to_string()));
    let rec = storage.get_file(&id).unwrap();
    assert_eq!(rec.status, FileStatus::Processed);
    assert_eq!(rec.file_name.as_deref(), Some("renamed.pdf"));
}

#[test]
fn test_upsert_changed_hash_resets_to_pending() {
    let mut storage = Storage::new();
    let id = DropboxId("id:1".to_string());
    storage.upsert_file(&id, "a.pdf", &FileHash("h1".to_string()));
    storage.update_status(&id, FileStatus::Processed);
    storage.upsert_file(&id, "a.pdf", &FileHash("h2".to_string()));
    let rec = storage.get_file(&id).unwrap();
    assert_eq!(rec.status, FileStatus::Pending);
    assert_eq!(rec.content_hash, FileHash("h2".to_string()));

    // The same forcing applies to an errored record.
    storage.apply_result(&JobResult::Failure {
        id: id.clone(),
        file_name: None,
        error: "boom".to_string(),
    });
    assert_eq!(storage.get_file(&id).unwrap().status, FileStatus::Error);
    storage.upsert_file(&id, "a.pdf", &FileHash("h3".to_string()));
    let rec = storage.get_file(&id).unwrap();
    assert_eq!(rec.status, FileStatus::Pending);
    assert_eq!(rec.last_error, None);
}

#[test]
fn test_sync_twice_is_idempotent() {
    let mut storage = Storage::new();
    let listing = vec![entry("id:1", "a.pdf", "h1"), entry("id:2", "b.pdf", "h2")];
    sync_listing(&mut storage, &listing);
    storage.update_status(&DropboxId("id:1".to_string()), FileStatus::Processed);
    let before_1 = storage.get_file(&DropboxId("id:1".to_string())).unwrap();
    let before_2 = storage.get_file(&DropboxId("id:2".to_string())).unwrap();
    // Re-running synchronisation over the unchanged listing disturbs no
    // status, hash or name.
    sync_listing(&mut storage, &listing);
    let after_1 = storage.get_file(&DropboxId("id:1".to_string())).unwrap();
    let after_2 = storage.get_file(&DropboxId("id:2".to_string())).unwrap();
    assert_eq!(after_1.status, before_1.status);
    assert_eq!(after_1.content_hash, before_1.content_hash);
    assert_eq!(after_1.file_name, before_1.file_name);
    assert_eq!(after_2.status, before_2.status);
    assert_eq!(after_2.content_hash, before_2.content_hash);
    assert_eq!(after_2.file_name, before_2.file_name);
}

#[test]
fn test_get_pending_files_order_and_limit() {
    let mut storage = Storage::new();
    storage.upsert_file(
        &DropboxId("id:1".to_string()),
        "a.pdf",
        &FileHash("h1".to_string()),
    );
    storage.upsert_file(
        &DropboxId("id:2".to_string()),
        "b.pdf",
        &FileHash("h2".to_string()),
    );
    storage.upsert_file(
        &DropboxId("id:3".to_string()),
        "c.pdf",
        &FileHash("h3".to_string()),
    );
    // Most recently updated first.
    let pending = storage.get_pending_files(10);
    assert_eq!(pending.len(), 3);
    assert_eq!(pending[0].dropbox_id, DropboxId("id:3".to_string()));
    assert_eq!(pending[1].dropbox_id, DropboxId("id:2".to_string()));
    assert_eq!(pending[2].dropbox_id, DropboxId("id:1".to_string()));
    // Touching a record moves it to the front of the backlog.
    storage.upsert_file(
        &DropboxId("id:1".to_string()),
        "a.pdf",
        &FileHash("h1".to_string()),
    );
    let pending = storage.get_pending_files(2);
    assert_eq!(pending.len(), 2);
    assert_eq!(pending[0].dropbox_id, DropboxId("id:1".to_string()));
    assert_eq!(pending[1].dropbox_id, DropboxId("id:3".to_string()));
    // Terminal records never appear.
    storage.update_status(&DropboxId("id:1".to_string()), FileStatus::Processed);
    let pending = storage.get_pending_files(10);
    assert_eq!(pending.len(), 2);
    // An empty backlog is a no-op, not an error.
    storage.update_status(&DropboxId("id:2".to_string()), FileStatus::Error);
    storage.update_status(&DropboxId("id:3".to_string()), FileStatus::Skipped);
    assert_eq!(storage.get_pending_files(10).len(), 0);
}

#[test]
fn test_apply_result_transitions() {
    let mut storage = Storage::new();
    let id = DropboxId("id:1".to_string());
    storage.upsert_file(&id, "a.pdf", &FileHash("h1".to_string()));
    storage.apply_result(&success_result("id:1", vec!["/out/a"]));
    let rec = storage.get_file(&id).unwrap();
    assert_eq!(rec.status, FileStatus::Processed);
    assert_eq!(rec.title.as_deref(), Some("A Title"));
    assert_eq!(rec.authors, Some(vec!["An Author".to_string()]));
    assert_eq!(rec.summary.as_deref(), Some("A summary."));
    assert_eq!(
        rec.target_paths,
        Some(vec![RemotePath("/out/a".to_string())])
    );
    assert_eq!(rec.last_error, None);

    // A later failure records the cause and withdraws the target claim.
    storage.apply_result(&JobResult::Failure {
        id: id.clone(),
        file_name: None,
        error: "network down".to_string(),
    });
    let rec = storage.get_file(&id).unwrap();
    assert_eq!(rec.status, FileStatus::Error);
    assert_eq!(rec.last_error.as_deref(), Some("network down"));
    assert_eq!(rec.target_paths, None);
}

#[test]
fn test_update_status_clears_stale_error() {
    let mut storage = Storage::new();
    let id = DropboxId("id:1".to_string());
    storage.upsert_file(&id, "a.pdf", &FileHash("h1".to_string()));
    storage.apply_result(&JobResult::Failure {
        id: id.clone(),
        file_name: None,
        error: "boom".to_string(),
    });
    storage.update_status(&id, FileStatus::Processed);
    let rec = storage.get_file(&id).unwrap();
    assert_eq!(rec.status, FileStatus::Processed);
    assert_eq!(rec.last_error, None);
}

#[test]
fn test_get_files_in_folder_filters_and_orders() {
    let mut storage = Storage::new();
    for (id, title, target) in [
        ("id:1", "Gamma", "/out/research/c.pdf"),
        ("id:2", "Alpha", "/out/research/a.pdf"),
        ("id:3", "Beta", "/out/other/b.pdf"),
    ] {
        storage.upsert_file(
            &DropboxId(id.to_string()),
            "x.pdf",
            &FileHash(format!("h-{}", id)),
        );
        storage.apply_result(&JobResult::Success {
            id: DropboxId(id.to_string()),
            file_name: None,
            meta: ArticleMetadata {
                title: title.to_string(),
                authors: vec![],
                summary: OneLineSummary(String::new()),
                abstract_text: String::new(),
            },
            target_paths: vec![RemotePath(target.to_string())],
        });
    }
    let listed = storage.get_files_in_folder("/out/research");
    assert_eq!(listed.len(), 2);
    assert_eq!(listed[0].title.as_deref(), Some("Alpha"));
    assert_eq!(listed[1].title.as_deref(), Some("Gamma"));
    // Records whose targets lie elsewhere stay out.
    let all = storage.get_files_in_folder("/out");
    assert_eq!(all.len(), 3);
    assert_eq!(all[0].title.as_deref(), Some("Alpha"));
    assert_eq!(all[1].title.as_deref(), Some("Beta"));
    assert_eq!(all[2].title.as_deref(), Some("Gamma"));
}

#[test]
fn test_state_round_trip() {
    let mut storage = Storage::new();
    storage.upsert_file(
        &DropboxId("id:1".to_string()),
        "a.pdf",
        &FileHash("h1".to_string()),
    );
    storage.upsert_file(
        &DropboxId("id:2".to_string()),
        "b.pdf",
        &FileHash("h2".to_string()),
    );
    storage.apply_result(&success_result("id:1", vec!["/out/a"]));
    let dump = storage.all_records();
    let restored = Storage::from_records(dump).unwrap();
    for id in ["id:1", "id:2"] {
        let a = storage.get_file(&DropboxId(id.to_string())).unwrap();
        let b = restored.get_file(&DropboxId(id.to_string())).unwrap();
        assert_eq!(a.status, b.status);
        assert_eq!(a.content_hash, b.content_hash);
        assert_eq!(a.updated_at, b.updated_at);
        assert_eq!(a.target_paths, b.target_paths);
    }
    // Conflicting records are refused.
    let one = storage.get_file(&DropboxId("id:1".to_string())).unwrap();
    assert!(Storage::from_records(vec![one.clone(), one]).is_none());
}

#[test]
fn test_sync_then_batch_covers_backlog() {
    // Exhaustive disposition on concrete values: with a batch size that
    // covers the backlog, nothing stays pending.
    let mut storage = Storage::new();
    let mut dropbox = FakeDropboxClient::new();
    let listing = vec![entry("id:1", "a.pdf", "h1"), entry("id:2", "b.pdf", "h2")];
    for e in &listing {
        dropbox.add_entry(e.clone(), b"not a pdf".to_vec());
    }
    sync_listing(&mut storage, &listing);
    let pipeline_rules = sci_librarian::models::Rules::from(Vec::new());
    let mut pipeline = sci_librarian::pipeline::Pipeline::new(
        storage,
        dropbox,
        sci_librarian::clients::FakeMistralClient::new(),
        sci_librarian::clients::FakeLocalStore::new(),
        sci_librarian::models::WorkDirectory("w".to_string()),
        pipeline_rules,
    );
    let summary = pipeline.run_batch(10, 3);
    // Both jobs failed at extraction (the bytes are no document), but both
    // were dispatched and both ended terminal.
    assert_eq!(summary.dispatched, 2);
    assert_eq!(summary.processed + summary.errored, 2);
    assert_eq!(summary.errored, 2);
    assert_eq!(pipeline.storage.get_pending_files(10).len(), 0);
    for id in ["id:1", "id:2"] {
        let rec = pipeline
            .storage
            .get_file(&DropboxId(id.to_string()))
            .unwrap();
        assert_eq!(rec.status, FileStatus::Error);
        assert!(rec.last_error.is_some());
    }
}
