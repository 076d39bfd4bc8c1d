//! End-to-end runs of the batch pipeline against the in-memory
//! collaborators and real document parsing.

use lopdf::{Dictionary, Object, Stream};
use sci_librarian::clients::DropboxClient;
use sci_librarian::clients::{DropboxEntry, FakeDropboxClient, FakeLocalStore, FakeMistralClient};
use sci_librarian::models::{
    ArticleMetadata, DropboxId, FileHash, FileStatus, LocalPath, OneLineSummary, RemotePath, Rule,
    Rules, WorkDirectory,
};
use sci_librarian::pipeline::Pipeline;
use sci_librarian::pool::Dispatcher;
use sci_librarian::storage::Storage;
use sci_librarian::sync::sync_listing;

fn create_pdf(content: &str) -> Vec<u8> {
    let mut doc = lopdf::Document::with_version("1.4");
    let pages_id = doc.new_object_id();
    let mut font = Dictionary::new();
    font.set("Type", "Font");
    font.set("Subtype", "Type1");
    font.set("BaseFont", "Helvetica");
    let font_id = doc.add_object(font);
    let mut font_map = Dictionary::new();
    font_map.set("F1", font_id);
    let mut resources = Dictionary::new();
    resources.set("Font", font_map);
    let resources_id = doc.add_object(resources);
    let content_id = doc.add_object(Stream::new(Dictionary::new(), content.as_bytes().to_vec()));
    let mut page = Dictionary::new();
    page.set("Type", "Page");
    page.set("Parent", pages_id);
    page.set("Contents", content_id);
    page.set("Resources", resources_id);
    page.set(
        "MediaBox",
        vec![0.into(), 0.into(), 612.into(), 792.into()],
    );
    let page_id = doc.add_object(page);
    let mut pages = Dictionary::new();
    pages.set("Type", "Pages");
    pages.set("Kids", vec![Object::from(page_id)]);
    pages.set("Count", 1);
    doc.objects.insert(pages_id, Object::Dictionary(pages));
    let mut catalog = Dictionary::new();
    catalog.set("Type", "Catalog");
    catalog.set("Pages", pages_id);
    let catalog_id = doc.add_object(catalog);
    doc.trailer.set("Root", catalog_id);
    let mut bytes = Vec::new();
    doc.save_to(&mut bytes).unwrap();
    bytes
}

fn quantum_meta() -> ArticleMetadata {
    ArticleMetadata {
        title: "Quantum Computing for Dummies".to_string(),
        authors: vec!["John Doe".to_string()],
        summary: OneLineSummary("A beginner's guide to quantum computing.".to_string()),
        abstract_text: "This paper explains quantum computing in simple terms.".to_string(),
    }
}

fn base_rules() -> Rules {
    Rules::from(vec![
        Rule {
            name: String::from("AI"),
            description: String::from(
                "Neural Networks, Deep Learning, Large Language Models (LLMs), Reinforcement Learning and other large-scale text, image and video processing tasks using function approximators",
            ),
            path: RemotePath(String::from("/out/ai")),
        },
        Rule {
            name: String::from("Programming Languages"),
            description: String::from(
                "Programming language theory, parsers, compilers, partial evaluation, type systems etc.",
            ),
            path: RemotePath(String::from("/out/programming-languages")),
        },
    ])
}

fn paper_entry() -> DropboxEntry {
    DropboxEntry {
        id: DropboxId("id:123".to_string()),
        name: "paper.pdf".to_string(),
        path: RemotePath("/0_inbox/paper.pdf".to_string()),
        content_hash: FileHash("hash123".to_string()),
    }
}

#[test]
fn test_full_scenario() {
    let mut storage = Storage::new();
    let mut dropbox = FakeDropboxClient::new();
    let mut llm = FakeMistralClient::new();
    let local = FakeLocalStore::new();
    let work_dir = WorkDirectory("working".to_string());

    let paper_content = create_pdf("BT /F1 12 Tf 100 700 Td (Quantum Computing) Tj ET");
    dropbox.add_entry(paper_entry(), paper_content.clone());

    let meta = quantum_meta();
    let matching_rules = vec![Rule {
        name: String::from("Quantum Computing"),
        description: String::from("Everything about Quantum Computing"),
        path: RemotePath(String::from("/Research/Quantum_Computing")),
    }];
    llm.set_response("Quantum", meta.clone(), matching_rules.clone());

    // Sync the listing into the store.
    let entries = dropbox.list_folder("/0_inbox").unwrap();
    sync_listing(&mut storage, &entries);

    // The file name is stored on the pending record.
    let pending = storage.get_pending_files(10);
    assert_eq!(pending.len(), 1);
    assert_eq!(pending[0].file_name.as_deref(), Some("paper.pdf"));

    // Run the pipeline.
    let mut pipeline = Pipeline::new(storage, dropbox, llm, local, work_dir, base_rules());
    let summary = pipeline.run_batch(10, 1);
    assert_eq!(summary.dispatched, 1);
    assert_eq!(summary.processed, 1);
    assert_eq!(summary.errored, 0);

    // Both artifacts were written.
    assert!(pipeline
        .dropbox
        .has_file(&"/Research/Quantum_Computing/paper.pdf".to_string()));
    assert!(pipeline
        .dropbox
        .has_file(&"/Research/Quantum_Computing/paper.pdf.md".to_string()));

    let sidecar = String::from_utf8(
        pipeline
            .dropbox
            .file_bytes(&"/Research/Quantum_Computing/paper.pdf.md".to_string())
            .unwrap()
            .clone(),
    )
    .unwrap();
    assert!(sidecar.contains("# Quantum Computing for Dummies"));
    assert!(sidecar.contains("## Authors\nJohn Doe"));
    assert!(sidecar.contains("## Summary\nA beginner's guide to quantum computing."));
    assert!(sidecar.contains("## Abstract\nThis paper explains quantum computing in simple terms."));

    // The record ended Processed and carries the written target.
    let rec = pipeline
        .storage
        .get_file(&DropboxId("id:123".to_string()))
        .unwrap();
    assert_eq!(rec.status, FileStatus::Processed);
    assert_eq!(
        rec.target_paths,
        Some(vec![RemotePath(
            "/Research/Quantum_Computing/paper.pdf".to_string()
        )])
    );
    assert_eq!(rec.last_error, None);

    // The working copy was saved under the sanitised identifier.
    assert!(pipeline
        .local
        .saved_bytes(&"working/raw/id_123.pdf".to_string())
        .is_some());
}

#[test]
fn test_no_match_still_processed() {
    // Scenario: the classification returns zero target paths; the record
    // still ends Processed and nothing is uploaded.
    let mut storage = Storage::new();
    let mut dropbox = FakeDropboxClient::new();
    let mut llm = FakeMistralClient::new();
    let local = FakeLocalStore::new();
    let work_dir = WorkDirectory("working".to_string());

    let paper_content = create_pdf("BT /F1 12 Tf 100 700 Td (Quantum Computing) Tj ET");
    dropbox.add_entry(paper_entry(), paper_content);
    llm.set_response("Quantum", quantum_meta(), Vec::new());

    let entries = dropbox.list_folder("/0_inbox").unwrap();
    sync_listing(&mut storage, &entries);

    let mut pipeline = Pipeline::new(storage, dropbox, llm, local, work_dir, base_rules());
    let summary = pipeline.run_batch(10, 1);
    assert_eq!(summary.processed, 1);
    assert_eq!(summary.errored, 0);

    let rec = pipeline
        .storage
        .get_file(&DropboxId("id:123".to_string()))
        .unwrap();
    assert_eq!(rec.status, FileStatus::Processed);
    assert_eq!(rec.target_paths, Some(Vec::new()));
    assert!(!pipeline.dropbox.has_file(&"/out/ai".to_string()));
    assert!(!pipeline.dropbox.has_file(&"/out/ai.md".to_string()));
    assert!(!pipeline
        .dropbox
        .has_file(&"/out/programming-languages".to_string()));
}

#[test]
fn test_upload_failure_on_second_target() {
    // Scenario: the second of two target uploads fails; the record ends
    // Error, the error text names the failing target, and the record
    // claims no written target.
    let mut storage = Storage::new();
    let mut dropbox = FakeDropboxClient::new();
    let mut llm = FakeMistralClient::new();
    let local = FakeLocalStore::new();
    let work_dir = WorkDirectory("working".to_string());

    let paper_content = create_pdf("BT /F1 12 Tf 100 700 Td (Quantum Computing) Tj ET");
    dropbox.add_entry(paper_entry(), paper_content);
    let two_rules = vec![
        Rule {
            name: String::from("First"),
            description: String::from("first target"),
            path: RemotePath(String::from("/out/first")),
        },
        Rule {
            name: String::from("Second"),
            description: String::from("second target"),
            path: RemotePath(String::from("/out/second")),
        },
    ];
    llm.set_response("Quantum", quantum_meta(), two_rules);
    dropbox.reject_path(&RemotePath("/out/second/paper.pdf".to_string()));

    let entries = dropbox.list_folder("/0_inbox").unwrap();
    sync_listing(&mut storage, &entries);

    let mut pipeline = Pipeline::new(storage, dropbox, llm, local, work_dir, base_rules());
    let summary = pipeline.run_batch(10, 1);
    assert_eq!(summary.processed, 0);
    assert_eq!(summary.errored, 1);

    let rec = pipeline
        .storage
        .get_file(&DropboxId("id:123".to_string()))
        .unwrap();
    assert_eq!(rec.status, FileStatus::Error);
    assert!(rec.last_error.as_deref().unwrap().contains("/out/second"));
    assert_eq!(rec.target_paths, None);
    // The first target's artifacts exist remotely, but the record asserts
    // nothing as done.
    assert!(pipeline.dropbox.has_file(&"/out/first/paper.pdf".to_string()));
    assert!(!pipeline.dropbox.has_file(&"/out/second/paper.pdf".to_string()));
}

#[test]
fn test_local_save_failure_fails_job() {
    let mut storage = Storage::new();
    let mut dropbox = FakeDropboxClient::new();
    let mut llm = FakeMistralClient::new();
    let mut local = FakeLocalStore::new();
    let work_dir = WorkDirectory("working".to_string());

    let paper_content = create_pdf("BT /F1 12 Tf 100 700 Td (Quantum Computing) Tj ET");
    dropbox.add_entry(paper_entry(), paper_content);
    llm.set_response("Quantum", quantum_meta(), Vec::new());
    local.reject_path(&LocalPath("working/raw/id_123.pdf".to_string()));

    let entries = dropbox.list_folder("/0_inbox").unwrap();
    sync_listing(&mut storage, &entries);

    let mut pipeline = Pipeline::new(storage, dropbox, llm, local, work_dir, base_rules());
    let summary = pipeline.run_batch(10, 1);
    assert_eq!(summary.errored, 1);

    let rec = pipeline
        .storage
        .get_file(&DropboxId("id:123".to_string()))
        .unwrap();
    assert_eq!(rec.status, FileStatus::Error);
    assert!(rec
        .last_error
        .as_deref()
        .unwrap()
        .contains("Failed to save local copy"));
}

#[test]
fn test_dispatcher_bounds_in_flight() {
    // With two workers and three jobs, a third job is never handed out
    // while two are in flight.
    let jobs = vec![
        sci_librarian::models::Job {
            id: DropboxId("a".to_string()),
            file_name: None,
            path: RemotePath(String::new()),
        },
        sci_librarian::models::Job {
            id: DropboxId("b".to_string()),
            file_name: None,
            path: RemotePath(String::new()),
        },
        sci_librarian::models::Job {
            id: DropboxId("c".to_string()),
            file_name: None,
            path: RemotePath(String::new()),
        },
    ];
    let mut d = Dispatcher::new(jobs, 2);
    let first = d.start_next();
    assert!(first.is_some());
    let second = d.start_next();
    assert!(second.is_some());
    // Both workers busy: nothing more is handed out.
    assert!(d.start_next().is_none());
    d.finish_job();
    let third = d.start_next();
    assert_eq!(third.unwrap().id, DropboxId("c".to_string()));
    assert!(!d.is_done());
    d.finish_job();
    d.finish_job();
    assert!(d.is_done());
}

#[test]
fn test_resumable_after_batch() {
    // A second run over an unchanged backlog is a no-op: nothing is
    // pending any more.
    let mut storage = Storage::new();
    let mut dropbox = FakeDropboxClient::new();
    let mut llm = FakeMistralClient::new();
    let local = FakeLocalStore::new();
    let work_dir = WorkDirectory("working".to_string());

    let paper_content = create_pdf("BT /F1 12 Tf 100 700 Td (Quantum Computing) Tj ET");
    dropbox.add_entry(paper_entry(), paper_content);
    llm.set_response("Quantum", quantum_meta(), Vec::new());

    let entries = dropbox.list_folder("/0_inbox").unwrap();
    sync_listing(&mut storage, &entries);

    let mut pipeline = Pipeline::new(storage, dropbox, llm, local, work_dir, base_rules());
    let first = pipeline.run_batch(10, 1);
    assert_eq!(first.dispatched, 1);
    let second = pipeline.run_batch(10, 1);
    assert_eq!(second.dispatched, 0);
    assert_eq!(second.processed, 0);
    assert_eq!(second.errored, 0);
}
