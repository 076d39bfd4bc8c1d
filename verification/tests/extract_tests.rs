//! Text extraction against real document parsing.

use lopdf::{Dictionary, Object, Stream};
use sci_librarian::extract::extract_text;

fn pdf_with_page_text(content: &str) -> Vec<u8> {
    let mut doc = lopdf::Document::with_version("1.4");
    let pages_id = doc.new_object_id();
    let mut font = Dictionary::new();
    font.set("Type", "Font");
    font.set("Subtype", "Type1");
    font.set("BaseFont", "Helvetica");
    let font_id = doc.add_object(font);
    let mut font_map = Dictionary::new();
    font_map.set("F1", font_id);
    let mut resources = Dictionary::new();
    resources.set("Font", font_map);
    let resources_id = doc.add_object(resources);
    let content_id = doc.add_object(Stream::new(Dictionary::new(), content.as_bytes().to_vec()));
    let mut page = Dictionary::new();
    page.set("Type", "Page");
    page.set("Parent", pages_id);
    page.set("Contents", content_id);
    page.set("Resources", resources_id);
    page.set(
        "MediaBox",
        vec![0.into(), 0.into(), 612.into(), 792.into()],
    );
    let page_id = doc.add_object(page);
    let mut pages = Dictionary::new();
    pages.set("Type", "Pages");
    pages.set("Kids", vec![Object::from(page_id)]);
    pages.set("Count", 1);
    doc.objects.insert(pages_id, Object::Dictionary(pages));
    let mut catalog = Dictionary::new();
    catalog.set("Type", "Catalog");
    catalog.set("Pages", pages_id);
    let catalog_id = doc.add_object(catalog);
    doc.trailer.set("Root", catalog_id);
    let mut bytes = Vec::new();
    doc.save_to(&mut bytes).unwrap();
    bytes
}

#[test]
fn test_extract_text_reads_page_text() {
    let bytes = pdf_with_page_text("BT /F1 12 Tf 100 700 Td (Quantum Computing) Tj ET");
    let text = extract_text(&bytes).unwrap();
    assert!(text.contains("Quantum Computing"));
}

#[test]
fn test_extract_text_rejects_garbage() {
    let bytes = b"this is not a document at all".to_vec();
    assert!(extract_text(&bytes).is_err());
}

#[test]
fn test_extract_text_rejects_blank_document() {
    // A document whose only page draws no text fails, never an empty
    // success.
    let bytes = pdf_with_page_text("");
    let err = extract_text(&bytes).unwrap_err();
    assert_eq!(err, "No text extracted from PDF");
}
