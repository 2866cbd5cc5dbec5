use vecdb::documents::{docx_text, document_kind, format_workbook, parse_docx_xml, DocumentKind, DocxEvent, SheetCells};
use vecdb::ingest::{ingest_records, new_document_id};

#[test]
fn document_kind_by_extension() {
    assert_eq!(document_kind("notes/a.txt"), Ok(DocumentKind::Txt));
    assert_eq!(document_kind("A.TXT"), Ok(DocumentKind::Txt));
    assert_eq!(document_kind("/tmp/report.Pdf"), Ok(DocumentKind::Pdf));
    assert_eq!(document_kind("memo.DOCX"), Ok(DocumentKind::Docx));
    assert_eq!(document_kind("sheet.xlsx"), Ok(DocumentKind::Xlsx));
    assert_eq!(document_kind("data.CSV"), Err("Unsupported file format: csv".to_string()));
    assert_eq!(document_kind("README"), Err("Unsupported file format: ".to_string()));
    assert_eq!(document_kind(".txt"), Err("Unsupported file format: ".to_string()));
}

#[test]
fn workbook_layout() {
    let sheets = vec![
        SheetCells {
            name: "Sales".to_string(),
            rows: Some(vec![
                vec![Some("Item".to_string()), Some("Qty".to_string())],
                vec![None, None],
                vec![Some("Pen".to_string()), None, Some("3".to_string())],
            ]),
        },
        SheetCells { name: "Broken".to_string(), rows: None },
        SheetCells { name: "Empty".to_string(), rows: Some(vec![]) },
    ];
    assert_eq!(
        format_workbook(&sheets),
        "--- Sheet: Sales ---\nItem | Qty\nPen | 3\n--- Sheet: Broken ---\n--- Sheet: Empty ---\n"
    );
    assert_eq!(format_workbook(&vec![]), "");
}

#[test]
fn docx_events_to_text() {
    let t = b"w:t".to_vec();
    let p = b"w:p".to_vec();
    let events = vec![
        DocxEvent::Start(p.clone()),
        DocxEvent::Start(t.clone()),
        DocxEvent::Text(Ok("Hello".to_string())),
        DocxEvent::End(t.clone()),
        DocxEvent::Text(Ok("ignored".to_string())),
        DocxEvent::Text(Err("not looked at".to_string())),
        DocxEvent::Start(p.clone()),
        DocxEvent::Start(t.clone()),
        DocxEvent::Text(Ok("World".to_string())),
        DocxEvent::Eof,
        DocxEvent::Failed("after the end".to_string()),
    ];
    assert_eq!(docx_text(&events), Ok("\nHello \nWorld ".to_string()));
    let bad = vec![DocxEvent::Start(t.clone()), DocxEvent::Text(Err("bad entity".to_string()))];
    assert_eq!(docx_text(&bad), Err("bad entity".to_string()));
    assert_eq!(docx_text(&vec![DocxEvent::Other, DocxEvent::Failed("boom".to_string())]), Err("boom".to_string()));
    assert_eq!(docx_text(&vec![]), Ok(String::new()));
}

#[test]
fn docx_xml_to_text() {
    let xml = r#"<?xml version="1.0"?><w:document><w:body><w:p><w:r><w:t>Tom &amp; Jerry</w:t></w:r></w:p><w:p><w:r><w:t> second </w:t></w:r></w:p></w:body></w:document>"#;
    assert_eq!(parse_docx_xml(xml), Ok("\nTom & Jerry \nsecond ".to_string()));
    assert!(parse_docx_xml("<w:t>a</w:x>").is_err());
}

#[test]
fn document_ids_are_fresh() {
    let a = new_document_id();
    let b = new_document_id();
    assert_eq!(a.len(), 40);
    assert!(a.starts_with("doc_"));
    assert_eq!(&a[12..13], "-");
    assert_eq!(&a[18..19], "4");
    assert!(["8", "9", "a", "b"].contains(&&a[23..24]));
    assert_ne!(a, b);
}

#[test]
fn ingest_records_pair_texts_and_embeddings() {
    let texts = vec!["one".to_string(), "two".to_string(), "three".to_string()];
    let embeddings = vec![vec![1.0f32, 0.0], vec![0.0f32, 1.0]];
    let records = ingest_records(&texts, embeddings);
    assert_eq!(records.len(), 2);
    assert!(records[0].0.starts_with("doc_"));
    assert_eq!(records[1].1, vec![0.0f32, 1.0]);
    assert_eq!(records[0].2.as_ref().unwrap().entries(), &vec![("text".to_string(), "one".to_string())]);
    assert_eq!(records[1].2.as_ref().unwrap().entries(), &vec![("text".to_string(), "two".to_string())]);
    assert_ne!(records[0].0, records[1].0);
}
