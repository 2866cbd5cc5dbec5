use vecdb::chunker::chunk_text;
use vecdb::text::{push_decimal, vector_id};

#[test]
fn vector_ids_are_decimal() {
    assert_eq!(vector_id(0), "vec_0");
    assert_eq!(vector_id(7), "vec_7");
    assert_eq!(vector_id(12), "vec_12");
    assert_eq!(vector_id(100_000), "vec_100000");
    let mut s = String::from("n=");
    push_decimal(&mut s, usize::MAX);
    assert_eq!(s, format!("n={}", usize::MAX));
}

#[test]
fn chunking_empty_text_gives_nothing() {
    assert!(chunk_text("", 500).is_empty());
}

#[test]
fn short_paragraphs_share_a_chunk() {
    let text = "first paragraph\n\nsecond one\n\nthird";
    assert_eq!(chunk_text(text, 500), vec![text.to_string()]);
}

#[test]
fn chunk_closes_before_overflow() {
    let text = "aaaa\n\nbbbb\n\ncccc";
    assert_eq!(chunk_text(text, 7), vec!["aaaa".to_string(), "bbbb".to_string(), "cccc".to_string()]);
    assert_eq!(chunk_text(text, 9), vec!["aaaa".to_string(), "bbbb".to_string(), "cccc".to_string()]);
    assert_eq!(chunk_text(text, 10), vec!["aaaa\n\nbbbb".to_string(), "cccc".to_string()]);
    assert_eq!(chunk_text(text, 15), vec!["aaaa\n\nbbbb".to_string(), "cccc".to_string()]);
    assert_eq!(chunk_text(text, 16), vec!["aaaa\n\nbbbb\n\ncccc".to_string()]);
    assert_eq!(chunk_text("a\n\nb", 2), vec!["a".to_string(), "b".to_string()]);
}

#[test]
fn long_paragraph_is_its_own_chunk() {
    let text = "tiny\n\nthis paragraph is much longer than the limit\n\nend";
    assert_eq!(
        chunk_text(text, 10),
        vec!["tiny".to_string(), "this paragraph is much longer than the limit".to_string(), "end".to_string()]
    );
}

#[test]
fn leading_blank_lines_are_dropped() {
    assert_eq!(chunk_text("\n\n\n\nabc", 100), vec!["abc".to_string()]);
    assert_eq!(chunk_text("a\n\n\nb", 100), vec!["a\n\n\nb".to_string()]);
}

#[test]
fn chunk_lengths_are_counted_in_bytes() {
    let text = "éé\n\nü";
    assert_eq!(chunk_text(text, 5), vec!["éé".to_string(), "ü".to_string()]);
    assert_eq!(chunk_text(text, 7), vec!["éé".to_string(), "ü".to_string()]);
    assert_eq!(chunk_text(text, 8), vec!["éé\n\nü".to_string()]);
}

#[test]
fn chunks_stay_within_limit() {
    let text = "ab\n\ncd\n\nef\n\ngh\n\nij";
    for max in 0..20usize {
        for c in chunk_text(text, max) {
            assert!(!c.is_empty());
            assert!(c.len() <= max || !c.contains("\n\n"));
        }
        assert_eq!(chunk_text(text, max).join("\n\n"), text);
    }
}
