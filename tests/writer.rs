use oscar_corpus::document::{Document, Identification, Metadata, Ratio};
use oscar_corpus::writer::{prefers_bulk, Op, Writer, WriterError};

/// Performs the operations on in-memory files: the text of each numbered
/// text file, and the records of each numbered metadata file.
fn perform(ops: Vec<Op>, text: &mut Vec<String>, meta: &mut Vec<Vec<Metadata>>) {
    for op in ops {
        match op {
            Op::Rotate => {
                text.push(String::new());
                meta.push(Vec::new());
            }
            Op::Text(lines) => {
                let t = text.last_mut().unwrap();
                for l in lines {
                    t.push_str(&l);
                    t.push('\n');
                }
            }
            Op::Meta(records) => meta.last_mut().unwrap().extend(records),
            Op::CloseMeta => {}
        }
    }
}

fn fresh_files() -> (Vec<String>, Vec<Vec<Metadata>>) {
    (vec![String::new()], vec![Vec::new()])
}

fn ident(label: &str) -> Identification {
    Identification { label: label.to_string(), confidence: Ratio { num: 1, den: 1 } }
}

fn doc(label: &str, lines: Vec<String>, filename: &str) -> Document {
    let n = lines.len();
    Document {
        lines,
        headers: vec![("WARC-Filename".to_string(), filename.to_string())],
        identification: ident(label),
        line_identifications: (0..n).map(|_| Some(ident(label))).collect(),
        annotation: None,
    }
}

#[test]
fn test_init() {
    let wr = Writer::new("en".to_string(), Some(1_000_000));
    assert_eq!(wr.next_offset(), 0);
    assert_eq!(wr.language(), "en");
}

#[test]
fn write() {
    let mut wr = Writer::new("fr".to_string(), Some(10));
    let sentences = "Bonjour, c'est moi!
Comment allez-vous?
Bien, et vous?
Ecoutez ça va plutôt bien.";
    let lines: Vec<String> = sentences.lines().map(|l| l.to_string()).collect();
    let merged_pieces = vec![doc("fr", lines, "filenametest")];

    let ops = wr.write(merged_pieces.to_vec()).unwrap();
    let (mut text, mut meta) = fresh_files();
    perform(ops, &mut text, &mut meta);

    let mut from_merged_pieces = sentences.to_string();
    from_merged_pieces.push_str("\n\n");
    assert_eq!(text[0], from_merged_pieces);
    assert_eq!(meta[0].len(), 1);
    assert_eq!(meta[0][0].nb_sentences, merged_pieces[0].lines.len());
    assert_eq!(meta[0][0].nb_sentences, 4);
    assert_eq!(meta[0][0].offset, 0);
    assert_eq!(text.len(), 1);
}

#[test]
fn write_multiple() {
    let mut wr = Writer::new("fr".to_string(), Some(10_000));
    let mut merged_pieces = Vec::new();
    for i in 1..10 {
        let lines = vec!["lorem ipsum".to_string(); i];
        merged_pieces.push(doc("fr", lines, &format!("filenametest{}", i)));
    }

    let ops = wr.write(merged_pieces.to_vec()).unwrap();
    let (mut text, mut meta) = fresh_files();
    perform(ops, &mut text, &mut meta);

    let blocks: Vec<&str> = text[0].split("\n\n").collect();
    for i in 0..merged_pieces.len() {
        assert_eq!(blocks[i], merged_pieces[i].lines.join("\n"));
    }
    assert_eq!(meta[0][0].nb_sentences, merged_pieces[0].lines.len());
    let offsets: Vec<usize> = meta[0].iter().map(|m| m.offset).collect();
    assert_eq!(offsets, vec![0, 2, 5, 9, 14, 20, 27, 35, 44]);
    assert_eq!(wr.next_offset(), 54);
}

#[test]
fn offsets_slice_back_to_lines() {
    let mut wr = Writer::new("fr".to_string(), None);
    let docs = vec![
        doc("fr", vec!["un".to_string(), "deux".to_string()], "a"),
        doc("fr", vec!["trois".to_string()], "b"),
        doc("fr", vec!["quatre".to_string(), "cinq".to_string(), "six".to_string()], "c"),
    ];
    let ops = wr.write(docs.clone()).unwrap();
    let (mut text, mut meta) = fresh_files();
    perform(ops, &mut text, &mut meta);
    let file_lines: Vec<&str> = text[0].split('\n').collect();
    for (d, m) in docs.iter().zip(meta[0].iter()) {
        let slice: Vec<String> =
            file_lines[m.offset..m.offset + m.nb_sentences].iter().map(|s| s.to_string()).collect();
        assert_eq!(slice, d.lines);
        assert_eq!(file_lines[m.offset + m.nb_sentences], "");
    }
}

#[test]
fn wrong_language_is_refused_and_changes_nothing() {
    let mut wr = Writer::new("fr".to_string(), Some(1000));
    let ops = wr.write_single(doc("fr", vec!["salut".to_string()], "a")).unwrap();
    let (mut text, mut meta) = fresh_files();
    perform(ops, &mut text, &mut meta);
    let before = wr.next_offset();
    assert_eq!(before, 2);

    let r = wr.write_single(doc("en", vec!["hello".to_string()], "b"));
    match r {
        Err(WriterError::LanguageMismatch { expected, found }) => {
            assert_eq!(expected, "fr");
            assert_eq!(found, "en");
        }
        Ok(_) => panic!("a document of another language was written"),
    }
    assert_eq!(wr.next_offset(), before);
    assert_eq!(text[0], "salut\n\n");
    assert_eq!(meta[0].len(), 1);
}

#[test]
fn batch_with_a_wrong_language_is_refused() {
    let mut wr = Writer::new("fr".to_string(), None);
    let docs = vec![
        doc("fr", vec!["un".to_string()], "a"),
        doc("de", vec!["eins".to_string()], "b"),
    ];
    let r = wr.write(docs);
    match r {
        Err((WriterError::LanguageMismatch { expected, found }, ops)) => {
            assert_eq!(expected, "fr");
            assert_eq!(found, "de");
            assert!(ops.is_empty());
        }
        Ok(_) => panic!("a document of another language was written"),
    }
    assert_eq!(wr.next_offset(), 0);
}

#[test]
fn one_at_a_time_write_stops_at_the_first_wrong_language() {
    // 4 sentences against 2 bytes of free space: written one at a time
    let mut wr = Writer::new("fr".to_string(), Some(2));
    let docs = vec![
        doc("fr", vec!["un".to_string(), "deux".to_string(), "trois".to_string()], "a"),
        doc("en", vec!["one".to_string()], "b"),
        doc("fr", vec!["quatre".to_string()], "c"),
    ];
    let (err, ops) = wr.write(docs).unwrap_err();
    assert!(matches!(err, WriterError::LanguageMismatch { .. }));
    let (mut text, mut meta) = fresh_files();
    perform(ops, &mut text, &mut meta);
    assert_eq!(text, vec!["un\ndeux\ntrois\n\n".to_string()]);
    assert_eq!(meta[0].len(), 1);
    assert_eq!(meta[0][0].offset, 0);
    assert_eq!(wr.next_offset(), 4);
}

#[test]
fn bulk_write_never_begins_a_new_file() {
    let mut wr = Writer::new("fr".to_string(), Some(100));
    wr.write_single(doc("fr", vec!["x".repeat(80)], "a")).unwrap();
    // 82 bytes written, 18 free; 2 sentences are written in one piece
    assert_eq!(wr.free_space(), Some(18));
    let ops = wr
        .write(vec![doc("fr", vec!["y".repeat(30)], "b"), doc("fr", vec!["z".repeat(30)], "c")])
        .unwrap();
    assert!(!ops.iter().any(|o| matches!(o, Op::Rotate)));
    let (mut text, mut meta) = fresh_files();
    perform(ops, &mut text, &mut meta);
    let offsets: Vec<usize> = meta[0].iter().map(|m| m.offset).collect();
    assert_eq!(offsets, vec![2, 4]);
    assert_eq!(wr.next_offset(), 6);
    assert_eq!(wr.free_space(), Some(0));
}

#[test]
fn rotation_resets_offset_in_step_with_metadata() {
    // free space 12 bytes, 13 sentences: written one at a time
    let mut wr = Writer::new("fr".to_string(), Some(12));
    let docs = vec![
        doc("fr", vec!["abcdefgh".to_string(); 6], "a"),
        doc("fr", vec!["ij".to_string(); 7], "b"),
    ];
    let ops = wr.write(docs).unwrap();
    let rotations = ops.iter().filter(|o| matches!(o, Op::Rotate)).count();
    assert_eq!(rotations, 1);
    let (mut text, mut meta) = fresh_files();
    perform(ops, &mut text, &mut meta);
    assert_eq!(text.len(), 2);
    assert_eq!(meta.len(), 2);
    assert_eq!(meta[0][0].offset, 0);
    assert_eq!(meta[1][0].offset, 0);
    assert_eq!(meta[1][0].nb_sentences, 7);
    assert_eq!(text[1], "ij\n".repeat(7) + "\n");
    assert_eq!(wr.next_offset(), 8);
}

#[test]
fn first_document_never_rotates() {
    let mut wr = Writer::new("fr".to_string(), Some(1));
    let ops = wr.write_single(doc("fr", vec!["a long line".to_string()], "a")).unwrap();
    assert!(!ops.iter().any(|o| matches!(o, Op::Rotate)));
    let ops = wr.write_single(doc("fr", vec!["again".to_string()], "b")).unwrap();
    assert!(matches!(ops[0], Op::Rotate));
    assert_eq!(wr.next_offset(), 2);
}

#[test]
fn bulk_policy() {
    assert!(prefers_bulk(4, Some(5)));
    assert!(!prefers_bulk(5, Some(5)));
    assert!(!prefers_bulk(6, Some(5)));
    assert!(prefers_bulk(u64::MAX, None));
    assert!(prefers_bulk(0, None));
}

#[test]
fn close_meta_is_one_operation() {
    let mut wr = Writer::new("fr".to_string(), None);
    let ops = wr.close_meta();
    assert_eq!(ops.len(), 1);
    assert!(matches!(ops[0], Op::CloseMeta));
}

#[test]
fn free_space_follows_written_bytes() {
    let mut wr = Writer::new("fr".to_string(), Some(100));
    assert_eq!(wr.free_space(), Some(100));
    wr.write_single(doc("fr", vec!["abcd".to_string(), "é".to_string()], "a")).unwrap();
    // "abcd\n" (5 bytes), "é\n" (3 bytes), "\n"
    assert_eq!(wr.free_space(), Some(91));
    let unbounded = Writer::new("fr".to_string(), None);
    assert_eq!(unbounded.free_space(), None);
}
