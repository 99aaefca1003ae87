use oscar_corpus::document::{document_identification, Document, Identification, Ratio};
use oscar_corpus::pipeline::{
    annotate, blocklist_category, build_document, finish_document, trim_short_lines, FilterKind,
};
use oscar_corpus::router::sort_by_lang;

fn ident(label: &str) -> Identification {
    Identification { label: label.to_string(), confidence: Ratio { num: 9, den: 10 } }
}

fn strings(v: &[&str]) -> Vec<String> {
    v.iter().map(|s| s.to_string()).collect()
}

fn doc(label: &str, lines: &[&str]) -> Document {
    Document {
        lines: strings(lines),
        headers: vec![],
        identification: ident(label),
        line_identifications: lines.iter().map(|_| Some(ident(label))).collect(),
        annotation: None,
    }
}

#[test]
fn vote_picks_most_bytes() {
    let lines = strings(&["bonjour", "hello world", "salut"]);
    let ids = vec![Some(ident("fr")), Some(ident("en")), Some(ident("fr"))];
    let id = document_identification(&lines, &ids).unwrap();
    assert_eq!(id.label, "fr");
    assert_eq!(id.confidence, Ratio { num: 12, den: 23 });
}

#[test]
fn vote_ignores_unidentified_lines() {
    let lines = strings(&["hello", "xxxxxxxxxxxxxxxxxxxx", "ça"]);
    let ids = vec![Some(ident("en")), None, Some(ident("fr"))];
    let id = document_identification(&lines, &ids).unwrap();
    assert_eq!(id.label, "en");
    // "ça" is three bytes
    assert_eq!(id.confidence, Ratio { num: 5, den: 8 });
}

#[test]
fn vote_tie_goes_to_first_label() {
    let lines = strings(&["ab", "cd"]);
    let ids = vec![Some(ident("en")), Some(ident("fr"))];
    assert_eq!(document_identification(&lines, &ids).unwrap().label, "en");
}

#[test]
fn unidentifiable_record_is_dropped() {
    let lines = strings(&["???", "!!!"]);
    let ids = vec![None, None];
    assert!(build_document(lines.clone(), vec![], ids).is_none());
    let r = finish_document(lines, vec![], vec![None, None], None, 100);
    assert!(r.is_none());
}

#[test]
fn built_document_keeps_its_parts() {
    let lines = strings(&["bonjour tout le monde"]);
    let headers = vec![("WARC-Record-ID".to_string(), "<urn:1>".to_string())];
    let d = build_document(lines.clone(), headers.clone(), vec![Some(ident("fr"))]).unwrap();
    assert_eq!(d.lines, lines);
    assert_eq!(d.headers, headers);
    assert_eq!(d.identification.label, "fr");
    assert_eq!(d.identification.confidence, Ratio { num: 21, den: 21 });
    assert!(d.annotation.is_none());
}

#[test]
fn default_filter_keeps_long_content() {
    let long = "x".repeat(120);
    let f = FilterKind::default_policy();
    assert!(f.detect(&vec![long.clone(), "short".to_string()]));
    assert!(!f.detect(&strings(&["a", "b", "c"])));
    assert!(!f.detect(&vec!["y".repeat(99); 3]));
    assert!(f.detect(&vec![]));
    assert!(FilterKind::AcceptAll.detect(&strings(&["a"])));
}

#[test]
fn filter_threshold_is_inclusive() {
    let f = FilterKind::ShortSentences { min_length: 4, min_long_percent: 50 };
    // 4 long bytes out of 8
    assert!(f.detect(&strings(&["abcd", "ab", "cd"])));
    // 4 long bytes out of 9
    assert!(!f.detect(&strings(&["abcd", "abc", "cd"])));
}

#[test]
fn trimming_removes_short_boundary_lines() {
    let mut d = doc("fr", &["a", "a long enough line", "b", "another long line", "c"]);
    d.line_identifications[2] = None;
    let t = trim_short_lines(d, 5);
    assert_eq!(t.lines, strings(&["a long enough line", "b", "another long line"]));
    assert_eq!(t.line_identifications.len(), 5);
    assert!(t.line_identifications[2].is_none());
    assert_eq!(t.identification.label, "fr");
}

#[test]
fn trimming_all_short_lines_leaves_nothing() {
    let t = trim_short_lines(doc("fr", &["a", "b"]), 5);
    assert!(t.lines.is_empty());
    assert_eq!(t.line_identifications.len(), 2);
}

#[test]
fn annotation_keeps_identification() {
    let d = annotate(doc("fr", &["une ligne"]), Some("adult".to_string()));
    assert_eq!(d.annotation, Some(vec!["adult".to_string()]));
    assert_eq!(d.identification.label, "fr");
    let d = annotate(d, Some("spam".to_string()));
    assert_eq!(d.annotation, Some(strings(&["adult", "spam"])));
    let d = annotate(d, None);
    assert_eq!(d.annotation.map(|a| a.len()), Some(2));
}

#[test]
fn finish_document_trims_after_the_vote() {
    let lines = strings(&["ok", "une phrase assez longue", "no"]);
    let ids = vec![Some(ident("en")), Some(ident("fr")), Some(ident("en"))];
    let d = finish_document(lines, vec![], ids, Some("adult".to_string()), 5).unwrap();
    assert_eq!(d.identification.label, "fr");
    assert_eq!(d.identification.confidence, Ratio { num: 23, den: 27 });
    assert_eq!(d.lines, strings(&["une phrase assez longue"]));
    assert_eq!(d.line_identifications.len(), 3);
    assert_eq!(d.annotation, Some(vec!["adult".to_string()]));
}

#[test]
fn routing_groups_by_language_in_order() {
    let docs = vec![
        doc("fr", &["un"]),
        doc("en", &["one"]),
        doc("fr", &["deux"]),
        doc("de", &["eins"]),
        doc("en", &["two"]),
    ];
    let groups = sort_by_lang(docs);
    let langs: Vec<&str> = groups.iter().map(|g| g.lang.as_str()).collect();
    assert_eq!(langs, vec!["fr", "en", "de"]);
    let fr: Vec<&str> = groups[0].documents.iter().map(|d| d.lines[0].as_str()).collect();
    assert_eq!(fr, vec!["un", "deux"]);
    let en: Vec<&str> = groups[1].documents.iter().map(|d| d.lines[0].as_str()).collect();
    assert_eq!(en, vec!["one", "two"]);
    assert_eq!(groups[2].documents.len(), 1);
}

#[test]
fn routing_nothing_gives_no_group() {
    assert!(sort_by_lang(vec![]).is_empty());
}

#[test]
fn blocklisted_domain_gets_the_category() {
    let blocklist = strings(&["bad.example", "worse.example"]);
    let c = blocklist_category(&"worse.example".to_string(), &blocklist, "adult".to_string());
    assert_eq!(c, Some("adult".to_string()));
    let c = blocklist_category(&"good.example".to_string(), &blocklist, "adult".to_string());
    assert_eq!(c, None);
    assert_eq!(blocklist_category(&"x".to_string(), &vec![], "adult".to_string()), None);
}
