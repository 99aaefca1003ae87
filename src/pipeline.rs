//! The stages that turn a record into a document: the quality filter, the
//! document-level identification, the content annotation and the trimming of
//! short boundary lines.
use vstd::prelude::*;
use crate::document::{
    byte_len, document_identification, line_bytes, identified_bytes, is_document_vote, Document,
    Identification,
};

verus! {

/// Whether a line counts as long: at least `min_length` bytes.
pub open spec fn is_long(line: String, min_length: usize) -> bool {
    byte_len(line@) >= min_length
}

/// Bytes of the first `n` lines, and of those among them that are long.
pub open spec fn content_bytes(lines: Seq<String>, min_length: usize, n: int) -> (nat, nat)
    decreases n,
{
    if n <= 0 {
        (0, 0)
    } else {
        let (all, long) = content_bytes(lines, min_length, n - 1);
        let b = byte_len(lines[n - 1]@);
        (all + b, long + if is_long(lines[n - 1], min_length) {
            b
        } else {
            0
        })
    }
}

/// The record-level quality policy.
#[derive(Clone, Copy, Debug, PartialEq, Eq, Structural)]
pub enum FilterKind {
    /// Keep a record when its long lines (`min_length` bytes or more) hold at
    /// least `min_long_percent` percent of its bytes.
    ShortSentences { min_length: usize, min_long_percent: usize },
    /// Keep every record.
    AcceptAll,
}

/// Whether `kind` keeps a record whose body has these lines.
pub open spec fn keeps(kind: FilterKind, lines: Seq<String>) -> bool {
    match kind {
        FilterKind::ShortSentences { min_length, min_long_percent } => {
            let (all, long) = content_bytes(lines, min_length, lines.len() as int);
            long * 100 >= min_long_percent * all
        },
        FilterKind::AcceptAll => true,
    }
}

proof fn lemma_content_bytes_monotone(lines: Seq<String>, min_length: usize, m: int, n: int)
    requires
        m <= n,
    ensures
        content_bytes(lines, min_length, m).0 <= content_bytes(lines, min_length, n).0,
    decreases n - m,
{
    if m < n {
        lemma_content_bytes_monotone(lines, min_length, m, n - 1);
    }
}

proof fn lemma_long_within_all(lines: Seq<String>, min_length: usize, n: int)
    ensures
        content_bytes(lines, min_length, n).1 <= content_bytes(lines, min_length, n).0,
    decreases n,
{
    if n > 0 {
        lemma_long_within_all(lines, min_length, n - 1);
    }
}

impl FilterKind {
    /// The default policy: long lines of 100 bytes or more must hold half of
    /// a record's bytes.
    pub fn default_policy() -> (r: FilterKind)
        ensures
            r == (FilterKind::ShortSentences { min_length: 100, min_long_percent: 50 }),
    {
        FilterKind::ShortSentences { min_length: 100, min_long_percent: 50 }
    }

    /// Whether the policy keeps a record whose body has these lines.
    pub fn detect(&self, lines: &Vec<String>) -> (r: bool)
        requires
            content_bytes(lines@, 0, lines.len() as int).0 <= u64::MAX,
        ensures
            r == keeps(*self, lines@),
    {
        match *self {
            FilterKind::AcceptAll => true,
            FilterKind::ShortSentences { min_length, min_long_percent } => {
                let mut all: u64 = 0;
                let mut long: u64 = 0;
                let mut i: usize = 0;
                proof {
                    lemma_same_totals(lines@, 0, min_length, lines.len() as int);
                }
                while i < lines.len()
                    invariant
                        i <= lines.len(),
                        content_bytes(lines@, min_length, lines.len() as int).0 <= u64::MAX,
                        (all as nat, long as nat) == content_bytes(lines@, min_length, i as int),
                    decreases lines.len() - i,
                {
                    proof {
                        lemma_content_bytes_monotone(lines@, min_length, i + 1, lines.len() as int);
                        lemma_long_within_all(lines@, min_length, i + 1);
                    }
                    let b = line_bytes(&lines[i]) as u64;
                    all = all + b;
                    if b >= min_length as u64 {
                        long = long + b;
                    }
                    i = i + 1;
                }
                proof {
                    let p = min_long_percent as int;
                    let a = all as int;
                    assert(p * a <= 0xffff_ffff_ffff_ffff * 0xffff_ffff_ffff_ffff) by (nonlinear_arith)
                        requires
                            0 <= p <= 0xffff_ffff_ffff_ffff,
                            0 <= a <= 0xffff_ffff_ffff_ffff,
                    ;
                }
                long as u128 * 100 >= min_long_percent as u128 * all as u128
            },
        }
    }
}

proof fn lemma_same_totals(lines: Seq<String>, a: usize, b: usize, n: int)
    ensures
        content_bytes(lines, a, n).0 == content_bytes(lines, b, n).0,
    decreases n,
{
    if n > 0 {
        lemma_same_totals(lines, a, b, n - 1);
    }
}

/// Builds a document from a record's lines, headers and line identifications,
/// identified by the vote of its lines. `None` when no line was identified:
/// the record is then dropped.
pub fn build_document(
    lines: Vec<String>,
    headers: Vec<(String, String)>,
    line_identifications: Vec<Option<Identification>>,
) -> (r: Option<Document>)
    requires
        lines.len() == line_identifications.len(),
        identified_bytes(lines@, line_identifications@, lines.len() as int) <= usize::MAX,
    ensures
        r is None <==> forall|i: int|
            0 <= i < line_identifications.len() ==> (#[trigger] line_identifications@[i]).is_none(),
        r matches Some(d) ==> {
            &&& d.lines == lines
            &&& d.headers == headers
            &&& d.line_identifications == line_identifications
            &&& d.annotation is None
            &&& is_document_vote(lines@, line_identifications@, d.identification)
        },
{
    match document_identification(&lines, &line_identifications) {
        None => None,
        Some(identification) => Some(
            Document { lines, headers, identification, line_identifications, annotation: None },
        ),
    }
}

/// Adds the content category `category`, if any, to the document's
/// annotation; the rest of the document is kept as it is.
pub fn annotate(doc: Document, category: Option<String>) -> (r: Document)
    ensures
        r.lines == doc.lines,
        r.headers == doc.headers,
        r.identification == doc.identification,
        r.line_identifications == doc.line_identifications,
        category is None ==> r.annotation == doc.annotation,
        category matches Some(c) ==> r.annotation matches Some(a) && a@ == (match doc.annotation {
            Some(old_a) => old_a@,
            None => Seq::empty(),
        }).push(c),
{
    let Document { lines, headers, identification, line_identifications, annotation } = doc;
    let annotation = match category {
        None => annotation,
        Some(c) => {
            let mut a = match annotation {
                Some(a) => a,
                None => Vec::new(),
            };
            a.push(c);
            Some(a)
        },
    };
    Document { lines, headers, identification, line_identifications, annotation }
}

/// The lines kept by trimming: from `start` to `end`, excluded, where the
/// lines before `start` and from `end` on are short, and the first and the
/// last kept lines are long.
pub open spec fn trim_bounds(lines: Seq<String>, min_length: usize, start: int, end: int) -> bool {
    &&& 0 <= start <= end <= lines.len()
    &&& forall|k: int| 0 <= k < start ==> !is_long(#[trigger] lines[k], min_length)
    &&& forall|k: int| end <= k < lines.len() ==> !is_long(#[trigger] lines[k], min_length)
    &&& start < end ==> is_long(lines[start], min_length) && is_long(lines[end - 1], min_length)
}

/// Removes the short lines (under `min_length` bytes) at the start and at the
/// end of a document. The identification fields, the per-line ones included,
/// the headers and the annotation are kept.
pub fn trim_short_lines(doc: Document, min_length: usize) -> (r: Document)
    ensures
        exists|start: int, end: int|
            trim_bounds(doc.lines@, min_length, start, end) && r.lines@ == doc.lines@.subrange(
                start,
                end,
            ),
        r.line_identifications == doc.line_identifications,
        r.headers == doc.headers,
        r.identification == doc.identification,
        r.annotation == doc.annotation,
{
    let Document { mut lines, headers, identification, line_identifications, annotation } = doc;
    let ghost orig = lines@;
    let n = lines.len();
    let mut start: usize = 0;
    while start < n && line_bytes(&lines[start]) < min_length
        invariant
            n == lines.len(),
            start <= n,
            forall|k: int| 0 <= k < start ==> !is_long(#[trigger] lines@[k], min_length),
        decreases n - start,
    {
        start = start + 1;
    }
    let mut end: usize = n;
    while end > start && line_bytes(&lines[end - 1]) < min_length
        invariant
            n == lines.len(),
            start <= end <= n,
            forall|k: int| end <= k < n ==> !is_long(#[trigger] lines@[k], min_length),
        decreases end,
    {
        end = end - 1;
    }
    proof {
        assert(trim_bounds(orig, min_length, start as int, end as int));
    }
    lines.truncate(end);
    let kept = lines.split_off(start);
    proof {
        assert(kept@ =~= orig.subrange(start as int, end as int));
    }
    Document { lines: kept, headers, identification, line_identifications, annotation }
}

/// The stages that follow the identification of a record's lines: the vote,
/// then the annotation with `category`, then the trimming of short boundary
/// lines. Trimming comes last, so the trimmed lines still took part in the
/// vote. `None` when no line was identified.
pub fn finish_document(
    lines: Vec<String>,
    headers: Vec<(String, String)>,
    line_identifications: Vec<Option<Identification>>,
    category: Option<String>,
    min_length: usize,
) -> (r: Option<Document>)
    requires
        lines.len() == line_identifications.len(),
        identified_bytes(lines@, line_identifications@, lines.len() as int) <= usize::MAX,
    ensures
        r is None <==> forall|i: int|
            0 <= i < line_identifications.len() ==> (#[trigger] line_identifications@[i]).is_none(),
        r matches Some(d) ==> {
            &&& is_document_vote(lines@, line_identifications@, d.identification)
            &&& d.headers == headers
            &&& exists|start: int, end: int|
                trim_bounds(lines@, min_length, start, end) && d.lines@ == lines@.subrange(
                    start,
                    end,
                )
            &&& d.line_identifications == line_identifications
            &&& category is None ==> d.annotation is None
            &&& category matches Some(c) ==> d.annotation matches Some(a) && a@ == seq![c]
        },
{
    match build_document(lines, headers, line_identifications) {
        None => None,
        Some(doc) => {
            let doc = annotate(doc, category);
            proof {
                assert(category matches Some(c) ==> Seq::<String>::empty().push(c) =~= seq![c]);
            }
            Some(trim_short_lines(doc, min_length))
        },
    }
}

/// The content category of a document from `domain`: `category` when the
/// domain is on the blocklist, none otherwise.
pub fn blocklist_category(domain: &String, blocklist: &Vec<String>, category: String) -> (r:
    Option<String>)
    ensures
        r is Some <==> exists|i: int| 0 <= i < blocklist.len() && (#[trigger] blocklist@[i])@ == domain@,
        r matches Some(c) ==> c == category,
{
    let mut i: usize = 0;
    while i < blocklist.len()
        invariant
            i <= blocklist.len(),
            forall|j: int| 0 <= j < i ==> (#[trigger] blocklist@[j])@ != domain@,
        decreases blocklist.len() - i,
    {
        if blocklist[i] == *domain {
            return Some(category);
        }
        i = i + 1;
    }
    None
}

} // verus!
