//! Documents, identifications and the document-level language vote.
use vstd::prelude::*;
use vstd::utf8::encode_utf8;

verus! {

/// A confidence given as the fraction `num / den`.
#[derive(Clone, Copy, Debug, PartialEq, Eq, Structural)]
pub struct Ratio {
    pub num: usize,
    pub den: usize,
}

/// A language label together with a confidence.
#[derive(Clone, Debug)]
pub struct Identification {
    pub label: String,
    pub confidence: Ratio,
}

/// Number of bytes of the UTF-8 encoding of `s`.
pub open spec fn byte_len(s: Seq<char>) -> nat {
    encode_utf8(s).len()
}

/// The number of bytes of a line.
pub fn line_bytes(s: &String) -> (r: usize)
    ensures
        r == byte_len(s@),
{
    s.as_str().as_bytes().len()
}

/// Whether a line identification carries the label `label`.
pub open spec fn has_label(id: Option<Identification>, label: Seq<char>) -> bool {
    match id {
        Some(i) => i.label@ == label,
        None => false,
    }
}

/// Bytes of the first `n` lines whose identification carries `label`.
pub open spec fn label_bytes(
    lines: Seq<String>,
    ids: Seq<Option<Identification>>,
    label: Seq<char>,
    n: int,
) -> nat
    decreases n,
{
    if n <= 0 {
        0
    } else {
        label_bytes(lines, ids, label, n - 1) + if has_label(ids[n - 1], label) {
            byte_len(lines[n - 1]@)
        } else {
            0
        }
    }
}

/// Bytes of the first `n` lines that received an identification.
pub open spec fn identified_bytes(lines: Seq<String>, ids: Seq<Option<Identification>>, n: int) -> nat
    decreases n,
{
    if n <= 0 {
        0
    } else {
        identified_bytes(lines, ids, n - 1) + if ids[n - 1].is_some() {
            byte_len(lines[n - 1]@)
        } else {
            0
        }
    }
}

/// The document-level vote: `id` carries a label of maximal byte total, the
/// first such label in line order, and the share of identified bytes that it got.
pub open spec fn is_document_vote(
    lines: Seq<String>,
    ids: Seq<Option<Identification>>,
    id: Identification,
) -> bool {
    let n = lines.len() as int;
    let best = label_bytes(lines, ids, id.label@, n);
    &&& id.confidence == (Ratio { num: best as usize, den: identified_bytes(lines, ids, n) as usize })
    &&& forall|l: Seq<char>| label_bytes(lines, ids, l, n) <= best
    &&& exists|i: int|
        0 <= i < n && #[trigger] has_label(ids[i], id.label@) && forall|j: int|
            0 <= j < i && (#[trigger] ids[j]).is_some() ==> label_bytes(
                lines,
                ids,
                ids[j].unwrap().label@,
                n,
            ) < best
}

proof fn lemma_label_bytes_bounded(
    lines: Seq<String>,
    ids: Seq<Option<Identification>>,
    label: Seq<char>,
    n: int,
)
    ensures
        label_bytes(lines, ids, label, n) <= identified_bytes(lines, ids, n),
    decreases n,
{
    if n > 0 {
        lemma_label_bytes_bounded(lines, ids, label, n - 1);
    }
}

proof fn lemma_identified_bytes_monotone(
    lines: Seq<String>,
    ids: Seq<Option<Identification>>,
    m: int,
    n: int,
)
    requires
        m <= n,
    ensures
        identified_bytes(lines, ids, m) <= identified_bytes(lines, ids, n),
    decreases n - m,
{
    if m < n {
        lemma_identified_bytes_monotone(lines, ids, m, n - 1);
    }
}

proof fn lemma_label_bytes_witness(
    lines: Seq<String>,
    ids: Seq<Option<Identification>>,
    label: Seq<char>,
    n: int,
)
    requires
        label_bytes(lines, ids, label, n) > 0,
    ensures
        exists|i: int| 0 <= i < n && #[trigger] has_label(ids[i], label),
    decreases n,
{
    if n > 0 && !has_label(ids[n - 1], label) {
        lemma_label_bytes_witness(lines, ids, label, n - 1);
    }
}

/// Bytes of the lines whose identification carries `label`.
fn bytes_of_label(lines: &Vec<String>, ids: &Vec<Option<Identification>>, label: &String) -> (r: usize)
    requires
        lines.len() == ids.len(),
        identified_bytes(lines@, ids@, lines.len() as int) <= usize::MAX,
    ensures
        r == label_bytes(lines@, ids@, label@, lines.len() as int),
{
    let mut total: usize = 0;
    let mut i: usize = 0;
    while i < lines.len()
        invariant
            i <= lines.len() == ids.len(),
            identified_bytes(lines@, ids@, lines.len() as int) <= usize::MAX,
            total == label_bytes(lines@, ids@, label@, i as int),
        decreases lines.len() - i,
    {
        proof {
            lemma_label_bytes_bounded(lines@, ids@, label@, i + 1);
            lemma_identified_bytes_monotone(lines@, ids@, i + 1, lines.len() as int);
        }
        match &ids[i] {
            Some(id) => {
                if id.label == *label {
                    let b = line_bytes(&lines[i]);
                    total = total + b;
                }
            },
            None => {},
        }
        i = i + 1;
    }
    total
}

/// Identifies a document from the identifications of its lines: the label
/// that covers the most bytes wins (the first one in line order among equals),
/// with the share of identified bytes that it covers as confidence. `None`
/// when no line was identified.
pub fn document_identification(lines: &Vec<String>, ids: &Vec<Option<Identification>>) -> (r:
    Option<Identification>)
    requires
        lines.len() == ids.len(),
        identified_bytes(lines@, ids@, lines.len() as int) <= usize::MAX,
    ensures
        r.is_none() <==> forall|i: int| 0 <= i < ids.len() ==> (#[trigger] ids@[i]).is_none(),
        r matches Some(id) ==> is_document_vote(lines@, ids@, id),
{
    let n = lines.len();
    let mut best: Option<usize> = None;
    let mut best_bytes: usize = 0;
    let mut i: usize = 0;
    while i < n
        invariant
            n == lines.len() == ids.len(),
            i <= n,
            identified_bytes(lines@, ids@, n as int) <= usize::MAX,
            best is None ==> forall|j: int| 0 <= j < i ==> (#[trigger] ids@[j]).is_none(),
            best matches Some(b) ==> {
                &&& b < i
                &&& ids@[b as int] is Some
                &&& best_bytes == label_bytes(lines@, ids@, ids@[b as int].unwrap().label@, n as int)
                &&& forall|j: int|
                    0 <= j < i && (#[trigger] ids@[j]).is_some() ==> label_bytes(
                        lines@,
                        ids@,
                        ids@[j].unwrap().label@,
                        n as int,
                    ) <= best_bytes
                &&& forall|j: int|
                    0 <= j < b && (#[trigger] ids@[j]).is_some() ==> label_bytes(
                        lines@,
                        ids@,
                        ids@[j].unwrap().label@,
                        n as int,
                    ) < best_bytes
            },
        decreases n - i,
    {
        match &ids[i] {
            Some(id) => {
                let b = bytes_of_label(lines, ids, &id.label);
                if best.is_none() || b > best_bytes {
                    best = Some(i);
                    best_bytes = b;
                }
            },
            None => {},
        }
        i = i + 1;
    }
    match best {
        None => None,
        Some(b) => {
            let total = bytes_of_label_total(lines, ids);
            let label = ids[b].as_ref().unwrap().label.clone();
            let ghost l = label@;
            proof {
                assert(has_label(ids@[b as int], l));
                assert forall|x: Seq<char>| label_bytes(lines@, ids@, x, n as int) <= best_bytes by {
                    if label_bytes(lines@, ids@, x, n as int) > 0 {
                        lemma_label_bytes_witness(lines@, ids@, x, n as int);
                        let k = choose|k: int| 0 <= k < n && #[trigger] has_label(ids@[k], x);
                        assert(ids@[k].is_some());
                    }
                }
                lemma_label_bytes_bounded(lines@, ids@, l, n as int);
            }
            Some(Identification { label, confidence: Ratio { num: best_bytes, den: total } })
        },
    }
}

/// Bytes of all the lines that received an identification.
fn bytes_of_label_total(lines: &Vec<String>, ids: &Vec<Option<Identification>>) -> (r: usize)
    requires
        lines.len() == ids.len(),
        identified_bytes(lines@, ids@, lines.len() as int) <= usize::MAX,
    ensures
        r == identified_bytes(lines@, ids@, lines.len() as int),
{
    let mut total: usize = 0;
    let mut i: usize = 0;
    while i < lines.len()
        invariant
            i <= lines.len() == ids.len(),
            identified_bytes(lines@, ids@, lines.len() as int) <= usize::MAX,
            total == identified_bytes(lines@, ids@, i as int),
        decreases lines.len() - i,
    {
        proof {
            lemma_identified_bytes_monotone(lines@, ids@, i + 1, lines.len() as int);
        }
        if ids[i].is_some() {
            let b = line_bytes(&lines[i]);
            total = total + b;
        }
        i = i + 1;
    }
    total
}

/// A language-identified document. `lines` are its sentences: the lines of
/// its body, without their line terminators. `line_identifications` holds the
/// identification of each line of the record the document was built from,
/// the ones that took part in the vote; trimming lines keeps it whole.
#[derive(Clone, Debug)]
pub struct Document {
    pub lines: Vec<String>,
    pub headers: Vec<(String, String)>,
    pub identification: Identification,
    pub line_identifications: Vec<Option<Identification>>,
    pub annotation: Option<Vec<String>>,
}

impl Document {
    /// The document's lines, as character sequences.
    pub open spec fn text(&self) -> Seq<Seq<char>> {
        lines_view(self.lines@)
    }

    /// The document's language label.
    pub open spec fn label(&self) -> Seq<char> {
        self.identification.label@
    }
}

/// The character sequences of `lines`.
pub open spec fn lines_view(lines: Seq<String>) -> Seq<Seq<char>> {
    lines.map_values(|l: String| l@)
}

/// What is persisted about one document beside its text.
#[derive(Clone, Debug)]
pub struct Metadata {
    pub headers: Vec<(String, String)>,
    pub identification: Identification,
    pub annotation: Option<Vec<String>>,
    pub sentence_identifications: Vec<Option<Identification>>,
    pub nb_sentences: usize,
    pub offset: usize,
}

/// The metadata of `d` when its text starts at line `offset`.
pub open spec fn record_of(d: Document, offset: int) -> Metadata {
    Metadata {
        headers: d.headers,
        identification: d.identification,
        annotation: d.annotation,
        sentence_identifications: d.line_identifications,
        nb_sentences: d.lines.len(),
        offset: offset as usize,
    }
}

/// Builds the metadata of `d` for a text that starts at line `offset`.
pub fn into_record(d: Document, offset: usize) -> (r: (Vec<String>, Metadata))
    ensures
        r.0@ == d.lines@,
        r.1 == record_of(d, offset as int),
{
    let Document { lines, headers, identification, line_identifications, annotation } = d;
    let nb_sentences = lines.len();
    (
        lines,
        Metadata {
            headers,
            identification,
            annotation,
            sentence_identifications: line_identifications,
            nb_sentences,
            offset,
        },
    )
}

} // verus!
