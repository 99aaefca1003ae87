//! A per-language writer: it keeps the text files and the metadata files of
//! one language in step, so that the offset stored in each metadata record is
//! the line at which the document's text starts in the file of the same index.
//!
//! The writer decides; it does not touch a disk. Each write hands back the
//! file operations to perform, in order, and the ghost model `files` tracks
//! what the files hold once they are performed.
use vstd::prelude::*;
use crate::document::{
    byte_len, into_record, line_bytes, lines_view, record_of, Document, Metadata,
};

verus! {

/// One operation on the files of a language.
#[derive(Debug)]
pub enum Op {
    /// Close the current text and metadata files and begin the next numbered pair.
    Rotate,
    /// Append these lines to the current text file, each followed by a newline.
    Text(Vec<String>),
    /// Append these records to the current metadata file, one line each.
    Meta(Vec<Metadata>),
    /// Flush and close the current metadata file.
    CloseMeta,
}

/// The contents of the files of one language: the lines of each numbered
/// text file, and the records of each numbered metadata file.
pub struct Files {
    pub text: Seq<Seq<Seq<char>>>,
    pub meta: Seq<Seq<Metadata>>,
}

/// The files of a writer that has written nothing.
pub open spec fn empty_files() -> Files {
    Files { text: seq![Seq::empty()], meta: seq![Seq::empty()] }
}

/// `f` with a new, empty pair of files begun.
pub open spec fn rotated(f: Files) -> Files {
    Files { text: f.text.push(Seq::empty()), meta: f.meta.push(Seq::empty()) }
}

/// `f` with `lines` appended to the current text file and `records` to the
/// current metadata file.
pub open spec fn appended(f: Files, lines: Seq<Seq<char>>, records: Seq<Metadata>) -> Files {
    Files {
        text: f.text.update(f.text.len() - 1, f.text.last() + lines),
        meta: f.meta.update(f.meta.len() - 1, f.meta.last() + records),
    }
}

/// The effect of one operation.
pub open spec fn apply_op(f: Files, op: Op) -> Files {
    match op {
        Op::Rotate => rotated(f),
        Op::Text(lines) => appended(f, lines_view(lines@), Seq::empty()),
        Op::Meta(records) => appended(f, Seq::empty(), records@),
        Op::CloseMeta => f,
    }
}

/// The effect of a sequence of operations, performed in order.
pub open spec fn apply_ops(f: Files, ops: Seq<Op>) -> Files
    decreases ops.len(),
{
    if ops.len() == 0 {
        f
    } else {
        apply_op(apply_ops(f, ops.drop_last()), ops.last())
    }
}

/// `x` capped at the largest `u64`.
pub open spec fn sat(x: nat) -> nat {
    if x > u64::MAX {
        u64::MAX as nat
    } else {
        x
    }
}

/// Bytes that `lines` take in a file, a newline after each.
pub open spec fn text_bytes(lines: Seq<Seq<char>>) -> nat
    decreases lines.len(),
{
    if lines.len() == 0 {
        0
    } else {
        text_bytes(lines.drop_last()) + byte_len(lines.last()) + 1
    }
}

/// The lines that a document takes in a text file: its own, then a blank one.
pub open spec fn block(d: Document) -> Seq<Seq<char>> {
    d.text().push(Seq::empty())
}

/// The blocks of `docs`, back to back, in order.
pub open spec fn blocks(docs: Seq<Document>) -> Seq<Seq<char>>
    decreases docs.len(),
{
    if docs.len() == 0 {
        Seq::empty()
    } else {
        blocks(docs.drop_last()) + block(docs.last())
    }
}

/// The records of `docs` when their blocks are written back to back from line `base`.
pub open spec fn records_of(docs: Seq<Document>, base: int) -> Seq<Metadata>
    decreases docs.len(),
{
    if docs.len() == 0 {
        Seq::empty()
    } else {
        records_of(docs.drop_last(), base).push(
            record_of(docs.last(), base + blocks(docs.drop_last()).len()),
        )
    }
}

/// The number of sentences of `docs`.
pub open spec fn sentence_total(docs: Seq<Document>) -> nat
    decreases docs.len(),
{
    if docs.len() == 0 {
        0
    } else {
        sentence_total(docs.drop_last()) + docs.last().lines@.len()
    }
}

/// Whether writing `incoming` after `current` begins a new file: only a file
/// that holds something is left, and only when the size limit would be exceeded.
pub open spec fn starts_new_file(
    limit: Option<u64>,
    current: Seq<Seq<char>>,
    incoming: Seq<Seq<char>>,
) -> bool {
    match limit {
        Some(l) => current.len() > 0 && sat(text_bytes(current) + text_bytes(incoming)) > l,
        None => false,
    }
}

/// `f` after writing the blocks of `docs` back to back into the current text
/// file, from its end, and their records into the current metadata file.
/// This is how a batch written in one piece lands: it never begins a new file.
pub open spec fn written(f: Files, docs: Seq<Document>) -> Files {
    appended(f, blocks(docs), records_of(docs, f.text.last().len() as int))
}

/// `f` after writing `docs` together, beginning a new pair of files first
/// where the size limit asks for it: how one document lands when documents
/// are written one at a time.
pub open spec fn after_write(
    f: Files,
    limit: Option<u64>,
    docs: Seq<Document>,
) -> Files {
    written(
        if starts_new_file(limit, f.text.last(), blocks(docs)) {
            rotated(f)
        } else {
            f
        },
        docs,
    )
}

/// `f` after writing the documents one at a time.
pub open spec fn after_singles(f: Files, limit: Option<u64>, docs: Seq<Document>) -> Files
    decreases docs.len(),
{
    if docs.len() == 0 {
        f
    } else {
        after_write(after_singles(f, limit, docs.drop_last()), limit, seq![docs.last()])
    }
}

/// Whether a batch of `total` sentences is written in one piece: when it is
/// smaller than the free space, or when the free space is not known.
pub open spec fn bulk_preferred(total: nat, free: Option<u64>) -> bool {
    match free {
        Some(f) => total < f,
        None => true,
    }
}

/// The free space of the current text file, under a size limit.
pub open spec fn free_space_of(limit: Option<u64>, current: Seq<Seq<char>>) -> Option<u64> {
    match limit {
        Some(l) => Some(
            (if sat(text_bytes(current)) >= l {
                0
            } else {
                l - sat(text_bytes(current))
            }) as u64,
        ),
        None => None,
    }
}

/// The records of `meta` cover the lines from 0 to this one, excluded.
pub open spec fn end_line(meta: Seq<Metadata>) -> int {
    if meta.len() == 0 {
        0
    } else {
        meta.last().offset + meta.last().nb_sentences + 1
    }
}

/// A text file and its metadata file agree: the records tile the text back to
/// back from line 0, each block closed by a blank line, all of language `lang`.
pub open spec fn aligned(text: Seq<Seq<char>>, meta: Seq<Metadata>, lang: Seq<char>) -> bool {
    &&& text.len() == end_line(meta)
    &&& forall|j: int|
        0 <= j < meta.len() ==> (#[trigger] meta[j]).offset == end_line(meta.take(j))
    &&& forall|j: int|
        0 <= j < meta.len() ==> {
            &&& (#[trigger] meta[j]).identification.label@ == lang
            &&& meta[j].offset + meta[j].nb_sentences < text.len()
            &&& text[meta[j].offset + meta[j].nb_sentences] == Seq::<char>::empty()
        }
}


proof fn lemma_text_bytes_concat(a: Seq<Seq<char>>, b: Seq<Seq<char>>)
    ensures
        text_bytes(a + b) == text_bytes(a) + text_bytes(b),
    decreases b.len(),
{
    if b.len() > 0 {
        lemma_text_bytes_concat(a, b.drop_last());
        assert((a + b).drop_last() =~= a + b.drop_last());
    } else {
        assert(a + b =~= a);
    }
}

proof fn lemma_blocks_len(docs: Seq<Document>)
    ensures
        blocks(docs).len() == sentence_total(docs) + docs.len(),
    decreases docs.len(),
{
    if docs.len() > 0 {
        lemma_blocks_len(docs.drop_last());
    }
}

proof fn lemma_take_step(docs: Seq<Document>, i: int)
    requires
        0 <= i < docs.len(),
    ensures
        docs.take(i + 1).drop_last() == docs.take(i),
        docs.take(i + 1).last() == docs[i],
{
    assert(docs.take(i + 1).drop_last() =~= docs.take(i));
}

/// Appending one document's block and its record keeps a pair of files aligned.
proof fn lemma_aligned_push(text: Seq<Seq<char>>, meta: Seq<Metadata>, lang: Seq<char>, d: Document)
    requires
        aligned(text, meta, lang),
        d.label() == lang,
        text.len() + d.lines.len() + 1 <= usize::MAX,
    ensures
        aligned(text + block(d), meta.push(record_of(d, text.len() as int)), lang),
{
    let t2 = text + block(d);
    let r = record_of(d, text.len() as int);
    let m2 = meta.push(r);
    assert(d.text().len() == d.lines@.len());
    assert forall|j: int| 0 <= j < m2.len() implies (#[trigger] m2[j]).offset == end_line(
        m2.take(j),
    ) by {
        if j < meta.len() {
            assert(m2.take(j) =~= meta.take(j));
        } else {
            assert(m2.take(j) =~= meta);
        }
    }
    assert forall|j: int| 0 <= j < m2.len() implies {
        &&& (#[trigger] m2[j]).identification.label@ == lang
        &&& m2[j].offset + m2[j].nb_sentences < t2.len()
        &&& t2[m2[j].offset + m2[j].nb_sentences] == Seq::<char>::empty()
    } by {
        if j < meta.len() {
            assert(m2[j] == meta[j]);
        } else {
            assert(t2[text.len() + d.lines.len()] == block(d)[d.lines.len() as int]);
        }
    }
}

/// Appending the blocks of documents of the file's language, with their
/// records laid out back to back, keeps a pair of files aligned.
proof fn lemma_aligned_append(
    text: Seq<Seq<char>>,
    meta: Seq<Metadata>,
    lang: Seq<char>,
    docs: Seq<Document>,
)
    requires
        aligned(text, meta, lang),
        forall|i: int| 0 <= i < docs.len() ==> (#[trigger] docs[i]).label() == lang,
        text.len() + blocks(docs).len() <= usize::MAX,
    ensures
        aligned(text + blocks(docs), meta + records_of(docs, text.len() as int), lang),
    decreases docs.len(),
{
    if docs.len() == 0 {
        assert(text + blocks(docs) =~= text);
        assert(meta + records_of(docs, text.len() as int) =~= meta);
    } else {
        let front = docs.drop_last();
        let d = docs.last();
        lemma_aligned_append(text, meta, lang, front);
        lemma_blocks_len(docs);
        lemma_blocks_len(front);
        let t1 = text + blocks(front);
        let m1 = meta + records_of(front, text.len() as int);
        lemma_aligned_push(t1, m1, lang, d);
        assert(t1 + block(d) =~= text + blocks(docs));
        assert(m1.push(record_of(d, t1.len() as int)) =~= meta + records_of(docs, text.len() as int));
    }
}

/// Where a document of a batch stands: its record, at the line after the blocks before it.
pub proof fn lemma_records_of_index(docs: Seq<Document>, base: int, i: int)
    requires
        0 <= i < docs.len(),
    ensures
        records_of(docs, base).len() == docs.len(),
        records_of(docs, base)[i] == record_of(docs[i], base + blocks(docs.take(i)).len()),
    decreases docs.len(),
{
    lemma_records_of_len(docs, base);
    if i < docs.len() - 1 {
        lemma_records_of_index(docs.drop_last(), base, i);
        assert(docs.drop_last().take(i) =~= docs.take(i));
    } else {
        assert(docs.take(i) =~= docs.drop_last());
    }
}

proof fn lemma_records_of_len(docs: Seq<Document>, base: int)
    ensures
        records_of(docs, base).len() == docs.len(),
    decreases docs.len(),
{
    if docs.len() > 0 {
        lemma_records_of_len(docs.drop_last(), base);
    }
}

/// The blocks of a batch begin with the blocks of its first `i` documents,
/// followed by the block of document `i`.
proof fn lemma_blocks_prefix(docs: Seq<Document>, i: int)
    requires
        0 <= i < docs.len(),
    ensures
        blocks(docs).subrange(0, blocks(docs.take(i + 1)).len() as int) == blocks(docs.take(i))
            + block(docs[i]),
        blocks(docs.take(i + 1)).len() <= blocks(docs).len(),
    decreases docs.len(),
{
    lemma_take_step(docs, i);
    if i < docs.len() - 1 {
        lemma_blocks_prefix(docs.drop_last(), i);
        assert(docs.drop_last().take(i) =~= docs.take(i));
        assert(docs.drop_last().take(i + 1) =~= docs.take(i + 1));
        assert(blocks(docs).subrange(0, blocks(docs.take(i + 1)).len() as int) =~= blocks(
            docs.drop_last(),
        ).subrange(0, blocks(docs.take(i + 1)).len() as int));
    } else {
        assert(docs.take(i + 1) =~= docs);
        assert(blocks(docs).subrange(0, blocks(docs).len() as int) =~= blocks(docs));
    }
}


/// The bytes that the blocks of `docs` take, capped at the largest `u64`.
fn batch_bytes(docs: &Vec<Document>) -> (r: u64)
    ensures
        r == sat(text_bytes(blocks(docs@))),
{
    let mut acc: u64 = 0;
    let mut i: usize = 0;
    while i < docs.len()
        invariant
            i <= docs.len(),
            acc == sat(text_bytes(blocks(docs@.take(i as int)))),
        decreases docs.len() - i,
    {
        let d = &docs[i];
        let ghost before = blocks(docs@.take(i as int));
        let mut k: usize = 0;
        while k < d.lines.len()
            invariant
                i < docs.len(),
                d == docs@[i as int],
                k <= d.lines.len(),
                acc == sat(text_bytes(before + d.text().take(k as int))),
            decreases d.lines.len() - k,
        {
            let b = line_bytes(&d.lines[k]);
            proof {
                let t = d.text();
                assert(t.take(k + 1).drop_last() =~= t.take(k as int));
                assert((before + t.take(k + 1)).drop_last() =~= before + t.take(k as int));
                assert((before + t.take(k + 1)).last() == d.lines@[k as int]@);
            }
            acc = acc.saturating_add(b as u64).saturating_add(1);
            k = k + 1;
        }
        proof {
            lemma_take_step(docs@, i as int);
            assert(d.text().take(d.lines.len() as int) =~= d.text());
            assert((before + block(*d)).drop_last() =~= before + d.text());
            assert(before + block(*d) =~= blocks(docs@.take(i + 1)));
        }
        acc = acc.saturating_add(1);
        i = i + 1;
    }
    proof {
        assert(docs@.take(docs.len() as int) =~= docs@);
    }
    acc
}

/// `docs` in reverse order, so that popping hands them out first to last.
fn reversed(docs: Vec<Document>) -> (r: Vec<Document>)
    ensures
        r.len() == docs.len(),
        forall|j: int| 0 <= j < docs.len() ==> r@[j] == docs@[docs.len() - 1 - j],
{
    let ghost orig = docs@;
    let mut docs = docs;
    let mut r: Vec<Document> = Vec::new();
    while docs.len() > 0
        invariant
            docs.len() + r.len() == orig.len(),
            docs@ == orig.take(docs.len() as int),
            forall|j: int| 0 <= j < r.len() ==> r@[j] == orig[orig.len() - 1 - j],
        decreases docs.len(),
    {
        let d = docs.pop().unwrap();
        r.push(d);
    }
    r
}


proof fn lemma_apply_ops_concat(f: Files, a: Seq<Op>, b: Seq<Op>)
    ensures
        apply_ops(f, a + b) == apply_ops(apply_ops(f, a), b),
    decreases b.len(),
{
    if b.len() == 0 {
        assert(a + b =~= a);
    } else {
        lemma_apply_ops_concat(f, a, b.drop_last());
        assert((a + b).drop_last() =~= a + b.drop_last());
    }
}

/// Whether a batch of `total` sentences is written in one piece, given the
/// free space of the current text file (`None` when it has no size limit).
/// Without a known free space the batch is always written in one piece.
pub fn prefers_bulk(total: u64, free: Option<u64>) -> (r: bool)
    ensures
        r == bulk_preferred(total as nat, free),
{
    match free {
        Some(f) => total < f,
        None => true,
    }
}

/// The number of sentences of `docs`, capped at the largest `u64`.
fn count_sentences(docs: &Vec<Document>) -> (r: u64)
    ensures
        r == sat(sentence_total(docs@)),
{
    let mut total: u64 = 0;
    let mut i: usize = 0;
    while i < docs.len()
        invariant
            i <= docs.len(),
            total == sat(sentence_total(docs@.take(i as int))),
        decreases docs.len() - i,
    {
        proof {
            lemma_take_step(docs@, i as int);
        }
        total = total.saturating_add(docs[i].lines.len() as u64);
        i = i + 1;
    }
    proof {
        assert(docs@.take(docs.len() as int) =~= docs@);
    }
    total
}

proof fn lemma_sentence_total_one(d: Document)
    ensures
        sentence_total(seq![d]) == d.lines.len(),
        blocks(seq![d]).len() == d.lines.len() + 1,
{
    let s = seq![d];
    assert(s.drop_last() =~= Seq::<Document>::empty());
    assert(s.last() == d);
    assert(sentence_total(s.drop_last()) == 0);
    assert(sentence_total(s) == sentence_total(s.drop_last()) + d.lines@.len());
    lemma_blocks_len(s);
}

proof fn lemma_sentence_total_prefix(docs: Seq<Document>, i: int)
    requires
        0 <= i <= docs.len(),
    ensures
        sentence_total(docs.take(i)) <= sentence_total(docs),
    decreases docs.len(),
{
    if i < docs.len() {
        lemma_sentence_total_prefix(docs.drop_last(), i);
        assert(docs.drop_last().take(i) =~= docs.take(i));
    } else {
        assert(docs.take(i) =~= docs);
    }
}


/// Bulk layout: once a batch is written in one piece, the current text file
/// ends with the blocks of the batch in its order, each a document's lines then
/// one blank line; the first record starts where the text file ended before,
/// and the offset of each later record is that of the record before it plus
/// that document's sentence count plus one.
pub proof fn lemma_bulk_layout(f: Files, docs: Seq<Document>, i: int)
    requires
        f.text.len() >= 1,
        f.meta.len() >= 1,
        0 <= i < docs.len(),
        f.text.last().len() + sentence_total(docs) + docs.len() <= usize::MAX,
    ensures
        ({
            let g = written(f, docs);
            let t = g.text.last();
            let m = g.meta.last();
            let k = m.len() - docs.len();
            &&& t == f.text.last() + blocks(docs)
            &&& 0 <= k
            &&& m[k].offset == f.text.last().len()
            &&& i + 1 < docs.len() ==> m[k + i + 1].offset == m[k + i].offset + docs[i].lines.len()
                + 1
        }),
{
    let base = f.text.last().len() as int;
    let m = written(f, docs).meta.last();
    let k = m.len() - docs.len();
    lemma_records_of_index(docs, base, 0);
    assert(docs.take(0) =~= Seq::<Document>::empty());
    assert(m[k] == records_of(docs, base)[0]);
    lemma_blocks_len(docs);
    if i + 1 < docs.len() {
        lemma_records_of_index(docs, base, i);
        lemma_records_of_index(docs, base, i + 1);
        lemma_take_step(docs, i);
        lemma_blocks_prefix(docs, i);
        lemma_blocks_len(docs.take(i));
        lemma_sentence_total_prefix(docs, i + 1);
        lemma_blocks_len(docs.take(i + 1));
        assert(docs[i].text().len() == docs[i].lines@.len());
        assert(m[k + i] == records_of(docs, base)[i]);
        assert(m[k + i + 1] == records_of(docs, base)[i + 1]);
    }
}

/// Round trip: once documents are written back to back, the lines of the
/// current text file from a document's recorded offset, as many as its
/// recorded sentence count, are exactly that document's lines.
pub proof fn lemma_round_trip(f: Files, docs: Seq<Document>, i: int)
    requires
        f.text.len() >= 1,
        f.meta.len() >= 1,
        0 <= i < docs.len(),
        f.text.last().len() + sentence_total(docs) + docs.len() <= usize::MAX,
    ensures
        ({
            let g = written(f, docs);
            let t = g.text.last();
            let m = g.meta.last();
            let r = m[m.len() - docs.len() + i];
            &&& m.len() >= docs.len()
            &&& r.nb_sentences == docs[i].lines.len()
            &&& r.offset + r.nb_sentences <= t.len()
            &&& t.subrange(r.offset as int, r.offset + r.nb_sentences) == docs[i].text()
        }),
{
    let g = written(f, docs);
    let base = f.text.last().len() as int;
    lemma_records_of_index(docs, base, i);
    lemma_blocks_len(docs);
    lemma_blocks_prefix(docs, i);
    lemma_blocks_len(docs.take(i));
    lemma_sentence_total_prefix(docs, i + 1);
    lemma_take_step(docs, i);
    lemma_blocks_len(docs.take(i + 1));
    let d = docs[i];
    assert(d.text().len() == d.lines@.len());
    let t = g.text.last();
    let m = g.meta.last();
    let r = m[m.len() - docs.len() + i];
    assert(r == records_of(docs, base)[i]);
    let bi = blocks(docs.take(i)).len() as int;
    assert(t == f.text.last() + blocks(docs));
    assert(r.offset == base + bi);
    let bp = blocks(docs).subrange(0, blocks(docs.take(i + 1)).len() as int);
    assert(t.subrange(r.offset as int, r.offset + r.nb_sentences) =~= bp.subrange(
        bi,
        bi + d.lines.len(),
    ));
    assert(bp.subrange(bi, bi + d.lines.len()) =~= d.text());
}

/// `b` holds what `a` holds: as many files or more, each file of `a` a prefix
/// of the file of the same index in `b`.
pub open spec fn extends(a: Files, b: Files) -> bool {
    &&& b.text.len() >= a.text.len()
    &&& b.meta.len() >= a.meta.len()
    &&& forall|k: int|
        0 <= k < a.text.len() ==> (#[trigger] b.text[k]).len() >= a.text[k].len()
            && b.text[k].subrange(0, a.text[k].len() as int) == a.text[k]
    &&& forall|k: int|
        0 <= k < a.meta.len() ==> (#[trigger] b.meta[k]).len() >= a.meta[k].len()
            && b.meta[k].subrange(0, a.meta[k].len() as int) == a.meta[k]
}

/// Some metadata file of `f` holds a record of `d`'s sentence count whose
/// offset, in the text file of the same index, starts exactly `d`'s lines.
pub open spec fn placed(f: Files, d: Document) -> bool {
    exists|k: int, j: int|
        0 <= k < f.text.len() && k < f.meta.len() && 0 <= j < f.meta[k].len() && {
            let r = #[trigger] f.meta[k][j];
            &&& r.nb_sentences == d.lines.len()
            &&& r.offset + r.nb_sentences <= f.text[k].len()
            &&& f.text[k].subrange(r.offset as int, r.offset + r.nb_sentences) == d.text()
        }
}

proof fn lemma_after_write_extends(f: Files, limit: Option<u64>, docs: Seq<Document>)
    requires
        f.text.len() >= 1,
        f.meta.len() == f.text.len(),
    ensures
        extends(f, after_write(f, limit, docs)),
        after_write(f, limit, docs).text.len() == after_write(f, limit, docs).meta.len(),
{
    let g = if starts_new_file(limit, f.text.last(), blocks(docs)) {
        rotated(f)
    } else {
        f
    };
    let h = after_write(f, limit, docs);
    assert forall|k: int| 0 <= k < f.text.len() implies (#[trigger] h.text[k]).len() >= f.text[k].len()
        && h.text[k].subrange(0, f.text[k].len() as int) == f.text[k] by {
        assert(h.text[k].subrange(0, f.text[k].len() as int) =~= f.text[k]);
    }
    assert forall|k: int| 0 <= k < f.meta.len() implies (#[trigger] h.meta[k]).len() >= f.meta[k].len()
        && h.meta[k].subrange(0, f.meta[k].len() as int) == f.meta[k] by {
        assert(h.meta[k].subrange(0, f.meta[k].len() as int) =~= f.meta[k]);
    }
}

proof fn lemma_placed_kept(a: Files, b: Files, d: Document)
    requires
        placed(a, d),
        extends(a, b),
    ensures
        placed(b, d),
{
    let (k, j) = choose|k: int, j: int|
        0 <= k < a.text.len() && k < a.meta.len() && 0 <= j < a.meta[k].len() && {
            let r = #[trigger] a.meta[k][j];
            &&& r.nb_sentences == d.lines.len()
            &&& r.offset + r.nb_sentences <= a.text[k].len()
            &&& a.text[k].subrange(r.offset as int, r.offset + r.nb_sentences) == d.text()
        };
    let r = a.meta[k][j];
    assert(b.meta[k].subrange(0, a.meta[k].len() as int)[j] == b.meta[k][j]);
    assert(b.meta[k][j] == r);
    assert(b.text[k].subrange(r.offset as int, r.offset + r.nb_sentences) =~= a.text[k].subrange(
        r.offset as int,
        r.offset + r.nb_sentences,
    )) by {
        let bt = b.text[k];
        let at = a.text[k];
        assert forall|y: int| r.offset <= y < r.offset + r.nb_sentences implies #[trigger] bt[y] == at[y] by {
            assert(bt.subrange(0, at.len() as int)[y] == bt[y]);
        }
    }
}

proof fn lemma_after_singles_len(f: Files, limit: Option<u64>, docs: Seq<Document>)
    requires
        f.text.len() >= 1,
        f.meta.len() == f.text.len(),
    ensures
        ({
            let g = after_singles(f, limit, docs);
            &&& g.text.len() >= 1
            &&& g.meta.len() == g.text.len()
            &&& g.text.last().len() <= f.text.last().len() + sentence_total(docs) + docs.len()
            &&& extends(f, g)
        }),
    decreases docs.len(),
{
    if docs.len() > 0 {
        let front = docs.drop_last();
        let h = after_singles(f, limit, front);
        lemma_after_singles_len(f, limit, front);
        lemma_after_write_extends(h, limit, seq![docs.last()]);
        lemma_sentence_total_one(docs.last());
        let g = after_singles(f, limit, docs);
        assert(g.text.last().len() <= h.text.last().len() + docs.last().lines.len() + 1);
        assert forall|k: int| 0 <= k < f.text.len() implies (#[trigger] g.text[k]).len() >= f.text[k].len()
            && g.text[k].subrange(0, f.text[k].len() as int) == f.text[k] by {
            assert(g.text[k].subrange(0, h.text[k].len() as int) == h.text[k]);
            assert(g.text[k].subrange(0, f.text[k].len() as int) =~= h.text[k].subrange(0, f.text[k].len() as int));
        }
        assert forall|k: int| 0 <= k < f.meta.len() implies (#[trigger] g.meta[k]).len() >= f.meta[k].len()
            && g.meta[k].subrange(0, f.meta[k].len() as int) == f.meta[k] by {
            assert(g.meta[k].subrange(0, h.meta[k].len() as int) == h.meta[k]);
            assert(g.meta[k].subrange(0, f.meta[k].len() as int) =~= h.meta[k].subrange(0, f.meta[k].len() as int));
        }
    } else {
        let g = after_singles(f, limit, docs);
        assert forall|k: int| 0 <= k < f.text.len() implies (#[trigger] g.text[k]).len() >= f.text[k].len()
            && g.text[k].subrange(0, f.text[k].len() as int) == f.text[k] by {
            assert(g.text[k].subrange(0, f.text[k].len() as int) =~= f.text[k]);
        }
        assert forall|k: int| 0 <= k < f.meta.len() implies (#[trigger] g.meta[k]).len() >= f.meta[k].len()
            && g.meta[k].subrange(0, f.meta[k].len() as int) == f.meta[k] by {
            assert(g.meta[k].subrange(0, f.meta[k].len() as int) =~= f.meta[k]);
        }
    }
}

/// Round trip for documents written one at a time: each of them can be found
/// in some pair of files, its record's offset starting exactly its lines in
/// the text file of the same index, whatever new files began after it.
pub proof fn lemma_round_trip_singles(f: Files, limit: Option<u64>, docs: Seq<Document>, i: int)
    requires
        f.text.len() >= 1,
        f.meta.len() == f.text.len(),
        0 <= i < docs.len(),
        f.text.last().len() + sentence_total(docs) + docs.len() <= usize::MAX,
    ensures
        placed(after_singles(f, limit, docs), docs[i]),
    decreases docs.len(),
{
    let front = docs.drop_last();
    let d = docs.last();
    let h = after_singles(f, limit, front);
    lemma_after_singles_len(f, limit, front);
    lemma_after_write_extends(h, limit, seq![d]);
    lemma_sentence_total_one(d);
    if i < docs.len() - 1 {
        lemma_round_trip_singles(f, limit, front, i);
        lemma_placed_kept(h, after_singles(f, limit, docs), docs[i]);
    } else {
        let g0 = if starts_new_file(limit, h.text.last(), blocks(seq![d])) {
            rotated(h)
        } else {
            h
        };
        lemma_round_trip(g0, seq![d], 0);
        let g = after_singles(f, limit, docs);
        let k = g.text.len() - 1;
        let j = g.meta[k].len() - 1;
        assert(g.meta[k][j] == g.meta.last()[g.meta.last().len() - 1 + 0]);
    }
}

/// A writer's offset goes back to 0 exactly when a new pair of files begins:
/// the first record of a batch lies at line 0 of a file that held something
/// before if and only if the number of text files grew, and text and metadata
/// files always grow together.
pub proof fn lemma_offset_reset(f: Files, limit: Option<u64>, docs: Seq<Document>)
    requires
        f.text.len() == f.meta.len() >= 1,
        docs.len() > 0,
        f.text.last().len() + sentence_total(docs) + docs.len() <= usize::MAX,
    ensures
        ({
            let g = after_write(f, limit, docs);
            let m = g.meta.last();
            let first = m[m.len() - docs.len()];
            &&& g.text.len() == g.meta.len()
            &&& g.text.len() == f.text.len() || g.text.len() == f.text.len() + 1
            &&& (first.offset == 0 && f.text.last().len() > 0) <==> g.text.len()
                == f.text.len() + 1
        }),
{
    let g = if starts_new_file(limit, f.text.last(), blocks(docs)) {
        rotated(f)
    } else {
        f
    };
    let base = g.text.last().len() as int;
    lemma_records_of_index(docs, base, 0);
    lemma_records_of_len(docs, base);
    lemma_blocks_len(docs);
    assert(docs.take(0) =~= Seq::<Document>::empty());
    assert(blocks(docs.take(0)).len() == 0);
    if starts_new_file(limit, f.text.last(), blocks(docs)) {
        assert(g.text.last() =~= Seq::<Seq<char>>::empty());
        assert(g.meta.last() =~= Seq::<Metadata>::empty());
    }
}

/// The error of a write.
#[derive(Debug)]
pub enum WriterError {
    /// A document of language `found` was handed to the writer of `expected`.
    LanguageMismatch { expected: String, found: String },
}

/// Writes the documents of one language.
pub struct Writer {
    lang: String,
    size_limit: Option<u64>,
    offset: usize,
    file_bytes: u64,
    files: Ghost<Files>,
}

impl Writer {
    /// The writer's language.
    pub closed spec fn lang(&self) -> Seq<char> {
        self.lang@
    }

    /// The size limit of a text file, if any.
    pub closed spec fn size_limit(&self) -> Option<u64> {
        self.size_limit
    }

    /// The line at which the next document starts in the current text file.
    pub closed spec fn offset(&self) -> nat {
        self.offset as nat
    }

    /// What the files hold.
    pub closed spec fn files(&self) -> Files {
        self.files@
    }

    /// The writer's invariant.
    pub closed spec fn wf(&self) -> bool {
        let f = self.files@;
        &&& f.text.len() == f.meta.len()
        &&& f.text.len() >= 1
        &&& self.offset == f.text.last().len()
        &&& self.file_bytes == sat(text_bytes(f.text.last()))
        &&& forall|k: int| 0 <= k < f.text.len() ==> aligned(#[trigger] f.text[k], f.meta[k], self.lang@)
    }

    /// Of a writer that keeps its invariant: text and metadata files come in
    /// pairs, the offset is the length of the current text file, and each pair
    /// of files is aligned.
    pub proof fn lemma_wf(&self)
        requires
            self.wf(),
        ensures
            self.files().text.len() == self.files().meta.len() >= 1,
            self.offset() == self.files().text.last().len(),
            forall|k: int|
                0 <= k < self.files().text.len() ==> aligned(
                    #[trigger] self.files().text[k],
                    self.files().meta[k],
                    self.lang(),
                ),
    {
    }

    /// A writer for `lang` whose text files should not exceed `size_limit`
    /// bytes (no limit when `None`). Its offset starts at 0.
    pub fn new(lang: String, size_limit: Option<u64>) -> (r: Writer)
        ensures
            r.wf(),
            r.lang() == lang@,
            r.size_limit() == size_limit,
            r.offset() == 0,
            r.files() == empty_files(),
    {
        let r = Writer { lang, size_limit, offset: 0, file_bytes: 0, files: Ghost(empty_files()) };
        proof {
            assert(r.files@.text.last() =~= Seq::<Seq<char>>::empty());
        }
        r
    }

    /// The line at which the next document starts in the current text file.
    pub fn next_offset(&self) -> (r: usize)
        ensures
            r == self.offset(),
    {
        self.offset
    }

    /// The language of the writer.
    pub fn language(&self) -> (r: &String)
        ensures
            r@ == self.lang(),
    {
        &self.lang
    }

    /// Flushes and closes the current metadata file.
    pub fn close_meta(&mut self) -> (r: Vec<Op>)
        ensures
            *final(self) == *old(self),
            r@.len() == 1,
            r@[0] is CloseMeta,
    {
        let mut ops: Vec<Op> = Vec::new();
        ops.push(Op::CloseMeta);
        ops
    }

    /// The free space of the current text file: `None` without a size limit.
    pub fn free_space(&self) -> (r: Option<u64>)
        requires
            self.wf(),
        ensures
            r == free_space_of(self.size_limit(), self.files().text.last()),
    {
        match self.size_limit {
            Some(l) => Some(l.saturating_sub(self.file_bytes)),
            None => None,
        }
    }

    /// Writes one document, which must be of the writer's language: a
    /// document of another language is refused and nothing changes.
    /// Where the size limit asks for it, a new pair of files begins first,
    /// and the document's offset is then 0.
    pub fn write_single(&mut self, doc: Document) -> (r: Result<Vec<Op>, WriterError>)
        requires
            old(self).wf(),
            doc.label() == old(self).lang() ==> old(self).offset() + doc.lines.len() + 1
                <= usize::MAX,
        ensures
            r is Ok <==> doc.label() == old(self).lang(),
            match r {
                Ok(ops) => {
                    &&& final(self).wf()
                    &&& final(self).lang() == old(self).lang()
                    &&& final(self).size_limit() == old(self).size_limit()
                    &&& final(self).files() == after_write(
                        old(self).files(),
                        old(self).size_limit(),
                        seq![doc],
                    )
                    &&& apply_ops(old(self).files(), ops@) == final(self).files()
                },
                Err(WriterError::LanguageMismatch { expected, found }) => {
                    &&& *final(self) == *old(self)
                    &&& expected@ == old(self).lang()
                    &&& found@ == doc.label()
                },
            },
    {
        if doc.identification.label != self.lang {
            return Err(
                WriterError::LanguageMismatch {
                    expected: self.lang.clone(),
                    found: doc.identification.label.clone(),
                },
            );
        }
        let mut docs: Vec<Document> = Vec::new();
        docs.push(doc);
        proof {
            assert(docs@ =~= seq![doc]);
            lemma_sentence_total_one(doc);
        }
        let ops = self.write_batch(docs, true);
        Ok(ops)
    }

    /// Writes documents of the writer's language. A batch whose sentence count
    /// is below the free space of the current text file, or any batch when
    /// there is no size limit, is written in one piece from the current offset,
    /// never beginning a new file; a batch written so that holds a document of
    /// another language is refused whole and nothing changes. Otherwise the
    /// documents are written one at a time, in order, as `write_single` does,
    /// and the first one of another language stops the write: the documents
    /// before it stay written, and the error comes with their operations.
    pub fn write(&mut self, docs: Vec<Document>) -> (r: Result<Vec<Op>, (WriterError, Vec<Op>)>)
        requires
            old(self).wf(),
            forall|k: int|
                0 <= k <= docs.len() && (forall|j: int|
                    0 <= j < k ==> (#[trigger] docs@[j]).label() == old(self).lang())
                    ==> old(self).offset() + #[trigger] sentence_total(docs@.take(k)) + k
                    <= usize::MAX,
        ensures
            r is Ok <==> forall|i: int|
                0 <= i < docs.len() ==> (#[trigger] docs@[i]).label() == old(self).lang(),
            ({
                let bulk = bulk_preferred(
                    sentence_total(docs@),
                    free_space_of(old(self).size_limit(), old(self).files().text.last()),
                );
                match r {
                    Ok(ops) => {
                        &&& final(self).wf()
                        &&& final(self).lang() == old(self).lang()
                        &&& final(self).size_limit() == old(self).size_limit()
                        &&& final(self).files() == if bulk {
                            written(old(self).files(), docs@)
                        } else {
                            after_singles(old(self).files(), old(self).size_limit(), docs@)
                        }
                        &&& final(self).offset() == if bulk {
                            old(self).offset() + sentence_total(docs@) + docs.len()
                        } else {
                            final(self).files().text.last().len() as int
                        }
                        &&& apply_ops(old(self).files(), ops@) == final(self).files()
                    },
                    Err((WriterError::LanguageMismatch { expected, found }, ops)) => {
                        &&& expected@ == old(self).lang()
                        &&& found@ != old(self).lang()
                        &&& bulk ==> *final(self) == *old(self) && ops@.len() == 0
                            && exists|i: int|
                            0 <= i < docs.len() && (#[trigger] docs@[i]).label() == found@
                        &&& !bulk ==> {
                            &&& final(self).wf()
                            &&& final(self).lang() == old(self).lang()
                            &&& final(self).size_limit() == old(self).size_limit()
                            &&& apply_ops(old(self).files(), ops@) == final(self).files()
                            &&& exists|k: int|
                                0 <= k < docs.len() && (#[trigger] docs@[k]).label() == found@
                                    && (forall|j: int|
                                    0 <= j < k ==> (#[trigger] docs@[j]).label() == old(
                                        self,
                                    ).lang()) && final(self).files() == after_singles(
                                    old(self).files(),
                                    old(self).size_limit(),
                                    docs@.take(k),
                                )
                        }
                    },
                }
            }),
    {
        let total = count_sentences(&docs);
        let free = self.free_space();
        let bulk = prefers_bulk(total, free);
        proof {
            assert(bulk == bulk_preferred(sentence_total(docs@), free));
        }
        if bulk {
            let mut i: usize = 0;
            #[verifier::loop_isolation(false)]
            while i < docs.len()
                invariant
                    i <= docs.len(),
                    forall|j: int| 0 <= j < i ==> (#[trigger] docs@[j]).label() == self.lang@,
                decreases docs.len() - i,
            {
                if docs[i].identification.label != self.lang {
                    proof {
                        assert(docs@[i as int].label() != self.lang@);
                    }
                    return Err(
                        (
                            WriterError::LanguageMismatch {
                                expected: self.lang.clone(),
                                found: docs[i].identification.label.clone(),
                            },
                            Vec::new(),
                        ),
                    );
                }
                i = i + 1;
            }
            proof {
                assert(docs@.take(docs.len() as int) =~= docs@);
                lemma_blocks_len(docs@);
            }
            let ops = self.write_batch(docs, false);
            return Ok(ops);
        }
        let ghost f0 = self.files@;
        let ghost o0 = self.offset as int;
        let ghost limit = self.size_limit;
        let n = docs.len();
        let ghost all = docs@;
        let mut rev = reversed(docs);
        let mut ops: Vec<Op> = Vec::new();
        let mut i: usize = 0;
        proof {
            assert(all.take(0) =~= Seq::<Document>::empty());
        }
        #[verifier::loop_isolation(false)]
        while i < n
            invariant
                n == all.len(),
                i <= n,
                forall|k: int|
                    0 <= k <= all.len() && (forall|j: int|
                        0 <= j < k ==> (#[trigger] all[j]).label() == old(self).lang())
                        ==> o0 + #[trigger] sentence_total(all.take(k)) + k <= usize::MAX,
                forall|j: int| 0 <= j < i ==> (#[trigger] all[j]).label() == self.lang@,
                self.lang@ == old(self).lang@,
                self.size_limit == limit,
                limit == old(self).size_limit(),
                o0 == old(self).offset(),
                f0 == old(self).files(),
                self.wf(),
                rev.len() == n - i,
                forall|j: int| 0 <= j < n - i ==> rev@[j] == all[n - 1 - j],
                self.files() == after_singles(f0, limit, all.take(i as int)),
                apply_ops(f0, ops@) == self.files(),
                self.offset() <= o0 + sentence_total(all.take(i as int)) + i,
            decreases n - i,
        {
            let d = rev.pop().unwrap();
            proof {
                assert(d == all[i as int]);
            }
            if d.identification.label != self.lang {
                proof {
                    assert(all[i as int].label() != old(self).lang());
                    assert(forall|j: int| 0 <= j < i ==> (#[trigger] all[j]).label() == old(self).lang());
                }
                return Err(
                    (
                        WriterError::LanguageMismatch {
                            expected: self.lang.clone(),
                            found: d.identification.label.clone(),
                        },
                        ops,
                    ),
                );
            }
            proof {
                lemma_take_step(all, i as int);
                assert(all.take(i + 1).len() == i + 1);
                assert forall|j: int| 0 <= j < i + 1 implies (#[trigger] all[j]).label()
                    == old(self).lang() by {}
                assert(o0 + sentence_total(all.take(i + 1)) + (i + 1) <= usize::MAX);
            }
            let mut one: Vec<Document> = Vec::new();
            one.push(d);
            proof {
                assert(one@ =~= seq![d]);
                lemma_sentence_total_one(d);
            }
            let ghost ops_before = ops@;
            let mut more = self.write_batch(one, true);
            let ghost added = more@;
            ops.append(&mut more);
            proof {
                lemma_apply_ops_concat(f0, ops_before, added);
                assert(ops@ =~= ops_before + added);
            }
            i = i + 1;
        }
        proof {
            assert(all.take(n as int) =~= all);
        }
        Ok(ops)
    }

    /// Writes `docs` back to back, beginning a new pair of files first where
    /// the size limit asks for it.
    fn write_batch(&mut self, docs: Vec<Document>, may_rotate: bool) -> (ops: Vec<Op>)
        requires
            old(self).wf(),
            forall|i: int| 0 <= i < docs.len() ==> (#[trigger] docs@[i]).label() == old(self).lang(),
            old(self).offset() + sentence_total(docs@) + docs.len() <= usize::MAX,
        ensures
            final(self).wf(),
            final(self).lang() == old(self).lang(),
            final(self).size_limit() == old(self).size_limit(),
            final(self).files() == if may_rotate {
                after_write(old(self).files(), old(self).size_limit(), docs@)
            } else {
                written(old(self).files(), docs@)
            },
            apply_ops(old(self).files(), ops@) == final(self).files(),
            final(self).offset() <= old(self).offset() + sentence_total(docs@) + docs.len(),
    {
        let ghost f0 = self.files@;
        let incoming = batch_bytes(&docs);
        let mut ops: Vec<Op> = Vec::new();
        let rotate = may_rotate && match self.size_limit {
            Some(l) => self.offset > 0 && self.file_bytes.saturating_add(incoming) > l,
            None => false,
        };
        proof {
            lemma_blocks_len(docs@);
        }
        if rotate {
            ops.push(Op::Rotate);
            self.files = Ghost(rotated(self.files@));
            self.offset = 0;
            self.file_bytes = 0;
            proof {
                let f = self.files@;
                assert(f.text.last() =~= Seq::<Seq<char>>::empty());
                assert forall|k: int| 0 <= k < f.text.len() implies aligned(
                    #[trigger] f.text[k],
                    f.meta[k],
                    self.lang@,
                ) by {
                    if k == f.text.len() - 1 {
                        assert(f.meta[k] =~= Seq::<Metadata>::empty());
                    } else {
                        assert(f.text[k] == f0.text[k]);
                    }
                }
                assert(apply_ops(f0, ops@) == apply_op(apply_ops(f0, ops@.drop_last()), Op::Rotate));
                assert(ops@.drop_last() =~= Seq::<Op>::empty());
            }
        }
        let ghost g = self.files@;
        let ghost base = self.offset as int;
        let n = docs.len();
        let ghost all = docs@;
        let mut rev = reversed(docs);
        let mut lines: Vec<String> = Vec::new();
        let mut records: Vec<Metadata> = Vec::new();
        let mut i: usize = 0;
        while i < n
            invariant
                n == all.len(),
                i <= n,
                g.text.len() >= 1,
                g.text.len() == g.meta.len(),
                self.files@ == g,
                self.lang == old(self).lang,
                self.size_limit == old(self).size_limit,
                self.file_bytes == sat(text_bytes(g.text.last())),
                forall|k: int| 0 <= k < g.text.len() ==> aligned(#[trigger] g.text[k], g.meta[k], self.lang@),
                base == g.text.last().len(),
                forall|j: int| 0 <= j < n ==> (#[trigger] all[j]).label() == self.lang@,
                base + sentence_total(all) + n <= usize::MAX,
                blocks(all).len() == sentence_total(all) + n,
                rev.len() == n - i,
                forall|j: int| 0 <= j < n - i ==> rev@[j] == all[n - 1 - j],
                lines_view(lines@) == blocks(all.take(i as int)),
                records@ == records_of(all.take(i as int), base),
                self.offset == base + blocks(all.take(i as int)).len(),
            decreases n - i,
        {
            let d = rev.pop().unwrap();
            proof {
                lemma_take_step(all, i as int);
                lemma_blocks_prefix(all, i as int);
                assert(d.text().len() == d.lines@.len());
            }
            let ghost before = lines@;
            let (mut dl, rec) = into_record(d, self.offset);
            let nb = dl.len();
            records.push(rec);
            lines.append(&mut dl);
            lines.push(String::new());
            proof {
                assert(lines_view(lines@) =~= lines_view(before) + block(d));
                assert(records@ =~= records_of(all.take(i + 1), base));
            }
            self.offset = self.offset + nb + 1;
            i = i + 1;
        }
        proof {
            assert(all.take(n as int) =~= all);
        }
        let ghost ops_before = ops@;
        ops.push(Op::Text(lines));
        ops.push(Op::Meta(records));
        self.files = Ghost(appended(g, blocks(all), records_of(all, base)));
        self.file_bytes = self.file_bytes.saturating_add(incoming);
        proof {
            let f = self.files@;
            lemma_text_bytes_concat(g.text.last(), blocks(all));
            assert(f.text.last() == g.text.last() + blocks(all));
            assert(ops@.drop_last().drop_last() == ops_before);
            let h = apply_ops(f0, ops_before);
            assert(apply_ops(f0, ops@.drop_last()) == appended(h, blocks(all), Seq::empty()));
            assert(g.meta.last() + Seq::<Metadata>::empty() =~= g.meta.last());
            assert(Seq::<Seq<char>>::empty() + Seq::<Seq<char>>::empty() =~= Seq::<Seq<char>>::empty());
            assert(g.text.last() + blocks(all) + Seq::<Seq<char>>::empty() =~= g.text.last() + blocks(all));
            let x = appended(appended(g, blocks(all), Seq::empty()), Seq::empty(), records_of(all, base));
            assert(x.text =~= f.text);
            assert(x.meta =~= f.meta);
            lemma_aligned_append(g.text.last(), g.meta.last(), self.lang@, all);
            assert forall|k: int| 0 <= k < f.text.len() implies aligned(
                #[trigger] f.text[k],
                f.meta[k],
                self.lang@,
            ) by {
                if k < f.text.len() - 1 {
                    assert(f.text[k] == g.text[k]);
                    assert(f.meta[k] == g.meta[k]);
                }
            }
        }
        ops
    }
}

} // verus!
