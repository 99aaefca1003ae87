//! Grouping a shard's documents by language.
use vstd::prelude::*;
use vstd::pervasive::VecAdditionalExecFns;
use crate::document::Document;

verus! {

/// The documents of one language, in the order in which they came.
#[derive(Debug)]
pub struct LangGroup {
    pub lang: String,
    pub documents: Vec<Document>,
}

/// Whether a document carries the label `l`.
pub open spec fn of_lang(l: Seq<char>) -> spec_fn(Document) -> bool {
    |d: Document| d.label() == l
}

/// No empty group, no two groups of one language, and each group holds the
/// documents of its language, in their order among `docs`.
pub open spec fn groups_of(docs: Seq<Document>, groups: Seq<LangGroup>) -> bool {
    &&& forall|j: int, k: int|
        0 <= j < groups.len() && 0 <= k < groups.len() && j != k ==> groups[j].lang@
            != groups[k].lang@
    &&& forall|j: int|
        0 <= j < groups.len() ==> (#[trigger] groups[j]).documents@ == docs.filter(
            of_lang(groups[j].lang@),
        )
    &&& forall|j: int| 0 <= j < groups.len() ==> (#[trigger] groups[j]).documents@.len() > 0
    &&& forall|i: int|
        0 <= i < docs.len() ==> exists|j: int|
            0 <= j < groups.len() && (#[trigger] groups[j]).lang@ == (#[trigger] docs[i]).label()
}

/// The index of the group of language `l`, if there is one.
fn find_group(groups: &Vec<LangGroup>, l: &String) -> (r: Option<usize>)
    ensures
        r matches Some(j) ==> j < groups.len() && groups@[j as int].lang@ == l@,
        r is None ==> forall|j: int| 0 <= j < groups.len() ==> (#[trigger] groups@[j]).lang@ != l@,
{
    let mut j: usize = 0;
    while j < groups.len()
        invariant
            j <= groups.len(),
            forall|k: int| 0 <= k < j ==> (#[trigger] groups@[k]).lang@ != l@,
        decreases groups.len() - j,
    {
        if groups[j].lang == *l {
            return Some(j);
        }
        j = j + 1;
    }
    None
}

/// Groups documents by language; each group keeps its documents in their order.
pub fn sort_by_lang(documents: Vec<Document>) -> (r: Vec<LangGroup>)
    ensures
        groups_of(documents@, r@),
{
    let ghost all = documents@;
    let n = documents.len();
    let mut docs = documents;
    let mut rev: Vec<Document> = Vec::new();
    while docs.len() > 0
        invariant
            docs.len() + rev.len() == n == all.len(),
            docs@ == all.take(docs.len() as int),
            forall|j: int| 0 <= j < rev.len() ==> rev@[j] == all[n - 1 - j],
        decreases docs.len(),
    {
        let d = docs.pop().unwrap();
        rev.push(d);
    }
    let mut groups: Vec<LangGroup> = Vec::new();
    let mut i: usize = 0;
    proof {
        assert(all.take(0) =~= Seq::<Document>::empty());
    }
    while i < n
        invariant
            n == all.len(),
            i <= n,
            rev.len() == n - i,
            forall|j: int| 0 <= j < n - i ==> rev@[j] == all[n - 1 - j],
            groups_of(all.take(i as int), groups@),
        decreases n - i,
    {
        let d = rev.pop().unwrap();
        let ghost before = all.take(i as int);
        let ghost old_groups = groups@;
        proof {
            assert(all.take(i + 1) =~= before.push(d));
        }
        match find_group(&groups, &d.identification.label) {
            Some(j) => {
                let mut g = LangGroup { lang: String::new(), documents: Vec::new() };
                groups.set_and_swap(j, &mut g);
                g.documents.push(d);
                groups.set_and_swap(j, &mut g);
                proof {
                    assert forall|k: int| 0 <= k < groups.len() implies (#[trigger] groups@[k]).lang@
                        == old_groups[k].lang@ && groups@[k].documents@.len() > 0 by {}
                    assert forall|k: int| 0 <= k < groups.len() && k != j implies (#[trigger] groups@[k])
                        == old_groups[k] by {}
                    assert(groups@[j as int].documents@ == old_groups[j as int].documents@.push(d));
                    assert forall|k: int| 0 <= k < groups.len() implies (#[trigger] groups@[k]).documents@
                        == all.take(i + 1).filter(of_lang(groups@[k].lang@)) by {
                        before.lemma_filter_push(d, of_lang(groups@[k].lang@));
                    }
                    assert forall|x: int| 0 <= x < i + 1 implies exists|k: int|
                        0 <= k < groups.len() && (#[trigger] groups@[k]).lang@ == (
                        #[trigger] all.take(i + 1)[x]).label() by {
                        if x < i {
                            assert(all.take(i + 1)[x] == before[x]);
                            let k = choose|k: int|
                                0 <= k < old_groups.len() && (#[trigger] old_groups[k]).lang@ == (
                                #[trigger] before[x]).label();
                            assert(groups@[k].lang@ == old_groups[k].lang@);
                        } else {
                            assert(groups@[j as int].lang@ == d.label());
                        }
                    }
                    assert(forall|a: int, b: int|
                        0 <= a < groups.len() && 0 <= b < groups.len() && a != b ==> groups@[a].lang@
                            != groups@[b].lang@);
                    assert(forall|a: int| 0 <= a < groups.len() ==> (#[trigger] groups@[a]).documents@.len() > 0);
                    assert(groups_of(all.take(i + 1), groups@));
                }
            },
            None => {
                let lang = d.identification.label.clone();
                let mut documents: Vec<Document> = Vec::new();
                documents.push(d);
                groups.push(LangGroup { lang, documents });
                proof {
                    let last = groups.len() - 1;
                    assert forall|k: int| 0 <= k < last implies (#[trigger] groups@[k]) == old_groups[k] by {}
                    assert(before.filter(of_lang(d.label())) =~= Seq::<Document>::empty()) by {
                        if before.filter(of_lang(d.label())).len() > 0 {
                            let e = before.filter(of_lang(d.label()))[0];
                            broadcast use vstd::seq_lib::group_filter_ensures;
                            assert(before.filter(of_lang(d.label())).contains(e));
                            before.lemma_filter_contains_rev(of_lang(d.label()), e);
                            let x = choose|x: int| 0 <= x < before.len() && before[x] == e;
                            let k = choose|k: int|
                                0 <= k < old_groups.len() && (#[trigger] old_groups[k]).lang@ == (
                                #[trigger] before[x]).label();
                        }
                    }
                    assert forall|k: int| 0 <= k < groups.len() implies (#[trigger] groups@[k]).documents@
                        == all.take(i + 1).filter(of_lang(groups@[k].lang@)) by {
                        before.lemma_filter_push(d, of_lang(groups@[k].lang@));
                        if k == last {
                            assert(groups@[k].documents@ =~= seq![d]);
                            assert(Seq::<Document>::empty().push(d) =~= seq![d]);
                        }
                    }
                    assert forall|x: int| 0 <= x < i + 1 implies exists|k: int|
                        0 <= k < groups.len() && (#[trigger] groups@[k]).lang@ == (
                        #[trigger] all.take(i + 1)[x]).label() by {
                        if x < i {
                            assert(all.take(i + 1)[x] == before[x]);
                            let k = choose|k: int|
                                0 <= k < old_groups.len() && (#[trigger] old_groups[k]).lang@ == (
                                #[trigger] before[x]).label();
                            assert(groups@[k] == old_groups[k]);
                        } else {
                            assert(groups@[last].lang@ == d.label());
                        }
                    }
                    assert(forall|a: int, b: int|
                        0 <= a < groups.len() && 0 <= b < groups.len() && a != b ==> groups@[a].lang@
                            != groups@[b].lang@);
                    assert(forall|a: int| 0 <= a < groups.len() ==> (#[trigger] groups@[a]).documents@.len() > 0);
                    assert(groups_of(all.take(i + 1), groups@));
                }
            },
        }
        i = i + 1;
    }
    proof {
        assert(all.take(n as int) =~= all);
    }
    groups
}

} // verus!
