//! What holds of every pass: which services are left out, how the mode
//! follows the instances, and that a document depends on contents alone.
use crate::document::{document_fits, entry_fits, row_names};
use crate::model::{any_http, carries_http, mode_of, node_ids, ports_agree, EntryView, HealthyInstance, Mode};
use crate::order::{lemma_name_order_total, name_order, names_sorted};
use crate::schedule::{answered_map, lemma_answered_map};
use vstd::multiset::Multiset;
use vstd::prelude::*;
use vstd::seq_lib::lemma_sorted_unique;

verus! {

/// A candidate for which the registry gave no healthy instance is not among
/// the services kept, nor a row of any document built from them.
pub proof fn lemma_unhealthy_left_out(
    cands: Seq<Seq<char>>,
    answers: Seq<Seq<HealthyInstance>>,
    j: int,
    d: Seq<EntryView>,
)
    requires
        cands.no_duplicates(),
        answers.len() <= cands.len(),
        0 <= j < answers.len(),
        answers[j].len() == 0,
    ensures
        !answered_map(cands, answers).contains_key(cands[j]),
        document_fits(d, answered_map(cands, answers)) ==> !row_names(d).contains(cands[j]),
{
    lemma_answered_map(cands, answers);
    if answered_map(cands, answers).contains_key(cands[j]) {
        let i = choose|i: int| 0 <= i < answers.len() && cands[i] == cands[j] && answers[i].len() > 0;
        assert(i == j);
    }
    if document_fits(d, answered_map(cands, answers)) && row_names(d).contains(cands[j]) {
        assert(row_names(d).to_set().contains(cands[j]));
    }
}

/// Adding an instance that carries the HTTP tag makes a service HTTP, and
/// keeping only the instances without it makes the service TCP.
pub proof fn lemma_mode_follows_tag(insts: Seq<HealthyInstance>, extra: HealthyInstance)
    requires
        carries_http(extra),
    ensures
        mode_of(insts.push(extra)) == Mode::Http,
        mode_of(insts.filter(|i: HealthyInstance| !carries_http(i))) == Mode::Tcp,
{
    let with = insts.push(extra);
    assert(carries_http(with[insts.len() as int]));
    let without = insts.filter(|i: HealthyInstance| !carries_http(i));
    insts.filter_lemma(|i: HealthyInstance| !carries_http(i));
    assert(!any_http(without));
}

/// Mapping two sequences with the same elements gives sequences with the
/// same elements.
proof fn lemma_map_same_multiset(a: Seq<HealthyInstance>, b: Seq<HealthyInstance>)
    requires
        a.to_multiset() == b.to_multiset(),
    ensures
        node_ids(a).to_multiset() == node_ids(b).to_multiset(),
    decreases a.len(),
{
    broadcast use vstd::seq_lib::group_to_multiset_ensures;

    vstd::seq_lib::to_multiset_len(a);
    vstd::seq_lib::to_multiset_len(b);
    if a.len() == 0 {
        assert(node_ids(a) =~= Seq::<Seq<char>>::empty());
        assert(node_ids(b) =~= Seq::<Seq<char>>::empty());
    } else {
        let x = a.last();
        let rest = a.drop_last();
        assert(a =~= rest.push(x));
        assert(a.to_multiset().contains(x));
        vstd::seq_lib::to_multiset_contains(b, x);
        let i = choose|i: int| 0 <= i < b.len() && b[i] == x;
        let brest = b.remove(i);
        vstd::seq_lib::to_multiset_remove(b, i);
        assert(rest.to_multiset() =~= a.to_multiset().remove(x));
        lemma_map_same_multiset(rest, brest);
        assert(node_ids(a) =~= node_ids(rest).push(x.node@));
        assert(node_ids(b) =~= node_ids(brest).insert(i, x.node@));
        vstd::seq_lib::to_multiset_insert(node_ids(brest), i, x.node@);
    }
}

/// Two sequences without duplicates that hold the same set hold the same
/// elements, counted with multiplicity.
proof fn lemma_same_set_multiset(a: Seq<Seq<char>>, b: Seq<Seq<char>>)
    requires
        a.no_duplicates(),
        b.no_duplicates(),
        a.to_set() == b.to_set(),
    ensures
        a.to_multiset() == b.to_multiset(),
{
    broadcast use vstd::multiset::group_multiset_axioms;

    a.lemma_multiset_has_no_duplicates();
    b.lemma_multiset_has_no_duplicates();
    assert forall|x: Seq<char>| a.to_multiset().count(x) == b.to_multiset().count(x) by {
        vstd::seq_lib::to_multiset_contains(a, x);
        vstd::seq_lib::to_multiset_contains(b, x);
        assert(a.to_set().contains(x) == a.contains(x));
        assert(b.to_set().contains(x) == b.contains(x));
    }
    assert(a.to_multiset() =~= b.to_multiset());
}

/// Two maps of services hold the same contents: the same services, each
/// with the same instances in any order.
pub open spec fn same_contents(
    m1: Map<Seq<char>, Seq<HealthyInstance>>,
    m2: Map<Seq<char>, Seq<HealthyInstance>>,
) -> bool {
    &&& m1.dom() == m2.dom()
    &&& forall|k: Seq<char>| #[trigger] m1.contains_key(k) ==> m1[k].to_multiset() == m2[k].to_multiset()
}

/// Two documents built from maps with the same contents are the same
/// document, whatever order the services and instances came in.
pub proof fn lemma_document_deterministic(
    d1: Seq<EntryView>,
    m1: Map<Seq<char>, Seq<HealthyInstance>>,
    d2: Seq<EntryView>,
    m2: Map<Seq<char>, Seq<HealthyInstance>>,
)
    requires
        same_contents(m1, m2),
        forall|k: Seq<char>| #[trigger] m1.contains_key(k) ==> m1[k].len() > 0 && ports_agree(m1[k]),
        document_fits(d1, m1),
        document_fits(d2, m2),
    ensures
        d1 == d2,
{
    lemma_name_order_total();
    lemma_same_set_multiset(row_names(d1), row_names(d2));
    lemma_sorted_unique(row_names(d1), row_names(d2), name_order());
    assert forall|i: int| 0 <= i < d1.len() implies d1[i] == d2[i] by {
        assert(row_names(d1)[i] == row_names(d2)[i]);
        let k = d1[i].name;
        assert(row_names(d1).to_set().contains(k));
        let (a, b) = (m1[k], m2[k]);
        assert(entry_fits(d1[i], k, a));
        assert(entry_fits(d2[i], k, b));
        broadcast use vstd::seq_lib::group_to_multiset_ensures;

        vstd::seq_lib::to_multiset_contains(a, b[0]);
        vstd::seq_lib::to_multiset_contains(b, a[0]);
        assert(a.to_multiset().count(b[0]) > 0);
        let ia = choose|j: int| 0 <= j < a.len() && a[j] == b[0];
        assert(a[ia].port == a[0].port);
        if any_http(a) {
            let j = choose|j: int| 0 <= j < a.len() && carries_http(a[j]);
            vstd::seq_lib::to_multiset_contains(b, a[j]);
            assert(b.to_multiset().count(a[j]) > 0);
        }
        if any_http(b) {
            let j = choose|j: int| 0 <= j < b.len() && carries_http(b[j]);
            vstd::seq_lib::to_multiset_contains(a, b[j]);
            assert(a.to_multiset().count(b[j]) > 0);
        }
        lemma_map_same_multiset(a, b);
        node_ids(a).lemma_sort_by_ensures(name_order());
        node_ids(b).lemma_sort_by_ensures(name_order());
        lemma_sorted_unique(
            node_ids(a).sort_by(name_order()),
            node_ids(b).sort_by(name_order()),
            name_order(),
        );
    }
    assert(d1 =~= d2);
}

} // verus!
