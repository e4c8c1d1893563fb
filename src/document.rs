//! Turns the map of services hosted elsewhere into the document that the
//! template renders: one row per service, in ascending order of name.
use crate::model::{
    any_http, carries_http, http_tag, mode_of, node_ids, ports_agree, EntryView, HealthyInstance,
    Mode, RenderDocument, ServiceEntry, TickError,
};
use crate::order::{
    lemma_name_order_total, lemma_same_multiset, name_le, name_order, names_sorted, sort_names,
    views,
};
use crate::reconcile::ExternalServiceMap;
use vstd::prelude::*;

verus! {

/// The row that a service's instances call for.
pub open spec fn entry_fits(e: EntryView, name: Seq<char>, insts: Seq<HealthyInstance>) -> bool {
    &&& e.name == name
    &&& e.port == insts[0].port
    &&& e.mode == mode_of(insts)
    &&& e.nodes == node_ids(insts).sort_by(name_order())
}

/// The names of a document's rows, in order.
pub open spec fn row_names(d: Seq<EntryView>) -> Seq<Seq<char>> {
    d.map_values(|e: EntryView| e.name)
}

/// The document that a map calls for: one row per service, in ascending
/// order of name, each the row that the service's instances call for.
pub open spec fn document_fits(d: Seq<EntryView>, m: Map<Seq<char>, Seq<HealthyInstance>>) -> bool {
    &&& names_sorted(row_names(d))
    &&& row_names(d).no_duplicates()
    &&& row_names(d).to_set() == m.dom()
    &&& forall|i: int| 0 <= i < d.len() ==> entry_fits(#[trigger] d[i], d[i].name, m[d[i].name])
}

/// Whether a tag is the HTTP tag.
pub fn is_http(t: &String) -> (r: bool)
    ensures
        r == (t@ == http_tag()),
{
    proof {
        reveal_strlit("http");
        lemma_name_order_total();
    }
    let h = "http";
    assert(h@ =~= http_tag());
    let r = name_le(t.as_str(), h) && name_le(h, t.as_str());
    proof {
        if t@ == http_tag() {
            assert(name_order()(t@, t@));
        }
        if r {
            assert(name_order()(t@, http_tag()) && name_order()(http_tag(), t@));
        }
    }
    r
}

/// Whether an instance carries the HTTP tag.
fn instance_has_http(i: &HealthyInstance) -> (r: bool)
    ensures
        r == carries_http(*i),
{
    let mut k: usize = 0;
    while k < i.tags.len()
        invariant
            k <= i.tags.len(),
            forall|j: int| 0 <= j < k ==> (#[trigger] i.tags@[j])@ != http_tag(),
        decreases i.tags.len() - k,
    {
        if is_http(&i.tags[k]) {
            assert(views(i.tags@)[k as int] == http_tag());
            return true;
        }
        k = k + 1;
    }
    proof {
        if views(i.tags@).contains(http_tag()) {
            let j = choose|j: int| 0 <= j < views(i.tags@).len() && views(i.tags@)[j] == http_tag();
            assert(i.tags@[j]@ == http_tag());
        }
    }
    false
}

/// The mode of a service, from all of its instances.
pub fn service_mode(insts: &Vec<HealthyInstance>) -> (r: Mode)
    ensures
        r == mode_of(insts@),
{
    let mut k: usize = 0;
    while k < insts.len()
        invariant
            k <= insts.len(),
            forall|j: int| 0 <= j < k ==> !carries_http(#[trigger] insts@[j]),
        decreases insts.len() - k,
    {
        if instance_has_http(&insts[k]) {
            return Mode::Http;
        }
        k = k + 1;
    }
    Mode::Tcp
}

/// The port that all instances of a service report, or `None` when they
/// disagree.
pub fn common_port(insts: &Vec<HealthyInstance>) -> (r: Option<u16>)
    requires
        insts@.len() > 0,
    ensures
        r is Some <==> ports_agree(insts@),
        r is Some ==> r->0 == insts@[0].port,
{
    let p = insts[0].port;
    let mut k: usize = 1;
    while k < insts.len()
        invariant
            1 <= k <= insts.len(),
            p == insts@[0].port,
            forall|j: int| 0 <= j < k ==> (#[trigger] insts@[j]).port == p,
        decreases insts.len() - k,
    {
        if insts[k].port != p {
            return None;
        }
        k = k + 1;
    }
    Some(p)
}

/// The node identifiers of a service's instances, in ascending order.
pub fn sorted_nodes(insts: &Vec<HealthyInstance>) -> (r: Vec<String>)
    ensures
        views(r@) == node_ids(insts@).sort_by(name_order()),
{
    let mut nodes: Vec<String> = Vec::new();
    let mut k: usize = 0;
    while k < insts.len()
        invariant
            k <= insts.len(),
            views(nodes@) == node_ids(insts@).take(k as int),
        decreases insts.len() - k,
    {
        let ghost before = nodes@;
        nodes.push(insts[k].node.clone());
        assert(views(nodes@) =~= views(before).push(insts@[k as int].node@));
        assert(views(nodes@) =~= node_ids(insts@).take(k + 1));
        k = k + 1;
    }
    assert(views(nodes@) =~= node_ids(insts@));
    sort_names(nodes)
}

/// The row for one service, or the integrity error when its instances
/// disagree on the port.
pub fn build_entry(name: &String, insts: &Vec<HealthyInstance>) -> (r: Result<ServiceEntry, TickError>)
    requires
        insts@.len() > 0,
    ensures
        r is Ok <==> ports_agree(insts@),
        r is Ok ==> entry_fits(r->Ok_0@, name@, insts@),
        r is Err ==> r->Err_0 is DataIntegrity && r->Err_0->DataIntegrity_0@ == name@,
{
    match common_port(insts) {
        None => Err(TickError::DataIntegrity(name.clone())),
        Some(port) => Ok(
            ServiceEntry {
                name: name.clone(),
                port,
                mode: service_mode(insts),
                nodes: sorted_nodes(insts),
            },
        ),
    }
}

/// The document for a map of services hosted elsewhere: one row per service,
/// in ascending order of name. It fails, naming a service, exactly when the
/// instances of some service disagree on the port.
pub fn build(m: &ExternalServiceMap) -> (r: Result<RenderDocument, TickError>)
    requires
        m.wf(),
    ensures
        r is Ok <==> forall|k: Seq<char>| #[trigger] m@.contains_key(k) ==> ports_agree(m@[k]),
        r is Ok ==> document_fits(r->Ok_0@, m@),
        r is Err ==> r->Err_0 is DataIntegrity && m@.contains_key(r->Err_0->DataIntegrity_0@)
            && !ports_agree(m@[r->Err_0->DataIntegrity_0@]),
{
    let names = m.names();
    let sorted = sort_names(names);
    proof {
        lemma_same_multiset(views(names@), views(sorted@));
    }
    let mut services: Vec<ServiceEntry> = Vec::new();
    let mut i: usize = 0;
    while i < sorted.len()
        invariant
            m.wf(),
            i <= sorted.len(),
            views(sorted@).to_set() == m@.dom(),
            names_sorted(views(sorted@)),
            views(sorted@).no_duplicates(),
            services@.len() == i,
            forall|j: int|
                0 <= j < i ==> #[trigger] services@[j]@.name == views(sorted@)[j] && entry_fits(
                    services@[j]@,
                    views(sorted@)[j],
                    m@[views(sorted@)[j]],
                ),
            forall|j: int| 0 <= j < i ==> ports_agree(m@[#[trigger] views(sorted@)[j]]),
        decreases sorted.len() - i,
    {
        let name = &sorted[i];
        assert(views(sorted@)[i as int] == name@);
        assert(m@.contains_key(name@));
        let insts = m.get(name).unwrap();
        match build_entry(name, insts) {
            Ok(e) => {
                services.push(e);
            },
            Err(err) => {
                return Err(err);
            },
        }
        i = i + 1;
    }
    let d = RenderDocument { services };
    proof {
        assert(row_names(d@) =~= views(sorted@));
        assert forall|k: Seq<char>| #[trigger] m@.contains_key(k) implies ports_agree(m@[k]) by {
            assert(views(sorted@).to_set().contains(k));
            let j = choose|j: int| 0 <= j < views(sorted@).len() && views(sorted@)[j] == k;
        }
    }
    Ok(d)
}

} // verus!
