//! Which registered services are hosted elsewhere, and which of them have
//! healthy instances.
use crate::model::HealthyInstance;
use crate::order::{lemma_same_multiset, names_sorted, sort_names, views};
use vstd::prelude::*;

verus! {

/// Whether `s` is among `v`, compared by name.
fn contains_name(v: &Vec<String>, s: &String) -> (r: bool)
    ensures
        r == views(v@).contains(s@),
{
    let mut i: usize = 0;
    while i < v.len()
        invariant
            i <= v.len(),
            forall|k: int| 0 <= k < i ==> (#[trigger] v@[k])@ != s@,
        decreases v.len() - i,
    {
        if v[i] == *s {
            assert(views(v@)[i as int] == s@);
            return true;
        }
        i = i + 1;
    }
    proof {
        if views(v@).contains(s@) {
            let k = choose|k: int| 0 <= k < views(v@).len() && views(v@)[k] == s@;
            assert(v@[k]@ == s@);
        }
    }
    false
}

/// The services of the catalog that the local agent does not host, each
/// once, in ascending order of name.
pub fn candidate_services(catalog: &Vec<String>, local: &Vec<String>) -> (r: Vec<String>)
    ensures
        views(r@).to_set() == views(catalog@).to_set().difference(views(local@).to_set()),
        views(r@).no_duplicates(),
        names_sorted(views(r@)),
{
    let mut kept: Vec<String> = Vec::new();
    let mut i: usize = 0;
    while i < catalog.len()
        invariant
            i <= catalog.len(),
            views(kept@).to_set() == views(catalog@.take(i as int)).to_set().difference(
                views(local@).to_set(),
            ),
            views(kept@).no_duplicates(),
        decreases catalog.len() - i,
    {
        let c = &catalog[i];
        let ghost before = kept@;
        proof {
            assert(views(catalog@.take(i + 1)) =~= views(catalog@.take(i as int)).push(c@));
            views(catalog@.take(i as int)).lemma_push_to_set_commute(c@);
        }
        if !contains_name(local, c) && !contains_name(&kept, c) {
            kept.push(c.clone());
            proof {
                assert(views(kept@) =~= views(before).push(c@));
                views(before).lemma_push_to_set_commute(c@);
                assert(views(kept@).to_set() =~= views(catalog@.take(i + 1)).to_set().difference(
                    views(local@).to_set(),
                ));
            }
        } else {
            proof {
                assert(views(kept@).to_set() =~= views(catalog@.take(i + 1)).to_set().difference(
                    views(local@).to_set(),
                ));
            }
        }
        i = i + 1;
    }
    proof {
        assert(catalog@.take(catalog@.len() as int) =~= catalog@);
    }
    let r = sort_names(kept);
    proof {
        lemma_same_multiset(views(kept@), views(r@));
    }
    r
}

/// The names of a list of map entries.
pub open spec fn entry_names(s: Seq<(String, Vec<HealthyInstance>)>) -> Seq<Seq<char>> {
    s.map_values(|e: (String, Vec<HealthyInstance>)| e.0@)
}

/// The map that a list of entries stands for; a later entry wins.
pub open spec fn entries_map(s: Seq<(String, Vec<HealthyInstance>)>) -> Map<
    Seq<char>,
    Seq<HealthyInstance>,
>
    decreases s.len(),
{
    if s.len() == 0 {
        Map::empty()
    } else {
        entries_map(s.drop_last()).insert(s.last().0@, s.last().1@)
    }
}

proof fn lemma_entries_map(s: Seq<(String, Vec<HealthyInstance>)>)
    requires
        entry_names(s).no_duplicates(),
    ensures
        entries_map(s).dom() == entry_names(s).to_set(),
        forall|i: int|
            0 <= i < s.len() ==> #[trigger] entries_map(s)[s[i].0@] == s[i].1@,
    decreases s.len(),
{
    if s.len() > 0 {
        let t = s.drop_last();
        assert(entry_names(t) =~= entry_names(s).drop_last());
        lemma_entries_map(t);
        assert(entry_names(s) =~= entry_names(t).push(s.last().0@));
        entry_names(t).lemma_push_to_set_commute(s.last().0@);
        assert forall|i: int| 0 <= i < s.len() implies #[trigger] entries_map(s)[s[i].0@]
            == s[i].1@ by {
            if i < s.len() - 1 {
                assert(entry_names(s)[i] != entry_names(s)[s.len() - 1]);
                assert(t[i] == s[i]);
            }
        }
        assert(entries_map(s).dom() =~= entry_names(s).to_set());
    }
}

/// The services hosted elsewhere that have healthy instances, each with
/// the list of those instances.
pub struct ExternalServiceMap {
    entries: Vec<(String, Vec<HealthyInstance>)>,
}

impl View for ExternalServiceMap {
    type V = Map<Seq<char>, Seq<HealthyInstance>>;

    closed spec fn view(&self) -> Map<Seq<char>, Seq<HealthyInstance>> {
        entries_map(self.entries@)
    }
}

impl ExternalServiceMap {
    /// Each service is held once.
    pub closed spec fn names_distinct(&self) -> bool {
        entry_names(self.entries@).no_duplicates()
    }

    /// Well formed: every service held has at least one instance.
    pub open spec fn wf(&self) -> bool {
        &&& self.names_distinct()
        &&& forall|k: Seq<char>| #[trigger] self@.contains_key(k) ==> self@[k].len() > 0
    }

    /// The map that holds no service.
    pub fn new() -> (r: ExternalServiceMap)
        ensures
            r.wf(),
            r@ == Map::<Seq<char>, Seq<HealthyInstance>>::empty(),
    {
        let r = ExternalServiceMap { entries: Vec::new() };
        assert(entry_names(r.entries@) =~= Seq::<Seq<char>>::empty());
        r
    }

    /// Where the service is held, if it is.
    fn position(&self, name: &String) -> (r: Option<usize>)
        requires
            self.wf(),
        ensures
            r is Some <==> self@.contains_key(name@),
            r is Some ==> r->0 < self.entries@.len() && self.entries@[r->0 as int].0@ == name@
                && self@[name@] == self.entries@[r->0 as int].1@,
    {
        let mut i: usize = 0;
        while i < self.entries.len()
            invariant
                self.wf(),
                i <= self.entries.len(),
                forall|k: int| 0 <= k < i ==> (#[trigger] self.entries@[k]).0@ != name@,
            decreases self.entries.len() - i,
        {
            if self.entries[i].0 == *name {
                proof {
                    lemma_entries_map(self.entries@);
                    assert(entry_names(self.entries@)[i as int] == name@);
                    assert(entries_map(self.entries@)[self.entries@[i as int].0@]
                        == self.entries@[i as int].1@);
                }
                return Some(i);
            }
            i = i + 1;
        }
        proof {
            lemma_entries_map(self.entries@);
            if self@.contains_key(name@) {
                let k = choose|k: int|
                    0 <= k < entry_names(self.entries@).len() && entry_names(self.entries@)[k]
                        == name@;
                assert(self.entries@[k].0@ == name@);
            }
        }
        None
    }

    /// Records the healthy instances found for a service. A service with no
    /// instance is left out, and a service already held keeps its list.
    pub fn insert_healthy(&mut self, name: String, instances: Vec<HealthyInstance>) -> (r: bool)
        requires
            old(self).wf(),
        ensures
            final(self).wf(),
            r == (instances@.len() > 0 && !old(self)@.contains_key(name@)),
            r ==> final(self)@ == old(self)@.insert(name@, instances@),
            !r ==> final(self)@ == old(self)@,
    {
        if instances.len() == 0 {
            return false;
        }
        if self.position(&name).is_some() {
            return false;
        }
        let ghost before = self.entries@;
        proof {
            lemma_entries_map(before);
        }
        self.entries.push((name, instances));
        proof {
            assert(self.entries@.drop_last() =~= before);
            assert(entry_names(self.entries@) =~= entry_names(before).push(name@));
            lemma_entries_map(self.entries@);
        }
        true
    }

    /// The number of services held.
    pub fn len(&self) -> (r: usize)
        requires
            self.wf(),
        ensures
            r == self@.dom().len(),
    {
        proof {
            lemma_entries_map(self.entries@);
            entry_names(self.entries@).unique_seq_to_set();
        }
        self.entries.len()
    }

    /// The names of the services held, each once.
    pub fn names(&self) -> (r: Vec<String>)
        requires
            self.wf(),
        ensures
            views(r@).to_set() == self@.dom(),
            views(r@).no_duplicates(),
    {
        let mut r: Vec<String> = Vec::new();
        let mut i: usize = 0;
        while i < self.entries.len()
            invariant
                i <= self.entries.len(),
                views(r@) == entry_names(self.entries@).take(i as int),
            decreases self.entries.len() - i,
        {
            let ghost before = r@;
            r.push(self.entries[i].0.clone());
            assert(views(r@) =~= views(before).push(self.entries@[i as int].0@));
            assert(views(r@) =~= entry_names(self.entries@).take(i + 1));
            i = i + 1;
        }
        proof {
            assert(views(r@) =~= entry_names(self.entries@));
            lemma_entries_map(self.entries@);
        }
        r
    }

    /// The instances held for a service, if it is held.
    pub fn get(&self, name: &String) -> (r: Option<&Vec<HealthyInstance>>)
        requires
            self.wf(),
        ensures
            r is Some <==> self@.contains_key(name@),
            r is Some ==> r->0@ == self@[name@],
    {
        match self.position(name) {
            Some(i) => Some(&self.entries[i].1),
            None => None,
        }
    }
}

} // verus!
