//! The catalog: zone authorities by apex, and which one answers for a name.
use vstd::prelude::*;
use crate::name::{Name, is_at_or_below, lower_name};
use crate::record::RecordView;
use crate::zone::{Authority, ConfigError, Answer, matching, name_present};

verus! {

/// Zone `i` is registered, `n` lies at or below its apex, and no registered
/// apex above `n` is longer.
pub open spec fn most_specific(apexes: Seq<Seq<Seq<u8>>>, n: Seq<Seq<u8>>, i: int) -> bool {
    &&& 0 <= i < apexes.len()
    &&& is_at_or_below(n, apexes[i])
    &&& forall|j: int| 0 <= j < apexes.len() && is_at_or_below(n, #[trigger] apexes[j])
        ==> apexes[j].len() <= apexes[i].len()
}

/// The zone that answers for `n`: the most specific apex at or above it.
pub open spec fn authority_for(apexes: Seq<Seq<Seq<u8>>>, n: Seq<Seq<u8>>) -> Option<int> {
    if exists|i: int| most_specific(apexes, n, i) {
        Some(choose|i: int| most_specific(apexes, n, i))
    } else {
        None
    }
}

pub open spec fn distinct(apexes: Seq<Seq<Seq<u8>>>) -> bool {
    forall|i: int, j: int| 0 <= i < apexes.len() && 0 <= j < apexes.len() && i != j
        ==> #[trigger] apexes[i] != #[trigger] apexes[j]
}

/// Zone authorities keyed by their lower-case apex, no two with one apex.
#[derive(Debug)]
pub struct Catalog {
    zones: Vec<Authority>,
}

impl Catalog {
    pub closed spec fn apexes(&self) -> Seq<Seq<Seq<u8>>> {
        self.zones@.map_values(|a: Authority| a.apex_view())
    }

    pub closed spec fn stores(&self) -> Seq<Seq<RecordView>> {
        self.zones@.map_values(|a: Authority| a.store())
    }

    pub closed spec fn wf(&self) -> bool {
        &&& distinct(self.apexes())
        &&& forall|i: int| 0 <= i < self.zones@.len() ==> (#[trigger] self.zones@[i]).wf()
    }

    /// Every record of a well-formed catalog can travel on the wire.
    pub proof fn lemma_stores_valid(&self, i: int)
        requires
            self.wf(),
            0 <= i < self.apexes().len(),
        ensures
            self.stores().len() == self.apexes().len(),
            forall|j: int| 0 <= j < self.stores()[i].len() ==> crate::name::valid_name(#[trigger] self.stores()[i][j].name)
                && self.stores()[i][j].rdata.len() <= crate::record::MAX_RDATA_LEN,
    {
        assert(self.zones@[i].wf());
        self.zones@[i].lemma_store_valid();
        assert(self.stores()[i] == self.zones@[i].store());
    }

    pub fn new() -> (r: Catalog)
        ensures
            r.wf(),
            r.apexes() == Seq::<Seq<Seq<u8>>>::empty(),
            r.stores() == Seq::<Seq<RecordView>>::empty(),
    {
        let r = Catalog { zones: Vec::new() };
        assert(r.apexes() =~= Seq::<Seq<Seq<u8>>>::empty());
        assert(r.stores() =~= Seq::<Seq<RecordView>>::empty());
        r
    }

    pub fn len(&self) -> (r: usize)
        ensures
            r == self.apexes().len(),
    {
        self.zones.len()
    }

    /// The position of the zone with this apex, compared without regard to case.
    fn position(&self, apex: &Name) -> (r: Option<usize>)
        ensures
            match r {
                Some(i) => i < self.apexes().len() && self.apexes()[i as int] == lower_name(apex@),
                None => forall|i: int| 0 <= i < self.apexes().len() ==> #[trigger] self.apexes()[i] != lower_name(apex@),
            },
    {
        let a = apex.to_lowercase();
        let mut i: usize = 0;
        while i < self.zones.len()
            invariant
                i <= self.zones.len(),
                a@ == lower_name(apex@),
                forall|j: int| 0 <= j < i ==> #[trigger] self.apexes()[j] != lower_name(apex@),
            decreases self.zones.len() - i,
        {
            if self.zones[i].apex().equals(&a) {
                return Some(i);
            }
            i += 1;
        }
        None
    }

    /// Whether a zone with this apex is registered.
    pub fn contains(&self, apex: &Name) -> (r: bool)
        ensures
            r == exists|i: int| 0 <= i < self.apexes().len() && #[trigger] self.apexes()[i] == lower_name(apex@),
    {
        match self.position(apex) {
            Some(_) => true,
            None => false,
        }
    }

    /// Adds a zone. Fails where a zone with the same apex is registered.
    pub fn register(&mut self, a: Authority) -> (r: Result<(), ConfigError>)
        requires
            old(self).wf(),
            a.wf(),
        ensures
            final(self).wf(),
            r is Ok == !old(self).apexes().contains(a.apex_view()),
            r is Ok ==> final(self).apexes() == old(self).apexes().push(a.apex_view())
                && final(self).stores() == old(self).stores().push(a.store()),
            r is Err ==> r == Err::<(), ConfigError>(ConfigError::DuplicateZone)
                && final(self).apexes() == old(self).apexes()
                && final(self).stores() == old(self).stores(),
    {
        proof { a.lemma_apex_canonical(); }
        match self.position(a.apex()) {
            Some(i) => {
                assert(self.apexes()[i as int] == a.apex_view());
                Err(ConfigError::DuplicateZone)
            },
            None => {
                let ghost av = a.apex_view();
                let ghost st = a.store();
                let ghost old_apexes = self.apexes();
                let ghost old_stores = self.stores();
                let ghost za = self.zones@;
                assert(forall|j: int| 0 <= j < za.len() ==> (#[trigger] za[j]).wf());
                self.zones.push(a);
                assert(self.zones@ == za.push(a));
                assert(self.apexes() =~= old_apexes.push(av));
                assert(!old_apexes.contains(av));
                assert(self.stores() =~= old_stores.push(st));
                Ok(())
            },
        }
    }

    /// Adds a zone, or replaces the zone with the same apex.
    pub fn upsert(&mut self, a: Authority)
        requires
            old(self).wf(),
            a.wf(),
        ensures
            final(self).wf(),
            old(self).apexes().contains(a.apex_view()) ==> exists|i: int| 0 <= i < old(self).apexes().len()
                && old(self).apexes()[i] == a.apex_view()
                && final(self).apexes() == old(self).apexes()
                && final(self).stores() == old(self).stores().update(i, a.store()),
            !old(self).apexes().contains(a.apex_view()) ==> final(self).apexes() == old(self).apexes().push(a.apex_view())
                && final(self).stores() == old(self).stores().push(a.store()),
    {
        proof { a.lemma_apex_canonical(); }
        match self.position(a.apex()) {
            Some(i) => {
                let ghost av = a.apex_view();
                let ghost st = a.store();
                let ghost old_apexes = self.apexes();
                let ghost old_stores = self.stores();
                let ghost za = self.zones@;
                assert(forall|j: int| 0 <= j < za.len() ==> (#[trigger] za[j]).wf());
                self.zones.set(i, a);
                assert(self.zones@ == za.update(i as int, a));
                assert(self.apexes() =~= old_apexes);
                assert(self.stores() =~= old_stores.update(i as int, st));
                assert(old_apexes[i as int] == av);
            },
            None => {
                let ghost av = a.apex_view();
                let ghost st = a.store();
                let ghost old_apexes = self.apexes();
                let ghost old_stores = self.stores();
                let ghost za = self.zones@;
                assert(forall|j: int| 0 <= j < za.len() ==> (#[trigger] za[j]).wf());
                self.zones.push(a);
                assert(self.zones@ == za.push(a));
                assert(self.apexes() =~= old_apexes.push(av));
                assert(self.stores() =~= old_stores.push(st));
                assert(!old_apexes.contains(av));
            },
        }
    }

    /// Takes out the zone with this apex, compared without regard to case.
    pub fn remove(&mut self, apex: &Name) -> (r: Option<Authority>)
        requires
            old(self).wf(),
        ensures
            final(self).wf(),
            r is Some == old(self).apexes().contains(lower_name(apex@)),
            r is Some ==> exists|i: int| 0 <= i < old(self).apexes().len()
                && old(self).apexes()[i] == lower_name(apex@)
                && r.unwrap().apex_view() == lower_name(apex@)
                && r.unwrap().store() == old(self).stores()[i]
                && final(self).apexes() == old(self).apexes().remove(i)
                && final(self).stores() == old(self).stores().remove(i),
            r is None ==> final(self).apexes() == old(self).apexes() && final(self).stores() == old(self).stores(),
    {
        match self.position(apex) {
            Some(i) => {
                let ghost old_apexes = self.apexes();
                let ghost old_stores = self.stores();
                let ghost za = self.zones@;
                let a = self.zones.remove(i);
                assert(self.zones@ == za.remove(i as int));
                assert(self.apexes() =~= old_apexes.remove(i as int));
                assert(self.stores() =~= old_stores.remove(i as int));
                assert(forall|j: int| 0 <= j < self.zones@.len() ==> (#[trigger] self.zones@[j]).wf()) by {
                    assert(forall|j: int| 0 <= j < self.zones@.len() ==> #[trigger] self.zones@[j] == za[if j < i { j } else { j + 1 }]);
                }
                assert(distinct(self.apexes())) by {
                    assert(forall|j: int| 0 <= j < self.apexes().len() ==> #[trigger] self.apexes()[j] == old_apexes[if j < i { j } else { j + 1 }]);
                }
                assert(old_apexes.contains(lower_name(apex@)));
                Some(a)
            },
            None => None,
        }
    }

    /// The zone whose apex is the most specific ancestor of `name` (or `name`
    /// itself), compared without regard to case; none where no zone covers it.
    pub fn find_authority(&self, name: &Name) -> (r: Option<usize>)
        requires
            self.wf(),
        ensures
            r == match authority_for(self.apexes(), lower_name(name@)) {
                Some(i) => Some(i as usize),
                None => None::<usize>,
            },
            r is Some ==> r.unwrap() < self.apexes().len()
                && authority_for(self.apexes(), lower_name(name@)) == Some(r.unwrap() as int),
    {
        let n = name.to_lowercase();
        let ghost ap = self.apexes();
        let mut best: Option<usize> = None;
        let mut i: usize = 0;
        while i < self.zones.len()
            invariant
                i <= self.zones.len(),
                ap == self.apexes(),
                ap.len() == self.zones.len(),
                n@ == lower_name(name@),
                match best {
                    Some(b) => b < i && is_at_or_below(n@, ap[b as int])
                        && forall|j: int| 0 <= j < i && is_at_or_below(n@, #[trigger] ap[j]) ==> ap[j].len() <= ap[b as int].len(),
                    None => forall|j: int| 0 <= j < i ==> !is_at_or_below(n@, #[trigger] ap[j]),
                },
            decreases self.zones.len() - i,
        {
            let z = &self.zones[i];
            assert(z.apex_view() == ap[i as int]);
            if n.is_at_or_below(z.apex()) {
                let better = match best {
                    Some(b) => self.zones[b].apex().len() < z.apex().len(),
                    None => true,
                };
                if better {
                    best = Some(i);
                }
            }
            i += 1;
        }
        proof {
            match best {
                Some(b) => {
                    assert(most_specific(ap, n@, b as int));
                    lemma_most_specific_unique(ap, n@, b as int);
                },
                None => {},
            }
        }
        best
    }

    /// Answers a question from the zone at position `i`.
    pub fn answer_from(&self, i: usize, qname: &Name, rtype: u16, class: u16) -> (r: Answer)
        requires
            self.wf(),
            i < self.apexes().len(),
        ensures
            ({
                let s = self.stores()[i as int];
                let m = matching(s, lower_name(qname@), rtype, class);
                match r {
                    Answer::Answered(v) => m.len() > 0 && crate::record::records_view(v) == m,
                    Answer::NoData => m.len() == 0 && name_present(s, lower_name(qname@)),
                    Answer::NameError => m.len() == 0 && !name_present(s, lower_name(qname@)),
                }
            }),
    {
        assert(self.zones@[i as int].wf());
        self.zones[i].answer(qname, rtype, class)
    }
}

/// Two apexes above one name with the same number of labels are the same.
proof fn lemma_suffix_unique(n: Seq<Seq<u8>>, a: Seq<Seq<u8>>, b: Seq<Seq<u8>>)
    requires
        is_at_or_below(n, a),
        is_at_or_below(n, b),
        a.len() == b.len(),
    ensures
        a == b,
{
}

/// With distinct apexes, at most one zone is the most specific for a name.
pub proof fn lemma_most_specific_unique(apexes: Seq<Seq<Seq<u8>>>, n: Seq<Seq<u8>>, i: int)
    requires
        distinct(apexes),
        most_specific(apexes, n, i),
    ensures
        authority_for(apexes, n) == Some(i),
{
    let k = choose|k: int| most_specific(apexes, n, k);
    lemma_suffix_unique(n, apexes[i], apexes[k]);
    if k != i {
        assert(apexes[i] != apexes[k]);
    }
}

/// A name at or below a registered apex is answered by that zone, unless a
/// more specific registered zone also covers the name.
pub proof fn lemma_zone_covers_its_names(apexes: Seq<Seq<Seq<u8>>>, n: Seq<Seq<u8>>, i: int)
    requires
        distinct(apexes),
        0 <= i < apexes.len(),
        is_at_or_below(n, apexes[i]),
        forall|j: int| 0 <= j < apexes.len() && j != i ==> !(is_at_or_below(n, #[trigger] apexes[j])
            && apexes[j].len() > apexes[i].len()),
    ensures
        authority_for(apexes, n) == Some(i),
{
    assert forall|j: int| 0 <= j < apexes.len() && is_at_or_below(n, #[trigger] apexes[j])
        implies apexes[j].len() <= apexes[i].len() by {
        if j != i {
            assert(!(is_at_or_below(n, apexes[j]) && apexes[j].len() > apexes[i].len()));
        }
    }
    lemma_most_specific_unique(apexes, n, i);
}

/// A name below no registered apex has no authority.
pub proof fn lemma_uncovered_name_has_no_authority(apexes: Seq<Seq<Seq<u8>>>, n: Seq<Seq<u8>>)
    requires
        forall|j: int| 0 <= j < apexes.len() ==> !is_at_or_below(n, #[trigger] apexes[j]),
    ensures
        authority_for(apexes, n) == None::<int>,
{
}

/// A zone never answers for a name outside its apex, whatever else is registered.
pub proof fn lemma_zone_ignores_outside_names(apexes: Seq<Seq<Seq<u8>>>, n: Seq<Seq<u8>>, j: int)
    requires
        0 <= j < apexes.len(),
        !is_at_or_below(n, apexes[j]),
    ensures
        authority_for(apexes, n) != Some(j),
{
}

} // verus!
