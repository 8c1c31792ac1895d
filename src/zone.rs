//! A zone authority: the records of one zone and the answers they give.
use vstd::prelude::*;
use crate::name::{Name, is_at_or_below, valid_name, lower_name, lower_label, wire_len, label_equals};
use crate::record::{ResourceRecord, RecordView, records_view, MAX_RDATA_LEN, TYPE_A};

verus! {

/// Why a configuration cannot be loaded.
#[derive(Debug, PartialEq, Eq, Structural)]
pub enum ConfigError {
    /// A name that the parser refuses or the wire format cannot carry.
    InvalidName,
    /// A record type that this server cannot load.
    UnsupportedType,
    /// A value that does not fit the record type, as a bad IPv4 address.
    InvalidValue,
    /// The record at this position has an owner outside the zone's apex.
    OutsideZone(usize),
    /// Two zones share an apex.
    DuplicateZone,
}

/// What a zone says of a name and type.
#[derive(Debug)]
pub enum Answer {
    /// The matching records.
    Answered(Vec<ResourceRecord>),
    /// The name exists, with no record of that type and class.
    NoData,
    /// The name does not exist in the zone.
    NameError,
}

pub open spec fn record_matches(r: RecordView, n: Seq<Seq<u8>>, t: u16, c: u16) -> bool {
    r.name == n && r.rtype == t && r.class == c
}

/// The records of `s` with owner `n`, type `t` and class `c`, in store order.
pub open spec fn matching(s: Seq<RecordView>, n: Seq<Seq<u8>>, t: u16, c: u16) -> Seq<RecordView>
    decreases s.len(),
{
    if s.len() == 0 {
        Seq::empty()
    } else {
        let rest = matching(s.drop_last(), n, t, c);
        if record_matches(s.last(), n, t, c) {
            rest.push(s.last())
        } else {
            rest
        }
    }
}

/// Some record of `s` is owned by `n` or by a name below it.
pub open spec fn name_present(s: Seq<RecordView>, n: Seq<Seq<u8>>) -> bool {
    exists|i: int| 0 <= i < s.len() && is_at_or_below(#[trigger] s[i].name, n)
}

/// Records that the store treats as one: same owner, type, class and payload.
pub open spec fn same_key(a: RecordView, b: RecordView) -> bool {
    a.name == b.name && a.rtype == b.rtype && a.class == b.class && a.rdata == b.rdata
}

/// The store after one insertion: a record with the same key is replaced,
/// any other record is added at the end.
pub open spec fn inserted(s: Seq<RecordView>, r: RecordView) -> Seq<RecordView> {
    if exists|i: int| 0 <= i < s.len() && same_key(#[trigger] s[i], r) {
        let i = choose|i: int| 0 <= i < s.len() && same_key(#[trigger] s[i], r);
        s.update(i, r)
    } else {
        s.push(r)
    }
}

/// The store after inserting each record of `rs` in turn.
pub open spec fn inserted_all(s: Seq<RecordView>, rs: Seq<RecordView>) -> Seq<RecordView>
    decreases rs.len(),
{
    if rs.len() == 0 {
        s
    } else {
        inserted(inserted_all(s, rs.drop_last()), rs.last())
    }
}

/// A record as the store keeps it: owner in lower case.
pub open spec fn canonical(r: RecordView) -> RecordView {
    RecordView { name: lower_name(r.name), ..r }
}

/// The record fits in a zone with this apex: an address record at or below
/// the apex that the wire format can carry. Other types are not served, so
/// no alias chain ever has to be followed.
pub open spec fn record_fits(r: RecordView, apex: Seq<Seq<u8>>) -> bool {
    &&& r.rtype == TYPE_A
    &&& is_at_or_below(lower_name(r.name), apex)
    &&& valid_name(r.name)
    &&& r.rdata.len() <= MAX_RDATA_LEN
}

/// The first record of `rs` that does not fit under `apex`.
pub open spec fn first_misfit(rs: Seq<RecordView>, apex: Seq<Seq<u8>>, i: int) -> bool {
    &&& 0 <= i < rs.len()
    &&& !record_fits(rs[i], apex)
    &&& forall|j: int| 0 <= j < i ==> record_fits(#[trigger] rs[j], apex)
}

/// The error for a record that does not fit at position `i`.
pub open spec fn misfit_error(r: RecordView, i: int) -> ConfigError {
    if r.rtype != TYPE_A {
        ConfigError::UnsupportedType
    } else {
        ConfigError::OutsideZone(i as usize)
    }
}

pub open spec fn no_duplicate_keys(s: Seq<RecordView>) -> bool {
    forall|i: int, j: int| 0 <= i < s.len() && 0 <= j < s.len() && i != j
        ==> !same_key(#[trigger] s[i], #[trigger] s[j])
}

/// The zone authority for one apex, owning its records.
#[derive(Debug)]
pub struct Authority {
    apex: Name,
    records: Vec<ResourceRecord>,
}

impl Authority {
    pub closed spec fn apex_view(&self) -> Seq<Seq<u8>> {
        self.apex@
    }

    pub closed spec fn store(&self) -> Seq<RecordView> {
        records_view(self.records)
    }

    /// Every record lies at or below the apex, in lower case, with a valid
    /// name, and no two records share a key.
    pub closed spec fn wf(&self) -> bool {
        &&& valid_name(self.apex@)
        &&& lower_name(self.apex@) == self.apex@
        &&& no_duplicate_keys(self.store())
        &&& forall|i: int| 0 <= i < self.store().len() ==> {
            let r = #[trigger] self.store()[i];
            &&& r.rtype == TYPE_A
            &&& is_at_or_below(r.name, self.apex@)
            &&& valid_name(r.name)
            &&& lower_name(r.name) == r.name
            &&& r.rdata.len() <= MAX_RDATA_LEN
        }
    }

    /// An empty primary zone. The apex is kept in lower case.
    pub fn new(apex: &Name) -> (r: Result<Authority, ConfigError>)
        ensures
            r.is_ok() == valid_name(apex@),
            r is Ok ==> r.unwrap().wf() && r.unwrap().apex_view() == lower_name(apex@)
                && r.unwrap().store() == Seq::<RecordView>::empty(),
            r is Err ==> r == Err::<Authority, ConfigError>(ConfigError::InvalidName),
    {
        if !apex.is_valid() {
            return Err(ConfigError::InvalidName);
        }
        let lower = apex.to_lowercase();
        proof { lemma_lower_name_keeps_validity(apex@); lemma_lower_name_idempotent(apex@); }
        let a = Authority { apex: lower, records: Vec::new() };
        assert(a.store() =~= Seq::<RecordView>::empty());
        Ok(a)
    }

    /// A well-formed zone keeps its apex valid and in lower case.
    pub proof fn lemma_apex_canonical(&self)
        requires
            self.wf(),
        ensures
            lower_name(self.apex_view()) == self.apex_view(),
            valid_name(self.apex_view()),
    {
    }

    /// A well-formed zone holds only records that the wire format can carry.
    pub proof fn lemma_store_valid(&self)
        requires
            self.wf(),
        ensures
            forall|i: int| 0 <= i < self.store().len() ==> valid_name(#[trigger] self.store()[i].name)
                && self.store()[i].rdata.len() <= MAX_RDATA_LEN,
    {
    }

    pub fn apex(&self) -> (r: &Name)
        ensures
            r@ == self.apex_view(),
    {
        &self.apex
    }

    /// Number of records in the store.
    pub fn len(&self) -> (r: usize)
        ensures
            r == self.store().len(),
    {
        self.records.len()
    }

    /// Inserts one record that fits in the zone, keeping its owner in lower case.
    fn insert(&mut self, rec: ResourceRecord)
        requires
            old(self).wf(),
            record_fits(rec@, old(self).apex_view()),
        ensures
            final(self).wf(),
            final(self).apex_view() == old(self).apex_view(),
            final(self).store() == inserted(old(self).store(), canonical(rec@)),
    {
        let ghost rv = rec@;
        let lname = rec.name.to_lowercase();
        proof { lemma_lower_name_keeps_validity(rec@.name); lemma_lower_name_idempotent(rec@.name); }
        let c = ResourceRecord { name: lname, rtype: rec.rtype, class: rec.class, ttl: rec.ttl, rdata: crate::name::copy_label(&rec.rdata) };
        assert(c@ == canonical(rv));
        let ghost s = self.store();
        let mut i: usize = 0;
        while i < self.records.len()
            invariant
                i <= self.records.len(),
                self.store() == s,
                s == old(self).store(),
                self.apex_view() == old(self).apex_view(),
                self.wf(),
                s.len() == self.records.len(),
                c@ == canonical(rv),
                rv == rec@,
                forall|j: int| 0 <= j < i ==> !same_key(#[trigger] s[j], c@),
            decreases self.records.len() - i,
        {
            let same = {
                let r = &self.records[i];
                r.rtype == c.rtype && r.class == c.class && r.name.equals(&c.name)
                    && label_equals(&r.rdata, &c.rdata)
            };
            if same {
                assert(same_key(s[i as int], c@));
                proof {
                    let cr = canonical(rv);
                    assert(c@ == cr);
                    assert(same_key(s[i as int], cr));
                    let k = choose|k: int| 0 <= k < s.len() && same_key(#[trigger] s[k], cr);
                    assert(k == i) by {
                        if k != i {
                            assert(same_key(s[k], s[i as int]));
                        }
                    }
                    assert(inserted(s, canonical(rv)) == s.update(i as int, c@));
                }
                self.records.set(i, c);
                assert(self.store() =~= s.update(i as int, c@));
                assert forall|j: int| 0 <= j < s.len() && j != i implies !same_key(#[trigger] s[j], c@) by {
                    assert(!same_key(s[j], s[i as int]));
                }
                return;
            }
            i += 1;
        }
        self.records.push(c);
        assert(self.store() =~= s.push(c@));
    }

    /// Loads records into the zone. Fails, and changes nothing, where a record
    /// is no address record, lies outside the apex or cannot travel on the
    /// wire; the error speaks of the first such record.
    pub fn load(&mut self, recs: Vec<ResourceRecord>) -> (r: Result<(), ConfigError>)
        requires
            old(self).wf(),
        ensures
            final(self).wf(),
            final(self).apex_view() == old(self).apex_view(),
            r is Ok == (forall|i: int| 0 <= i < recs@.len() ==> record_fits(#[trigger] records_view(recs)[i], old(self).apex_view())),
            r is Ok ==> final(self).store() == inserted_all(old(self).store(), records_view(recs).map_values(|v: RecordView| canonical(v))),
            r is Err ==> final(self).store() == old(self).store(),
            r is Err ==> exists|i: int| first_misfit(records_view(recs), old(self).apex_view(), i)
                && r == Err::<(), ConfigError>(misfit_error(records_view(recs)[i], i)),
    {
        let ghost rv = records_view(recs);
        let mut i: usize = 0;
        while i < recs.len()
            invariant
                i <= recs.len(),
                rv == records_view(recs),
                self.wf(),
                self.apex_view() == old(self).apex_view(),
                self.store() == old(self).store(),
                forall|j: int| 0 <= j < i ==> record_fits(#[trigger] rv[j], self.apex_view()),
            decreases recs.len() - i,
        {
            let fits = {
                let rec = &recs[i];
                let lname = rec.name.to_lowercase();
                rec.rtype == TYPE_A && lname.is_at_or_below(&self.apex) && rec.name.is_valid()
                    && rec.rdata.len() <= MAX_RDATA_LEN
            };
            if !fits {
                assert(first_misfit(rv, self.apex_view(), i as int));
                if recs[i].rtype != TYPE_A {
                    return Err(ConfigError::UnsupportedType);
                }
                return Err(ConfigError::OutsideZone(i));
            }
            i += 1;
        }
        let ghost s0 = self.store();
        let ghost cv = rv.map_values(|v: RecordView| canonical(v));
        let mut k: usize = 0;
        let n = recs.len();
        while k < n
            invariant
                self.wf(),
                self.apex_view() == old(self).apex_view(),
                k <= n,
                n == rv.len(),
                rv == records_view(recs),
                cv == rv.map_values(|v: RecordView| canonical(v)),
                cv.len() == n,
                self.store() == inserted_all(s0, cv.subrange(0, k as int)),
                forall|j: int| 0 <= j < n ==> record_fits(#[trigger] rv[j], self.apex_view()),
            decreases n - k,
        {
            let x = recs[k].copy();
            assert(record_fits(rv[k as int], self.apex_view()));
            self.insert(x);
            assert(cv.subrange(0, k + 1).drop_last() =~= cv.subrange(0, k as int));
            assert(cv.subrange(0, k + 1).last() == canonical(x@));
            k += 1;
        }
        assert(cv.subrange(0, n as int) =~= cv);
        Ok(())
    }

    /// Answers a question on this zone. The name is compared without regard
    /// to ASCII case.
    pub fn answer(&self, qname: &Name, rtype: u16, class: u16) -> (r: Answer)
        requires
            self.wf(),
        ensures
            ({
                let m = matching(self.store(), lower_name(qname@), rtype, class);
                match r {
                    Answer::Answered(v) => m.len() > 0 && records_view(v) == m,
                    Answer::NoData => m.len() == 0 && name_present(self.store(), lower_name(qname@)),
                    Answer::NameError => m.len() == 0 && !name_present(self.store(), lower_name(qname@)),
                }
            }),
    {
        let n = qname.to_lowercase();
        let ghost s = self.store();
        let mut out: Vec<ResourceRecord> = Vec::new();
        let mut present = false;
        let mut i: usize = 0;
        while i < self.records.len()
            invariant
                i <= self.records.len(),
                s == self.store(),
                s.len() == self.records.len(),
                records_view(out) == matching(s.subrange(0, i as int), n@, rtype, class),
                present == exists|j: int| 0 <= j < i && is_at_or_below(#[trigger] s[j].name, n@),
            decreases self.records.len() - i,
        {
            let r = &self.records[i];
            assert(s.subrange(0, i + 1).drop_last() =~= s.subrange(0, i as int));
            assert(s.subrange(0, i + 1).last() == s[i as int]);
            if r.rtype == rtype && r.class == class && r.name.equals(&n) {
                let ghost prev = records_view(out);
                out.push(r.copy());
                assert(records_view(out) =~= prev.push(s[i as int]));
            }
            assert(s[i as int].name == r.name@);
            if r.name.is_at_or_below(&n) {
                present = true;
            }
            assert(present == exists|j: int| 0 <= j < i + 1 && is_at_or_below(#[trigger] s[j].name, n@)) by {
                if is_at_or_below(s[i as int].name, n@) {
                    assert(0 <= i < i + 1 && is_at_or_below(s[i as int].name, n@));
                }
            }
            i += 1;
        }
        assert(s.subrange(0, s.len() as int) =~= s);
        if out.len() > 0 {
            Answer::Answered(out)
        } else if present {
            Answer::NoData
        } else {
            Answer::NameError
        }
    }
}

pub proof fn lemma_lower_name_idempotent(n: Seq<Seq<u8>>)
    ensures
        lower_name(lower_name(n)) == lower_name(n),
{
    assert forall|i: int| 0 <= i < n.len() implies #[trigger] lower_label(lower_label(n[i])) == lower_label(n[i]) by {
        assert(lower_label(lower_label(n[i])) =~= lower_label(n[i]));
    }
    assert(lower_name(lower_name(n)) =~= lower_name(n));
}

proof fn lemma_wire_len_lower(n: Seq<Seq<u8>>)
    ensures
        wire_len(lower_name(n)) == wire_len(n),
    decreases n.len(),
{
    if n.len() > 0 {
        assert(lower_name(n).drop_first() =~= lower_name(n.drop_first()));
        lemma_wire_len_lower(n.drop_first());
    }
}

pub proof fn lemma_lower_name_keeps_validity(n: Seq<Seq<u8>>)
    ensures
        valid_name(n) == valid_name(lower_name(n)),
{
    lemma_wire_len_lower(n);
    assert forall|i: int| 0 <= i < n.len() implies #[trigger] lower_name(n)[i].len() == n[i].len() by {
        assert(lower_name(n)[i] == lower_label(n[i]));
    }
    if valid_name(lower_name(n)) {
        assert forall|i: int| 0 <= i < n.len() implies 1 <= #[trigger] n[i].len() <= crate::name::MAX_LABEL_LEN by {
            assert(lower_name(n)[i].len() == n[i].len());
        }
    }
}

} // verus!
