//! The server's state: its listen configuration and the catalog built from
//! its zones.
use vstd::prelude::*;
use crate::name::{Name, name_labels_of, lower_name, valid_name};
use crate::record::{ResourceRecord, RecordView, records_view};
use crate::zone::{Authority, ConfigError, inserted_all, canonical, first_misfit, misfit_error, record_fits};
use crate::catalog::Catalog;
use crate::config::{GeneralConfig, Record};
use crate::message::{handle, decode_spec, format_error_bytes, encodes, process_spec};

verus! {

/// Zones by apex: each apex written as a domain name, with its records.
pub type Zone = Vec<(String, Vec<Record>)>;

/// The whole configuration.
#[derive(Debug, Clone)]
pub struct RunConfig {
    general: GeneralConfig,
    zones: Zone,
}

impl RunConfig {
    pub closed spec fn spec_zones(&self) -> Seq<(String, Vec<Record>)> {
        self.zones@
    }

    pub closed spec fn spec_general(&self) -> GeneralConfig {
        self.general
    }

    pub fn new(general: GeneralConfig, zones: Zone) -> (r: RunConfig)
        ensures
            r.spec_general() == general,
            r.spec_zones() == zones@,
    {
        RunConfig { general, zones }
    }

    pub fn general(&self) -> (r: &GeneralConfig)
        ensures
            *r == self.spec_general(),
    {
        &self.general
    }

    pub fn zones(&self) -> (r: &Zone)
        ensures
            r@ == self.spec_zones(),
    {
        &self.zones
    }
}

/// The apex that a configured zone names, as parsed.
pub open spec fn zone_apex_raw(z: (String, Vec<Record>)) -> Seq<Seq<u8>> {
    name_labels_of(z.0@).unwrap()
}

/// The apex that a configured zone names, in lower case.
pub open spec fn zone_apex(z: (String, Vec<Record>)) -> Seq<Seq<u8>> {
    lower_name(zone_apex_raw(z))
}

/// The zone's records, converted against its apex.
pub open spec fn zone_records(z: (String, Vec<Record>)) -> Seq<RecordView> {
    z.1@.map_values(|r: Record| r.converted(zone_apex_raw(z)))
}

/// What the zone's store holds once loaded: its converted records, owners in
/// lower case, inserted in order into an empty store.
pub open spec fn zone_store(z: (String, Vec<Record>)) -> Seq<RecordView> {
    inserted_all(Seq::empty(), zone_records(z).map_values(|v: RecordView| canonical(v)))
}

/// Record `k` is the first of `recs` that does not convert.
pub open spec fn first_conversion_error(recs: Seq<Record>, apex: Seq<Seq<u8>>, k: int) -> bool {
    &&& 0 <= k < recs.len()
    &&& recs[k].conversion_error(apex) is Some
    &&& forall|j: int| 0 <= j < k ==> (#[trigger] recs[j]).conversion_error(apex) is None
}

/// Why one zone cannot be loaded: its apex, the first record that does not
/// convert, or the first converted record that does not fit.
pub open spec fn zone_error(z: (String, Vec<Record>)) -> Option<ConfigError> {
    if name_labels_of(z.0@) is None || !valid_name(zone_apex_raw(z)) {
        Some(ConfigError::InvalidName)
    } else if exists|k: int| first_conversion_error(z.1@, zone_apex_raw(z), k) {
        let k = choose|k: int| first_conversion_error(z.1@, zone_apex_raw(z), k);
        z.1@[k].conversion_error(zone_apex_raw(z))
    } else if exists|k: int| first_misfit(zone_records(z), zone_apex(z), k) {
        let k = choose|k: int| first_misfit(zone_records(z), zone_apex(z), k);
        Some(misfit_error(zone_records(z)[k], k))
    } else {
        None
    }
}

/// The zones before position `i` all load, with distinct apexes.
pub open spec fn prefix_ok(zs: Seq<(String, Vec<Record>)>, i: int) -> bool {
    &&& forall|j: int| 0 <= j < i ==> zone_error(#[trigger] zs[j]) is None
    &&& forall|j: int, k: int| 0 <= j < i && 0 <= k < i && j != k
        ==> zone_apex(#[trigger] zs[j]) != zone_apex(#[trigger] zs[k])
}

/// Every zone loads and no two zones share an apex.
pub open spec fn config_ok(zs: Seq<(String, Vec<Record>)>) -> bool {
    prefix_ok(zs, zs.len() as int)
}

/// Zone `i` is the first that fails: it does not load, or an earlier zone
/// has its apex.
pub open spec fn fails_at(zs: Seq<(String, Vec<Record>)>, i: int) -> bool {
    &&& 0 <= i < zs.len()
    &&& prefix_ok(zs, i)
    &&& (zone_error(zs[i]) is Some || exists|j: int| 0 <= j < i && zone_apex(#[trigger] zs[j]) == zone_apex(zs[i]))
}

/// The error reported for the first failing zone.
pub open spec fn error_at(zs: Seq<(String, Vec<Record>)>, i: int) -> ConfigError {
    match zone_error(zs[i]) {
        Some(e) => e,
        None => ConfigError::DuplicateZone,
    }
}

/// Converts configured records, stopping at the first that cannot be loaded.
fn convert_records(recs: &Vec<Record>, apex: &Name) -> (r: Result<Vec<ResourceRecord>, ConfigError>)
    ensures
        r is Err ==> exists|k: int| first_conversion_error(recs@, apex@, k)
            && r == Err::<Vec<ResourceRecord>, ConfigError>(recs@[k].conversion_error(apex@).unwrap()),
        r is Ok ==> records_view(r.unwrap()) == recs@.map_values(|x: Record| x.converted(apex@))
            && forall|k: int| 0 <= k < recs@.len() ==> (#[trigger] recs@[k]).conversion_error(apex@) is None,
{
    let mut out: Vec<ResourceRecord> = Vec::new();
    let mut i: usize = 0;
    while i < recs.len()
        invariant
            i <= recs@.len(),
            records_view(out) =~= recs@.subrange(0, i as int).map_values(|x: Record| x.converted(apex@)),
            forall|j: int| 0 <= j < i ==> (#[trigger] recs@[j]).conversion_error(apex@) is None,
        decreases recs@.len() - i,
    {
        match recs[i].to_resource_record(apex) {
            Ok(rr) => {
                let ghost prev = records_view(out);
                out.push(rr);
                assert(records_view(out) =~= prev.push(recs@[i as int].converted(apex@)));
            },
            Err(e) => {
                assert(first_conversion_error(recs@, apex@, i as int));
                return Err(e);
            },
        }
        i += 1;
        assert(recs@.subrange(0, i as int).map_values(|x: Record| x.converted(apex@))
            =~= records_view(out));
    }
    assert(recs@.subrange(0, recs@.len() as int) =~= recs@);
    Ok(out)
}

/// The authoritative server: configuration and catalog. Sockets are bound
/// and served outside this library, which hands each query here.
#[derive(Debug)]
pub struct Server {
    catalog: Catalog,
    general_config: GeneralConfig,
}

impl Server {
    pub closed spec fn spec_catalog(&self) -> Catalog {
        self.catalog
    }

    pub closed spec fn wf(&self) -> bool {
        self.catalog.wf()
    }

    /// Builds the catalog from the configured zones. Each zone's apex must
    /// parse, each record must convert against it and fit in the zone, and no
    /// two zones may share an apex; the error is that of the first zone that
    /// fails. Each zone's store holds its converted records.
    pub fn new(config: &RunConfig) -> (r: Result<Server, ConfigError>)
        ensures
            r is Ok == config_ok(config.spec_zones()),
            r is Err ==> exists|i: int| fails_at(config.spec_zones(), i)
                && r == Err::<Server, ConfigError>(error_at(config.spec_zones(), i)),
            r is Ok ==> r.unwrap().wf()
                && r.unwrap().spec_general().addresses() == config.spec_general().addresses()
                && r.unwrap().spec_catalog().apexes().len() == config.spec_zones().len()
                && forall|i: int| 0 <= i < config.spec_zones().len() ==>
                    r.unwrap().spec_catalog().apexes()[i] == zone_apex(#[trigger] config.spec_zones()[i])
                    && r.unwrap().spec_catalog().stores()[i] == zone_store(config.spec_zones()[i]),
    {
        let mut catalog = Catalog::new();
        let zones = config.zones();
        let mut i: usize = 0;
        while i < zones.len()
            invariant
                i <= zones@.len(),
                zones@ == config.spec_zones(),
                catalog.wf(),
                catalog.apexes().len() == i,
                catalog.stores().len() == i,
                prefix_ok(zones@, i as int),
                forall|j: int| 0 <= j < i ==> catalog.apexes()[j] == zone_apex(#[trigger] zones@[j])
                    && catalog.stores()[j] == zone_store(zones@[j]),
            decreases zones@.len() - i,
        {
            let (domain, records) = &zones[i];
            let ghost z = zones@[i as int];
            assert(z.0 == *domain && z.1 == *records);
            let apex = match Name::parse(domain.as_str()) {
                Some(n) => n,
                None => {
                    assert(fails_at(zones@, i as int));
                    return Err(ConfigError::InvalidName);
                },
            };
            let mut authority = match Authority::new(&apex) {
                Ok(a) => a,
                Err(e) => {
                    assert(fails_at(zones@, i as int));
                    return Err(e);
                },
            };
            let recs = match convert_records(records, &apex) {
                Ok(v) => v,
                Err(e) => {
                    proof {
                        let k = choose|k: int| first_conversion_error(records@, apex@, k)
                            && e == records@[k].conversion_error(apex@).unwrap();
                        let c = choose|c: int| first_conversion_error(z.1@, zone_apex_raw(z), c);
                        assert(c == k) by {
                            if c < k { assert(records@[c].conversion_error(apex@) is None); }
                            if k < c { assert(z.1@[k].conversion_error(apex@) is None); }
                        }
                        assert(fails_at(zones@, i as int));
                    }
                    return Err(e);
                },
            };
            let ghost rv = records_view(recs);
            assert(rv =~= zone_records(z));
            assert(!exists|k: int| first_conversion_error(z.1@, zone_apex_raw(z), k));
            match authority.load(recs) {
                Ok(()) => {},
                Err(e) => {
                    proof {
                        let k = choose|k: int| first_misfit(rv, zone_apex(z), k)
                            && e == misfit_error(rv[k], k);
                        let c = choose|c: int| first_misfit(zone_records(z), zone_apex(z), c);
                        assert(c == k) by {
                            if c < k { assert(record_fits(rv[c], zone_apex(z))); }
                            if k < c { assert(record_fits(rv[k], zone_apex(z))); }
                        }
                        assert(fails_at(zones@, i as int));
                    }
                    return Err(e);
                },
            }
            assert(!exists|k: int| first_misfit(zone_records(z), zone_apex(z), k)) by {
                if exists|k: int| first_misfit(zone_records(z), zone_apex(z), k) {
                    let k = choose|k: int| first_misfit(zone_records(z), zone_apex(z), k);
                    assert(record_fits(rv[k], zone_apex(z)));
                }
            }
            assert(zone_error(z) is None);
            assert(authority.store() == zone_store(z));
            let ghost before = catalog.apexes();
            let ghost before_stores = catalog.stores();
            match catalog.register(authority) {
                Ok(()) => {},
                Err(e) => {
                    proof {
                        let k = choose|k: int| 0 <= k < before.len() && before[k] == zone_apex(z);
                        assert(zone_apex(zones@[k]) == zone_apex(z));
                        assert(fails_at(zones@, i as int));
                    }
                    return Err(e);
                },
            }
            assert(forall|j: int| 0 <= j < i ==> catalog.apexes()[j] == before[j] && catalog.stores()[j] == before_stores[j]);
            assert(forall|j: int| 0 <= j < i ==> zone_apex(#[trigger] zones@[j]) != zone_apex(z)) by {
                assert(forall|j: int| 0 <= j < i ==> before[j] == zone_apex(#[trigger] zones@[j]));
                assert(!before.contains(zone_apex(z)));
            }
            i += 1;
        }
        Ok(Server { catalog, general_config: config.general().duplicate() })
    }

    pub closed spec fn spec_general(&self) -> GeneralConfig {
        self.general_config
    }

    pub fn general(&self) -> (r: &GeneralConfig)
        ensures
            *r == self.spec_general(),
    {
        &self.general_config
    }

    /// The catalog, for reading.
    pub fn read_catalog(&self) -> (r: &Catalog)
        ensures
            *r == self.spec_catalog(),
    {
        &self.catalog
    }

    /// Whether a zone with this apex is served.
    pub fn contains(&self, name: &Name) -> (r: bool)
        ensures
            r == self.spec_catalog().apexes().contains(lower_name(name@)),
    {
        let r = self.catalog.contains(name);
        proof {
            if r {
                let i = choose|i: int| 0 <= i < self.catalog.apexes().len() && #[trigger] self.catalog.apexes()[i] == lower_name(name@);
                assert(self.catalog.apexes()[i] == lower_name(name@));
            }
        }
        r
    }

    /// Serves a zone, replacing the one with the same apex; the other zones
    /// stay as they were.
    pub fn upsert(&mut self, authority: Authority)
        requires
            old(self).wf(),
            authority.wf(),
        ensures
            final(self).wf(),
            ({
                let o = old(self).spec_catalog();
                let f = final(self).spec_catalog();
                &&& o.apexes().contains(authority.apex_view()) ==> exists|i: int| 0 <= i < o.apexes().len()
                    && o.apexes()[i] == authority.apex_view()
                    && f.apexes() == o.apexes()
                    && f.stores() == o.stores().update(i, authority.store())
                &&& !o.apexes().contains(authority.apex_view()) ==> f.apexes() == o.apexes().push(authority.apex_view())
                    && f.stores() == o.stores().push(authority.store())
            }),
    {
        self.catalog.upsert(authority);
    }

    /// Stops serving the zone with this apex, handing it back; the other
    /// zones stay, in order.
    pub fn remove(&mut self, name: &Name) -> (r: Option<Authority>)
        requires
            old(self).wf(),
        ensures
            final(self).wf(),
            ({
                let o = old(self).spec_catalog();
                let f = final(self).spec_catalog();
                &&& r is Some == o.apexes().contains(lower_name(name@))
                &&& r is Some ==> exists|i: int| 0 <= i < o.apexes().len()
                    && o.apexes()[i] == lower_name(name@)
                    && r.unwrap().apex_view() == lower_name(name@)
                    && r.unwrap().store() == o.stores()[i]
                    && f.apexes() == o.apexes().remove(i)
                    && f.stores() == o.stores().remove(i)
                &&& r is None ==> f.apexes() == o.apexes() && f.stores() == o.stores()
            }),
    {
        self.catalog.remove(name)
    }

    /// Answers the bytes of one query with the bytes of the response.
    pub fn lookup(&self, request: &[u8]) -> (r: Vec<u8>)
        requires
            self.wf(),
        ensures
            match decode_spec(request@) {
                None => r@ == format_error_bytes(request@),
                Some(q) => encodes(process_spec(q, self.spec_catalog().apexes(), self.spec_catalog().stores()), r@),
            },
    {
        handle(request, &self.catalog)
    }
}

} // verus!
