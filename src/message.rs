//! The query engine: decodes a query, answers it from the catalog, and
//! encodes the response within the UDP payload limit.
use vstd::prelude::*;
use crate::name::{Name, valid_name, lower_name};
use crate::record::{ResourceRecord, RecordView, records_view, MAX_RDATA_LEN};
use crate::zone::{Answer, matching, name_present};
use crate::catalog::{Catalog, authority_for};
use crate::wire::{
    u16_be, u32_be, read_u16, encode_name, parse_name_at, lemma_parse_encoded_name,
    lemma_encode_name_len, push_u16, push_u32, push_name, append_bytes, get_u16, parse_name,
};

verus! {

pub const RCODE_NOERROR: u16 = 0;
pub const RCODE_FORMERR: u16 = 1;
pub const RCODE_NXDOMAIN: u16 = 3;
pub const RCODE_REFUSED: u16 = 5;

/// Largest response sent to a query that advertises no payload size.
pub const MAX_UDP_PAYLOAD: usize = 512;

/// Payload size this server advertises in its own OPT record.
pub const EDNS_PAYLOAD: u16 = 4096;

/// Record type of the OPT pseudo-record.
pub const TYPE_OPT: u16 = 41;

/// Length of an OPT record with no options.
pub const OPT_LEN: usize = 11;

/// Length of the fixed message header.
pub const HEADER_LEN: usize = 12;

/// A decoded query: header fields and its one question.
#[derive(Debug)]
pub struct Query {
    pub id: u16,
    pub flags: u16,
    pub name: Name,
    pub qtype: u16,
    pub qclass: u16,
    /// Payload size advertised by an OPT record, where the query holds one.
    pub edns: Option<u16>,
}

pub ghost struct QueryView {
    pub id: u16,
    pub flags: u16,
    pub name: Seq<Seq<u8>>,
    pub qtype: u16,
    pub qclass: u16,
    pub edns: Option<u16>,
}

impl View for Query {
    type V = QueryView;

    open spec fn view(&self) -> QueryView {
        QueryView { id: self.id, flags: self.flags, name: self.name@, qtype: self.qtype, qclass: self.qclass, edns: self.edns }
    }
}

/// A query that cannot be decoded.
#[derive(Debug, PartialEq, Eq, Structural)]
pub struct MalformedQuery;

/// A response before encoding: the question echoed, the outcome and the answers.
#[derive(Debug)]
pub struct Response {
    pub id: u16,
    pub query_flags: u16,
    pub authoritative: bool,
    pub rcode: u16,
    pub name: Name,
    pub qtype: u16,
    pub qclass: u16,
    pub answers: Vec<ResourceRecord>,
    /// Payload size the query advertised; the response then carries an OPT record.
    pub edns: Option<u16>,
}

pub ghost struct ResponseView {
    pub id: u16,
    pub query_flags: u16,
    pub authoritative: bool,
    pub rcode: u16,
    pub name: Seq<Seq<u8>>,
    pub qtype: u16,
    pub qclass: u16,
    pub answers: Seq<RecordView>,
    pub edns: Option<u16>,
}

impl View for Response {
    type V = ResponseView;

    open spec fn view(&self) -> ResponseView {
        ResponseView {
            id: self.id,
            query_flags: self.query_flags,
            authoritative: self.authoritative,
            rcode: self.rcode,
            name: self.name@,
            qtype: self.qtype,
            qclass: self.qclass,
            answers: records_view(self.answers),
            edns: self.edns,
        }
    }
}

/// The query that the bytes hold: a header of twelve bytes with one question,
/// a valid name, then type and class.
pub open spec fn decode_spec(b: Seq<u8>) -> Option<QueryView> {
    if b.len() < HEADER_LEN || read_u16(b, 4) != 1 {
        None
    } else {
        match parse_name_at(b, HEADER_LEN as int) {
            None => None,
            Some((n, e)) => if !valid_name(n) || e + 4 > b.len() {
                None
            } else {
                Some(QueryView {
                    id: read_u16(b, 0),
                    flags: read_u16(b, 2),
                    name: n,
                    qtype: read_u16(b, e),
                    qclass: read_u16(b, e + 2),
                    edns: opt_size(b, e + 4),
                })
            },
        }
    }
}

/// The payload size of an OPT record right after the question, at `p`: the
/// query has no answer or authority record, at least one additional record,
/// and that record has the root as owner and the OPT type.
pub open spec fn opt_size(b: Seq<u8>, p: int) -> Option<u16> {
    if read_u16(b, 6) == 0 && read_u16(b, 8) == 0 && read_u16(b, 10) >= 1 && p + OPT_LEN <= b.len()
        && b[p] == 0 && read_u16(b, p + 1) == TYPE_OPT {
        Some(read_u16(b, p + 3))
    } else {
        None
    }
}

/// The size a response must keep within: 512 bytes, or the advertised size
/// where an OPT record names a larger one.
pub open spec fn payload_limit(edns: Option<u16>) -> int {
    match edns {
        Some(s) => if s > MAX_UDP_PAYLOAD { s as int } else { MAX_UDP_PAYLOAD as int },
        None => MAX_UDP_PAYLOAD as int,
    }
}

/// The OPT record of a response: root owner, the OPT type, this server's
/// payload size, no extended code or flags, no options.
pub open spec fn opt_bytes() -> Seq<u8> {
    seq![0u8] + u16_be(TYPE_OPT) + u16_be(EDNS_PAYLOAD) + u32_be(0) + u16_be(0)
}

pub open spec fn additional_bytes(edns: Option<u16>) -> Seq<u8> {
    if edns is Some { opt_bytes() } else { Seq::empty() }
}

/// Header flags of a response: the response bit, the query's opcode and
/// recursion-desired bits, then authority, truncation and the response code.
pub open spec fn response_flags(query_flags: u16, aa: bool, tc: bool, rcode: u16) -> u16 {
    (0x8000u16 | (query_flags & 0x7900u16) | (if aa { 0x0400u16 } else { 0u16 })
        | (if tc { 0x0200u16 } else { 0u16 }) | rcode) as u16
}

pub open spec fn header_bytes(id: u16, flags: u16, qd: u16, an: u16, ar: u16) -> Seq<u8> {
    u16_be(id) + u16_be(flags) + u16_be(qd) + u16_be(an) + u16_be(0) + u16_be(ar)
}

pub open spec fn question_bytes(n: Seq<Seq<u8>>, t: u16, c: u16) -> Seq<u8> {
    encode_name(n) + u16_be(t) + u16_be(c)
}

pub open spec fn rr_bytes(r: RecordView) -> Seq<u8> {
    encode_name(r.name) + u16_be(r.rtype) + u16_be(r.class) + u32_be(r.ttl)
        + u16_be(r.rdata.len() as u16) + r.rdata
}

pub open spec fn rrs_bytes(s: Seq<RecordView>) -> Seq<u8>
    decreases s.len(),
{
    if s.len() == 0 {
        Seq::empty()
    } else {
        rrs_bytes(s.drop_last()) + rr_bytes(s.last())
    }
}

/// The response with its first `k` answers, truncation flagged where some are left out.
pub open spec fn encoded(r: ResponseView, k: nat) -> Seq<u8> {
    header_bytes(r.id, response_flags(r.query_flags, r.authoritative, k < r.answers.len(), r.rcode), 1, k as u16,
        if r.edns is Some { 1 } else { 0 })
        + question_bytes(r.name, r.qtype, r.qclass) + rrs_bytes(r.answers.take(k as int)) + additional_bytes(r.edns)
}

pub open spec fn fits(r: ResponseView, k: nat) -> bool {
    encoded(r, k).len() <= payload_limit(r.edns)
}

/// `out` is the response with as many answers as fit in the payload limit
/// that the query set.
pub open spec fn encodes(r: ResponseView, out: Seq<u8>) -> bool {
    exists|k: nat| k <= r.answers.len() && fits(r, k) && (k == r.answers.len() || !fits(r, k + 1))
        && out == #[trigger] encoded(r, k)
}

pub open spec fn valid_record(r: RecordView) -> bool {
    valid_name(r.name) && r.rdata.len() <= MAX_RDATA_LEN
}

/// A response that the wire format can carry.
pub open spec fn valid_response(r: ResponseView) -> bool {
    &&& valid_name(r.name)
    &&& r.rcode < 16
    &&& forall|i: int| 0 <= i < r.answers.len() ==> valid_record(#[trigger] r.answers[i])
}

pub open spec fn reply(q: QueryView, aa: bool, rcode: u16, answers: Seq<RecordView>) -> ResponseView {
    ResponseView {
        id: q.id,
        query_flags: q.flags,
        authoritative: aa,
        rcode,
        name: q.name,
        qtype: q.qtype,
        qclass: q.qclass,
        answers,
        edns: q.edns,
    }
}

/// The response to `q`: refused where no zone covers the name; else the
/// matching records, no data where the name exists without them, or a name
/// error where it does not exist.
pub open spec fn process_spec(q: QueryView, apexes: Seq<Seq<Seq<u8>>>, stores: Seq<Seq<RecordView>>) -> ResponseView {
    let n = lower_name(q.name);
    match authority_for(apexes, n) {
        None => reply(q, false, RCODE_REFUSED, Seq::empty()),
        Some(i) => {
            let m = matching(stores[i], n, q.qtype, q.qclass);
            if m.len() > 0 {
                reply(q, true, RCODE_NOERROR, m)
            } else if name_present(stores[i], n) {
                reply(q, true, RCODE_NOERROR, Seq::empty())
            } else {
                reply(q, true, RCODE_NXDOMAIN, Seq::empty())
            }
        },
    }
}

/// The reply to bytes that hold no query: a bare header with the format
/// error code, carrying the id where the bytes hold one.
pub open spec fn format_error_bytes(b: Seq<u8>) -> Seq<u8> {
    let id: u16 = if b.len() >= 2 { read_u16(b, 0) } else { 0 };
    header_bytes(id, (0x8000u16 | RCODE_FORMERR) as u16, 0, 0, 0)
}

/// Decodes the header and question of a query.
pub fn decode_query(b: &[u8]) -> (r: Result<Query, MalformedQuery>)
    ensures
        match decode_spec(b@) {
            None => r is Err,
            Some(q) => r is Ok && r.unwrap()@ == q,
        },
{
    if b.len() < HEADER_LEN || get_u16(b, 4) != 1 {
        return Err(MalformedQuery);
    }
    match parse_name(b, HEADER_LEN) {
        None => Err(MalformedQuery),
        Some((name, e)) => {
            if !name.is_valid() || e > b.len() || b.len() - e < 4 {
                return Err(MalformedQuery);
            }
            Ok(Query {
                id: get_u16(b, 0),
                flags: get_u16(b, 2),
                name,
                qtype: get_u16(b, e),
                qclass: get_u16(b, e + 2),
                edns: read_opt(b, e + 4),
            })
        },
    }
}

fn read_opt(b: &[u8], p: usize) -> (r: Option<u16>)
    requires
        HEADER_LEN <= b@.len(),
        p <= b@.len(),
    ensures
        r == opt_size(b@, p as int),
{
    if get_u16(b, 6) == 0 && get_u16(b, 8) == 0 && get_u16(b, 10) >= 1 && b.len() - p >= OPT_LEN
        && b[p] == 0 && get_u16(b, p + 1) == TYPE_OPT {
        Some(get_u16(b, p + 3))
    } else {
        None
    }
}

/// Appends one record in wire form.
fn push_record(v: &mut Vec<u8>, r: &ResourceRecord)
    requires
        valid_record(r@),
    ensures
        final(v)@ == old(v)@ + rr_bytes(r@),
{
    push_name(v, &r.name);
    push_u16(v, r.rtype);
    push_u16(v, r.class);
    push_u32(v, r.ttl);
    push_u16(v, r.rdata.len() as u16);
    append_bytes(v, &r.rdata);
    assert(final(v)@ =~= old(v)@ + rr_bytes(r@));
}

/// Encodes a response. Answers that would take the message past the UDP
/// payload limit are left out, and the truncation flag is then set.
pub fn encode_response(r: &Response) -> (out: Vec<u8>)
    requires
        valid_response(r@),
    ensures
        encodes(r@, out@),
{
    let ghost rv = r@;
    let ghost av = rv.answers;
    let mut q: Vec<u8> = Vec::new();
    push_name(&mut q, &r.name);
    push_u16(&mut q, r.qtype);
    push_u16(&mut q, r.qclass);
    proof { lemma_encode_name_len(rv.name); }
    assert(q@ =~= question_bytes(rv.name, rv.qtype, rv.qclass));
    let limit: usize = match r.edns {
        Some(size) => if size as usize > MAX_UDP_PAYLOAD { size as usize } else { MAX_UDP_PAYLOAD },
        None => MAX_UDP_PAYLOAD,
    };
    let mut opt: Vec<u8> = Vec::new();
    if r.edns.is_some() {
        opt.push(0);
        push_u16(&mut opt, TYPE_OPT);
        push_u16(&mut opt, EDNS_PAYLOAD);
        push_u32(&mut opt, 0);
        push_u16(&mut opt, 0);
    }
    assert(opt@ =~= additional_bytes(rv.edns));
    let budget: usize = limit - HEADER_LEN - q.len() - opt.len();
    let n = r.answers.len();
    let mut ans: Vec<u8> = Vec::new();
    let mut k: usize = 0;
    let mut full = false;
    assert(av.take(0) =~= Seq::<RecordView>::empty());
    while k < n && !full
        invariant
            k <= n,
            n == av.len(),
            av == records_view(r.answers),
            valid_response(rv),
            rv == r@,
            av == rv.answers,
            ans@ == rrs_bytes(av.take(k as int)),
            ans@.len() <= budget,
            11 * k <= ans@.len(),
            full ==> k < n && rrs_bytes(av.take(k + 1)).len() > budget,
        decreases n - k, (if full { 0int } else { 1int }),
    {
        let mut one: Vec<u8> = Vec::new();
        assert(av[k as int] == r.answers[k as int]@);
        assert(valid_record(av[k as int]));
        push_record(&mut one, &r.answers[k]);
        assert(one@ == rr_bytes(av[k as int]));
        proof { lemma_encode_name_len(av[k as int].name); }
        assert(av.take(k + 1).drop_last() =~= av.take(k as int));
        assert(rrs_bytes(av.take(k + 1)) == ans@ + one@);
        if one.len() > budget - ans.len() {
            full = true;
        } else {
            append_bytes(&mut ans, &one);
            k += 1;
        }
    }
    let tc = k < n;
    let flags: u16 = 0x8000u16 | (r.query_flags & 0x7900u16) | (if r.authoritative { 0x0400u16 } else { 0u16 })
        | (if tc { 0x0200u16 } else { 0u16 }) | r.rcode;
    let mut out: Vec<u8> = Vec::new();
    push_u16(&mut out, r.id);
    push_u16(&mut out, flags);
    push_u16(&mut out, 1);
    push_u16(&mut out, k as u16);
    push_u16(&mut out, 0);
    push_u16(&mut out, if r.edns.is_some() { 1 } else { 0 });
    append_bytes(&mut out, &q);
    append_bytes(&mut out, &ans);
    append_bytes(&mut out, &opt);
    proof {
        let kk = k as nat;
        assert(out@ =~= encoded(rv, kk));
        assert(fits(rv, kk));
        if kk < av.len() {
            assert(encoded(rv, kk + 1).len() == HEADER_LEN + q@.len() + rrs_bytes(av.take((kk + 1) as int)).len() + opt@.len());
        }
    }
    out
}

/// Answers a decoded query from the catalog.
pub fn process(q: &Query, catalog: &Catalog) -> (r: Response)
    requires
        catalog.wf(),
    ensures
        r@ == process_spec(q@, catalog.apexes(), catalog.stores()),
{
    let ghost qv = q@;
    match catalog.find_authority(&q.name) {
        None => {
            let r = Response {
                id: q.id, query_flags: q.flags, authoritative: false, rcode: RCODE_REFUSED,
                name: q.name.copy(), qtype: q.qtype, qclass: q.qclass, answers: Vec::new(), edns: q.edns,
            };
            assert(r@.answers =~= Seq::<RecordView>::empty());
            r
        },
        Some(i) => {
            let (rcode, answers) = match catalog.answer_from(i, &q.name, q.qtype, q.qclass) {
                Answer::Answered(v) => (RCODE_NOERROR, v),
                Answer::NoData => {
                    let v: Vec<ResourceRecord> = Vec::new();
                    assert(records_view(v) =~= Seq::<RecordView>::empty());
                    (RCODE_NOERROR, v)
                },
                Answer::NameError => {
                    let v: Vec<ResourceRecord> = Vec::new();
                    assert(records_view(v) =~= Seq::<RecordView>::empty());
                    (RCODE_NXDOMAIN, v)
                },
            };
            let r = Response {
                id: q.id, query_flags: q.flags, authoritative: true, rcode,
                name: q.name.copy(), qtype: q.qtype, qclass: q.qclass, answers, edns: q.edns,
            };
            r
        },
    }
}

/// Every record that `matching` picks is one of the store's.
proof fn lemma_matching_valid(s: Seq<RecordView>, n: Seq<Seq<u8>>, t: u16, c: u16)
    requires
        forall|j: int| 0 <= j < s.len() ==> valid_record(#[trigger] s[j]),
    ensures
        forall|j: int| 0 <= j < matching(s, n, t, c).len() ==> valid_record(#[trigger] matching(s, n, t, c)[j]),
    decreases s.len(),
{
    if s.len() > 0 {
        let d = s.drop_last();
        assert(forall|j: int| 0 <= j < d.len() ==> #[trigger] d[j] == s[j]);
        lemma_matching_valid(d, n, t, c);
        assert(valid_record(s[s.len() - 1]));
        let rest = matching(d, n, t, c);
        if crate::zone::record_matches(s.last(), n, t, c) {
            assert(matching(s, n, t, c) == rest.push(s.last()));
            assert forall|j: int| 0 <= j < rest.len() + 1 implies valid_record(#[trigger] rest.push(s.last())[j]) by {
                if j < rest.len() {
                    assert(rest.push(s.last())[j] == rest[j]);
                }
            }
        }
    }
}

/// The response that `process_spec` gives from a well-formed catalog is one
/// the wire format can carry.
proof fn lemma_process_valid(q: QueryView, catalog: &Catalog)
    requires
        catalog.wf(),
        valid_name(q.name),
    ensures
        valid_response(process_spec(q, catalog.apexes(), catalog.stores())),
{
    let n = lower_name(q.name);
    match authority_for(catalog.apexes(), n) {
        None => {},
        Some(i) => {
            catalog.lemma_stores_valid(i);
            let s = catalog.stores()[i];
            assert(forall|j: int| 0 <= j < s.len() ==> valid_record(#[trigger] s[j]));
            lemma_matching_valid(s, n, q.qtype, q.qclass);
        },
    }
}

/// Answers the bytes of one query with the bytes of its response: a format
/// error where they hold no query.
pub fn handle(b: &[u8], catalog: &Catalog) -> (out: Vec<u8>)
    requires
        catalog.wf(),
    ensures
        match decode_spec(b@) {
            None => out@ == format_error_bytes(b@),
            Some(q) => encodes(process_spec(q, catalog.apexes(), catalog.stores()), out@),
        },
{
    match decode_query(b) {
        Ok(q) => {
            let r = process(&q, catalog);
            proof { lemma_process_valid(q@, catalog); }
            encode_response(&r)
        },
        Err(_) => {
            let id: u16 = if b.len() >= 2 { get_u16(b, 0) } else { 0 };
            let mut out: Vec<u8> = Vec::new();
            push_u16(&mut out, id);
            push_u16(&mut out, 0x8000u16 | RCODE_FORMERR);
            push_u16(&mut out, 0);
            push_u16(&mut out, 0);
            push_u16(&mut out, 0);
            push_u16(&mut out, 0);
            assert(out@ =~= format_error_bytes(b@));
            out
        },
    }
}

proof fn lemma_read_u16_at(b: Seq<u8>, p: int, x: u16)
    requires
        0 <= p,
        p + 2 <= b.len(),
        b[p] == u16_be(x)[0],
        b[p + 1] == u16_be(x)[1],
    ensures
        read_u16(b, p) == x,
{
}

/// Decoding an encoded response gives back its transaction id and its
/// question, whatever number of answers it holds.
#[verifier::rlimit(100)]
pub proof fn lemma_response_round_trip(r: ResponseView, out: Seq<u8>)
    requires
        valid_response(r),
        encodes(r, out),
    ensures
        decode_spec(out) is Some,
        decode_spec(out).unwrap().id == r.id,
        decode_spec(out).unwrap().name == r.name,
        decode_spec(out).unwrap().qtype == r.qtype,
        decode_spec(out).unwrap().qclass == r.qclass,
{
    let k = choose|k: nat| k <= r.answers.len() && fits(r, k) && (k == r.answers.len() || !fits(r, k + 1))
        && out == #[trigger] encoded(r, k);
    let flags = response_flags(r.query_flags, r.authoritative, k < r.answers.len(), r.rcode);
    let h = header_bytes(r.id, flags, 1, k as u16, if r.edns is Some { 1 } else { 0 });
    let tail = u16_be(r.qtype) + u16_be(r.qclass) + rrs_bytes(r.answers.take(k as int)) + additional_bytes(r.edns);
    assert(out =~= h + encode_name(r.name) + tail);
    lemma_parse_encoded_name(h, r.name, tail);
    lemma_encode_name_len(r.name);
    let e: int = 12 + encode_name(r.name).len() as int;
    assert(out.len() >= e + 4);
    lemma_read_u16_at(out, 0, r.id);
    lemma_read_u16_at(out, 4, 1);
    lemma_read_u16_at(out, e, r.qtype);
    lemma_read_u16_at(out, e + 2, r.qclass);
}

/// A name that no registered zone covers is refused, with no answer.
pub proof fn lemma_uncovered_name_refused(q: QueryView, apexes: Seq<Seq<Seq<u8>>>, stores: Seq<Seq<RecordView>>)
    requires
        forall|j: int| 0 <= j < apexes.len() ==> !crate::name::is_at_or_below(lower_name(q.name), #[trigger] apexes[j]),
    ensures
        process_spec(q, apexes, stores).rcode == RCODE_REFUSED,
        process_spec(q, apexes, stores).answers.len() == 0,
{
    crate::catalog::lemma_uncovered_name_has_no_authority(apexes, lower_name(q.name));
}

/// A name that the zone holds, with no record of the asked type and class,
/// gets no error and no answer.
pub proof fn lemma_no_data(q: QueryView, apexes: Seq<Seq<Seq<u8>>>, stores: Seq<Seq<RecordView>>, i: int)
    requires
        authority_for(apexes, lower_name(q.name)) == Some(i),
        name_present(stores[i], lower_name(q.name)),
        forall|j: int| 0 <= j < stores[i].len() ==> !crate::zone::record_matches(#[trigger] stores[i][j], lower_name(q.name), q.qtype, q.qclass),
    ensures
        process_spec(q, apexes, stores).rcode == RCODE_NOERROR,
        process_spec(q, apexes, stores).answers.len() == 0,
{
    lemma_matching_empty(stores[i], lower_name(q.name), q.qtype, q.qclass);
}

/// A name that the zone does not hold, nor any name below it, is a name error.
pub proof fn lemma_absent_name(q: QueryView, apexes: Seq<Seq<Seq<u8>>>, stores: Seq<Seq<RecordView>>, i: int)
    requires
        authority_for(apexes, lower_name(q.name)) == Some(i),
        forall|j: int| 0 <= j < stores[i].len() ==> !crate::name::is_at_or_below(#[trigger] stores[i][j].name, lower_name(q.name)),
    ensures
        process_spec(q, apexes, stores).rcode == RCODE_NXDOMAIN,
        process_spec(q, apexes, stores).answers.len() == 0,
{
    let s = stores[i];
    let n = lower_name(q.name);
    assert forall|j: int| 0 <= j < s.len() implies !crate::zone::record_matches(#[trigger] s[j], n, q.qtype, q.qclass) by {
        if s[j].name == n {
            assert(s[j].name.subrange(0, s[j].name.len() as int) =~= s[j].name);
            assert(crate::name::is_at_or_below(s[j].name, n));
        }
    }
    lemma_matching_empty(s, n, q.qtype, q.qclass);
}

proof fn lemma_matching_empty(s: Seq<RecordView>, n: Seq<Seq<u8>>, t: u16, c: u16)
    requires
        forall|j: int| 0 <= j < s.len() ==> !crate::zone::record_matches(#[trigger] s[j], n, t, c),
    ensures
        matching(s, n, t, c).len() == 0,
    decreases s.len(),
{
    if s.len() > 0 {
        let d = s.drop_last();
        assert(forall|j: int| 0 <= j < d.len() ==> #[trigger] d[j] == s[j]);
        lemma_matching_empty(d, n, t, c);
        assert(!crate::zone::record_matches(s[s.len() - 1], n, t, c));
    }
}

} // verus!
