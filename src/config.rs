//! The server's configuration: where to listen and what each zone holds.
use vstd::prelude::*;
use crate::name::{Name, name_labels_of, is_at_or_below, lower_name};
use crate::record::{ResourceRecord, RecordView, TYPE_A, TYPE_AAAA, TYPE_CNAME, TYPE_MX, TYPE_NS, TYPE_TXT, CLASS_IN};
use crate::zone::ConfigError;

verus! {

/// Addresses to listen on, each optional, as `127.0.0.1:5353`.
#[derive(Debug, Clone)]
pub struct GeneralConfig {
    listen_tcp: Option<String>,
    listen_udp: Option<String>,
}

impl GeneralConfig {
    pub closed spec fn tcp(&self) -> Option<String> {
        self.listen_tcp
    }

    pub closed spec fn udp(&self) -> Option<String> {
        self.listen_udp
    }

    pub fn new(listen_tcp: Option<String>, listen_udp: Option<String>) -> (r: GeneralConfig)
        ensures
            r.tcp() == listen_tcp,
            r.udp() == listen_udp,
    {
        GeneralConfig { listen_tcp, listen_udp }
    }

    /// The addresses as text.
    pub open spec fn addresses(&self) -> (Option<Seq<char>>, Option<Seq<char>>) {
        (opt_view(self.tcp()), opt_view(self.udp()))
    }

    /// A copy holding the same addresses.
    pub fn duplicate(&self) -> (r: GeneralConfig)
        ensures
            r.addresses() == self.addresses(),
    {
        GeneralConfig { listen_tcp: copy_opt(&self.listen_tcp), listen_udp: copy_opt(&self.listen_udp) }
    }

    pub fn listen_tcp(&self) -> (r: &Option<String>)
        ensures
            *r == self.tcp(),
    {
        &self.listen_tcp
    }

    pub fn listen_udp(&self) -> (r: &Option<String>)
        ensures
            *r == self.udp(),
    {
        &self.listen_udp
    }
}

pub open spec fn opt_view(o: Option<String>) -> Option<Seq<char>> {
    match o {
        Some(s) => Some(s@),
        None => None,
    }
}

fn copy_opt(o: &Option<String>) -> (r: Option<String>)
    ensures
        opt_view(r) == opt_view(*o),
{
    match o {
        Some(s) => Some(s.clone()),
        None => None,
    }
}

/// Record types that a configuration may name.
#[derive(Debug, Clone, Copy, PartialEq, Eq, Structural)]
pub enum RecordType {
    A,
    AAAA,
    CNAME,
    MX,
    NS,
    TXT,
}

pub open spec fn type_code(t: RecordType) -> u16 {
    match t {
        RecordType::A => TYPE_A,
        RecordType::AAAA => TYPE_AAAA,
        RecordType::CNAME => TYPE_CNAME,
        RecordType::MX => TYPE_MX,
        RecordType::NS => TYPE_NS,
        RecordType::TXT => TYPE_TXT,
    }
}

impl RecordType {
    /// The type's code on the wire.
    pub fn code(&self) -> (r: u16)
        ensures
            r == type_code(*self),
    {
        match self {
            RecordType::A => TYPE_A,
            RecordType::AAAA => TYPE_AAAA,
            RecordType::CNAME => TYPE_CNAME,
            RecordType::MX => TYPE_MX,
            RecordType::NS => TYPE_NS,
            RecordType::TXT => TYPE_TXT,
        }
    }
}

/// The decimal digits of an octet, with no leading zero.
pub open spec fn decimal(b: u8) -> Seq<char> {
    if b < 10 {
        seq![digit(b as int)]
    } else if b < 100 {
        seq![digit(b as int / 10), digit(b as int % 10)]
    } else {
        seq![digit(b as int / 100), digit((b as int / 10) % 10), digit(b as int % 10)]
    }
}

pub open spec fn digit(d: int) -> char {
    if d == 0 { '0' } else if d == 1 { '1' } else if d == 2 { '2' } else if d == 3 { '3' }
    else if d == 4 { '4' } else if d == 5 { '5' } else if d == 6 { '6' } else if d == 7 { '7' }
    else if d == 8 { '8' } else { '9' }
}

/// The dotted-quad text of an IPv4 address, as `123.123.123.123`.
pub open spec fn dotted_quad(a: Seq<u8>) -> Seq<char> {
    decimal(a[0]) + seq!['.'] + decimal(a[1]) + seq!['.'] + decimal(a[2]) + seq!['.'] + decimal(a[3])
}

fn digit_char(d: u8) -> (c: char)
    requires
        d < 10,
    ensures
        c == digit(d as int),
{
    match d {
        0 => '0',
        1 => '1',
        2 => '2',
        3 => '3',
        4 => '4',
        5 => '5',
        6 => '6',
        7 => '7',
        8 => '8',
        _ => '9',
    }
}

/// The decimal text of an octet.
fn render_octet(b: u8) -> (r: Vec<char>)
    ensures
        r@ == decimal(b),
{
    let mut r: Vec<char> = Vec::new();
    if b < 10 {
        r.push(digit_char(b));
    } else if b < 100 {
        r.push(digit_char(b / 10));
        r.push(digit_char(b % 10));
    } else {
        r.push(digit_char(b / 100));
        r.push(digit_char((b / 10) % 10));
        r.push(digit_char(b % 10));
    }
    assert(r@ =~= decimal(b));
    r
}

pub open spec fn digit_value(c: char) -> int {
    if c == '0' { 0 } else if c == '1' { 1 } else if c == '2' { 2 } else if c == '3' { 3 }
    else if c == '4' { 4 } else if c == '5' { 5 } else if c == '6' { 6 } else if c == '7' { 7 }
    else if c == '8' { 8 } else { 9 }
}

pub open spec fn is_digit(c: char) -> bool {
    '0' <= c && c <= '9'
}

/// The value of a run of decimal digits.
pub open spec fn digits_value(p: Seq<char>) -> int
    decreases p.len(),
{
    if p.len() == 0 {
        0
    } else {
        digits_value(p.drop_last()) * 10 + digit_value(p.last())
    }
}

proof fn lemma_digit(x: int)
    requires
        0 <= x < 10,
    ensures
        digit_value(digit(x)) == x,
        is_digit(digit(x)),
{
    if x == 0 {} else if x == 1 {} else if x == 2 {} else if x == 3 {} else if x == 4 {}
    else if x == 5 {} else if x == 6 {} else if x == 7 {} else if x == 8 {} else {}
}

proof fn lemma_decimal_digits(b: u8)
    ensures
        1 <= decimal(b).len() <= 3,
        forall|i: int| 0 <= i < decimal(b).len() ==> is_digit(#[trigger] decimal(b)[i]),
        digits_value(decimal(b)) == b,
{
    let d = decimal(b);
    let x = b as int;
    lemma_digit(x % 10);
    lemma_digit((x / 10) % 10);
    if b < 10 {
        assert(d =~= seq![digit(x)]);
        assert(d.drop_last().len() == 0);
        assert(digits_value(d.drop_last()) == 0);
        assert(d.last() == digit(x));
        assert(x % 10 == x);
        assert(digits_value(d) == x);
    } else if b < 100 {
        lemma_digit(x / 10);
        let d1 = d.drop_last();
        assert(d1 =~= seq![digit(x / 10)]);
        assert(d1.drop_last().len() == 0);
        assert(digits_value(d1.drop_last()) == 0);
        assert(d1.last() == digit(x / 10));
        assert(digits_value(d1) == x / 10);
        assert(digits_value(d) == (x / 10) * 10 + x % 10);
    } else {
        lemma_digit(x / 100);
        let d1 = d.drop_last();
        let d2 = d1.drop_last();
        assert(d1 =~= seq![digit(x / 100), digit((x / 10) % 10)]);
        assert(d2 =~= seq![digit(x / 100)]);
        assert(d2.drop_last().len() == 0);
        assert(digits_value(d2.drop_last()) == 0);
        assert(d2.last() == digit(x / 100));
        assert(digits_value(d2) == x / 100);
        assert(digits_value(d1) == (x / 100) * 10 + (x / 10) % 10);
        assert(digits_value(d) == ((x / 100) * 10 + (x / 10) % 10) * 10 + x % 10);
    }
    assert(forall|i: int| 0 <= i < d.len() ==> is_digit(#[trigger] d[i]));
}

/// The text of `b` stands at `from`, followed by a dot or the end.
pub open spec fn octet_at(s: Seq<char>, from: int, b: u8) -> bool {
    let e = from + decimal(b).len();
    e <= s.len() && s.subrange(from, e) == decimal(b) && (e == s.len() || s[e] == '.')
}

/// The octet whose text starts at `from`: up to three digits, which must be
/// the octet's own decimal form, and the position after them.
fn read_octet(s: &Vec<char>, from: usize) -> (r: Option<(u8, usize)>)
    requires
        from <= s@.len(),
    ensures
        r is Some ==> from < r.unwrap().1 <= s@.len() && decimal(r.unwrap().0) == s@.subrange(from as int, r.unwrap().1 as int),
        forall|b: u8| #[trigger] octet_at(s@, from as int, b)
            ==> r == Some((b, (from + decimal(b).len()) as usize)),
{
    let mut v: u32 = 0;
    let mut i: usize = from;
    while i < s.len() && i - from < 3 && '0' <= s[i] && s[i] <= '9'
        invariant
            from <= i <= s@.len(),
            i - from <= 3,
            v as int == digits_value(s@.subrange(from as int, i as int)),
            forall|j: int| from <= j < i ==> is_digit(#[trigger] s@[j]),
            v < if i - from == 0 { 1u32 } else if i - from == 1 { 10u32 } else if i - from == 2 { 100u32 } else { 1000u32 },
        decreases s@.len() - i,
    {
        let c = s[i];
        let d: u32 = if c == '0' { 0 } else if c == '1' { 1 } else if c == '2' { 2 } else if c == '3' { 3 }
            else if c == '4' { 4 } else if c == '5' { 5 } else if c == '6' { 6 } else if c == '7' { 7 }
            else if c == '8' { 8 } else { 9 };
        assert(s@.subrange(from as int, i + 1).drop_last() =~= s@.subrange(from as int, i as int));
        v = v * 10 + d;
        i += 1;
    }
    let ghost part = s@.subrange(from as int, i as int);
    proof {
        assert forall|b: u8| #[trigger] octet_at(s@, from as int, b)
            implies decimal(b) == part && v == b && i == from + decimal(b).len() by {
            lemma_decimal_digits(b);
            let e = from + decimal(b).len();
            let d = decimal(b);
            assert forall|j: int| from <= j < e implies is_digit(#[trigger] s@[j]) by {
                assert(s@[j] == d[j - from]);
            }
            assert(i == e) by {
                if i < e {
                    assert(is_digit(s@[i as int]));
                } else if i > e {
                    assert(is_digit(s@[e]));
                }
            }
            assert(part == d);
        }
    }
    if i == from || v > 255 {
        return None;
    }
    let text = render_octet(v as u8);
    if text.len() != i - from {
        return None;
    }
    let mut j: usize = 0;
    while j < text.len()
        invariant
            j <= text@.len(),
            text@.len() == i - from,
            i <= s@.len(),
            text@ == decimal(v as u8),
            v <= 255,
            part == s@.subrange(from as int, i as int),
            forall|b: u8| #[trigger] octet_at(s@, from as int, b) ==> decimal(b) == part && v == b,
            forall|k: int| 0 <= k < j ==> text@[k] == s@[from + k],
        decreases text@.len() - j,
    {
        if text[j] != s[from + j] {
            assert(text@[j as int] != part[j as int]);
            return None;
        }
        j += 1;
    }
    assert(text@ =~= part);
    Some((v as u8, i))
}

/// Reads a dotted-quad IPv4 address: four octets in their decimal form
/// without leading zeros, joined by dots. Fails on any other text.
#[verifier::rlimit(40)]
pub fn parse_ipv4(text: &String) -> (r: Option<[u8; 4]>)
    ensures
        r is Some ==> dotted_quad(r.unwrap()@) == text@,
        (exists|a: Seq<u8>| a.len() == 4 && #[trigger] dotted_quad(a) == text@) ==> r is Some,
{
    let mut s: Vec<char> = Vec::new();
    let mut it: usize = 0;
    let chars = text.as_str();
    let n = chars.unicode_len();
    while it < n
        invariant
            it <= n,
            n == text@.len(),
            chars@ == text@,
            s@ == text@.subrange(0, it as int),
        decreases n - it,
    {
        s.push(chars.get_char(it));
        it += 1;
        assert(s@ =~= text@.subrange(0, it as int));
    }
    assert(s@ =~= text@);
    let ghost sv = s@;
    let ghost ga: Option<Seq<u8>> = if exists|a: Seq<u8>| a.len() == 4 && #[trigger] dotted_quad(a) == text@ {
        Some(choose|a: Seq<u8>| a.len() == 4 && #[trigger] dotted_quad(a) == text@)
    } else {
        None
    };
    let ghost a = ga.unwrap();
    let ghost g0 = decimal(a[0]).len() as int;
    let ghost g1 = g0 + 1 + decimal(a[1]).len();
    let ghost g2 = g1 + 1 + decimal(a[2]).len();
    proof {
        if ga is Some {
            assert(sv.subrange(0, g0) =~= decimal(a[0]));
            assert(sv[g0] == '.');
            assert(sv.subrange(g0 + 1, g1) =~= decimal(a[1]));
            assert(sv[g1] == '.');
            assert(sv.subrange(g1 + 1, g2) =~= decimal(a[2]));
            assert(sv[g2] == '.');
            assert(sv.subrange(g2 + 1, sv.len() as int) =~= decimal(a[3]));
            assert(sv.len() == g2 + 1 + decimal(a[3]).len());
        }
    }
    assert(ga is Some ==> octet_at(sv, 0, a[0]) && octet_at(sv, g0 + 1, a[1]) && octet_at(sv, g1 + 1, a[2])
        && octet_at(sv, g2 + 1, a[3]) && sv[g0] == '.' && sv[g1] == '.' && sv[g2] == '.'
        && g2 + 1 + decimal(a[3]).len() == sv.len());
    let (b0, e0) = match read_octet(&s, 0) {
        Some(x) => x,
        None => return None,
    };
    if e0 >= s.len() || s[e0] != '.' {
        return None;
    }
    let (b1, e1) = match read_octet(&s, e0 + 1) {
        Some(x) => x,
        None => return None,
    };
    if e1 >= s.len() || s[e1] != '.' {
        return None;
    }
    let (b2, e2) = match read_octet(&s, e1 + 1) {
        Some(x) => x,
        None => return None,
    };
    if e2 >= s.len() || s[e2] != '.' {
        return None;
    }
    let (b3, e3) = match read_octet(&s, e2 + 1) {
        Some(x) => x,
        None => return None,
    };
    if e3 != s.len() {
        return None;
    }
    let a: [u8; 4] = [b0, b1, b2, b3];
    assert(a@[0] == b0 && a@[1] == b1 && a@[2] == b2 && a@[3] == b3);
    assert(sv =~= sv.subrange(0, e0 as int) + seq!['.'] + sv.subrange(e0 + 1, e1 as int) + seq!['.']
        + sv.subrange(e1 + 1, e2 as int) + seq!['.'] + sv.subrange(e2 + 1, sv.len() as int));
    assert(dotted_quad(a@) == s@);
    Some(a)
}

/// One configured record, its owner written as a domain name.
#[derive(Debug, Clone)]
pub struct Record {
    rr_type: RecordType,
    name: String,
    value: String,
    ttl_secs: u64,
}

impl Record {
    pub closed spec fn spec_rr_type(&self) -> RecordType {
        self.rr_type
    }

    pub closed spec fn spec_name(&self) -> Seq<char> {
        self.name@
    }

    pub closed spec fn spec_value(&self) -> Seq<char> {
        self.value@
    }

    pub closed spec fn spec_ttl_secs(&self) -> u64 {
        self.ttl_secs
    }

    pub fn new(rr_type: RecordType, name: String, value: String, ttl_secs: u64) -> (r: Record)
        ensures
            r.spec_rr_type() == rr_type,
            r.spec_name() == name@,
            r.spec_value() == value@,
            r.spec_ttl_secs() == ttl_secs,
    {
        Record { rr_type, name, value, ttl_secs }
    }

    pub fn rr_type(&self) -> (r: RecordType)
        ensures
            r == self.spec_rr_type(),
    {
        self.rr_type
    }

    pub fn name(&self) -> (r: &String)
        ensures
            r@ == self.spec_name(),
    {
        &self.name
    }

    pub fn value(&self) -> (r: &String)
        ensures
            r@ == self.spec_value(),
    {
        &self.value
    }

    /// Time to live, in seconds.
    pub fn ttl_secs(&self) -> (r: u64)
        ensures
            r == self.spec_ttl_secs(),
    {
        self.ttl_secs
    }

    /// Why conversion fails, in the order the checks run: an owner that
    /// does not parse, a type other than an address, then a value that is no
    /// dotted quad or a time to live beyond thirty-two bits.
    pub open spec fn conversion_error(&self, apex: Seq<Seq<u8>>) -> Option<ConfigError> {
        if owner_of(self.spec_name(), apex) is None {
            Some(ConfigError::InvalidName)
        } else if self.spec_rr_type() != RecordType::A {
            Some(ConfigError::UnsupportedType)
        } else if ipv4_of(self.spec_value()) is None || self.spec_ttl_secs() > 0xFFFF_FFFF {
            Some(ConfigError::InvalidValue)
        } else {
            None
        }
    }

    /// The record that conversion gives: the owner resolved against the
    /// apex, an address record in the Internet class.
    pub open spec fn converted(&self, apex: Seq<Seq<u8>>) -> RecordView {
        RecordView {
            name: owner_of(self.spec_name(), apex).unwrap(),
            rtype: TYPE_A,
            class: CLASS_IN,
            ttl: self.spec_ttl_secs() as u32,
            rdata: ipv4_of(self.spec_value()).unwrap(),
        }
    }

    /// The resource record this entry describes in a zone with this apex.
    /// Only address records are loaded.
    pub fn to_resource_record(&self, apex: &Name) -> (r: Result<ResourceRecord, ConfigError>)
        ensures
            match self.conversion_error(apex@) {
                Some(e) => r == Err::<ResourceRecord, ConfigError>(e),
                None => r is Ok && r.unwrap()@ == self.converted(apex@),
            },
    {
        let owner = match resolve_owner(self.name.as_str(), apex) {
            Some(n) => n,
            None => return Err(ConfigError::InvalidName),
        };
        match self.rr_type {
            RecordType::A => {},
            _ => return Err(ConfigError::UnsupportedType),
        }
        let addr = match parse_ipv4(&self.value) {
            Some(a) => a,
            None => return Err(ConfigError::InvalidValue),
        };
        if self.ttl_secs > 0xFFFF_FFFF {
            return Err(ConfigError::InvalidValue);
        }
        proof {
            let c = choose|c: Seq<u8>| c.len() == 4 && #[trigger] dotted_quad(c) == self.value@;
            lemma_dotted_quad_injective(c, addr@);
        }
        let r = ResourceRecord::new_a(owner, self.ttl_secs as u32, addr);
        assert(r@.rdata =~= addr@);
        Ok(r)
    }
}

/// The address whose dotted-quad text is `s`, if any.
pub open spec fn ipv4_of(s: Seq<char>) -> Option<Seq<u8>> {
    if exists|a: Seq<u8>| a.len() == 4 && #[trigger] dotted_quad(a) == s {
        Some(choose|a: Seq<u8>| a.len() == 4 && #[trigger] dotted_quad(a) == s)
    } else {
        None
    }
}

/// The owner that a configured name stands for in a zone with this apex:
/// `@` is the apex; a name with a final dot, or one already at or below the
/// apex, stands as written; any other name is relative to the apex.
pub open spec fn owner_of(name: Seq<char>, apex: Seq<Seq<u8>>) -> Option<Seq<Seq<u8>>> {
    if name == seq!['@'] {
        Some(apex)
    } else {
        match name_labels_of(name) {
            None => None,
            Some(n) => if (name.len() > 0 && name.last() == '.') || is_at_or_below(lower_name(n), lower_name(apex)) {
                Some(n)
            } else {
                Some(n + apex)
            },
        }
    }
}

fn resolve_owner(text: &str, apex: &Name) -> (r: Option<Name>)
    ensures
        match owner_of(text@, apex@) {
            None => r is None,
            Some(n) => r is Some && r.unwrap()@ == n,
        },
{
    let len = text.unicode_len();
    if len == 1 && text.get_char(0) == '@' {
        assert(text@ =~= seq!['@']);
        return Some(apex.copy());
    }
    assert(text@ != seq!['@']);
    let n = match Name::parse(text) {
        Some(n) => n,
        None => return None,
    };
    let absolute = len > 0 && text.get_char(len - 1) == '.';
    if absolute || n.to_lowercase().is_at_or_below(&apex.to_lowercase()) {
        Some(n)
    } else {
        Some(n.concat(apex))
    }
}

/// Text in which a decimal octet is followed by nothing or by a dot tells
/// the octet and what follows.
proof fn lemma_decimal_split(x: u8, y: u8, t: Seq<char>, u: Seq<char>)
    requires
        decimal(x) + t == decimal(y) + u,
        t.len() == 0 || t[0] == '.',
        u.len() == 0 || u[0] == '.',
    ensures
        x == y,
        t == u,
{
    lemma_decimal_digits(x);
    lemma_decimal_digits(y);
    let dx = decimal(x);
    let dy = decimal(y);
    let s = dx + t;
    if dx.len() < dy.len() {
        assert(s[dx.len() as int] == dy[dx.len() as int]);
        assert(is_digit(dy[dx.len() as int]));
        assert(s[dx.len() as int] == t[0]);
    } else if dx.len() > dy.len() {
        assert(s[dy.len() as int] == dx[dy.len() as int]);
        assert(is_digit(dx[dy.len() as int]));
        assert(s[dy.len() as int] == u[0]);
    }
    assert(dx =~= s.subrange(0, dx.len() as int));
    assert(dy =~= s.subrange(0, dx.len() as int));
    assert(t =~= s.subrange(dx.len() as int, s.len() as int));
    assert(u =~= s.subrange(dx.len() as int, s.len() as int));
}

pub open spec fn dot_then(x: Seq<char>) -> Seq<char> {
    seq!['.'] + x
}

proof fn lemma_drop_dot(x: Seq<char>)
    ensures
        dot_then(x).drop_first() == x,
        dot_then(x)[0] == '.',
{
    assert(dot_then(x).drop_first() =~= x);
}

proof fn lemma_dotted_quad_shape(a: Seq<u8>)
    ensures
        dotted_quad(a) == decimal(a[0]) + dot_then(decimal(a[1]) + dot_then(decimal(a[2]) + dot_then(decimal(a[3]) + Seq::<char>::empty()))),
{
    assert(dotted_quad(a) =~= decimal(a[0]) + dot_then(decimal(a[1]) + dot_then(decimal(a[2]) + dot_then(decimal(a[3]) + Seq::<char>::empty()))));
}

/// Two addresses with the same dotted-quad text are the same.
pub proof fn lemma_dotted_quad_injective(a: Seq<u8>, b: Seq<u8>)
    requires
        a.len() == 4,
        b.len() == 4,
        dotted_quad(a) == dotted_quad(b),
    ensures
        a == b,
{
    let e = Seq::<char>::empty();
    let ta3 = decimal(a[3]) + e;
    let tb3 = decimal(b[3]) + e;
    let ta2 = decimal(a[2]) + dot_then(ta3);
    let tb2 = decimal(b[2]) + dot_then(tb3);
    let ta1 = decimal(a[1]) + dot_then(ta2);
    let tb1 = decimal(b[1]) + dot_then(tb2);
    lemma_dotted_quad_shape(a);
    lemma_dotted_quad_shape(b);
    lemma_drop_dot(ta1);
    lemma_drop_dot(tb1);
    lemma_decimal_split(a[0], b[0], dot_then(ta1), dot_then(tb1));
    lemma_drop_dot(ta2);
    lemma_drop_dot(tb2);
    lemma_decimal_split(a[1], b[1], dot_then(ta2), dot_then(tb2));
    lemma_drop_dot(ta3);
    lemma_drop_dot(tb3);
    lemma_decimal_split(a[2], b[2], dot_then(ta3), dot_then(tb3));
    lemma_decimal_split(a[3], b[3], e, e);
    assert(a =~= b);
}

} // verus!
