//! Domain names as sequences of labels, most specific label first.
use vstd::prelude::*;

verus! {

/// Longest label a DNS name may hold.
pub const MAX_LABEL_LEN: usize = 63;

/// Longest wire encoding of a DNS name, length bytes and root byte included.
pub const MAX_NAME_WIRE_LEN: usize = 255;

/// A domain name: `www.et.internal` is the labels `www`, `et`, `internal`.
#[derive(Debug)]
pub struct Name {
    pub labels: Vec<Vec<u8>>,
}

pub open spec fn labels_view(labels: Vec<Vec<u8>>) -> Seq<Seq<u8>> {
    labels@.map_values(|l: Vec<u8>| l@)
}

impl View for Name {
    type V = Seq<Seq<u8>>;

    open spec fn view(&self) -> Seq<Seq<u8>> {
        labels_view(self.labels)
    }
}

/// `n` is `apex` or a name below it: `apex` is a suffix of `n`'s labels.
pub open spec fn is_at_or_below(n: Seq<Seq<u8>>, apex: Seq<Seq<u8>>) -> bool {
    apex.len() <= n.len() && n.subrange(n.len() - apex.len(), n.len() as int) =~= apex
}

pub open spec fn lower_byte(b: u8) -> u8 {
    if 65 <= b && b <= 90 {
        (b + 32) as u8
    } else {
        b
    }
}

pub open spec fn lower_label(l: Seq<u8>) -> Seq<u8> {
    l.map_values(|b: u8| lower_byte(b))
}

/// The canonical form of a name: every ASCII letter in lower case.
pub open spec fn lower_name(n: Seq<Seq<u8>>) -> Seq<Seq<u8>> {
    n.map_values(|l: Seq<u8>| lower_label(l))
}

/// Bytes the name takes on the wire: a length byte per label, the label, a root byte.
pub open spec fn wire_len(n: Seq<Seq<u8>>) -> nat
    decreases n.len(),
{
    if n.len() == 0 {
        1
    } else {
        1 + n[0].len() + wire_len(n.drop_first())
    }
}

/// Labels of one to sixty-three bytes, and at most 255 bytes on the wire.
pub open spec fn valid_name(n: Seq<Seq<u8>>) -> bool {
    &&& forall|i: int| 0 <= i < n.len() ==> 1 <= #[trigger] n[i].len() <= MAX_LABEL_LEN
    &&& wire_len(n) <= MAX_NAME_WIRE_LEN
}

/// Name that hickory_proto's parser makes of a text, or none where it refuses it.
pub uninterp spec fn name_labels_of(s: Seq<char>) -> Option<Seq<Seq<u8>>>;

/// Relies on hickory_proto's `Name::from_str`: the labels of the parsed name, in order.
#[verifier::external_body]
fn parse_labels(s: &str) -> (r: Option<Vec<Vec<u8>>>)
    ensures
        r.is_some() == name_labels_of(s@).is_some(),
        r.is_some() ==> labels_view(r.unwrap()) == name_labels_of(s@).unwrap(),
{
    match <hickory_proto::rr::Name as std::str::FromStr>::from_str(s) {
        Ok(n) => Some(n.iter().map(|l| l.to_vec()).collect()),
        Err(_) => None,
    }
}

pub fn copy_label(l: &Vec<u8>) -> (r: Vec<u8>)
    ensures
        r@ == l@,
{
    let mut r: Vec<u8> = Vec::new();
    let mut i: usize = 0;
    while i < l.len()
        invariant
            i <= l.len(),
            r@ == l@.subrange(0, i as int),
        decreases l.len() - i,
    {
        r.push(l[i]);
        i += 1;
        assert(r@ =~= l@.subrange(0, i as int));
    }
    assert(r@ =~= l@);
    r
}

pub fn lowercase_label(l: &Vec<u8>) -> (r: Vec<u8>)
    ensures
        r@ == lower_label(l@),
{
    let mut r: Vec<u8> = Vec::new();
    let mut i: usize = 0;
    while i < l.len()
        invariant
            i <= l.len(),
            r@ =~= lower_label(l@.subrange(0, i as int)),
        decreases l.len() - i,
    {
        let b = l[i];
        let lb: u8 = if 65 <= b && b <= 90 { b + 32 } else { b };
        r.push(lb);
        i += 1;
        assert(r@ =~= lower_label(l@.subrange(0, i as int)));
    }
    assert(l@.subrange(0, l@.len() as int) =~= l@);
    r
}

impl Name {
    /// The root name, with no label.
    pub fn root() -> (r: Name)
        ensures
            r@ == Seq::<Seq<u8>>::empty(),
    {
        let r = Name { labels: Vec::new() };
        assert(r@ =~= Seq::<Seq<u8>>::empty());
        r
    }

    pub fn from_labels(labels: Vec<Vec<u8>>) -> (r: Name)
        ensures
            r@ == labels_view(labels),
    {
        Name { labels }
    }

    /// Parses a textual name, as `www.et.internal`.
    pub fn parse(s: &str) -> (r: Option<Name>)
        ensures
            r.is_some() == name_labels_of(s@).is_some(),
            r.is_some() ==> r.unwrap()@ == name_labels_of(s@).unwrap(),
    {
        match parse_labels(s) {
            Some(labels) => Some(Name { labels }),
            None => None,
        }
    }

    pub fn len(&self) -> (r: usize)
        ensures
            r == self@.len(),
    {
        self.labels.len()
    }

    pub fn copy(&self) -> (r: Name)
        ensures
            r@ == self@,
    {
        let mut labels: Vec<Vec<u8>> = Vec::new();
        let mut i: usize = 0;
        while i < self.labels.len()
            invariant
                i <= self.labels.len(),
                labels_view(labels) =~= self@.subrange(0, i as int),
            decreases self.labels.len() - i,
        {
            let ghost prev = labels_view(labels);
            let l = copy_label(&self.labels[i]);
            labels.push(l);
            assert(labels_view(labels) =~= prev.push(self@[i as int]));
            i += 1;
            assert(labels_view(labels) =~= self@.subrange(0, i as int));
        }
        assert(self@.subrange(0, self@.len() as int) =~= self@);
        Name { labels }
    }

    /// This name followed by the labels of `suffix`.
    pub fn concat(&self, suffix: &Name) -> (r: Name)
        ensures
            r@ == self@ + suffix@,
    {
        let mut r = self.copy();
        let mut i: usize = 0;
        while i < suffix.labels.len()
            invariant
                i <= suffix.labels.len(),
                r@ =~= self@ + suffix@.subrange(0, i as int),
            decreases suffix.labels.len() - i,
        {
            let ghost prev = r@;
            let l = copy_label(&suffix.labels[i]);
            r.labels.push(l);
            assert(r@ =~= prev.push(suffix@[i as int]));
            i += 1;
        }
        assert(suffix@.subrange(0, suffix@.len() as int) =~= suffix@);
        r
    }

    /// The same name with every ASCII letter in lower case.
    pub fn to_lowercase(&self) -> (r: Name)
        ensures
            r@ == lower_name(self@),
    {
        let mut labels: Vec<Vec<u8>> = Vec::new();
        let mut i: usize = 0;
        while i < self.labels.len()
            invariant
                i <= self.labels.len(),
                labels_view(labels) =~= lower_name(self@.subrange(0, i as int)),
            decreases self.labels.len() - i,
        {
            let ghost prev = labels_view(labels);
            let l = lowercase_label(&self.labels[i]);
            labels.push(l);
            assert(labels_view(labels) =~= prev.push(lower_label(self@[i as int])));
            i += 1;
            assert(labels_view(labels) =~= lower_name(self@.subrange(0, i as int)));
        }
        assert(self@.subrange(0, self@.len() as int) =~= self@);
        Name { labels }
    }

    /// Whether the two names have the same labels, byte for byte.
    pub fn equals(&self, other: &Name) -> (r: bool)
        ensures
            r == (self@ == other@),
    {
        assert(self@.len() == self.labels@.len() && other@.len() == other.labels@.len());
        if self.labels.len() != other.labels.len() {
            return false;
        }
        let mut i: usize = 0;
        while i < self.labels.len()
            invariant
                i <= self.labels.len(),
                self.labels.len() == other.labels.len(),
                forall|j: int| 0 <= j < i ==> self@[j] == other@[j],
            decreases self.labels.len() - i,
        {
            if !label_equals(&self.labels[i], &other.labels[i]) {
                assert(self@[i as int] != other@[i as int]);
                return false;
            }
            i += 1;
        }
        assert(self@ =~= other@);
        true
    }

    /// Whether this name is `apex` or lies below it.
    pub fn is_at_or_below(&self, apex: &Name) -> (r: bool)
        ensures
            r == is_at_or_below(self@, apex@),
    {
        let n = self.labels.len();
        let a = apex.labels.len();
        if a > n {
            return false;
        }
        let off = n - a;
        let mut i: usize = 0;
        while i < a
            invariant
                i <= a,
                a <= n,
                off == n - a,
                n == self@.len(),
                a == apex@.len(),
                forall|j: int| 0 <= j < i ==> self@[off + j] == apex@[j],
            decreases a - i,
        {
            if !label_equals(&self.labels[off + i], &apex.labels[i]) {
                assert(self@.subrange(off as int, n as int)[i as int] != apex@[i as int]);
                return false;
            }
            i += 1;
        }
        assert(self@.subrange(off as int, n as int) =~= apex@);
        true
    }

    /// Whether the name meets the wire format's limits on labels and length.
    pub fn is_valid(&self) -> (r: bool)
        ensures
            r == valid_name(self@),
    {
        let mut i: usize = self.labels.len();
        let mut total: usize = 1;
        proof {
            assert(self@.subrange(i as int, self@.len() as int) =~= Seq::<Seq<u8>>::empty());
        }
        while i > 0
            invariant
                i <= self.labels.len(),
                total <= MAX_NAME_WIRE_LEN,
                total == wire_len(self@.subrange(i as int, self@.len() as int)),
                forall|j: int| i <= j < self@.len() ==> 1 <= #[trigger] self@[j].len() <= MAX_LABEL_LEN,
            decreases i,
        {
            i -= 1;
            let l = self.labels[i].len();
            let ghost tail = self@.subrange(i as int, self@.len() as int);
            assert(tail.drop_first() =~= self@.subrange(i + 1, self@.len() as int));
            if l == 0 || l > MAX_LABEL_LEN {
                assert(self@[i as int].len() == l);
                return false;
            }
            if total + 1 + l > MAX_NAME_WIRE_LEN {
                proof { lemma_wire_len_suffix(self@, i as int); }
                return false;
            }
            total = total + 1 + l;
        }
        assert(self@.subrange(0, self@.len() as int) =~= self@);
        true
    }
}

/// A name's wire length is at least that of any of its suffixes.
proof fn lemma_wire_len_suffix(n: Seq<Seq<u8>>, i: int)
    requires
        0 <= i <= n.len(),
    ensures
        wire_len(n) >= wire_len(n.subrange(i, n.len() as int)),
    decreases i,
{
    if i > 0 {
        assert(n.drop_first().subrange(i - 1, n.drop_first().len() as int) =~= n.subrange(i, n.len() as int));
        lemma_wire_len_suffix(n.drop_first(), i - 1);
    } else {
        assert(n.subrange(0, n.len() as int) =~= n);
    }
}

pub fn label_equals(a: &Vec<u8>, b: &Vec<u8>) -> (r: bool)
    ensures
        r == (a@ == b@),
{
    if a.len() != b.len() {
        return false;
    }
    let mut i: usize = 0;
    while i < a.len()
        invariant
            i <= a.len(),
            a.len() == b.len(),
            forall|j: int| 0 <= j < i ==> a@[j] == b@[j],
        decreases a.len() - i,
    {
        if a[i] != b[i] {
            return false;
        }
        i += 1;
    }
    assert(a@ =~= b@);
    true
}

} // verus!
