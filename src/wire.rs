//! Big-endian integers and names in the DNS wire format.
use vstd::prelude::*;
use crate::name::{Name, labels_view, valid_name, wire_len, MAX_LABEL_LEN};

verus! {

pub open spec fn u16_be(x: u16) -> Seq<u8> {
    seq![(x / 256) as u8, (x % 256) as u8]
}

pub open spec fn u32_be(x: u32) -> Seq<u8> {
    seq![(x / 16777216) as u8, ((x / 65536) % 256) as u8, ((x / 256) % 256) as u8, (x % 256) as u8]
}

pub open spec fn read_u16(b: Seq<u8>, p: int) -> u16 {
    (b[p] as int * 256 + b[p + 1] as int) as u16
}

/// A name on the wire: each label after its length byte, then a zero byte.
pub open spec fn encode_name(n: Seq<Seq<u8>>) -> Seq<u8>
    decreases n.len(),
{
    if n.len() == 0 {
        seq![0u8]
    } else {
        seq![n[0].len() as u8] + n[0] + encode_name(n.drop_first())
    }
}

/// The name that starts at `p`, and the position after it; none where the
/// bytes run out or a length byte exceeds sixty-three (compression pointers
/// included).
pub open spec fn parse_name_at(b: Seq<u8>, p: int) -> Option<(Seq<Seq<u8>>, int)>
    decreases b.len() - p,
{
    if p < 0 || p >= b.len() {
        None
    } else if b[p] == 0 {
        Some((Seq::empty(), p + 1))
    } else if b[p] > MAX_LABEL_LEN || p + 1 + b[p] > b.len() {
        None
    } else {
        match parse_name_at(b, p + 1 + b[p]) {
            None => None,
            Some((rest, e)) => Some((seq![b.subrange(p + 1, p + 1 + b[p])] + rest, e)),
        }
    }
}

pub open spec fn prepend(pre: Seq<Seq<u8>>, x: Option<(Seq<Seq<u8>>, int)>) -> Option<(Seq<Seq<u8>>, int)> {
    match x {
        None => None,
        Some((rest, e)) => Some((pre + rest, e)),
    }
}

pub proof fn lemma_u16_round_trip(x: u16)
    ensures
        read_u16(u16_be(x), 0) == x,
{
}

pub proof fn lemma_encode_name_len(n: Seq<Seq<u8>>)
    ensures
        encode_name(n).len() == wire_len(n),
    decreases n.len(),
{
    if n.len() > 0 {
        lemma_encode_name_len(n.drop_first());
    }
}

/// Parsing an encoded name gives the name back, whatever stands around it.
pub proof fn lemma_parse_encoded_name(pre: Seq<u8>, n: Seq<Seq<u8>>, suf: Seq<u8>)
    requires
        forall|i: int| 0 <= i < n.len() ==> 1 <= #[trigger] n[i].len() <= MAX_LABEL_LEN,
    ensures
        parse_name_at(pre + encode_name(n) + suf, pre.len() as int)
            == Some((n, (pre.len() + encode_name(n).len()) as int)),
    decreases n.len(),
{
    let b = pre + encode_name(n) + suf;
    let p = pre.len() as int;
    if n.len() == 0 {
        assert(b[p] == 0);
        assert(n =~= Seq::<Seq<u8>>::empty());
    } else {
        let l = n[0].len();
        let rest = n.drop_first();
        assert(forall|i: int| 0 <= i < rest.len() ==> #[trigger] rest[i] == n[i + 1]);
        let pre2 = pre + seq![l as u8] + n[0];
        assert(b =~= pre2 + encode_name(rest) + suf);
        lemma_parse_encoded_name(pre2, rest, suf);
        assert(b[p] == l as u8);
        assert(b.subrange(p + 1, p + 1 + l) =~= n[0]);
        assert(seq![n[0]] + rest =~= n);
    }
}

/// Appends the big-endian bytes of `x`.
pub fn push_u16(v: &mut Vec<u8>, x: u16)
    ensures
        final(v)@ == old(v)@ + u16_be(x),
{
    v.push((x / 256) as u8);
    v.push((x % 256) as u8);
    assert(final(v)@ =~= old(v)@ + u16_be(x));
}

/// Appends the big-endian bytes of `x`.
pub fn push_u32(v: &mut Vec<u8>, x: u32)
    ensures
        final(v)@ == old(v)@ + u32_be(x),
{
    v.push((x / 16777216) as u8);
    v.push(((x / 65536) % 256) as u8);
    v.push(((x / 256) % 256) as u8);
    v.push((x % 256) as u8);
    assert(final(v)@ =~= old(v)@ + u32_be(x));
}

/// Appends every byte of `w`.
pub fn append_bytes(v: &mut Vec<u8>, w: &Vec<u8>)
    ensures
        final(v)@ == old(v)@ + w@,
{
    let mut i: usize = 0;
    while i < w.len()
        invariant
            i <= w.len(),
            v@ == old(v)@ + w@.subrange(0, i as int),
        decreases w.len() - i,
    {
        v.push(w[i]);
        i += 1;
        assert(v@ =~= old(v)@ + w@.subrange(0, i as int));
    }
    assert(w@.subrange(0, w@.len() as int) =~= w@);
}

/// Appends the wire form of a name.
pub fn push_name(v: &mut Vec<u8>, n: &Name)
    requires
        valid_name(n@),
    ensures
        final(v)@ == old(v)@ + encode_name(n@),
{
    let mut i: usize = n.labels.len();
    let mut tail: Vec<u8> = vec![0u8];
    proof {
        assert(n@.subrange(i as int, n@.len() as int) =~= Seq::<Seq<u8>>::empty());
        assert(tail@ =~= encode_name(Seq::<Seq<u8>>::empty()));
    }
    while i > 0
        invariant
            i <= n.labels.len(),
            n@.len() == n.labels.len(),
            valid_name(n@),
            tail@ == encode_name(n@.subrange(i as int, n@.len() as int)),
        decreases i,
    {
        i -= 1;
        let l = &n.labels[i];
        assert(l@ == n@[i as int]);
        let mut t: Vec<u8> = Vec::new();
        t.push(l.len() as u8);
        append_bytes(&mut t, l);
        append_bytes(&mut t, &tail);
        let ghost s = n@.subrange(i as int, n@.len() as int);
        assert(s.drop_first() =~= n@.subrange(i + 1, n@.len() as int));
        assert(t@ =~= encode_name(s));
        tail = t;
    }
    assert(n@.subrange(0, n@.len() as int) =~= n@);
    append_bytes(v, &tail);
}

/// The bytes `b[from..to]`.
pub fn copy_range(b: &[u8], from: usize, to: usize) -> (r: Vec<u8>)
    requires
        from <= to <= b@.len(),
    ensures
        r@ == b@.subrange(from as int, to as int),
{
    let mut r: Vec<u8> = Vec::new();
    let mut i: usize = from;
    while i < to
        invariant
            from <= i <= to,
            to <= b@.len(),
            r@ == b@.subrange(from as int, i as int),
        decreases to - i,
    {
        r.push(b[i]);
        i += 1;
        assert(r@ =~= b@.subrange(from as int, i as int));
    }
    r
}

/// Reads a big-endian integer at `p`.
pub fn get_u16(b: &[u8], p: usize) -> (r: u16)
    requires
        p + 2 <= b@.len(),
    ensures
        r == read_u16(b@, p as int),
{
    (b[p] as u16) * 256 + b[p + 1] as u16
}

/// Reads the name that starts at `start`.
pub fn parse_name(b: &[u8], start: usize) -> (r: Option<(Name, usize)>)
    ensures
        match parse_name_at(b@, start as int) {
            None => r is None,
            Some((n, e)) => r is Some && r.unwrap().0@ == n && r.unwrap().1 == e,
        },
{
    let mut p: usize = start;
    let mut labels: Vec<Vec<u8>> = Vec::new();
    proof {
        match parse_name_at(b@, start as int) {
            None => {},
            Some((n, e)) => { assert(Seq::<Seq<u8>>::empty() + n =~= n); },
        }
    }
    assert(labels_view(labels) =~= Seq::<Seq<u8>>::empty());
    assert(prepend(Seq::empty(), parse_name_at(b@, start as int)) == parse_name_at(b@, start as int));
    while p < b.len()
        invariant
            start <= p,
            parse_name_at(b@, start as int) == prepend(labels_view(labels), parse_name_at(b@, p as int)),
        decreases b.len() - p,
    {
        let l = b[p] as usize;
        if l == 0 {
            let n = Name { labels };
            assert(n@ + Seq::<Seq<u8>>::empty() =~= n@);
            return Some((n, p + 1));
        }
        if l > MAX_LABEL_LEN || l > b.len() - p - 1 {
            return None;
        }
        let lab = copy_range(b, p + 1, p + 1 + l);
        let ghost prev = labels_view(labels);
        labels.push(lab);
        assert(labels_view(labels) =~= prev.push(lab@));
        proof {
            match parse_name_at(b@, p + 1 + l) {
                None => {},
                Some((rest, e)) => {
                    assert(prev + (seq![lab@] + rest) =~= prev.push(lab@) + rest);
                },
            }
        }
        p = p + 1 + l;
    }
    None
}

} // verus!
