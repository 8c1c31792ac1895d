//! Resource records as the engine stores and sends them.
use vstd::prelude::*;
use crate::name::{Name, copy_label};

verus! {

/// Type code of an IPv4 address record.
pub const TYPE_A: u16 = 1;
/// Type code of a name server record.
pub const TYPE_NS: u16 = 2;
/// Type code of a canonical name record.
pub const TYPE_CNAME: u16 = 5;
/// Type code of a mail exchange record.
pub const TYPE_MX: u16 = 15;
/// Type code of a text record.
pub const TYPE_TXT: u16 = 16;
/// Type code of an IPv6 address record.
pub const TYPE_AAAA: u16 = 28;
/// The Internet class.
pub const CLASS_IN: u16 = 1;

/// Longest payload a record may carry: its length travels in two bytes.
pub const MAX_RDATA_LEN: usize = 65535;

/// One resource record: owner, type, class, time to live and payload.
#[derive(Debug)]
pub struct ResourceRecord {
    pub name: Name,
    pub rtype: u16,
    pub class: u16,
    pub ttl: u32,
    pub rdata: Vec<u8>,
}

pub ghost struct RecordView {
    pub name: Seq<Seq<u8>>,
    pub rtype: u16,
    pub class: u16,
    pub ttl: u32,
    pub rdata: Seq<u8>,
}

impl View for ResourceRecord {
    type V = RecordView;

    open spec fn view(&self) -> RecordView {
        RecordView {
            name: self.name@,
            rtype: self.rtype,
            class: self.class,
            ttl: self.ttl,
            rdata: self.rdata@,
        }
    }
}

pub open spec fn records_view(v: Vec<ResourceRecord>) -> Seq<RecordView> {
    v@.map_values(|r: ResourceRecord| r@)
}

impl ResourceRecord {
    /// An address record for `name` pointing at the four bytes of `addr`.
    pub fn new_a(name: Name, ttl: u32, addr: [u8; 4]) -> (r: ResourceRecord)
        ensures
            r@ == (RecordView {
                name: name@,
                rtype: TYPE_A,
                class: CLASS_IN,
                ttl,
                rdata: seq![addr[0], addr[1], addr[2], addr[3]],
            }),
    {
        let rdata: Vec<u8> = vec![addr[0], addr[1], addr[2], addr[3]];
        let r = ResourceRecord { name, rtype: TYPE_A, class: CLASS_IN, ttl, rdata };
        assert(r@.rdata =~= seq![addr[0], addr[1], addr[2], addr[3]]);
        r
    }

    pub fn copy(&self) -> (r: ResourceRecord)
        ensures
            r@ == self@,
    {
        ResourceRecord {
            name: self.name.copy(),
            rtype: self.rtype,
            class: self.class,
            ttl: self.ttl,
            rdata: copy_label(&self.rdata),
        }
    }
}

} // verus!
