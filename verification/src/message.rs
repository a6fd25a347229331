//! The DNS message structure above the header: questions and resource
//! records, as far as the tunnel needs them.

use vstd::prelude::*;
use crate::domain::Domain;
use crate::header::Header;

verus! {

#[derive(PartialEq, Eq, Structural, Clone, Copy, Debug)]
pub enum RecordType {
    A,
    Ns,
    Cname,
    Soa,
    Ptr,
    Mx,
    Txt,
    Aaaa,
    Unknown(u16),
}

#[derive(PartialEq, Eq, Structural, Clone, Copy, Debug)]
pub enum RecordClass {
    In,
    Unknown(u16),
}

/// One question section entry.
#[derive(Debug, PartialEq)]
pub struct Question {
    pub domain: Domain,
    pub record_type: RecordType,
    pub record_class: RecordClass,
}

/// The owner name, type, class and TTL of a resource record.
#[derive(Debug, PartialEq)]
pub struct RecordHeader {
    pub domain: Domain,
    pub record_type: RecordType,
    pub record_class: RecordClass,
    pub ttl: u32,
}

/// A resource record with an opaque body.
#[derive(Debug, PartialEq)]
pub struct Record {
    pub header: RecordHeader,
    pub body: Vec<u8>,
}

/// A DNS message: header plus its four sections.
#[derive(Debug, PartialEq)]
pub struct Message {
    pub header: Header,
    pub questions: Vec<Question>,
    pub answers: Vec<Record>,
    pub authorities: Vec<Record>,
    pub additional: Vec<Record>,
}

impl Message {
    /// Every question's domain is a well-formed domain name.
    pub open spec fn wf(&self) -> bool {
        forall|i: int| 0 <= i < self.questions@.len() ==> (#[trigger] self.questions@[i]).domain.wf()
    }
}

} // verus!
