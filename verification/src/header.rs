//! The DNS message header: flag bits, opcode, response code and section
//! counts, with their 12-byte wire encoding.

use vstd::prelude::*;

verus! {

#[derive(PartialEq, Eq, Structural, Clone, Copy, Debug)]
pub enum Opcode {
    Query,
    IQuery,
    Status,
    Notify,
    Update,
    Unknown(u8),
}

#[derive(PartialEq, Eq, Structural, Clone, Copy, Debug)]
pub enum ResponseCode {
    NoError,
    FormatError,
    ServerFailure,
    NXDomain,
    NotImplemented,
    Refused,
    YXDomain,
    YXRRSet,
    NXRRSet,
    NotAuth,
    NotZone,
    Unknown(u8),
}

impl Opcode {
    pub open spec fn spec_encode(self) -> int {
        match self {
            Opcode::Query => 0,
            Opcode::IQuery => 1,
            Opcode::Status => 2,
            Opcode::Notify => 4,
            Opcode::Update => 5,
            Opcode::Unknown(x) => x as int,
        }
    }

    pub open spec fn spec_decode(v: int) -> Opcode {
        if v == 0 {
            Opcode::Query
        } else if v == 1 {
            Opcode::IQuery
        } else if v == 2 {
            Opcode::Status
        } else if v == 4 {
            Opcode::Notify
        } else if v == 5 {
            Opcode::Update
        } else {
            Opcode::Unknown(v as u8)
        }
    }

    /// An opcode survives a decode/encode round trip exactly when its
    /// `Unknown` value is none of the named codes and fits the 4-bit field.
    pub open spec fn canonical(self) -> bool {
        match self {
            Opcode::Unknown(x) => x < 16 && x != 0 && x != 1 && x != 2 && x != 4 && x != 5,
            _ => true,
        }
    }

    pub fn encode(&self) -> (r: usize)
        ensures
            r == self.spec_encode(),
    {
        match *self {
            Opcode::Query => 0,
            Opcode::IQuery => 1,
            Opcode::Status => 2,
            Opcode::Notify => 4,
            Opcode::Update => 5,
            Opcode::Unknown(x) => x as usize,
        }
    }

    pub fn decode(value: usize) -> (r: Opcode)
        requires
            value < 256,
        ensures
            r == Opcode::spec_decode(value as int),
    {
        match value {
            0 => Opcode::Query,
            1 => Opcode::IQuery,
            2 => Opcode::Status,
            4 => Opcode::Notify,
            5 => Opcode::Update,
            _ => Opcode::Unknown(value as u8),
        }
    }
}

impl ResponseCode {
    pub open spec fn spec_encode(self) -> int {
        match self {
            ResponseCode::NoError => 0,
            ResponseCode::FormatError => 1,
            ResponseCode::ServerFailure => 2,
            ResponseCode::NXDomain => 3,
            ResponseCode::NotImplemented => 4,
            ResponseCode::Refused => 5,
            ResponseCode::YXDomain => 6,
            ResponseCode::YXRRSet => 7,
            ResponseCode::NXRRSet => 8,
            ResponseCode::NotAuth => 9,
            ResponseCode::NotZone => 10,
            ResponseCode::Unknown(x) => x as int,
        }
    }

    pub open spec fn spec_decode(v: int) -> ResponseCode {
        if v == 0 {
            ResponseCode::NoError
        } else if v == 1 {
            ResponseCode::FormatError
        } else if v == 2 {
            ResponseCode::ServerFailure
        } else if v == 3 {
            ResponseCode::NXDomain
        } else if v == 4 {
            ResponseCode::NotImplemented
        } else if v == 5 {
            ResponseCode::Refused
        } else if v == 6 {
            ResponseCode::YXDomain
        } else if v == 7 {
            ResponseCode::YXRRSet
        } else if v == 8 {
            ResponseCode::NXRRSet
        } else if v == 9 {
            ResponseCode::NotAuth
        } else if v == 10 {
            ResponseCode::NotZone
        } else {
            ResponseCode::Unknown(v as u8)
        }
    }

    /// A response code survives a decode/encode round trip exactly when its
    /// `Unknown` value is above the named codes and fits the 4-bit field.
    pub open spec fn canonical(self) -> bool {
        match self {
            ResponseCode::Unknown(x) => 10 < x < 16,
            _ => true,
        }
    }

    pub fn encode(&self) -> (r: usize)
        ensures
            r == self.spec_encode(),
    {
        match *self {
            ResponseCode::NoError => 0,
            ResponseCode::FormatError => 1,
            ResponseCode::ServerFailure => 2,
            ResponseCode::NXDomain => 3,
            ResponseCode::NotImplemented => 4,
            ResponseCode::Refused => 5,
            ResponseCode::YXDomain => 6,
            ResponseCode::YXRRSet => 7,
            ResponseCode::NXRRSet => 8,
            ResponseCode::NotAuth => 9,
            ResponseCode::NotZone => 10,
            ResponseCode::Unknown(x) => x as usize,
        }
    }

    pub fn decode(value: usize) -> (r: ResponseCode)
        requires
            value < 256,
        ensures
            r == ResponseCode::spec_decode(value as int),
    {
        match value {
            0 => ResponseCode::NoError,
            1 => ResponseCode::FormatError,
            2 => ResponseCode::ServerFailure,
            3 => ResponseCode::NXDomain,
            4 => ResponseCode::NotImplemented,
            5 => ResponseCode::Refused,
            6 => ResponseCode::YXDomain,
            7 => ResponseCode::YXRRSet,
            8 => ResponseCode::NXRRSet,
            9 => ResponseCode::NotAuth,
            10 => ResponseCode::NotZone,
            _ => ResponseCode::Unknown(value as u8),
        }
    }
}

/// A DNS message header.
#[derive(PartialEq, Eq, Structural, Clone, Copy, Debug)]
pub struct Header {
    pub identifier: u16,
    pub is_response: bool,
    pub opcode: Opcode,
    pub authoritative: bool,
    pub truncated: bool,
    pub recursion_desired: bool,
    pub recursion_available: bool,
    pub response_code: ResponseCode,
    pub question_count: u16,
    pub answer_count: u16,
    pub authority_count: u16,
    pub additional_count: u16,
}

/// The 16-bit flag word: response bit, 4-bit opcode, four flag bits, three
/// zero bits, 4-bit response code. Codes above 4 bits are truncated to the
/// field.
pub open spec fn spec_flags_word(h: Header) -> u16 {
    (((if h.is_response {
        1u16
    } else {
        0u16
    }) << 15) | (((h.opcode.spec_encode() as u16) & 0xf) << 11) | ((if h.authoritative {
        1u16
    } else {
        0u16
    }) << 10) | ((if h.truncated {
        1u16
    } else {
        0u16
    }) << 9) | ((if h.recursion_desired {
        1u16
    } else {
        0u16
    }) << 8) | ((if h.recursion_available {
        1u16
    } else {
        0u16
    }) << 7) | ((h.response_code.spec_encode() as u16) & 0xf)) as u16
}

pub open spec fn spec_u16_bytes(v: u16) -> Seq<u8> {
    seq![(v >> 8) as u8, v as u8]
}

/// The 12-byte wire form of a header.
pub open spec fn spec_header_bytes(h: Header) -> Seq<u8> {
    spec_u16_bytes(h.identifier) + spec_u16_bytes(spec_flags_word(h)) + spec_u16_bytes(
        h.question_count,
    ) + spec_u16_bytes(h.answer_count) + spec_u16_bytes(h.authority_count) + spec_u16_bytes(
        h.additional_count,
    )
}

/// The header read from a 12-byte wire form.
pub open spec fn spec_header_of_bytes(b: Seq<u8>) -> Header {
    let flags = ((b[2] as u16) << 8) | (b[3] as u16);
    Header {
        identifier: (((b[0] as u16) << 8) | (b[1] as u16)) as u16,
        is_response: (flags >> 15) & 1 == 1,
        opcode: Opcode::spec_decode((((flags >> 11) & 0xf) as int)),
        authoritative: (flags >> 10) & 1 == 1,
        truncated: (flags >> 9) & 1 == 1,
        recursion_desired: (flags >> 8) & 1 == 1,
        recursion_available: (flags >> 7) & 1 == 1,
        response_code: ResponseCode::spec_decode(((flags & 0xf) as int)),
        question_count: (((b[4] as u16) << 8) | (b[5] as u16)) as u16,
        answer_count: (((b[6] as u16) << 8) | (b[7] as u16)) as u16,
        authority_count: (((b[8] as u16) << 8) | (b[9] as u16)) as u16,
        additional_count: (((b[10] as u16) << 8) | (b[11] as u16)) as u16,
    }
}

impl Header {
    /// Encode the header into its 12-byte wire form.
    pub fn dns_encode(&self) -> (r: Vec<u8>)
        ensures
            r@ == spec_header_bytes(*self),
    {
        let mut out: Vec<u8> = Vec::new();
        push_u16(&mut out, self.identifier);
        let op = (self.opcode.encode() as u16) & 0xf;
        let rc = (self.response_code.encode() as u16) & 0xf;
        let flags: u16 = ((if self.is_response {
            1u16
        } else {
            0u16
        }) << 15) | (op << 11) | ((if self.authoritative {
            1u16
        } else {
            0u16
        }) << 10) | ((if self.truncated {
            1u16
        } else {
            0u16
        }) << 9) | ((if self.recursion_desired {
            1u16
        } else {
            0u16
        }) << 8) | ((if self.recursion_available {
            1u16
        } else {
            0u16
        }) << 7) | rc;
        push_u16(&mut out, flags);
        push_u16(&mut out, self.question_count);
        push_u16(&mut out, self.answer_count);
        push_u16(&mut out, self.authority_count);
        push_u16(&mut out, self.additional_count);
        proof {
            assert(((self.opcode.spec_encode() as u16) & 0xf) == op);
            assert(out@ =~= spec_header_bytes(*self));
        }
        out
    }

    /// Decode a header from exactly 12 bytes of wire form.
    pub fn dns_decode(bytes: &[u8]) -> (r: Result<Header, String>)
        ensures
            bytes@.len() == 12 ==> r == Ok::<Header, String>(spec_header_of_bytes(bytes@)),
            bytes@.len() != 12 ==> r is Err,
    {
        if bytes.len() != 12 {
            return Err("header must be 12 bytes".to_owned());
        }
        let flags: u16 = ((bytes[2] as u16) << 8) | (bytes[3] as u16);
        let opv: u16 = (flags >> 11) & 0xf;
        let rcv: u16 = flags & 0xf;
        assert(opv < 256 && rcv < 256) by (bit_vector)
            requires
                opv == (flags >> 11) & 0xf,
                rcv == flags & 0xf,
        ;
        Ok(Header {
            identifier: ((bytes[0] as u16) << 8) | (bytes[1] as u16),
            is_response: (flags >> 15) & 1 == 1,
            opcode: Opcode::decode(opv as usize),
            authoritative: (flags >> 10) & 1 == 1,
            truncated: (flags >> 9) & 1 == 1,
            recursion_desired: (flags >> 8) & 1 == 1,
            recursion_available: (flags >> 7) & 1 == 1,
            response_code: ResponseCode::decode(rcv as usize),
            question_count: ((bytes[4] as u16) << 8) | (bytes[5] as u16),
            answer_count: ((bytes[6] as u16) << 8) | (bytes[7] as u16),
            authority_count: ((bytes[8] as u16) << 8) | (bytes[9] as u16),
            additional_count: ((bytes[10] as u16) << 8) | (bytes[11] as u16),
        })
    }
}

pub(crate) fn push_u16(out: &mut Vec<u8>, v: u16)
    ensures
        final(out)@ == old(out)@ + spec_u16_bytes(v),
{
    out.push((v >> 8) as u8);
    out.push(v as u8);
    assert(final(out)@ =~= old(out)@ + spec_u16_bytes(v));
}

/// A header whose opcode and response code are canonical is reproduced
/// exactly by decoding its wire form.
pub proof fn lemma_header_roundtrip(h: Header)
    requires
        h.opcode.canonical(),
        h.response_code.canonical(),
    ensures
        spec_header_of_bytes(spec_header_bytes(h)) == h,
{
    let b = spec_header_bytes(h);
    let ir: u16 = if h.is_response {
        1
    } else {
        0
    };
    let a: u16 = if h.authoritative {
        1
    } else {
        0
    };
    let t: u16 = if h.truncated {
        1
    } else {
        0
    };
    let rd: u16 = if h.recursion_desired {
        1
    } else {
        0
    };
    let ra: u16 = if h.recursion_available {
        1
    } else {
        0
    };
    let op: u16 = (h.opcode.spec_encode() as u16) & 0xf;
    let rc: u16 = (h.response_code.spec_encode() as u16) & 0xf;
    let flags: u16 = (ir << 15) | (op << 11) | (a << 10) | (t << 9) | (rd << 8) | (ra << 7) | rc;
    assert(forall|x: u16| #[trigger] (x & 0xf) <= 0xf) by (bit_vector);
    assert(op <= 0xf && rc <= 0xf);
    assert(b[2] == (flags >> 8) as u8 && b[3] == flags as u8);
    assert((((flags >> 8) as u8 as u16) << 8) | (flags as u8 as u16) == flags) by (bit_vector);
    assert((flags >> 15) & 1 == ir) by (bit_vector)
        requires
            flags == (ir << 15) | (op << 11) | (a << 10) | (t << 9) | (rd << 8) | (ra << 7) | rc,
            ir <= 1 && a <= 1 && t <= 1 && rd <= 1 && ra <= 1 && op <= 0xf && rc <= 0xf,
    ;
    assert((flags >> 11) & 0xf == op) by (bit_vector)
        requires
            flags == (ir << 15) | (op << 11) | (a << 10) | (t << 9) | (rd << 8) | (ra << 7) | rc,
            ir <= 1 && a <= 1 && t <= 1 && rd <= 1 && ra <= 1 && op <= 0xf && rc <= 0xf,
    ;
    assert((flags >> 10) & 1 == a) by (bit_vector)
        requires
            flags == (ir << 15) | (op << 11) | (a << 10) | (t << 9) | (rd << 8) | (ra << 7) | rc,
            ir <= 1 && a <= 1 && t <= 1 && rd <= 1 && ra <= 1 && op <= 0xf && rc <= 0xf,
    ;
    assert((flags >> 9) & 1 == t) by (bit_vector)
        requires
            flags == (ir << 15) | (op << 11) | (a << 10) | (t << 9) | (rd << 8) | (ra << 7) | rc,
            ir <= 1 && a <= 1 && t <= 1 && rd <= 1 && ra <= 1 && op <= 0xf && rc <= 0xf,
    ;
    assert((flags >> 8) & 1 == rd) by (bit_vector)
        requires
            flags == (ir << 15) | (op << 11) | (a << 10) | (t << 9) | (rd << 8) | (ra << 7) | rc,
            ir <= 1 && a <= 1 && t <= 1 && rd <= 1 && ra <= 1 && op <= 0xf && rc <= 0xf,
    ;
    assert((flags >> 7) & 1 == ra) by (bit_vector)
        requires
            flags == (ir << 15) | (op << 11) | (a << 10) | (t << 9) | (rd << 8) | (ra << 7) | rc,
            ir <= 1 && a <= 1 && t <= 1 && rd <= 1 && ra <= 1 && op <= 0xf && rc <= 0xf,
    ;
    assert(flags & 0xf == rc) by (bit_vector)
        requires
            flags == (ir << 15) | (op << 11) | (a << 10) | (t << 9) | (rd << 8) | (ra << 7) | rc,
            ir <= 1 && a <= 1 && t <= 1 && rd <= 1 && ra <= 1 && op <= 0xf && rc <= 0xf,
    ;
    let ov = h.opcode.spec_encode();
    assert(0 <= ov < 16);
    let ovu = ov as u16;
    assert(ovu & 0xf == ovu) by (bit_vector)
        requires
            ovu < 16,
    ;
    assert(op == ov);
    assert(Opcode::spec_decode(op as int) == h.opcode);
    let rv = h.response_code.spec_encode();
    assert(0 <= rv < 16);
    let rvu = rv as u16;
    assert(rvu & 0xf == rvu) by (bit_vector)
        requires
            rvu < 16,
    ;
    assert(rc == rv);
    assert(ResponseCode::spec_decode(rc as int) == h.response_code);
    let id = h.identifier;
    assert((((id >> 8) as u8 as u16) << 8) | (id as u8 as u16) == id) by (bit_vector);
    let qc = h.question_count;
    assert((((qc >> 8) as u8 as u16) << 8) | (qc as u8 as u16) == qc) by (bit_vector);
    let ac = h.answer_count;
    assert((((ac >> 8) as u8 as u16) << 8) | (ac as u8 as u16) == ac) by (bit_vector);
    let uc = h.authority_count;
    assert((((uc >> 8) as u8 as u16) << 8) | (uc as u8 as u16) == uc) by (bit_vector);
    let dc = h.additional_count;
    assert((((dc >> 8) as u8 as u16) << 8) | (dc as u8 as u16) == dc) by (bit_vector);
    assert(spec_header_of_bytes(b) == h);
}

} // verus!
