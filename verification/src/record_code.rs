//! Payload codecs: packing arbitrary bytes into the representation a DNS
//! record type tolerates, selected by `(record type, encoding name)`.

use vstd::prelude::*;
use crate::ascii::hex_digit_byte;
use crate::message::RecordType;

verus! {

/// How a codec packs payload bytes into a record body.
#[derive(PartialEq, Eq, Structural, Clone, Copy, Debug)]
pub enum CodecKind {
    /// The body carries the payload bytes unchanged; only record types that
    /// tolerate arbitrary bytes support it.
    Raw,
    /// Each payload byte becomes two lowercase hex digits, safe for record
    /// types restricted to name-like text.
    Hex,
}

/// A payload codec usable with one record type.
#[derive(PartialEq, Eq, Structural, Clone, Copy, Debug)]
pub struct RecordCode {
    pub record_type: RecordType,
    pub kind: CodecKind,
}

/// The registry: which codec serves a `(record type, encoding name)` pair.
/// TXT records tolerate raw bytes; TXT, CNAME and NS all tolerate hex text.
pub open spec fn spec_lookup_code(rt: RecordType, enc: Seq<char>) -> Option<CodecKind> {
    if rt == RecordType::Txt && enc == "raw"@ {
        Some(CodecKind::Raw)
    } else if (rt == RecordType::Txt || rt == RecordType::Cname || rt == RecordType::Ns) && enc
        == "hex"@ {
        Some(CodecKind::Hex)
    } else {
        None
    }
}

/// Find the codec registered for a record type and encoding name, if any.
pub fn get_record_code(record_type: RecordType, encoding: &str) -> (r: Option<RecordCode>)
    ensures
        r is Some <==> spec_lookup_code(record_type, encoding@) is Some,
        r matches Some(c) ==> c.record_type == record_type && Some(c.kind) == spec_lookup_code(
            record_type,
            encoding@,
        ),
{
    let is_raw = str_eq(encoding, "raw");
    let is_hex = str_eq(encoding, "hex");
    match record_type {
        RecordType::Txt => {
            if is_raw {
                Some(RecordCode { record_type, kind: CodecKind::Raw })
            } else if is_hex {
                Some(RecordCode { record_type, kind: CodecKind::Hex })
            } else {
                None
            }
        },
        RecordType::Cname | RecordType::Ns => {
            if is_hex {
                Some(RecordCode { record_type, kind: CodecKind::Hex })
            } else {
                None
            }
        },
        _ => None,
    }
}

fn str_eq(a: &str, b: &str) -> (r: bool)
    ensures
        r == (a@ == b@),
{
    a.to_owned().eq(&b.to_owned())
}

/// The two lowercase hex digits of one byte.
pub open spec fn hex_pair(b: u8) -> Seq<u8> {
    seq![hex_digit_byte(b as int / 16), hex_digit_byte(b as int % 16)]
}

/// The hex text of a byte string.
pub open spec fn hex_body(data: Seq<u8>) -> Seq<u8>
    decreases data.len(),
{
    if data.len() == 0 {
        Seq::empty()
    } else {
        hex_body(data.drop_last()) + hex_pair(data.last())
    }
}

pub open spec fn is_hex_digit_byte(b: u8) -> bool {
    (48 <= b <= 57) || (97 <= b <= 102) || (65 <= b <= 70)
}

pub open spec fn hex_val_byte(b: u8) -> int {
    if 48 <= b <= 57 {
        b - 48
    } else if 97 <= b <= 102 {
        b - 87
    } else {
        b - 55
    }
}

/// A record body is hex-decodable when it is an even count of hex digits.
pub open spec fn hex_decodable(body: Seq<u8>) -> bool {
    body.len() % 2 == 0 && forall|i: int| 0 <= i < body.len() ==> is_hex_digit_byte(#[trigger] body[i])
}

/// The bytes read back from hex text.
pub open spec fn hex_decode(body: Seq<u8>) -> Seq<u8>
    decreases body.len(),
{
    if body.len() < 2 {
        Seq::empty()
    } else {
        hex_decode(body.take(body.len() - 2)).push(
            (hex_val_byte(body[body.len() - 2]) * 16 + hex_val_byte(body.last())) as u8,
        )
    }
}

/// What `encode_body` produces for a payload.
pub open spec fn spec_encode_body(kind: CodecKind, data: Seq<u8>) -> Seq<u8> {
    match kind {
        CodecKind::Raw => data,
        CodecKind::Hex => hex_body(data),
    }
}

/// What `decode_body` reads from a record body, when it is readable.
pub open spec fn spec_decode_body(kind: CodecKind, body: Seq<u8>) -> Option<Seq<u8>> {
    match kind {
        CodecKind::Raw => Some(body),
        CodecKind::Hex => if hex_decodable(body) {
            Some(hex_decode(body))
        } else {
            None
        },
    }
}

impl RecordCode {
    /// The largest payload whose encoding fits in `mtu` body bytes.
    pub fn max_payload_len(&self, mtu: u16) -> (r: usize)
        ensures
            self.kind == CodecKind::Raw ==> r == mtu,
            self.kind == CodecKind::Hex ==> r == mtu / 2,
    {
        match self.kind {
            CodecKind::Raw => mtu as usize,
            CodecKind::Hex => (mtu / 2) as usize,
        }
    }

    /// Pack payload bytes into a record body.
    pub fn encode_body(&self, data: &[u8]) -> (r: Result<Vec<u8>, String>)
        ensures
            r matches Ok(b) && b@ == spec_encode_body(self.kind, data@),
    {
        match self.kind {
            CodecKind::Raw => {
                let mut out: Vec<u8> = Vec::new();
                out.extend_from_slice(data);
                proof {
                    assert(out@ =~= data@);
                }
                Ok(out)
            },
            CodecKind::Hex => {
                let mut out: Vec<u8> = Vec::new();
                let n = data.len();
                let mut i: usize = 0;
                proof {
                    assert(hex_body(data@.take(0)) =~= Seq::<u8>::empty());
                }
                while i < n
                    invariant
                        0 <= i <= n == data@.len(),
                        out@ == hex_body(data@.take(i as int)),
                    decreases n - i,
                {
                    let b = data[i];
                    out.push(if b / 16 <= 9 {
                        48 + b / 16
                    } else {
                        87 + b / 16
                    });
                    out.push(if b % 16 <= 9 {
                        48 + b % 16
                    } else {
                        87 + b % 16
                    });
                    proof {
                        assert(data@.take(i + 1).drop_last() =~= data@.take(i as int));
                        assert(data@.take(i + 1).last() == data@[i as int]);
                        assert(out@ =~= hex_body(data@.take(i as int)) + hex_pair(data@[i as int]));
                    }
                    i += 1;
                }
                proof {
                    assert(data@.take(n as int) =~= data@);
                }
                Ok(out)
            },
        }
    }

    /// Read payload bytes back out of a record body.
    pub fn decode_body(&self, body: &[u8]) -> (r: Result<Vec<u8>, String>)
        ensures
            r is Ok <==> spec_decode_body(self.kind, body@) is Some,
            r matches Ok(d) ==> Some(d@) == spec_decode_body(self.kind, body@),
    {
        match self.kind {
            CodecKind::Raw => {
                let mut out: Vec<u8> = Vec::new();
                out.extend_from_slice(body);
                proof {
                    assert(out@ =~= body@);
                }
                Ok(out)
            },
            CodecKind::Hex => {
                let n = body.len();
                if n % 2 != 0 {
                    return Err("odd hex body length".to_owned());
                }
                let mut out: Vec<u8> = Vec::new();
                let mut i: usize = 0;
                proof {
                    assert(hex_decode(body@.take(0)) =~= Seq::<u8>::empty());
                }
                while i < n
                    invariant
                        self.kind == CodecKind::Hex,
                        0 <= i <= n == body@.len(),
                        i % 2 == 0,
                        n % 2 == 0,
                        forall|j: int| 0 <= j < i ==> is_hex_digit_byte(#[trigger] body@[j]),
                        out@ == hex_decode(body@.take(i as int)),
                    decreases n - i,
                {
                    let hi = body[i];
                    let lo = body[i + 1];
                    let hv: u8 = if 48 <= hi && hi <= 57 {
                        hi - 48
                    } else if 97 <= hi && hi <= 102 {
                        hi - 87
                    } else if 65 <= hi && hi <= 70 {
                        hi - 55
                    } else {
                        assert(!is_hex_digit_byte(body@[i as int]));
                        return Err("invalid hex digit".to_owned());
                    };
                    let lv: u8 = if 48 <= lo && lo <= 57 {
                        lo - 48
                    } else if 97 <= lo && lo <= 102 {
                        lo - 87
                    } else if 65 <= lo && lo <= 70 {
                        lo - 55
                    } else {
                        assert(!is_hex_digit_byte(body@[i + 1]));
                        return Err("invalid hex digit".to_owned());
                    };
                    out.push(hv * 16 + lv);
                    proof {
                        let t = body@.take(i + 2);
                        assert(t.take(t.len() - 2) =~= body@.take(i as int));
                        assert(t[t.len() - 2] == body@[i as int]);
                        assert(t.last() == body@[i + 1]);
                        assert(out@ =~= hex_decode(body@.take(i + 2)));
                    }
                    i += 2;
                }
                proof {
                    assert(body@.take(n as int) =~= body@);
                }
                Ok(out)
            },
        }
    }
}

/// Record-codec round trip: decoding an encoded payload gives the payload
/// back; a hex encoding is twice the payload length and consists of hex
/// digits, so it meets a name-restricted record type's constraints.
pub proof fn lemma_codec_roundtrip(kind: CodecKind, data: Seq<u8>)
    ensures
        spec_decode_body(kind, spec_encode_body(kind, data)) == Some(data),
        spec_encode_body(kind, data).len() == (match kind {
            CodecKind::Raw => data.len(),
            CodecKind::Hex => 2 * data.len(),
        }),
        kind == CodecKind::Hex ==> forall|i: int|
            0 <= i < hex_body(data).len() ==> is_hex_digit_byte(#[trigger] hex_body(data)[i])
                && hex_body(data)[i] != 65,
    decreases data.len(),
{
    match kind {
        CodecKind::Raw => {},
        CodecKind::Hex => {
            lemma_hex_roundtrip(data);
        },
    }
}

proof fn lemma_hex_roundtrip(data: Seq<u8>)
    ensures
        hex_body(data).len() == 2 * data.len(),
        hex_decodable(hex_body(data)),
        hex_decode(hex_body(data)) == data,
        forall|i: int|
            0 <= i < hex_body(data).len() ==> is_hex_digit_byte(#[trigger] hex_body(data)[i])
                && hex_body(data)[i] != 65,
    decreases data.len(),
{
    if data.len() == 0 {
    } else {
        lemma_hex_roundtrip(data.drop_last());
        let h = hex_body(data);
        let hd = hex_body(data.drop_last());
        let b = data.last();
        assert(h == hd + hex_pair(b));
        assert(h.take(h.len() - 2) =~= hd);
        assert(h[h.len() - 2] == hex_digit_byte(b as int / 16));
        assert(h.last() == hex_digit_byte(b as int % 16));
        assert(hex_val_byte(hex_digit_byte(b as int / 16)) == b as int / 16);
        assert(hex_val_byte(hex_digit_byte(b as int % 16)) == b as int % 16);
        assert((b as int / 16) * 16 + b as int % 16 == b);
        assert(hex_decode(h) =~= data);
    }
}

} // verus!
