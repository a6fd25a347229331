//! The establishment handshake: the query packed into a domain name, the
//! time-windowed password proof, and the binary response body.

use vstd::prelude::*;
use vstd::utf8::encode_utf8;
use crate::ascii::{
    all_dec_digits, all_hex_digits, dec_value, hex_value, dec_chars_of, hex_chars_of, seq_lower,
    lower_char, lower_str, parse_dec_u16, parse_hex_u64, u16_to_dec_string, u64_to_hex_string,
    push_dec_u64,
};
use crate::domain::{
    Domain, domain_wf, spec_ends_with, lemma_valid_label_ascii, lemma_joined_len_subrange,
    valid_label,
};
use crate::header::spec_u16_bytes;
use crate::message::Message;

verus! {

// ---------------------------------------------------------------------------
// Password proof
// ---------------------------------------------------------------------------

/// The SHA-1 digest of a byte string. The digest of given bytes is a fixed
/// value, stated only by name; it is twenty bytes long.
pub uninterp spec fn sha1_of(data: Seq<u8>) -> Seq<u8>;

/// Relies on the `sha1` crate's `Sha1` hasher: the digest depends on the
/// input bytes alone and is twenty bytes long.
#[verifier::external_body]
fn sha1_digest(data: &Vec<u8>) -> (r: Vec<u8>)
    ensures
        r@ == sha1_of(data@),
        r@.len() == 20,
{
    let digest = <sha1::Sha1 as sha1::Digest>::digest(data.as_slice());
    digest.as_slice().to_vec()
}

/// The proof preimage: password, decimal epoch seconds, password again.
pub open spec fn spec_proof_message(password: Seq<char>, cur_time: u64) -> Seq<u8> {
    encode_utf8(password) + crate::ascii::dec_bytes(cur_time as nat) + encode_utf8(password)
}

/// The first eight digest bytes read as a big-endian integer.
pub open spec fn spec_u64_be(s: Seq<u8>) -> u64
    recommends
        s.len() >= 8,
{
    (((s[0] as u64) << 56) | ((s[1] as u64) << 48) | ((s[2] as u64) << 40) | ((s[3] as u64) << 32)
        | ((s[4] as u64) << 24) | ((s[5] as u64) << 16) | ((s[6] as u64) << 8) | (s[7] as u64))
        as u64
}

/// The time-bound proof of knowledge of the shared password.
pub open spec fn spec_password_proof(password: Seq<char>, cur_time: u64) -> u64 {
    spec_u64_be(sha1_of(spec_proof_message(password, cur_time)))
}

/// Produce proof that we know the given password, bound to the given epoch
/// time in seconds.
pub fn password_proof(password: &str, cur_time: u64) -> (r: u64)
    ensures
        r == spec_password_proof(password@, cur_time),
{
    let mut msg: Vec<u8> = password.as_bytes_vec();
    push_dec_u64(&mut msg, cur_time);
    let mut tail: Vec<u8> = password.as_bytes_vec();
    msg.append(&mut tail);
    proof {
        assert(msg@ =~= spec_proof_message(password@, cur_time));
    }
    let digest = sha1_digest(&msg);
    ((digest[0] as u64) << 56) | ((digest[1] as u64) << 48) | ((digest[2] as u64) << 40) | ((
    digest[3] as u64) << 32) | ((digest[4] as u64) << 24) | ((digest[5] as u64) << 16) | ((
    digest[6] as u64) << 8) | (digest[7] as u64)
}

// ---------------------------------------------------------------------------
// The establishment query
// ---------------------------------------------------------------------------

/// The contents of an establishment query.
#[derive(Debug, PartialEq)]
pub struct EstablishQuery {
    pub response_encoding: String,
    pub mtu: u16,
    pub name_encoding: String,
    pub query_window: u16,
    pub response_window: u16,
    pub proof: u64,
    pub port: u16,
    pub host: Domain,
}

pub open spec fn dec_label_u16(s: Seq<char>) -> bool {
    s.len() > 0 && all_dec_digits(s) && dec_value(s) <= u16::MAX
}

pub open spec fn hex_label_u64(s: Seq<char>) -> bool {
    s.len() > 0 && all_hex_digits(s) && hex_value(s) <= u64::MAX
}

/// When a domain, relative to the server root, decodes as an establishment
/// query: it ends with the root, keeps at least eight labels before it, and
/// its numeric labels parse.
pub open spec fn spec_establish_parse_ok(labels: Seq<Seq<char>>, root: Seq<Seq<char>>) -> bool {
    &&& spec_ends_with(labels, root)
    &&& labels.len() - root.len() >= 8
    &&& dec_label_u16(labels[1])
    &&& dec_label_u16(labels[3])
    &&& dec_label_u16(labels[4])
    &&& hex_label_u64(labels[5])
    &&& dec_label_u16(labels[6])
}

/// The labels of the establishment domain for given fields: the marker label,
/// five numeric labels, the name encoding, then the target host and the
/// server root.
pub open spec fn spec_establish_labels(
    response_encoding: Seq<char>,
    mtu: u16,
    name_encoding: Seq<char>,
    query_window: u16,
    response_window: u16,
    proof: u64,
    port: u16,
    host: Seq<Seq<char>>,
    root: Seq<Seq<char>>,
) -> Seq<Seq<char>> {
    seq![
        seq!['e'] + response_encoding,
        dec_chars_of(mtu as nat),
        name_encoding,
        dec_chars_of(query_window as nat),
        dec_chars_of(response_window as nat),
        hex_chars_of(proof as nat),
        dec_chars_of(port as nat),
    ] + host + root
}

impl EstablishQuery {
    /// Decode an establishment query from a DNS message, given the server's
    /// root domain.
    pub fn from_query(query: &Message, host: &Domain) -> (r: Result<EstablishQuery, String>)
        requires
            query.wf(),
            host.wf(),
        ensures
            r is Ok <==> spec_is_establish_query(query) && query.questions@.len() > 0
                && spec_establish_parse_ok(query.questions@[0].domain@, host@),
            r matches Ok(q) ==> parsed_query_matches(q, query.questions@[0].domain@, host@),
    {
        if !is_establish_query(query) {
            return Err("not an establish query".to_owned());
        }
        EstablishQuery::from_domain(&query.questions[0].domain, host)
    }

    /// Decode an establishment query from its domain name, given the server's
    /// root domain.
    pub fn from_domain(domain: &Domain, host: &Domain) -> (r: Result<EstablishQuery, String>)
        requires
            domain.wf(),
            host.wf(),
        ensures
            r is Ok <==> spec_establish_parse_ok(domain@, host@),
            r matches Ok(q) ==> parsed_query_matches(q, domain@, host@),
    {
        if !domain.ends_with(host) {
            return Err("incorrect host domain".to_owned());
        }
        let parts = domain.parts();
        let root_len = host.parts().len();
        if parts.len() - root_len < 8 {
            return Err("not enough labels".to_owned());
        }
        proof {
            assert(domain@[0] == parts.deep_view()[0]);
            lemma_valid_label_ascii(domain@[0]);
        }
        let first_lower = lower_str(parts[0].as_str());
        proof {
            assert forall|i: int| 0 <= i < first_lower@.len() implies '\0' <= #[trigger] first_lower@[i]
                <= '\u{7f}' by {
                assert(first_lower@[i] == lower_char(domain@[0][i]));
            }
        }
        let fl_len = first_lower.as_str().unicode_len();
        let response_encoding = first_lower.as_str().substring_ascii(1, fl_len).to_owned();
        proof {
            assert(response_encoding@ =~= seq_lower(domain@[0]).skip(1));
            assert(parts.deep_view()[1] == domain@[1]);
            assert(parts.deep_view()[2] == domain@[2]);
            assert(parts.deep_view()[3] == domain@[3]);
            assert(parts.deep_view()[4] == domain@[4]);
            assert(parts.deep_view()[5] == domain@[5]);
            assert(parts.deep_view()[6] == domain@[6]);
        }
        let mtu = parse_dec_u16(parts[1].as_str());
        proof {
            assert(domain@[2] == parts.deep_view()[2]);
            lemma_valid_label_ascii(domain@[2]);
        }
        let name_encoding = lower_str(parts[2].as_str());
        let query_window = parse_dec_u16(parts[3].as_str());
        let response_window = parse_dec_u16(parts[4].as_str());
        let proof_val = parse_hex_u64(parts[5].as_str());
        let port = parse_dec_u16(parts[6].as_str());
        if mtu.is_none() || query_window.is_none() || response_window.is_none()
            || proof_val.is_none() || port.is_none() {
            return Err("invalid number in domain".to_owned());
        }
        proof {
            if all_dec_digits(domain@[1]) {
                crate::ascii::lemma_dec_value_nonneg(domain@[1]);
            }
            if all_dec_digits(domain@[3]) {
                crate::ascii::lemma_dec_value_nonneg(domain@[3]);
            }
            if all_dec_digits(domain@[4]) {
                crate::ascii::lemma_dec_value_nonneg(domain@[4]);
            }
            if all_hex_digits(domain@[5]) {
                crate::ascii::lemma_hex_value_nonneg(domain@[5]);
            }
            if all_dec_digits(domain@[6]) {
                crate::ascii::lemma_dec_value_nonneg(domain@[6]);
            }
        }
        let host_end = parts.len() - root_len;
        let mut host_labels: Vec<String> = Vec::new();
        let mut j: usize = 7;
        while j < host_end
            invariant
                7 <= j <= host_end <= parts@.len(),
                parts.deep_view() == domain@,
                host_labels.deep_view() == domain@.subrange(7, j as int),
            decreases host_end - j,
        {
            let ghost old_dv = host_labels.deep_view();
            host_labels.push(parts[j].clone());
            proof {
                assert(host_labels.deep_view() =~= old_dv.push(domain@[j as int]));
                assert(host_labels.deep_view() =~= domain@.subrange(7, j + 1));
            }
            j += 1;
        }
        proof {
            assert forall|i: int| 0 <= i < host_labels.deep_view().len() implies valid_label(
                #[trigger] host_labels.deep_view()[i],
            ) by {
                assert(host_labels.deep_view()[i] == domain@[7 + i]);
            }
            lemma_joined_len_subrange(domain@, 7, host_end as int);
        }
        let target = match Domain::from_parts(host_labels) {
            Ok(d) => d,
            Err(e) => {
                return Err(e);
            },
        };
        Ok(
            EstablishQuery {
                response_encoding,
                mtu: mtu.unwrap(),
                name_encoding,
                query_window: query_window.unwrap(),
                response_window: response_window.unwrap(),
                proof: proof_val.unwrap(),
                port: port.unwrap(),
                host: target,
            },
        )
    }

    /// Encode the query into a domain name, given the server's root domain.
    pub fn to_domain(&self, host: &Domain) -> (r: Result<Domain, String>)
        ensures
            r is Ok <==> domain_wf(
                spec_establish_labels(
                    self.response_encoding@,
                    self.mtu,
                    self.name_encoding@,
                    self.query_window,
                    self.response_window,
                    self.proof,
                    self.port,
                    self.host@,
                    host@,
                ),
            ),
            r matches Ok(d) ==> d@ == spec_establish_labels(
                self.response_encoding@,
                self.mtu,
                self.name_encoding@,
                self.query_window,
                self.response_window,
                self.proof,
                self.port,
                self.host@,
                host@,
            ) && d.wf(),
    {
        let ghost target = spec_establish_labels(
            self.response_encoding@,
            self.mtu,
            self.name_encoding@,
            self.query_window,
            self.response_window,
            self.proof,
            self.port,
            self.host@,
            host@,
        );
        let mut parts: Vec<String> = Vec::new();
        let mut marker = String::new();
        marker.append("e");
        marker.append(self.response_encoding.as_str());
        proof {
            reveal_strlit("e");
            assert("e"@ =~= seq!['e']);
            assert(marker@ =~= seq!['e'] + self.response_encoding@);
        }
        parts.push(marker);
        parts.push(u16_to_dec_string(self.mtu));
        parts.push(self.name_encoding.clone());
        parts.push(u16_to_dec_string(self.query_window));
        parts.push(u16_to_dec_string(self.response_window));
        parts.push(u64_to_hex_string(self.proof));
        parts.push(u16_to_dec_string(self.port));
        let host_parts = self.host.parts();
        let mut j: usize = 0;
        let n = host_parts.len();
        proof {
            assert(parts.deep_view() =~= target.take(7));
        }
        while j < n
            invariant
                0 <= j <= n == self.host@.len(),
                host_parts.deep_view() == self.host@,
                parts.deep_view() == target.take(7 + j),
                target == spec_establish_labels(
                    self.response_encoding@,
                    self.mtu,
                    self.name_encoding@,
                    self.query_window,
                    self.response_window,
                    self.proof,
                    self.port,
                    self.host@,
                    host@,
                ),
            decreases n - j,
        {
            let ghost old_dv = parts.deep_view();
            parts.push(host_parts[j].clone());
            proof {
                assert(parts.deep_view() =~= old_dv.push(self.host@[j as int]));
                assert(parts.deep_view() =~= target.take(7 + j + 1));
            }
            j += 1;
        }
        let root_parts = host.parts();
        let m = root_parts.len();
        let mut k: usize = 0;
        while k < m
            invariant
                0 <= k <= m == host@.len(),
                root_parts.deep_view() == host@,
                n == self.host@.len(),
                parts.deep_view() == target.take(7 + n + k),
                target == spec_establish_labels(
                    self.response_encoding@,
                    self.mtu,
                    self.name_encoding@,
                    self.query_window,
                    self.response_window,
                    self.proof,
                    self.port,
                    self.host@,
                    host@,
                ),
            decreases m - k,
        {
            let ghost old_dv = parts.deep_view();
            parts.push(root_parts[k].clone());
            proof {
                assert(parts.deep_view() =~= old_dv.push(host@[k as int]));
                assert(parts.deep_view() =~= target.take(7 + n + k + 1));
            }
            k += 1;
        }
        proof {
            assert(parts.deep_view() =~= target);
        }
        Domain::from_parts(parts)
    }

    /// Check the password proof against every second in the tolerance window
    /// `[cur_time - window, cur_time + window)`.
    pub fn check_proof(&self, password: &str, cur_time: u64, window: u64) -> (r: bool)
        requires
            window <= cur_time,
            cur_time + window <= u64::MAX,
        ensures
            r == exists|t: u64|
                cur_time - window <= t < cur_time + window && self.proof == spec_password_proof(
                    password@,
                    t,
                ),
    {
        let mut t = cur_time - window;
        let end = cur_time + window;
        while t < end
            invariant
                cur_time - window <= t <= end,
                end == cur_time + window,
                window <= cur_time,
                forall|u: u64|
                    cur_time - window <= u < t ==> self.proof != spec_password_proof(password@, u),
            decreases end - t,
        {
            if self.proof == password_proof(password, t) {
                proof {
                    assert(cur_time - window <= t < cur_time + window && self.proof
                        == spec_password_proof(password@, t));
                }
                return true;
            }
            t = t + 1;
        }
        false
    }
}

/// A decoded query carries exactly the values of the domain's labels.
pub open spec fn parsed_query_matches(
    q: EstablishQuery,
    labels: Seq<Seq<char>>,
    root: Seq<Seq<char>>,
) -> bool {
    &&& q.response_encoding@ == seq_lower(labels[0]).skip(1)
    &&& q.mtu == dec_value(labels[1])
    &&& q.name_encoding@ == seq_lower(labels[2])
    &&& q.query_window == dec_value(labels[3])
    &&& q.response_window == dec_value(labels[4])
    &&& q.proof == hex_value(labels[5])
    &&& q.port == dec_value(labels[6])
    &&& q.host@ == labels.subrange(7, labels.len() - root.len())
    &&& q.host.wf()
}

/// Establish-query round trip: a query whose encodings are lowercase and
/// whose target host is non-empty is decoded back, field for field, from the
/// domain labels that encode it.
pub proof fn lemma_establish_roundtrip(
    response_encoding: Seq<char>,
    mtu: u16,
    name_encoding: Seq<char>,
    query_window: u16,
    response_window: u16,
    proof_val: u64,
    port: u16,
    host: Seq<Seq<char>>,
    root: Seq<Seq<char>>,
)
    requires
        seq_lower(response_encoding) == response_encoding,
        seq_lower(name_encoding) == name_encoding,
        host.len() >= 1,
    ensures
        ({
            let labels = spec_establish_labels(
                response_encoding,
                mtu,
                name_encoding,
                query_window,
                response_window,
                proof_val,
                port,
                host,
                root,
            );
            &&& spec_establish_parse_ok(labels, root)
            &&& seq_lower(labels[0]).skip(1) == response_encoding
            &&& dec_value(labels[1]) == mtu
            &&& seq_lower(labels[2]) == name_encoding
            &&& dec_value(labels[3]) == query_window
            &&& dec_value(labels[4]) == response_window
            &&& hex_value(labels[5]) == proof_val
            &&& dec_value(labels[6]) == port
            &&& labels.subrange(7, labels.len() - root.len()) == host
        }),
{
    let labels = spec_establish_labels(
        response_encoding,
        mtu,
        name_encoding,
        query_window,
        response_window,
        proof_val,
        port,
        host,
        root,
    );
    crate::ascii::lemma_dec_numeral(mtu as nat);
    crate::ascii::lemma_dec_numeral(query_window as nat);
    crate::ascii::lemma_dec_numeral(response_window as nat);
    crate::ascii::lemma_dec_numeral(port as nat);
    crate::ascii::lemma_hex_numeral(proof_val as nat);
    assert(labels.len() == 7 + host.len() + root.len());
    assert(labels[0] == seq!['e'] + response_encoding);
    assert(labels[1] == dec_chars_of(mtu as nat));
    assert(labels[2] == name_encoding);
    assert(labels[3] == dec_chars_of(query_window as nat));
    assert(labels[4] == dec_chars_of(response_window as nat));
    assert(labels[5] == hex_chars_of(proof_val as nat));
    assert(labels[6] == dec_chars_of(port as nat));
    assert(seq_lower(labels[0]) =~= labels[0]) by {
        assert forall|i: int| 0 <= i < labels[0].len() implies seq_lower(labels[0])[i]
            == labels[0][i] by {
            if i == 0 {
                assert(labels[0][0] == 'e');
                assert(lower_char('e') == 'e');
            } else {
                assert(labels[0][i] == response_encoding[i - 1]);
                assert(seq_lower(response_encoding)[i - 1] == lower_char(response_encoding[i - 1]));
            }
        }
    }
    assert(seq_lower(labels[0]).skip(1) =~= response_encoding);
    assert(labels.subrange(7, labels.len() - root.len()) =~~= host);
    assert(spec_ends_with(labels, root)) by {
        assert forall|i: int| 0 <= i < root.len() implies seq_lower(
            labels[labels.len() - root.len() + i],
        ) == seq_lower(#[trigger] root[i]) by {
            assert(labels[labels.len() - root.len() + i] == root[i]);
        }
    }
}

// ---------------------------------------------------------------------------
// The establishment response
// ---------------------------------------------------------------------------

/// What a sequence of bytes holds after a lossy UTF-8 read. The result
/// depends on the bytes alone, and is stated only by name.
pub uninterp spec fn utf8_lossy_of(bytes: Seq<u8>) -> Seq<char>;

/// Relies on `String::from_utf8_lossy`: the result depends on the bytes
/// alone, and ASCII bytes decode to exactly those characters.
#[verifier::external_body]
fn bytes_to_string_lossy(bytes: &[u8]) -> (r: String)
    ensures
        r@ == utf8_lossy_of(bytes@),
        (forall|i: int| 0 <= i < bytes@.len() ==> bytes@[i] < 128) ==> r@
            == crate::ascii::bytes_to_chars(bytes@),
{
    String::from_utf8_lossy(bytes).into_owned()
}

pub open spec fn spec_u32_bytes(v: u32) -> Seq<u8> {
    seq![(v >> 24) as u8, (v >> 16) as u8, (v >> 8) as u8, v as u8]
}

/// A response to an establishment query. `Unknown` is decode-only.
#[derive(Debug, PartialEq)]
pub enum EstablishResponse {
    Success { id: u16, seq: u32 },
    Failure(String),
    Unknown(u8),
}

impl EstablishResponse {
    /// Encode for the record body: the tag byte, then the session id and
    /// start sequence for success, or the message bytes for failure.
    /// Encoding `Unknown` is an error.
    pub fn dns_encode(&self) -> (r: Result<Vec<u8>, String>)
        ensures
            r is Err <==> self is Unknown,
            (*self) matches EstablishResponse::Success { id, seq } ==> r matches Ok(b) && b@ == seq![
                0u8,
            ] + spec_u16_bytes(id) + spec_u32_bytes(seq),
            (*self) matches EstablishResponse::Failure(m) ==> r matches Ok(b) && b@ == seq![1u8]
                + encode_utf8(m@),
    {
        match self {
            EstablishResponse::Success { id, seq } => {
                let mut out: Vec<u8> = Vec::new();
                out.push(0);
                crate::header::push_u16(&mut out, *id);
                let s = *seq;
                out.push((s >> 24) as u8);
                out.push((s >> 16) as u8);
                out.push((s >> 8) as u8);
                out.push(s as u8);
                proof {
                    assert(out@ =~= seq![0u8] + spec_u16_bytes(*id) + spec_u32_bytes(*seq));
                }
                Ok(out)
            },
            EstablishResponse::Failure(message) => {
                let mut out: Vec<u8> = Vec::new();
                out.push(1);
                let mut body = message.as_str().as_bytes_vec();
                out.append(&mut body);
                proof {
                    assert(out@ =~= seq![1u8] + encode_utf8(message@));
                }
                Ok(out)
            },
            EstablishResponse::Unknown(_) => Err(
                "cannot encode unknown establish response".to_owned(),
            ),
        }
    }

    /// Decode a record body: tag 0 is success and takes exactly a session id
    /// and start sequence, tag 1 is failure with the rest as a lossy UTF-8
    /// message, and any other tag is preserved as `Unknown`.
    pub fn dns_decode(bytes: &[u8]) -> (r: Result<EstablishResponse, String>)
        ensures
            bytes@.len() == 0 ==> r is Err,
            (bytes@.len() > 0 && bytes@[0] == 0 && bytes@.len() == 7) ==> r == Ok::<EstablishResponse, String>(
                EstablishResponse::Success {
                    id: (((bytes@[1] as u16) << 8) | (bytes@[2] as u16)) as u16,
                    seq: (((bytes@[3] as u32) << 24) | ((bytes@[4] as u32) << 16) | ((bytes@[5]
                        as u32) << 8) | (bytes@[6] as u32)) as u32,
                },
            ),
            (bytes@.len() > 0 && bytes@[0] == 0 && bytes@.len() != 7) ==> r is Err,
            (bytes@.len() > 0 && bytes@[0] == 1) ==> (r matches Ok(resp) && (resp
                matches EstablishResponse::Failure(m) && m@ == utf8_lossy_of(bytes@.skip(1)))),
            (bytes@.len() > 0 && bytes@[0] >= 2) ==> r == Ok::<EstablishResponse, String>(EstablishResponse::Unknown(bytes@[0])),
    {
        if bytes.len() == 0 {
            return Err("empty establish response".to_owned());
        }
        let tag = bytes[0];
        if tag == 0 {
            if bytes.len() != 7 {
                return Err("malformed establish response".to_owned());
            }
            let id: u16 = ((bytes[1] as u16) << 8) | (bytes[2] as u16);
            let seq: u32 = ((bytes[3] as u32) << 24) | ((bytes[4] as u32) << 16) | ((bytes[5]
                as u32) << 8) | (bytes[6] as u32);
            Ok(EstablishResponse::Success { id, seq })
        } else if tag == 1 {
            let rest = vstd::slice::slice_subrange(bytes, 1, bytes.len());
            Ok(EstablishResponse::Failure(bytes_to_string_lossy(rest)))
        } else {
            Ok(EstablishResponse::Unknown(tag))
        }
    }
}

// ---------------------------------------------------------------------------
// Building the response message
// ---------------------------------------------------------------------------

/// Produce the answer message for an establishment request: the query
/// message with one answer record appended, whose body carries the encoded
/// response through the codec the client requested. Fails when the query
/// does not decode, when no codec serves the requested encoding with the
/// question's record type, or when the response is `Unknown`.
pub fn establish_response(query: Message, host: &Domain, resp: EstablishResponse) -> (r: Result<
    Message,
    String,
>)
    requires
        query.wf(),
        host.wf(),
    ensures
        r is Ok <==> (spec_is_establish_query(&query) && query.questions@.len() > 0
            && spec_establish_parse_ok(query.questions@[0].domain@, host@)
            && crate::record_code::spec_lookup_code(
            query.questions@[0].record_type,
            seq_lower(query.questions@[0].domain@[0]).skip(1),
        ) is Some && !(resp is Unknown)),
        r matches Ok(m) ==> ({
            let q = query.questions@[0];
            let kind = crate::record_code::spec_lookup_code(
                q.record_type,
                seq_lower(q.domain@[0]).skip(1),
            )->0;
            &&& m.header == (crate::header::Header {
                answer_count: 1,
                is_response: true,
                ..query.header
            })
            &&& m.questions == query.questions
            &&& m.authorities == query.authorities
            &&& m.additional == query.additional
            &&& m.answers@.len() == query.answers@.len() + 1
            &&& m.answers@.take(query.answers@.len() as int) == query.answers@
            &&& m.answers@.last().header.domain@ == q.domain@
            &&& m.answers@.last().header.record_type == q.record_type
            &&& m.answers@.last().header.record_class == q.record_class
            &&& m.answers@.last().header.ttl == 0
            &&& m.answers@.last().body@ == crate::record_code::spec_encode_body(
                kind,
                match resp {
                    EstablishResponse::Success { id, seq } => seq![0u8] + spec_u16_bytes(id)
                        + spec_u32_bytes(seq),
                    EstablishResponse::Failure(msg) => seq![1u8] + encode_utf8(msg@),
                    EstablishResponse::Unknown(_) => Seq::empty(),
                },
            )
        }),
{
    let equery = EstablishQuery::from_query(&query, host)?;
    let question_domain = query.questions[0].domain.duplicate();
    let record_type = query.questions[0].record_type;
    let record_class = query.questions[0].record_class;
    let code = match crate::record_code::get_record_code(
        record_type,
        equery.response_encoding.as_str(),
    ) {
        Some(c) => c,
        None => {
            return Err("no response encoding".to_owned());
        },
    };
    let resp_bytes = resp.dns_encode()?;
    let body = match code.encode_body(resp_bytes.as_slice()) {
        Ok(b) => b,
        Err(e) => {
            return Err(e);
        },
    };
    let ghost old_answers = query.answers@;
    let mut result = query;
    result.answers.push(
        crate::message::Record {
            header: crate::message::RecordHeader {
                domain: question_domain,
                record_type,
                record_class,
                ttl: 0,
            },
            body,
        },
    );
    result.header.answer_count = 1;
    result.header.is_response = true;
    proof {
        assert(result.answers@.take(old_answers.len() as int) =~= old_answers);
    }
    Ok(result)
}

/// A message is an establishment API call when its single question's domain
/// starts with the establishment marker.
pub open spec fn spec_is_establish_query(m: &Message) -> bool {
    &&& m.questions@.len() == 1
    &&& m.questions@[0].domain@.len() >= 1
    &&& m.questions@[0].domain@[0].len() >= 1
    &&& lower_char(m.questions@[0].domain@[0][0]) == 'e'
}

/// Check if a DNS message is an establishment API call.
pub fn is_establish_query(query: &Message) -> (r: bool)
    ensures
        r == spec_is_establish_query(query),
{
    if query.questions.len() != 1 {
        return false;
    }
    let d = &query.questions[0].domain;
    let parts = d.parts();
    if parts.len() == 0 {
        return false;
    }
    let first = parts[0].as_str();
    if first.unicode_len() == 0 {
        return false;
    }
    let c = first.get_char(0);
    let v = c as u32;
    proof {
        assert(first@[0] == d@[0][0]);
        if v == 101 || v == 69 {
            assert(lower_char(d@[0][0]) == 'e');
        } else {
            assert(lower_char(d@[0][0]) != 'e');
        }
    }
    v == 101 || v == 69
}

} // verus!
