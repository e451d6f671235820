//! DNS wire-format codec: query encoding (header plus one question) and
//! response decoding (header, echoed questions, answer records with
//! compression-pointer names).

use vstd::prelude::*;
use crate::bytes::{be16, be16_bytes, be32, push_be16, read_be16, read_be32};
use crate::dns_name::{first_zero_from, labels_fit, spec_encoded_name, spec_join, spec_labels,
    spec_name_at, spec_parse_labels, spec_wire, lemma_join_push, lemma_labels_leading,
    lemma_labels_nonempty, lemma_wire_push};
use crate::rng::random_u16;

verus! {

/// Why a response buffer failed to decode.
#[derive(Clone, Copy, Debug, PartialEq, Eq, Structural)]
pub enum DnsError {
    /// The buffer ends before a field, terminator or payload it promises.
    Truncated,
    /// An answer name starts with literal labels instead of a compression
    /// pointer, which this decoder does not support.
    UnsupportedNameForm,
    /// A record's type field is none of the recognised query types.
    BadQueryType,
    /// A record's class field is not the Internet class.
    BadQueryClass,
    /// A text answer payload is not valid UTF-8.
    InvalidText,
}

/// The record types this client recognises.
#[derive(Clone, Copy, Debug, PartialEq, Eq, Structural)]
pub enum QueryType {
    A,
    Ns,
    Aaaa,
    Ptr,
}

/// The wire code of a query type.
pub open spec fn qtype_code(t: QueryType) -> u16 {
    match t {
        QueryType::A => 1,
        QueryType::Ns => 2,
        QueryType::Aaaa => 28,
        QueryType::Ptr => 12,
    }
}

/// The query type a wire code names, if any.
pub open spec fn qtype_from(value: u16) -> Option<QueryType> {
    if value == 1 {
        Some(QueryType::A)
    } else if value == 2 {
        Some(QueryType::Ns)
    } else if value == 28 {
        Some(QueryType::Aaaa)
    } else if value == 12 {
        Some(QueryType::Ptr)
    } else {
        None
    }
}

impl QueryType {
    pub fn from_u16(value: u16) -> (r: Option<QueryType>)
        ensures
            r == qtype_from(value),
    {
        match value {
            1 => Some(QueryType::A),
            2 => Some(QueryType::Ns),
            28 => Some(QueryType::Aaaa),
            12 => Some(QueryType::Ptr),
            _ => None,
        }
    }

    pub fn to_u16(self) -> (r: u16)
        ensures
            r == qtype_code(self),
    {
        match self {
            QueryType::A => 1,
            QueryType::Ns => 2,
            QueryType::Aaaa => 28,
            QueryType::Ptr => 12,
        }
    }
}

/// The record classes this client recognises: only the Internet class.
#[derive(Clone, Copy, Debug, PartialEq, Eq, Structural)]
pub enum QueryClass {
    In,
}

/// The wire code of a query class.
pub open spec fn qclass_code(c: QueryClass) -> u16 {
    1
}

/// The query class a wire code names, if any.
pub open spec fn qclass_from(value: u16) -> Option<QueryClass> {
    if value == 1 {
        Some(QueryClass::In)
    } else {
        None
    }
}

impl QueryClass {
    pub fn from_u16(value: u16) -> (r: Option<QueryClass>)
        ensures
            r == qclass_from(value),
    {
        match value {
            1 => Some(QueryClass::In),
            _ => None,
        }
    }

    pub fn to_u16(self) -> (r: u16)
        ensures
            r == qclass_code(self),
    {
        1
    }
}

/// Whether a byte sequence is valid UTF-8; what core::str::from_utf8 accepts.
pub uninterp spec fn is_utf8(s: Seq<u8>) -> bool;

/// Relies on core::str::from_utf8: it returns `Ok` exactly when the bytes
/// are valid UTF-8.
#[verifier::external_body]
pub(crate) fn utf8_check(bytes: &[u8]) -> (r: bool)
    ensures
        r == is_utf8(bytes@),
{
    core::str::from_utf8(bytes).is_ok()
}

/// The fixed 12-byte DNS message header.
#[derive(Clone, Copy, Debug, PartialEq, Eq, Structural)]
pub struct DnsHeader {
    pub id: u16,
    pub flags: u16,
    pub questions: u16,
    pub answer_rr: u16,
    pub authority_rr: u16,
    pub additional_rr: u16,
}

/// The header read from the first 12 bytes of a buffer.
pub open spec fn spec_header(b: Seq<u8>) -> DnsHeader {
    DnsHeader {
        id: be16(b[0], b[1]),
        flags: be16(b[2], b[3]),
        questions: be16(b[4], b[5]),
        answer_rr: be16(b[6], b[7]),
        authority_rr: be16(b[8], b[9]),
        additional_rr: be16(b[10], b[11]),
    }
}

/// The 12 wire bytes of a header.
pub open spec fn spec_header_bytes(h: DnsHeader) -> Seq<u8> {
    be16_bytes(h.id) + be16_bytes(h.flags) + be16_bytes(h.questions) + be16_bytes(h.answer_rr)
        + be16_bytes(h.authority_rr) + be16_bytes(h.additional_rr)
}

impl DnsHeader {
    /// A fresh query header: a random transaction id, the standard-query
    /// flag pattern with recursion desired, one question, no records.
    pub fn new_query() -> (h: DnsHeader)
        ensures
            h.flags == 0x0100,
            h.questions == 1,
            h.answer_rr == 0,
            h.authority_rr == 0,
            h.additional_rr == 0,
    {
        let id = random_u16();
        DnsHeader { id, flags: 0x0100, questions: 1, answer_rr: 0, authority_rr: 0, additional_rr: 0 }
    }

    pub fn to_bytes(&self) -> (r: Vec<u8>)
        ensures
            r@ == spec_header_bytes(*self),
    {
        let mut out: Vec<u8> = Vec::new();
        push_be16(&mut out, self.id);
        push_be16(&mut out, self.flags);
        push_be16(&mut out, self.questions);
        push_be16(&mut out, self.answer_rr);
        push_be16(&mut out, self.authority_rr);
        push_be16(&mut out, self.additional_rr);
        proof {
            assert(out@ =~= spec_header_bytes(*self));
        }
        out
    }

    /// The header parsed back out of a received buffer.
    pub fn from_bytes(buffer: &[u8]) -> (r: Result<DnsHeader, DnsError>)
        ensures
            buffer@.len() >= 12 ==> r == Ok::<DnsHeader, DnsError>(spec_header(buffer@)),
            buffer@.len() < 12 ==> r == Err::<DnsHeader, DnsError>(DnsError::Truncated),
    {
        if buffer.len() < 12 {
            return Err(DnsError::Truncated);
        }
        Ok(DnsHeader {
            id: read_be16(buffer[0], buffer[1]),
            flags: read_be16(buffer[2], buffer[3]),
            questions: read_be16(buffer[4], buffer[5]),
            answer_rr: read_be16(buffer[6], buffer[7]),
            authority_rr: read_be16(buffer[8], buffer[9]),
            additional_rr: read_be16(buffer[10], buffer[11]),
        })
    }
}

/// The mathematical content of a question record.
pub ghost struct QuestionModel {
    pub query: Seq<u8>,
    pub qtype: QueryType,
    pub qclass: QueryClass,
}

/// One question: an encoded domain name (length-prefixed labels ending in a
/// zero byte), a query type and a query class.
#[derive(Debug, PartialEq, Eq)]
pub struct DnsQuestion {
    pub query: Vec<u8>,
    pub qtype: QueryType,
    pub qclass: QueryClass,
}

impl View for DnsQuestion {
    type V = QuestionModel;

    open spec fn view(&self) -> QuestionModel {
        QuestionModel { query: self.query@, qtype: self.qtype, qclass: self.qclass }
    }
}

/// The wire bytes of a question.
pub open spec fn spec_question_bytes(q: QuestionModel) -> Seq<u8> {
    q.query + be16_bytes(qtype_code(q.qtype)) + be16_bytes(qclass_code(q.qclass))
}

/// A question parsed at `off`: its raw name bytes run to the first zero
/// byte, the type and class fields follow it.
pub open spec fn spec_parse_question(b: Seq<u8>, off: int) -> Result<(QuestionModel, int), DnsError> {
    match crate::dns_name::first_zero_from(b, off) {
        None => Err(DnsError::Truncated),
        Some(z) => if z + 5 > b.len() {
            Err(DnsError::Truncated)
        } else {
            match qtype_from(be16(b[z + 1], b[z + 2])) {
                None => Err(DnsError::BadQueryType),
                Some(t) => match qclass_from(be16(b[z + 3], b[z + 4])) {
                    None => Err(DnsError::BadQueryClass),
                    Some(c) => Ok(
                        (QuestionModel { query: b.subrange(off, z + 1), qtype: t, qclass: c }, z + 5),
                    ),
                },
            }
        },
    }
}

/// The first zero byte of `buffer` at or after `from`, if any.
pub(crate) fn find_zero(buffer: &[u8], from: usize) -> (r: Option<usize>)
    ensures
        match r {
            Some(z) => crate::dns_name::first_zero_from(buffer@, from as int) == Some(z as int)
                && from <= z < buffer@.len(),
            None => crate::dns_name::first_zero_from(buffer@, from as int) is None,
        },
{
    let mut i: usize = from;
    while i < buffer.len()
        invariant
            from <= i,
            crate::dns_name::first_zero_from(buffer@, from as int) == crate::dns_name::first_zero_from(
                buffer@,
                i as int,
            ),
        decreases buffer@.len() - i,
    {
        if buffer[i] == 0 {
            return Some(i);
        }
        i = i + 1;
    }
    None
}

/// Decides the encoder's precondition: whether every dot-separated label of
/// `domain` fits the one length byte of the wire form.
pub fn labels_fit_check(domain: &[u8]) -> (r: bool)
    ensures
        r == labels_fit(domain@),
{
    let ghost d = domain@;
    let mut p: usize = 0;
    let ghost mut done: Seq<Seq<u8>> = Seq::empty();
    proof {
        assert(d.skip(0) =~= d);
        assert(done + spec_labels(d) =~= spec_labels(d));
    }
    loop
        invariant_except_break
            spec_labels(d) == done + spec_labels(d.skip(p as int)),
        invariant
            d == domain@,
            0 <= p <= d.len(),
            forall|k: int| 0 <= k < done.len() ==> (#[trigger] done[k]).len() <= 255,
        ensures
            spec_labels(d) == done,
            forall|k: int| 0 <= k < done.len() ==> (#[trigger] done[k]).len() <= 255,
        decreases d.len() - p,
    {
        let mut q: usize = p;
        while q < domain.len() && domain[q] != 46
            invariant
                d == domain@,
                p <= q <= d.len(),
                forall|t: int| p <= t < q ==> d[t] != 46,
            decreases d.len() - q,
        {
            q = q + 1;
        }
        let ghost e = d.skip(p as int);
        let ghost label = d.subrange(p as int, q as int);
        proof {
            assert(forall|t: int| 0 <= t < (q - p) ==> e[t] != 46);
            if q < d.len() {
                assert(e[(q - p) as int] == 46);
            }
            lemma_labels_leading(e, (q - p) as int);
            lemma_labels_nonempty(e);
            assert(e.take((q - p) as int) =~= label);
            if q == d.len() {
                assert(e =~= label);
            }
            assert(spec_labels(e)[0] == label);
            assert(spec_labels(d)[done.len() as int] == label);
        }
        if q - p > 255 {
            proof {
                assert(spec_labels(d).len() == done.len() + spec_labels(e).len());
                assert(!labels_fit(d));
            }
            return false;
        }
        proof {
            done = done.push(label);
        }
        if q == domain.len() {
            proof {
                assert(spec_labels(d) =~= done);
            }
            break;
        }
        proof {
            assert(e.skip((q - p) as int + 1) =~= d.skip(q as int + 1));
            assert(spec_labels(d) =~= done + spec_labels(d.skip(q as int + 1)));
        }
        p = q + 1;
    }
    proof {
        assert forall|i: int|
            0 <= i < spec_labels(d).len() implies (#[trigger] spec_labels(d)[i]).len() <= 255 by {
            assert(spec_labels(d)[i] == done[i]);
        }
    }
    true
}

impl DnsQuestion {
    /// Builds the question for `lookup` with type `qtype`, Internet class.
    pub fn new(lookup: &[u8], qtype: QueryType) -> (r: DnsQuestion)
        requires
            labels_fit(lookup@),
        ensures
            r@ == (QuestionModel {
                query: spec_encoded_name(lookup@),
                qtype,
                qclass: QueryClass::In,
            }),
    {
        let query = Self::encode_domain_name(lookup);
        DnsQuestion { query, qtype, qclass: QueryClass::In }
    }

    /// Encodes a dotted domain name as length-prefixed labels followed by a
    /// zero byte. Every label must fit its one length byte.
    pub fn encode_domain_name(domain: &[u8]) -> (r: Vec<u8>)
        requires
            labels_fit(domain@),
        ensures
            r@ == spec_encoded_name(domain@),
    {
        let ghost d = domain@;
        let mut out: Vec<u8> = Vec::new();
        let mut p: usize = 0;
        let ghost mut done: Seq<Seq<u8>> = Seq::empty();
        proof {
            assert(d.skip(0) =~= d);
            assert(done + spec_labels(d) =~= spec_labels(d));
            assert(out@ =~= spec_wire(done));
        }
        loop
            invariant_except_break
                spec_labels(d) == done + spec_labels(d.skip(p as int)),
            invariant
                d == domain@,
                labels_fit(d),
                0 <= p <= d.len(),
                out@ == spec_wire(done),
            ensures
                spec_labels(domain@) == done,
                out@ == spec_wire(done),
            decreases d.len() - p,
        {
            let mut q: usize = p;
            while q < domain.len() && domain[q] != 46
                invariant
                    d == domain@,
                    p <= q <= d.len(),
                    forall|t: int| p <= t < q ==> d[t] != 46,
                decreases d.len() - q,
            {
                q = q + 1;
            }
            let ghost e = d.skip(p as int);
            let ghost label = d.subrange(p as int, q as int);
            proof {
                assert(forall|t: int| 0 <= t < (q - p) ==> e[t] != 46);
                if q < d.len() {
                    assert(e[(q - p) as int] == 46);
                }
                lemma_labels_leading(e, (q - p) as int);
                lemma_labels_nonempty(e);
                assert(e.take((q - p) as int) =~= label);
                if q == d.len() {
                    assert(e =~= label);
                }
                assert(spec_labels(e)[0] == label);
                assert(spec_labels(d)[done.len() as int] == label);
                assert(label.len() <= 255);
            }
            let len_byte: u8 = (q - p) as u8;
            let ghost base = out@;
            out.push(len_byte);
            let mut j: usize = p;
            while j < q
                invariant
                    d == domain@,
                    p <= j <= q <= d.len(),
                    out@ == base + seq![len_byte] + d.subrange(p as int, j as int),
                decreases q - j,
            {
                let byte = domain[j];
                out.push(byte);
                proof {
                    assert(out@ =~= base + seq![len_byte] + d.subrange(p as int, j as int + 1));
                }
                j = j + 1;
            }
            proof {
                lemma_wire_push(done, label);
                assert(label.len() as u8 == len_byte);
                assert(out@ =~= spec_wire(done.push(label)));
                done = done.push(label);
            }
            if q == domain.len() {
                proof {
                    assert(spec_labels(d) =~= done);
                }
                break;
            }
            proof {
                assert(e.skip((q - p) as int + 1) =~= d.skip(q as int + 1));
                assert(spec_labels(d) =~= done + spec_labels(d.skip(q as int + 1)));
            }
            p = q + 1;
        }
        out.push(0);
        proof {
            assert(out@ =~= spec_encoded_name(d));
        }
        out
    }

    /// The question's wire bytes: name bytes, then type and class big-endian.
    pub fn to_bytes(&self) -> (r: Vec<u8>)
        ensures
            r@ == spec_question_bytes(self@),
    {
        let mut out: Vec<u8> = Vec::new();
        let mut i: usize = 0;
        while i < self.query.len()
            invariant
                i <= self.query@.len(),
                out@ == self.query@.take(i as int),
            decreases self.query@.len() - i,
        {
            out.push(self.query[i]);
            proof {
                assert(out@ =~= self.query@.take(i as int + 1));
            }
            i = i + 1;
        }
        proof {
            assert(out@ =~= self.query@);
        }
        push_be16(&mut out, self.qtype.to_u16());
        push_be16(&mut out, self.qclass.to_u16());
        proof {
            assert(out@ =~= spec_question_bytes(self@));
        }
        out
    }

    /// Parses the question at `off`, returning it with the offset just past
    /// its class field.
    pub fn from_bytes(buffer: &[u8], off: usize) -> (r: Result<(DnsQuestion, usize), DnsError>)
        ensures
            ({
                let s = spec_parse_question(buffer@, off as int);
                match r {
                    Ok((q, next)) => s is Ok && q@ == s->Ok_0.0 && next as int == s->Ok_0.1,
                    Err(e) => s is Err && e == s->Err_0,
                }
            }),
    {
        let z = match find_zero(buffer, off) {
            None => {
                return Err(DnsError::Truncated);
            },
            Some(z) => z,
        };
        if buffer.len() - z < 5 {
            return Err(DnsError::Truncated);
        }
        let qtype = match QueryType::from_u16(read_be16(buffer[z + 1], buffer[z + 2])) {
            None => {
                return Err(DnsError::BadQueryType);
            },
            Some(t) => t,
        };
        let qclass = match QueryClass::from_u16(read_be16(buffer[z + 3], buffer[z + 4])) {
            None => {
                return Err(DnsError::BadQueryClass);
            },
            Some(c) => c,
        };
        let mut query: Vec<u8> = Vec::new();
        let mut i: usize = off;
        while i <= z
            invariant
                off <= i <= z + 1 <= buffer@.len(),
                query@ == buffer@.subrange(off as int, i as int),
            decreases z + 1 - i,
        {
            query.push(buffer[i]);
            proof {
                assert(query@ =~= buffer@.subrange(off as int, i as int + 1));
            }
            i = i + 1;
        }
        Ok((DnsQuestion { query, qtype, qclass }, z + 5))
    }
}

/// A whole query message: header plus its questions.
#[derive(Debug, PartialEq, Eq)]
pub struct DnsQuery {
    pub header: DnsHeader,
    pub queries: Vec<DnsQuestion>,
}

/// The wire bytes of the first `n` questions of `qs`.
pub open spec fn spec_questions_bytes_to(qs: Seq<QuestionModel>, n: int) -> Seq<u8>
    decreases n,
{
    if n <= 0 {
        Seq::empty()
    } else {
        spec_questions_bytes_to(qs, n - 1) + spec_question_bytes(qs[n - 1])
    }
}

/// The models of a question vector.
pub open spec fn question_models(qs: Seq<DnsQuestion>) -> Seq<QuestionModel> {
    qs.map_values(|q: DnsQuestion| q@)
}

impl DnsQuery {
    /// A query for `lookup` with type `qtype`: a fresh query header and
    /// exactly one question.
    pub fn new_query(lookup: &[u8], qtype: QueryType) -> (r: DnsQuery)
        requires
            labels_fit(lookup@),
        ensures
            r.header.flags == 0x0100,
            r.header.questions == 1,
            r.header.answer_rr == 0,
            r.header.authority_rr == 0,
            r.header.additional_rr == 0,
            r.queries@.len() == 1,
            r.queries@[0]@ == (QuestionModel {
                query: spec_encoded_name(lookup@),
                qtype,
                qclass: QueryClass::In,
            }),
    {
        let header = DnsHeader::new_query();
        let mut queries: Vec<DnsQuestion> = Vec::new();
        let question = DnsQuestion::new(lookup, qtype);
        queries.push(question);
        DnsQuery { header, queries }
    }

    /// The message's wire bytes: the header, then each question in order.
    pub fn to_bytes(&self) -> (r: Vec<u8>)
        ensures
            r@ == spec_header_bytes(self.header) + spec_questions_bytes_to(
                question_models(self.queries@),
                self.queries@.len() as int,
            ),
    {
        let ghost models = question_models(self.queries@);
        let mut out: Vec<u8> = self.header.to_bytes();
        let mut i: usize = 0;
        while i < self.queries.len()
            invariant
                i <= self.queries@.len(),
                models == question_models(self.queries@),
                out@ == spec_header_bytes(self.header) + spec_questions_bytes_to(models, i as int),
            decreases self.queries@.len() - i,
        {
            let mut qb = self.queries[i].to_bytes();
            let mut k: usize = 0;
            let ghost base = out@;
            while k < qb.len()
                invariant
                    k <= qb@.len(),
                    out@ == base + qb@.take(k as int),
                decreases qb@.len() - k,
            {
                out.push(qb[k]);
                proof {
                    assert(out@ =~= base + qb@.take(k as int + 1));
                }
                k = k + 1;
            }
            proof {
                assert(qb@.take(qb@.len() as int) =~= qb@);
                assert(models[i as int] == self.queries@[i as int]@);
                assert(out@ =~= spec_header_bytes(self.header) + spec_questions_bytes_to(
                    models,
                    i as int + 1,
                ));
            }
            i = i + 1;
        }
        proof {
            assert(out@ =~= spec_header_bytes(self.header) + spec_questions_bytes_to(
                models,
                self.queries@.len() as int,
            ));
        }
        out
    }
}

/// The mathematical content of a typed answer payload.
pub ghost enum AnswerValue {
    V4(Seq<u8>),
    V6(Seq<u8>),
    Name(Seq<u8>),
}

/// An answer payload classified by its byte length alone: 4 bytes is an IPv4
/// address, 16 bytes an IPv6 address, anything else UTF-8 text, and text
/// that is not valid UTF-8 fails. No length silently becomes an address.
pub open spec fn spec_classify(rd: Seq<u8>) -> Result<AnswerValue, DnsError> {
    if rd.len() == 4 {
        Ok(AnswerValue::V4(rd))
    } else if rd.len() == 16 {
        Ok(AnswerValue::V6(rd))
    } else if is_utf8(rd) {
        Ok(AnswerValue::Name(rd))
    } else {
        Err(DnsError::InvalidText)
    }
}

/// A typed answer payload: an IPv4 address, an IPv6 address, or text.
#[derive(Debug, PartialEq, Eq)]
pub enum Answer {
    Ipv4([u8; 4]),
    Ipv6([u8; 16]),
    Name(Vec<u8>),
}

impl View for Answer {
    type V = AnswerValue;

    open spec fn view(&self) -> AnswerValue {
        match self {
            Answer::Ipv4(a) => AnswerValue::V4(a@),
            Answer::Ipv6(a) => AnswerValue::V6(a@),
            Answer::Name(v) => AnswerValue::Name(v@),
        }
    }
}

impl Answer {
    /// Classifies an answer payload by its length.
    pub fn new(payload: &[u8]) -> (r: Result<Answer, DnsError>)
        ensures
            ({
                let s = spec_classify(payload@);
                match r {
                    Ok(a) => s is Ok && a@ == s->Ok_0,
                    Err(e) => s is Err && e == s->Err_0,
                }
            }),
    {
        if payload.len() == 4 {
            let a = [payload[0], payload[1], payload[2], payload[3]];
            proof {
                assert(a@ =~= payload@);
            }
            Ok(Answer::Ipv4(a))
        } else if payload.len() == 16 {
            let a = [payload[0], payload[1], payload[2], payload[3], payload[4], payload[5],
                payload[6], payload[7], payload[8], payload[9], payload[10], payload[11],
                payload[12], payload[13], payload[14], payload[15]];
            proof {
                assert(a@ =~= payload@);
            }
            Ok(Answer::Ipv6(a))
        } else if utf8_check(payload) {
            let mut v: Vec<u8> = Vec::new();
            let mut i: usize = 0;
            while i < payload.len()
                invariant
                    i <= payload@.len(),
                    v@ == payload@.take(i as int),
                decreases payload@.len() - i,
            {
                v.push(payload[i]);
                proof {
                    assert(v@ =~= payload@.take(i as int + 1));
                }
                i = i + 1;
            }
            proof {
                assert(v@ =~= payload@);
            }
            Ok(Answer::Name(v))
        } else {
            Err(DnsError::InvalidText)
        }
    }
}

/// The mathematical content of an answer record.
pub ghost struct AnswerModel {
    pub name: Seq<u8>,
    pub qtype: QueryType,
    pub qclass: QueryClass,
    pub ttl: u32,
    pub data_len: u16,
    pub answer: AnswerValue,
}

/// One answer record: the dotted name it answers for, type, class, time to
/// live, payload length, and the classified payload.
#[derive(Debug, PartialEq, Eq)]
pub struct DnsAnswer {
    pub name: Vec<u8>,
    pub qtype: QueryType,
    pub qclass: QueryClass,
    pub ttl: u32,
    pub data_len: u16,
    pub answer: Answer,
}

impl View for DnsAnswer {
    type V = AnswerModel;

    open spec fn view(&self) -> AnswerModel {
        AnswerModel {
            name: self.name@,
            qtype: self.qtype,
            qclass: self.qclass,
            ttl: self.ttl,
            data_len: self.data_len,
            answer: self.answer@,
        }
    }
}

/// An answer record parsed at `off`. Its name must be a compression pointer
/// (top two bits of the leading byte set); the 14-bit pointer names where
/// the dotted name's labels start. Type, class, TTL and payload follow.
pub open spec fn spec_parse_answer(b: Seq<u8>, off: int) -> Result<(AnswerModel, int), DnsError> {
    if off < 0 || off + 2 > b.len() {
        Err(DnsError::Truncated)
    } else if b[off] & 0xC0 != 0xC0 {
        Err(DnsError::UnsupportedNameForm)
    } else {
        let ptr = be16(b[off], b[off + 1]) as int - 0xC000;
        match spec_name_at(b, ptr) {
            None => Err(DnsError::Truncated),
            Some(name) => {
                let p = off + 2;
                if p + 10 > b.len() {
                    Err(DnsError::Truncated)
                } else {
                    match qtype_from(be16(b[p], b[p + 1])) {
                        None => Err(DnsError::BadQueryType),
                        Some(t) => match qclass_from(be16(b[p + 2], b[p + 3])) {
                            None => Err(DnsError::BadQueryClass),
                            Some(c) => {
                                let ttl = be32(b[p + 4], b[p + 5], b[p + 6], b[p + 7]);
                                let dl = be16(b[p + 8], b[p + 9]) as int;
                                if p + 10 + dl > b.len() {
                                    Err(DnsError::Truncated)
                                } else {
                                    match spec_classify(b.subrange(p + 10, p + 10 + dl)) {
                                        Err(e) => Err(e),
                                        Ok(a) => Ok(
                                            (AnswerModel {
                                                name,
                                                qtype: t,
                                                qclass: c,
                                                ttl,
                                                data_len: dl as u16,
                                                answer: a,
                                            }, p + 10 + dl),
                                        ),
                                    }
                                }
                            },
                        },
                    }
                }
            },
        }
    }
}

impl DnsAnswer {
    /// Decodes the dotted name whose length-prefixed labels start at
    /// `offset`: labels up to the first zero byte, joined with dots.
    pub fn get_name(buffer: &[u8], offset: usize) -> (r: Result<Vec<u8>, DnsError>)
        ensures
            ({
                let s = spec_name_at(buffer@, offset as int);
                match r {
                    Ok(name) => s is Some && name@ == s->Some_0,
                    Err(e) => s is None && e == DnsError::Truncated,
                }
            }),
    {
        let ghost b = buffer@;
        let z = match find_zero(buffer, offset) {
            None => {
                return Err(DnsError::Truncated);
            },
            Some(z) => z,
        };
        let ghost region = b.subrange(offset as int, z as int);
        let mut name: Vec<u8> = Vec::new();
        let mut any: bool = false;
        let mut i: usize = offset;
        let ghost mut done: Seq<Seq<u8>> = Seq::empty();
        proof {
            assert(name@ =~= spec_join(done));
        }
        loop
            invariant_except_break
                match spec_parse_labels(b.subrange(i as int, z as int)) {
                    None => spec_parse_labels(region) is None,
                    Some(rest) => spec_parse_labels(region) == Some(done + rest),
                },
            invariant
                b == buffer@,
                offset <= i <= z < b.len(),
                first_zero_from(b, offset as int) == Some(z as int),
                region == b.subrange(offset as int, z as int),
                any <==> done.len() > 0,
                name@ == spec_join(done),
            ensures
                spec_parse_labels(region) == Some(done),
                name@ == spec_join(done),
            decreases z - i,
        {
            let ghost rcur = b.subrange(i as int, z as int);
            if i >= z {
                proof {
                    assert(rcur =~= Seq::<u8>::empty());
                    assert(spec_parse_labels(rcur) == Some(Seq::<Seq<u8>>::empty()));
                    assert(done + Seq::<Seq<u8>>::empty() =~= done);
                }
                break;
            }
            let length = buffer[i] as usize;
            proof {
                assert(rcur[0] == b[i as int]);
            }
            if z - i < 1 + length {
                proof {
                    assert(1 + rcur[0] as int > rcur.len());
                    assert(spec_parse_labels(rcur) is None);
                }
                return Err(DnsError::Truncated);
            }
            if any {
                name.push(46);
            }
            let ghost label = b.subrange(i as int + 1, i as int + 1 + length as int);
            let ghost base = name@;
            let mut j: usize = i + 1;
            while j < i + 1 + length
                invariant
                    b == buffer@,
                    i + 1 <= j <= i + 1 + length <= z <= b.len(),
                    name@ == base + b.subrange(i as int + 1, j as int),
                decreases i + 1 + length - j,
            {
                name.push(buffer[j]);
                proof {
                    assert(name@ =~= base + b.subrange(i as int + 1, j as int + 1));
                }
                j = j + 1;
            }
            proof {
                lemma_join_push(done, label);
                if done.len() == 0 {
                    assert(base =~= Seq::<u8>::empty());
                    assert(name@ =~= spec_join(done.push(label)));
                } else {
                    assert(base =~= spec_join(done) + seq![46u8]);
                    assert(name@ =~= spec_join(done.push(label)));
                }
                // one parsing step consumes the length byte and the label
                assert(1 + length as int <= rcur.len());
                assert(rcur.subrange(1, 1 + length as int) =~= label);
                assert(rcur.skip(1 + length as int) =~= b.subrange(i as int + 1 + length as int,
                    z as int));
                match spec_parse_labels(b.subrange(i as int + 1 + length as int, z as int)) {
                    None => {
                        assert(spec_parse_labels(rcur) is None);
                    },
                    Some(rest) => {
                        assert(spec_parse_labels(rcur) == Some(seq![label] + rest));
                        assert(done + (seq![label] + rest) =~= done.push(label) + rest);
                    },
                }
                done = done.push(label);
            }
            any = true;
            i = i + 1 + length;
        }
        proof {
            assert(spec_name_at(b, offset as int) == Some(name@));
        }
        Ok(name)
    }

    /// Parses the answer record at `off`, whose name field is a compression
    /// pointer, returning it with the offset just past its payload.
    pub fn parse_name_ptr(buffer: &[u8], off: usize) -> (r: Result<(DnsAnswer, usize), DnsError>)
        requires
            off + 2 <= buffer@.len(),
            buffer@[off as int] & 0xC0 == 0xC0,
        ensures
            ({
                let s = spec_parse_answer(buffer@, off as int);
                match r {
                    Ok((a, next)) => s is Ok && a@ == s->Ok_0.0 && next as int == s->Ok_0.1,
                    Err(e) => s is Err && e == s->Err_0,
                }
            }),
    {
        let b0 = buffer[off];
        proof {
            assert(b0 & 0xC0 == 0xC0 ==> b0 >= 0xC0) by (bit_vector);
        }
        let ptr_raw = read_be16(buffer[off], buffer[off + 1]);
        let ptr = (ptr_raw - 0xC000) as usize;
        let name = match Self::get_name(buffer, ptr) {
            Err(e) => {
                return Err(e);
            },
            Ok(n) => n,
        };
        let p = off + 2;
        if buffer.len() - p < 10 {
            return Err(DnsError::Truncated);
        }
        let qtype = match QueryType::from_u16(read_be16(buffer[p], buffer[p + 1])) {
            None => {
                return Err(DnsError::BadQueryType);
            },
            Some(t) => t,
        };
        let qclass = match QueryClass::from_u16(read_be16(buffer[p + 2], buffer[p + 3])) {
            None => {
                return Err(DnsError::BadQueryClass);
            },
            Some(c) => c,
        };
        let ttl = read_be32(buffer[p + 4], buffer[p + 5], buffer[p + 6], buffer[p + 7]);
        let data_len = read_be16(buffer[p + 8], buffer[p + 9]);
        if buffer.len() - (p + 10) < data_len as usize {
            return Err(DnsError::Truncated);
        }
        let mut rdata: Vec<u8> = Vec::new();
        let end: usize = p + 10 + data_len as usize;
        let mut k: usize = p + 10;
        while k < end
            invariant
                p + 10 <= k <= end as int <= buffer@.len(),
                end == p + 10 + data_len as int,
                rdata@ == buffer@.subrange(p as int + 10, k as int),
            decreases end as int - k,
        {
            rdata.push(buffer[k]);
            proof {
                assert(rdata@ =~= buffer@.subrange(p as int + 10, k as int + 1));
            }
            k = k + 1;
        }
        let answer = match Answer::new(rdata.as_slice()) {
            Err(e) => {
                return Err(e);
            },
            Ok(a) => a,
        };
        Ok((DnsAnswer { name, qtype, qclass, ttl, data_len, answer }, p + 10 + data_len as usize))
    }

    /// Parses the answer record at `off`: a record whose name field starts
    /// with literal labels instead of a pointer is unsupported and fails.
    pub fn from_bytes(buffer: &[u8], off: usize) -> (r: Result<(DnsAnswer, usize), DnsError>)
        ensures
            ({
                let s = spec_parse_answer(buffer@, off as int);
                match r {
                    Ok((a, next)) => s is Ok && a@ == s->Ok_0.0 && next as int == s->Ok_0.1,
                    Err(e) => s is Err && e == s->Err_0,
                }
            }),
    {
        if buffer.len() < 2 || off > buffer.len() - 2 {
            return Err(DnsError::Truncated);
        }
        if buffer[off] & 0xC0 != 0xC0 {
            return Err(DnsError::UnsupportedNameForm);
        }
        Self::parse_name_ptr(buffer, off)
    }
}

/// The mathematical content of a whole response message.
pub ghost struct ResponseModel {
    pub header: DnsHeader,
    pub questions: Seq<QuestionModel>,
    pub answers: Seq<AnswerModel>,
    pub authority_rr: Seq<AnswerModel>,
    pub additional_rr: Seq<AnswerModel>,
}

/// A decoded response: the header and the positionally parsed question,
/// answer, authority and additional records, fully owned.
#[derive(Debug, PartialEq, Eq)]
pub struct DnsResponse {
    pub header: DnsHeader,
    pub questions: Vec<DnsQuestion>,
    pub answers: Vec<DnsAnswer>,
    pub authority_rr: Vec<DnsAnswer>,
    pub additional_rr: Vec<DnsAnswer>,
}

/// The models of an answer vector.
pub open spec fn answer_models(a: Seq<DnsAnswer>) -> Seq<AnswerModel> {
    a.map_values(|x: DnsAnswer| x@)
}

impl View for DnsResponse {
    type V = ResponseModel;

    open spec fn view(&self) -> ResponseModel {
        ResponseModel {
            header: self.header,
            questions: question_models(self.questions@),
            answers: answer_models(self.answers@),
            authority_rr: answer_models(self.authority_rr@),
            additional_rr: answer_models(self.additional_rr@),
        }
    }
}

/// `n` questions parsed in sequence from `off`.
pub open spec fn spec_parse_questions(b: Seq<u8>, off: int, n: nat) -> Result<
    (Seq<QuestionModel>, int),
    DnsError,
>
    decreases n,
{
    if n == 0 {
        Ok((Seq::empty(), off))
    } else {
        match spec_parse_question(b, off) {
            Err(e) => Err(e),
            Ok((q, o2)) => match spec_parse_questions(b, o2, (n - 1) as nat) {
                Err(e) => Err(e),
                Ok((qs, o3)) => Ok((seq![q] + qs, o3)),
            },
        }
    }
}

/// `n` answer records parsed in sequence from `off`.
pub open spec fn spec_parse_answers(b: Seq<u8>, off: int, n: nat) -> Result<
    (Seq<AnswerModel>, int),
    DnsError,
>
    decreases n,
{
    if n == 0 {
        Ok((Seq::empty(), off))
    } else {
        match spec_parse_answer(b, off) {
            Err(e) => Err(e),
            Ok((a, o2)) => match spec_parse_answers(b, o2, (n - 1) as nat) {
                Err(e) => Err(e),
                Ok((ans, o3)) => Ok((seq![a] + ans, o3)),
            },
        }
    }
}

/// A whole response parsed from a receive buffer: the 12-byte header, then
/// as many questions and answer, authority and additional records as the
/// header counts promise, positionally.
pub open spec fn spec_parse_response(b: Seq<u8>) -> Result<ResponseModel, DnsError> {
    if b.len() < 12 {
        Err(DnsError::Truncated)
    } else {
        let h = spec_header(b);
        match spec_parse_questions(b, 12, h.questions as nat) {
            Err(e) => Err(e),
            Ok((qs, o1)) => match spec_parse_answers(b, o1, h.answer_rr as nat) {
                Err(e) => Err(e),
                Ok((ans, o2)) => match spec_parse_answers(b, o2, h.authority_rr as nat) {
                    Err(e) => Err(e),
                    Ok((auth, o3)) => match spec_parse_answers(b, o3, h.additional_rr as nat) {
                        Err(e) => Err(e),
                        Ok((add, _)) => Ok(
                            ResponseModel {
                                header: h,
                                questions: qs,
                                answers: ans,
                                authority_rr: auth,
                                additional_rr: add,
                            },
                        ),
                    },
                },
            },
        }
    }
}

impl DnsResponse {
    /// Parses `n` questions starting at `offset`.
    pub fn parse_questions(buffer: &[u8], offset: usize, n: u16) -> (r: Result<
        (Vec<DnsQuestion>, usize),
        DnsError,
    >)
        ensures
            ({
                let s = spec_parse_questions(buffer@, offset as int, n as nat);
                match r {
                    Ok((qs, next)) => s is Ok && question_models(qs@) == s->Ok_0.0 && next as int
                        == s->Ok_0.1,
                    Err(e) => s is Err && e == s->Err_0,
                }
            }),
    {
        let ghost b = buffer@;
        let mut qs: Vec<DnsQuestion> = Vec::new();
        let mut off: usize = offset;
        let mut i: u16 = 0;
        proof {
            let s = spec_parse_questions(b, offset as int, n as nat);
            if s is Ok {
                assert(question_models(qs@) + s->Ok_0.0 =~= s->Ok_0.0);
            }
        }
        while i < n
            invariant
                b == buffer@,
                i <= n,
                match spec_parse_questions(b, off as int, (n - i) as nat) {
                    Err(e) => spec_parse_questions(b, offset as int, n as nat) == Err::<
                        (Seq<QuestionModel>, int),
                        DnsError,
                    >(e),
                    Ok((rest, end)) => spec_parse_questions(b, offset as int, n as nat) == Ok::<
                        (Seq<QuestionModel>, int),
                        DnsError,
                    >((question_models(qs@) + rest, end)),
                },
            decreases n - i,
        {
            match DnsQuestion::from_bytes(buffer, off) {
                Err(e) => {
                    return Err(e);
                },
                Ok((q, next)) => {
                    proof {
                        match spec_parse_questions(b, next as int, (n - i - 1) as nat) {
                            Err(_) => {},
                            Ok((rest2, _)) => {
                                assert(question_models(qs@.push(q)) =~= question_models(
                                    qs@,
                                ).push(q@));
                                assert(question_models(qs@) + (seq![q@] + rest2)
                                    =~= question_models(qs@.push(q)) + rest2);
                            },
                        }
                    }
                    qs.push(q);
                    off = next;
                    i = i + 1;
                },
            }
        }
        proof {
            assert(question_models(qs@) + Seq::<QuestionModel>::empty() =~= question_models(qs@));
        }
        Ok((qs, off))
    }

    /// Parses `n` answer records starting at `offset`.
    pub fn parse_answers(buffer: &[u8], offset: usize, n: u16) -> (r: Result<
        (Vec<DnsAnswer>, usize),
        DnsError,
    >)
        ensures
            ({
                let s = spec_parse_answers(buffer@, offset as int, n as nat);
                match r {
                    Ok((ans, next)) => s is Ok && answer_models(ans@) == s->Ok_0.0 && next as int
                        == s->Ok_0.1,
                    Err(e) => s is Err && e == s->Err_0,
                }
            }),
    {
        let ghost b = buffer@;
        let mut ans: Vec<DnsAnswer> = Vec::new();
        let mut off: usize = offset;
        let mut i: u16 = 0;
        proof {
            let s = spec_parse_answers(b, offset as int, n as nat);
            if s is Ok {
                assert(answer_models(ans@) + s->Ok_0.0 =~= s->Ok_0.0);
            }
        }
        while i < n
            invariant
                b == buffer@,
                i <= n,
                match spec_parse_answers(b, off as int, (n - i) as nat) {
                    Err(e) => spec_parse_answers(b, offset as int, n as nat) == Err::<
                        (Seq<AnswerModel>, int),
                        DnsError,
                    >(e),
                    Ok((rest, end)) => spec_parse_answers(b, offset as int, n as nat) == Ok::<
                        (Seq<AnswerModel>, int),
                        DnsError,
                    >((answer_models(ans@) + rest, end)),
                },
            decreases n - i,
        {
            match DnsAnswer::from_bytes(buffer, off) {
                Err(e) => {
                    return Err(e);
                },
                Ok((a, next)) => {
                    proof {
                        match spec_parse_answers(b, next as int, (n - i - 1) as nat) {
                            Err(_) => {},
                            Ok((rest2, _)) => {
                                assert(answer_models(ans@.push(a)) =~= answer_models(ans@).push(
                                    a@,
                                ));
                                assert(answer_models(ans@) + (seq![a@] + rest2) =~= answer_models(
                                    ans@.push(a),
                                ) + rest2);
                            },
                        }
                    }
                    ans.push(a);
                    off = next;
                    i = i + 1;
                },
            }
        }
        proof {
            assert(answer_models(ans@) + Seq::<AnswerModel>::empty() =~= answer_models(ans@));
        }
        Ok((ans, off))
    }

    /// Decodes a whole response buffer.
    pub fn from_bytes(buffer: &[u8]) -> (r: Result<DnsResponse, DnsError>)
        ensures
            ({
                let s = spec_parse_response(buffer@);
                match r {
                    Ok(resp) => s is Ok && resp@ == s->Ok_0,
                    Err(e) => s is Err && e == s->Err_0,
                }
            }),
    {
        let header = match DnsHeader::from_bytes(buffer) {
            Err(e) => {
                return Err(e);
            },
            Ok(h) => h,
        };
        let (questions, o1) = match Self::parse_questions(buffer, 12, header.questions) {
            Err(e) => {
                return Err(e);
            },
            Ok(x) => x,
        };
        let (answers, o2) = match Self::parse_answers(buffer, o1, header.answer_rr) {
            Err(e) => {
                return Err(e);
            },
            Ok(x) => x,
        };
        let (authority_rr, o3) = match Self::parse_answers(buffer, o2, header.authority_rr) {
            Err(e) => {
                return Err(e);
            },
            Ok(x) => x,
        };
        let (additional_rr, _o4) = match Self::parse_answers(buffer, o3, header.additional_rr) {
            Err(e) => {
                return Err(e);
            },
            Ok(x) => x,
        };
        Ok(DnsResponse { header, questions, answers, authority_rr, additional_rr })
    }
}

} // verus!
