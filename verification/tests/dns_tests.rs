use rping::dns::{
    Answer, DnsAnswer, DnsError, DnsHeader, DnsQuery, DnsQuestion, DnsResponse, QueryClass,
    QueryType,
};

#[test]
fn query_type_from_u16_recognises_the_four_types() {
    assert_eq!(QueryType::from_u16(1), Some(QueryType::A));
    assert_eq!(QueryType::from_u16(2), Some(QueryType::Ns));
    assert_eq!(QueryType::from_u16(28), Some(QueryType::Aaaa));
    assert_eq!(QueryType::from_u16(12), Some(QueryType::Ptr));
    assert_eq!(QueryType::from_u16(0), None);
    assert_eq!(QueryType::from_u16(255), None);
}

#[test]
fn query_class_from_u16_recognises_only_internet() {
    assert_eq!(QueryClass::from_u16(1), Some(QueryClass::In));
    assert_eq!(QueryClass::from_u16(2), None);
}

#[test]
fn labels_fit_check_accepts_ordinary_names_and_rejects_huge_labels() {
    assert!(rping::dns::labels_fit_check(b"www.example.com"));
    assert!(rping::dns::labels_fit_check(b""));
    let mut long = vec![b'a'; 256];
    assert!(!rping::dns::labels_fit_check(&long));
    long.extend_from_slice(b".com");
    assert!(!rping::dns::labels_fit_check(&long));
    assert!(rping::dns::labels_fit_check(&vec![b'a'; 255]));
}

#[test]
fn encode_domain_name_length_prefixes_each_label() {
    let enc = DnsQuestion::encode_domain_name(b"www.example.com");
    let expected: Vec<u8> = vec![
        3, b'w', b'w', b'w', 7, b'e', b'x', b'a', b'm', b'p', b'l', b'e', 3, b'c', b'o', b'm', 0,
    ];
    assert_eq!(enc, expected);
}

#[test]
fn encode_domain_name_of_empty_string_is_one_empty_label() {
    assert_eq!(DnsQuestion::encode_domain_name(b""), vec![0, 0]);
}

#[test]
fn domain_name_round_trips_through_encode_and_decode() {
    let enc = DnsQuestion::encode_domain_name(b"www.example.com");
    let name = DnsAnswer::get_name(&enc, 0).unwrap();
    assert_eq!(name, b"www.example.com".to_vec());
}

#[test]
fn get_name_without_terminator_is_truncated() {
    assert_eq!(DnsAnswer::get_name(&[3, b'a', b'b', b'c'], 0), Err(DnsError::Truncated));
}

#[test]
fn get_name_with_overrunning_label_is_truncated() {
    // length byte 9 but only two bytes before the terminator
    assert_eq!(DnsAnswer::get_name(&[9, b'a', b'b', 0], 0), Err(DnsError::Truncated));
}

#[test]
fn new_query_header_counts_one_question_and_no_records() {
    let h = DnsHeader::new_query();
    assert_eq!(h.flags, 0x0100);
    assert_eq!(h.questions, 1);
    assert_eq!(h.answer_rr, 0);
    assert_eq!(h.authority_rr, 0);
    assert_eq!(h.additional_rr, 0);
}

#[test]
fn header_round_trips_through_bytes() {
    let h = DnsHeader {
        id: 0xBEEF,
        flags: 0x8180,
        questions: 1,
        answer_rr: 2,
        authority_rr: 3,
        additional_rr: 4,
    };
    let bytes = h.to_bytes();
    assert_eq!(bytes.len(), 12);
    assert_eq!(DnsHeader::from_bytes(&bytes), Ok(h));
}

#[test]
fn header_shorter_than_twelve_bytes_is_truncated() {
    assert_eq!(DnsHeader::from_bytes(&[0u8; 11]), Err(DnsError::Truncated));
}

#[test]
fn question_to_bytes_appends_type_and_class() {
    let q = DnsQuestion::new(b"ab.cd", QueryType::Aaaa);
    let expected: Vec<u8> = vec![2, b'a', b'b', 2, b'c', b'd', 0, 0, 28, 0, 1];
    assert_eq!(q.to_bytes(), expected);
}

#[test]
fn question_from_bytes_reads_name_type_and_class() {
    let buf: Vec<u8> = vec![3, b'f', b'o', b'o', 0, 0, 1, 0, 1, 9, 9];
    let (q, next) = DnsQuestion::from_bytes(&buf, 0).unwrap();
    assert_eq!(q.query, vec![3, b'f', b'o', b'o', 0]);
    assert_eq!(q.qtype, QueryType::A);
    assert_eq!(q.qclass, QueryClass::In);
    assert_eq!(next, 9);
}

#[test]
fn query_to_bytes_is_header_then_question() {
    let query = DnsQuery::new_query(b"example.com", QueryType::A);
    let bytes = query.to_bytes();
    // the transaction id (first two bytes) is random; all else is fixed
    let expected_after_id: Vec<u8> = vec![
        0x01, 0x00, 0, 1, 0, 0, 0, 0, 0, 0, // flags and the four counts
        7, b'e', b'x', b'a', b'm', b'p', b'l', b'e', 3, b'c', b'o', b'm', 0, // the name
        0, 1, 0, 1, // type A, class IN
    ];
    assert_eq!(bytes.len(), 12 + 13 + 4);
    assert_eq!(&bytes[2..], &expected_after_id[..]);
}

#[test]
fn four_byte_payload_is_always_an_ipv4_answer() {
    assert_eq!(Answer::new(&[1, 2, 3, 4]), Ok(Answer::Ipv4([1, 2, 3, 4])));
}

#[test]
fn sixteen_byte_payload_is_always_an_ipv6_answer() {
    let p: Vec<u8> = (1..=16).collect();
    let a = Answer::new(&p).unwrap();
    assert_eq!(
        a,
        Answer::Ipv6([1, 2, 3, 4, 5, 6, 7, 8, 9, 10, 11, 12, 13, 14, 15, 16])
    );
}

#[test]
fn other_length_payload_is_text_when_utf8() {
    assert_eq!(Answer::new(b"hi"), Ok(Answer::Name(b"hi".to_vec())));
}

#[test]
fn other_length_payload_fails_on_invalid_utf8() {
    assert_eq!(Answer::new(&[0xFF, 0xFE, 0x80]), Err(DnsError::InvalidText));
}

/// A response buffer with one question and one A answer whose name is a
/// compression pointer back to offset 12.
fn one_answer_response(rdata: &[u8], qtype_code: u8) -> Vec<u8> {
    let mut buf: Vec<u8> = vec![
        0x12, 0x34, // id
        0x81, 0x80, // flags
        0, 1, // questions
        0, 1, // answer records
        0, 0, // authority records
        0, 0, // additional records
    ];
    buf.extend_from_slice(&[7, b'e', b'x', b'a', b'm', b'p', b'l', b'e', 3, b'c', b'o', b'm', 0]);
    buf.extend_from_slice(&[0, 1, 0, 1]); // question type A, class IN
    buf.extend_from_slice(&[0xC0, 12]); // pointer to offset 12
    buf.extend_from_slice(&[0, qtype_code, 0, 1]); // answer type, class IN
    buf.extend_from_slice(&[0, 0, 1, 44]); // ttl 300
    buf.extend_from_slice(&[0, rdata.len() as u8]);
    buf.extend_from_slice(rdata);
    buf
}

#[test]
fn response_with_pointer_name_and_four_byte_rdata_decodes_to_ipv4() {
    let buf = one_answer_response(&[93, 184, 216, 34], 1);
    let resp = DnsResponse::from_bytes(&buf).unwrap();
    assert_eq!(resp.header.id, 0x1234);
    assert_eq!(resp.header.questions, 1);
    assert_eq!(resp.header.answer_rr, 1);
    assert_eq!(resp.questions.len(), 1);
    assert_eq!(resp.questions[0].qtype, QueryType::A);
    assert_eq!(resp.answers.len(), 1);
    let a = &resp.answers[0];
    assert_eq!(a.name, b"example.com".to_vec());
    assert_eq!(a.qtype, QueryType::A);
    assert_eq!(a.ttl, 300);
    assert_eq!(a.data_len, 4);
    assert_eq!(a.answer, Answer::Ipv4([93, 184, 216, 34]));
    assert!(resp.authority_rr.is_empty());
    assert!(resp.additional_rr.is_empty());
}

#[test]
fn response_answer_with_sixteen_byte_rdata_decodes_to_ipv6() {
    let rdata: Vec<u8> = (1..=16).collect();
    let buf = one_answer_response(&rdata, 28);
    let resp = DnsResponse::from_bytes(&buf).unwrap();
    assert_eq!(
        resp.answers[0].answer,
        Answer::Ipv6([1, 2, 3, 4, 5, 6, 7, 8, 9, 10, 11, 12, 13, 14, 15, 16])
    );
}

#[test]
fn response_answer_with_invalid_utf8_text_fails_decoding() {
    let buf = one_answer_response(&[0xFF, 0xFE, 0x80], 1);
    assert_eq!(DnsResponse::from_bytes(&buf), Err(DnsError::InvalidText));
}

#[test]
fn response_answer_with_literal_label_name_is_unsupported() {
    let mut buf = one_answer_response(&[93, 184, 216, 34], 1);
    buf[29] = 7; // the answer's name starts with a literal label, not a pointer
    assert_eq!(DnsResponse::from_bytes(&buf), Err(DnsError::UnsupportedNameForm));
}

#[test]
fn response_answer_with_unknown_type_fails() {
    let buf = one_answer_response(&[93, 184, 216, 34], 99);
    assert_eq!(DnsResponse::from_bytes(&buf), Err(DnsError::BadQueryType));
}

#[test]
fn response_answer_with_unknown_class_fails() {
    let mut buf = one_answer_response(&[93, 184, 216, 34], 1);
    buf[34] = 9; // the answer's class field becomes 9, not IN
    assert_eq!(DnsResponse::from_bytes(&buf), Err(DnsError::BadQueryClass));
}

#[test]
fn response_with_zero_answers_yields_empty_answer_list() {
    let mut buf: Vec<u8> = vec![0x12, 0x34, 0x81, 0x80, 0, 1, 0, 0, 0, 0, 0, 0];
    buf.extend_from_slice(&[7, b'e', b'x', b'a', b'm', b'p', b'l', b'e', 3, b'c', b'o', b'm', 0]);
    buf.extend_from_slice(&[0, 1, 0, 1]);
    let resp = DnsResponse::from_bytes(&buf).unwrap();
    assert!(resp.answers.is_empty());
}

#[test]
fn truncated_answer_record_fails() {
    let mut buf = one_answer_response(&[93, 184, 216, 34], 1);
    buf.truncate(buf.len() - 2); // cut into the rdata
    assert_eq!(DnsResponse::from_bytes(&buf), Err(DnsError::Truncated));
}
