use hickory_proto::op::{Message, MessageType, OpCode, Query, ResponseCode};
use hickory_proto::rr::{Name, RData, RecordType};
use tailsvc::dns::{DnsRegistry, DnsServerConfig, Endpoint};
use tailsvc::dns_wire::{
    a_record, finish_request, local_result, reply_for, start_request, DnsRecord, QuestionPlan, QuestionResult,
    RequestStart,
};

fn ep(ip: &str, port: u16) -> Endpoint {
    Endpoint { ip: ip.into(), port }
}

fn config() -> DnsServerConfig {
    DnsServerConfig::with_defaults(ep("127.0.0.1", 5353), vec![ep("1.1.1.1", 53)], 5, 2000)
}

fn registry() -> DnsRegistry {
    let mut r = DnsRegistry::new();
    r.replace(vec![("wire-a.internal".to_string(), (100, 64, 0, 77))]);
    r
}

fn request(id: u16, name: &str, qtype: RecordType) -> Vec<u8> {
    let mut m = Message::new();
    m.set_id(id).set_message_type(MessageType::Query).set_op_code(OpCode::Query).set_recursion_desired(true);
    m.add_query(Query::query(Name::from_ascii(name).unwrap(), qtype));
    m.to_vec().unwrap()
}

fn answer_locally(wire: &[u8]) -> Vec<u8> {
    match start_request(wire, Some(&ep("100.64.0.9", 40000)), &config(), &registry()) {
        RequestStart::Pending(q, plans) => {
            let results: Vec<QuestionResult> = plans.iter().map(|p| local_result(p).expect("local")).collect();
            finish_request(&q, &results).expect("encodes")
        }
        other => panic!("unexpected {other:?}"),
    }
}

#[test]
fn a_reply_keeps_id_flags_and_question() {
    let bytes = answer_locally(&request(0x1234, "wire-a.internal.", RecordType::A));
    let m = Message::from_vec(&bytes).unwrap();
    assert_eq!(m.id(), 0x1234);
    assert_eq!(m.message_type(), MessageType::Response);
    assert!(m.recursion_desired());
    assert!(m.recursion_available());
    assert_eq!(m.response_code(), ResponseCode::NoError);
    assert_eq!(m.queries().len(), 1);
    assert_eq!(m.queries()[0].name().to_ascii(), "wire-a.internal.");
    assert_eq!(m.queries()[0].query_type(), RecordType::A);
    assert_eq!(m.answers().len(), 1);
    assert_eq!(m.answers()[0].ttl(), 5);
    match m.answers()[0].data() {
        RData::A(a) => assert_eq!(a.0.octets(), [100, 64, 0, 77]),
        other => panic!("expected an A record, got {other:?}"),
    }
}

#[test]
fn aaaa_reply_is_nodata_with_question() {
    let bytes = answer_locally(&request(7, "wire-a.internal.", RecordType::AAAA));
    let m = Message::from_vec(&bytes).unwrap();
    assert_eq!(m.response_code(), ResponseCode::NoError);
    assert!(m.answers().is_empty());
    assert_eq!(m.queries().len(), 1);
    assert_eq!(m.queries()[0].query_type(), RecordType::AAAA);
    assert!(bytes.len() >= 30);
}

#[test]
fn other_names_go_upstream() {
    match start_request(&request(9, "example.com.", RecordType::A), None, &config(), &registry()) {
        RequestStart::Pending(q, plans) => {
            assert_eq!(q.questions.len(), 1);
            assert_eq!(q.questions[0].name, "example.com.");
            assert!(matches!(plans[0], QuestionPlan::Forward));
            assert!(local_result(&plans[0]).is_none());
            let bytes = finish_request(&q, &[QuestionResult::Failed]).unwrap();
            let m = Message::from_vec(&bytes).unwrap();
            assert_eq!(m.response_code(), ResponseCode::ServFail);
            assert_eq!(m.queries().len(), 1);
        }
        other => panic!("unexpected {other:?}"),
    }
}

#[test]
fn upstream_records_are_passed_on() {
    let q = match start_request(&request(11, "example.com.", RecordType::A), None, &config(), &registry()) {
        RequestStart::Pending(q, _) => q,
        other => panic!("unexpected {other:?}"),
    };
    let rec = DnsRecord { name: "example.com.".into(), rtype: 1, rclass: 1, ttl: 60, rdata: vec![93, 184, 216, 34] };
    let bytes = finish_request(&q, &[QuestionResult::Records(vec![rec], 0)]).unwrap();
    let m = Message::from_vec(&bytes).unwrap();
    assert_eq!(m.answers().len(), 1);
    assert_eq!(m.answers()[0].ttl(), 60);
    let bad = DnsRecord { name: "example.com.".into(), rtype: 1, rclass: 1, ttl: 60, rdata: vec![1, 2, 3] };
    assert!(finish_request(&q, &[QuestionResult::Records(vec![bad], 0)]).is_none());
    let nx = finish_request(&q, &[QuestionResult::Records(vec![], 3)]).unwrap();
    assert_eq!(Message::from_vec(&nx).unwrap().response_code(), ResponseCode::NXDomain);
}

#[test]
fn own_address_is_refused_and_junk_is_dropped() {
    match start_request(&request(5, "example.com.", RecordType::A), Some(&ep("127.0.0.1", 5353)), &config(), &registry()) {
        RequestStart::Done(Some(bytes)) => {
            let m = Message::from_vec(&bytes).unwrap();
            assert_eq!(m.id(), 5);
            assert_eq!(m.response_code(), ResponseCode::Refused);
            assert_eq!(m.queries().len(), 1);
        }
        other => panic!("unexpected {other:?}"),
    }
    assert!(matches!(start_request(&[1, 2, 3], None, &config(), &registry()), RequestStart::Malformed));
}

#[test]
fn reply_parts() {
    let q = match start_request(&request(77, "wire-a.internal.", RecordType::A), None, &config(), &registry()) {
        RequestStart::Pending(q, _) => q,
        other => panic!("unexpected {other:?}"),
    };
    let r = reply_for(&q, 3, vec![vec![1, 2, 3]]);
    assert_eq!((r.id, r.op_code, r.recursion_desired, r.recursion_available, r.rcode), (77, 0, true, true, 3));
    assert_eq!(r.questions.len(), 1);
    assert_eq!(r.questions[0].name, "wire-a.internal.");
    assert_eq!((r.questions[0].qtype, r.questions[0].qclass), (1, 1));
    assert_eq!(r.answers, vec![vec![1u8, 2, 3]]);
    let a = a_record("wire-a.internal.", (100, 64, 0, 77), 5);
    assert_eq!(a.rdata, vec![100, 64, 0, 77]);
    assert_eq!((a.rtype, a.rclass, a.ttl), (1, 1, 5));
}
