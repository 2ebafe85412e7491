//! DNS messages on the wire: a request is decoded, planned question by
//! question, and answered with a reply that keeps the request's id, op code,
//! recursion-desired flag and questions. Decoding and encoding are hickory's;
//! what the reply holds is decided and stated here.

use vstd::prelude::*;
use crate::dns::{
    loop_guard, loop_guard_spec, plan_query, registry_key, response_code, response_code_spec, DnsRegistry,
    DnsServerConfig, Endpoint, QueryOutcome, QueryPlan, RCODE_NOERROR, RTYPE_A, RTYPE_AAAA,
};
use crate::net::Ipv4;
use hickory_proto::op::{Message, OpCode, Query};
use hickory_proto::rr::{Name, RData, Record};
use hickory_proto::serialize::binary::{BinDecodable, BinDecoder, BinEncodable, Restrict};

verus! {

/// The DNS class IN.
pub const CLASS_IN: u16 = 1;

/// One question of a message: name (ASCII, as hickory prints it), type, class.
#[derive(Clone, Debug)]
pub struct DnsQuestion {
    pub name: String,
    pub qtype: u16,
    pub qclass: u16,
}

/// The parts of a request that the reply keeps or answers.
#[derive(Clone, Debug)]
pub struct DnsQuery {
    pub id: u16,
    pub op_code: u8,
    pub recursion_desired: bool,
    pub questions: Vec<DnsQuestion>,
}

/// One resource record: owner name, type, class, TTL and the record data bytes.
#[derive(Clone, Debug)]
pub struct DnsRecord {
    pub name: String,
    pub rtype: u16,
    pub rclass: u16,
    pub ttl: u32,
    pub rdata: Vec<u8>,
}

/// A reply message.
#[derive(Clone, Debug)]
pub struct DnsReply {
    pub id: u16,
    pub op_code: u8,
    pub recursion_desired: bool,
    pub recursion_available: bool,
    pub rcode: u16,
    pub questions: Vec<DnsQuestion>,
    /// Answer records, each in its wire form.
    pub answers: Vec<Vec<u8>>,
}

pub open spec fn question_v(q: DnsQuestion) -> (Seq<char>, u16, u16) {
    (q.name@, q.qtype, q.qclass)
}

pub open spec fn questions_v(s: Seq<DnsQuestion>) -> Seq<(Seq<char>, u16, u16)> {
    s.map_values(|q: DnsQuestion| question_v(q))
}

pub open spec fn query_v(q: DnsQuery) -> (u16, u8, bool, Seq<(Seq<char>, u16, u16)>) {
    (q.id, q.op_code, q.recursion_desired, questions_v(q.questions@))
}

pub open spec fn opt_query_v(o: Option<DnsQuery>) -> Option<(u16, u8, bool, Seq<(Seq<char>, u16, u16)>)> {
    match o {
        Some(q) => Some(query_v(q)),
        None => None,
    }
}

pub open spec fn record_v(r: DnsRecord) -> (Seq<char>, u16, u16, u32, Seq<u8>) {
    (r.name@, r.rtype, r.rclass, r.ttl, r.rdata@)
}

pub open spec fn records_v(s: Seq<DnsRecord>) -> Seq<(Seq<char>, u16, u16, u32, Seq<u8>)> {
    s.map_values(|r: DnsRecord| record_v(r))
}

pub open spec fn wires_v(s: Seq<Vec<u8>>) -> Seq<Seq<u8>> {
    s.map_values(|w: Vec<u8>| w@)
}

pub open spec fn reply_v(r: DnsReply) -> (u16, u8, bool, bool, u16, Seq<(Seq<char>, u16, u16)>, Seq<Seq<u8>>) {
    (
        r.id,
        r.op_code,
        r.recursion_desired,
        r.recursion_available,
        r.rcode,
        questions_v(r.questions@),
        wires_v(r.answers@),
    )
}

pub open spec fn bytes_v(b: Option<Vec<u8>>) -> Option<Seq<u8>> {
    match b {
        Some(x) => Some(x@),
        None => None,
    }
}

// ---------------------------------------------------------------- outside calls

/// What `hickory_proto::op::Message::from_vec` decodes from the bytes, read as
/// (id, op code, recursion desired, questions); `None` when it fails.
pub uninterp spec fn dns_decode(wire: Seq<u8>) -> Option<(u16, u8, bool, Seq<(Seq<char>, u16, u16)>)>;

/// What `hickory_proto::op::Message::to_vec` gives for the reply message built
/// from these parts (answers given in their wire form); `None` when a part
/// cannot be built or encoding fails.
pub uninterp spec fn dns_encode(
    reply: (u16, u8, bool, bool, u16, Seq<(Seq<char>, u16, u16)>, Seq<Seq<u8>>),
) -> Option<Seq<u8>>;

/// What `hickory_proto::rr::Record::to_bytes` gives for the record built from
/// these parts; `None` when it cannot be built or encoded.
pub uninterp spec fn dns_record_wire(rec: (Seq<char>, u16, u16, u32, Seq<u8>)) -> Option<Seq<u8>>;

/// Builds a `Record` (owner by `Name::from_ascii`, data by `RData::read`, then
/// the class) and calls `to_bytes`. The bytes are tied to the parts through
/// `dns_record_wire`; the wire format itself is not stated.
#[verifier::external_body]
fn record_wire(a: &DnsRecord) -> (r: Option<Vec<u8>>)
    ensures
        bytes_v(r) == dns_record_wire(record_v(*a)),
{
    let d = RData::read(&mut BinDecoder::new(&a.rdata), a.rtype.into(), Restrict::new(a.rdata.len() as u16)).ok()?;
    Record::from_rdata(Name::from_ascii(&a.name).ok()?, a.ttl, d).set_dns_class(a.rclass.into()).to_bytes().ok()
}

/// Calls `Message::from_vec` and reads `id()`, `op_code()`,
/// `recursion_desired()` and each query's `name().to_ascii()`, `query_type()`
/// and `query_class()`. The result is tied to the bytes through `dns_decode`;
/// the wire format itself is not stated.
#[verifier::external_body]
fn decode_query(wire: &[u8]) -> (r: Option<DnsQuery>)
    ensures
        opt_query_v(r) == dns_decode(wire@),
{
    let m = Message::from_vec(wire).ok()?;
    let conv = |q: &Query| DnsQuestion { name: q.name().to_ascii(), qtype: q.query_type().into(), qclass: q.query_class().into() };
    let questions = m.queries().iter().map(conv).collect();
    Some(DnsQuery { id: m.id(), op_code: m.op_code().into(), recursion_desired: m.recursion_desired(), questions })
}

/// Builds a response `Message` from the reply's parts (question names by
/// `Name::from_ascii`, answers by `Record::from_bytes`, not authoritative) and
/// calls `Message::to_vec`. The bytes are tied to the parts through
/// `dns_encode`; the wire format itself is not stated.
#[verifier::external_body]
fn encode_reply(r: &DnsReply) -> (b: Option<Vec<u8>>)
    ensures
        bytes_v(b) == dns_encode(reply_v(*r)),
{
    let mut m = Message::error_msg(r.id, OpCode::from_u8(r.op_code), r.rcode.into());
    m.set_recursion_desired(r.recursion_desired).set_recursion_available(r.recursion_available);
    for q in &r.questions {
        m.add_query(Query::query(Name::from_ascii(&q.name).ok()?, q.qtype.into()).set_query_class(q.qclass.into()).clone());
    }
    for w in &r.answers {
        m.add_answer(Record::from_bytes(w).ok()?);
    }
    m.to_vec().ok()
}

// ---------------------------------------------------------------- copies

proof fn lemma_map_push<A, B>(s: Seq<A>, x: A, f: spec_fn(A) -> B)
    ensures
        s.push(x).map_values(f) == s.map_values(f).push(f(x)),
{
    assert(s.push(x).map_values(f) =~= s.map_values(f).push(f(x)));
}

proof fn lemma_take_push<A>(s: Seq<A>, i: int)
    requires
        0 <= i < s.len(),
    ensures
        s.take(i + 1) == s.take(i).push(s[i]),
{
    assert(s.take(i + 1) =~= s.take(i).push(s[i]));
}

fn copy_bytes(v: &Vec<u8>) -> (r: Vec<u8>)
    ensures
        r@ == v@,
{
    let mut out: Vec<u8> = Vec::new();
    let mut i: usize = 0;
    while i < v.len()
        invariant
            i <= v.len(),
            out@ == v@.take(i as int),
        decreases v.len() - i,
    {
        out.push(v[i]);
        i = i + 1;
    }
    assert(v@.take(v.len() as int) == v@);
    out
}

fn copy_record(r: &DnsRecord) -> (c: DnsRecord)
    ensures
        record_v(c) == record_v(*r),
{
    DnsRecord { name: r.name.clone(), rtype: r.rtype, rclass: r.rclass, ttl: r.ttl, rdata: copy_bytes(&r.rdata) }
}

fn copy_questions(v: &Vec<DnsQuestion>) -> (r: Vec<DnsQuestion>)
    ensures
        questions_v(r@) == questions_v(v@),
{
    let mut out: Vec<DnsQuestion> = Vec::new();
    let mut i: usize = 0;
    while i < v.len()
        invariant
            i <= v.len(),
            questions_v(out@) == questions_v(v@.take(i as int)),
        decreases v.len() - i,
    {
        let q = &v[i];
        let c = DnsQuestion { name: q.name.clone(), qtype: q.qtype, qclass: q.qclass };
        let ghost old_out = out@;
        out.push(c);
        proof {
            lemma_map_push(old_out, c, |q: DnsQuestion| question_v(q));
            lemma_take_push(v@, i as int);
            lemma_map_push(v@.take(i as int), v@[i as int], |q: DnsQuestion| question_v(q));
        }
        i = i + 1;
    }
    assert(v@.take(v.len() as int) == v@);
    out
}

fn copy_records(v: &Vec<DnsRecord>) -> (r: Vec<DnsRecord>)
    ensures
        records_v(r@) == records_v(v@),
{
    let mut out: Vec<DnsRecord> = Vec::new();
    let mut i: usize = 0;
    while i < v.len()
        invariant
            i <= v.len(),
            records_v(out@) == records_v(v@.take(i as int)),
        decreases v.len() - i,
    {
        let c = copy_record(&v[i]);
        let ghost old_out = out@;
        out.push(c);
        proof {
            lemma_map_push(old_out, c, |r: DnsRecord| record_v(r));
            lemma_take_push(v@, i as int);
            lemma_map_push(v@.take(i as int), v@[i as int], |r: DnsRecord| record_v(r));
        }
        i = i + 1;
    }
    assert(v@.take(v.len() as int) == v@);
    out
}

// ---------------------------------------------------------------- replies

/// The A record for `name` with address `ip`: class IN, the address as its four bytes.
pub open spec fn a_record_v(name: Seq<char>, ip: Ipv4, ttl: u32) -> (Seq<char>, u16, u16, u32, Seq<u8>) {
    (name, RTYPE_A, CLASS_IN, ttl, seq![ip.0, ip.1, ip.2, ip.3])
}

pub fn a_record(name: &str, ip: Ipv4, ttl: u32) -> (r: DnsRecord)
    ensures
        record_v(r) == a_record_v(name@, ip, ttl),
{
    let rdata = vec![ip.0, ip.1, ip.2, ip.3];
    let r = DnsRecord { name: name.to_string(), rtype: RTYPE_A, rclass: CLASS_IN, ttl, rdata };
    assert(r.rdata@ =~= seq![ip.0, ip.1, ip.2, ip.3]);
    r
}

/// The reply to a query: its id, op code, recursion-desired flag and questions,
/// recursion available, the response code and the answers given.
pub open spec fn reply_spec(
    q: (u16, u8, bool, Seq<(Seq<char>, u16, u16)>),
    rcode: u16,
    answers: Seq<Seq<u8>>,
) -> (u16, u8, bool, bool, u16, Seq<(Seq<char>, u16, u16)>, Seq<Seq<u8>>) {
    (q.0, q.1, q.2, true, rcode, q.3, answers)
}

pub fn reply_for(q: &DnsQuery, rcode: u16, answers: Vec<Vec<u8>>) -> (r: DnsReply)
    ensures
        reply_v(r) == reply_spec(query_v(*q), rcode, wires_v(answers@)),
{
    DnsReply {
        id: q.id,
        op_code: q.op_code,
        recursion_desired: q.recursion_desired,
        recursion_available: true,
        rcode,
        questions: copy_questions(&q.questions),
        answers,
    }
}

// ---------------------------------------------------------------- requests

/// How a question is answered: the local records (an A record for a service
/// name, none for its AAAA), or `None` to ask the upstream resolvers.
pub open spec fn local_answer(
    registry: Map<Seq<char>, Ipv4>,
    q: (Seq<char>, u16, u16),
    service_ttl: u32,
) -> Option<Seq<(Seq<char>, u16, u16, u32, Seq<u8>)>> {
    if registry.contains_key(registry_key(q.0)) && q.1 == RTYPE_A {
        Some(seq![a_record_v(q.0, registry[registry_key(q.0)], service_ttl)])
    } else if registry.contains_key(registry_key(q.0)) && q.1 == RTYPE_AAAA {
        Some(Seq::empty())
    } else {
        None
    }
}

/// The plan for one question.
#[derive(Debug)]
pub enum QuestionPlan {
    /// Answered here with these records.
    Local(Vec<DnsRecord>),
    /// Asked upstream.
    Forward,
}

pub open spec fn plan_v(p: QuestionPlan) -> Option<Seq<(Seq<char>, u16, u16, u32, Seq<u8>)>> {
    match p {
        QuestionPlan::Local(v) => Some(records_v(v@)),
        QuestionPlan::Forward => None,
    }
}

pub open spec fn names_of(qs: Seq<(Seq<char>, u16, u16)>) -> Seq<Seq<char>> {
    qs.map_values(|q: (Seq<char>, u16, u16)| q.0)
}

/// What becomes of a request once decoded.
#[derive(Debug)]
pub enum RequestStart {
    /// The bytes are not a DNS message; nothing is sent.
    Malformed,
    /// Answered at once (loop protection) with these bytes, if they encode.
    Done(Option<Vec<u8>>),
    /// The query and the plan of each of its questions, in order.
    Pending(DnsQuery, Vec<QuestionPlan>),
}

pub open spec fn opt_endpoint(p: Option<&Endpoint>) -> Option<Endpoint> {
    match p {
        Some(e) => Some(*e),
        None => None,
    }
}

/// Decodes a request from `peer` and decides it: loop protection answers at
/// once with no records; otherwise each question gets its plan.
pub fn start_request(wire: &[u8], peer: Option<&Endpoint>, cfg: &DnsServerConfig, registry: &DnsRegistry) -> (r:
    RequestStart)
    ensures
        match dns_decode(wire@) {
            None => r is Malformed,
            Some(qv) => match loop_guard_spec(
                opt_endpoint(peer),
                cfg.listen,
                cfg.upstreams@,
                registry.map(),
                names_of(qv.3),
            ) {
                Some(code) => r matches RequestStart::Done(b) && bytes_v(b) == dns_encode(
                    reply_spec(qv, code, Seq::empty()),
                ),
                None => r matches RequestStart::Pending(q, plans) && query_v(q) == qv && plans@.map_values(
                    |p: QuestionPlan| plan_v(p),
                ) == qv.3.map_values(
                    |x: (Seq<char>, u16, u16)| local_answer(registry.map(), x, cfg.service_ttl),
                ),
            },
        },
{
    let q = match decode_query(wire) {
        None => {
            return RequestStart::Malformed;
        },
        Some(q) => q,
    };
    let ghost qv = query_v(q);
    let mut names: Vec<String> = Vec::new();
    let mut i: usize = 0;
    while i < q.questions.len()
        invariant
            i <= q.questions.len(),
            qv == query_v(q),
            names@.map_values(|s: String| s@) == names_of(qv.3).take(i as int),
        decreases q.questions.len() - i,
    {
        let nm = q.questions[i].name.clone();
        let ghost old_names = names@;
        names.push(nm);
        proof {
            lemma_map_push(old_names, nm, |s: String| s@);
            lemma_take_push(names_of(qv.3), i as int);
            assert(names_of(qv.3)[i as int] == q.questions@[i as int].name@);
        }
        i = i + 1;
    }
    assert(names_of(qv.3).take(q.questions.len() as int) =~= names_of(qv.3));
    match loop_guard(peer, &cfg.listen, cfg.upstreams.as_slice(), registry, names.as_slice()) {
        Some(code) => {
            let reply = reply_for(&q, code, Vec::new());
            assert(wires_v(Seq::<Vec<u8>>::empty()) =~= Seq::empty());
            RequestStart::Done(encode_reply(&reply))
        },
        None => {
            let ghost want = qv.3.map_values(
                |x: (Seq<char>, u16, u16)| local_answer(registry.map(), x, cfg.service_ttl),
            );
            let mut plans: Vec<QuestionPlan> = Vec::new();
            let mut j: usize = 0;
            while j < q.questions.len()
                invariant
                    j <= q.questions.len(),
                    qv == query_v(q),
                    want == qv.3.map_values(
                        |x: (Seq<char>, u16, u16)| local_answer(registry.map(), x, cfg.service_ttl),
                    ),
                    plans@.map_values(|p: QuestionPlan| plan_v(p)) == want.take(j as int),
                decreases q.questions.len() - j,
            {
                let qu = &q.questions[j];
                assert(qv.3[j as int] == question_v(*qu));
                let p = match plan_query(registry, qu.name.as_str(), qu.qtype, cfg.service_ttl) {
                    QueryPlan::Answer(ip, ttl) => {
                        let rec = a_record(qu.name.as_str(), ip, ttl);
                        let v = vec![rec];
                        assert(records_v(v@) =~= seq![record_v(rec)]);
                        QuestionPlan::Local(v)
                    },
                    QueryPlan::NoData => {
                        let v: Vec<DnsRecord> = Vec::new();
                        assert(records_v(v@) =~= Seq::empty());
                        QuestionPlan::Local(v)
                    },
                    QueryPlan::Forward => QuestionPlan::Forward,
                };
                assert(want[j as int] == local_answer(registry.map(), qv.3[j as int], cfg.service_ttl));
                assert(plan_v(p) == want[j as int]);
                let ghost old_plans = plans@;
                plans.push(p);
                proof {
                    lemma_map_push(old_plans, p, |p: QuestionPlan| plan_v(p));
                    lemma_take_push(want, j as int);
                }
                j = j + 1;
            }
            assert(want.take(q.questions.len() as int) =~= want);
            RequestStart::Pending(q, plans)
        },
    }
}

/// What came of a question: records and a response code, or a failure
/// (upstream error or timeout).
#[derive(Debug)]
pub enum QuestionResult {
    Records(Vec<DnsRecord>, u16),
    Failed,
}

/// The result of a question answered here; `None` for one that goes upstream.
pub fn local_result(p: &QuestionPlan) -> (r: Option<QuestionResult>)
    ensures
        match p {
            QuestionPlan::Local(v) => r matches Some(QuestionResult::Records(w, c)) && records_v(w@) == records_v(
                v@,
            ) && c == RCODE_NOERROR,
            QuestionPlan::Forward => r is None,
        },
{
    match p {
        QuestionPlan::Local(v) => Some(QuestionResult::Records(copy_records(v), RCODE_NOERROR)),
        QuestionPlan::Forward => None,
    }
}

pub open spec fn outcome_of(r: QuestionResult) -> QueryOutcome {
    match r {
        QuestionResult::Records(v, c) => QueryOutcome::Records(v@.len() as usize, c),
        QuestionResult::Failed => QueryOutcome::Failed,
    }
}

/// The answers of the results, in order.
pub open spec fn answers_of(rs: Seq<QuestionResult>) -> Seq<(Seq<char>, u16, u16, u32, Seq<u8>)>
    decreases rs.len(),
{
    if rs.len() == 0 {
        Seq::empty()
    } else {
        answers_of(rs.drop_last()) + match rs.last() {
            QuestionResult::Records(v, _) => records_v(v@),
            QuestionResult::Failed => Seq::empty(),
        }
    }
}

/// The wire forms of records, if each has one.
pub open spec fn wires_of(s: Seq<(Seq<char>, u16, u16, u32, Seq<u8>)>) -> Option<Seq<Seq<u8>>>
    decreases s.len(),
{
    if s.len() == 0 {
        Some(Seq::empty())
    } else {
        match (wires_of(s.drop_last()), dns_record_wire(s.last())) {
            (Some(ws), Some(w)) => Some(ws.push(w)),
            _ => None,
        }
    }
}

proof fn lemma_wires_none(s: Seq<(Seq<char>, u16, u16, u32, Seq<u8>)>, k: int)
    requires
        0 <= k < s.len(),
        dns_record_wire(s[k]) is None,
    ensures
        wires_of(s) is None,
    decreases s.len(),
{
    if k < s.len() - 1 {
        lemma_wires_none(s.drop_last(), k);
    }
}

/// The reply once every question has a result: the records of each, in
/// order, and the response code that the outcomes make; `None` when a
/// record or the reply cannot be encoded.
pub fn finish_request(q: &DnsQuery, results: &[QuestionResult]) -> (r: Option<Vec<u8>>)
    ensures
        match wires_of(answers_of(results@)) {
            None => r is None,
            Some(ws) => bytes_v(r) == dns_encode(
                reply_spec(
                    query_v(*q),
                    response_code_spec(results@.map_values(|x: QuestionResult| outcome_of(x))),
                    ws,
                ),
            ),
        },
{
    let mut outcomes: Vec<QueryOutcome> = Vec::new();
    let mut answers: Vec<DnsRecord> = Vec::new();
    let mut i: usize = 0;
    while i < results.len()
        invariant
            i <= results.len(),
            outcomes@ == results@.take(i as int).map_values(|x: QuestionResult| outcome_of(x)),
            records_v(answers@) == answers_of(results@.take(i as int)),
        decreases results.len() - i,
    {
        assert(results@.take(i + 1).drop_last() =~= results@.take(i as int));
        assert(results@.take(i + 1).last() == results@[i as int]);
        match &results[i] {
            QuestionResult::Records(v, c) => {
                outcomes.push(QueryOutcome::Records(v.len(), *c));
                let mut k: usize = 0;
                let ghost before = records_v(answers@);
                while k < v.len()
                    invariant
                        k <= v.len(),
                        records_v(answers@) == before + records_v(v@).take(k as int),
                    decreases v.len() - k,
                {
                    let c = copy_record(&v[k]);
                    let ghost old_a = answers@;
                    answers.push(c);
                    proof {
                        lemma_map_push(old_a, c, |r: DnsRecord| record_v(r));
                        lemma_take_push(records_v(v@), k as int);
                        assert(before + records_v(v@).take(k + 1) =~= (before + records_v(v@).take(k as int)).push(
                            record_v(c),
                        ));
                    }
                    k = k + 1;
                }
                assert(records_v(v@).take(v.len() as int) =~= records_v(v@));
            },
            QuestionResult::Failed => {
                outcomes.push(QueryOutcome::Failed);
                assert(answers_of(results@.take(i + 1)) =~= answers_of(results@.take(i as int)));
            },
        }
        assert(outcomes@ =~= results@.take(i + 1).map_values(|x: QuestionResult| outcome_of(x)));
        i = i + 1;
    }
    assert(results@.take(results.len() as int) =~= results@);
    let ghost av = records_v(answers@);
    assert(av.take(0) =~= Seq::<(Seq<char>, u16, u16, u32, Seq<u8>)>::empty());
    let mut wires: Vec<Vec<u8>> = Vec::new();
    assert(wires_v(wires@) =~= Seq::<Seq<u8>>::empty());
    let mut k: usize = 0;
    while k < answers.len()
        invariant
            k <= answers.len(),
            av == records_v(answers@),
            av == answers_of(results@),
            wires_of(av.take(k as int)) == Some(wires_v(wires@)),
        decreases answers.len() - k,
    {
        assert(av.take(k + 1).drop_last() =~= av.take(k as int));
        assert(av.take(k + 1).last() == av[k as int]);
        assert(av[k as int] == record_v(answers@[k as int]));
        match record_wire(&answers[k]) {
            None => {
                proof {
                    lemma_wires_none(av, k as int);
                }
                return None;
            },
            Some(w) => {
                let ghost old_w = wires@;
                wires.push(w);
                proof {
                    lemma_map_push(old_w, w, |x: Vec<u8>| x@);
                }
            },
        }
        k = k + 1;
    }
    assert(av.take(answers.len() as int) =~= av);
    let code = response_code(outcomes.as_slice());
    let reply = reply_for(q, code, wires);
    encode_reply(&reply)
}

} // verus!
