//! The decision core of the iterative resolver. Given a reply packet it
//! classifies the next move: the reply is final, a glued name server gives
//! the next address, or a name server must itself be resolved first. The
//! blocking UDP transport around it performs the sends and hands replies
//! back; everything decided here is a pure function of the packet.

use vstd::prelude::*;

use crate::header::{default_header, DnsHeader};
use crate::packet::{records_view, DnsPacket, PacketModel};
use crate::question::{DnsQuestion, QuestionModel};
use crate::record::{DnsRecord, RecordModel};
use crate::types::{Ipv4, QueryType, ResultCode};

verus! {

/// `dom` is a byte suffix of `qname`, the delegation match this system
/// uses. It is not anchored at a label boundary.
pub open spec fn suffix_of(dom: Seq<u8>, qname: Seq<u8>) -> bool {
    dom.len() <= qname.len() && qname.skip(qname.len() - dom.len()) == dom
}

/// The first A record among `res` whose domain equals `host`: its glue.
pub open spec fn glue_a(res: Seq<RecordModel>, host: Seq<u8>) -> Option<Ipv4>
    decreases res.len(),
{
    if res.len() == 0 {
        None
    } else {
        match res[0] {
            RecordModel::A { domain, addr, .. } => if domain == host {
                Some(addr)
            } else {
                glue_a(res.drop_first(), host)
            },
            _ => glue_a(res.drop_first(), host),
        }
    }
}

/// The glue address of the first NS entry in `auth` that covers `qname`
/// and has glue among `res`.
pub open spec fn resolved_ns_spec(
    auth: Seq<RecordModel>,
    res: Seq<RecordModel>,
    qname: Seq<u8>,
) -> Option<Ipv4>
    decreases auth.len(),
{
    if auth.len() == 0 {
        None
    } else {
        match auth[0] {
            RecordModel::NS { domain, host, .. } => if suffix_of(domain, qname) && glue_a(
                res,
                host,
            ) is Some {
                glue_a(res, host)
            } else {
                resolved_ns_spec(auth.drop_first(), res, qname)
            },
            _ => resolved_ns_spec(auth.drop_first(), res, qname),
        }
    }
}

/// The host named by the first NS entry in `auth` that covers `qname`,
/// glue or no glue.
pub open spec fn unresolved_ns_spec(auth: Seq<RecordModel>, qname: Seq<u8>) -> Option<Seq<u8>>
    decreases auth.len(),
{
    if auth.len() == 0 {
        None
    } else {
        match auth[0] {
            RecordModel::NS { domain, host, .. } => if suffix_of(domain, qname) {
                Some(host)
            } else {
                unresolved_ns_spec(auth.drop_first(), qname)
            },
            _ => unresolved_ns_spec(auth.drop_first(), qname),
        }
    }
}

/// The address of the first A record in `answers`.
pub open spec fn first_a_spec(answers: Seq<RecordModel>) -> Option<Ipv4>
    decreases answers.len(),
{
    if answers.len() == 0 {
        None
    } else {
        match answers[0] {
            RecordModel::A { addr, .. } => Some(addr),
            _ => first_a_spec(answers.drop_first()),
        }
    }
}

/// Two byte strings hold the same bytes.
#[verifier::loop_isolation(false)]
pub fn bytes_eq(a: &Vec<u8>, b: &Vec<u8>) -> (r: bool)
    ensures
        r == (a@ == b@),
{
    if a.len() != b.len() {
        return false;
    }
    let mut i: usize = 0;
    while i < a.len()
        invariant
            a@.len() == b@.len(),
            i <= a@.len(),
            forall|m: int| 0 <= m < i ==> a@[m] == b@[m],
        decreases a@.len() - i,
    {
        if a[i] != b[i] {
            return false;
        }
        i = i + 1;
    }
    proof {
        assert(a@ =~= b@);
    }
    true
}

/// `qname` ends with the bytes of `dom`.
#[verifier::loop_isolation(false)]
pub fn ends_with_bytes(qname: &Vec<u8>, dom: &Vec<u8>) -> (r: bool)
    ensures
        r == suffix_of(dom@, qname@),
{
    if dom.len() > qname.len() {
        return false;
    }
    let off = qname.len() - dom.len();
    let mut i: usize = 0;
    while i < dom.len()
        invariant
            dom@.len() <= qname@.len(),
            off == qname@.len() - dom@.len(),
            i <= dom@.len(),
            forall|m: int| 0 <= m < i ==> qname@[off + m] == dom@[m],
        decreases dom@.len() - i,
    {
        if qname[off + i] != dom[i] {
            proof {
                assert(qname@.skip(off as int)[i as int] != dom@[i as int]);
            }
            return false;
        }
        i = i + 1;
    }
    proof {
        assert(qname@.skip(off as int) =~= dom@);
    }
    true
}

/// The glue lookup: the first A record in `resources` for `host`.
#[verifier::loop_isolation(false)]
fn glue_lookup(resources: &Vec<DnsRecord>, host: &Vec<u8>) -> (r: Option<Ipv4>)
    ensures
        r == glue_a(records_view(resources@), host@),
{
    let ghost rs = records_view(resources@);
    proof {
        assert(rs.skip(0) =~= rs);
    }
    let mut i: usize = 0;
    while i < resources.len()
        invariant
            rs == records_view(resources@),
            i <= resources@.len(),
            glue_a(rs.skip(i as int), host@) == glue_a(rs, host@),
        decreases resources@.len() - i,
    {
        proof {
            assert(rs.skip(i as int)[0] == rs[i as int]);
            assert(rs.skip(i as int).drop_first() =~= rs.skip(i as int + 1));
        }
        match &resources[i] {
            DnsRecord::A { domain, addr, .. } => {
                if bytes_eq(domain, host) {
                    return Some(*addr);
                }
            },
            _ => (),
        }
        i = i + 1;
    }
    proof {
        assert(rs.skip(resources@.len() as int) =~= Seq::<RecordModel>::empty());
    }
    None
}

impl DnsPacket {
    /// The address of the first A record in the answer section, if any.
    #[verifier::loop_isolation(false)]
    pub fn get_random_a(&self) -> (r: Option<Ipv4>)
        ensures
            r == first_a_spec(self@.answers),
    {
        let ghost rs = records_view(self.answers@);
        proof {
            assert(rs.skip(0) =~= rs);
        }
        let mut i: usize = 0;
        while i < self.answers.len()
            invariant
                rs == records_view(self.answers@),
                i <= self.answers@.len(),
                first_a_spec(rs.skip(i as int)) == first_a_spec(rs),
            decreases self.answers@.len() - i,
        {
            proof {
                assert(rs.skip(i as int)[0] == rs[i as int]);
                assert(rs.skip(i as int).drop_first() =~= rs.skip(i as int + 1));
            }
            match &self.answers[i] {
                DnsRecord::A { addr, .. } => {
                    return Some(*addr);
                },
                _ => (),
            }
            i = i + 1;
        }
        proof {
            assert(rs.skip(self.answers@.len() as int) =~= Seq::<RecordModel>::empty());
        }
        None
    }

    /// The glue address of the first authority NS entry whose domain is a
    /// suffix of `qname` and whose host has an A record in the additional
    /// section.
    #[verifier::loop_isolation(false)]
    pub fn get_resolved_ns(&self, qname: &Vec<u8>) -> (r: Option<Ipv4>)
        ensures
            r == resolved_ns_spec(self@.authorities, self@.resources, qname@),
    {
        let ghost auth = records_view(self.authorities@);
        let ghost res = records_view(self.resources@);
        proof {
            assert(auth.skip(0) =~= auth);
        }
        let mut i: usize = 0;
        while i < self.authorities.len()
            invariant
                auth == records_view(self.authorities@),
                res == records_view(self.resources@),
                i <= self.authorities@.len(),
                resolved_ns_spec(auth.skip(i as int), res, qname@) == resolved_ns_spec(
                    auth,
                    res,
                    qname@,
                ),
            decreases self.authorities@.len() - i,
        {
            proof {
                assert(auth.skip(i as int)[0] == auth[i as int]);
                assert(auth.skip(i as int).drop_first() =~= auth.skip(i as int + 1));
            }
            match &self.authorities[i] {
                DnsRecord::NS { host, domain, .. } => {
                    if ends_with_bytes(qname, domain) {
                        match glue_lookup(&self.resources, host) {
                            Some(ip) => {
                                return Some(ip);
                            },
                            None => (),
                        }
                    }
                },
                _ => (),
            }
            i = i + 1;
        }
        proof {
            assert(auth.skip(self.authorities@.len() as int) =~= Seq::<RecordModel>::empty());
        }
        None
    }

    /// The host of the first authority NS entry whose domain is a suffix of
    /// `qname`, whether or not it has glue.
    #[verifier::loop_isolation(false)]
    pub fn get_unresolved_ns(&self, qname: &Vec<u8>) -> (r: Option<Vec<u8>>)
        ensures
            (match unresolved_ns_spec(self@.authorities, qname@) {
                Some(h) => r is Some && r->Some_0@ == h,
                None => r is None,
            }),
    {
        let ghost auth = records_view(self.authorities@);
        proof {
            assert(auth.skip(0) =~= auth);
        }
        let mut i: usize = 0;
        while i < self.authorities.len()
            invariant
                auth == records_view(self.authorities@),
                i <= self.authorities@.len(),
                unresolved_ns_spec(auth.skip(i as int), qname@) == unresolved_ns_spec(auth, qname@),
            decreases self.authorities@.len() - i,
        {
            proof {
                assert(auth.skip(i as int)[0] == auth[i as int]);
                assert(auth.skip(i as int).drop_first() =~= auth.skip(i as int + 1));
            }
            match &self.authorities[i] {
                DnsRecord::NS { host, domain, .. } => {
                    if ends_with_bytes(qname, domain) {
                        let mut out: Vec<u8> = Vec::new();
                        let mut k: usize = 0;
                        while k < host.len()
                            invariant
                                k <= host@.len(),
                                out@ == host@.subrange(0, k as int),
                            decreases host@.len() - k,
                        {
                            out.push(host[k]);
                            k = k + 1;
                            proof {
                                assert(out@ =~= host@.subrange(0, k as int));
                            }
                        }
                        proof {
                            assert(out@ =~= host@);
                        }
                        return Some(out);
                    }
                },
                _ => (),
            }
            i = i + 1;
        }
        proof {
            assert(auth.skip(self.authorities@.len() as int) =~= Seq::<RecordModel>::empty());
        }
        None
    }
}

/// What the resolver does next after one reply.
pub enum ResolveStep {
    /// The reply is final: an answer, NXDOMAIN, or a dead end.
    Finish,
    /// Ask this name server next.
    QueryServer { ns: Ipv4 },
    /// Resolve this name-server host to an address first.
    ResolveNsHost { host: Vec<u8> },
}

/// The mathematical value of a resolver step.
#[verifier::ext_equal]
pub enum ResolveStepModel {
    Finish,
    QueryServer { ns: Ipv4 },
    ResolveNsHost { host: Seq<u8> },
}

impl View for ResolveStep {
    type V = ResolveStepModel;

    open spec fn view(&self) -> ResolveStepModel {
        match *self {
            ResolveStep::Finish => ResolveStepModel::Finish,
            ResolveStep::QueryServer { ns } => ResolveStepModel::QueryServer { ns },
            ResolveStep::ResolveNsHost { ref host } => ResolveStepModel::ResolveNsHost {
                host: host@,
            },
        }
    }
}

/// The resolver's branch for one reply: finish on an answer with NOERROR or
/// on NXDOMAIN; follow resolved glue; otherwise chase an unresolved NS host;
/// failing all that, finish with the reply as it stands.
pub open spec fn classify_spec(p: PacketModel, qname: Seq<u8>) -> ResolveStepModel {
    if p.answers.len() > 0 && p.header.rescode == ResultCode::NOERROR {
        ResolveStepModel::Finish
    } else if p.header.rescode == ResultCode::NXDOMAIN {
        ResolveStepModel::Finish
    } else if resolved_ns_spec(p.authorities, p.resources, qname) is Some {
        ResolveStepModel::QueryServer {
            ns: resolved_ns_spec(p.authorities, p.resources, qname)->Some_0,
        }
    } else if unresolved_ns_spec(p.authorities, qname) is Some {
        ResolveStepModel::ResolveNsHost { host: unresolved_ns_spec(p.authorities, qname)->Some_0 }
    } else {
        ResolveStepModel::Finish
    }
}

/// Classify one reply of the recursion loop.
pub fn classify_response(response: &DnsPacket, qname: &Vec<u8>) -> (s: ResolveStep)
    ensures
        s@ == classify_spec(response@, qname@),
{
    if response.answers.len() > 0 && matches!(response.header.rescode, ResultCode::NOERROR) {
        return ResolveStep::Finish;
    }
    if matches!(response.header.rescode, ResultCode::NXDOMAIN) {
        return ResolveStep::Finish;
    }
    match response.get_resolved_ns(qname) {
        Some(ns) => {
            return ResolveStep::QueryServer { ns };
        },
        None => (),
    }
    match response.get_unresolved_ns(qname) {
        Some(host) => ResolveStep::ResolveNsHost { host },
        None => ResolveStep::Finish,
    }
}

/// The outbound query for one resolution step: a fixed transaction id, the
/// recursion-desired flag, and the single question.
pub open spec fn lookup_query(qname: Seq<u8>, qtype: QueryType) -> PacketModel {
    PacketModel {
        header: DnsHeader { id: 6666, questions: 1, recursion_desired: true, ..default_header() },
        questions: seq![QuestionModel { name: qname, qtype }],
        answers: Seq::<RecordModel>::empty(),
        authorities: Seq::<RecordModel>::empty(),
        resources: Seq::<RecordModel>::empty(),
    }
}

/// Build the query packet one lookup sends upstream.
pub fn build_lookup_packet(qname: Vec<u8>, qtype: QueryType) -> (r: DnsPacket)
    ensures
        r@ == lookup_query(qname@, qtype),
{
    let mut packet = DnsPacket::new();
    packet.header.id = 6666;
    packet.header.questions = 1;
    packet.header.recursion_desired = true;
    packet.questions.push(DnsQuestion::new(qname, qtype));
    proof {
        assert(packet@ =~= lookup_query(packet.questions@[0].name@, qtype));
    }
    packet
}

/// The response the server sends back: FORMERR when the request held no
/// question; SERVFAIL when resolution failed; else the question together
/// with the resolver's result code, authority and additional sections. The
/// answer section of the upstream result is not copied into the response.
pub open spec fn response_model(
    id: u16,
    question: Option<QuestionModel>,
    result: Option<PacketModel>,
) -> PacketModel {
    let base = DnsHeader {
        id,
        recursion_desired: true,
        recursion_available: true,
        response: true,
        ..default_header()
    };
    match question {
        None => PacketModel {
            header: DnsHeader { rescode: ResultCode::FORMERR, ..base },
            questions: Seq::<QuestionModel>::empty(),
            answers: Seq::<RecordModel>::empty(),
            authorities: Seq::<RecordModel>::empty(),
            resources: Seq::<RecordModel>::empty(),
        },
        Some(q) => match result {
            None => PacketModel {
                header: DnsHeader { rescode: ResultCode::SERVFAIL, ..base },
                questions: Seq::<QuestionModel>::empty(),
                answers: Seq::<RecordModel>::empty(),
                authorities: Seq::<RecordModel>::empty(),
                resources: Seq::<RecordModel>::empty(),
            },
            Some(res) => PacketModel {
                header: DnsHeader { rescode: res.header.rescode, ..base },
                questions: seq![q],
                answers: Seq::<RecordModel>::empty(),
                authorities: res.authorities,
                resources: res.resources,
            },
        },
    }
}

/// Assemble the reply to one inbound request, from its transaction id, its
/// last question if it had one, and the resolver's result if it succeeded.
pub fn build_response(id: u16, question: Option<DnsQuestion>, result: Option<DnsPacket>) -> (r:
    DnsPacket)
    ensures
        r@ == response_model(
            id,
            (match question {
                Some(q) => Some(q@),
                None => None,
            }),
            (match result {
                Some(p) => Some(p@),
                None => None,
            }),
    ),
{
    let ghost qm: Option<QuestionModel> = match question {
        Some(ref q) => Some(q@),
        None => None,
    };
    let ghost rm: Option<PacketModel> = match result {
        Some(ref p) => Some(p@),
        None => None,
    };
    let mut packet = DnsPacket::new();
    packet.header.id = id;
    packet.header.recursion_desired = true;
    packet.header.recursion_available = true;
    packet.header.response = true;
    match question {
        Some(q) => {
            match result {
                Some(res) => {
                    packet.header.rescode = res.header.rescode;
                    packet.questions.push(q);
                    packet.authorities = res.authorities;
                    packet.resources = res.resources;
                },
                None => {
                    packet.header.rescode = ResultCode::SERVFAIL;
                },
            }
        },
        None => {
            packet.header.rescode = ResultCode::FORMERR;
        },
    }
    proof {
        assert(packet@ =~= response_model(id, qm, rm));
    }
    packet
}

} // verus!
