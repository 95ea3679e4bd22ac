use simple_dns::packet::DnsPacket;
use simple_dns::question::DnsQuestion;
use simple_dns::record::DnsRecord;
use simple_dns::resolver::{build_lookup_packet, build_response, classify_response, ResolveStep};
use simple_dns::types::{Ipv4, QueryType, ResultCode};

fn delegation_response(glue: bool) -> DnsPacket {
    let mut response = DnsPacket::new();
    response.header.response = true;
    response.authorities.push(DnsRecord::NS {
        domain: b"com".to_vec(),
        host: b"a.gtld-servers.net".to_vec(),
        ttl: 172800,
    });
    if glue {
        response.resources.push(DnsRecord::A {
            domain: b"a.gtld-servers.net".to_vec(),
            addr: Ipv4::new(192, 5, 6, 30),
            ttl: 172800,
        });
    }
    response
}

#[test]
fn classify_answer_finishes() {
    let mut response = DnsPacket::new();
    response.header.rescode = ResultCode::NOERROR;
    response.answers.push(DnsRecord::A {
        domain: b"www.google.com".to_vec(),
        addr: Ipv4::new(142, 250, 72, 196),
        ttl: 300,
    });
    let step = classify_response(&response, &b"www.google.com".to_vec());
    assert!(matches!(step, ResolveStep::Finish));
}

#[test]
fn classify_nxdomain_finishes() {
    let mut response = DnsPacket::new();
    response.header.rescode = ResultCode::NXDOMAIN;
    // Even with a delegation present, NXDOMAIN ends the recursion.
    response.authorities.push(DnsRecord::NS {
        domain: b"com".to_vec(),
        host: b"a.gtld-servers.net".to_vec(),
        ttl: 172800,
    });
    let step = classify_response(&response, &b"no.such.name.com".to_vec());
    assert!(matches!(step, ResolveStep::Finish));
}

#[test]
fn classify_delegation_with_glue_queries_next_server() {
    let response = delegation_response(true);
    let step = classify_response(&response, &b"www.google.com".to_vec());
    match step {
        ResolveStep::QueryServer { ns } => assert_eq!(ns, Ipv4::new(192, 5, 6, 30)),
        _ => panic!("expected the resolver to follow the glue"),
    }
}

#[test]
fn classify_delegation_without_glue_resolves_host() {
    let response = delegation_response(false);
    let step = classify_response(&response, &b"www.google.com".to_vec());
    match step {
        ResolveStep::ResolveNsHost { host } => {
            assert_eq!(host, b"a.gtld-servers.net".to_vec())
        },
        _ => panic!("expected the resolver to chase the NS host"),
    }
}

#[test]
fn classify_no_delegation_finishes() {
    let response = DnsPacket::new();
    let step = classify_response(&response, &b"www.google.com".to_vec());
    assert!(matches!(step, ResolveStep::Finish));
}

#[test]
fn delegation_s6_next_query_goes_to_glue_address() {
    // Starting from the root server 198.41.0.40, a reply with no answers,
    // NS = a.gtld-servers.net in authorities and its glue A = 192.5.6.30 in
    // additionals retargets the next query to 192.5.6.30.
    let mut ns = Ipv4::new(198, 41, 0, 40);
    let qname = b"www.google.com".to_vec();
    let response = delegation_response(true);
    match classify_response(&response, &qname) {
        ResolveStep::QueryServer { ns: next } => ns = next,
        _ => panic!("expected a next server"),
    }
    assert_eq!(ns, Ipv4::new(192, 5, 6, 30));
    // The next hop's query carries the same single question.
    let query = build_lookup_packet(qname.clone(), QueryType::A);
    assert_eq!(query.header.id, 6666);
    assert!(query.header.recursion_desired);
    assert_eq!(query.questions.len(), 1);
    assert_eq!(query.questions[0].name, qname);
    assert_eq!(query.questions[0].qtype, QueryType::A);
}

#[test]
fn glue_requires_matching_host() {
    let mut response = delegation_response(false);
    // An A record for some other host is not glue for the NS entry.
    response.resources.push(DnsRecord::A {
        domain: b"b.gtld-servers.net".to_vec(),
        addr: Ipv4::new(192, 33, 14, 30),
        ttl: 172800,
    });
    let step = classify_response(&response, &b"www.google.com".to_vec());
    assert!(matches!(step, ResolveStep::ResolveNsHost { .. }));
}

#[test]
fn ns_match_is_a_suffix_match() {
    let response = delegation_response(true);
    // "com" is not a suffix of "example.org": no delegation applies.
    let step = classify_response(&response, &b"example.org".to_vec());
    assert!(matches!(step, ResolveStep::Finish));
}

#[test]
fn get_random_a_returns_first_a() {
    let mut response = DnsPacket::new();
    response.answers.push(DnsRecord::CNAME {
        domain: b"www.example.com".to_vec(),
        host: b"example.com".to_vec(),
        ttl: 60,
    });
    response.answers.push(DnsRecord::A {
        domain: b"example.com".to_vec(),
        addr: Ipv4::new(93, 184, 216, 34),
        ttl: 60,
    });
    response.answers.push(DnsRecord::A {
        domain: b"example.com".to_vec(),
        addr: Ipv4::new(1, 1, 1, 1),
        ttl: 60,
    });
    assert_eq!(response.get_random_a(), Some(Ipv4::new(93, 184, 216, 34)));
    assert_eq!(DnsPacket::new().get_random_a(), None);
}

#[test]
fn resolved_ns_picks_first_authority_with_glue() {
    let mut response = DnsPacket::new();
    response.authorities.push(DnsRecord::NS {
        domain: b"com".to_vec(),
        host: b"gone.example.net".to_vec(),
        ttl: 1,
    });
    response.authorities.push(DnsRecord::NS {
        domain: b"com".to_vec(),
        host: b"here.example.net".to_vec(),
        ttl: 1,
    });
    response.resources.push(DnsRecord::A {
        domain: b"here.example.net".to_vec(),
        addr: Ipv4::new(10, 0, 0, 2),
        ttl: 1,
    });
    let qname = b"www.shop.com".to_vec();
    assert_eq!(
        response.get_resolved_ns(&qname),
        Some(Ipv4::new(10, 0, 0, 2))
    );
    // The unresolved lookup still names the first matching NS host.
    assert_eq!(
        response.get_unresolved_ns(&qname),
        Some(b"gone.example.net".to_vec())
    );
}

#[test]
fn build_response_missing_question_is_formerr() {
    let reply = build_response(7, None, None);
    assert_eq!(reply.header.id, 7);
    assert!(reply.header.response);
    assert!(reply.header.recursion_desired);
    assert!(reply.header.recursion_available);
    assert_eq!(reply.header.rescode, ResultCode::FORMERR);
    assert!(reply.questions.is_empty());
    assert!(reply.answers.is_empty());
}

#[test]
fn build_response_failed_lookup_is_servfail() {
    let question = DnsQuestion::new(b"www.example.com".to_vec(), QueryType::A);
    let reply = build_response(8, Some(question), None);
    assert_eq!(reply.header.rescode, ResultCode::SERVFAIL);
    assert!(reply.questions.is_empty());
}

#[test]
fn build_response_copies_result_sections() {
    let question = DnsQuestion::new(b"www.google.com".to_vec(), QueryType::A);
    let mut result = DnsPacket::new();
    result.header.rescode = ResultCode::NOERROR;
    result.answers.push(DnsRecord::A {
        domain: b"www.google.com".to_vec(),
        addr: Ipv4::new(142, 250, 72, 196),
        ttl: 300,
    });
    result.authorities.push(DnsRecord::NS {
        domain: b"google.com".to_vec(),
        host: b"ns1.google.com".to_vec(),
        ttl: 300,
    });
    result.resources.push(DnsRecord::A {
        domain: b"ns1.google.com".to_vec(),
        addr: Ipv4::new(216, 239, 32, 10),
        ttl: 300,
    });
    let reply = build_response(9, Some(question.clone()), Some(result));
    assert_eq!(reply.header.rescode, ResultCode::NOERROR);
    assert_eq!(reply.questions, vec![question]);
    // The answer section of the upstream result is not copied through.
    assert!(reply.answers.is_empty());
    assert_eq!(reply.authorities.len(), 1);
    assert_eq!(reply.resources.len(), 1);
}

#[test]
fn lookup_packet_encodes_and_decodes() {
    let mut query = build_lookup_packet(b"www.example.com".to_vec(), QueryType::A);
    let mut buffer = simple_dns::buffer::BytePacketBuffer::new();
    query.write(&mut buffer).unwrap();
    buffer.seek(0).unwrap();
    let parsed = DnsPacket::from_buffer(&mut buffer).unwrap();
    assert_eq!(parsed.header.id, 6666);
    assert!(parsed.header.recursion_desired);
    assert_eq!(parsed.header.questions, 1);
    assert_eq!(parsed.questions[0].name, b"www.example.com".to_vec());
    assert_eq!(parsed.questions[0].qtype, QueryType::A);
}
