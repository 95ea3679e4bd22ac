//! Resource records: the tagged variant for A, NS, CNAME, MX, AAAA and
//! opaque unknown records, with their wire codecs. Variable-width bodies
//! (NS, CNAME, MX) reserve a two-byte RDLENGTH slot, write the body, then
//! back-patch the slot; unknown records are skipped on write.

use vstd::prelude::*;

use crate::buffer::BytePacketBuffer;
use crate::name::{encoded_name, labels_fit, parse_qname_at, valid_name, QnameResult};
use crate::name::{lemma_encoded_name_len, lemma_parse_encoded_name};
use crate::types::{qtype_num, qtype_of_num, DnsError, Ipv4, Ipv6, QueryType};
use crate::wire::{splice, u16_bytes, u16_hi, u16_lo, u16_of, u32_bytes, u32_of};
use crate::wire::{lemma_splice_inner, lemma_splice_splice, lemma_u16_round, lemma_u32_of_parts,
    lemma_u32_round, lemma_u32_split_u16, lemma_update_is_splice};

verus! {

/// One resource record of any section.
#[derive(Clone, Debug, PartialEq, Eq)]
pub enum DnsRecord {
    UNKNOWN { domain: Vec<u8>, qtype: u16, data_len: u16, ttl: u32 },
    A { domain: Vec<u8>, addr: Ipv4, ttl: u32 },
    NS { domain: Vec<u8>, host: Vec<u8>, ttl: u32 },
    CNAME { domain: Vec<u8>, host: Vec<u8>, ttl: u32 },
    MX { domain: Vec<u8>, host: Vec<u8>, priority: u16, ttl: u32 },
    AAAA { domain: Vec<u8>, addr: Ipv6, ttl: u32 },
}

/// The mathematical value of a record, with names as byte sequences.
#[verifier::ext_equal]
pub enum RecordModel {
    UNKNOWN { domain: Seq<u8>, qtype: u16, data_len: u16, ttl: u32 },
    A { domain: Seq<u8>, addr: Ipv4, ttl: u32 },
    NS { domain: Seq<u8>, host: Seq<u8>, ttl: u32 },
    CNAME { domain: Seq<u8>, host: Seq<u8>, ttl: u32 },
    MX { domain: Seq<u8>, host: Seq<u8>, priority: u16, ttl: u32 },
    AAAA { domain: Seq<u8>, addr: Ipv6, ttl: u32 },
}

impl View for DnsRecord {
    type V = RecordModel;

    open spec fn view(&self) -> RecordModel {
        match *self {
            DnsRecord::UNKNOWN { ref domain, qtype, data_len, ttl } => RecordModel::UNKNOWN {
                domain: domain@,
                qtype,
                data_len,
                ttl,
            },
            DnsRecord::A { ref domain, addr, ttl } => RecordModel::A { domain: domain@, addr, ttl },
            DnsRecord::NS { ref domain, ref host, ttl } => RecordModel::NS {
                domain: domain@,
                host: host@,
                ttl,
            },
            DnsRecord::CNAME { ref domain, ref host, ttl } => RecordModel::CNAME {
                domain: domain@,
                host: host@,
                ttl,
            },
            DnsRecord::MX { ref domain, ref host, priority, ttl } => RecordModel::MX {
                domain: domain@,
                host: host@,
                priority,
                ttl,
            },
            DnsRecord::AAAA { ref domain, addr, ttl } => RecordModel::AAAA {
                domain: domain@,
                addr,
                ttl,
            },
        }
    }
}

/// The common head of every written record: name, type, class IN, TTL.
pub open spec fn rr_head(domain: Seq<u8>, tnum: u16, ttl: u32) -> Seq<u8> {
    encoded_name(domain) + u16_bytes(tnum) + u16_bytes(1) + u32_bytes(ttl)
}

/// The bytes a record is written as; unknown records are skipped.
pub open spec fn encoded_record(r: RecordModel) -> Seq<u8> {
    match r {
        RecordModel::UNKNOWN { .. } => Seq::empty(),
        RecordModel::A { domain, addr, ttl } => rr_head(domain, 1, ttl) + u16_bytes(4) + seq![
            addr.a,
            addr.b,
            addr.c,
            addr.d,
        ],
        RecordModel::NS { domain, host, ttl } => rr_head(domain, 2, ttl) + u16_bytes(
            (host.len() + 2) as u16,
        ) + encoded_name(host),
        RecordModel::CNAME { domain, host, ttl } => rr_head(domain, 5, ttl) + u16_bytes(
            (host.len() + 2) as u16,
        ) + encoded_name(host),
        RecordModel::MX { domain, host, priority, ttl } => rr_head(domain, 15, ttl) + u16_bytes(
            (host.len() + 4) as u16,
        ) + u16_bytes(priority) + encoded_name(host),
        RecordModel::AAAA { domain, addr, ttl } => rr_head(domain, 28, ttl) + u16_bytes(16)
            + u16_bytes(addr.s0) + u16_bytes(addr.s1) + u16_bytes(addr.s2) + u16_bytes(addr.s3)
            + u16_bytes(addr.s4) + u16_bytes(addr.s5) + u16_bytes(addr.s6) + u16_bytes(addr.s7),
    }
}

/// Every name the written form of `r` contains fits the 63-byte label rule.
pub open spec fn record_names_fit(r: RecordModel) -> bool {
    match r {
        RecordModel::UNKNOWN { .. } => true,
        RecordModel::A { domain, .. } => labels_fit(domain),
        RecordModel::NS { domain, host, .. } => labels_fit(domain) && labels_fit(host),
        RecordModel::CNAME { domain, host, .. } => labels_fit(domain) && labels_fit(host),
        RecordModel::MX { domain, host, .. } => labels_fit(domain) && labels_fit(host),
        RecordModel::AAAA { domain, .. } => labels_fit(domain),
    }
}

/// A record the codec round-trips: a known type whose names are valid.
pub open spec fn wf_record(r: RecordModel) -> bool {
    match r {
        RecordModel::UNKNOWN { .. } => false,
        RecordModel::A { domain, .. } => valid_name(domain),
        RecordModel::NS { domain, host, .. } => valid_name(domain) && valid_name(host),
        RecordModel::CNAME { domain, host, .. } => valid_name(domain) && valid_name(host),
        RecordModel::MX { domain, host, .. } => valid_name(domain) && valid_name(host),
        RecordModel::AAAA { domain, .. } => valid_name(domain),
    }
}

/// The record decoded at `pos` and the position just past it. The class
/// field is skipped; unknown bodies are skipped by their RDLENGTH.
pub open spec fn parse_record(buf: Seq<u8>, pos: int) -> Option<(RecordModel, int)> {
    match parse_qname_at(buf, pos, 5) {
        QnameResult::Parsed { name: domain, end: p } => {
            if p + 10 <= 512 {
                let qnum = u16_of(buf[p], buf[p + 1]);
                let ttl = u32_of(buf[p + 4], buf[p + 5], buf[p + 6], buf[p + 7]);
                let dlen = u16_of(buf[p + 8], buf[p + 9]);
                let q = p + 10;
                match qtype_of_num(qnum) {
                    QueryType::A => if q + 4 <= 512 {
                        Some(
                            (
                                RecordModel::A {
                                    domain,
                                    addr: Ipv4 {
                                        a: buf[q],
                                        b: buf[q + 1],
                                        c: buf[q + 2],
                                        d: buf[q + 3],
                                    },
                                    ttl,
                                },
                                q + 4,
                            ),
                        )
                    } else {
                        None
                    },
                    QueryType::AAAA => if q + 16 <= 512 {
                        Some(
                            (
                                RecordModel::AAAA {
                                    domain,
                                    addr: Ipv6 {
                                        s0: u16_of(buf[q], buf[q + 1]),
                                        s1: u16_of(buf[q + 2], buf[q + 3]),
                                        s2: u16_of(buf[q + 4], buf[q + 5]),
                                        s3: u16_of(buf[q + 6], buf[q + 7]),
                                        s4: u16_of(buf[q + 8], buf[q + 9]),
                                        s5: u16_of(buf[q + 10], buf[q + 11]),
                                        s6: u16_of(buf[q + 12], buf[q + 13]),
                                        s7: u16_of(buf[q + 14], buf[q + 15]),
                                    },
                                    ttl,
                                },
                                q + 16,
                            ),
                        )
                    } else {
                        None
                    },
                    QueryType::NS => match parse_qname_at(buf, q, 5) {
                        QnameResult::Parsed { name: host, end } => Some(
                            (RecordModel::NS { domain, host, ttl }, end),
                        ),
                        _ => None,
                    },
                    QueryType::CNAME => match parse_qname_at(buf, q, 5) {
                        QnameResult::Parsed { name: host, end } => Some(
                            (RecordModel::CNAME { domain, host, ttl }, end),
                        ),
                        _ => None,
                    },
                    QueryType::MX => if q + 2 <= 512 {
                        match parse_qname_at(buf, q + 2, 5) {
                            QnameResult::Parsed { name: host, end } => Some(
                                (
                                    RecordModel::MX {
                                        domain,
                                        host,
                                        priority: u16_of(buf[q], buf[q + 1]),
                                        ttl,
                                    },
                                    end,
                                ),
                            ),
                            _ => None,
                        }
                    } else {
                        None
                    },
                    QueryType::UNKNOWN(_) => Some(
                        (RecordModel::UNKNOWN { domain, qtype: qnum, data_len: dlen, ttl }, q
                            + dlen),
                    ),
                }
            } else {
                None
            }
        },
        _ => None,
    }
}

/// Write the head shared by all record types: name, type, class IN, TTL.
fn write_rr_head(buffer: &mut BytePacketBuffer, domain: &Vec<u8>, tnum: u16, ttl: u32) -> (r:
    Result<(), DnsError>)
    requires
        old(buffer).wf(),
    ensures
        final(buffer).wf(),
        final(buffer).pos >= old(buffer).pos,
        r is Ok <==> labels_fit(domain@) && old(buffer).pos + domain@.len() + 10 <= 512,
        r is Ok ==> final(buffer).buf@ == splice(
            old(buffer).buf@,
            old(buffer).pos as int,
            rr_head(domain@, tnum, ttl),
        ) && final(buffer).pos == old(buffer).pos + domain@.len() + 10,
        r is Err ==> (forall|i: int|
            0 <= i < old(buffer).pos ==> final(buffer).buf@[i] == old(buffer).buf@[i]),
        labels_fit(domain@) && old(buffer).pos + domain@.len() + 10 > 512 ==> r == Err::<
            (),
            DnsError,
        >(DnsError::EndOfBuffer),
        !labels_fit(domain@) && old(buffer).pos + domain@.len() + 2 <= 512 ==> r == Err::<
            (),
            DnsError,
        >(DnsError::LabelTooLong),
{
    let ghost buf0 = buffer.buf@;
    let ghost p0 = buffer.pos as int;
    proof {
        lemma_encoded_name_len(domain@);
    }
    buffer.write_qname(domain)?;
    buffer.write_u16(tnum)?;
    buffer.write_u16(1)?;
    buffer.write_u32(ttl)?;
    proof {
        let en = encoded_name(domain@);
        lemma_splice_splice(buf0, p0, en, u16_bytes(tnum));
        lemma_splice_splice(buf0, p0, en + u16_bytes(tnum), u16_bytes(1));
        lemma_splice_splice(buf0, p0, en + u16_bytes(tnum) + u16_bytes(1), u32_bytes(ttl));
        assert(en + u16_bytes(tnum) + u16_bytes(1) + u32_bytes(ttl) =~= rr_head(
            domain@,
            tnum,
            ttl,
        ));
    }
    Ok(())
}

impl DnsRecord {
    /// Decode one record at the cursor; the cursor ends just past it.
    pub fn read(buffer: &mut BytePacketBuffer) -> (r: Result<DnsRecord, DnsError>)
        requires
            old(buffer).wf(),
        ensures
            final(buffer).wf(),
            final(buffer).buf == old(buffer).buf,
            r is Ok <==> parse_record(old(buffer).buf@, old(buffer).pos as int) is Some,
            (match parse_record(old(buffer).buf@, old(buffer).pos as int) {
                Some((m, end)) => r is Ok && r->Ok_0@ == m && final(buffer).pos == end,
                None => r is Err,
            }),
    {
        let mut domain: Vec<u8> = Vec::new();
        match buffer.read_qname(&mut domain) {
            Ok(_) => (),
            Err(e) => {
                return Err(e);
            },
        }
        proof {
            assert(Seq::<u8>::empty() + domain@ =~= domain@);
        }
        let qtype_num = buffer.read_u16()?;
        let qtype = QueryType::from_num(qtype_num);
        let _class = buffer.read_u16()?;
        let ttl = buffer.read_u32()?;
        let data_len = buffer.read_u16()?;

        match qtype {
            QueryType::A => {
                let ghost q = buffer.pos as int;
                let raw_addr = buffer.read_u32()?;
                proof {
                    let b = buffer.buf@;
                    lemma_u32_of_parts(b[q], b[q + 1], b[q + 2], b[q + 3]);
                }
                let addr = Ipv4::new(
                    ((raw_addr >> 24) & 0xFF) as u8,
                    ((raw_addr >> 16) & 0xFF) as u8,
                    ((raw_addr >> 8) & 0xFF) as u8,
                    (raw_addr & 0xFF) as u8,
                );
                Ok(DnsRecord::A { domain, addr, ttl })
            },
            QueryType::AAAA => {
                let ghost q = buffer.pos as int;
                let raw_addr1 = buffer.read_u32()?;
                let raw_addr2 = buffer.read_u32()?;
                let raw_addr3 = buffer.read_u32()?;
                let raw_addr4 = buffer.read_u32()?;
                proof {
                    let b = buffer.buf@;
                    lemma_u32_split_u16(b[q], b[q + 1], b[q + 2], b[q + 3]);
                    lemma_u32_split_u16(b[q + 4], b[q + 5], b[q + 6], b[q + 7]);
                    lemma_u32_split_u16(b[q + 8], b[q + 9], b[q + 10], b[q + 11]);
                    lemma_u32_split_u16(b[q + 12], b[q + 13], b[q + 14], b[q + 15]);
                }
                let addr = Ipv6::new(
                    ((raw_addr1 >> 16) & 0xFFFF) as u16,
                    (raw_addr1 & 0xFFFF) as u16,
                    ((raw_addr2 >> 16) & 0xFFFF) as u16,
                    (raw_addr2 & 0xFFFF) as u16,
                    ((raw_addr3 >> 16) & 0xFFFF) as u16,
                    (raw_addr3 & 0xFFFF) as u16,
                    ((raw_addr4 >> 16) & 0xFFFF) as u16,
                    (raw_addr4 & 0xFFFF) as u16,
                );
                Ok(DnsRecord::AAAA { domain, addr, ttl })
            },
            QueryType::NS => {
                let mut ns: Vec<u8> = Vec::new();
                match buffer.read_qname(&mut ns) {
                    Ok(_) => (),
                    Err(e) => {
                        return Err(e);
                    },
                }
                proof {
                    assert(Seq::<u8>::empty() + ns@ =~= ns@);
                }
                Ok(DnsRecord::NS { domain, host: ns, ttl })
            },
            QueryType::CNAME => {
                let mut cname: Vec<u8> = Vec::new();
                match buffer.read_qname(&mut cname) {
                    Ok(_) => (),
                    Err(e) => {
                        return Err(e);
                    },
                }
                proof {
                    assert(Seq::<u8>::empty() + cname@ =~= cname@);
                }
                Ok(DnsRecord::CNAME { domain, host: cname, ttl })
            },
            QueryType::MX => {
                let priority = buffer.read_u16()?;
                let mut mx: Vec<u8> = Vec::new();
                match buffer.read_qname(&mut mx) {
                    Ok(_) => (),
                    Err(e) => {
                        return Err(e);
                    },
                }
                proof {
                    assert(Seq::<u8>::empty() + mx@ =~= mx@);
                }
                Ok(DnsRecord::MX { domain, host: mx, priority, ttl })
            },
            QueryType::UNKNOWN(_) => {
                buffer.step(data_len as usize)?;
                Ok(DnsRecord::UNKNOWN { domain, qtype: qtype_num, data_len, ttl })
            },
        }
    }

    /// Encode this record at the cursor and return how many bytes it took.
    /// Fixed-width bodies (A, AAAA) write their RDLENGTH directly; the
    /// others reserve it and back-patch it; unknown records write nothing.
    #[verifier::rlimit(100)]
    #[verifier::spinoff_prover]
    pub fn write(&self, buffer: &mut BytePacketBuffer) -> (r: Result<usize, DnsError>)
        requires
            old(buffer).wf(),
        ensures
            final(buffer).wf(),
            final(buffer).pos >= old(buffer).pos,
            self@ is UNKNOWN ==> r == Ok::<usize, DnsError>(0) && *final(buffer) == *old(buffer),
            !(self@ is UNKNOWN) ==> (r is Ok <==> record_names_fit(self@) && old(buffer).pos
                + encoded_record(self@).len() <= 512),
            !(self@ is UNKNOWN) && r is Ok ==> final(buffer).buf@ == splice(
                old(buffer).buf@,
                old(buffer).pos as int,
                encoded_record(self@),
            ) && final(buffer).pos == old(buffer).pos + encoded_record(self@).len()
                && r->Ok_0 == encoded_record(self@).len(),
            r is Err ==> (forall|i: int|
                0 <= i < old(buffer).pos ==> final(buffer).buf@[i] == old(buffer).buf@[i]),
            !(self@ is UNKNOWN) && record_names_fit(self@) && old(buffer).pos + encoded_record(
                self@,
            ).len() > 512 ==> r == Err::<usize, DnsError>(DnsError::EndOfBuffer),
    {
        let ghost buf0 = buffer.buf@;
        let ghost p0 = buffer.pos as int;
        let start_pos = buffer.pos();
        match self {
            DnsRecord::A { domain, addr, ttl } => {
                proof {
                    lemma_encoded_name_len(domain@);
                }
                write_rr_head(buffer, domain, QueryType::A.to_num(), *ttl)?;
                buffer.write_u16(4)?;
                buffer.write_u8(addr.a)?;
                buffer.write_u8(addr.b)?;
                buffer.write_u8(addr.c)?;
                buffer.write_u8(addr.d)?;
                proof {
                    let h = rr_head(domain@, 1, *ttl);
                    lemma_splice_splice(buf0, p0, h, u16_bytes(4));
                    let s2 = h + u16_bytes(4);
                    lemma_update_is_splice(splice(buf0, p0, s2), p0 + s2.len(), addr.a);
                    lemma_splice_splice(buf0, p0, s2, seq![addr.a]);
                    let s3 = s2 + seq![addr.a];
                    lemma_update_is_splice(splice(buf0, p0, s3), p0 + s3.len(), addr.b);
                    lemma_splice_splice(buf0, p0, s3, seq![addr.b]);
                    let s4 = s3 + seq![addr.b];
                    lemma_update_is_splice(splice(buf0, p0, s4), p0 + s4.len(), addr.c);
                    lemma_splice_splice(buf0, p0, s4, seq![addr.c]);
                    let s5 = s4 + seq![addr.c];
                    lemma_update_is_splice(splice(buf0, p0, s5), p0 + s5.len(), addr.d);
                    lemma_splice_splice(buf0, p0, s5, seq![addr.d]);
                    assert(s5 + seq![addr.d] =~= encoded_record(self@));
                }
                Ok(buffer.pos() - start_pos)
            },
            DnsRecord::NS { domain, host, ttl } => {
                proof {
                    lemma_encoded_name_len(domain@);
                    lemma_encoded_name_len(host@);
                }
                write_rr_head(buffer, domain, QueryType::NS.to_num(), *ttl)?;
                let pos = buffer.pos();
                buffer.write_u16(0)?;
                buffer.write_qname(host)?;
                proof {
                    let h = rr_head(domain@, 2, *ttl);
                    lemma_splice_splice(buf0, p0, h, u16_bytes(0));
                    lemma_splice_splice(buf0, p0, h + u16_bytes(0), encoded_name(host@));
                }
                let size = buffer.pos() - (pos + 2);
                buffer.set_u16(pos, size as u16)?;
                proof {
                    let patch = ns_body_patch(domain@, host@, *ttl);
                    lemma_splice_inner(buf0, p0, patch, pos - p0, u16_bytes(size as u16));
                    assert(patch.subrange(0, pos - p0) + u16_bytes(size as u16) + patch.subrange(
                        pos - p0 + 2,
                        patch.len() as int,
                    ) =~= encoded_record(self@));
                }
                Ok(buffer.pos() - start_pos)
            },
            DnsRecord::CNAME { domain, host, ttl } => {
                proof {
                    lemma_encoded_name_len(domain@);
                    lemma_encoded_name_len(host@);
                }
                write_rr_head(buffer, domain, QueryType::CNAME.to_num(), *ttl)?;
                let pos = buffer.pos();
                buffer.write_u16(0)?;
                buffer.write_qname(host)?;
                proof {
                    let h = rr_head(domain@, 5, *ttl);
                    lemma_splice_splice(buf0, p0, h, u16_bytes(0));
                    lemma_splice_splice(buf0, p0, h + u16_bytes(0), encoded_name(host@));
                }
                let size = buffer.pos() - (pos + 2);
                buffer.set_u16(pos, size as u16)?;
                proof {
                    let patch = rr_head(domain@, 5, *ttl) + u16_bytes(0) + encoded_name(host@);
                    lemma_splice_inner(buf0, p0, patch, pos - p0, u16_bytes(size as u16));
                    assert(patch.subrange(0, pos - p0) + u16_bytes(size as u16) + patch.subrange(
                        pos - p0 + 2,
                        patch.len() as int,
                    ) =~= encoded_record(self@));
                }
                Ok(buffer.pos() - start_pos)
            },
            DnsRecord::MX { domain, host, priority, ttl } => {
                proof {
                    lemma_encoded_name_len(domain@);
                    lemma_encoded_name_len(host@);
                }
                write_rr_head(buffer, domain, QueryType::MX.to_num(), *ttl)?;
                let pos = buffer.pos();
                buffer.write_u16(0)?;
                buffer.write_u16(*priority)?;
                buffer.write_qname(host)?;
                proof {
                    let h = rr_head(domain@, 15, *ttl);
                    lemma_splice_splice(buf0, p0, h, u16_bytes(0));
                    lemma_splice_splice(buf0, p0, h + u16_bytes(0), u16_bytes(*priority));
                    lemma_splice_splice(
                        buf0,
                        p0,
                        h + u16_bytes(0) + u16_bytes(*priority),
                        encoded_name(host@),
                    );
                }
                let size = buffer.pos() - (pos + 2);
                buffer.set_u16(pos, size as u16)?;
                proof {
                    let patch = rr_head(domain@, 15, *ttl) + u16_bytes(0) + u16_bytes(*priority)
                        + encoded_name(host@);
                    lemma_splice_inner(buf0, p0, patch, pos - p0, u16_bytes(size as u16));
                    assert(patch.subrange(0, pos - p0) + u16_bytes(size as u16) + patch.subrange(
                        pos - p0 + 2,
                        patch.len() as int,
                    ) =~= encoded_record(self@));
                }
                Ok(buffer.pos() - start_pos)
            },
            DnsRecord::AAAA { domain, addr, ttl } => {
                proof {
                    lemma_encoded_name_len(domain@);
                }
                write_rr_head(buffer, domain, QueryType::AAAA.to_num(), *ttl)?;
                buffer.write_u16(16)?;
                buffer.write_u16(addr.s0)?;
                buffer.write_u16(addr.s1)?;
                buffer.write_u16(addr.s2)?;
                buffer.write_u16(addr.s3)?;
                buffer.write_u16(addr.s4)?;
                buffer.write_u16(addr.s5)?;
                buffer.write_u16(addr.s6)?;
                buffer.write_u16(addr.s7)?;
                proof {
                    let h = rr_head(domain@, 28, *ttl);
                    lemma_splice_splice(buf0, p0, h, u16_bytes(16));
                    let s2 = h + u16_bytes(16);
                    lemma_splice_splice(buf0, p0, s2, u16_bytes(addr.s0));
                    let s3 = s2 + u16_bytes(addr.s0);
                    lemma_splice_splice(buf0, p0, s3, u16_bytes(addr.s1));
                    let s4 = s3 + u16_bytes(addr.s1);
                    lemma_splice_splice(buf0, p0, s4, u16_bytes(addr.s2));
                    let s5 = s4 + u16_bytes(addr.s2);
                    lemma_splice_splice(buf0, p0, s5, u16_bytes(addr.s3));
                    let s6 = s5 + u16_bytes(addr.s3);
                    lemma_splice_splice(buf0, p0, s6, u16_bytes(addr.s4));
                    let s7 = s6 + u16_bytes(addr.s4);
                    lemma_splice_splice(buf0, p0, s7, u16_bytes(addr.s5));
                    let s8 = s7 + u16_bytes(addr.s5);
                    lemma_splice_splice(buf0, p0, s8, u16_bytes(addr.s6));
                    let s9 = s8 + u16_bytes(addr.s6);
                    lemma_splice_splice(buf0, p0, s9, u16_bytes(addr.s7));
                    assert(s9 + u16_bytes(addr.s7) =~= encoded_record(self@));
                }
                Ok(buffer.pos() - start_pos)
            },
            DnsRecord::UNKNOWN { .. } => {
                Ok(0)
            },
        }
    }
}

/// Decoding an encoded known-type record gives the record back.
#[verifier::rlimit(100)]
#[verifier::spinoff_prover]
pub proof fn lemma_parse_encoded_record(buf: Seq<u8>, pos: int, r: RecordModel)
    requires
        buf.len() == 512,
        wf_record(r),
        0 <= pos,
        pos + encoded_record(r).len() <= 512,
        buf.subrange(pos, pos + encoded_record(r).len()) == encoded_record(r),
    ensures
        parse_record(buf, pos) == Some((r, pos + encoded_record(r).len())),
{
    let enc = encoded_record(r);
    assert forall|i: int| 0 <= i < enc.len() implies buf[pos + i] == #[trigger] enc[i] by {
        assert(buf.subrange(pos, pos + enc.len())[i] == enc[i]);
    }
    let domain = record_domain(r);
    lemma_encoded_name_len(domain);
    let dl = domain.len() as int;
    assert(buf.subrange(pos, pos + dl + 2) =~= encoded_name(domain)) by {
        assert forall|i: int| 0 <= i < dl + 2 implies buf.subrange(pos, pos + dl + 2)[i]
            == encoded_name(domain)[i] by {
            assert(enc[i] == encoded_name(domain)[i]);
        }
    }
    lemma_parse_encoded_name(buf, pos, domain, 5);
    let p = pos + dl + 2;
    let tnum = record_tnum(r);
    let ttl = record_ttl(r);
    assert(enc[dl + 2] == u16_hi(tnum) && enc[dl + 3] == u16_lo(tnum) && enc[dl + 6]
        == crate::wire::u32_b0(ttl) && enc[dl + 7] == crate::wire::u32_b1(ttl) && enc[dl + 8]
        == crate::wire::u32_b2(ttl) && enc[dl + 9] == crate::wire::u32_b3(ttl));
    assert(buf[p] == u16_hi(tnum) && buf[p + 1] == u16_lo(tnum));
    lemma_u16_round(tnum);
    lemma_u16_round(1);
    assert(buf[p + 4] == crate::wire::u32_b0(ttl) && buf[p + 5] == crate::wire::u32_b1(ttl) && buf[p
        + 6] == crate::wire::u32_b2(ttl) && buf[p + 7] == crate::wire::u32_b3(ttl));
    lemma_u32_round(ttl);
    let q = p + 10;
    match r {
        RecordModel::UNKNOWN { .. } => {},
        RecordModel::A { domain: d, addr, ttl: t } => {
            assert(enc[dl + 12] == addr.a && enc[dl + 13] == addr.b && enc[dl + 14] == addr.c
                && enc[dl + 15] == addr.d);
            assert(buf[q] == addr.a && buf[q + 1] == addr.b && buf[q + 2] == addr.c && buf[q + 3]
                == addr.d);
            assert(parse_record(buf, pos) == Some((r, pos + enc.len()))) by {
                assert((RecordModel::A {
                    domain: d,
                    addr: Ipv4 { a: buf[q], b: buf[q + 1], c: buf[q + 2], d: buf[q + 3] },
                    ttl: t,
                }) =~= r);
            }
        },
        RecordModel::AAAA { domain: d, addr, ttl: t } => {
            lemma_u16_round(addr.s0);
            lemma_u16_round(addr.s1);
            lemma_u16_round(addr.s2);
            lemma_u16_round(addr.s3);
            lemma_u16_round(addr.s4);
            lemma_u16_round(addr.s5);
            lemma_u16_round(addr.s6);
            lemma_u16_round(addr.s7);
            assert(enc[dl + 12] == u16_hi(addr.s0) && enc[dl + 13] == u16_lo(addr.s0) && enc[dl
                + 14] == u16_hi(addr.s1) && enc[dl + 15] == u16_lo(addr.s1) && enc[dl + 16]
                == u16_hi(addr.s2) && enc[dl + 17] == u16_lo(addr.s2) && enc[dl + 18] == u16_hi(
                addr.s3,
            ) && enc[dl + 19] == u16_lo(addr.s3));
            assert(enc[dl + 20] == u16_hi(addr.s4) && enc[dl + 21] == u16_lo(addr.s4) && enc[dl
                + 22] == u16_hi(addr.s5) && enc[dl + 23] == u16_lo(addr.s5) && enc[dl + 24]
                == u16_hi(addr.s6) && enc[dl + 25] == u16_lo(addr.s6) && enc[dl + 26] == u16_hi(
                addr.s7,
            ) && enc[dl + 27] == u16_lo(addr.s7));
            assert(parse_record(buf, pos) == Some((r, pos + enc.len()))) by {
                assert((RecordModel::AAAA {
                    domain: d,
                    addr: Ipv6 {
                        s0: u16_of(buf[q], buf[q + 1]),
                        s1: u16_of(buf[q + 2], buf[q + 3]),
                        s2: u16_of(buf[q + 4], buf[q + 5]),
                        s3: u16_of(buf[q + 6], buf[q + 7]),
                        s4: u16_of(buf[q + 8], buf[q + 9]),
                        s5: u16_of(buf[q + 10], buf[q + 11]),
                        s6: u16_of(buf[q + 12], buf[q + 13]),
                        s7: u16_of(buf[q + 14], buf[q + 15]),
                    },
                    ttl: t,
                }) =~= r);
            }
        },
        RecordModel::NS { domain: d, host, ttl: t } => {
            lemma_encoded_name_len(host);
            let hl = host.len() as int;
            assert(buf.subrange(q, q + hl + 2) =~= encoded_name(host)) by {
                assert forall|i: int| 0 <= i < hl + 2 implies buf.subrange(q, q + hl + 2)[i]
                    == encoded_name(host)[i] by {
                    assert(enc[dl + 12 + i] == encoded_name(host)[i]);
                }
            }
            lemma_parse_encoded_name(buf, q, host, 5);
            assert(parse_record(buf, pos) == Some((r, pos + enc.len())));
        },
        RecordModel::CNAME { domain: d, host, ttl: t } => {
            lemma_encoded_name_len(host);
            let hl = host.len() as int;
            assert(buf.subrange(q, q + hl + 2) =~= encoded_name(host)) by {
                assert forall|i: int| 0 <= i < hl + 2 implies buf.subrange(q, q + hl + 2)[i]
                    == encoded_name(host)[i] by {
                    assert(enc[dl + 12 + i] == encoded_name(host)[i]);
                }
            }
            lemma_parse_encoded_name(buf, q, host, 5);
            assert(parse_record(buf, pos) == Some((r, pos + enc.len())));
        },
        RecordModel::MX { domain: d, host, priority, ttl: t } => {
            lemma_encoded_name_len(host);
            lemma_u16_round(priority);
            let hl = host.len() as int;
            assert(enc[dl + 12] == u16_hi(priority) && enc[dl + 13] == u16_lo(priority));
            assert(buf[q] == u16_hi(priority) && buf[q + 1] == u16_lo(priority));
            assert(buf.subrange(q + 2, q + 2 + hl + 2) =~= encoded_name(host)) by {
                assert forall|i: int| 0 <= i < hl + 2 implies buf.subrange(q + 2, q + 2 + hl + 2)[i]
                    == encoded_name(host)[i] by {
                    assert(enc[dl + 14 + i] == encoded_name(host)[i]);
                }
            }
            lemma_parse_encoded_name(buf, q + 2, host, 5);
            assert(parse_record(buf, pos) == Some((r, pos + enc.len())));
        },
    }
}

/// The bytes an NS record holds before its RDLENGTH slot is back-filled:
/// the head, the two-byte placeholder, and the host name.
pub open spec fn ns_body_patch(domain: Seq<u8>, host: Seq<u8>, ttl: u32) -> Seq<u8> {
    rr_head(domain, 2, ttl) + u16_bytes(0) + encoded_name(host)
}

/// The domain a record names.
pub open spec fn record_domain(r: RecordModel) -> Seq<u8> {
    match r {
        RecordModel::UNKNOWN { domain, .. } => domain,
        RecordModel::A { domain, .. } => domain,
        RecordModel::NS { domain, .. } => domain,
        RecordModel::CNAME { domain, .. } => domain,
        RecordModel::MX { domain, .. } => domain,
        RecordModel::AAAA { domain, .. } => domain,
    }
}

/// The numeric type a record is written with.
pub open spec fn record_tnum(r: RecordModel) -> u16 {
    match r {
        RecordModel::UNKNOWN { qtype, .. } => qtype,
        RecordModel::A { .. } => 1,
        RecordModel::NS { .. } => 2,
        RecordModel::CNAME { .. } => 5,
        RecordModel::MX { .. } => 15,
        RecordModel::AAAA { .. } => 28,
    }
}

/// A record's time to live.
pub open spec fn record_ttl(r: RecordModel) -> u32 {
    match r {
        RecordModel::UNKNOWN { ttl, .. } => ttl,
        RecordModel::A { ttl, .. } => ttl,
        RecordModel::NS { ttl, .. } => ttl,
        RecordModel::CNAME { ttl, .. } => ttl,
        RecordModel::MX { ttl, .. } => ttl,
        RecordModel::AAAA { ttl, .. } => ttl,
    }
}

} // verus!
