//! Whole DNS messages: a header and the four ordered sections. Decoding
//! reads as many entries of each section as the header counts say; encoding
//! first overwrites the header counts with the in-memory section lengths,
//! so the counts on the wire are always authoritative.

use vstd::prelude::*;

use crate::buffer::BytePacketBuffer;
use crate::header::{default_header, encoded_header, lemma_header_round_trip, parse_header, DnsHeader};
use crate::name::{labels_fit, valid_name};
use crate::name::lemma_encoded_name_len;
use crate::question::{encoded_question, parse_question, DnsQuestion, QuestionModel};
use crate::record::{encoded_record, parse_record, record_names_fit, wf_record, DnsRecord,
    RecordModel};
use crate::types::{canonical_qtype, DnsError, QueryType};
use crate::wire::splice;
use crate::wire::{lemma_splice_len, lemma_splice_splice};

verus! {

/// A whole DNS message.
#[derive(Clone, Debug, PartialEq, Eq)]
pub struct DnsPacket {
    pub header: DnsHeader,
    pub questions: Vec<DnsQuestion>,
    pub answers: Vec<DnsRecord>,
    pub authorities: Vec<DnsRecord>,
    pub resources: Vec<DnsRecord>,
}

/// The mathematical value of a packet.
#[verifier::ext_equal]
pub struct PacketModel {
    pub header: DnsHeader,
    pub questions: Seq<QuestionModel>,
    pub answers: Seq<RecordModel>,
    pub authorities: Seq<RecordModel>,
    pub resources: Seq<RecordModel>,
}

pub open spec fn questions_view(v: Seq<DnsQuestion>) -> Seq<QuestionModel> {
    v.map_values(|q: DnsQuestion| q@)
}

pub open spec fn records_view(v: Seq<DnsRecord>) -> Seq<RecordModel> {
    v.map_values(|r: DnsRecord| r@)
}

impl View for DnsPacket {
    type V = PacketModel;

    open spec fn view(&self) -> PacketModel {
        PacketModel {
            header: self.header,
            questions: questions_view(self.questions@),
            answers: records_view(self.answers@),
            authorities: records_view(self.authorities@),
            resources: records_view(self.resources@),
        }
    }
}

/// `n` questions decoded in sequence from `pos`.
pub open spec fn parse_questions(buf: Seq<u8>, pos: int, n: nat) -> Option<
    (Seq<QuestionModel>, int),
>
    decreases n,
{
    if n == 0 {
        Some((Seq::empty(), pos))
    } else {
        match parse_question(buf, pos) {
            Some((q, p2)) => match parse_questions(buf, p2, (n - 1) as nat) {
                Some((qs, end)) => Some((seq![q] + qs, end)),
                None => None,
            },
            None => None,
        }
    }
}

/// `n` records decoded in sequence from `pos`.
pub open spec fn parse_records(buf: Seq<u8>, pos: int, n: nat) -> Option<(Seq<RecordModel>, int)>
    decreases n,
{
    if n == 0 {
        Some((Seq::empty(), pos))
    } else {
        match parse_record(buf, pos) {
            Some((r, p2)) => match parse_records(buf, p2, (n - 1) as nat) {
                Some((rs, end)) => Some((seq![r] + rs, end)),
                None => None,
            },
            None => None,
        }
    }
}

/// The packet decoded from `pos`: header, then each section as counted.
pub open spec fn parse_packet(buf: Seq<u8>, pos: int) -> Option<(PacketModel, int)> {
    if !(0 <= pos && pos + 12 <= 512) {
        None
    } else {
        let h = parse_header(buf, pos);
        match parse_questions(buf, pos + 12, h.questions as nat) {
            Some((qs, p1)) => match parse_records(buf, p1, h.answers as nat) {
                Some((ans, p2)) => match parse_records(buf, p2, h.authoritative_entries as nat) {
                    Some((auth, p3)) => match parse_records(buf, p3, h.resource_entries as nat) {
                        Some((res, p4)) => Some(
                            (
                                PacketModel {
                                    header: h,
                                    questions: qs,
                                    answers: ans,
                                    authorities: auth,
                                    resources: res,
                                },
                                p4,
                            ),
                        ),
                        None => None,
                    },
                    None => None,
                },
                None => None,
            },
            None => None,
        }
    }
}

/// The header as encoding writes it: counts replaced by the section lengths.
pub open spec fn sealed_header(m: PacketModel) -> DnsHeader {
    DnsHeader {
        questions: m.questions.len() as u16,
        answers: m.answers.len() as u16,
        authoritative_entries: m.authorities.len() as u16,
        resource_entries: m.resources.len() as u16,
        ..m.header
    }
}

/// `m` with its header counts sealed, as it stands after encoding.
pub open spec fn sealed_packet(m: PacketModel) -> PacketModel {
    PacketModel { header: sealed_header(m), ..m }
}

pub open spec fn encoded_questions(qs: Seq<QuestionModel>) -> Seq<u8>
    decreases qs.len(),
{
    if qs.len() == 0 {
        Seq::empty()
    } else {
        encoded_question(qs[0]) + encoded_questions(qs.drop_first())
    }
}

pub open spec fn encoded_records(rs: Seq<RecordModel>) -> Seq<u8>
    decreases rs.len(),
{
    if rs.len() == 0 {
        Seq::empty()
    } else {
        encoded_record(rs[0]) + encoded_records(rs.drop_first())
    }
}

/// The bytes a packet is written as, with sealed header counts.
pub open spec fn encoded_packet(m: PacketModel) -> Seq<u8> {
    encoded_header(sealed_header(m)) + encoded_questions(m.questions) + encoded_records(m.answers)
        + encoded_records(m.authorities) + encoded_records(m.resources)
}

/// Every name in the section obeys the 63-byte label rule.
pub open spec fn records_fit(rs: Seq<RecordModel>) -> bool {
    forall|i: int| 0 <= i < rs.len() ==> record_names_fit(#[trigger] rs[i])
}

/// Every name in the packet obeys the 63-byte label rule.
pub open spec fn packet_names_fit(m: PacketModel) -> bool {
    &&& forall|i: int| 0 <= i < m.questions.len() ==> labels_fit(#[trigger] m.questions[i].name)
    &&& records_fit(m.answers)
    &&& records_fit(m.authorities)
    &&& records_fit(m.resources)
}

/// A packet the codec round-trips: QR clear (its packed bit overlaps the
/// opcode on this wire layout), a four-bit opcode, section lengths that fit
/// their counters, canonical question types, valid names, and no unknown
/// records.
pub open spec fn wf_packet(m: PacketModel) -> bool {
    &&& !m.header.response
    &&& m.header.opcode < 16
    &&& m.questions.len() < 0x10000
    &&& m.answers.len() < 0x10000
    &&& m.authorities.len() < 0x10000
    &&& m.resources.len() < 0x10000
    &&& forall|i: int|
        0 <= i < m.questions.len() ==> valid_name(#[trigger] m.questions[i].name)
            && canonical_qtype(m.questions[i].qtype)
    &&& forall|i: int| 0 <= i < m.answers.len() ==> wf_record(#[trigger] m.answers[i])
    &&& forall|i: int| 0 <= i < m.authorities.len() ==> wf_record(#[trigger] m.authorities[i])
    &&& forall|i: int| 0 <= i < m.resources.len() ==> wf_record(#[trigger] m.resources[i])
}

/// A question section splits at any index into its encoded parts.
pub proof fn lemma_encoded_questions_decompose(qs: Seq<QuestionModel>, i: int)
    requires
        0 <= i < qs.len(),
    ensures
        encoded_questions(qs) == encoded_questions(qs.take(i)) + encoded_question(qs[i])
            + encoded_questions(qs.skip(i + 1)),
    decreases i,
{
    if i == 0 {
        assert(qs.take(0) =~= Seq::<QuestionModel>::empty());
        assert(qs.skip(1) =~= qs.drop_first());
        assert(encoded_questions(qs.take(0)) + encoded_question(qs[0]) + encoded_questions(
            qs.skip(1),
        ) =~= encoded_question(qs[0]) + encoded_questions(qs.drop_first()));
    } else {
        let t = qs.drop_first();
        lemma_encoded_questions_decompose(t, i - 1);
        assert(t.take(i - 1) =~= qs.take(i).drop_first());
        assert(t[i - 1] == qs[i]);
        assert(t.skip(i) =~= qs.skip(i + 1));
        assert(qs.take(i)[0] == qs[0]);
        assert(encoded_questions(qs.take(i)) == encoded_question(qs[0]) + encoded_questions(
            qs.take(i).drop_first(),
        ));
        assert(encoded_question(qs[0]) + (encoded_questions(qs.take(i).drop_first())
            + encoded_question(qs[i]) + encoded_questions(qs.skip(i + 1))) =~= (encoded_question(
            qs[0],
        ) + encoded_questions(qs.take(i).drop_first())) + encoded_question(qs[i])
            + encoded_questions(qs.skip(i + 1)));
    }
}

/// Extending the taken prefix by one appends that question's bytes.
pub proof fn lemma_encoded_questions_push_take(qs: Seq<QuestionModel>, i: int)
    requires
        0 <= i < qs.len(),
    ensures
        encoded_questions(qs.take(i + 1)) == encoded_questions(qs.take(i)) + encoded_question(
            qs[i],
        ),
{
    let t = qs.take(i + 1);
    lemma_encoded_questions_decompose(t, i);
    assert(t.take(i) =~= qs.take(i));
    assert(t.skip(i + 1) =~= Seq::<QuestionModel>::empty());
    assert(encoded_questions(t.take(i)) + encoded_question(t[i]) + encoded_questions(t.skip(i + 1))
        =~= encoded_questions(qs.take(i)) + encoded_question(qs[i]));
}

/// A record section splits at any index into its encoded parts.
pub proof fn lemma_encoded_records_decompose(rs: Seq<RecordModel>, i: int)
    requires
        0 <= i < rs.len(),
    ensures
        encoded_records(rs) == encoded_records(rs.take(i)) + encoded_record(rs[i])
            + encoded_records(rs.skip(i + 1)),
    decreases i,
{
    if i == 0 {
        assert(rs.take(0) =~= Seq::<RecordModel>::empty());
        assert(rs.skip(1) =~= rs.drop_first());
        assert(encoded_records(rs.take(0)) + encoded_record(rs[0]) + encoded_records(rs.skip(1))
            =~= encoded_record(rs[0]) + encoded_records(rs.drop_first()));
    } else {
        let t = rs.drop_first();
        lemma_encoded_records_decompose(t, i - 1);
        assert(t.take(i - 1) =~= rs.take(i).drop_first());
        assert(t[i - 1] == rs[i]);
        assert(t.skip(i) =~= rs.skip(i + 1));
        assert(rs.take(i)[0] == rs[0]);
        assert(encoded_records(rs.take(i)) == encoded_record(rs[0]) + encoded_records(
            rs.take(i).drop_first(),
        ));
        assert(encoded_record(rs[0]) + (encoded_records(rs.take(i).drop_first()) + encoded_record(
            rs[i],
        ) + encoded_records(rs.skip(i + 1))) =~= (encoded_record(rs[0]) + encoded_records(
            rs.take(i).drop_first(),
        )) + encoded_record(rs[i]) + encoded_records(rs.skip(i + 1)));
    }
}

/// Extending the taken prefix by one appends that record's bytes.
pub proof fn lemma_encoded_records_push_take(rs: Seq<RecordModel>, i: int)
    requires
        0 <= i < rs.len(),
    ensures
        encoded_records(rs.take(i + 1)) == encoded_records(rs.take(i)) + encoded_record(rs[i]),
{
    let t = rs.take(i + 1);
    lemma_encoded_records_decompose(t, i);
    assert(t.take(i) =~= rs.take(i));
    assert(t.skip(i + 1) =~= Seq::<RecordModel>::empty());
    assert(encoded_records(t.take(i)) + encoded_record(t[i]) + encoded_records(t.skip(i + 1)) =~=
        encoded_records(rs.take(i)) + encoded_record(rs[i]));
}

/// Reading `n` questions into an empty `out`.
#[verifier::loop_isolation(false)]
fn read_questions(buffer: &mut BytePacketBuffer, n: u16, out: &mut Vec<DnsQuestion>) -> (r: Result<
    (),
    DnsError,
>)
    requires
        old(buffer).wf(),
        old(out)@.len() == 0,
    ensures
        final(buffer).wf(),
        final(buffer).buf == old(buffer).buf,
        r is Ok <==> parse_questions(old(buffer).buf@, old(buffer).pos as int, n as nat) is Some,
        (match parse_questions(old(buffer).buf@, old(buffer).pos as int, n as nat) {
            Some((qs, end)) => questions_view(final(out)@) == qs && final(buffer).pos == end,
            None => r is Err,
        }),
{
    let ghost buf = buffer.buf@;
    let ghost p_start = buffer.pos as int;
    let mut i: u16 = 0;
    while i < n
        invariant
            buffer.wf(),
            buffer.buf == old(buffer).buf,
            i <= n,
            parse_questions(buf, p_start, n as nat) == (match parse_questions(
                buf,
                buffer.pos as int,
                (n - i) as nat,
            ) {
                Some((qs, end)) => Some::<(Seq<QuestionModel>, int)>(
                    (questions_view(out@) + qs, end),
                ),
                None => None::<(Seq<QuestionModel>, int)>,
            }),
        decreases n - i,
    {
        let mut question = DnsQuestion::new(Vec::new(), QueryType::UNKNOWN(0));
        match question.read(buffer) {
            Ok(_) => (),
            Err(e) => {
                return Err(e);
            },
        }
        let ghost qs0 = questions_view(out@);
        let ghost qm = question@;
        proof {
            assert(Seq::<u8>::empty() + qm.name =~= qm.name);
        }
        out.push(question);
        i = i + 1;
        proof {
            assert(questions_view(out@) =~= qs0 + seq![qm]);
            if parse_questions(buf, buffer.pos as int, (n - i) as nat) is Some {
                let (qs, end) = parse_questions(buf, buffer.pos as int, (n - i) as nat)->Some_0;
                assert((qs0 + (seq![qm] + qs)) =~= ((qs0 + seq![qm]) + qs));
            }
        }
    }
    proof {
        if parse_questions(buf, p_start, n as nat) is Some {
            assert(questions_view(out@) + Seq::<QuestionModel>::empty() =~= questions_view(out@));
        }
    }
    Ok(())
}

/// Reading `n` records into an empty `out`.
#[verifier::loop_isolation(false)]
fn read_records(buffer: &mut BytePacketBuffer, n: u16, out: &mut Vec<DnsRecord>) -> (r: Result<
    (),
    DnsError,
>)
    requires
        old(buffer).wf(),
        old(out)@.len() == 0,
    ensures
        final(buffer).wf(),
        final(buffer).buf == old(buffer).buf,
        r is Ok <==> parse_records(old(buffer).buf@, old(buffer).pos as int, n as nat) is Some,
        (match parse_records(old(buffer).buf@, old(buffer).pos as int, n as nat) {
            Some((ms, end)) => records_view(final(out)@) == ms && final(buffer).pos == end,
            None => r is Err,
        }),
{
    let ghost buf = buffer.buf@;
    let ghost p_start = buffer.pos as int;
    let mut i: u16 = 0;
    while i < n
        invariant
            buffer.wf(),
            buffer.buf == old(buffer).buf,
            buffer.buf@ == buf,
            i <= n,
            parse_records(buf, p_start, n as nat) == (match parse_records(
                buf,
                buffer.pos as int,
                (n - i) as nat,
            ) {
                Some((ms, end)) => Some::<(Seq<RecordModel>, int)>(
                    (records_view(out@) + ms, end),
                ),
                None => None::<(Seq<RecordModel>, int)>,
            }),
        decreases n - i,
    {
        let rec = match DnsRecord::read(buffer) {
            Ok(rec) => rec,
            Err(e) => {
                return Err(e);
            },
        };
        let ghost ms0 = records_view(out@);
        let ghost recm = rec@;
        out.push(rec);
        i = i + 1;
        proof {
            assert(records_view(out@) =~= ms0 + seq![recm]);
            if parse_records(buf, buffer.pos as int, (n - i) as nat) is Some {
                let (ms, end) = parse_records(buf, buffer.pos as int, (n - i) as nat)->Some_0;
                assert((ms0 + (seq![recm] + ms)) =~= ((ms0 + seq![recm]) + ms));
            }
        }
    }
    proof {
        if parse_records(buf, p_start, n as nat) is Some {
            let (ms, end) = parse_records(buf, p_start, n as nat)->Some_0;
            assert(records_view(out@) + Seq::<RecordModel>::empty() =~= records_view(out@));
        }
    }
    Ok(())
}

/// Writing every record of a section in order.
#[verifier::loop_isolation(false)]
fn write_records(buffer: &mut BytePacketBuffer, recs: &Vec<DnsRecord>) -> (r: Result<
    (),
    DnsError,
>)
    requires
        old(buffer).wf(),
        old(buffer).pos <= 512,
    ensures
        final(buffer).wf(),
        final(buffer).pos >= old(buffer).pos,
        r is Ok <==> records_fit(records_view(recs@)) && old(buffer).pos + encoded_records(
            records_view(recs@),
        ).len() <= 512,
        r is Ok ==> final(buffer).buf@ == splice(
            old(buffer).buf@,
            old(buffer).pos as int,
            encoded_records(records_view(recs@)),
        ) && final(buffer).pos == old(buffer).pos + encoded_records(records_view(recs@)).len(),
        r is Err ==> (forall|i: int|
            0 <= i < old(buffer).pos ==> final(buffer).buf@[i] == old(buffer).buf@[i]),
        records_fit(records_view(recs@)) && old(buffer).pos + encoded_records(
            records_view(recs@),
        ).len() > 512 ==> r == Err::<(), DnsError>(DnsError::EndOfBuffer),
{
    let ghost rs = records_view(recs@);
    let ghost buf0 = buffer.buf@;
    let ghost p0 = buffer.pos as int;
    let mut idx: usize = 0;
    while idx < recs.len()
        invariant
            buffer.wf(),
            buf0.len() == 512,
            idx <= recs@.len(),
            rs == records_view(recs@),
            p0 == old(buffer).pos,
            buf0 == old(buffer).buf@,
            p0 <= 512,
            buffer.buf@ == splice(buf0, p0, encoded_records(rs.take(idx as int))),
            buffer.pos == p0 + encoded_records(rs.take(idx as int)).len(),
            buffer.pos <= 512,
            forall|j: int| 0 <= j < idx ==> record_names_fit(#[trigger] rs[j]),
        decreases recs@.len() - idx,
    {
        let ghost done = encoded_records(rs.take(idx as int));
        let r = recs[idx].write(buffer);
        proof {
            assert(rs[idx as int] == recs@[idx as int]@);
        }
        match r {
            Ok(_) => (),
            Err(e) => {
                proof {
                    lemma_splice_len(buf0, p0, done);
                    lemma_encoded_records_decompose(rs, idx as int);
                    if record_names_fit(rs[idx as int]) {
                        assert(p0 + encoded_records(rs).len() > 512);
                    }
                }
                return Err(e);
            },
        }
        proof {
            lemma_splice_splice(buf0, p0, done, encoded_record(rs[idx as int]));
            lemma_encoded_records_push_take(rs, idx as int);
        }
        idx = idx + 1;
    }
    proof {
        assert(rs.take(rs.len() as int) =~= rs);
    }
    Ok(())
}

impl DnsPacket {
    /// An empty packet with a cleared header.
    pub fn new() -> (r: DnsPacket)
        ensures
            r.header == default_header(),
            r.questions@ == Seq::<DnsQuestion>::empty(),
            r.answers@ == Seq::<DnsRecord>::empty(),
            r.authorities@ == Seq::<DnsRecord>::empty(),
            r.resources@ == Seq::<DnsRecord>::empty(),
            r@ == (PacketModel {
                header: default_header(),
                questions: Seq::<QuestionModel>::empty(),
                answers: Seq::<RecordModel>::empty(),
                authorities: Seq::<RecordModel>::empty(),
                resources: Seq::<RecordModel>::empty(),
            }),
    {
        let r = DnsPacket {
            header: DnsHeader::new(),
            questions: Vec::new(),
            answers: Vec::new(),
            authorities: Vec::new(),
            resources: Vec::new(),
        };
        proof {
            assert(r@ =~= PacketModel {
                header: default_header(),
                questions: Seq::<QuestionModel>::empty(),
                answers: Seq::<RecordModel>::empty(),
                authorities: Seq::<RecordModel>::empty(),
                resources: Seq::<RecordModel>::empty(),
            });
        }
        r
    }

    /// Decode a whole packet from the cursor on: the header, then as many
    /// questions and records as its counts announce.
    pub fn from_buffer(buffer: &mut BytePacketBuffer) -> (r: Result<DnsPacket, DnsError>)
        requires
            old(buffer).wf(),
        ensures
            final(buffer).wf(),
            final(buffer).buf == old(buffer).buf,
            r is Ok <==> parse_packet(old(buffer).buf@, old(buffer).pos as int) is Some,
            (match parse_packet(old(buffer).buf@, old(buffer).pos as int) {
                Some((m, end)) => r is Ok && r->Ok_0@ == m && final(buffer).pos == end,
                None => r is Err,
            }),
    {
        let ghost buf = buffer.buf@;
        let mut result = DnsPacket::new();
        match result.header.read(buffer) {
            Ok(_) => (),
            Err(e) => {
                return Err(e);
            },
        }
        match read_questions(buffer, result.header.questions, &mut result.questions) {
            Ok(_) => (),
            Err(e) => {
                return Err(e);
            },
        }
        match read_records(buffer, result.header.answers, &mut result.answers) {
            Ok(_) => (),
            Err(e) => {
                return Err(e);
            },
        }
        match read_records(buffer, result.header.authoritative_entries, &mut result.authorities) {
            Ok(_) => (),
            Err(e) => {
                return Err(e);
            },
        }
        match read_records(buffer, result.header.resource_entries, &mut result.resources) {
            Ok(_) => (),
            Err(e) => {
                return Err(e);
            },
        }
        proof {
            let (m, end) = parse_packet(buf, old(buffer).pos as int)->Some_0;
            assert(result@ =~= m);
        }
        Ok(result)
    }

    /// Encode the whole packet at the cursor. The header counts are first
    /// overwritten with the in-memory section lengths, so what is written
    /// always reflects the sections themselves.
    #[verifier::rlimit(100)]
    #[verifier::spinoff_prover]
    #[verifier::loop_isolation(false)]
    pub fn write(&mut self, buffer: &mut BytePacketBuffer) -> (r: Result<(), DnsError>)
        requires
            old(buffer).wf(),
            old(self)@.questions.len() < 0x10000,
            old(self)@.answers.len() < 0x10000,
            old(self)@.authorities.len() < 0x10000,
            old(self)@.resources.len() < 0x10000,
        ensures
            final(buffer).wf(),
            final(self).header == sealed_header(old(self)@),
            final(self).questions == old(self).questions,
            final(self).answers == old(self).answers,
            final(self).authorities == old(self).authorities,
            final(self).resources == old(self).resources,
            r is Ok <==> packet_names_fit(old(self)@) && old(buffer).pos + encoded_packet(
                old(self)@,
            ).len() <= 512,
            r is Ok ==> final(buffer).buf@ == splice(
                old(buffer).buf@,
                old(buffer).pos as int,
                encoded_packet(old(self)@),
            ) && final(buffer).pos == old(buffer).pos + encoded_packet(old(self)@).len(),
            r is Err ==> (forall|i: int|
                0 <= i < old(buffer).pos ==> final(buffer).buf@[i] == old(buffer).buf@[i]),
    {
        let ghost m = self@;
        let ghost buf0 = buffer.buf@;
        let ghost p0 = buffer.pos as int;
        self.header.questions = self.questions.len() as u16;
        self.header.answers = self.answers.len() as u16;
        self.header.authoritative_entries = self.authorities.len() as u16;
        self.header.resource_entries = self.resources.len() as u16;
        proof {
            assert(self.header == sealed_header(m));
        }
        match self.header.write(buffer) {
            Ok(_) => (),
            Err(e) => {
                return Err(e);
            },
        }
        let ghost hd = encoded_header(sealed_header(m));
        let mut idx: usize = 0;
        while idx < self.questions.len()
            invariant
                buffer.wf(),
                buf0.len() == 512,
                idx <= self.questions@.len(),
                self.header == sealed_header(m),
                self.questions == old(self).questions,
                self.answers == old(self).answers,
                self.authorities == old(self).authorities,
                self.resources == old(self).resources,
                m == old(self)@,
                hd == encoded_header(sealed_header(m)),
                p0 == old(buffer).pos,
                buf0 == old(buffer).buf@,
                buffer.buf@ == splice(
                    buf0,
                    p0,
                    hd + encoded_questions(m.questions.take(idx as int)),
                ),
                buffer.pos == p0 + hd.len() + encoded_questions(m.questions.take(idx as int)).len(),
                buffer.pos <= 512,
                forall|j: int| 0 <= j < idx ==> labels_fit(#[trigger] m.questions[j].name),
            decreases self.questions@.len() - idx,
        {
            let ghost done = hd + encoded_questions(m.questions.take(idx as int));
            let r = self.questions[idx].write(buffer);
            proof {
                lemma_encoded_name_len(m.questions[idx as int].name);
                assert(m.questions[idx as int] == self.questions@[idx as int]@);
            }
            match r {
                Ok(_) => (),
                Err(e) => {
                    proof {
                        lemma_splice_len(buf0, p0, done);
                        lemma_encoded_questions_decompose(m.questions, idx as int);
                        lemma_encoded_name_len(m.questions[idx as int].name);
                    }
                    return Err(e);
                },
            }
            proof {
                lemma_splice_splice(buf0, p0, done, encoded_question(m.questions[idx as int]));
                lemma_encoded_questions_push_take(m.questions, idx as int);
                assert(done + encoded_question(m.questions[idx as int]) =~= hd + encoded_questions(
                    m.questions.take(idx as int + 1),
                ));
            }
            idx = idx + 1;
        }
        proof {
            assert(m.questions.take(m.questions.len() as int) =~= m.questions);
        }
        let ghost done1 = hd + encoded_questions(m.questions);
        match write_records(buffer, &self.answers) {
            Ok(_) => (),
            Err(e) => {
                proof {
                    lemma_splice_len(buf0, p0, done1);
                }
                return Err(e);
            },
        }
        proof {
            lemma_splice_splice(buf0, p0, done1, encoded_records(m.answers));
        }
        let ghost done2 = done1 + encoded_records(m.answers);
        match write_records(buffer, &self.authorities) {
            Ok(_) => (),
            Err(e) => {
                proof {
                    lemma_splice_len(buf0, p0, done2);
                }
                return Err(e);
            },
        }
        proof {
            lemma_splice_splice(buf0, p0, done2, encoded_records(m.authorities));
        }
        let ghost done3 = done2 + encoded_records(m.authorities);
        match write_records(buffer, &self.resources) {
            Ok(_) => (),
            Err(e) => {
                proof {
                    lemma_splice_len(buf0, p0, done3);
                }
                return Err(e);
            },
        }
        proof {
            lemma_splice_splice(buf0, p0, done3, encoded_records(m.resources));
            assert(done3 + encoded_records(m.resources) =~= encoded_packet(m));
        }
        Ok(())
    }
}


/// Decoding an encoded question section gives the questions back.
pub proof fn lemma_parse_encoded_questions(buf: Seq<u8>, pos: int, qs: Seq<QuestionModel>)
    requires
        buf.len() == 512,
        0 <= pos,
        forall|i: int|
            0 <= i < qs.len() ==> valid_name(#[trigger] qs[i].name) && canonical_qtype(
                qs[i].qtype,
            ),
        pos + encoded_questions(qs).len() <= 512,
        buf.subrange(pos, pos + encoded_questions(qs).len()) == encoded_questions(qs),
    ensures
        parse_questions(buf, pos, qs.len()) == Some(
            (qs, pos + encoded_questions(qs).len() as int),
        ),
    decreases qs.len(),
{
    let enc = encoded_questions(qs);
    if qs.len() == 0 {
        assert(parse_questions(buf, pos, 0) == Some((Seq::<QuestionModel>::empty(), pos)));
        assert(qs =~= Seq::<QuestionModel>::empty());
    } else {
        assert forall|i: int| 0 <= i < enc.len() implies buf[pos + i] == #[trigger] enc[i] by {
            assert(buf.subrange(pos, pos + enc.len())[i] == enc[i]);
        }
        let q0 = qs[0];
        let e0 = encoded_question(q0);
        lemma_encoded_name_len(q0.name);
        let rest = qs.drop_first();
        let er = encoded_questions(rest);
        assert(buf.subrange(pos, pos + e0.len()) =~= e0) by {
            assert forall|i: int| 0 <= i < e0.len() implies buf.subrange(pos, pos + e0.len())[i]
                == e0[i] by {
                assert(enc[i] == e0[i]);
            }
        }
        crate::question::lemma_parse_encoded_question(buf, pos, q0);
        let p2 = pos + e0.len();
        assert(buf.subrange(p2, p2 + er.len()) =~= er) by {
            assert forall|i: int| 0 <= i < er.len() implies buf.subrange(p2, p2 + er.len())[i]
                == er[i] by {
                assert(enc[e0.len() + i] == er[i]);
            }
        }
        assert forall|i: int| 0 <= i < rest.len() implies valid_name(#[trigger] rest[i].name)
            && canonical_qtype(rest[i].qtype) by {
            assert(rest[i] == qs[i + 1]);
        }
        lemma_parse_encoded_questions(buf, p2, rest);
        assert(seq![q0] + rest =~= qs);
    }
}

/// Decoding an encoded record section gives the records back.
pub proof fn lemma_parse_encoded_records(buf: Seq<u8>, pos: int, rs: Seq<RecordModel>)
    requires
        buf.len() == 512,
        0 <= pos,
        forall|i: int| 0 <= i < rs.len() ==> wf_record(#[trigger] rs[i]),
        pos + encoded_records(rs).len() <= 512,
        buf.subrange(pos, pos + encoded_records(rs).len()) == encoded_records(rs),
    ensures
        parse_records(buf, pos, rs.len()) == Some((rs, pos + encoded_records(rs).len() as int)),
    decreases rs.len(),
{
    let enc = encoded_records(rs);
    if rs.len() == 0 {
        assert(parse_records(buf, pos, 0) == Some((Seq::<RecordModel>::empty(), pos)));
        assert(rs =~= Seq::<RecordModel>::empty());
    } else {
        assert forall|i: int| 0 <= i < enc.len() implies buf[pos + i] == #[trigger] enc[i] by {
            assert(buf.subrange(pos, pos + enc.len())[i] == enc[i]);
        }
        let r0 = rs[0];
        let e0 = encoded_record(r0);
        let rest = rs.drop_first();
        let er = encoded_records(rest);
        assert(buf.subrange(pos, pos + e0.len()) =~= e0) by {
            assert forall|i: int| 0 <= i < e0.len() implies buf.subrange(pos, pos + e0.len())[i]
                == e0[i] by {
                assert(enc[i] == e0[i]);
            }
        }
        crate::record::lemma_parse_encoded_record(buf, pos, r0);
        let p2 = pos + e0.len();
        assert(buf.subrange(p2, p2 + er.len()) =~= er) by {
            assert forall|i: int| 0 <= i < er.len() implies buf.subrange(p2, p2 + er.len())[i]
                == er[i] by {
                assert(enc[e0.len() + i] == er[i]);
            }
        }
        assert forall|i: int| 0 <= i < rest.len() implies wf_record(#[trigger] rest[i]) by {
            assert(rest[i] == rs[i + 1]);
        }
        lemma_parse_encoded_records(buf, p2, rest);
        assert(seq![r0] + rest =~= rs);
    }
}

/// Round trip of whole packets with known record types: a buffer that holds
/// the encoded form of a well-formed packet decodes to that same packet,
/// with the header counts sealed to the section lengths. Together with the
/// codec contracts this says that writing a packet and reading the buffer
/// back reproduces every question and every A, AAAA, NS, CNAME and MX
/// record exactly.
#[verifier::rlimit(100)]
#[verifier::spinoff_prover]
pub proof fn lemma_packet_round_trip(buf: Seq<u8>, pos: int, m: PacketModel)
    requires
        buf.len() == 512,
        wf_packet(m),
        0 <= pos,
        pos + encoded_packet(m).len() <= 512,
        buf.subrange(pos, pos + encoded_packet(m).len()) == encoded_packet(m),
    ensures
        parse_packet(buf, pos) == Some((sealed_packet(m), pos + encoded_packet(m).len() as int)),
{
    let enc = encoded_packet(m);
    let sh = sealed_header(m);
    let hd = encoded_header(sh);
    let eq = encoded_questions(m.questions);
    let ea = encoded_records(m.answers);
    let eau = encoded_records(m.authorities);
    let eres = encoded_records(m.resources);
    let lq = eq.len() as int;
    let la = ea.len() as int;
    let lau = eau.len() as int;
    let lres = eres.len() as int;
    let p1 = pos + 12;
    let p2 = p1 + lq;
    let p3 = p2 + la;
    let p4 = p3 + lau;
    crate::wire::lemma_subrange_of_matching(buf, pos, enc, 0, 12);
    assert(enc.subrange(0, 12) =~= hd);
    lemma_header_round_trip(sh, buf, pos);
    crate::wire::lemma_subrange_of_matching(buf, pos, enc, 12, 12 + lq);
    assert(enc.subrange(12, 12 + lq) =~= eq);
    lemma_parse_encoded_questions(buf, p1, m.questions);
    crate::wire::lemma_subrange_of_matching(buf, pos, enc, 12 + lq, 12 + lq + la);
    assert(enc.subrange(12 + lq, 12 + lq + la) =~= ea);
    lemma_parse_encoded_records(buf, p2, m.answers);
    crate::wire::lemma_subrange_of_matching(buf, pos, enc, 12 + lq + la, 12 + lq + la + lau);
    assert(enc.subrange(12 + lq + la, 12 + lq + la + lau) =~= eau);
    lemma_parse_encoded_records(buf, p3, m.authorities);
    crate::wire::lemma_subrange_of_matching(buf, pos, enc, 12 + lq + la + lau, 12 + lq + la + lau
        + lres);
    assert(enc.subrange(12 + lq + la + lau, 12 + lq + la + lau + lres) =~= eres);
    lemma_parse_encoded_records(buf, p4, m.resources);
    assert(sh.questions as nat == m.questions.len());
    assert(sh.answers as nat == m.answers.len());
    assert(sh.authoritative_entries as nat == m.authorities.len());
    assert(sh.resource_entries as nat == m.resources.len());
    let parsed = parse_packet(buf, pos)->Some_0;
    assert(parsed.0 =~= sealed_packet(m));
}

} // verus!
