//! The question entry of a DNS message: a dotted name and a query type.
//! On the wire a question is the encoded name, the 16-bit type, and the
//! 16-bit class, which is written as IN (1) and ignored on read.

use vstd::prelude::*;

use crate::buffer::BytePacketBuffer;
use crate::name::{encoded_name, labels_fit, parse_qname_at, valid_name, QnameResult};
use crate::name::{lemma_encoded_name_len, lemma_parse_encoded_name};
use crate::types::{canonical_qtype, qtype_num, qtype_of_num, DnsError, QueryType};
use crate::wire::{splice, u16_hi, u16_lo, u16_of};
use crate::wire::{lemma_splice_splice, lemma_u16_round};

verus! {

/// One entry of the question section.
#[derive(Clone, Debug, PartialEq, Eq)]
pub struct DnsQuestion {
    pub name: Vec<u8>,
    pub qtype: QueryType,
}

/// The mathematical value of a question: its name's bytes and its type.
#[verifier::ext_equal]
pub struct QuestionModel {
    pub name: Seq<u8>,
    pub qtype: QueryType,
}

impl View for DnsQuestion {
    type V = QuestionModel;

    open spec fn view(&self) -> QuestionModel {
        QuestionModel { name: self.name@, qtype: self.qtype }
    }
}

/// The bytes a question is written as: the name, the type, and class IN.
pub open spec fn encoded_question(q: QuestionModel) -> Seq<u8> {
    encoded_name(q.name) + seq![
        u16_hi(qtype_num(q.qtype)),
        u16_lo(qtype_num(q.qtype)),
        0u8,
        1u8,
    ]
}

/// The question decoded at `pos`, with the position just past it; the class
/// field is skipped.
pub open spec fn parse_question(buf: Seq<u8>, pos: int) -> Option<(QuestionModel, int)> {
    match parse_qname_at(buf, pos, 5) {
        QnameResult::Parsed { name, end } => if end + 4 <= 512 {
            Some(
                (
                    QuestionModel { name, qtype: qtype_of_num(u16_of(buf[end], buf[end + 1])) },
                    end + 4,
                ),
            )
        } else {
            None
        },
        _ => None,
    }
}

impl DnsQuestion {
    pub fn new(name: Vec<u8>, qtype: QueryType) -> (r: DnsQuestion)
        ensures
            r@ == (QuestionModel { name: name@, qtype }),
    {
        DnsQuestion { name, qtype }
    }

    /// Decode a question at the cursor. The decoded name is appended to
    /// `self.name`; the cursor ends just past the class field. On failure
    /// `self` may be partially overwritten and is to be discarded.
    pub fn read(&mut self, buffer: &mut BytePacketBuffer) -> (r: Result<(), DnsError>)
        requires
            old(buffer).wf(),
        ensures
            final(buffer).wf(),
            final(buffer).buf == old(buffer).buf,
            r is Ok <==> parse_question(old(buffer).buf@, old(buffer).pos as int) is Some,
            (match parse_question(old(buffer).buf@, old(buffer).pos as int) {
                Some((q, end)) => final(self).name@ == old(self).name@ + q.name
                    && final(self).qtype == q.qtype && final(buffer).pos == end,
                None => r is Err,
            }),
    {
        let r = buffer.read_qname(&mut self.name);
        match r {
            Ok(_) => (),
            Err(e) => {
                return Err(e);
            },
        }
        let qnum = buffer.read_u16()?;
        self.qtype = QueryType::from_num(qnum);
        let _class = buffer.read_u16()?;
        Ok(())
    }

    /// Encode this question at the cursor: name, type, then class IN.
    pub fn write(&self, buffer: &mut BytePacketBuffer) -> (r: Result<(), DnsError>)
        requires
            old(buffer).wf(),
        ensures
            final(buffer).wf(),
            r is Ok <==> labels_fit(self.name@) && old(buffer).pos + self.name@.len() + 6 <= 512,
            r is Ok ==> final(buffer).buf@ == splice(
                old(buffer).buf@,
                old(buffer).pos as int,
                encoded_question(self@),
            ) && final(buffer).pos == old(buffer).pos + self.name@.len() + 6,
            r is Err ==> (forall|i: int|
                0 <= i < old(buffer).pos ==> final(buffer).buf@[i] == old(buffer).buf@[i]),
            labels_fit(self.name@) && old(buffer).pos + self.name@.len() + 6 > 512 ==> r == Err::<
                (),
                DnsError,
            >(DnsError::EndOfBuffer),
            !labels_fit(self.name@) && old(buffer).pos + self.name@.len() + 2 <= 512 ==> r == Err::<
                (),
                DnsError,
            >(DnsError::LabelTooLong),
    {
        let ghost buf0 = buffer.buf@;
        let ghost p0 = buffer.pos as int;
        proof {
            lemma_encoded_name_len(self.name@);
        }
        buffer.write_qname(&self.name)?;
        let t = self.qtype.to_num();
        buffer.write_u16(t)?;
        buffer.write_u16(1)?;
        proof {
            let en = encoded_name(self.name@);
            lemma_splice_splice(buf0, p0, en, seq![u16_hi(t), u16_lo(t)]);
            lemma_splice_splice(buf0, p0, en + seq![u16_hi(t), u16_lo(t)], seq![
                u16_hi(1u16),
                u16_lo(1u16),
            ]);
            assert((1u16 >> 8) as u8 == 0 && (1u16 & 0xFF) as u8 == 1) by (bit_vector);
            assert(en + seq![u16_hi(t), u16_lo(t)] + seq![u16_hi(1u16), u16_lo(1u16)] =~=
                encoded_question(self@));
        }
        Ok(())
    }
}

/// Decoding an encoded question gives the question back, for canonical
/// query types and valid names.
pub proof fn lemma_parse_encoded_question(buf: Seq<u8>, pos: int, q: QuestionModel)
    requires
        buf.len() == 512,
        valid_name(q.name),
        canonical_qtype(q.qtype),
        0 <= pos,
        pos + q.name.len() + 6 <= 512,
        buf.subrange(pos, pos + q.name.len() + 6) == encoded_question(q),
    ensures
        parse_question(buf, pos) == Some((q, pos + q.name.len() + 6)),
{
    let enc = encoded_question(q);
    lemma_encoded_name_len(q.name);
    assert forall|i: int| 0 <= i < enc.len() implies buf[pos + i] == #[trigger] enc[i] by {
        assert(buf.subrange(pos, pos + q.name.len() + 6)[i] == enc[i]);
    }
    let nl = q.name.len() as int;
    assert(buf.subrange(pos, pos + nl + 2) =~= encoded_name(q.name)) by {
        assert forall|i: int| 0 <= i < nl + 2 implies buf.subrange(pos, pos + nl + 2)[i]
            == encoded_name(q.name)[i] by {
            assert(enc[i] == encoded_name(q.name)[i]);
        }
    }
    lemma_parse_encoded_name(buf, pos, q.name, 5);
    let end = pos + nl + 2;
    let t = qtype_num(q.qtype);
    assert(buf[end] == u16_hi(t) && buf[end + 1] == u16_lo(t)) by {
        assert(enc[nl + 2] == u16_hi(t) && enc[nl + 3] == u16_lo(t));
    }
    lemma_u16_round(t);
    assert(parse_question(buf, pos) == Some((q, pos + nl + 6))) by {
        assert(QuestionModel { name: q.name, qtype: qtype_of_num(u16_of(buf[end], buf[end + 1])) }
            =~= q);
    }
}

} // verus!
