//! The 12-byte fixed DNS header: transaction id, two bit-packed flag bytes,
//! and the four section counts.
//!
//! The flag layout follows the wire behaviour of this system: in the first
//! flag byte the QR bit is packed with a shift of 3, overlapping the opcode
//! field, so a header with `response` set does not survive a write/read
//! round trip unchanged.

use vstd::prelude::*;

use crate::buffer::BytePacketBuffer;
use crate::types::{rescode_num, rescode_of, DnsError, ResultCode};
use crate::wire::{splice, u16_hi, u16_lo, u16_of};
use crate::wire::{lemma_splice_splice, lemma_u16_of_parts, lemma_u16_round,
    lemma_update_is_splice};

verus! {

/// The fixed header of every DNS message.
#[derive(Clone, Copy, Debug, PartialEq, Eq, Structural)]
pub struct DnsHeader {
    pub id: u16,
    pub recursion_desired: bool,
    pub truncated_message: bool,
    pub authoritative_answer: bool,
    pub opcode: u8,
    pub response: bool,
    pub rescode: ResultCode,
    pub checking_disabled: bool,
    pub authed_data: bool,
    pub z: bool,
    pub recursion_available: bool,
    pub questions: u16,
    pub answers: u16,
    pub authoritative_entries: u16,
    pub resource_entries: u16,
}

pub open spec fn bool_bit(b: bool) -> u8 {
    if b {
        1
    } else {
        0
    }
}

/// First flag byte as written: RD, TC, AA in bits 0..2, opcode from bit 3,
/// and the QR bit also shifted by 3 (the layout this system speaks).
pub open spec fn flags_a_byte(h: DnsHeader) -> u8 {
    bool_bit(h.recursion_desired) | (bool_bit(h.truncated_message) << 1) | (bool_bit(
        h.authoritative_answer,
    ) << 2) | (h.opcode << 3) | (bool_bit(h.response) << 3)
}

/// Second flag byte as written: RCODE in bits 0..3, then CD, AD, Z, RA.
pub open spec fn flags_b_byte(h: DnsHeader) -> u8 {
    rescode_num(h.rescode) | (bool_bit(h.checking_disabled) << 4) | (bool_bit(h.authed_data) << 5)
        | (bool_bit(h.z) << 6) | (bool_bit(h.recursion_available) << 7)
}

/// The 12 bytes a header is written as.
pub open spec fn encoded_header(h: DnsHeader) -> Seq<u8> {
    seq![
        u16_hi(h.id),
        u16_lo(h.id),
        flags_a_byte(h),
        flags_b_byte(h),
        u16_hi(h.questions),
        u16_lo(h.questions),
        u16_hi(h.answers),
        u16_lo(h.answers),
        u16_hi(h.authoritative_entries),
        u16_lo(h.authoritative_entries),
        u16_hi(h.resource_entries),
        u16_lo(h.resource_entries),
    ]
}

/// The header value the 12 bytes at `pos` decode to.
pub open spec fn parse_header(buf: Seq<u8>, pos: int) -> DnsHeader {
    let a = buf[pos + 2];
    let b = buf[pos + 3];
    DnsHeader {
        id: u16_of(buf[pos], buf[pos + 1]),
        recursion_desired: a & 0x01 != 0,
        truncated_message: a & 0x02 != 0,
        authoritative_answer: a & 0x04 != 0,
        opcode: (a >> 3) & 0x0F,
        response: a & 0x80 != 0,
        rescode: rescode_of(b & 0x0F),
        checking_disabled: b & 0x10 != 0,
        authed_data: b & 0x20 != 0,
        z: b & 0x40 != 0,
        recursion_available: b & 0x80 != 0,
        questions: u16_of(buf[pos + 4], buf[pos + 5]),
        answers: u16_of(buf[pos + 6], buf[pos + 7]),
        authoritative_entries: u16_of(buf[pos + 8], buf[pos + 9]),
        resource_entries: u16_of(buf[pos + 10], buf[pos + 11]),
    }
}

/// The header every packet starts from: all fields cleared.
pub open spec fn default_header() -> DnsHeader {
    DnsHeader {
        id: 0,
        recursion_desired: false,
        truncated_message: false,
        authoritative_answer: false,
        opcode: 0,
        response: false,
        rescode: ResultCode::NOERROR,
        checking_disabled: false,
        authed_data: false,
        z: false,
        recursion_available: false,
        questions: 0,
        answers: 0,
        authoritative_entries: 0,
        resource_entries: 0,
    }
}

impl DnsHeader {
    /// A header with every field cleared.
    pub fn new() -> (r: DnsHeader)
        ensures
            r == default_header(),
    {
        DnsHeader {
            id: 0,
            recursion_desired: false,
            truncated_message: false,
            authoritative_answer: false,
            opcode: 0,
            response: false,
            rescode: ResultCode::NOERROR,
            checking_disabled: false,
            authed_data: false,
            z: false,
            recursion_available: false,
            questions: 0,
            answers: 0,
            authoritative_entries: 0,
            resource_entries: 0,
        }
    }

    /// Decode the 12 header bytes at the cursor into `self`.
    /// On failure `self` may be partially overwritten and is to be discarded.
    pub fn read(&mut self, buffer: &mut BytePacketBuffer) -> (r: Result<(), DnsError>)
        requires
            old(buffer).wf(),
        ensures
            final(buffer).wf(),
            final(buffer).buf == old(buffer).buf,
            r is Ok <==> old(buffer).pos + 12 <= 512,
            r is Err ==> r == Err::<(), DnsError>(DnsError::EndOfBuffer),
            r is Ok ==> *final(self) == parse_header(old(buffer).buf@, old(buffer).pos as int)
                && final(buffer).pos == old(buffer).pos + 12,
    {
        self.id = buffer.read_u16()?;
        let flags = buffer.read_u16()?;
        let a = (flags >> 8) as u8;
        let b = (flags & 0xFF) as u8;
        proof {
            let ghost hi = old(buffer).buf@[old(buffer).pos + 2];
            let ghost lo = old(buffer).buf@[old(buffer).pos + 3];
            lemma_u16_of_parts(hi, lo);
        }
        self.recursion_desired = (a & 0x01) > 0;
        self.truncated_message = (a & 0x02) > 0;
        self.authoritative_answer = (a & 0x04) > 0;
        self.opcode = (a >> 3) & 0x0F;
        self.response = (a & 0x80) > 0;

        self.rescode = ResultCode::from_num(b & 0x0F);
        self.checking_disabled = (b & 0x10) > 0;
        self.authed_data = (b & 0x20) > 0;
        self.z = (b & 0x40) > 0;
        self.recursion_available = (b & 0x80) > 0;

        self.questions = buffer.read_u16()?;
        self.answers = buffer.read_u16()?;
        self.authoritative_entries = buffer.read_u16()?;
        self.resource_entries = buffer.read_u16()?;
        Ok(())
    }

    /// Encode the header at the cursor: id, the two flag bytes, then the
    /// four section counts.
    pub fn write(&self, buffer: &mut BytePacketBuffer) -> (r: Result<(), DnsError>)
        requires
            old(buffer).wf(),
        ensures
            final(buffer).wf(),
            r is Ok <==> old(buffer).pos + 12 <= 512,
            r is Err ==> r == Err::<(), DnsError>(DnsError::EndOfBuffer),
            r is Ok ==> final(buffer).buf@ == splice(
                old(buffer).buf@,
                old(buffer).pos as int,
                encoded_header(*self),
            ) && final(buffer).pos == old(buffer).pos + 12,
            r is Err ==> (forall|i: int|
                0 <= i < old(buffer).pos ==> final(buffer).buf@[i] == old(buffer).buf@[i]),
    {
        let ghost buf0 = buffer.buf@;
        let ghost p0 = buffer.pos as int;
        buffer.write_u16(self.id)?;
        let a = (self.recursion_desired as u8) | ((self.truncated_message as u8) << 1) | ((
        self.authoritative_answer as u8) << 2) | (self.opcode << 3) | ((self.response as u8) << 3);
        buffer.write_u8(a)?;
        let b = self.rescode.to_num() | ((self.checking_disabled as u8) << 4) | ((
        self.authed_data as u8) << 5) | ((self.z as u8) << 6) | ((self.recursion_available as u8)
            << 7);
        buffer.write(b)?;
        proof {
            let s1 = seq![u16_hi(self.id), u16_lo(self.id)];
            lemma_update_is_splice(splice(buf0, p0, s1), p0 + 2, a);
            lemma_splice_splice(buf0, p0, s1, seq![a]);
            lemma_update_is_splice(splice(buf0, p0, s1 + seq![a]), p0 + 3, b);
            lemma_splice_splice(buf0, p0, s1 + seq![a], seq![b]);
        }
        buffer.write_u16(self.questions)?;
        buffer.write_u16(self.answers)?;
        buffer.write_u16(self.authoritative_entries)?;
        buffer.write_u16(self.resource_entries)?;
        proof {
            let s1 = seq![u16_hi(self.id), u16_lo(self.id)];
            let s2 = s1 + seq![a] + seq![b];
            let s3 = s2 + seq![u16_hi(self.questions), u16_lo(self.questions)];
            let s4 = s3 + seq![u16_hi(self.answers), u16_lo(self.answers)];
            let s5 = s4 + seq![
                u16_hi(self.authoritative_entries),
                u16_lo(self.authoritative_entries),
            ];
            lemma_splice_splice(buf0, p0, s2, seq![
                u16_hi(self.questions),
                u16_lo(self.questions),
            ]);
            assert(s2 + seq![u16_hi(self.questions), u16_lo(self.questions)] =~= s3);
            lemma_splice_splice(buf0, p0, s3, seq![u16_hi(self.answers), u16_lo(self.answers)]);
            assert(s3 + seq![u16_hi(self.answers), u16_lo(self.answers)] =~= s4);
            lemma_splice_splice(buf0, p0, s4, seq![
                u16_hi(self.authoritative_entries),
                u16_lo(self.authoritative_entries),
            ]);
            assert(s4 + seq![
                u16_hi(self.authoritative_entries),
                u16_lo(self.authoritative_entries),
            ] =~= s5);
            lemma_splice_splice(buf0, p0, s5, seq![
                u16_hi(self.resource_entries),
                u16_lo(self.resource_entries),
            ]);
            assert(s5 + seq![u16_hi(self.resource_entries), u16_lo(self.resource_entries)] =~=
                encoded_header(*self));
        }
        Ok(())
    }
}

/// Writing a header and reading the bytes back gives the header again,
/// provided the opcode fits its four bits and QR is clear — the packed QR
/// bit overlaps the opcode on this wire layout.
pub proof fn lemma_header_round_trip(h: DnsHeader, buf: Seq<u8>, pos: int)
    requires
        buf.len() == 512,
        0 <= pos,
        pos + 12 <= 512,
        buf.subrange(pos, pos + 12) == encoded_header(h),
        h.opcode < 16,
        !h.response,
    ensures
        parse_header(buf, pos) == h,
{
    let enc = encoded_header(h);
    assert forall|i: int| 0 <= i < 12 implies buf[pos + i] == #[trigger] enc[i] by {
        assert(buf.subrange(pos, pos + 12)[i] == enc[i]);
    }
    lemma_u16_round(h.id);
    lemma_u16_round(h.questions);
    lemma_u16_round(h.answers);
    lemma_u16_round(h.authoritative_entries);
    lemma_u16_round(h.resource_entries);
    assert(buf[pos] == u16_hi(h.id) && buf[pos + 1] == u16_lo(h.id));
    let rd = bool_bit(h.recursion_desired);
    let tm = bool_bit(h.truncated_message);
    let aa = bool_bit(h.authoritative_answer);
    let op = h.opcode;
    let a = flags_a_byte(h);
    assert((rd | (tm << 1) | (aa << 2) | (op << 3) | (0u8 << 3)) == (rd | (tm << 1) | (aa << 2) | (
    op << 3))) by (bit_vector);
    assert(a == rd | (tm << 1) | (aa << 2) | (op << 3));
    assert((rd | (tm << 1) | (aa << 2) | (op << 3)) & 0x01 == rd) by (bit_vector)
        requires
            rd <= 1 && tm <= 1 && aa <= 1 && op < 16,
    ;
    assert((rd | (tm << 1) | (aa << 2) | (op << 3)) & 0x02 == tm << 1) by (bit_vector)
        requires
            rd <= 1 && tm <= 1 && aa <= 1 && op < 16,
    ;
    assert((rd | (tm << 1) | (aa << 2) | (op << 3)) & 0x04 == aa << 2) by (bit_vector)
        requires
            rd <= 1 && tm <= 1 && aa <= 1 && op < 16,
    ;
    assert(((rd | (tm << 1) | (aa << 2) | (op << 3)) >> 3) & 0x0F == op) by (bit_vector)
        requires
            rd <= 1 && tm <= 1 && aa <= 1 && op < 16,
    ;
    assert((rd | (tm << 1) | (aa << 2) | (op << 3)) & 0x80 == 0) by (bit_vector)
        requires
            rd <= 1 && tm <= 1 && aa <= 1 && op < 16,
    ;
    assert(tm << 1 != 0 <==> tm != 0) by (bit_vector)
        requires
            tm <= 1,
    ;
    assert(aa << 2 != 0 <==> aa != 0) by (bit_vector)
        requires
            aa <= 1,
    ;
    let rc = rescode_num(h.rescode);
    let cd = bool_bit(h.checking_disabled);
    let ad = bool_bit(h.authed_data);
    let z = bool_bit(h.z);
    let ra = bool_bit(h.recursion_available);
    let b = flags_b_byte(h);
    assert(b == rc | (cd << 4) | (ad << 5) | (z << 6) | (ra << 7));
    assert((rc | (cd << 4) | (ad << 5) | (z << 6) | (ra << 7)) & 0x0F == rc) by (bit_vector)
        requires
            rc <= 5 && cd <= 1 && ad <= 1 && z <= 1 && ra <= 1,
    ;
    assert((rc | (cd << 4) | (ad << 5) | (z << 6) | (ra << 7)) & 0x10 == cd << 4) by (bit_vector)
        requires
            rc <= 5 && cd <= 1 && ad <= 1 && z <= 1 && ra <= 1,
    ;
    assert((rc | (cd << 4) | (ad << 5) | (z << 6) | (ra << 7)) & 0x20 == ad << 5) by (bit_vector)
        requires
            rc <= 5 && cd <= 1 && ad <= 1 && z <= 1 && ra <= 1,
    ;
    assert((rc | (cd << 4) | (ad << 5) | (z << 6) | (ra << 7)) & 0x40 == z << 6) by (bit_vector)
        requires
            rc <= 5 && cd <= 1 && ad <= 1 && z <= 1 && ra <= 1,
    ;
    assert((rc | (cd << 4) | (ad << 5) | (z << 6) | (ra << 7)) & 0x80 == ra << 7) by (bit_vector)
        requires
            rc <= 5 && cd <= 1 && ad <= 1 && z <= 1 && ra <= 1,
    ;
    assert(cd << 4 != 0 <==> cd != 0) by (bit_vector)
        requires
            cd <= 1,
    ;
    assert(ad << 5 != 0 <==> ad != 0) by (bit_vector)
        requires
            ad <= 1,
    ;
    assert(z << 6 != 0 <==> z != 0) by (bit_vector)
        requires
            z <= 1,
    ;
    assert(ra << 7 != 0 <==> ra != 0) by (bit_vector)
        requires
            ra <= 1,
    ;
}

} // verus!
