//! The domain-name codec: dotted names are written as length-prefixed label
//! groups ending in a zero byte, and read back with compression-pointer
//! resolution, ASCII lowercasing, and a five-jump defense against pointer
//! loops.

use vstd::prelude::*;

use crate::buffer::BytePacketBuffer;
use crate::types::DnsError;
use crate::wire::{splice, to_lower};
use crate::wire::{lemma_splice_splice, lemma_update_is_splice, lower_byte};

verus! {

/// Index of the first dot in `name`, or `name.len()` if there is none:
/// the length of the first label.
pub open spec fn label_end(name: Seq<u8>) -> nat
    decreases name.len(),
{
    if name.len() == 0 {
        0
    } else if name[0] == 46 {
        0
    } else {
        (1 + label_end(name.subrange(1, name.len() as int))) as nat
    }
}

/// `label_end` really is the index of the first dot.
pub proof fn lemma_label_end(name: Seq<u8>)
    ensures
        label_end(name) <= name.len(),
        forall|i: int| 0 <= i < label_end(name) ==> name[i] != 46,
        label_end(name) < name.len() ==> name[label_end(name) as int] == 46,
    decreases name.len(),
{
    if name.len() == 0 {
    } else if name[0] == 46 {
    } else {
        let tail = name.subrange(1, name.len() as int);
        lemma_label_end(tail);
        assert forall|i: int| 0 <= i < label_end(name) implies name[i] != 46 by {
            if i > 0 {
                assert(tail[i - 1] == name[i]);
            }
        }
        if label_end(name) < name.len() {
            assert(tail[label_end(tail) as int] == name[label_end(name) as int]);
        }
    }
}

/// The wire form of a dotted name: for each label one length byte and the
/// label's bytes, terminated by a zero byte. No compression is emitted.
pub open spec fn encoded_name(name: Seq<u8>) -> Seq<u8>
    decreases name.len(),
    via encoded_name_dec
{
    let k = label_end(name);
    if k == name.len() {
        seq![k as u8] + name + seq![0u8]
    } else {
        seq![k as u8] + name.subrange(0, k as int) + encoded_name(
            name.subrange(k as int + 1, name.len() as int),
        )
    }
}

#[via_fn]
proof fn encoded_name_dec(name: Seq<u8>) {
    lemma_label_end(name);
}

/// Every label of `name` is at most 63 bytes: the encoder accepts it.
pub open spec fn labels_fit(name: Seq<u8>) -> bool
    decreases name.len(),
    via labels_fit_dec
{
    let k = label_end(name);
    k <= 63 && (k == name.len() || labels_fit(name.subrange(k as int + 1, name.len() as int)))
}

#[via_fn]
proof fn labels_fit_dec(name: Seq<u8>) {
    lemma_label_end(name);
}

/// Every label of `name` has between 1 and 63 bytes.
pub open spec fn valid_labels(name: Seq<u8>) -> bool
    decreases name.len(),
    via valid_labels_dec
{
    let k = label_end(name);
    1 <= k <= 63 && (k == name.len() || valid_labels(name.subrange(k as int + 1, name.len() as int)))
}

#[via_fn]
proof fn valid_labels_dec(name: Seq<u8>) {
    lemma_label_end(name);
}

/// No byte of `name` is an ASCII uppercase letter, so decoding leaves it
/// unchanged.
pub open spec fn lowercase_name(name: Seq<u8>) -> bool {
    forall|i: int| 0 <= i < name.len() ==> to_lower(#[trigger] name[i]) == name[i]
}

/// A name the codec round-trips: nonempty lowercase labels of at most 63
/// bytes each.
pub open spec fn valid_name(name: Seq<u8>) -> bool {
    valid_labels(name) && lowercase_name(name)
}

/// The wire form is always the name plus one length byte and the terminator.
pub proof fn lemma_encoded_name_len(name: Seq<u8>)
    ensures
        encoded_name(name).len() == name.len() + 2,
    decreases name.len(),
{
    lemma_label_end(name);
    let k = label_end(name);
    if k != name.len() {
        lemma_encoded_name_len(name.subrange(k as int + 1, name.len() as int));
    }
}

/// Outcome of decoding one name from a buffer.
pub enum QnameResult {
    /// The name's bytes, and where the caller's cursor lands: past the
    /// terminator, or past the first compression pointer if one was taken.
    Parsed { name: Seq<u8>, end: int },
    /// A length byte, pointer byte or label ran past the buffer.
    Truncated,
    /// More than five pointer jumps.
    JumpLimit,
}

/// Decode the name starting at `pos`, with `jumps_left` pointer jumps still
/// allowed. Labels are lowercased and joined with dots; a pointer byte
/// (top two bits set) continues at the 14-bit offset it names.
pub open spec fn parse_qname_at(buf: Seq<u8>, pos: int, jumps_left: nat) -> QnameResult
    decreases jumps_left, (if 0 <= pos < 512 { 512 - pos } else { 0 }) as int,
{
    if !(0 <= pos < 512 && buf.len() == 512) {
        QnameResult::Truncated
    } else {
        let len = buf[pos];
        if len & 0xC0 == 0xC0 {
            if pos + 1 >= 512 {
                QnameResult::Truncated
            } else if jumps_left == 0 {
                QnameResult::JumpLimit
            } else {
                let target = (len ^ 0xC0) as int * 256 + buf[pos + 1];
                match parse_qname_at(buf, target, (jumps_left - 1) as nat) {
                    QnameResult::Parsed { name, end: _ } => QnameResult::Parsed {
                        name,
                        end: pos + 2,
                    },
                    other => other,
                }
            }
        } else if len == 0 {
            QnameResult::Parsed { name: Seq::empty(), end: pos + 1 }
        } else if pos + 1 + len >= 512 {
            QnameResult::Truncated
        } else {
            let label = Seq::new(len as nat, |i: int| to_lower(buf[pos + 1 + i]));
            match parse_qname_at(buf, pos + 1 + len, jumps_left) {
                QnameResult::Parsed { name: rest, end } => QnameResult::Parsed {
                    name: if rest.len() == 0 {
                        label
                    } else {
                        label + seq![46u8] + rest
                    },
                    end,
                },
                other => other,
            }
        }
    }
}

/// `name` as it is appended to an output that already holds `first` labels
/// or none: a separating dot goes in front unless the output is at the start
/// of a name or nothing follows.
pub open spec fn with_sep(first: bool, name: Seq<u8>) -> Seq<u8> {
    if first || name.len() == 0 {
        name
    } else {
        seq![46u8] + name
    }
}

/// The jump-limit defense: a name that opens with a compression pointer to
/// its own position never decodes, whatever jump budget is left; the
/// decoder reports the jump limit instead of looping.
pub proof fn lemma_self_pointer_jump_limit(buf: Seq<u8>, pos: int, jumps_left: nat)
    requires
        buf.len() == 512,
        0 <= pos < 511,
        buf[pos] & 0xC0 == 0xC0,
        (buf[pos] ^ 0xC0) as int * 256 + buf[pos + 1] == pos,
    ensures
        parse_qname_at(buf, pos, jumps_left) == QnameResult::JumpLimit,
    decreases jumps_left,
{
    if jumps_left > 0 {
        lemma_self_pointer_jump_limit(buf, pos, (jumps_left - 1) as nat);
    }
}

/// A parsed name always ends at a cursor within the buffer.
pub proof fn lemma_parse_end_bounds(buf: Seq<u8>, pos: int, jumps_left: nat)
    ensures
        (match parse_qname_at(buf, pos, jumps_left) {
            QnameResult::Parsed { name: _, end } => 0 <= end <= 512,
            _ => true,
        }),
    decreases jumps_left, (if 0 <= pos < 512 { 512 - pos } else { 0 }) as int,
{
    if 0 <= pos < 512 && buf.len() == 512 {
        let len = buf[pos];
        if len & 0xC0 == 0xC0 {
            if pos + 1 < 512 && jumps_left > 0 {
                let target = (len ^ 0xC0) as int * 256 + buf[pos + 1];
                lemma_parse_end_bounds(buf, target, (jumps_left - 1) as nat);
            }
        } else if len != 0 && pos + 1 + len < 512 {
            lemma_parse_end_bounds(buf, pos + 1 + len, jumps_left);
        }
    }
}

impl BytePacketBuffer {
    /// Decode the name at `pos` and append it to `out`; `first` says whether
    /// `out` is still at the start of this name. Returns the cursor position
    /// after the name. Does not move the buffer's own cursor.
    fn read_qname_rec(&self, pos: usize, jumps_left: u8, out: &mut Vec<u8>, first: bool) -> (r:
        Result<usize, DnsError>)
        requires
            self.wf(),
        ensures
            old(out)@.is_prefix_of(final(out)@),
            (match parse_qname_at(self.buf@, pos as int, jumps_left as nat) {
                QnameResult::Parsed { name, end } => r is Ok && r->Ok_0 as int == end
                    && final(out)@ == old(out)@ + with_sep(first, name),
                QnameResult::Truncated => r == Err::<usize, DnsError>(DnsError::EndOfBuffer),
                QnameResult::JumpLimit => r == Err::<usize, DnsError>(DnsError::JumpLimit),
            }),
        decreases jumps_left as int, (if (pos as int) < 512 { 512 - pos as int } else { 0 }),
    {
        let ghost out0 = out@;
        if pos >= 512 {
            return Err(DnsError::EndOfBuffer);
        }
        let len = self.buf[pos];
        if len & 0xC0 == 0xC0 {
            if pos + 1 >= 512 {
                return Err(DnsError::EndOfBuffer);
            }
            if jumps_left == 0 {
                return Err(DnsError::JumpLimit);
            }
            let b2 = self.buf[pos + 1];
            let target = (((len ^ 0xC0) as u16) << 8 | b2 as u16) as usize;
            proof {
                assert(((len ^ 0xC0) as u16) << 8 | b2 as u16 == (len ^ 0xC0) as u16 * 256
                    + b2 as u16) by (bit_vector);
            }
            let _inner_end = match self.read_qname_rec(target, jumps_left - 1, out, first) {
                Ok(e) => e,
                Err(e) => {
                    return Err(e);
                },
            };
            Ok(pos + 2)
        } else if len == 0 {
            proof {
                assert(out@ =~= out0 + with_sep(first, Seq::<u8>::empty()));
            }
            Ok(pos + 1)
        } else if pos + 1 + len as usize >= 512 {
            Err(DnsError::EndOfBuffer)
        } else {
            if !first {
                out.push(46);
            }
            let ghost out1 = out@;
            let ghost label = Seq::new(len as nat, |i: int| to_lower(self.buf@[pos + 1 + i]));
            let mut k: usize = 0;
            while k < len as usize
                invariant
                    self.wf(),
                    pos + 1 + len < 512,
                    k <= len,
                    label == Seq::new(len as nat, |i: int| to_lower(self.buf@[pos + 1 + i])),
                    out@ == out1 + label.subrange(0, k as int),
                decreases len - k,
            {
                let b = lower_byte(self.buf[pos + 1 + k]);
                out.push(b);
                k = k + 1;
                proof {
                    assert(out@ =~= out1 + label.subrange(0, k as int));
                }
            }
            proof {
                assert(label.subrange(0, len as int) =~= label);
            }
            let r = self.read_qname_rec(pos + 1 + len as usize, jumps_left, out, false);
            proof {
                match parse_qname_at(self.buf@, pos as int, jumps_left as nat) {
                    QnameResult::Parsed { name, end } => {
                        match parse_qname_at(self.buf@, pos + 1 + len, jumps_left as nat) {
                            QnameResult::Parsed { name: rest, end: _ } => {
                                assert(out@ =~= out0 + with_sep(first, name));
                            },
                            _ => {},
                        }
                    },
                    _ => {},
                }
            }
            r
        }
    }

    /// Decode the name at the cursor and append it to `out`. The cursor moves
    /// past the terminator, or past the first compression pointer if one was
    /// taken; on failure it stays put and `out` may hold a partial name.
    pub fn read_qname(&mut self, out: &mut Vec<u8>) -> (r: Result<(), DnsError>)
        requires
            old(self).wf(),
        ensures
            final(self).wf(),
            final(self).buf == old(self).buf,
            old(out)@.is_prefix_of(final(out)@),
            (match parse_qname_at(old(self).buf@, old(self).pos as int, 5) {
                QnameResult::Parsed { name, end } => r == Ok::<(), DnsError>(()) && final(out)@
                    == old(out)@ + name && final(self).pos == end,
                QnameResult::Truncated => r == Err::<(), DnsError>(DnsError::EndOfBuffer) && final(self).pos == old(self).pos,
                QnameResult::JumpLimit => r == Err::<(), DnsError>(DnsError::JumpLimit) && final(self).pos == old(self).pos,
            }),
    {
        proof {
            lemma_parse_end_bounds(self.buf@, self.pos as int, 5);
        }
        let end = match self.read_qname_rec(self.pos, 5, out, true) {
            Ok(e) => e,
            Err(e) => {
                return Err(e);
            },
        };
        self.pos = end;
        Ok(())
    }

    /// Encode the labels of `qname` from byte `start` on, each as a length
    /// byte and its bytes, ending with the zero terminator.
    #[verifier::loop_isolation(false)]
    fn write_labels_from(&mut self, qname: &Vec<u8>, start: usize) -> (r: Result<(), DnsError>)
        requires
            old(self).wf(),
            start <= qname@.len(),
        ensures
            final(self).wf(),
            final(self).pos >= old(self).pos,
            ({
                let rest = qname@.subrange(start as int, qname@.len() as int);
                let enc = encoded_name(rest);
                &&& (r is Ok <==> labels_fit(rest) && old(self).pos + enc.len() <= 512)
                &&& (r is Ok ==> final(self).buf@ == splice(
                    old(self).buf@,
                    old(self).pos as int,
                    enc,
                ) && final(self).pos == old(self).pos + enc.len())
                &&& (r is Err ==> (forall|i: int|
                    0 <= i < old(self).pos ==> final(self).buf@[i] == old(self).buf@[i]))
                &&& (labels_fit(rest) && old(self).pos + enc.len() > 512 ==> r == Err::<
                    (),
                    DnsError,
                >(DnsError::EndOfBuffer))
                &&& (!labels_fit(rest) && old(self).pos + enc.len() <= 512 ==> r == Err::<
                    (),
                    DnsError,
                >(DnsError::LabelTooLong))
            }),
        decreases qname@.len() - start,
    {
        let ghost rest = qname@.subrange(start as int, qname@.len() as int);
        let ghost buf0 = self.buf@;
        let ghost p0 = self.pos as int;
        proof {
            lemma_label_end(rest);
            lemma_encoded_name_len(rest);
        }
        // Find the end of the current label.
        let mut j: usize = start;
        while j < qname.len() && qname[j] != 46
            invariant
                start <= j <= qname@.len(),
                forall|m: int| start <= m < j ==> qname@[m] != 46,
            decreases qname@.len() - j,
        {
            j = j + 1;
        }
        proof {
            // j - start is exactly the first label's length.
            let k = label_end(rest);
            assert(forall|i: int| 0 <= i < j - start ==> rest[i] != 46);
            if k < j - start {
                assert(rest[k as int] != 46);
            }
            if k > j - start {
                assert(j < qname@.len());
                assert(rest[j - start] == qname@[j as int]);
            }
            assert(k == j - start);
        }
        let k = j - start;
        if k > 63 {
            return Err(DnsError::LabelTooLong);
        }
        match self.write_u8(k as u8) {
            Ok(_) => (),
            Err(e) => {
                return Err(e);
            },
        }
        proof {
            lemma_update_is_splice(buf0, p0, k as u8);
            assert(seq![(j - start) as u8] + qname@.subrange(start as int, start as int)
                =~= seq![(j - start) as u8]);
        }
        // Write the label's bytes.
        let mut m = start;
        while m < j
            invariant
                self.wf(),
                start <= m <= j <= qname@.len(),
                j - start <= 63,
                label_end(qname@.subrange(start as int, qname@.len() as int)) == j - start,
                buf0.len() == 512,
                p0 + 1 + (m - start) <= 512,
                self.buf@ == splice(buf0, p0, seq![(j - start) as u8] + qname@.subrange(
                    start as int,
                    m as int,
                )),
                self.pos == p0 + 1 + (m - start),
            decreases j - m,
        {
            let ghost patch = seq![(j - start) as u8] + qname@.subrange(start as int, m as int);
            match self.write(qname[m]) {
                Ok(_) => (),
                Err(e) => {
                    proof {
                        lemma_encoded_name_len(rest);
                        assert(forall|i: int| 0 <= i < p0 ==> self.buf@[i] == buf0[i]);
                    }
                    return Err(e);
                },
            }
            proof {
                lemma_update_is_splice(splice(buf0, p0, patch), p0 + patch.len(), qname@[m as int]);
                lemma_splice_splice(buf0, p0, patch, seq![qname@[m as int]]);
                assert(patch + seq![qname@[m as int]] =~= seq![(j - start) as u8]
                    + qname@.subrange(start as int, m + 1));
            }
            m = m + 1;
        }
        let ghost patch1 = seq![(j - start) as u8] + qname@.subrange(start as int, j as int);
        if j == qname.len() {
            match self.write_u8(0) {
                Ok(_) => (),
                Err(e) => {
                    return Err(e);
                },
            }
            proof {
                lemma_update_is_splice(splice(buf0, p0, patch1), p0 + patch1.len(), 0u8);
                lemma_splice_splice(buf0, p0, patch1, seq![0u8]);
                assert(patch1 + seq![0u8] =~= encoded_name(rest));
            }
            Ok(())
        } else {
            let r = self.write_labels_from(qname, j + 1);
            proof {
                let rest2 = qname@.subrange(j + 1, qname@.len() as int);
                assert(rest.subrange(label_end(rest) as int + 1, rest.len() as int) =~= rest2);
                lemma_encoded_name_len(rest2);
                if r is Ok {
                    lemma_splice_splice(buf0, p0, patch1, encoded_name(rest2));
                    assert(patch1 + encoded_name(rest2) =~= encoded_name(rest));
                }
            }
            r
        }
    }

    /// Encode `qname` at the cursor: labels split on dots, each at most 63
    /// bytes, then the zero terminator. No compression is emitted.
    pub fn write_qname(&mut self, qname: &Vec<u8>) -> (r: Result<(), DnsError>)
        requires
            old(self).wf(),
        ensures
            final(self).wf(),
            final(self).pos >= old(self).pos,
            r is Ok <==> labels_fit(qname@) && old(self).pos + qname@.len() + 2 <= 512,
            r is Ok ==> final(self).buf@ == splice(
                old(self).buf@,
                old(self).pos as int,
                encoded_name(qname@),
            ) && final(self).pos == old(self).pos + qname@.len() + 2,
            r is Err ==> (forall|i: int|
                0 <= i < old(self).pos ==> final(self).buf@[i] == old(self).buf@[i]),
            labels_fit(qname@) && old(self).pos + qname@.len() + 2 > 512 ==> r == Err::<
                (),
                DnsError,
            >(DnsError::EndOfBuffer),
            !labels_fit(qname@) && old(self).pos + qname@.len() + 2 <= 512 ==> r == Err::<
                (),
                DnsError,
            >(DnsError::LabelTooLong),
    {
        proof {
            assert(qname@.subrange(0, qname@.len() as int) =~= qname@);
            lemma_encoded_name_len(qname@);
        }
        self.write_labels_from(qname, 0)
    }
}

/// Decoding an uncompressed wire-form name gives the name back and lands
/// just past its terminator, whatever the jump budget.
pub proof fn lemma_parse_encoded_name(buf: Seq<u8>, pos: int, name: Seq<u8>, jumps: nat)
    requires
        buf.len() == 512,
        valid_name(name),
        0 <= pos,
        pos + name.len() + 2 <= 512,
        buf.subrange(pos, pos + name.len() + 2) == encoded_name(name),
    ensures
        parse_qname_at(buf, pos, jumps) == (QnameResult::Parsed {
            name,
            end: pos + name.len() + 2,
        }),
    decreases name.len(),
{
    lemma_label_end(name);
    lemma_encoded_name_len(name);
    let k = label_end(name);
    let enc = encoded_name(name);
    assert forall|i: int| 0 <= i < enc.len() implies buf[pos + i] == #[trigger] enc[i] by {
        assert(buf.subrange(pos, pos + name.len() + 2)[i] == enc[i]);
    }
    let k8 = k as u8;
    assert(enc[0] == k8);
    assert(buf[pos] == k8);
    assert(k8 & 0xC0 != 0xC0 && k8 != 0) by (bit_vector)
        requires
            1 <= k8 < 64,
    ;
    assert(pos + 1 + k8 < 512);
    let label = Seq::new(k8 as nat, |i: int| to_lower(buf[pos + 1 + i]));
    assert forall|i: int| 0 <= i < k implies label[i] == name[i] by {
        assert(buf[pos + 1 + i] == enc[1 + i]);
        assert(enc[1 + i] == name[i]);
        assert(to_lower(name[i]) == name[i]);
    }
    if k == name.len() {
        assert(buf[pos + 1 + k] == enc[1 + k as int]);
        assert(enc[1 + k as int] == 0);
        assert(0u8 & 0xC0 != 0xC0) by (bit_vector);
        assert(parse_qname_at(buf, pos + 1 + k, jumps) == (QnameResult::Parsed {
            name: Seq::<u8>::empty(),
            end: pos + k + 2,
        }));
        assert(label =~= name);
    } else {
        let name2 = name.subrange(k as int + 1, name.len() as int);
        assert(valid_labels(name2));
        assert(lowercase_name(name2)) by {
            assert(forall|i: int| 0 <= i < name2.len() ==> name2[i] == name[k + 1 + i]);
        }
        lemma_encoded_name_len(name2);
        let enc2 = encoded_name(name2);
        assert(buf.subrange(pos + k + 1, pos + k + 1 + name2.len() + 2) =~= enc2) by {
            assert(forall|i: int| 0 <= i < enc2.len() ==> enc[k + 1 + i] == enc2[i]);
        }
        lemma_parse_encoded_name(buf, pos + k + 1, name2, jumps);
        assert(name2.len() > 0);
        assert(label + seq![46u8] + name2 =~= name) by {
            assert(name[k as int] == 46);
        }
    }
}

} // verus!
