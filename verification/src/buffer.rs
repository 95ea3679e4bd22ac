//! The fixed 512-byte packet buffer with its position cursor, and the
//! bounds-checked primitive reads, writes and back-patches on it.

use vstd::prelude::*;

use crate::types::DnsError;
use crate::wire::{splice, u16_hi, u16_lo, u16_of, u32_b0, u32_b1, u32_b2, u32_b3, u32_of};
use crate::wire::{lemma_splice_splice, lemma_u16_of_parts, lemma_u32_of_parts,
    lemma_update_is_splice};

verus! {

/// A 512-byte buffer holding one DNS datagram, plus a cursor in `pos`.
pub struct BytePacketBuffer {
    pub buf: Vec<u8>,
    pub pos: usize,
}

impl BytePacketBuffer {
    /// The buffer always holds exactly 512 bytes.
    pub open spec fn wf(&self) -> bool {
        self.buf@.len() == 512
    }

    /// A zeroed buffer with the cursor at the start.
    pub fn new() -> (r: BytePacketBuffer)
        ensures
            r.wf(),
            r.pos == 0,
            r.buf@ == Seq::new(512, |i: int| 0u8),
    {
        let mut v: Vec<u8> = Vec::new();
        let mut i: usize = 0;
        while i < 512
            invariant
                i <= 512,
                v@ == Seq::new(i as nat, |j: int| 0u8),
            decreases 512 - i,
        {
            v.push(0);
            i = i + 1;
            proof {
                assert(v@ =~= Seq::new(i as nat, |j: int| 0u8));
            }
        }
        BytePacketBuffer { buf: v, pos: 0 }
    }

    /// Current position within the buffer.
    pub fn pos(&self) -> (r: usize)
        ensures
            r == self.pos,
    {
        self.pos
    }

    /// Step the cursor forward by `steps`.
    pub fn step(&mut self, steps: usize) -> (r: Result<(), DnsError>)
        requires
            old(self).pos + steps <= usize::MAX,
        ensures
            r == Ok::<(), DnsError>(()),
            final(self).buf == old(self).buf,
            final(self).pos == old(self).pos + steps,
    {
        self.pos = self.pos + steps;
        Ok(())
    }

    /// Move the cursor to `pos`.
    pub fn seek(&mut self, pos: usize) -> (r: Result<(), DnsError>)
        ensures
            r == Ok::<(), DnsError>(()),
            final(self).buf == old(self).buf,
            final(self).pos == pos,
    {
        self.pos = pos;
        Ok(())
    }

    /// Read the byte under the cursor and advance by one.
    pub fn read(&mut self) -> (r: Result<u8, DnsError>)
        requires
            old(self).wf(),
        ensures
            final(self).wf(),
            final(self).buf == old(self).buf,
            r is Ok <==> old(self).pos < 512,
            old(self).pos < 512 ==> r == Ok::<u8, DnsError>(old(self).buf@[old(self).pos as int])
                && final(self).pos == old(self).pos + 1,
            old(self).pos >= 512 ==> r == Err::<u8, DnsError>(DnsError::EndOfBuffer)
                && final(self).pos == old(self).pos,
    {
        if self.pos >= 512 {
            return Err(DnsError::EndOfBuffer);
        }
        let b = self.buf[self.pos];
        self.pos = self.pos + 1;
        Ok(b)
    }

    /// Read the byte at `pos` without moving the cursor.
    pub fn single_byte(&self, pos: usize) -> (r: Result<u8, DnsError>)
        requires
            self.wf(),
        ensures
            pos < 512 ==> r == Ok::<u8, DnsError>(self.buf@[pos as int]),
            pos >= 512 ==> r == Err::<u8, DnsError>(DnsError::EndOfBuffer),
    {
        if pos >= 512 {
            return Err(DnsError::EndOfBuffer);
        }
        Ok(self.buf[pos])
    }

    /// Copy `len` bytes starting at `start` without moving the cursor.
    /// Rejects `start + len >= 512`, so the very last byte is out of its
    /// reach even though single-byte reads can see it.
    pub fn range_of_bytes(&self, start: usize, len: usize) -> (r: Result<Vec<u8>, DnsError>)
        requires
            self.wf(),
        ensures
            start + len < 512 ==> r is Ok && r->Ok_0@ == self.buf@.subrange(
                start as int,
                start + len,
            ),
            start + len >= 512 ==> r == Err::<Vec<u8>, DnsError>(DnsError::EndOfBuffer),
    {
        if start >= 512 || len >= 512 - start {
            return Err(DnsError::EndOfBuffer);
        }
        let mut out: Vec<u8> = Vec::new();
        let mut i: usize = 0;
        while i < len
            invariant
                self.wf(),
                i <= len,
                start + len < 512,
                out@ == self.buf@.subrange(start as int, start + i),
            decreases len - i,
        {
            out.push(self.buf[start + i]);
            i = i + 1;
            proof {
                assert(out@ =~= self.buf@.subrange(start as int, start + i));
            }
        }
        Ok(out)
    }

    /// Read two bytes as a big-endian 16-bit value.
    pub fn read_u16(&mut self) -> (r: Result<u16, DnsError>)
        requires
            old(self).wf(),
        ensures
            final(self).wf(),
            final(self).buf == old(self).buf,
            r is Ok <==> old(self).pos + 2 <= 512,
            old(self).pos + 2 <= 512 ==> r == Ok::<u16, DnsError>(
                u16_of(
                    old(self).buf@[old(self).pos as int],
                    old(self).buf@[old(self).pos + 1],
                ),
            ) && final(self).pos == old(self).pos + 2,
            r is Err ==> r == Err::<u16, DnsError>(DnsError::EndOfBuffer)
                && final(self).pos == (if old(self).pos >= 512 { old(self).pos as int } else { 512 }),
    {
        let a = self.read()?;
        let b = self.read()?;
        proof {
            lemma_u16_of_parts(a, b);
        }
        Ok((a as u16) << 8 | b as u16)
    }

    /// Read four bytes as a big-endian 32-bit value.
    pub fn read_u32(&mut self) -> (r: Result<u32, DnsError>)
        requires
            old(self).wf(),
        ensures
            final(self).wf(),
            final(self).buf == old(self).buf,
            r is Ok <==> old(self).pos + 4 <= 512,
            old(self).pos + 4 <= 512 ==> r == Ok::<u32, DnsError>(
                u32_of(
                    old(self).buf@[old(self).pos as int],
                    old(self).buf@[old(self).pos + 1],
                    old(self).buf@[old(self).pos + 2],
                    old(self).buf@[old(self).pos + 3],
                ),
            ) && final(self).pos == old(self).pos + 4,
            r is Err ==> r == Err::<u32, DnsError>(DnsError::EndOfBuffer) && final(self).pos == (
            if old(self).pos >= 512 {
                old(self).pos as int
            } else {
                512
            }),
    {
        let b0 = self.read()?;
        let b1 = self.read()?;
        let b2 = self.read()?;
        let b3 = self.read()?;
        proof {
            lemma_u32_of_parts(b0, b1, b2, b3);
        }
        Ok((b0 as u32) << 24 | (b1 as u32) << 16 | (b2 as u32) << 8 | b3 as u32)
    }

    /// Write one byte at the cursor and advance by one.
    pub fn write(&mut self, val: u8) -> (r: Result<(), DnsError>)
        requires
            old(self).wf(),
        ensures
            final(self).wf(),
            r is Ok <==> old(self).pos < 512,
            old(self).pos < 512 ==> r == Ok::<(), DnsError>(())
                && final(self).buf@ == old(self).buf@.update(old(self).pos as int, val)
                && final(self).pos == old(self).pos + 1,
            old(self).pos >= 512 ==> r == Err::<(), DnsError>(DnsError::EndOfBuffer) && *final(self)
                == *old(self),
    {
        if self.pos >= 512 {
            return Err(DnsError::EndOfBuffer);
        }
        self.buf.set(self.pos, val);
        self.pos = self.pos + 1;
        Ok(())
    }

    /// Write one byte at the cursor.
    pub fn write_u8(&mut self, val: u8) -> (r: Result<(), DnsError>)
        requires
            old(self).wf(),
        ensures
            final(self).wf(),
            r is Ok <==> old(self).pos < 512,
            old(self).pos < 512 ==> r == Ok::<(), DnsError>(())
                && final(self).buf@ == old(self).buf@.update(old(self).pos as int, val)
                && final(self).pos == old(self).pos + 1,
            old(self).pos >= 512 ==> r == Err::<(), DnsError>(DnsError::EndOfBuffer) && *final(self)
                == *old(self),
    {
        self.write(val)?;
        Ok(())
    }

    /// Write a big-endian 16-bit value at the cursor.
    pub fn write_u16(&mut self, val: u16) -> (r: Result<(), DnsError>)
        requires
            old(self).wf(),
        ensures
            final(self).wf(),
            r is Ok <==> old(self).pos + 2 <= 512,
            old(self).pos + 2 <= 512 ==> r == Ok::<(), DnsError>(()) && final(self).buf@ == splice(
                old(self).buf@,
                old(self).pos as int,
                seq![u16_hi(val), u16_lo(val)],
            ) && final(self).pos == old(self).pos + 2,
            r is Err ==> r == Err::<(), DnsError>(DnsError::EndOfBuffer) && (forall|i: int|
                0 <= i < old(self).pos ==> final(self).buf@[i] == old(self).buf@[i]) && final(self).pos >= old(self).pos,
    {
        let ghost buf0 = self.buf@;
        let ghost p = self.pos as int;
        self.write((val >> 8) as u8)?;
        self.write((val & 0xFF) as u8)?;
        proof {
            assert((val & 0xFF) as u8 == u16_lo(val));
            assert(self.buf@ =~= splice(buf0, p, seq![u16_hi(val), u16_lo(val)]));
        }
        Ok(())
    }

    /// Write a big-endian 32-bit value at the cursor.
    pub fn write_u32(&mut self, val: u32) -> (r: Result<(), DnsError>)
        requires
            old(self).wf(),
        ensures
            final(self).wf(),
            r is Ok <==> old(self).pos + 4 <= 512,
            old(self).pos + 4 <= 512 ==> r == Ok::<(), DnsError>(()) && final(self).buf@ == splice(
                old(self).buf@,
                old(self).pos as int,
                seq![u32_b0(val), u32_b1(val), u32_b2(val), u32_b3(val)],
            ) && final(self).pos == old(self).pos + 4,
            r is Err ==> r == Err::<(), DnsError>(DnsError::EndOfBuffer) && (forall|i: int|
                0 <= i < old(self).pos ==> final(self).buf@[i] == old(self).buf@[i]) && final(self).pos >= old(self).pos,
    {
        let ghost buf0 = self.buf@;
        let ghost p = self.pos as int;
        self.write(((val >> 24) & 0xFF) as u8)?;
        self.write(((val >> 16) & 0xFF) as u8)?;
        self.write(((val >> 8) & 0xFF) as u8)?;
        self.write((val & 0xFF) as u8)?;
        proof {
            assert(self.buf@ =~= splice(buf0, p, seq![u32_b0(val), u32_b1(val), u32_b2(val),
                u32_b3(val)]));
        }
        Ok(())
    }

    /// Back-patch one byte at `pos` without moving the cursor.
    pub fn set(&mut self, pos: usize, val: u8) -> (r: Result<(), DnsError>)
        requires
            old(self).wf(),
        ensures
            final(self).wf(),
            final(self).pos == old(self).pos,
            r is Ok <==> pos < 512,
            pos < 512 ==> r == Ok::<(), DnsError>(()) && final(self).buf@ == old(self).buf@.update(
                pos as int,
                val,
            ),
            pos >= 512 ==> r == Err::<(), DnsError>(DnsError::EndOfBuffer) && *final(self) == *old(self),
    {
        if pos >= 512 {
            return Err(DnsError::EndOfBuffer);
        }
        self.buf.set(pos, val);
        Ok(())
    }

    /// Back-patch a big-endian 16-bit value at `pos` without moving the cursor.
    pub fn set_u16(&mut self, pos: usize, val: u16) -> (r: Result<(), DnsError>)
        requires
            old(self).wf(),
        ensures
            final(self).wf(),
            final(self).pos == old(self).pos,
            r is Ok <==> pos + 2 <= 512,
            pos + 2 <= 512 ==> r == Ok::<(), DnsError>(()) && final(self).buf@ == splice(
                old(self).buf@,
                pos as int,
                seq![u16_hi(val), u16_lo(val)],
            ),
            r is Err ==> r == Err::<(), DnsError>(DnsError::EndOfBuffer) && (forall|i: int|
                0 <= i < 512 && i != pos ==> final(self).buf@[i] == old(self).buf@[i]),
    {
        let ghost buf0 = self.buf@;
        self.set(pos, (val >> 8) as u8)?;
        self.set(pos + 1, (val & 0xFF) as u8)?;
        proof {
            assert(self.buf@ =~= splice(buf0, pos as int, seq![u16_hi(val), u16_lo(val)]));
        }
        Ok(())
    }
}

} // verus!
