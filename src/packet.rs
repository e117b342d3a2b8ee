use vstd::prelude::*;
use vstd::string::StringSliceAdditionalSpecFns;
use crate::name::{
    all_short, labels_wire, lemma_labels_wire_concat, lemma_labels_wire_take, lemma_split_dot,
    lemma_split_extend, lemma_split_nonempty, lemma_split_prefix, long_label_at, name_wire, split_dots,
    DOT, MAX_LABEL, MAX_JUMPS, name_labels, name_end, name_text, prepend_labels, pointer_target,
    label_text, utf8_lossy, lowercase, qname_outcome, append_label,
};

verus! {

/// Failures of the packet codec.
#[derive(Debug, Clone, Copy, PartialEq, Eq, Structural)]
pub enum PacketError {
    /// A cursor or a range would pass the end of the buffer.
    BufferBounds,
    /// A label of a domain name is longer than 63 bytes.
    LabelTooLong,
    /// A compressed name follows more than five pointers.
    TooManyJumps,
}

/// A fixed 512-byte packet with a read/write cursor.
pub struct BytePacketBuffer {
    pub buff: [u8; 512],
    pub pos: usize,
}

/// `new` equals `old` but for the bytes `bs`, which stand at `at`.
pub open spec fn wrote(old: Seq<u8>, new: Seq<u8>, at: int, bs: Seq<u8>) -> bool {
    &&& new.len() == old.len()
    &&& 0 <= at
    &&& at + bs.len() <= old.len()
    &&& forall|i: int| 0 <= i < bs.len() ==> #[trigger] new[at + i] == bs[i]
    &&& forall|i: int|
        0 <= i < old.len() && !(at <= i < at + bs.len()) ==> #[trigger] new[i] == old[i]
}

/// Big-endian value of two bytes.
pub open spec fn be16(hi: u8, lo: u8) -> u16 {
    (hi as u16 * 256 + lo as u16) as u16
}

/// Big-endian value of four bytes.
pub open spec fn be32(b0: u8, b1: u8, b2: u8, b3: u8) -> u32 {
    (b0 as u32 * 16777216 + b1 as u32 * 65536 + b2 as u32 * 256 + b3 as u32) as u32
}

/// The two bytes of `v`, high byte first.
pub open spec fn u16_bytes(v: u16) -> Seq<u8> {
    seq![(v / 256) as u8, (v % 256) as u8]
}

/// The four bytes of `v`, high byte first.
pub open spec fn u32_bytes(v: u32) -> Seq<u8> {
    seq![(v / 16777216) as u8, ((v / 65536) % 256) as u8, ((v / 256) % 256) as u8, (v % 256) as u8]
}

/// Writing `x` and then `y` right after it writes `x + y`.
pub proof fn lemma_wrote_then(a: Seq<u8>, b: Seq<u8>, c: Seq<u8>, at: int, x: Seq<u8>, y: Seq<u8>)
    requires
        wrote(a, b, at, x),
        wrote(b, c, at + x.len(), y),
    ensures
        wrote(a, c, at, x + y),
{
    assert forall|i: int| 0 <= i < (x + y).len() implies #[trigger] c[at + i] == (x + y)[i] by {
        if i >= x.len() {
            assert(c[at + x.len() + (i - x.len())] == y[i - x.len()]);
        } else {
            assert(b[at + i] == x[i]);
        }
    }
}

/// Setting one byte writes a sequence of one byte.
pub proof fn lemma_wrote_byte(a: Seq<u8>, at: int, v: u8)
    requires
        0 <= at < a.len(),
    ensures
        wrote(a, a.update(at, v), at, seq![v]),
{
    assert(a.update(at, v)[at + 0] == v);
}

/// Writing nothing leaves the bytes as they are.
pub proof fn lemma_wrote_nothing(a: Seq<u8>, at: int)
    requires
        0 <= at <= a.len(),
    ensures
        wrote(a, a, at, Seq::empty()),
{
}

/// Overwriting two bytes inside what was written writes the patched
/// sequence.
pub proof fn lemma_wrote_patch(a: Seq<u8>, b: Seq<u8>, c: Seq<u8>, at: int, x: Seq<u8>, y: Seq<u8>, old_v: u16, v: u16)
    requires
        wrote(a, b, at, x + u16_bytes(old_v) + y),
        wrote(b, c, at + x.len(), u16_bytes(v)),
    ensures
        wrote(a, c, at, x + u16_bytes(v) + y),
{
    let w = x + u16_bytes(v) + y;
    let w0 = x + u16_bytes(old_v) + y;
    assert forall|i: int| 0 <= i < w.len() implies #[trigger] c[at + i] == w[i] by {
        assert(b[at + i] == w0[i]);
        if x.len() <= i < x.len() + 2 {
            assert(c[at + x.len() + (i - x.len())] == u16_bytes(v)[i - x.len()]);
        }
    }
}

/// The bytes of a big-endian number read back as its parts.
pub proof fn lemma_be32_parts(b0: u8, b1: u8, b2: u8, b3: u8)
    ensures
        ((be32(b0, b1, b2, b3) >> 24u32) & 0xFFu32) as u8 == b0,
        ((be32(b0, b1, b2, b3) >> 16u32) & 0xFFu32) as u8 == b1,
        ((be32(b0, b1, b2, b3) >> 8u32) & 0xFFu32) as u8 == b2,
        (be32(b0, b1, b2, b3) & 0xFFu32) as u8 == b3,
        ((be32(b0, b1, b2, b3) >> 16u32) & 0xFFFFu32) as u16 == be16(b0, b1),
        (be32(b0, b1, b2, b3) & 0xFFFFu32) as u16 == be16(b2, b3),
{
    assert(((((b0 as u32 * 16777216 + b1 as u32 * 65536 + b2 as u32 * 256 + b3 as u32) as u32) >> 24u32) & 0xFFu32) as u8 == b0
        && ((((b0 as u32 * 16777216 + b1 as u32 * 65536 + b2 as u32 * 256 + b3 as u32) as u32) >> 16u32) & 0xFFu32) as u8 == b1
        && ((((b0 as u32 * 16777216 + b1 as u32 * 65536 + b2 as u32 * 256 + b3 as u32) as u32) >> 8u32) & 0xFFu32) as u8 == b2
        && (((b0 as u32 * 16777216 + b1 as u32 * 65536 + b2 as u32 * 256 + b3 as u32) as u32) & 0xFFu32) as u8 == b3
        && ((((b0 as u32 * 16777216 + b1 as u32 * 65536 + b2 as u32 * 256 + b3 as u32) as u32) >> 16u32) & 0xFFFFu32) as u16
            == (b0 as u16 * 256 + b1 as u16) as u16
        && (((b0 as u32 * 16777216 + b1 as u32 * 65536 + b2 as u32 * 256 + b3 as u32) as u32) & 0xFFFFu32) as u16
            == (b2 as u16 * 256 + b3 as u16) as u16) by (bit_vector);
}

/// A part of what was written reads back from the buffer.
pub proof fn lemma_wrote_slice(a: Seq<u8>, b: Seq<u8>, at: int, w: Seq<u8>, off: int, len: int)
    requires
        wrote(a, b, at, w),
        0 <= off,
        0 <= len,
        off + len <= w.len(),
    ensures
        b.subrange(at + off, at + off + len) == w.subrange(off, off + len),
{
    assert forall|i: int| 0 <= i < len implies #[trigger] b.subrange(at + off, at + off + len)[i]
        == w.subrange(off, off + len)[i] by {
        assert(b[at + (off + i)] == w[off + i]);
    }
    assert(b.subrange(at + off, at + off + len) =~= w.subrange(off, off + len));
}

/// Two bytes written for a number read back as that number.
pub proof fn lemma_u16_bytes(v: u16)
    ensures
        be16(u16_bytes(v)[0], u16_bytes(v)[1]) == v,
{
    assert((((v / 256) as u8) as u16 * 256 + ((v % 256) as u8) as u16) as u16 == v) by (bit_vector);
}

/// Four bytes written for a number read back as that number.
pub proof fn lemma_u32_bytes(v: u32)
    ensures
        be32(u32_bytes(v)[0], u32_bytes(v)[1], u32_bytes(v)[2], u32_bytes(v)[3]) == v,
{
    assert((((v / 16777216) as u8) as u32 * 16777216 + (((v / 65536) % 256) as u8) as u32 * 65536
        + (((v / 256) % 256) as u8) as u32 * 256 + ((v % 256) as u8) as u32) as u32 == v) by (bit_vector);
}

/// What was written as two parts is found as each part.
pub proof fn lemma_wrote_split(a: Seq<u8>, b: Seq<u8>, at: int, x: Seq<u8>, y: Seq<u8>)
    requires
        wrote(a, b, at, x + y),
    ensures
        wrote(b, b, at, x),
        wrote(b, b, at + x.len(), y),
{
    assert forall|i: int| 0 <= i < x.len() implies #[trigger] b[at + i] == x[i] by {
        assert(b[at + i] == (x + y)[i]);
    }
    assert forall|i: int| 0 <= i < y.len() implies #[trigger] b[at + x.len() + i] == y[i] by {
        assert(b[at + (x.len() + i)] == (x + y)[x.len() + i]);
    }
}

impl BytePacketBuffer {
    /// The bytes of the packet.
    pub open spec fn data(&self) -> Seq<u8> {
        self.buff@
    }

    /// The buffer reads the same bytes as `other`; only the cursor may differ.
    pub open spec fn same_bytes(&self, other: &Self) -> bool {
        self.buff@ == other.buff@
    }

    /// An empty packet: all bytes zero, cursor at the start.
    pub fn new() -> (r: Self)
        ensures
            r.pos == 0,
            r.data().len() == 512,
            forall|i: int| 0 <= i < 512 ==> #[trigger] r.data()[i] == 0,
    {
        let buff = [0u8; 512];
        BytePacketBuffer { buff, pos: 0 }
    }

    /// Overwrite the byte at `pos`; the cursor stays.
    pub fn set(&mut self, pos: usize, val: u8)
        requires
            pos < 512,
        ensures
            final(self).data() == old(self).data().update(pos as int, val),
            final(self).pos == old(self).pos,
    {
        self.buff[pos] = val;
    }

    /// Overwrite the two bytes at `pos` with `val`, high byte first; the
    /// cursor stays.
    pub fn set_u16(&mut self, pos: usize, val: u16)
        requires
            pos + 1 < 512,
        ensures
            wrote(old(self).data(), final(self).data(), pos as int, u16_bytes(val)),
            final(self).pos == old(self).pos,
    {
        self.set(pos, (val >> 8) as u8);
        self.set(pos + 1, (val & 0xFF) as u8);
        assert((val >> 8) as u8 == (val / 256) as u8 && (val & 0xFF) as u8 == (val % 256) as u8)
            by (bit_vector);
    }

    /// The cursor.
    pub fn pos(&self) -> (r: usize)
        ensures
            r == self.pos,
    {
        self.pos
    }

    /// Move the cursor forward by `step` bytes.
    pub fn step(&mut self, step: usize)
        requires
            old(self).pos + step <= usize::MAX,
        ensures
            final(self).pos == old(self).pos + step,
            final(self).same_bytes(old(self)),
    {
        self.pos = self.pos + step;
    }

    /// Move the cursor to `pos`.
    pub fn seek(&mut self, pos: usize)
        ensures
            final(self).pos == pos,
            final(self).same_bytes(old(self)),
    {
        self.pos = pos;
    }

    /// Read the byte under the cursor and move past it.
    pub fn read(&mut self) -> (r: Result<u8, PacketError>)
        ensures
            final(self).same_bytes(old(self)),
            old(self).pos < 512 ==> r == Ok::<u8, PacketError>(old(self).data()[old(self).pos as int])
                && final(self).pos == old(self).pos + 1,
            old(self).pos >= 512 ==> r == Err::<u8, PacketError>(PacketError::BufferBounds)
                && final(self).pos == old(self).pos,
    {
        if self.pos >= 512 {
            return Err(PacketError::BufferBounds);
        }
        let byte_read = self.buff[self.pos];
        self.pos = self.pos + 1;
        Ok(byte_read)
    }

    /// Write `val` under the cursor and move past it.
    pub fn write(&mut self, val: u8) -> (r: Result<(), PacketError>)
        ensures
            old(self).pos < 512 ==> r is Ok
                && final(self).data() == old(self).data().update(old(self).pos as int, val)
                && final(self).pos == old(self).pos + 1,
            old(self).pos >= 512 ==> r == Err::<(), PacketError>(PacketError::BufferBounds)
                && *final(self) == *old(self),
    {
        if self.pos >= 512 {
            return Err(PacketError::BufferBounds);
        }
        self.buff[self.pos] = val;
        self.pos = self.pos + 1;
        Ok(())
    }

    /// The byte at `pos`; the cursor stays.
    pub fn get(&mut self, pos: usize) -> (r: Result<u8, PacketError>)
        ensures
            *final(self) == *old(self),
            pos < 512 ==> r == Ok::<u8, PacketError>(old(self).data()[pos as int]),
            pos >= 512 ==> r == Err::<u8, PacketError>(PacketError::BufferBounds),
    {
        if pos >= 512 {
            return Err(PacketError::BufferBounds);
        }
        Ok(self.buff[pos])
    }

    /// The `length` bytes from `start`; a range must end before the last
    /// byte of the buffer.
    pub fn get_range(&mut self, start: usize, length: usize) -> (r: Result<&[u8], PacketError>)
        ensures
            *final(self) == *old(self),
            start + length < 512 ==> r is Ok && r->Ok_0@ == old(self).data().subrange(
                start as int,
                start + length,
            ),
            start + length >= 512 ==> r == Err::<&[u8], PacketError>(PacketError::BufferBounds),
    {
        if start >= 512 || length >= 512 - start {
            return Err(PacketError::BufferBounds);
        }
        let bytes = &self.buff.as_slice()[start..start + length];
        Ok(bytes)
    }
    /// Write `val` at the cursor, high byte first, and move past it.
    pub fn write_u16(&mut self, val: u16) -> (r: Result<(), PacketError>)
        ensures
            old(self).pos + 2 <= 512 ==> r is Ok && wrote(
                old(self).data(),
                final(self).data(),
                old(self).pos as int,
                u16_bytes(val),
            ) && final(self).pos == old(self).pos + 2,
            old(self).pos + 2 > 512 ==> r == Err::<(), PacketError>(PacketError::BufferBounds),
    {
        self.write((val >> 8) as u8)?;
        self.write((val & 0xff) as u8)?;
        assert((val >> 8) as u8 == (val / 256) as u8 && (val & 0xff) as u8 == (val % 256) as u8)
            by (bit_vector);
        Ok(())
    }

    /// Read two bytes at the cursor as a big-endian number and move past them.
    pub fn read_u16(&mut self) -> (r: Result<u16, PacketError>)
        ensures
            final(self).same_bytes(old(self)),
            old(self).pos + 2 <= 512 ==> r == Ok::<u16, PacketError>(
                be16(old(self).data()[old(self).pos as int], old(self).data()[old(self).pos + 1]),
            ) && final(self).pos == old(self).pos + 2,
            old(self).pos + 2 > 512 ==> r == Err::<u16, PacketError>(PacketError::BufferBounds),
    {
        let hi = self.read()?;
        let lo = self.read()?;
        let ret = (hi as u16) << 8 | lo as u16;
        assert((hi as u16) << 8 | lo as u16 == (hi as u16 * 256 + lo as u16) as u16) by (bit_vector);
        Ok(ret)
    }

    /// Write `val` at the cursor, high byte first, and move past it.
    pub fn write_u32(&mut self, val: u32) -> (r: Result<(), PacketError>)
        ensures
            old(self).pos + 4 <= 512 ==> r is Ok && wrote(
                old(self).data(),
                final(self).data(),
                old(self).pos as int,
                u32_bytes(val),
            ) && final(self).pos == old(self).pos + 4,
            old(self).pos + 4 > 512 ==> r == Err::<(), PacketError>(PacketError::BufferBounds),
    {
        self.write(((val >> 24) & 0xFF) as u8)?;
        self.write(((val >> 16) & 0xFF) as u8)?;
        self.write(((val >> 8) & 0xFF) as u8)?;
        self.write((val & 0xFF) as u8)?;
        assert(((val >> 24) & 0xFF) as u8 == (val / 16777216) as u8
            && ((val >> 16) & 0xFF) as u8 == ((val / 65536) % 256) as u8
            && ((val >> 8) & 0xFF) as u8 == ((val / 256) % 256) as u8
            && (val & 0xFF) as u8 == (val % 256) as u8) by (bit_vector);
        Ok(())
    }

    /// Read four bytes at the cursor as a big-endian number and move past them.
    pub fn read_u32(&mut self) -> (r: Result<u32, PacketError>)
        ensures
            final(self).same_bytes(old(self)),
            old(self).pos + 4 <= 512 ==> r == Ok::<u32, PacketError>(
                be32(
                    old(self).data()[old(self).pos as int],
                    old(self).data()[old(self).pos + 1],
                    old(self).data()[old(self).pos + 2],
                    old(self).data()[old(self).pos + 3],
                ),
            ) && final(self).pos == old(self).pos + 4,
            old(self).pos + 4 > 512 ==> r == Err::<u32, PacketError>(PacketError::BufferBounds),
    {
        let b0 = self.read()?;
        let b1 = self.read()?;
        let b2 = self.read()?;
        let b3 = self.read()?;
        let ret = (b0 as u32) << 24 | (b1 as u32) << 16 | (b2 as u32) << 8 | b3 as u32;
        assert((b0 as u32) << 24 | (b1 as u32) << 16 | (b2 as u32) << 8 | b3 as u32
            == (b0 as u32 * 16777216 + b1 as u32 * 65536 + b2 as u32 * 256 + b3 as u32) as u32)
            by (bit_vector);
        Ok(ret)
    }
    /// Write a dotted name as uncompressed labels and a closing zero byte.
    pub fn write_qname(&mut self, qname: &str) -> (r: Result<(), PacketError>)
        ensures
            r == qname_outcome(qname.spec_bytes(), old(self).pos as int),
            r is Ok ==> wrote(
                old(self).data(),
                final(self).data(),
                old(self).pos as int,
                name_wire(qname.spec_bytes()),
            ) && final(self).pos == old(self).pos + name_wire(qname.spec_bytes()).len(),
    {
        let bytes = qname.as_bytes();
        let n = bytes.len();
        let ghost bs = qname.spec_bytes();
        let ghost ls = split_dots(bs);
        let ghost at = self.pos as int;
        let ghost old_data = self.data();
        let ghost mut done: Seq<Seq<u8>> = Seq::empty();
        let mut start: usize = 0;
        proof {
            lemma_split_nonempty(bs);
            assert(bs.take(0) =~= Seq::<u8>::empty());
            assert(bs.take(n as int) =~= bs);
        }
        loop
            invariant_except_break
                split_dots(bs.take(start as int)) == done.push(Seq::<u8>::empty()),
                done.len() < ls.len(),
            invariant
                bytes@ == bs,
                bs == qname.spec_bytes(),
                at == old(self).pos as int,
                old_data == old(self).data(),
                n == bs.len(),
                ls == split_dots(bs),
                0 <= start <= n,
                ls.take(done.len() as int) == done,
                all_short(done),
                done.len() == 0 || self.pos <= 512,
                self.pos == at + labels_wire(done).len(),
                old_data.len() == 512,
                done.len() > 0 ==> wrote(old_data, self.data(), at, labels_wire(done)),
                done.len() == 0 ==> self.data() == old_data,
            ensures
                ls == done,
                all_short(done),
                self.pos == at + labels_wire(done).len(),
                old_data.len() == 512,
                wrote(old_data, self.data(), at, labels_wire(done)),
            decreases n - start,
        {
            let mut end: usize = start;
            while end < n && bytes[end] != DOT
                invariant
                    start <= end <= n,
                    bytes@ == bs,
                    n == bs.len(),
                    forall|i: int| start <= i < end ==> bs[i] != DOT,
                decreases n - end,
            {
                end = end + 1;
            }
            let len = end - start;
            let ghost label = bs.subrange(start as int, end as int);
            let ghost d = done.len() as int;
            proof {
                assert(bs.take(n as int) =~= bs);
                lemma_split_extend(bs, start as int, end as int);
                assert(Seq::<u8>::empty() + label =~= label);
                assert(split_dots(bs.take(end as int)) =~= done.push(label));
                if end < n {
                    lemma_split_dot(bs, end as int);
                    lemma_split_prefix(bs, end as int + 1, n as int);
                    assert(done.push(label).push(Seq::<u8>::empty()).drop_last() =~= done.push(label));
                    assert(split_dots(bs.take(end + 1)).len() == d + 2);
                    assert(ls.len() >= d + 2);
                } else {
                    assert(bs.take(end as int) =~= bs);
                    assert(ls == done.push(label));
                }
                assert(ls.take(d + 1) =~= done.push(label));
                assert(ls.len() >= d + 1);
                assert(ls.take(d + 1)[d] == ls[d]);
                assert(done.push(label)[d] == label);
                assert(ls[d] == label);
                assert(ls.take(d) =~= done);
            }
            if len > MAX_LABEL {
                assert(long_label_at(ls, d, at));
                assert(!all_short(ls));
                return Err(PacketError::LabelTooLong);
            }
            proof {
                assert(all_short(done.push(label)));
            }
            if self.pos >= 512 || 512 - self.pos < len + 1 {
                proof {
                    lemma_labels_wire_take(ls, d, d + 1);
                    assert(done.push(label).drop_last() =~= done);
                    assert(labels_wire(ls.take(d + 1)) == labels_wire(done) + seq![label.len() as u8] + label);
                    assert forall|k: int| !long_label_at(ls, k, at) by {
                        if long_label_at(ls, k, at) {
                            if k <= d {
                                assert(ls.take(d + 1)[k] == ls[k]);
                            } else {
                                assert(ls.take(k)[d] == ls[d]);
                                lemma_labels_wire_take(ls, d + 1, k);
                            }
                        }
                    }
                    if all_short(ls) {
                        lemma_labels_wire_take(ls, d + 1, ls.len() as int);
                        assert(ls.take(ls.len() as int) =~= ls);
                    }
                }
                return Err(PacketError::BufferBounds);
            }
            let ghost before = self.data();
            self.write(len as u8).unwrap();
            proof {
                lemma_wrote_byte(before, self.pos - 1, len as u8);
                assert(seq![len as u8] + bs.subrange(start as int, start as int) =~= seq![len as u8]);
            }
            let mut j: usize = start;
            while j < end
                invariant
                    start <= j <= end <= n,
                    bytes@ == bs,
                    n == bs.len(),
                    len == end - start,
                    len <= 63,
                    self.pos + (end - j) <= 512,
                    self.pos == at + labels_wire(done).len() + 1 + (j - start),
                    wrote(before, self.data(), at + labels_wire(done).len(),
                        seq![len as u8] + bs.subrange(start as int, j as int)),
                    before.len() == 512,
                decreases end - j,
            {
                let ghost mid = self.data();
                self.write(bytes[j]).unwrap();
                proof {
                    lemma_wrote_byte(mid, self.pos - 1, bytes[j as int]);
                    lemma_wrote_then(before, mid, self.data(), at + labels_wire(done).len(),
                        seq![len as u8] + bs.subrange(start as int, j as int), seq![bytes[j as int]]);
                    assert(seq![len as u8] + bs.subrange(start as int, j + 1) =~= (seq![len as u8]
                        + bs.subrange(start as int, j as int)).push(bs[j as int]));
                }
                j = j + 1;
            }
            proof {
                assert(done.push(label).drop_last() =~= done);
                assert(labels_wire(done.push(label)) =~= labels_wire(done) + (seq![len as u8] + label));
                if done.len() > 0 {
                    lemma_wrote_then(old_data, before, self.data(), at, labels_wire(done),
                        seq![len as u8] + label);
                } else {
                    assert(labels_wire(done) + (seq![len as u8] + label) =~= seq![len as u8] + label);
                }
                done = done.push(label);
            }
            if end == n {
                break;
            }
            start = end + 1;
            proof {
                lemma_split_dot(bs, end as int);
            }
        }
        let ghost last = self.data();
        match self.write(0) {
            Ok(()) => {},
            Err(e) => {
                return Err(e);
            },
        }
        proof {
            lemma_wrote_byte(last, self.pos - 1, 0);
            lemma_wrote_then(old_data, last, self.data(), at, labels_wire(done), seq![0u8]);
        }
        Ok(())
    }
    /// Read the name at the cursor, following compression pointers, and
    /// append its text to `outstr`. The cursor ends past the first pointer,
    /// or past the closing zero byte where there was none.
    pub fn read_qname(&mut self, outstr: &mut String) -> (r: Result<(), PacketError>)
        ensures
            final(self).same_bytes(old(self)),
            match name_labels(old(self).data(), old(self).pos as int, 0) {
                Ok(ls) => r is Ok && final(outstr)@ == old(outstr)@ + name_text(ls)
                    && final(self).pos == name_end(old(self).data(), old(self).pos as int),
                Err(e) => r == Err::<(), PacketError>(e),
            },
    {
        let ghost data = self.data();
        let ghost start = self.pos as int;
        let ghost out0 = outstr@;
        let ghost mut done: Seq<Seq<u8>> = Seq::empty();
        let mut pos = self.pos();
        let mut jumped = false;
        let mut jumps_performed: usize = 0;
        let mut first = true;
        proof {
            assert(Seq::<Seq<u8>>::empty() + name_labels(data, start, 0)->Ok_0 =~= name_labels(
                data,
                start,
                0,
            )->Ok_0);
        }
        loop
            invariant_except_break
                prepend_labels(done, name_labels(data, pos as int, jumps_performed as nat))
                    == name_labels(data, start, 0),
                !jumped ==> jumps_performed == 0 && self.pos == start && name_end(data, pos as int)
                    == name_end(data, start),
            invariant
                self.data() == data,
                data == old(self).data(),
                start == old(self).pos as int,
                out0 == old(outstr)@,
                data.len() == 512,
                jumps_performed <= MAX_JUMPS + 1,
                outstr@ == out0 + name_text(done),
                first <==> done.len() == 0,
                jumped ==> self.pos == name_end(data, start),
            ensures
                name_labels(data, start, 0) == Ok::<Seq<Seq<u8>>, PacketError>(done),
                !jumped ==> self.pos == start && name_end(data, start) == pos,
            decreases MAX_JUMPS + 1 - jumps_performed, 512 - pos,
        {
            if jumps_performed > MAX_JUMPS {
                return Err(PacketError::TooManyJumps);
            }
            let len = self.get(pos)?;
            if len >= 0xC0 {
                let b2 = self.get(pos + 1)?;
                if !jumped {
                    self.seek(pos + 2);
                }
                let offset = (((len as u16) ^ 0xC0) << 8) | b2 as u16;
                assert((((len as u16) ^ 0xC0) << 8) | b2 as u16 == (len - 0xC0) * 256 + b2) by (bit_vector)
                    requires len >= 0xC0;
                pos = offset as usize;
                jumped = true;
                jumps_performed = jumps_performed + 1;
            } else {
                pos = pos + 1;
                if len == 0 {
                    proof {
                        assert(done + Seq::<Seq<u8>>::empty() =~= done);
                    }
                    break;
                }
                let str_out = self.get_range(pos, len as usize)?;
                let text = utf8_lossy(str_out);
                let low = lowercase(text.as_str());
                append_label(outstr, low.as_str(), first);
                let ghost label = data.subrange(pos as int, pos + len);
                proof {
                    let rest = name_labels(data, pos + len, jumps_performed as nat);
                    if rest is Ok {
                        assert(done + (seq![label] + rest->Ok_0) =~= done.push(label) + rest->Ok_0);
                    }
                    assert(done.push(label).drop_last() =~= done);
                    if done.len() == 0 {
                        assert(out0 + name_text(done) =~= out0);
                    }
                    done = done.push(label);
                }
                first = false;
                pos = pos + len as usize;
            }
        }
        if !jumped {
            self.seek(pos);
        }
        Ok(())
    }
}

} // verus!
