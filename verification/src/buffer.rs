use vstd::prelude::*;

use crate::error::DnsError;
use crate::wire::{
    at16, at32, chars_of, dotless, enc16, enc32, encode_labels, encode_name, labels_ok,
    lemma_labels_ok_cons, lemma_name_join_assoc, lemma_split_dot, lemma_split_single,
    lemma_splice_concat, lemma_splice_frame, name_join, name_ok, name_seal, parse_name,
    pos_measure, splice, split_labels, Parsed, MAX_JUMPS,
};
use vstd::string::StringSliceAdditionalSpecFns;

verus! {

/// The size of a classic UDP DNS message buffer in bytes.
pub const PACKET_SIZE: usize = 512;

/// Relies on `String::push` from std: appends exactly the given character.
#[verifier::external_body]
fn push_char(s: &mut String, c: char)
    ensures
        final(s)@ == old(s)@.push(c),
{
    s.push(c);
}

/// A fixed-capacity byte buffer with a single read/write position, the
/// medium every packet is decoded from and encoded into.
pub struct BytePacketBuffer {
    pub buf: Vec<u8>,
    pub pos: usize,
}

impl BytePacketBuffer {
    /// The buffer always spans exactly one maximum-size UDP message.
    pub open spec fn wf(&self) -> bool {
        self.buf@.len() == PACKET_SIZE
    }

    /// A zeroed buffer with the position at the start.
    pub fn new() -> (r: BytePacketBuffer)
        ensures
            r.wf(),
            r.pos == 0,
            forall|i: int| 0 <= i < PACKET_SIZE ==> r.buf@[i] == 0u8,
    {
        BytePacketBuffer { buf: vec![0u8; PACKET_SIZE], pos: 0 }
    }

    /// Move the position to an absolute offset.
    pub fn seek(&mut self, pos: usize)
        ensures
            final(self).buf@ == old(self).buf@,
            final(self).pos == pos,
    {
        self.pos = pos;
    }

    /// Advance the position without reading.
    pub fn step(&mut self, steps: usize) -> (r: Result<(), DnsError>)
        requires
            old(self).pos + steps <= usize::MAX,
        ensures
            final(self).buf@ == old(self).buf@,
            final(self).pos == old(self).pos + steps,
            r == Ok::<(), DnsError>(()),
    {
        self.pos = self.pos + steps;
        Ok(())
    }

    /// Read the byte at an absolute offset without moving the position.
    pub fn get(&self, pos: usize) -> (r: Result<u8, DnsError>)
        requires
            self.wf(),
        ensures
            match r {
                Ok(v) => pos < PACKET_SIZE && v == self.buf@[pos as int],
                Err(e) => e == DnsError::BufferBounds && pos >= PACKET_SIZE,
            },
    {
        if pos >= PACKET_SIZE {
            return Err(DnsError::BufferBounds);
        }
        Ok(self.buf[pos])
    }

    /// Overwrite the byte at an absolute offset without moving the position.
    pub fn set(&mut self, pos: usize, val: u8) -> (r: Result<(), DnsError>)
        requires
            old(self).wf(),
        ensures
            final(self).wf(),
            final(self).pos == old(self).pos,
            match r {
                Ok(()) => pos < PACKET_SIZE && final(self).buf@ == old(self).buf@.update(
                    pos as int,
                    val,
                ),
                Err(e) => e == DnsError::BufferBounds && pos >= PACKET_SIZE && final(self).buf@ == old(
                    self,
                ).buf@,
            },
    {
        if pos >= PACKET_SIZE {
            return Err(DnsError::BufferBounds);
        }
        self.buf[pos] = val;
        Ok(())
    }

    /// Overwrite two bytes at an absolute offset with a big-endian 16-bit
    /// value, without moving the position; used to patch a record's length
    /// field once its payload size is known.
    pub fn set_u16(&mut self, pos: usize, val: u16) -> (r: Result<(), DnsError>)
        requires
            old(self).wf(),
        ensures
            final(self).wf(),
            final(self).pos == old(self).pos,
            match r {
                Ok(()) => pos + 2 <= PACKET_SIZE && final(self).buf@ == splice(
                    old(self).buf@,
                    pos as int,
                    enc16(val),
                ),
                Err(e) => e == DnsError::BufferBounds && pos + 2 > PACKET_SIZE && final(self).buf@ == old(
                    self,
                ).buf@,
            },
    {
        if pos >= PACKET_SIZE || pos + 2 > PACKET_SIZE {
            return Err(DnsError::BufferBounds);
        }
        self.buf[pos] = (val / 256) as u8;
        self.buf[pos + 1] = (val % 256) as u8;
        proof {
            assert(self.buf@ =~= splice(old(self).buf@, pos as int, enc16(val)));
        }
        Ok(())
    }

    /// Read the byte at the position and advance past it.
    pub fn read_u8(&mut self) -> (r: Result<u8, DnsError>)
        requires
            old(self).wf(),
        ensures
            final(self).wf(),
            final(self).buf@ == old(self).buf@,
            match r {
                Ok(v) => old(self).pos < PACKET_SIZE && v == final(self).buf@[old(self).pos as int]
                    && final(self).pos == old(self).pos + 1,
                Err(e) => e == DnsError::BufferBounds && old(self).pos >= PACKET_SIZE && final(self).pos
                    == old(self).pos,
            },
    {
        if self.pos >= PACKET_SIZE {
            return Err(DnsError::BufferBounds);
        }
        let v = self.buf[self.pos];
        self.pos = self.pos + 1;
        Ok(v)
    }

    /// Read two bytes at the position as a big-endian 16-bit value.
    pub fn read_u16(&mut self) -> (r: Result<u16, DnsError>)
        requires
            old(self).wf(),
        ensures
            final(self).wf(),
            final(self).buf@ == old(self).buf@,
            match r {
                Ok(v) => old(self).pos + 2 <= PACKET_SIZE && v == at16(
                    final(self).buf@,
                    old(self).pos as int,
                ) && final(self).pos == old(self).pos + 2,
                Err(e) => e == DnsError::BufferBounds && old(self).pos + 2 > PACKET_SIZE && final(self).pos
                    == old(self).pos,
            },
    {
        if self.pos >= PACKET_SIZE || self.pos + 2 > PACKET_SIZE {
            return Err(DnsError::BufferBounds);
        }
        let hi = self.buf[self.pos];
        let lo = self.buf[self.pos + 1];
        self.pos = self.pos + 2;
        Ok((hi as u16) * 256 + (lo as u16))
    }

    /// Read four bytes at the position as a big-endian 32-bit value.
    pub fn read_u32(&mut self) -> (r: Result<u32, DnsError>)
        requires
            old(self).wf(),
        ensures
            final(self).wf(),
            final(self).buf@ == old(self).buf@,
            match r {
                Ok(v) => old(self).pos + 4 <= PACKET_SIZE && v == at32(
                    final(self).buf@,
                    old(self).pos as int,
                ) && final(self).pos == old(self).pos + 4,
                Err(e) => e == DnsError::BufferBounds && old(self).pos + 4 > PACKET_SIZE && final(self).pos
                    == old(self).pos,
            },
    {
        if self.pos >= PACKET_SIZE || self.pos + 4 > PACKET_SIZE {
            return Err(DnsError::BufferBounds);
        }
        let b0 = self.buf[self.pos];
        let b1 = self.buf[self.pos + 1];
        let b2 = self.buf[self.pos + 2];
        let b3 = self.buf[self.pos + 3];
        self.pos = self.pos + 4;
        Ok((b0 as u32) * 0x1000000 + (b1 as u32) * 0x10000 + (b2 as u32) * 0x100 + (b3 as u32))
    }

    /// Write one byte at the position and advance past it.
    pub fn write_u8(&mut self, val: u8) -> (r: Result<(), DnsError>)
        requires
            old(self).wf(),
        ensures
            final(self).wf(),
            match r {
                Ok(()) => old(self).pos < PACKET_SIZE && final(self).pos == old(self).pos + 1
                    && final(self).buf@ == splice(old(self).buf@, old(self).pos as int, seq![val]),
                Err(e) => e == DnsError::BufferBounds && old(self).pos >= PACKET_SIZE && *final(self)
                    == *old(self),
            },
    {
        if self.pos >= PACKET_SIZE {
            return Err(DnsError::BufferBounds);
        }
        self.buf[self.pos] = val;
        self.pos = self.pos + 1;
        proof {
            assert(self.buf@ =~= splice(old(self).buf@, old(self).pos as int, seq![val]));
        }
        Ok(())
    }

    /// Write a 16-bit value big-endian at the position and advance past it.
    pub fn write_u16(&mut self, val: u16) -> (r: Result<(), DnsError>)
        requires
            old(self).wf(),
        ensures
            final(self).wf(),
            match r {
                Ok(()) => old(self).pos + 2 <= PACKET_SIZE && final(self).pos == old(self).pos + 2
                    && final(self).buf@ == splice(old(self).buf@, old(self).pos as int, enc16(val)),
                Err(e) => e == DnsError::BufferBounds && old(self).pos + 2 > PACKET_SIZE && *final(self)
                    == *old(self),
            },
    {
        if self.pos >= PACKET_SIZE || self.pos + 2 > PACKET_SIZE {
            return Err(DnsError::BufferBounds);
        }
        self.buf[self.pos] = (val / 256) as u8;
        self.buf[self.pos + 1] = (val % 256) as u8;
        self.pos = self.pos + 2;
        proof {
            assert(self.buf@ =~= splice(old(self).buf@, old(self).pos as int, enc16(val)));
        }
        Ok(())
    }

    /// Write a 32-bit value big-endian at the position and advance past it.
    pub fn write_u32(&mut self, val: u32) -> (r: Result<(), DnsError>)
        requires
            old(self).wf(),
        ensures
            final(self).wf(),
            match r {
                Ok(()) => old(self).pos + 4 <= PACKET_SIZE && final(self).pos == old(self).pos + 4
                    && final(self).buf@ == splice(old(self).buf@, old(self).pos as int, enc32(val)),
                Err(e) => e == DnsError::BufferBounds && old(self).pos + 4 > PACKET_SIZE && *final(self)
                    == *old(self),
            },
    {
        if self.pos >= PACKET_SIZE || self.pos + 4 > PACKET_SIZE {
            return Err(DnsError::BufferBounds);
        }
        self.buf[self.pos] = (val / 0x1000000) as u8;
        self.buf[self.pos + 1] = ((val / 0x10000) % 256) as u8;
        self.buf[self.pos + 2] = ((val / 0x100) % 256) as u8;
        self.buf[self.pos + 3] = (val % 256) as u8;
        self.pos = self.pos + 4;
        proof {
            assert(self.buf@ =~= splice(old(self).buf@, old(self).pos as int, enc32(val)));
        }
        Ok(())
    }

    /// Decode the domain name stored at the position, appending its text to
    /// `outstr` with dots between labels, and leave the position just past
    /// the name: past its terminator, or past the first compression pointer
    /// if one was followed. Pointer chains longer than `MAX_JUMPS` fail.
    pub fn read_qname(&mut self, outstr: &mut String) -> (r: Result<(), DnsError>)
        requires
            old(self).wf(),
        ensures
            final(self).wf(),
            final(self).buf@ == old(self).buf@,
            match r {
                Ok(()) => match parse_name(old(self).buf@, old(self).pos as int, 0) {
                    Parsed::Found { value, next } => final(outstr)@ == old(outstr)@ + chars_of(
                        value,
                    ) && final(self).pos == next,
                    Parsed::Fail(_) => false,
                },
                Err(e) => parse_name(old(self).buf@, old(self).pos as int, 0)
                    == Parsed::<Seq<u8>>::Fail(e) && final(self).pos == old(self).pos,
            },
    {
        let ghost b = self.buf@;
        let ghost start = self.pos as int;
        let ghost out0 = outstr@;
        let start_pos: usize = self.pos;
        let mut pos: usize = self.pos;
        let mut jumped: bool = false;
        let mut jumps: u32 = 0;
        let mut any: bool = false;
        let ghost mut acc: Seq<u8> = Seq::empty();
        proof {
            assert(out0 + chars_of(acc) =~= out0);
        }
        loop
            invariant
                self.wf(),
                b == old(self).buf@,
                start == old(self).pos as int,
                start_pos == old(self).pos,
                out0 == old(outstr)@,
                self.buf@ == b,
                jumps <= MAX_JUMPS + 1,
                jumped <==> jumps > 0,
                !jumped ==> self.pos == start,
                any <==> acc.len() > 0,
                outstr@ == out0 + chars_of(acc),
                name_seal(acc, parse_name(b, pos as int, jumps as int), jumped, self.pos as int)
                    == parse_name(b, start, 0),
            decreases 6 - jumps as int, pos_measure(pos as int),
        {
            if jumps > MAX_JUMPS {
                self.seek(start_pos);
                return Err(DnsError::MaxJumpsExceeded);
            }
            let len = match self.get(pos) {
                Ok(v) => v,
                Err(e) => {
                    self.seek(start_pos);
                    return Err(e);
                },
            };
            if (len & 0xC0) == 0xC0 {
                if !jumped {
                    self.seek(pos + 2);
                }
                let b2 = match self.get(pos + 1) {
                    Ok(v) => v,
                    Err(e) => {
                        self.seek(start_pos);
                        return Err(e);
                    },
                };
                proof {
                    assert(len >= 0xC0 && (len & 0x3F) == len % 64) by (bit_vector)
                        requires
                            (len & 0xC0) == 0xC0,
                    ;
                    assert((len & 0x3F) as int == len as int - 0xC0);
                }
                let target: usize = (len as usize - 0xC0) * 256 + (b2 as usize);
                pos = target;
                jumped = true;
                jumps = jumps + 1;
            } else {
                let ghost lenpos = pos as int;
                pos = pos + 1;
                if len == 0 {
                    if !jumped {
                        self.seek(pos);
                    }
                    return Ok(());
                }
                if pos + len as usize > PACKET_SIZE {
                    self.seek(start_pos);
                    return Err(DnsError::BufferBounds);
                }
                if any {
                    push_char(outstr, '.');
                }
                let ghost label = b.subrange(pos as int, pos as int + len as int);
                let ghost sep: Seq<char> = if any {
                    seq!['.']
                } else {
                    Seq::empty()
                };
                proof {
                    assert(outstr@ =~= out0 + chars_of(acc) + sep + chars_of(label.take(0)));
                }
                let mut k: usize = 0;
                while k < len as usize
                    invariant
                        self.wf(),
                        b == old(self).buf@,
                        out0 == old(outstr)@,
                        self.buf@ == b,
                        k <= len as usize,
                        pos + len as usize <= PACKET_SIZE,
                        label == b.subrange(pos as int, pos as int + len as int),
                        outstr@ == out0 + chars_of(acc) + sep + chars_of(label.take(k as int)),
                    decreases len as int - k as int,
                {
                    let byte = self.buf[pos + k];
                    push_char(outstr, byte as char);
                    proof {
                        assert(outstr@ =~= out0 + chars_of(acc) + sep + chars_of(
                            label.take(k as int + 1),
                        ));
                    }
                    k = k + 1;
                }
                proof {
                    assert(label.take(len as int) =~= label);
                    assert(outstr@ =~= out0 + chars_of(name_join(acc, label)));
                    match parse_name(b, pos as int + len as int, jumps as int) {
                        Parsed::Found { value, next } => {
                            lemma_name_join_assoc(acc, label, value);
                        },
                        Parsed::Fail(_) => {},
                    }
                    acc = name_join(acc, label);
                }
                any = true;
                pos = pos + len as usize;
            }
        }
    }

    /// Encode a domain name at the position as dot-split, length-prefixed
    /// labels closed by a zero-length label; no compression pointers are
    /// emitted, so the size is determined by the label lengths alone. Fails
    /// with `LabelTooLong` on a label over 63 bytes and with `BufferBounds`
    /// when the encoding does not fit.
    pub fn write_qname(&mut self, qname: &str) -> (r: Result<(), DnsError>)
        requires
            old(self).wf(),
        ensures
            final(self).wf(),
            final(self).pos >= old(self).pos,
            forall|i: int|
                0 <= i < PACKET_SIZE && !(old(self).pos <= i < final(self).pos)
                    ==> final(self).buf@[i] == old(self).buf@[i],
            match r {
                Ok(()) => name_ok(qname.spec_bytes()) && old(self).pos + encode_name(
                    qname.spec_bytes(),
                ).len() <= PACKET_SIZE && final(self).buf@ == splice(
                    old(self).buf@,
                    old(self).pos as int,
                    encode_name(qname.spec_bytes()),
                ) && final(self).pos == old(self).pos + encode_name(qname.spec_bytes()).len(),
                Err(e) => {
                    &&& !(name_ok(qname.spec_bytes()) && old(self).pos + encode_name(
                        qname.spec_bytes(),
                    ).len() <= PACKET_SIZE)
                    &&& (e == DnsError::LabelTooLong || e == DnsError::BufferBounds)
                    &&& (e == DnsError::LabelTooLong ==> !name_ok(qname.spec_bytes()))
                    &&& (e == DnsError::BufferBounds ==> old(self).pos + encode_name(
                        qname.spec_bytes(),
                    ).len() > PACKET_SIZE)
                },
            },
    {
        let bytes: &[u8] = qname.as_bytes();
        let n: usize = bytes.len();
        let ghost nm = qname.spec_bytes();
        let ghost enc = encode_name(nm);
        let ghost buf0 = self.buf@;
        let ghost pos0 = self.pos as int;
        let ghost mut written: Seq<u8> = Seq::empty();
        let mut start: usize = 0;
        proof {
            assert(self.buf@ =~= splice(buf0, pos0, written));
            assert(nm.skip(0) =~= nm);
        }
        loop
            invariant
                self.wf(),
                buf0 == old(self).buf@,
                pos0 == old(self).pos as int,
                nm == qname.spec_bytes(),
                enc == encode_name(nm),
                bytes@ == nm,
                n == nm.len(),
                start <= n,
                self.buf@ == splice(buf0, pos0, written),
                self.pos == pos0 + written.len(),
                enc == written + encode_labels(split_labels(nm.skip(start as int))) + seq![0u8],
                name_ok(nm) <==> labels_ok(split_labels(nm.skip(start as int))),
            decreases n - start,
        {
            let ghost suffix = nm.skip(start as int);
            let mut end: usize = start;
            while end < n && bytes[end] != 46
                invariant
                    bytes@ == nm,
                    n == nm.len(),
                    start <= end <= n,
                    dotless(nm.subrange(start as int, end as int)),
                decreases n - end,
            {
                proof {
                    assert(nm.subrange(start as int, end as int + 1) =~= nm.subrange(
                        start as int,
                        end as int,
                    ) + seq![nm[end as int]]);
                }
                end = end + 1;
            }
            let len = end - start;
            let ghost label = nm.subrange(start as int, end as int);
            proof {
                assert(label =~= suffix.take(end - start));
                if end == n {
                    assert(label =~= suffix);
                    lemma_split_single(suffix);
                } else {
                    assert(suffix[end - start] == 46);
                    lemma_split_dot(suffix, end - start);
                    assert(suffix.skip(end - start + 1) =~= nm.skip(end as int + 1));
                }
                lemma_labels_ok_cons(label, split_labels(nm.skip(end as int + 1)));
            }
            if len > 63 {
                proof {
                    assert(split_labels(suffix)[0] == label);
                    lemma_splice_frame(buf0, pos0, written);
                }
                return Err(DnsError::LabelTooLong);
            }
            let ghost tail_rest: Seq<u8> = if end == n {
                seq![0u8]
            } else {
                encode_labels(split_labels(nm.skip(end as int + 1))) + seq![0u8]
            };
            proof {
                assert(encode_labels(split_labels(suffix)) == seq![label.len() as u8] + label
                    + encode_labels(split_labels(suffix).skip(1)));
                if end == n {
                    assert(split_labels(suffix).skip(1) =~= Seq::<Seq<u8>>::empty());
                    assert(encode_labels(Seq::<Seq<u8>>::empty()) =~= Seq::<u8>::empty());
                    assert(enc =~= written + seq![label.len() as u8] + label + tail_rest);
                } else {
                    assert(split_labels(suffix).skip(1) =~= split_labels(nm.skip(end as int + 1)));
                    assert(enc =~= written + seq![label.len() as u8] + label + tail_rest);
                }
            }
            match self.write_u8(len as u8) {
                Ok(()) => {},
                Err(e) => {
                    proof {
                        lemma_splice_frame(buf0, pos0, written);
                    }
                    return Err(e);
                },
            }
            proof {
                lemma_splice_concat(buf0, pos0, written, seq![len as u8]);
                written = written + seq![len as u8];
            }
            let mut k: usize = start;
            while k < end
                invariant
                    self.wf(),
                    buf0 == old(self).buf@,
                    pos0 == old(self).pos as int,
                    nm == qname.spec_bytes(),
                    enc == encode_name(nm),
                    bytes@ == nm,
                    n == nm.len(),
                    start <= k <= end <= n,
                    label == nm.subrange(start as int, end as int),
                    self.buf@ == splice(buf0, pos0, written + label.take(k - start)),
                    self.pos == pos0 + written.len() + (k - start),
                    enc == written + label + tail_rest,
                decreases end - k,
            {
                match self.write_u8(bytes[k]) {
                    Ok(()) => {},
                    Err(e) => {
                        proof {
                            assert(enc.len() > written.len() + (k - start));
                            lemma_splice_frame(buf0, pos0, written + label.take(k - start));
                        }
                        return Err(e);
                    },
                }
                proof {
                    lemma_splice_concat(buf0, pos0, written + label.take(k - start), seq![nm[k as int]]);
                    assert(written + label.take(k - start) + seq![nm[k as int]] =~= written
                        + label.take(k + 1 - start));
                }
                k = k + 1;
            }
            proof {
                assert(label.take(end - start) =~= label);
                written = written + label;
            }
            if end == n {
                match self.write_u8(0) {
                    Ok(()) => {},
                    Err(e) => {
                        proof {
                            lemma_splice_frame(buf0, pos0, written);
                        }
                        return Err(e);
                    },
                }
                proof {
                    lemma_splice_concat(buf0, pos0, written, seq![0u8]);
                    assert(written + seq![0u8] =~= enc);
                    lemma_splice_frame(buf0, pos0, enc);
                    assert forall|i: int|
                        0 <= i < split_labels(suffix).len() implies #[trigger] split_labels(
                        suffix,
                    )[i].len() <= 63 by {
                        assert(split_labels(suffix) == seq![label]);
                        assert(split_labels(suffix)[i] == label);
                    }
                }
                return Ok(());
            }
            start = end + 1;
            proof {
                assert(enc == written + encode_labels(split_labels(nm.skip(start as int)))
                    + seq![0u8]);
            }
        }
    }
}

} // verus!
