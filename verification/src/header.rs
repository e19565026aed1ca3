use vstd::prelude::*;

use crate::buffer::{BytePacketBuffer, PACKET_SIZE};
use crate::error::DnsError;
use crate::wire::{at16, enc16, lemma_be16_enc16, lemma_splice_concat, splice};

verus! {

/// Response code of a message, the low four bits of the second flags byte.
/// Codes the codec does not know decode to `NoError`, as the protocol's
/// reserved-code handling asks.
#[derive(Copy, Clone, Debug, PartialEq, Eq, Structural)]
pub enum ResCode {
    NoError,
    FormatError,
    ServerFailure,
    NameError,
    NotImplemented,
    Refused,
}

/// The response code denoted by a four-bit value; unknown values degrade to
/// `NoError`.
pub open spec fn rescode_of(num: u8) -> ResCode {
    if num == 1 {
        ResCode::FormatError
    } else if num == 2 {
        ResCode::ServerFailure
    } else if num == 3 {
        ResCode::NameError
    } else if num == 4 {
        ResCode::NotImplemented
    } else if num == 5 {
        ResCode::Refused
    } else {
        ResCode::NoError
    }
}

/// The wire value of a response code.
pub open spec fn rescode_num(rc: ResCode) -> u8 {
    match rc {
        ResCode::NoError => 0,
        ResCode::FormatError => 1,
        ResCode::ServerFailure => 2,
        ResCode::NameError => 3,
        ResCode::NotImplemented => 4,
        ResCode::Refused => 5,
    }
}

impl ResCode {
    pub fn from_num(num: u8) -> (r: ResCode)
        ensures
            r == rescode_of(num),
    {
        match num {
            1 => ResCode::FormatError,
            2 => ResCode::ServerFailure,
            3 => ResCode::NameError,
            4 => ResCode::NotImplemented,
            5 => ResCode::Refused,
            _ => ResCode::NoError,
        }
    }

    pub fn to_num(&self) -> (r: u8)
        ensures
            r == rescode_num(*self),
    {
        match *self {
            ResCode::NoError => 0,
            ResCode::FormatError => 1,
            ResCode::ServerFailure => 2,
            ResCode::NameError => 3,
            ResCode::NotImplemented => 4,
            ResCode::Refused => 5,
        }
    }
}

/// The fixed 12-byte message header: the id, nine one-bit flags, the opcode,
/// the response code, and the four section counts.
#[derive(Clone, Debug, PartialEq, Eq, Structural)]
pub struct Header {
    /// Identifier copied from query to reply so the requester can match them.
    pub id: u16,
    /// Query (false) or response (true).
    pub response: bool,
    /// Kind of query; four bits, preserved verbatim, not validated.
    pub opcode: u8,
    /// The responding server is an authority for the name in question.
    pub authoritative_answer: bool,
    /// The message was truncated.
    pub truncated_message: bool,
    /// The requester asks the server to pursue the query recursively.
    pub recursion_desired: bool,
    /// The server offers recursive queries.
    pub recursion_available: bool,
    /// Reserved.
    pub z: bool,
    pub checking_disabled: bool,
    pub authed_data: bool,
    pub rescode: ResCode,
    pub questions: u16,
    pub answers: u16,
    pub authoritative_entries: u16,
    pub resource_entries: u16,
}

/// First flags byte: RD | TC<<1 | AA<<2 | Opcode<<3 | QR<<7.
pub open spec fn flags_a(h: Header) -> u8 {
    (if h.recursion_desired {
        1u8
    } else {
        0u8
    }) | ((if h.truncated_message {
        1u8
    } else {
        0u8
    }) << 1) | ((if h.authoritative_answer {
        1u8
    } else {
        0u8
    }) << 2) | (h.opcode << 3) | ((if h.response {
        1u8
    } else {
        0u8
    }) << 7)
}

/// Second flags byte: RCODE | CD<<4 | AD<<5 | Z<<6 | RA<<7.
pub open spec fn flags_b(h: Header) -> u8 {
    rescode_num(h.rescode) | ((if h.checking_disabled {
        1u8
    } else {
        0u8
    }) << 4) | ((if h.authed_data {
        1u8
    } else {
        0u8
    }) << 5) | ((if h.z {
        1u8
    } else {
        0u8
    }) << 6) | ((if h.recursion_available {
        1u8
    } else {
        0u8
    }) << 7)
}

/// The 12 wire bytes of a header.
pub open spec fn encode_header(h: Header) -> Seq<u8> {
    enc16(h.id) + seq![flags_a(h), flags_b(h)] + enc16(h.questions) + enc16(h.answers) + enc16(
        h.authoritative_entries,
    ) + enc16(h.resource_entries)
}

/// The header stored at offset `pos`, or nothing when fewer than 12 bytes
/// remain.
pub open spec fn parse_header(b: Seq<u8>, pos: int) -> Option<Header> {
    if 0 <= pos && pos + 12 <= b.len() {
        let a = b[pos + 2];
        let fb = b[pos + 3];
        Some(
            Header {
                id: at16(b, pos),
                recursion_desired: (a & 1) > 0,
                truncated_message: (a & 2) > 0,
                authoritative_answer: (a & 4) > 0,
                opcode: (a >> 3) & 0x0F,
                response: (a & 0x80) > 0,
                rescode: rescode_of(fb & 0x0F),
                checking_disabled: (fb & 0x10) > 0,
                authed_data: (fb & 0x20) > 0,
                z: (fb & 0x40) > 0,
                recursion_available: (fb & 0x80) > 0,
                questions: at16(b, pos + 4),
                answers: at16(b, pos + 6),
                authoritative_entries: at16(b, pos + 8),
                resource_entries: at16(b, pos + 10),
            },
        )
    } else {
        None
    }
}

/// The header codec's round trip: the twelve bytes a header writes decode
/// to the same header, wherever they sit in a message, provided the opcode
/// fits its four-bit field.
pub proof fn lemma_header_round_trip(b: Seq<u8>, pos: int, h: Header)
    requires
        h.opcode < 16,
        0 <= pos,
        pos + 12 <= b.len(),
        b.subrange(pos, pos + 12) == encode_header(h),
    ensures
        parse_header(b, pos) == Some(h),
{
    let enc = encode_header(h);
    assert forall|i: int| 0 <= i < 12 implies b[pos + i] == enc[i] by {
        assert(b.subrange(pos, pos + 12)[i] == b[pos + i]);
    }
    let a = flags_a(h);
    let fb = flags_b(h);
    assert(enc[2] == a && enc[3] == fb);
    assert(b[pos + 2] == a && b[pos + 3] == fb);
    let rd: u8 = if h.recursion_desired {
        1
    } else {
        0
    };
    let tc: u8 = if h.truncated_message {
        1
    } else {
        0
    };
    let aa: u8 = if h.authoritative_answer {
        1
    } else {
        0
    };
    let qr: u8 = if h.response {
        1
    } else {
        0
    };
    let op: u8 = h.opcode;
    assert(((a & 1) > 0 <==> rd == 1) && ((a & 2) > 0 <==> tc == 1) && ((a & 4) > 0 <==> aa == 1)
        && ((a >> 3) & 0x0F) == op && ((a & 0x80) > 0 <==> qr == 1)) by (bit_vector)
        requires
            a == rd | (tc << 1) | (aa << 2) | (op << 3) | (qr << 7),
            rd <= 1,
            tc <= 1,
            aa <= 1,
            qr <= 1,
            op < 16,
    ;
    let rc: u8 = rescode_num(h.rescode);
    let cd: u8 = if h.checking_disabled {
        1
    } else {
        0
    };
    let ad: u8 = if h.authed_data {
        1
    } else {
        0
    };
    let zz: u8 = if h.z {
        1
    } else {
        0
    };
    let ra: u8 = if h.recursion_available {
        1
    } else {
        0
    };
    assert((fb & 0x0F) == rc && ((fb & 0x10) > 0 <==> cd == 1) && ((fb & 0x20) > 0 <==> ad == 1)
        && ((fb & 0x40) > 0 <==> zz == 1) && ((fb & 0x80) > 0 <==> ra == 1)) by (bit_vector)
        requires
            fb == rc | (cd << 4) | (ad << 5) | (zz << 6) | (ra << 7),
            rc <= 5,
            cd <= 1,
            ad <= 1,
            zz <= 1,
            ra <= 1,
    ;
    assert(rescode_of(rc) == h.rescode);
    lemma_be16_enc16(h.id);
    lemma_be16_enc16(h.questions);
    lemma_be16_enc16(h.answers);
    lemma_be16_enc16(h.authoritative_entries);
    lemma_be16_enc16(h.resource_entries);
    assert(b[pos + 0] == enc[0] && b[pos + 1] == enc[1]);
    assert(at16(b, pos) == h.id);
    assert(b[pos + 4] == enc[4] && b[pos + (4 + 1)] == enc[5]);
    assert(at16(b, pos + 4) == h.questions);
    assert(b[pos + 6] == enc[6] && b[pos + (6 + 1)] == enc[7]);
    assert(at16(b, pos + 6) == h.answers);
    assert(b[pos + 8] == enc[8] && b[pos + (8 + 1)] == enc[9]);
    assert(at16(b, pos + 8) == h.authoritative_entries);
    assert(b[pos + 10] == enc[10] && b[pos + (10 + 1)] == enc[11]);
    assert(at16(b, pos + 10) == h.resource_entries);
}

/// The header every field of which is zeroed or cleared.
pub open spec fn default_header() -> Header {
    Header {
        id: 0,
        response: false,
        opcode: 0,
        authoritative_answer: false,
        truncated_message: false,
        recursion_desired: false,
        recursion_available: false,
        z: false,
        checking_disabled: false,
        authed_data: false,
        rescode: ResCode::NoError,
        questions: 0,
        answers: 0,
        authoritative_entries: 0,
        resource_entries: 0,
    }
}

impl Header {
    /// A header with every field zeroed or cleared.
    pub fn new() -> (r: Header)
        ensures
            r == default_header(),
    {
        Header {
            id: 0,
            recursion_desired: false,
            truncated_message: false,
            authoritative_answer: false,
            opcode: 0,
            response: false,
            rescode: ResCode::NoError,
            checking_disabled: false,
            authed_data: false,
            z: false,
            recursion_available: false,
            questions: 0,
            answers: 0,
            authoritative_entries: 0,
            resource_entries: 0,
        }
    }

    /// Decode the 12 header bytes at the buffer's position into `self`,
    /// leaving the position just past them.
    #[verifier::rlimit(80)]
    pub fn read(&mut self, buffer: &mut BytePacketBuffer) -> (r: Result<(), DnsError>)
        requires
            old(buffer).wf(),
        ensures
            final(buffer).wf(),
            final(buffer).buf@ == old(buffer).buf@,
            match r {
                Ok(()) => match parse_header(old(buffer).buf@, old(buffer).pos as int) {
                    Some(h) => *final(self) == h && final(buffer).pos == old(buffer).pos + 12,
                    None => false,
                },
                Err(e) => e == DnsError::BufferBounds && parse_header(
                    old(buffer).buf@,
                    old(buffer).pos as int,
                ) is None && final(buffer).pos == old(buffer).pos,
            },
    {
        let p0: usize = buffer.pos;
        self.id = match buffer.read_u16() {
            Ok(v) => v,
            Err(e) => {
                buffer.seek(p0);
                return Err(e);
            },
        };
        let a = match buffer.read_u8() {
            Ok(v) => v,
            Err(e) => {
                buffer.seek(p0);
                return Err(e);
            },
        };
        let b = match buffer.read_u8() {
            Ok(v) => v,
            Err(e) => {
                buffer.seek(p0);
                return Err(e);
            },
        };
        self.recursion_desired = (a & 1) > 0;
        self.truncated_message = (a & 2) > 0;
        self.authoritative_answer = (a & 4) > 0;
        self.opcode = (a >> 3) & 0x0F;
        self.response = (a & 0x80) > 0;
        self.rescode = ResCode::from_num(b & 0x0F);
        self.checking_disabled = (b & 0x10) > 0;
        self.authed_data = (b & 0x20) > 0;
        self.z = (b & 0x40) > 0;
        self.recursion_available = (b & 0x80) > 0;
        self.questions = match buffer.read_u16() {
            Ok(v) => v,
            Err(e) => {
                buffer.seek(p0);
                return Err(e);
            },
        };
        self.answers = match buffer.read_u16() {
            Ok(v) => v,
            Err(e) => {
                buffer.seek(p0);
                return Err(e);
            },
        };
        self.authoritative_entries = match buffer.read_u16() {
            Ok(v) => v,
            Err(e) => {
                buffer.seek(p0);
                return Err(e);
            },
        };
        self.resource_entries = match buffer.read_u16() {
            Ok(v) => v,
            Err(e) => {
                buffer.seek(p0);
                return Err(e);
            },
        };
        Ok(())
    }

    /// The first flags byte of this header.
    fn flag_byte_a(&self) -> (r: u8)
        ensures
            r == flags_a(*self),
    {
        (if self.recursion_desired {
            1u8
        } else {
            0u8
        }) | ((if self.truncated_message {
            1u8
        } else {
            0u8
        }) << 1) | ((if self.authoritative_answer {
            1u8
        } else {
            0u8
        }) << 2) | (self.opcode << 3) | ((if self.response {
            1u8
        } else {
            0u8
        }) << 7)
    }

    /// The second flags byte of this header.
    fn flag_byte_b(&self) -> (r: u8)
        ensures
            r == flags_b(*self),
    {
        self.rescode.to_num() | ((if self.checking_disabled {
            1u8
        } else {
            0u8
        }) << 4) | ((if self.authed_data {
            1u8
        } else {
            0u8
        }) << 5) | ((if self.z {
            1u8
        } else {
            0u8
        }) << 6) | ((if self.recursion_available {
            1u8
        } else {
            0u8
        }) << 7)
    }

    /// Encode the header as its 12 wire bytes at the buffer's position. The
    /// count fields are written as stored; recomputing them from the actual
    /// sequences is the packet writer's duty.
    #[verifier::rlimit(100)]
    pub fn write(&self, buffer: &mut BytePacketBuffer) -> (r: Result<(), DnsError>)
        requires
            old(buffer).wf(),
        ensures
            final(buffer).wf(),
            final(buffer).pos >= old(buffer).pos,
            forall|i: int|
                0 <= i < PACKET_SIZE && !(old(buffer).pos <= i < final(buffer).pos)
                    ==> final(buffer).buf@[i] == old(buffer).buf@[i],
            match r {
                Ok(()) => old(buffer).pos + 12 <= PACKET_SIZE && final(buffer).buf@ == splice(
                    old(buffer).buf@,
                    old(buffer).pos as int,
                    encode_header(*self),
                ) && final(buffer).pos == old(buffer).pos + 12,
                Err(e) => e == DnsError::BufferBounds && old(buffer).pos + 12 > PACKET_SIZE,
            },
    {
        let ghost buf0 = buffer.buf@;
        let ghost pos0 = buffer.pos as int;
        let ghost mut w: Seq<u8> = Seq::empty();
        proof {
            assert(buffer.buf@ =~= splice(buf0, pos0, w));
        }
        let a: u8 = self.flag_byte_a();
        let b: u8 = self.flag_byte_b();
        match buffer.write_u16(self.id) {
            Ok(()) => {},
            Err(e) => {
                return Err(e);
            },
        }
        proof {
            lemma_splice_concat(buf0, pos0, w, enc16(self.id));
            w = w + enc16(self.id);
            assert(buffer.buf@ == splice(buf0, pos0, w));
        }
        match buffer.write_u8(a) {
            Ok(()) => {},
            Err(e) => {
                return Err(e);
            },
        }
        proof {
            lemma_splice_concat(buf0, pos0, w, seq![a]);
            w = w + seq![a];
            assert(buffer.buf@ == splice(buf0, pos0, w));
        }
        match buffer.write_u8(b) {
            Ok(()) => {},
            Err(e) => {
                return Err(e);
            },
        }
        proof {
            lemma_splice_concat(buf0, pos0, w, seq![b]);
            w = w + seq![b];
            assert(buffer.buf@ == splice(buf0, pos0, w));
        }
        match buffer.write_u16(self.questions) {
            Ok(()) => {},
            Err(e) => {
                return Err(e);
            },
        }
        proof {
            lemma_splice_concat(buf0, pos0, w, enc16(self.questions));
            w = w + enc16(self.questions);
            assert(buffer.buf@ == splice(buf0, pos0, w));
        }
        match buffer.write_u16(self.answers) {
            Ok(()) => {},
            Err(e) => {
                return Err(e);
            },
        }
        proof {
            lemma_splice_concat(buf0, pos0, w, enc16(self.answers));
            w = w + enc16(self.answers);
            assert(buffer.buf@ == splice(buf0, pos0, w));
        }
        match buffer.write_u16(self.authoritative_entries) {
            Ok(()) => {},
            Err(e) => {
                return Err(e);
            },
        }
        proof {
            lemma_splice_concat(buf0, pos0, w, enc16(self.authoritative_entries));
            w = w + enc16(self.authoritative_entries);
            assert(buffer.buf@ == splice(buf0, pos0, w));
        }
        match buffer.write_u16(self.resource_entries) {
            Ok(()) => {},
            Err(e) => {
                return Err(e);
            },
        }
        proof {
            lemma_splice_concat(buf0, pos0, w, enc16(self.resource_entries));
            w = w + enc16(self.resource_entries);
            assert(w =~= encode_header(*self));
        }
        Ok(())
    }
}

} // verus!
