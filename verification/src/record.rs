use vstd::prelude::*;

use crate::buffer::{BytePacketBuffer, PACKET_SIZE};
use crate::error::DnsError;
use crate::query::{query_of, Query};
use crate::wire::{
    at16, at32, chars_of, enc16, enc32, encode_name, lemma_encode_name_len, lemma_splice_concat,
    name_ok, parse_name, splice, str_bytes, Parsed,
};
use vstd::string::StringSliceAdditionalSpecFns;

verus! {

/// An IPv4 address as its four octets in network order.
#[derive(Copy, Clone, Debug, PartialEq, Eq, Structural)]
pub struct Ipv4(pub u8, pub u8, pub u8, pub u8);

/// An IPv6 address as its eight 16-bit groups in network order.
#[derive(Copy, Clone, Debug, PartialEq, Eq, Structural)]
pub struct Ipv6(pub u16, pub u16, pub u16, pub u16, pub u16, pub u16, pub u16, pub u16);

/// One resource record, dispatched by type code. Every variant carries the
/// owning domain and the time to live; a record with an unrecognized type
/// keeps its raw type code and payload length, the payload itself being
/// skipped rather than retained.
#[derive(Debug, Clone, PartialEq, Eq)]
pub enum Record {
    Unknown { domain: String, qtype: u16, data_len: u16, ttl: u32 },
    A { domain: String, addr: Ipv4, ttl: u32 },
    NS { domain: String, host: String, ttl: u32 },
    CNAME { domain: String, host: String, ttl: u32 },
    MX { domain: String, priority: u16, host: String, ttl: u32 },
    AAAA { domain: String, addr: Ipv6, ttl: u32 },
}

/// What one record denotes, with names as their wire bytes.
pub enum RecordModel {
    Unknown { domain: Seq<u8>, qtype: u16, data_len: u16, ttl: u32 },
    A { domain: Seq<u8>, addr: Ipv4, ttl: u32 },
    NS { domain: Seq<u8>, host: Seq<u8>, ttl: u32 },
    CNAME { domain: Seq<u8>, host: Seq<u8>, ttl: u32 },
    MX { domain: Seq<u8>, priority: u16, host: Seq<u8>, ttl: u32 },
    AAAA { domain: Seq<u8>, addr: Ipv6, ttl: u32 },
}

/// The model a record writes as: its strings taken as their wire bytes.
pub open spec fn record_model(r: Record) -> RecordModel {
    match r {
        Record::Unknown { domain, qtype, data_len, ttl } => RecordModel::Unknown {
            domain: str_bytes(domain@),
            qtype,
            data_len,
            ttl,
        },
        Record::A { domain, addr, ttl } => RecordModel::A {
            domain: str_bytes(domain@),
            addr,
            ttl,
        },
        Record::NS { domain, host, ttl } => RecordModel::NS {
            domain: str_bytes(domain@),
            host: str_bytes(host@),
            ttl,
        },
        Record::CNAME { domain, host, ttl } => RecordModel::CNAME {
            domain: str_bytes(domain@),
            host: str_bytes(host@),
            ttl,
        },
        Record::MX { domain, priority, host, ttl } => RecordModel::MX {
            domain: str_bytes(domain@),
            priority,
            host: str_bytes(host@),
            ttl,
        },
        Record::AAAA { domain, addr, ttl } => RecordModel::AAAA {
            domain: str_bytes(domain@),
            addr,
            ttl,
        },
    }
}

/// A decoded record presents a parsed model: same fields, its name strings
/// holding the parsed bytes as text.
pub open spec fn record_fits(r: Record, m: RecordModel) -> bool {
    match (r, m) {
        (
            Record::Unknown { domain, qtype, data_len, ttl },
            RecordModel::Unknown { domain: md, qtype: mq, data_len: ml, ttl: mt },
        ) => domain@ == chars_of(md) && qtype == mq && data_len == ml && ttl == mt,
        (
            Record::A { domain, addr, ttl },
            RecordModel::A { domain: md, addr: ma, ttl: mt },
        ) => domain@ == chars_of(md) && addr == ma && ttl == mt,
        (
            Record::NS { domain, host, ttl },
            RecordModel::NS { domain: md, host: mh, ttl: mt },
        ) => domain@ == chars_of(md) && host@ == chars_of(mh) && ttl == mt,
        (
            Record::CNAME { domain, host, ttl },
            RecordModel::CNAME { domain: md, host: mh, ttl: mt },
        ) => domain@ == chars_of(md) && host@ == chars_of(mh) && ttl == mt,
        (
            Record::MX { domain, priority, host, ttl },
            RecordModel::MX { domain: md, priority: mp, host: mh, ttl: mt },
        ) => domain@ == chars_of(md) && priority == mp && host@ == chars_of(mh) && ttl == mt,
        (
            Record::AAAA { domain, addr, ttl },
            RecordModel::AAAA { domain: md, addr: ma, ttl: mt },
        ) => domain@ == chars_of(md) && addr == ma && ttl == mt,
        _ => false,
    }
}

/// Every name a record would write is encodable.
pub open spec fn record_names_ok(m: RecordModel) -> bool {
    match m {
        RecordModel::Unknown { .. } => true,
        RecordModel::A { domain, .. } => name_ok(domain),
        RecordModel::NS { domain, host, .. } => name_ok(domain) && name_ok(host),
        RecordModel::CNAME { domain, host, .. } => name_ok(domain) && name_ok(host),
        RecordModel::MX { domain, host, .. } => name_ok(domain) && name_ok(host),
        RecordModel::AAAA { domain, .. } => name_ok(domain),
    }
}

/// The wire bytes of a record: name, type code, class 1, ttl, payload
/// length, payload. The payload length is computed from the payload that is
/// actually written, never taken from a stored field. A record of unknown
/// type writes nothing at all.
pub open spec fn encode_record(m: RecordModel) -> Seq<u8> {
    match m {
        RecordModel::Unknown { .. } => Seq::empty(),
        RecordModel::A { domain, addr, ttl } => encode_name(domain) + enc16(1) + enc16(1) + enc32(
            ttl,
        ) + enc16(4) + seq![addr.0, addr.1, addr.2, addr.3],
        RecordModel::NS { domain, host, ttl } => encode_name(domain) + enc16(2) + enc16(1) + enc32(
            ttl,
        ) + enc16(encode_name(host).len() as u16) + encode_name(host),
        RecordModel::CNAME { domain, host, ttl } => encode_name(domain) + enc16(5) + enc16(1)
            + enc32(ttl) + enc16(encode_name(host).len() as u16) + encode_name(host),
        RecordModel::MX { domain, priority, host, ttl } => encode_name(domain) + enc16(15) + enc16(
            1,
        ) + enc32(ttl) + enc16((2 + encode_name(host).len()) as u16) + enc16(priority)
            + encode_name(host),
        RecordModel::AAAA { domain, addr, ttl } => encode_name(domain) + enc16(28) + enc16(1)
            + enc32(ttl) + enc16(16) + enc16(addr.0) + enc16(addr.1) + enc16(addr.2) + enc16(
            addr.3,
        ) + enc16(addr.4) + enc16(addr.5) + enc16(addr.6) + enc16(addr.7),
    }
}

/// The record stored at offset `pos`: its preamble, then the payload read
/// by type code. An unrecognized type skips exactly `data_len` bytes
/// without reading them, so the position advances past the payload even
/// when that lands beyond the buffer.
pub open spec fn parse_record(b: Seq<u8>, pos: int) -> Parsed<RecordModel> {
    match parse_name(b, pos, 0) {
        Parsed::Fail(e) => Parsed::Fail(e),
        Parsed::Found { value: domain, next } => if next + 10 <= b.len() {
            let qtype_num = at16(b, next);
            let ttl = at32(b, next + 4);
            let data_len = at16(b, next + 8);
            let p = next + 10;
            match query_of(qtype_num) {
                Query::A => if p + 4 <= b.len() {
                    Parsed::Found {
                        value: RecordModel::A {
                            domain,
                            addr: Ipv4(b[p], b[p + 1], b[p + 2], b[p + 3]),
                            ttl,
                        },
                        next: p + 4,
                    }
                } else {
                    Parsed::Fail(DnsError::BufferBounds)
                },
                Query::NS => match parse_name(b, p, 0) {
                    Parsed::Found { value: host, next: nx } => Parsed::Found {
                        value: RecordModel::NS { domain, host, ttl },
                        next: nx,
                    },
                    Parsed::Fail(e) => Parsed::Fail(e),
                },
                Query::CNAME => match parse_name(b, p, 0) {
                    Parsed::Found { value: host, next: nx } => Parsed::Found {
                        value: RecordModel::CNAME { domain, host, ttl },
                        next: nx,
                    },
                    Parsed::Fail(e) => Parsed::Fail(e),
                },
                Query::MX => if p + 2 <= b.len() {
                    match parse_name(b, p + 2, 0) {
                        Parsed::Found { value: host, next: nx } => Parsed::Found {
                            value: RecordModel::MX { domain, priority: at16(b, p), host, ttl },
                            next: nx,
                        },
                        Parsed::Fail(e) => Parsed::Fail(e),
                    }
                } else {
                    Parsed::Fail(DnsError::BufferBounds)
                },
                Query::AAAA => if p + 16 <= b.len() {
                    Parsed::Found {
                        value: RecordModel::AAAA {
                            domain,
                            addr: Ipv6(
                                at16(b, p),
                                at16(b, p + 2),
                                at16(b, p + 4),
                                at16(b, p + 6),
                                at16(b, p + 8),
                                at16(b, p + 10),
                                at16(b, p + 12),
                                at16(b, p + 14),
                            ),
                            ttl,
                        },
                        next: p + 16,
                    }
                } else {
                    Parsed::Fail(DnsError::BufferBounds)
                },
                Query::UNKNOWN(x) => Parsed::Found {
                    value: RecordModel::Unknown { domain, qtype: x, data_len, ttl },
                    next: p + data_len,
                },
            }
        } else {
            Parsed::Fail(DnsError::BufferBounds)
        },
    }
}

impl Record {
    /// Decode the record at the buffer's position, leaving the position
    /// just past it.
    #[verifier::rlimit(100)]
    pub fn read(buffer: &mut BytePacketBuffer) -> (r: Result<Record, DnsError>)
        requires
            old(buffer).wf(),
        ensures
            final(buffer).wf(),
            final(buffer).buf@ == old(buffer).buf@,
            match r {
                Ok(rec) => match parse_record(old(buffer).buf@, old(buffer).pos as int) {
                    Parsed::Found { value, next } => record_fits(rec, value) && final(buffer).pos
                        == next,
                    Parsed::Fail(_) => false,
                },
                Err(e) => parse_record(old(buffer).buf@, old(buffer).pos as int)
                    == Parsed::<RecordModel>::Fail(e) && final(buffer).pos == old(buffer).pos,
            },
    {
        let p0: usize = buffer.pos;
        let mut domain = String::new();
        match buffer.read_qname(&mut domain) {
            Ok(()) => {},
            Err(e) => {
                buffer.seek(p0);
                return Err(e);
            },
        }
        let qtype_num = match buffer.read_u16() {
            Ok(v) => v,
            Err(e) => {
                buffer.seek(p0);
                return Err(e);
            },
        };
        let qtype = Query::from_num(qtype_num);
        match buffer.read_u16() {
            Ok(_) => {},
            Err(e) => {
                buffer.seek(p0);
                return Err(e);
            },
        }
        let ttl = match buffer.read_u32() {
            Ok(v) => v,
            Err(e) => {
                buffer.seek(p0);
                return Err(e);
            },
        };
        let data_len = match buffer.read_u16() {
            Ok(v) => v,
            Err(e) => {
                buffer.seek(p0);
                return Err(e);
            },
        };
        match qtype {
            Query::A => {
                let b0 = match buffer.read_u8() {
                    Ok(v) => v,
                    Err(e) => {
                        buffer.seek(p0);
                        return Err(e);
                    },
                };
                let b1 = match buffer.read_u8() {
                    Ok(v) => v,
                    Err(e) => {
                        buffer.seek(p0);
                        return Err(e);
                    },
                };
                let b2 = match buffer.read_u8() {
                    Ok(v) => v,
                    Err(e) => {
                        buffer.seek(p0);
                        return Err(e);
                    },
                };
                let b3 = match buffer.read_u8() {
                    Ok(v) => v,
                    Err(e) => {
                        buffer.seek(p0);
                        return Err(e);
                    },
                };
                Ok(Record::A { domain, addr: Ipv4(b0, b1, b2, b3), ttl })
            },
            Query::NS => {
                let mut host = String::new();
                match buffer.read_qname(&mut host) {
                    Ok(()) => {},
                    Err(e) => {
                        buffer.seek(p0);
                        return Err(e);
                    },
                }
                Ok(Record::NS { domain, host, ttl })
            },
            Query::CNAME => {
                let mut host = String::new();
                match buffer.read_qname(&mut host) {
                    Ok(()) => {},
                    Err(e) => {
                        buffer.seek(p0);
                        return Err(e);
                    },
                }
                Ok(Record::CNAME { domain, host, ttl })
            },
            Query::MX => {
                let priority = match buffer.read_u16() {
                    Ok(v) => v,
                    Err(e) => {
                        buffer.seek(p0);
                        return Err(e);
                    },
                };
                let mut host = String::new();
                match buffer.read_qname(&mut host) {
                    Ok(()) => {},
                    Err(e) => {
                        buffer.seek(p0);
                        return Err(e);
                    },
                }
                Ok(Record::MX { domain, priority, host, ttl })
            },
            Query::AAAA => {
                let g0 = match buffer.read_u16() {
                    Ok(v) => v,
                    Err(e) => {
                        buffer.seek(p0);
                        return Err(e);
                    },
                };
                let g1 = match buffer.read_u16() {
                    Ok(v) => v,
                    Err(e) => {
                        buffer.seek(p0);
                        return Err(e);
                    },
                };
                let g2 = match buffer.read_u16() {
                    Ok(v) => v,
                    Err(e) => {
                        buffer.seek(p0);
                        return Err(e);
                    },
                };
                let g3 = match buffer.read_u16() {
                    Ok(v) => v,
                    Err(e) => {
                        buffer.seek(p0);
                        return Err(e);
                    },
                };
                let g4 = match buffer.read_u16() {
                    Ok(v) => v,
                    Err(e) => {
                        buffer.seek(p0);
                        return Err(e);
                    },
                };
                let g5 = match buffer.read_u16() {
                    Ok(v) => v,
                    Err(e) => {
                        buffer.seek(p0);
                        return Err(e);
                    },
                };
                let g6 = match buffer.read_u16() {
                    Ok(v) => v,
                    Err(e) => {
                        buffer.seek(p0);
                        return Err(e);
                    },
                };
                let g7 = match buffer.read_u16() {
                    Ok(v) => v,
                    Err(e) => {
                        buffer.seek(p0);
                        return Err(e);
                    },
                };
                Ok(
                    Record::AAAA {
                        domain,
                        addr: Ipv6(g0, g1, g2, g3, g4, g5, g6, g7),
                        ttl,
                    },
                )
            },
            Query::UNKNOWN(x) => {
                match buffer.step(data_len as usize) {
                    Ok(()) => {},
                    Err(e) => {
                        buffer.seek(p0);
                        return Err(e);
                    },
                }
                Ok(Record::Unknown { domain, qtype: x, data_len, ttl })
            },
        }
    }

    /// Encode the record at the buffer's position: name, type code, class
    /// 1, ttl, payload length computed from the payload itself, payload. A
    /// record of unknown type is skipped: nothing is written.
    #[verifier::rlimit(100)]
    pub fn write(&self, buffer: &mut BytePacketBuffer) -> (r: Result<(), DnsError>)
        requires
            old(buffer).wf(),
        ensures
            final(buffer).wf(),
            final(buffer).pos >= old(buffer).pos,
            forall|i: int|
                0 <= i < PACKET_SIZE && !(old(buffer).pos <= i < final(buffer).pos)
                    ==> final(buffer).buf@[i] == old(buffer).buf@[i],
            match r {
                Ok(()) => (record_names_ok(record_model(*self)) && old(buffer).pos + encode_record(
                    record_model(*self),
                ).len() <= PACKET_SIZE || self matches Record::Unknown { .. }) && final(buffer).buf@ == splice(
                    old(buffer).buf@,
                    old(buffer).pos as int,
                    encode_record(record_model(*self)),
                ) && final(buffer).pos == old(buffer).pos + encode_record(
                    record_model(*self),
                ).len(),
                Err(e) => {
                    &&& !(record_names_ok(record_model(*self)) && old(buffer).pos + encode_record(
                        record_model(*self),
                    ).len() <= PACKET_SIZE)
                    &&& (e == DnsError::LabelTooLong || e == DnsError::BufferBounds)
                    &&& (e == DnsError::LabelTooLong ==> !record_names_ok(record_model(*self)))
                    &&& (e == DnsError::BufferBounds ==> old(buffer).pos + encode_record(
                        record_model(*self),
                    ).len() > PACKET_SIZE)
                },
            },
    {
        let ghost buf0 = buffer.buf@;
        let ghost pos0 = buffer.pos as int;
        let ghost m = record_model(*self);
        let ghost enc = encode_record(m);
        match self {
            Record::Unknown { .. } => {
                proof {
                    assert(buffer.buf@ =~= splice(buf0, pos0, enc));
                }
                Ok(())
            },
            Record::A { domain, addr, ttl } => {
                Self::write_a_record(buffer, domain, *addr, *ttl)
            },
            Record::NS { domain, host, ttl } => {
                Self::write_host_record(buffer, domain, 2, *ttl, 0, false, host)
            },
            Record::CNAME { domain, host, ttl } => {
                Self::write_host_record(buffer, domain, 5, *ttl, 0, false, host)
            },
            Record::MX { domain, priority, host, ttl } => {
                Self::write_host_record(buffer, domain, 15, *ttl, *priority, true, host)
            },
            Record::AAAA { domain, addr, ttl } => {
                Self::write_aaaa_record(buffer, domain, *addr, *ttl)
            },
        }
    }

    /// Write an address record: a four-octet payload of fixed length 4.
    fn write_a_record(buffer: &mut BytePacketBuffer, domain: &String, addr: Ipv4, ttl: u32) -> (r:
        Result<(), DnsError>)
        requires
            old(buffer).wf(),
        ensures
            final(buffer).wf(),
            final(buffer).pos >= old(buffer).pos,
            forall|i: int|
                0 <= i < PACKET_SIZE && !(old(buffer).pos <= i < final(buffer).pos)
                    ==> final(buffer).buf@[i] == old(buffer).buf@[i],
            ({
                let enc = encode_name(str_bytes(domain@)) + enc16(1) + enc16(1) + enc32(ttl)
                    + enc16(4) + seq![addr.0, addr.1, addr.2, addr.3];
                let ok = name_ok(str_bytes(domain@)) && old(buffer).pos + enc.len() <= PACKET_SIZE;
                match r {
                    Ok(()) => ok && final(buffer).buf@ == splice(
                        old(buffer).buf@,
                        old(buffer).pos as int,
                        enc,
                    ) && final(buffer).pos == old(buffer).pos + enc.len(),
                    Err(e) => {
                        &&& !ok
                        &&& (e == DnsError::LabelTooLong || e == DnsError::BufferBounds)
                        &&& (e == DnsError::LabelTooLong ==> !name_ok(str_bytes(domain@)))
                        &&& (e == DnsError::BufferBounds ==> old(buffer).pos + enc.len()
                            > PACKET_SIZE)
                    },
                }
            }),
    {
        let ghost buf0 = buffer.buf@;
        let ghost pos0 = buffer.pos as int;
        match buffer.write_qname(domain.as_str()) {
            Ok(()) => {},
            Err(e) => {
                return Err(e);
            },
        }
        let ghost mut w: Seq<u8> = encode_name(str_bytes(domain@));
        match Self::write_fields(buffer, 1, ttl, 4) {
            Ok(()) => {},
            Err(e) => {
                return Err(e);
            },
        }
        proof {
            lemma_splice_concat(buf0, pos0, w, enc16(1) + enc16(1) + enc32(ttl) + enc16(4));
            w = w + enc16(1) + enc16(1) + enc32(ttl) + enc16(4);
            assert(buffer.buf@ == splice(buf0, pos0, w));
        }
        match Self::write_octets(buffer, addr.0, addr.1, addr.2, addr.3) {
            Ok(()) => {},
            Err(e) => {
                return Err(e);
            },
        }
        proof {
            lemma_splice_concat(buf0, pos0, w, seq![addr.0, addr.1, addr.2, addr.3]);
            w = w + seq![addr.0, addr.1, addr.2, addr.3];
            assert(w =~= encode_name(str_bytes(domain@)) + enc16(1) + enc16(1) + enc32(ttl)
                + enc16(4) + seq![addr.0, addr.1, addr.2, addr.3]);
        }
        Ok(())
    }

    /// Write an IPv6 address record: eight 16-bit groups, fixed length 16.
    #[verifier::rlimit(100)]
    fn write_aaaa_record(
        buffer: &mut BytePacketBuffer,
        domain: &String,
        addr: Ipv6,
        ttl: u32,
    ) -> (r: Result<(), DnsError>)
        requires
            old(buffer).wf(),
        ensures
            final(buffer).wf(),
            final(buffer).pos >= old(buffer).pos,
            forall|i: int|
                0 <= i < PACKET_SIZE && !(old(buffer).pos <= i < final(buffer).pos)
                    ==> final(buffer).buf@[i] == old(buffer).buf@[i],
            ({
                let enc = encode_name(str_bytes(domain@)) + enc16(28) + enc16(1) + enc32(ttl)
                    + enc16(16) + enc16(addr.0) + enc16(addr.1) + enc16(addr.2) + enc16(addr.3)
                    + enc16(addr.4) + enc16(addr.5) + enc16(addr.6) + enc16(addr.7);
                let ok = name_ok(str_bytes(domain@)) && old(buffer).pos + enc.len() <= PACKET_SIZE;
                match r {
                    Ok(()) => ok && final(buffer).buf@ == splice(
                        old(buffer).buf@,
                        old(buffer).pos as int,
                        enc,
                    ) && final(buffer).pos == old(buffer).pos + enc.len(),
                    Err(e) => {
                        &&& !ok
                        &&& (e == DnsError::LabelTooLong || e == DnsError::BufferBounds)
                        &&& (e == DnsError::LabelTooLong ==> !name_ok(str_bytes(domain@)))
                        &&& (e == DnsError::BufferBounds ==> old(buffer).pos + enc.len()
                            > PACKET_SIZE)
                    },
                }
            }),
    {
        let ghost buf0 = buffer.buf@;
        let ghost pos0 = buffer.pos as int;
        let ghost enc = encode_name(str_bytes(domain@)) + enc16(28) + enc16(1) + enc32(ttl)
            + enc16(16) + enc16(addr.0) + enc16(addr.1) + enc16(addr.2) + enc16(addr.3) + enc16(
            addr.4,
        ) + enc16(addr.5) + enc16(addr.6) + enc16(addr.7);
        match buffer.write_qname(domain.as_str()) {
            Ok(()) => {},
            Err(e) => {
                return Err(e);
            },
        }
        let ghost mut w: Seq<u8> = encode_name(str_bytes(domain@));
        match Self::write_fields(buffer, 28, ttl, 16) {
            Ok(()) => {},
            Err(e) => {
                return Err(e);
            },
        }
        proof {
            lemma_splice_concat(buf0, pos0, w, enc16(28) + enc16(1) + enc32(ttl) + enc16(16));
            w = w + enc16(28) + enc16(1) + enc32(ttl) + enc16(16);
            assert(buffer.buf@ == splice(buf0, pos0, w));
        }
        match buffer.write_u16(addr.0) {
            Ok(()) => {},
            Err(e) => {
                return Err(e);
            },
        }
        proof {
            lemma_splice_concat(buf0, pos0, w, enc16(addr.0));
            w = w + enc16(addr.0);
            assert(buffer.buf@ == splice(buf0, pos0, w));
        }
        match buffer.write_u16(addr.1) {
            Ok(()) => {},
            Err(e) => {
                return Err(e);
            },
        }
        proof {
            lemma_splice_concat(buf0, pos0, w, enc16(addr.1));
            w = w + enc16(addr.1);
            assert(buffer.buf@ == splice(buf0, pos0, w));
        }
        match buffer.write_u16(addr.2) {
            Ok(()) => {},
            Err(e) => {
                return Err(e);
            },
        }
        proof {
            lemma_splice_concat(buf0, pos0, w, enc16(addr.2));
            w = w + enc16(addr.2);
            assert(buffer.buf@ == splice(buf0, pos0, w));
        }
        match buffer.write_u16(addr.3) {
            Ok(()) => {},
            Err(e) => {
                return Err(e);
            },
        }
        proof {
            lemma_splice_concat(buf0, pos0, w, enc16(addr.3));
            w = w + enc16(addr.3);
            assert(buffer.buf@ == splice(buf0, pos0, w));
        }
        match buffer.write_u16(addr.4) {
            Ok(()) => {},
            Err(e) => {
                return Err(e);
            },
        }
        proof {
            lemma_splice_concat(buf0, pos0, w, enc16(addr.4));
            w = w + enc16(addr.4);
            assert(buffer.buf@ == splice(buf0, pos0, w));
        }
        match buffer.write_u16(addr.5) {
            Ok(()) => {},
            Err(e) => {
                return Err(e);
            },
        }
        proof {
            lemma_splice_concat(buf0, pos0, w, enc16(addr.5));
            w = w + enc16(addr.5);
            assert(buffer.buf@ == splice(buf0, pos0, w));
        }
        match buffer.write_u16(addr.6) {
            Ok(()) => {},
            Err(e) => {
                return Err(e);
            },
        }
        proof {
            lemma_splice_concat(buf0, pos0, w, enc16(addr.6));
            w = w + enc16(addr.6);
            assert(buffer.buf@ == splice(buf0, pos0, w));
        }
        match buffer.write_u16(addr.7) {
            Ok(()) => {},
            Err(e) => {
                return Err(e);
            },
        }
        proof {
            lemma_splice_concat(buf0, pos0, w, enc16(addr.7));
            w = w + enc16(addr.7);
            assert(w =~= enc);
        }
        Ok(())
    }

    /// Write the type code, class 1, ttl and payload length that follow a
    /// record's name.
    fn write_fields(buffer: &mut BytePacketBuffer, code: u16, ttl: u32, dlen: u16) -> (r: Result<
        (),
        DnsError,
    >)
        requires
            old(buffer).wf(),
        ensures
            final(buffer).wf(),
            final(buffer).pos >= old(buffer).pos,
            forall|i: int|
                0 <= i < PACKET_SIZE && !(old(buffer).pos <= i < final(buffer).pos)
                    ==> final(buffer).buf@[i] == old(buffer).buf@[i],
            match r {
                Ok(()) => old(buffer).pos + 10 <= PACKET_SIZE && final(buffer).buf@ == splice(
                    old(buffer).buf@,
                    old(buffer).pos as int,
                    enc16(code) + enc16(1) + enc32(ttl) + enc16(dlen),
                ) && final(buffer).pos == old(buffer).pos + 10,
                Err(e) => e == DnsError::BufferBounds && old(buffer).pos + 10 > PACKET_SIZE,
            },
    {
        let ghost buf0 = buffer.buf@;
        let ghost pos0 = buffer.pos as int;
        match buffer.write_u16(code) {
            Ok(()) => {},
            Err(e) => {
                return Err(e);
            },
        }
        let ghost mut w: Seq<u8> = enc16(code);
        match buffer.write_u16(1) {
            Ok(()) => {},
            Err(e) => {
                return Err(e);
            },
        }
        proof {
            lemma_splice_concat(buf0, pos0, w, enc16(1));
            w = w + enc16(1);
        }
        match buffer.write_u32(ttl) {
            Ok(()) => {},
            Err(e) => {
                return Err(e);
            },
        }
        proof {
            lemma_splice_concat(buf0, pos0, w, enc32(ttl));
            w = w + enc32(ttl);
        }
        match buffer.write_u16(dlen) {
            Ok(()) => {},
            Err(e) => {
                return Err(e);
            },
        }
        proof {
            lemma_splice_concat(buf0, pos0, w, enc16(dlen));
            w = w + enc16(dlen);
            assert(w =~= enc16(code) + enc16(1) + enc32(ttl) + enc16(dlen));
        }
        Ok(())
    }

    /// Write four single bytes.
    fn write_octets(buffer: &mut BytePacketBuffer, b0: u8, b1: u8, b2: u8, b3: u8) -> (r: Result<
        (),
        DnsError,
    >)
        requires
            old(buffer).wf(),
        ensures
            final(buffer).wf(),
            final(buffer).pos >= old(buffer).pos,
            forall|i: int|
                0 <= i < PACKET_SIZE && !(old(buffer).pos <= i < final(buffer).pos)
                    ==> final(buffer).buf@[i] == old(buffer).buf@[i],
            match r {
                Ok(()) => old(buffer).pos + 4 <= PACKET_SIZE && final(buffer).buf@ == splice(
                    old(buffer).buf@,
                    old(buffer).pos as int,
                    seq![b0, b1, b2, b3],
                ) && final(buffer).pos == old(buffer).pos + 4,
                Err(e) => e == DnsError::BufferBounds && old(buffer).pos + 4 > PACKET_SIZE,
            },
    {
        let ghost buf0 = buffer.buf@;
        let ghost pos0 = buffer.pos as int;
        match buffer.write_u8(b0) {
            Ok(()) => {},
            Err(e) => {
                return Err(e);
            },
        }
        match buffer.write_u8(b1) {
            Ok(()) => {},
            Err(e) => {
                return Err(e);
            },
        }
        proof {
            lemma_splice_concat(buf0, pos0, seq![b0], seq![b1]);
        }
        match buffer.write_u8(b2) {
            Ok(()) => {},
            Err(e) => {
                return Err(e);
            },
        }
        proof {
            lemma_splice_concat(buf0, pos0, seq![b0] + seq![b1], seq![b2]);
        }
        match buffer.write_u8(b3) {
            Ok(()) => {},
            Err(e) => {
                return Err(e);
            },
        }
        proof {
            lemma_splice_concat(buf0, pos0, seq![b0] + seq![b1] + seq![b2], seq![b3]);
            assert(seq![b0] + seq![b1] + seq![b2] + seq![b3] =~= seq![b0, b1, b2, b3]);
        }
        Ok(())
    }

    /// Write a record whose payload is a host name, optionally preceded by
    /// a 16-bit preference value; the payload length is the host name's
    /// wire size, which the label lengths determine exactly.
    #[verifier::rlimit(100)]
    fn write_host_record(
        buffer: &mut BytePacketBuffer,
        domain: &String,
        code: u16,
        ttl: u32,
        priority: u16,
        with_priority: bool,
        host: &String,
    ) -> (r: Result<(), DnsError>)
        requires
            old(buffer).wf(),
        ensures
            final(buffer).wf(),
            final(buffer).pos >= old(buffer).pos,
            forall|i: int|
                0 <= i < PACKET_SIZE && !(old(buffer).pos <= i < final(buffer).pos)
                    ==> final(buffer).buf@[i] == old(buffer).buf@[i],
            ({
                let enc = encode_name(str_bytes(domain@)) + enc16(code) + enc16(1) + enc32(ttl)
                    + (if with_priority {
                    enc16((2 + encode_name(str_bytes(host@)).len()) as u16) + enc16(priority)
                } else {
                    enc16(encode_name(str_bytes(host@)).len() as u16)
                }) + encode_name(str_bytes(host@));
                let ok = name_ok(str_bytes(domain@)) && name_ok(str_bytes(host@)) && old(
                    buffer,
                ).pos + enc.len() <= PACKET_SIZE;
                match r {
                    Ok(()) => ok && final(buffer).buf@ == splice(
                        old(buffer).buf@,
                        old(buffer).pos as int,
                        enc,
                    ) && final(buffer).pos == old(buffer).pos + enc.len(),
                    Err(e) => {
                        &&& !ok
                        &&& (e == DnsError::LabelTooLong || e == DnsError::BufferBounds)
                        &&& (e == DnsError::LabelTooLong ==> !(name_ok(str_bytes(domain@))
                            && name_ok(str_bytes(host@))))
                        &&& (e == DnsError::BufferBounds ==> old(buffer).pos + enc.len()
                            > PACKET_SIZE)
                    },
                }
            }),
    {
        let ghost buf0 = buffer.buf@;
        let ghost pos0 = buffer.pos as int;
        let ghost hb = str_bytes(host@);
        proof {
            lemma_encode_name_len(hb);
        }
        if host.as_str().len() > PACKET_SIZE {
            return Err(DnsError::BufferBounds);
        }
        let hlen = host.as_str().len();
        match buffer.write_qname(domain.as_str()) {
            Ok(()) => {},
            Err(e) => {
                return Err(e);
            },
        }
        let ghost mut w: Seq<u8> = encode_name(str_bytes(domain@));
        let dlen: u16 = if with_priority {
            (hlen + 4) as u16
        } else {
            (hlen + 2) as u16
        };
        match Self::write_fields(buffer, code, ttl, dlen) {
            Ok(()) => {},
            Err(e) => {
                return Err(e);
            },
        }
        proof {
            lemma_splice_concat(buf0, pos0, w, enc16(code) + enc16(1) + enc32(ttl) + enc16(dlen));
            w = w + enc16(code) + enc16(1) + enc32(ttl) + enc16(dlen);
            assert(buffer.buf@ == splice(buf0, pos0, w));
        }
        if with_priority {
            match buffer.write_u16(priority) {
                Ok(()) => {},
                Err(e) => {
                    return Err(e);
                },
            }
            proof {
                lemma_splice_concat(buf0, pos0, w, enc16(priority));
                w = w + enc16(priority);
                assert(buffer.buf@ == splice(buf0, pos0, w));
            }
        }
        match buffer.write_qname(host.as_str()) {
            Ok(()) => {},
            Err(e) => {
                return Err(e);
            },
        }
        proof {
            lemma_splice_concat(buf0, pos0, w, encode_name(hb));
            w = w + encode_name(hb);
            if with_priority {
                assert(w =~= encode_name(str_bytes(domain@)) + enc16(code) + enc16(1) + enc32(ttl)
                    + (enc16((2 + encode_name(hb).len()) as u16) + enc16(priority)) + encode_name(
                    hb,
                ));
            } else {
                assert(w =~= encode_name(str_bytes(domain@)) + enc16(code) + enc16(1) + enc32(ttl)
                    + enc16(encode_name(hb).len() as u16) + encode_name(hb));
            }
        }
        Ok(())
    }
}

} // verus!
