use vstd::prelude::*;
use crate::error::DnsError;
use crate::header::lemma_u16_round_trip;
use crate::name::{encode_name, read_name};
use crate::packet_buffer::{
    be16, be32, lemma_splice_concat, lemma_splice_inner, splice, u16_bytes, u32_bytes, write_outcome,
    PacketBuffer, BUFFER_SIZE,
};
use crate::question::{text_valid, text_wire};
use crate::query_type::QueryType;

verus! {

/// An IPv4 address as its four octets.
#[derive(Clone, Copy, Debug, PartialEq, Eq, Structural)]
pub struct Ipv4Address(pub u8, pub u8, pub u8, pub u8);

/// An IPv6 address as its eight 16-bit segments.
#[derive(Clone, Copy, Debug, PartialEq, Eq, Structural)]
pub struct Ipv6Address(pub u16, pub u16, pub u16, pub u16, pub u16, pub u16, pub u16, pub u16);

/// A resource record; an unrecognised type keeps only its code and payload length.
#[allow(inconsistent_fields)]
pub enum DnsRecord {
    UNKNOWN { domain: String, qtype: u16, ttl: u32, len: u16 },
    A { domain: String, addr: Ipv4Address, ttl: u32 },
    NS { domain: String, host: String, ttl: u32 },
    CNAME { domain: String, host: String, ttl: u32 },
    MX { domain: String, priority: u16, host: String, ttl: u32 },
    AAAA { domain: String, addr: Ipv6Address, ttl: u32 },
}

/// A record as a value, names as text.
#[allow(inconsistent_fields)]
pub enum RecordModel {
    UNKNOWN { domain: Seq<char>, qtype: u16, ttl: u32, len: u16 },
    A { domain: Seq<char>, addr: Ipv4Address, ttl: u32 },
    NS { domain: Seq<char>, host: Seq<char>, ttl: u32 },
    CNAME { domain: Seq<char>, host: Seq<char>, ttl: u32 },
    MX { domain: Seq<char>, priority: u16, host: Seq<char>, ttl: u32 },
    AAAA { domain: Seq<char>, addr: Ipv6Address, ttl: u32 },
}

impl View for DnsRecord {
    type V = RecordModel;

    open spec fn view(&self) -> RecordModel {
        match self {
            DnsRecord::UNKNOWN { domain, qtype, ttl, len } => RecordModel::UNKNOWN {
                domain: domain@,
                qtype: *qtype,
                ttl: *ttl,
                len: *len,
            },
            DnsRecord::A { domain, addr, ttl } => RecordModel::A { domain: domain@, addr: *addr, ttl: *ttl },
            DnsRecord::NS { domain, host, ttl } => RecordModel::NS { domain: domain@, host: host@, ttl: *ttl },
            DnsRecord::CNAME { domain, host, ttl } => RecordModel::CNAME {
                domain: domain@,
                host: host@,
                ttl: *ttl,
            },
            DnsRecord::MX { domain, priority, host, ttl } => RecordModel::MX {
                domain: domain@,
                priority: *priority,
                host: host@,
                ttl: *ttl,
            },
            DnsRecord::AAAA { domain, addr, ttl } => RecordModel::AAAA { domain: domain@, addr: *addr, ttl: *ttl },
        }
    }
}

pub open spec fn ipv4_bytes(a: Ipv4Address) -> Seq<u8> {
    seq![a.0, a.1, a.2, a.3]
}

pub open spec fn ipv6_bytes(a: Ipv6Address) -> Seq<u8> {
    u16_bytes(a.0) + u16_bytes(a.1) + u16_bytes(a.2) + u16_bytes(a.3) + u16_bytes(a.4) + u16_bytes(a.5)
        + u16_bytes(a.6) + u16_bytes(a.7)
}

pub open spec fn ipv6_from(d: Seq<u8>, r: int) -> Ipv6Address {
    Ipv6Address(
        be16(d, r),
        be16(d, r + 2),
        be16(d, r + 4),
        be16(d, r + 6),
        be16(d, r + 8),
        be16(d, r + 10),
        be16(d, r + 12),
        be16(d, r + 14),
    )
}

/// The record at `p` and the offset after it. Only an unrecognised type uses the
/// length field; the other types' data decide their own extent.
#[verifier::opaque]
pub open spec fn read_record(d: Seq<u8>, p: int) -> Result<(RecordModel, int), DnsError> {
    match read_name(d, p) {
        Err(e) => Err(e),
        Ok((domain, q)) => if q + 10 > d.len() {
            Err(DnsError::BufferOverflow)
        } else {
            let code = be16(d, q);
            let ttl = be32(d, q + 4);
            let len = be16(d, q + 8);
            let r = q + 10;
            if code == 1 {
                if r + 4 > d.len() {
                    Err(DnsError::BufferOverflow)
                } else {
                    Ok((RecordModel::A { domain, addr: Ipv4Address(d[r], d[r + 1], d[r + 2], d[r + 3]), ttl }, r + 4))
                }
            } else if code == 2 || code == 5 {
                match read_name(d, r) {
                    Err(e) => Err(e),
                    Ok((host, e)) => Ok((
                        if code == 2 {
                            RecordModel::NS { domain, host, ttl }
                        } else {
                            RecordModel::CNAME { domain, host, ttl }
                        },
                        e,
                    )),
                }
            } else if code == 15 {
                if r + 2 > d.len() {
                    Err(DnsError::BufferOverflow)
                } else {
                    match read_name(d, r + 2) {
                        Err(e) => Err(e),
                        Ok((host, e)) => Ok((RecordModel::MX { domain, priority: be16(d, r), host, ttl }, e)),
                    }
                }
            } else if code == 28 {
                if r + 16 > d.len() {
                    Err(DnsError::BufferOverflow)
                } else {
                    Ok((RecordModel::AAAA { domain, addr: ipv6_from(d, r), ttl }, r + 16))
                }
            } else if r + len > d.len() {
                Err(DnsError::BufferOverflow)
            } else {
                Ok((RecordModel::UNKNOWN { domain, qtype: code, ttl, len }, r + len))
            }
        },
    }
}

/// Owner name, type code, class 1 and TTL.
pub open spec fn record_prefix(domain: Seq<char>, code: u16, ttl: u32) -> Seq<u8> {
    text_wire(domain) + u16_bytes(code) + u16_bytes(1) + u32_bytes(ttl)
}

/// The length field, then the data it counts.
pub open spec fn sized(rdata: Seq<u8>) -> Seq<u8> {
    u16_bytes(rdata.len() as u16) + rdata
}

/// The record's wire form; an unrecognised record writes nothing.
#[verifier::opaque]
pub open spec fn record_wire(m: RecordModel) -> Seq<u8> {
    match m {
        RecordModel::UNKNOWN { .. } => seq![],
        RecordModel::A { domain, addr, ttl } => record_prefix(domain, 1, ttl) + sized(ipv4_bytes(addr)),
        RecordModel::NS { domain, host, ttl } => record_prefix(domain, 2, ttl) + sized(text_wire(host)),
        RecordModel::CNAME { domain, host, ttl } => record_prefix(domain, 5, ttl) + sized(text_wire(host)),
        RecordModel::MX { domain, priority, host, ttl } => record_prefix(domain, 15, ttl) + sized(
            u16_bytes(priority) + text_wire(host),
        ),
        RecordModel::AAAA { domain, addr, ttl } => record_prefix(domain, 28, ttl) + sized(ipv6_bytes(addr)),
    }
}

/// Every name of the record can be encoded.
pub open spec fn record_valid(m: RecordModel) -> bool {
    match m {
        RecordModel::UNKNOWN { .. } => true,
        RecordModel::A { domain, .. } => text_valid(domain),
        RecordModel::NS { domain, host, .. } => text_valid(domain) && text_valid(host),
        RecordModel::CNAME { domain, host, .. } => text_valid(domain) && text_valid(host),
        RecordModel::MX { domain, host, .. } => text_valid(domain) && text_valid(host),
        RecordModel::AAAA { domain, .. } => text_valid(domain),
    }
}

/// The owner name of a record.
pub open spec fn record_domain(m: RecordModel) -> Seq<char> {
    match m {
        RecordModel::UNKNOWN { domain, .. } => domain,
        RecordModel::A { domain, .. } => domain,
        RecordModel::NS { domain, .. } => domain,
        RecordModel::CNAME { domain, .. } => domain,
        RecordModel::MX { domain, .. } => domain,
        RecordModel::AAAA { domain, .. } => domain,
    }
}

/// Backpatch correctness: in the wire form of an NS, CNAME or MX record that fits a
/// datagram, the length field after the owner name, type, class and TTL holds the
/// exact number of bytes that follow it.
pub proof fn lemma_rdlength_exact(m: RecordModel)
    requires
        m is NS || m is CNAME || m is MX,
        record_wire(m).len() <= BUFFER_SIZE,
    ensures
        ({
            let w = record_wire(m);
            let k = text_wire(record_domain(m)).len() + 8int;
            be16(w, k) == w.len() - (k + 2)
        }),
{
    reveal(record_wire);
    let w = record_wire(m);
    let k = text_wire(record_domain(m)).len() + 8int;
    let rdata = match m {
        RecordModel::MX { priority, host, .. } => u16_bytes(priority) + text_wire(host),
        RecordModel::NS { host, .. } => text_wire(host),
        RecordModel::CNAME { host, .. } => text_wire(host),
        _ => seq![],
    };
    let pre = record_prefix(record_domain(m), type_code_of(m), record_ttl(m));
    assert(w =~= pre + sized(rdata));
    assert(pre.len() == k);
    assert(w[k] == u16_bytes(rdata.len() as u16)[0]);
    assert(w[k + 1] == u16_bytes(rdata.len() as u16)[1]);
    lemma_u16_round_trip(rdata.len() as u16, w, k);
}

/// The type code that a record is written with.
pub open spec fn type_code_of(m: RecordModel) -> u16 {
    match m {
        RecordModel::UNKNOWN { qtype, .. } => qtype,
        RecordModel::A { .. } => 1,
        RecordModel::NS { .. } => 2,
        RecordModel::CNAME { .. } => 5,
        RecordModel::MX { .. } => 15,
        RecordModel::AAAA { .. } => 28,
    }
}

pub open spec fn record_ttl(m: RecordModel) -> u32 {
    match m {
        RecordModel::UNKNOWN { ttl, .. } => ttl,
        RecordModel::A { ttl, .. } => ttl,
        RecordModel::NS { ttl, .. } => ttl,
        RecordModel::CNAME { ttl, .. } => ttl,
        RecordModel::MX { ttl, .. } => ttl,
        RecordModel::AAAA { ttl, .. } => ttl,
    }
}

/// Writes owner name, type, class and TTL; the caller has checked that they fit.
fn write_prefix(buffer: &mut PacketBuffer, domain: &Vec<u8>, code: u16, ttl: u32)
    requires
        old(buffer).wf(),
        old(buffer).cursor() + domain@.len() + 8 <= BUFFER_SIZE,
    ensures
        final(buffer).wf(),
        final(buffer).data() == splice(
            old(buffer).data(),
            old(buffer).cursor(),
            domain@ + u16_bytes(code) + u16_bytes(1) + u32_bytes(ttl),
        ),
        final(buffer).cursor() == old(buffer).cursor() + domain@.len() + 8,
{
    let ghost d = buffer.data();
    let ghost p = buffer.cursor();
    let _ = buffer.write_bytes(domain.as_slice());
    let _ = buffer.write_u16(code);
    proof {
        lemma_splice_concat(d, p, domain@, u16_bytes(code));
    }
    let _ = buffer.write_u16(1);
    proof {
        lemma_splice_concat(d, p, domain@ + u16_bytes(code), u16_bytes(1));
    }
    let _ = buffer.write_u32(ttl);
    proof {
        lemma_splice_concat(d, p, domain@ + u16_bytes(code) + u16_bytes(1), u32_bytes(ttl));
    }
}

/// Writes a zero length, then the data, then backpatches the length with the number
/// of bytes that the data took; the caller has checked that they fit.
fn write_backpatched(buffer: &mut PacketBuffer, rdata: &[u8])
    requires
        old(buffer).wf(),
        old(buffer).cursor() + 2 + rdata@.len() <= BUFFER_SIZE,
    ensures
        final(buffer).wf(),
        final(buffer).data() == splice(old(buffer).data(), old(buffer).cursor(), sized(rdata@)),
        final(buffer).cursor() == old(buffer).cursor() + 2 + rdata@.len(),
{
    let ghost d = buffer.data();
    let len_pos = buffer.get_pos();
    let _ = buffer.write_u16(0);
    let _ = buffer.write_bytes(rdata);
    proof {
        lemma_splice_concat(d, len_pos as int, u16_bytes(0), rdata@);
    }
    let size = buffer.get_pos() - (len_pos + 2);
    let _ = buffer.set_u16(len_pos, size as u16);
    proof {
        lemma_splice_inner(d, len_pos as int, u16_bytes(0) + rdata@, len_pos as int, u16_bytes(size as u16));
        assert(splice(u16_bytes(0) + rdata@, 0, u16_bytes(size as u16)) =~= sized(rdata@));
    }
}

impl DnsRecord {
    /// Decodes the record at the buffer's cursor.
    pub fn read(buffer: &mut PacketBuffer) -> (r: Result<DnsRecord, DnsError>)
        requires
            old(buffer).wf(),
        ensures
            final(buffer).wf(),
            final(buffer).data() == old(buffer).data(),
            match read_record(old(buffer).data(), old(buffer).cursor()) {
                Ok((m, end)) => r is Ok && r->Ok_0@ == m && final(buffer).cursor() == end,
                Err(e) => r == Err::<DnsRecord, DnsError>(e),
            },
    {
        reveal(read_record);
        let ghost d = buffer.data();
        let domain = match buffer.get_qname() {
            Ok(n) => n,
            Err(e) => {
                return Err(e);
            },
        };
        if buffer.get_pos() > BUFFER_SIZE - 10 {
            return Err(DnsError::BufferOverflow);
        }
        let ghost q = buffer.cursor();
        let code = buffer.read_u16();
        let _class = buffer.read_u16();
        let ttl = buffer.read_u32();
        let len = buffer.read_u16();
        let (code, ttl, len) = match (code, ttl, len) {
            (Ok(c), Ok(t), Ok(l)) => (c, t, l),
            _ => {
                return Err(DnsError::BufferOverflow);
            },
        };
        assert(code == be16(d, q) && ttl == be32(d, q + 4) && len == be16(d, q + 8));
        if code == 1 {
            if buffer.get_pos() > BUFFER_SIZE - 4 {
                return Err(DnsError::BufferOverflow);
            }
            let a = buffer.read();
            let b = buffer.read();
            let c = buffer.read();
            let e = buffer.read();
            match (a, b, c, e) {
                (Ok(a), Ok(b), Ok(c), Ok(e)) => Ok(DnsRecord::A { domain, addr: Ipv4Address(a, b, c, e), ttl }),
                _ => Err(DnsError::BufferOverflow),
            }
        } else if code == 2 || code == 5 {
            let host = match buffer.get_qname() {
                Ok(n) => n,
                Err(e) => {
                    return Err(e);
                },
            };
            if code == 2 {
                Ok(DnsRecord::NS { domain, host, ttl })
            } else {
                Ok(DnsRecord::CNAME { domain, host, ttl })
            }
        } else if code == 15 {
            let priority = match buffer.read_u16() {
                Ok(v) => v,
                Err(e) => {
                    return Err(e);
                },
            };
            let host = match buffer.get_qname() {
                Ok(n) => n,
                Err(e) => {
                    return Err(e);
                },
            };
            Ok(DnsRecord::MX { domain, priority, host, ttl })
        } else if code == 28 {
            if buffer.get_pos() > BUFFER_SIZE - 16 {
                return Err(DnsError::BufferOverflow);
            }
            let s0 = buffer.read_u16();
            let s1 = buffer.read_u16();
            let s2 = buffer.read_u16();
            let s3 = buffer.read_u16();
            let s4 = buffer.read_u16();
            let s5 = buffer.read_u16();
            let s6 = buffer.read_u16();
            let s7 = buffer.read_u16();
            match (s0, s1, s2, s3, s4, s5, s6, s7) {
                (Ok(s0), Ok(s1), Ok(s2), Ok(s3), Ok(s4), Ok(s5), Ok(s6), Ok(s7)) => Ok(
                    DnsRecord::AAAA { domain, addr: Ipv6Address(s0, s1, s2, s3, s4, s5, s6, s7), ttl },
                ),
                _ => Err(DnsError::BufferOverflow),
            }
        } else {
            match buffer.step_pos(len as usize) {
                Ok(()) => Ok(DnsRecord::UNKNOWN { domain, qtype: code, ttl, len }),
                Err(e) => Err(e),
            }
        }
    }

    /// Encodes the record at the buffer's cursor; on failure nothing is written. An
    /// unrecognised record writes nothing, since its data was not kept.
    pub fn write(&self, buffer: &mut PacketBuffer) -> (r: Result<(), DnsError>)
        requires
            old(buffer).wf(),
        ensures
            write_outcome(*old(buffer), *final(buffer), r, record_valid(self@), record_wire(self@)),
    {
        reveal(record_wire);
        match self {
            DnsRecord::UNKNOWN { .. } => {
                proof {
                    assert(splice(buffer.data(), buffer.cursor(), seq![]) =~= buffer.data());
                }
                Ok(())
            },
            DnsRecord::A { domain, addr, ttl } => write_a(buffer, domain, addr, *ttl),
            DnsRecord::NS { domain, host, ttl } => write_host(buffer, QueryType::NS.to_num(), domain, host, *ttl),
            DnsRecord::CNAME { domain, host, ttl } => write_host(
                buffer,
                QueryType::CNAME.to_num(),
                domain,
                host,
                *ttl,
            ),
            DnsRecord::MX { domain, priority, host, ttl } => write_mx(buffer, domain, *priority, host, *ttl),
            DnsRecord::AAAA { domain, addr, ttl } => write_aaaa(buffer, domain, addr, *ttl),
        }
    }
}

fn write_a(buffer: &mut PacketBuffer, domain: &String, addr: &Ipv4Address, ttl: u32) -> (r: Result<(), DnsError>)
    requires
        old(buffer).wf(),
    ensures
        write_outcome(*old(buffer), *final(buffer), r, text_valid(domain@),
            record_prefix(domain@, 1, ttl) + sized(ipv4_bytes(*addr))),
{
    let dw = match encode_name(domain.as_str()) {
        Ok(w) => w,
        Err(e) => {
            return Err(e);
        },
    };
    if dw.len() > BUFFER_SIZE || dw.len() + 14 > BUFFER_SIZE - buffer.get_pos() {
        return Err(DnsError::BufferOverflow);
    }
    let ghost d = buffer.data();
    let ghost p = buffer.cursor();
    write_prefix(buffer, &dw, QueryType::A.to_num(), ttl);
    let ghost pre = dw@ + u16_bytes(1) + u16_bytes(1) + u32_bytes(ttl);
    let rdata: [u8; 4] = [addr.0, addr.1, addr.2, addr.3];
    let _ = buffer.write_u16(4);
    proof {
        lemma_splice_concat(d, p, pre, u16_bytes(4));
    }
    let _ = buffer.write_bytes(&rdata);
    proof {
        lemma_splice_concat(d, p, pre + u16_bytes(4), rdata@);
        assert(pre + u16_bytes(4) + rdata@ =~= record_prefix(domain@, 1, ttl) + sized(ipv4_bytes(*addr)));
    }
    Ok(())
}

fn write_host(buffer: &mut PacketBuffer, code: u16, domain: &String, host: &String, ttl: u32) -> (r: Result<
    (),
    DnsError,
>)
    requires
        old(buffer).wf(),
    ensures
        write_outcome(*old(buffer), *final(buffer), r, text_valid(domain@) && text_valid(host@),
            record_prefix(domain@, code, ttl) + sized(text_wire(host@))),
{
    let dw = match encode_name(domain.as_str()) {
        Ok(w) => w,
        Err(e) => {
            return Err(e);
        },
    };
    let hw = match encode_name(host.as_str()) {
        Ok(w) => w,
        Err(e) => {
            return Err(e);
        },
    };
    if dw.len() > BUFFER_SIZE || hw.len() > BUFFER_SIZE || dw.len() + hw.len() + 10 > BUFFER_SIZE
        - buffer.get_pos() {
        return Err(DnsError::BufferOverflow);
    }
    let ghost d = buffer.data();
    let ghost p = buffer.cursor();
    write_prefix(buffer, &dw, code, ttl);
    let ghost pre = dw@ + u16_bytes(code) + u16_bytes(1) + u32_bytes(ttl);
    write_backpatched(buffer, hw.as_slice());
    proof {
        lemma_splice_concat(d, p, pre, sized(hw@));
    }
    Ok(())
}

fn write_mx(buffer: &mut PacketBuffer, domain: &String, priority: u16, host: &String, ttl: u32) -> (r: Result<
    (),
    DnsError,
>)
    requires
        old(buffer).wf(),
    ensures
        write_outcome(*old(buffer), *final(buffer), r, text_valid(domain@) && text_valid(host@),
            record_prefix(domain@, 15, ttl) + sized(u16_bytes(priority) + text_wire(host@))),
{
    let dw = match encode_name(domain.as_str()) {
        Ok(w) => w,
        Err(e) => {
            return Err(e);
        },
    };
    let hw = match encode_name(host.as_str()) {
        Ok(w) => w,
        Err(e) => {
            return Err(e);
        },
    };
    if dw.len() > BUFFER_SIZE || hw.len() > BUFFER_SIZE || dw.len() + hw.len() + 12 > BUFFER_SIZE
        - buffer.get_pos() {
        return Err(DnsError::BufferOverflow);
    }
    let ghost d = buffer.data();
    let ghost p = buffer.cursor();
    write_prefix(buffer, &dw, QueryType::MX.to_num(), ttl);
    let ghost pre = dw@ + u16_bytes(15) + u16_bytes(1) + u32_bytes(ttl);
    let mut rdata: Vec<u8> = Vec::new();
    rdata.push((priority / 256) as u8);
    rdata.push((priority % 256) as u8);
    let mut i: usize = 0;
    while i < hw.len()
        invariant
            i <= hw@.len(),
            rdata@ == u16_bytes(priority) + hw@.subrange(0, i as int),
        decreases hw@.len() - i,
    {
        rdata.push(hw[i]);
        i = i + 1;
        assert(rdata@ =~= u16_bytes(priority) + hw@.subrange(0, i as int));
    }
    assert(hw@.subrange(0, hw@.len() as int) =~= hw@);
    write_backpatched(buffer, rdata.as_slice());
    proof {
        lemma_splice_concat(d, p, pre, sized(rdata@));
    }
    Ok(())
}

fn write_aaaa(buffer: &mut PacketBuffer, domain: &String, addr: &Ipv6Address, ttl: u32) -> (r: Result<(), DnsError>)
    requires
        old(buffer).wf(),
    ensures
        write_outcome(*old(buffer), *final(buffer), r, text_valid(domain@),
            record_prefix(domain@, 28, ttl) + sized(ipv6_bytes(*addr))),
{
    let dw = match encode_name(domain.as_str()) {
        Ok(w) => w,
        Err(e) => {
            return Err(e);
        },
    };
    if dw.len() > BUFFER_SIZE || dw.len() + 26 > BUFFER_SIZE - buffer.get_pos() {
        return Err(DnsError::BufferOverflow);
    }
    let ghost d = buffer.data();
    let ghost p = buffer.cursor();
    write_prefix(buffer, &dw, QueryType::AAAA.to_num(), ttl);
    let ghost pre = dw@ + u16_bytes(28) + u16_bytes(1) + u32_bytes(ttl);
    let rdata: [u8; 16] = [
        (addr.0 / 256) as u8, (addr.0 % 256) as u8, (addr.1 / 256) as u8, (addr.1 % 256) as u8,
        (addr.2 / 256) as u8, (addr.2 % 256) as u8, (addr.3 / 256) as u8, (addr.3 % 256) as u8,
        (addr.4 / 256) as u8, (addr.4 % 256) as u8, (addr.5 / 256) as u8, (addr.5 % 256) as u8,
        (addr.6 / 256) as u8, (addr.6 % 256) as u8, (addr.7 / 256) as u8, (addr.7 % 256) as u8,
    ];
    assert(rdata@ =~= ipv6_bytes(*addr));
    let _ = buffer.write_u16(16);
    proof {
        lemma_splice_concat(d, p, pre, u16_bytes(16));
    }
    let _ = buffer.write_bytes(&rdata);
    proof {
        lemma_splice_concat(d, p, pre + u16_bytes(16), rdata@);
        assert(pre + u16_bytes(16) + rdata@ =~= record_prefix(domain@, 28, ttl) + sized(ipv6_bytes(*addr)));
    }
    Ok(())
}

} // verus!
