use vstd::prelude::*;
use crate::error::DnsError;
use crate::packet_buffer::{be16, splice, u16_bytes, PacketBuffer, BUFFER_SIZE};
use crate::result_code::{canonical_rcode, rcode_num, rcode_of, ResultCode};

verus! {

/// Length of the header on the wire.
pub const HEADER_SIZE: usize = 12;

/// The 12-byte message header.
#[derive(Clone, Copy, Debug, PartialEq, Eq, Structural)]
pub struct DnsHeader {
    pub packet_identifier: u16,
    pub recursion_desired: bool,
    pub truncated_message: bool,
    pub authoritative_answer: bool,
    pub operation_code: u8,
    pub query_response: bool,
    pub response_code: ResultCode,
    pub checking_disabled: bool,
    pub authed_data: bool,
    pub reserved: bool,
    pub recursion_available: bool,
    pub question_count: u16,
    pub answer_count: u16,
    pub authority_count: u16,
    pub additional_count: u16,
}

pub open spec fn flag(b: bool) -> u8 {
    if b { 1 } else { 0 }
}

/// High flag byte: QR, OPCODE (4 bits), AA, TC, RD.
pub open spec fn flags_hi(h: DnsHeader) -> u8 {
    (flag(h.query_response) << 7u8) | ((h.operation_code & 0x0F) << 3u8) | (flag(h.authoritative_answer) << 2u8)
        | (flag(h.truncated_message) << 1u8) | flag(h.recursion_desired)
}

/// Low flag byte: RA, Z, AD, CD, RCODE (4 bits).
pub open spec fn flags_lo(h: DnsHeader) -> u8 {
    (flag(h.recursion_available) << 7u8) | (flag(h.reserved) << 6u8) | (flag(h.authed_data) << 5u8)
        | (flag(h.checking_disabled) << 4u8) | (rcode_num(h.response_code) & 0x0F)
}

/// The header's wire form.
pub open spec fn header_wire(h: DnsHeader) -> Seq<u8> {
    u16_bytes(h.packet_identifier) + seq![flags_hi(h), flags_lo(h)] + u16_bytes(h.question_count)
        + u16_bytes(h.answer_count) + u16_bytes(h.authority_count) + u16_bytes(h.additional_count)
}

/// The header that the 12 bytes at `p` decode to.
pub open spec fn header_from(d: Seq<u8>, p: int) -> DnsHeader {
    let hi = d[p + 2];
    let lo = d[p + 3];
    DnsHeader {
        packet_identifier: be16(d, p),
        query_response: hi & 0x80 != 0,
        operation_code: (hi >> 3u8) & 0x0F,
        authoritative_answer: hi & 0x04 != 0,
        truncated_message: hi & 0x02 != 0,
        recursion_desired: hi & 0x01 != 0,
        recursion_available: lo & 0x80 != 0,
        reserved: lo & 0x40 != 0,
        authed_data: lo & 0x20 != 0,
        checking_disabled: lo & 0x10 != 0,
        response_code: rcode_of(lo & 0x0F),
        question_count: be16(d, p + 4),
        answer_count: be16(d, p + 6),
        authority_count: be16(d, p + 8),
        additional_count: be16(d, p + 10),
    }
}

/// A header whose every field survives encoding: a 4-bit opcode and a 4-bit code.
pub open spec fn header_encodable(h: DnsHeader) -> bool {
    h.operation_code < 16 && canonical_rcode(h.response_code)
}

/// Every flag clear, every count zero, identifier 0, opcode 0, NOERROR.
pub open spec fn empty_header() -> DnsHeader {
    DnsHeader {
        packet_identifier: 0,
        recursion_desired: false,
        truncated_message: false,
        authoritative_answer: false,
        operation_code: 0,
        query_response: false,
        response_code: ResultCode::NOERROR,
        checking_disabled: false,
        authed_data: false,
        reserved: false,
        recursion_available: false,
        question_count: 0,
        answer_count: 0,
        authority_count: 0,
        additional_count: 0,
    }
}

fn flag_bit(b: bool) -> (r: u8)
    ensures
        r == flag(b),
{
    if b { 1 } else { 0 }
}

impl DnsHeader {
    /// A query header with every flag clear and every count zero.
    pub fn new() -> (r: Self)
        ensures
            r == empty_header(),
    {
        DnsHeader {
            packet_identifier: 0,
            recursion_desired: false,
            truncated_message: false,
            authoritative_answer: false,
            operation_code: 0,
            query_response: false,
            response_code: ResultCode::NOERROR,
            checking_disabled: false,
            authed_data: false,
            reserved: false,
            recursion_available: false,
            question_count: 0,
            answer_count: 0,
            authority_count: 0,
            additional_count: 0,
        }
    }

    /// Decodes the header at the buffer's cursor into `self`.
    pub fn read(&mut self, buffer: &mut PacketBuffer) -> (r: Result<(), DnsError>)
        requires
            old(buffer).wf(),
        ensures
            final(buffer).wf(),
            final(buffer).data() == old(buffer).data(),
            old(buffer).cursor() + HEADER_SIZE <= BUFFER_SIZE ==> r is Ok
                && *final(self) == header_from(old(buffer).data(), old(buffer).cursor())
                && final(buffer).cursor() == old(buffer).cursor() + HEADER_SIZE,
            old(buffer).cursor() + HEADER_SIZE > BUFFER_SIZE ==> r == Err::<(), DnsError>(DnsError::BufferOverflow)
                && *final(self) == *old(self) && *final(buffer) == *old(buffer),
    {
        if buffer.get_pos() > BUFFER_SIZE - HEADER_SIZE {
            return Err(DnsError::BufferOverflow);
        }
        let ghost d = buffer.data();
        let ghost p = buffer.cursor();
        let id = buffer.read_u16();
        let hi = buffer.read();
        let lo = buffer.read();
        let qd = buffer.read_u16();
        let an = buffer.read_u16();
        let ns = buffer.read_u16();
        let ar = buffer.read_u16();
        match (id, hi, lo, qd, an, ns, ar) {
            (Ok(id), Ok(hi), Ok(lo), Ok(qd), Ok(an), Ok(ns), Ok(ar)) => {
                self.packet_identifier = id;
                self.query_response = hi & 0x80 != 0;
                self.operation_code = (hi >> 3u8) & 0x0F;
                self.authoritative_answer = hi & 0x04 != 0;
                self.truncated_message = hi & 0x02 != 0;
                self.recursion_desired = hi & 0x01 != 0;
                self.recursion_available = lo & 0x80 != 0;
                self.reserved = lo & 0x40 != 0;
                self.authed_data = lo & 0x20 != 0;
                self.checking_disabled = lo & 0x10 != 0;
                self.response_code = ResultCode::from_num(lo & 0x0F);
                self.question_count = qd;
                self.answer_count = an;
                self.authority_count = ns;
                self.additional_count = ar;
                assert(*self == header_from(d, p));
                Ok(())
            },
            _ => Err(DnsError::BufferOverflow),
        }
    }

    /// Encodes the header at the buffer's cursor, counts as they stand.
    pub fn write(&self, buffer: &mut PacketBuffer) -> (r: Result<(), DnsError>)
        requires
            old(buffer).wf(),
        ensures
            final(buffer).wf(),
            old(buffer).cursor() + HEADER_SIZE <= BUFFER_SIZE ==> r is Ok
                && final(buffer).data() == splice(old(buffer).data(), old(buffer).cursor(), header_wire(*self))
                && final(buffer).cursor() == old(buffer).cursor() + HEADER_SIZE,
            old(buffer).cursor() + HEADER_SIZE > BUFFER_SIZE ==> r == Err::<(), DnsError>(DnsError::BufferOverflow)
                && *final(buffer) == *old(buffer),
    {
        let hi: u8 = (flag_bit(self.query_response) << 7u8) | ((self.operation_code & 0x0F) << 3u8)
            | (flag_bit(self.authoritative_answer) << 2u8) | (flag_bit(self.truncated_message) << 1u8)
            | flag_bit(self.recursion_desired);
        let lo: u8 = (flag_bit(self.recursion_available) << 7u8) | (flag_bit(self.reserved) << 6u8)
            | (flag_bit(self.authed_data) << 5u8) | (flag_bit(self.checking_disabled) << 4u8)
            | (self.response_code.to_num() & 0x0F);
        let bytes: [u8; 12] = [
            (self.packet_identifier / 256) as u8,
            (self.packet_identifier % 256) as u8,
            hi,
            lo,
            (self.question_count / 256) as u8,
            (self.question_count % 256) as u8,
            (self.answer_count / 256) as u8,
            (self.answer_count % 256) as u8,
            (self.authority_count / 256) as u8,
            (self.authority_count % 256) as u8,
            (self.additional_count / 256) as u8,
            (self.additional_count % 256) as u8,
        ];
        assert(bytes@ =~= header_wire(*self));
        buffer.write_bytes(&bytes)
    }
}

/// Big-endian bytes read back as the value they were made of.
pub proof fn lemma_u16_round_trip(v: u16, d: Seq<u8>, p: int)
    requires
        0 <= p,
        p + 2 <= d.len(),
        d[p] == (v / 256) as u8,
        d[p + 1] == (v % 256) as u8,
    ensures
        be16(d, p) == v,
{
}

/// The high flag byte gives back the bits it was packed from.
pub proof fn lemma_flags_hi(qr: u8, op: u8, aa: u8, tc: u8, rd: u8)
    requires
        qr <= 1 && aa <= 1 && tc <= 1 && rd <= 1,
        op < 16,
    ensures
        ({
            let x = (qr << 7u8) | ((op & 0x0F) << 3u8) | (aa << 2u8) | (tc << 1u8) | rd;
            &&& (x & 0x80 != 0) == (qr == 1)
            &&& (x >> 3u8) & 0x0F == op
            &&& (x & 0x04 != 0) == (aa == 1)
            &&& (x & 0x02 != 0) == (tc == 1)
            &&& (x & 0x01 != 0) == (rd == 1)
        }),
{
    assert({
        let x = (qr << 7u8) | ((op & 0x0F) << 3u8) | (aa << 2u8) | (tc << 1u8) | rd;
        &&& (x & 0x80 != 0) == (qr == 1)
        &&& (x >> 3u8) & 0x0F == op
        &&& (x & 0x04 != 0) == (aa == 1)
        &&& (x & 0x02 != 0) == (tc == 1)
        &&& (x & 0x01 != 0) == (rd == 1)
    }) by (bit_vector)
        requires
            qr <= 1 && aa <= 1 && tc <= 1 && rd <= 1,
            op < 16,
    ;
}

/// The low flag byte gives back the bits it was packed from.
pub proof fn lemma_flags_lo(ra: u8, z: u8, ad: u8, cd: u8, rc: u8)
    requires
        ra <= 1 && z <= 1 && ad <= 1 && cd <= 1,
        rc < 16,
    ensures
        ({
            let x = (ra << 7u8) | (z << 6u8) | (ad << 5u8) | (cd << 4u8) | (rc & 0x0F);
            &&& (x & 0x80 != 0) == (ra == 1)
            &&& (x & 0x40 != 0) == (z == 1)
            &&& (x & 0x20 != 0) == (ad == 1)
            &&& (x & 0x10 != 0) == (cd == 1)
            &&& x & 0x0F == rc
        }),
{
    assert({
        let x = (ra << 7u8) | (z << 6u8) | (ad << 5u8) | (cd << 4u8) | (rc & 0x0F);
        &&& (x & 0x80 != 0) == (ra == 1)
        &&& (x & 0x40 != 0) == (z == 1)
        &&& (x & 0x20 != 0) == (ad == 1)
        &&& (x & 0x10 != 0) == (cd == 1)
        &&& x & 0x0F == rc
    }) by (bit_vector)
        requires
            ra <= 1 && z <= 1 && ad <= 1 && cd <= 1,
            rc < 16,
    ;
}

/// Header round trip: wherever the wire form of an encodable header stands, it decodes
/// to that same header, every flag bit, the opcode, the response code and the counts.
pub proof fn lemma_header_round_trip(h: DnsHeader, d: Seq<u8>, p: int)
    requires
        header_encodable(h),
        0 <= p,
        p + HEADER_SIZE <= d.len(),
        d.subrange(p, p + HEADER_SIZE) == header_wire(h),
    ensures
        header_from(d, p) == h,
{
    let w = header_wire(h);
    let ws = seq![
        (h.packet_identifier / 256) as u8, (h.packet_identifier % 256) as u8, flags_hi(h), flags_lo(h),
        (h.question_count / 256) as u8, (h.question_count % 256) as u8,
        (h.answer_count / 256) as u8, (h.answer_count % 256) as u8,
        (h.authority_count / 256) as u8, (h.authority_count % 256) as u8,
        (h.additional_count / 256) as u8, (h.additional_count % 256) as u8,
    ];
    assert(w =~= ws);
    assert forall|k: int| 0 <= k < HEADER_SIZE implies d[p + k] == #[trigger] ws[k] by {
        assert(d[p + k] == d.subrange(p, p + HEADER_SIZE)[k]);
    }
    assert(d[p] == ws[0] && d[p + 1] == ws[1] && d[p + 2] == ws[2] && d[p + 3] == ws[3]);
    assert(d[p + 4] == ws[4] && d[p + 5] == ws[5] && d[p + 6] == ws[6] && d[p + 7] == ws[7]);
    assert(d[p + 8] == ws[8] && d[p + 9] == ws[9] && d[p + 10] == ws[10] && d[p + 11] == ws[11]);
    lemma_u16_round_trip(h.packet_identifier, d, p);
    lemma_u16_round_trip(h.question_count, d, p + 4);
    lemma_u16_round_trip(h.answer_count, d, p + 6);
    lemma_u16_round_trip(h.authority_count, d, p + 8);
    lemma_u16_round_trip(h.additional_count, d, p + 10);
    lemma_flags_hi(flag(h.query_response), h.operation_code, flag(h.authoritative_answer),
        flag(h.truncated_message), flag(h.recursion_desired));
    lemma_flags_lo(flag(h.recursion_available), flag(h.reserved), flag(h.authed_data),
        flag(h.checking_disabled), rcode_num(h.response_code));
    assert(d[p + 2] == flags_hi(h));
    assert(d[p + 3] == flags_lo(h));
}

} // verus!
