use vstd::prelude::*;
use crate::error::DnsError;
use crate::name::{
    decode_label, encode_name, lemma_name_text_push, name_text, name_wire, pointer_target,
    read_name, scan_name, valid_name, MAX_JUMPS,
};
use vstd::string::StringSliceAdditionalSpecFns;
use vstd::string::StringExecFns;

verus! {

/// Size of a DNS datagram without extensions.
pub const BUFFER_SIZE: usize = 512;

/// `s` laid over `d` from offset `p` on, the rest of `d` kept.
pub open spec fn splice(d: Seq<u8>, p: int, s: Seq<u8>) -> Seq<u8> {
    d.subrange(0, p) + s + d.subrange(p + s.len(), d.len() as int)
}

/// What `splice` holds at each offset.
pub proof fn lemma_splice_index(d: Seq<u8>, p: int, s: Seq<u8>)
    requires
        0 <= p,
        p + s.len() <= d.len(),
    ensures
        splice(d, p, s).len() == d.len(),
        forall|k: int| 0 <= k < d.len() ==> #[trigger] splice(d, p, s)[k]
            == if p <= k < p + s.len() { s[k - p] } else { d[k] },
{
}

/// Two adjacent splices are one splice of both.
pub proof fn lemma_splice_concat(d: Seq<u8>, p: int, s: Seq<u8>, t: Seq<u8>)
    requires
        0 <= p,
        p + s.len() + t.len() <= d.len(),
    ensures
        splice(splice(d, p, s), p + s.len(), t) == splice(d, p, s + t),
{
    lemma_splice_index(d, p, s);
    lemma_splice_index(splice(d, p, s), p + s.len(), t);
    lemma_splice_index(d, p, s + t);
    assert(splice(splice(d, p, s), p + s.len(), t) =~= splice(d, p, s + t));
}

/// A splice inside a spliced region rewrites that region.
pub proof fn lemma_splice_inner(d: Seq<u8>, p: int, s: Seq<u8>, q: int, t: Seq<u8>)
    requires
        0 <= p <= q,
        q + t.len() <= p + s.len(),
        p + s.len() <= d.len(),
    ensures
        splice(splice(d, p, s), q, t) == splice(d, p, splice(s, q - p, t)),
{
    lemma_splice_index(d, p, s);
    lemma_splice_index(splice(d, p, s), q, t);
    lemma_splice_index(s, q - p, t);
    lemma_splice_index(d, p, splice(s, q - p, t));
    assert(splice(splice(d, p, s), q, t) =~= splice(d, p, splice(s, q - p, t)));
}

/// Big-endian bytes of a 16-bit value.
pub open spec fn u16_bytes(v: u16) -> Seq<u8> {
    seq![(v / 256) as u8, (v % 256) as u8]
}

/// Big-endian bytes of a 32-bit value.
pub open spec fn u32_bytes(v: u32) -> Seq<u8> {
    seq![(v / 0x100_0000) as u8, ((v / 0x1_0000) % 256) as u8, ((v / 256) % 256) as u8, (v % 256) as u8]
}

/// The 16-bit big-endian value at offset `p`.
pub open spec fn be16(d: Seq<u8>, p: int) -> u16 {
    (d[p] as int * 256 + d[p + 1] as int) as u16
}

/// The 32-bit big-endian value at offset `p`.
pub open spec fn be32(d: Seq<u8>, p: int) -> u32 {
    (be16(d, p) as int * 0x1_0000 + be16(d, p + 2) as int) as u32
}

/// The outcome of a whole name scan, given the labels read before offset `p`, whether
/// a pointer was followed, the offset after that first pointer, and the scan from `p`.
pub open spec fn scan_outcome(
    acc: Seq<Seq<u8>>,
    jumped: bool,
    resume: int,
    rest: Result<(Seq<Seq<u8>>, int), DnsError>,
) -> Result<(Seq<Seq<u8>>, int), DnsError> {
    match rest {
        Ok((ls, end)) => Ok((acc + ls, if jumped { resume } else { end })),
        Err(e) => Err(e),
    }
}

/// What a checked write leaves: a failure writes nothing; `MalformedName` exactly when
/// the value cannot be encoded; else `BufferOverflow` exactly when `wire` does not fit;
/// else `wire` stands at the old cursor and the cursor is past it.
pub open spec fn write_outcome(
    before: PacketBuffer,
    after: PacketBuffer,
    r: Result<(), DnsError>,
    valid: bool,
    wire: Seq<u8>,
) -> bool {
    &&& after.wf()
    &&& !valid ==> r == Err::<(), DnsError>(DnsError::MalformedName)
    &&& valid && before.cursor() + wire.len() > BUFFER_SIZE ==> r == Err::<(), DnsError>(DnsError::BufferOverflow)
    &&& valid && before.cursor() + wire.len() <= BUFFER_SIZE ==> r is Ok
        && after.data() == splice(before.data(), before.cursor(), wire)
        && after.cursor() == before.cursor() + wire.len()
    &&& r is Err ==> after.data() == before.data() && after.cursor() == before.cursor()
}

/// A fixed-capacity octet buffer with a read/write cursor.
pub struct PacketBuffer {
    buff: Vec<u8>,
    pos: usize,
}

impl PacketBuffer {
    /// The buffer's octets.
    pub closed spec fn data(&self) -> Seq<u8> {
        self.buff@
    }

    /// The cursor.
    pub closed spec fn cursor(&self) -> int {
        self.pos as int
    }

    pub open spec fn wf(&self) -> bool {
        &&& self.data().len() == BUFFER_SIZE
        &&& 0 <= self.cursor() <= BUFFER_SIZE
    }

    /// An all-zero buffer with the cursor at the start.
    pub fn new() -> (r: Self)
        ensures
            r.wf(),
            r.data() == Seq::new(BUFFER_SIZE as nat, |i: int| 0u8),
            r.cursor() == 0,
    {
        let buff: Vec<u8> = vec![0u8; BUFFER_SIZE];
        let r = Self { buff, pos: 0 };
        assert(r.data() =~= Seq::new(BUFFER_SIZE as nat, |i: int| 0u8));
        r
    }

    /// A buffer holding a received datagram, zero-filled after it.
    pub fn from_datagram(bytes: &[u8]) -> (r: Result<Self, DnsError>)
        ensures
            bytes@.len() > BUFFER_SIZE ==> r == Err::<Self, DnsError>(DnsError::BufferOverflow),
            bytes@.len() <= BUFFER_SIZE ==> r is Ok && r->Ok_0.wf() && r->Ok_0.cursor() == 0
                && r->Ok_0.data() == bytes@ + Seq::new((BUFFER_SIZE - bytes@.len()) as nat, |i: int| 0u8),
    {
        if bytes.len() > BUFFER_SIZE {
            return Err(DnsError::BufferOverflow);
        }
        let mut buff: Vec<u8> = Vec::new();
        let mut i: usize = 0;
        while i < BUFFER_SIZE
            invariant
                bytes@.len() <= BUFFER_SIZE,
                i <= BUFFER_SIZE,
                buff@.len() == i,
                forall|k: int| 0 <= k < i ==> buff@[k] == (if k < bytes@.len() { bytes@[k] } else { 0u8 }),
            decreases BUFFER_SIZE - i,
        {
            if i < bytes.len() {
                buff.push(bytes[i]);
            } else {
                buff.push(0u8);
            }
            i = i + 1;
        }
        let r = Self { buff, pos: 0 };
        assert(r.data() =~= bytes@ + Seq::new((BUFFER_SIZE - bytes@.len()) as nat, |i: int| 0u8));
        Ok(r)
    }

    /// A copy of the buffer.
    pub fn duplicate(&self) -> (r: Self)
        ensures
            r.data() == self.data(),
            r.cursor() == self.cursor(),
    {
        PacketBuffer { buff: self.buff.clone(), pos: self.pos }
    }

    pub fn get_pos(&self) -> (r: usize)
        ensures
            r == self.cursor(),
    {
        self.pos
    }

    /// The `len` octets from offset `start` on.
    pub fn get_range(&self, start: usize, len: usize) -> (r: Result<Vec<u8>, DnsError>)
        requires
            self.wf(),
        ensures
            start + len <= BUFFER_SIZE ==> r is Ok && r->Ok_0@ == self.data().subrange(start as int, start + len),
            start + len > BUFFER_SIZE ==> r == Err::<Vec<u8>, DnsError>(DnsError::BufferOverflow),
    {
        if start > BUFFER_SIZE || len > BUFFER_SIZE - start {
            return Err(DnsError::BufferOverflow);
        }
        let mut out: Vec<u8> = Vec::new();
        let mut i: usize = start;
        while i < start + len
            invariant
                self.wf(),
                start <= i <= start + len <= BUFFER_SIZE,
                out@ == self.data().subrange(start as int, i as int),
            decreases start + len - i,
        {
            out.push(self.buff[i]);
            i = i + 1;
            assert(out@ =~= self.data().subrange(start as int, i as int));
        }
        Ok(out)
    }

    /// Overwrites the octet at `pos` without moving the cursor.
    pub fn set(&mut self, pos: usize, val: u8) -> (r: Result<(), DnsError>)
        requires
            old(self).wf(),
        ensures
            final(self).wf(),
            final(self).cursor() == old(self).cursor(),
            pos < BUFFER_SIZE ==> r is Ok && final(self).data() == old(self).data().update(pos as int, val),
            pos >= BUFFER_SIZE ==> r == Err::<(), DnsError>(DnsError::BufferOverflow) && final(self).data() == old(self).data(),
    {
        if pos >= BUFFER_SIZE {
            return Err(DnsError::BufferOverflow);
        }
        self.buff.set(pos, val);
        Ok(())
    }

    /// Overwrites two octets at `pos`, big-endian, without moving the cursor.
    pub fn set_u16(&mut self, pos: usize, val: u16) -> (r: Result<(), DnsError>)
        requires
            old(self).wf(),
        ensures
            final(self).wf(),
            final(self).cursor() == old(self).cursor(),
            pos + 2 <= BUFFER_SIZE ==> r is Ok && final(self).data() == splice(old(self).data(), pos as int, u16_bytes(val)),
            pos + 2 > BUFFER_SIZE ==> r == Err::<(), DnsError>(DnsError::BufferOverflow) && final(self).data() == old(self).data(),
    {
        if pos >= BUFFER_SIZE - 1 {
            return Err(DnsError::BufferOverflow);
        }
        let _ = self.set(pos, (val / 256) as u8);
        let _ = self.set(pos + 1, (val % 256) as u8);
        assert(self.data() =~= splice(old(self).data(), pos as int, u16_bytes(val)));
        Ok(())
    }

    pub fn set_pos(&mut self, new_pos: usize)
        requires
            old(self).wf(),
            new_pos <= BUFFER_SIZE,
        ensures
            final(self).wf(),
            final(self).data() == old(self).data(),
            final(self).cursor() == new_pos,
    {
        self.pos = new_pos;
    }

    /// Skips `step` octets.
    pub fn step_pos(&mut self, step: usize) -> (r: Result<(), DnsError>)
        requires
            old(self).wf(),
        ensures
            final(self).wf(),
            final(self).data() == old(self).data(),
            old(self).cursor() + step <= BUFFER_SIZE ==> r is Ok && final(self).cursor() == old(self).cursor() + step,
            old(self).cursor() + step > BUFFER_SIZE ==> r == Err::<(), DnsError>(DnsError::BufferOverflow)
                && final(self).cursor() == old(self).cursor(),
    {
        if step > BUFFER_SIZE - self.pos {
            return Err(DnsError::BufferOverflow);
        }
        self.pos = self.pos + step;
        Ok(())
    }

    /// Writes one octet at the cursor and advances it.
    pub fn write(&mut self, data: u8) -> (r: Result<(), DnsError>)
        requires
            old(self).wf(),
        ensures
            final(self).wf(),
            old(self).cursor() < BUFFER_SIZE ==> r is Ok
                && final(self).data() == splice(old(self).data(), old(self).cursor(), seq![data])
                && final(self).cursor() == old(self).cursor() + 1,
            old(self).cursor() >= BUFFER_SIZE ==> r == Err::<(), DnsError>(DnsError::BufferOverflow)
                && *final(self) == *old(self),
    {
        if self.pos >= BUFFER_SIZE {
            return Err(DnsError::BufferOverflow);
        }
        self.buff.set(self.pos, data);
        self.pos = self.pos + 1;
        assert(self.data() =~= splice(old(self).data(), old(self).cursor(), seq![data]));
        Ok(())
    }

    pub fn write_u8(&mut self, data: u8) -> (r: Result<(), DnsError>)
        requires
            old(self).wf(),
        ensures
            final(self).wf(),
            old(self).cursor() < BUFFER_SIZE ==> r is Ok
                && final(self).data() == splice(old(self).data(), old(self).cursor(), seq![data])
                && final(self).cursor() == old(self).cursor() + 1,
            old(self).cursor() >= BUFFER_SIZE ==> r == Err::<(), DnsError>(DnsError::BufferOverflow)
                && *final(self) == *old(self),
    {
        self.write(data)
    }

    /// Writes `bytes` at the cursor and advances past them, or fails with nothing written.
    pub fn write_bytes(&mut self, bytes: &[u8]) -> (r: Result<(), DnsError>)
        requires
            old(self).wf(),
        ensures
            final(self).wf(),
            old(self).cursor() + bytes@.len() <= BUFFER_SIZE ==> r is Ok
                && final(self).data() == splice(old(self).data(), old(self).cursor(), bytes@)
                && final(self).cursor() == old(self).cursor() + bytes@.len(),
            old(self).cursor() + bytes@.len() > BUFFER_SIZE ==> r == Err::<(), DnsError>(DnsError::BufferOverflow)
                && *final(self) == *old(self),
    {
        if bytes.len() > BUFFER_SIZE - self.pos {
            return Err(DnsError::BufferOverflow);
        }
        let start: usize = self.pos;
        let mut i: usize = 0;
        while i < bytes.len()
            invariant
                self.wf(),
                old(self).wf(),
                start == old(self).cursor(),
                start + bytes@.len() <= BUFFER_SIZE,
                i <= bytes@.len(),
                self.cursor() == start + i,
                self.data() == splice(old(self).data(), start as int, bytes@.subrange(0, i as int)),
            decreases bytes@.len() - i,
        {
            let ghost prev = self.data();
            self.buff.set(self.pos, bytes[i]);
            self.pos = self.pos + 1;
            i = i + 1;
            assert(self.data() == prev.update(start + i - 1, bytes@[i - 1]));
            proof {
                lemma_splice_index(old(self).data(), start as int, bytes@.subrange(0, i - 1));
                lemma_splice_index(old(self).data(), start as int, bytes@.subrange(0, i as int));
            }
            assert(self.data() =~= splice(old(self).data(), start as int, bytes@.subrange(0, i as int)));
        }
        assert(bytes@.subrange(0, bytes@.len() as int) =~= bytes@);
        Ok(())
    }

    pub fn write_u16(&mut self, data: u16) -> (r: Result<(), DnsError>)
        requires
            old(self).wf(),
        ensures
            final(self).wf(),
            old(self).cursor() + 2 <= BUFFER_SIZE ==> r is Ok
                && final(self).data() == splice(old(self).data(), old(self).cursor(), u16_bytes(data))
                && final(self).cursor() == old(self).cursor() + 2,
            old(self).cursor() + 2 > BUFFER_SIZE ==> r == Err::<(), DnsError>(DnsError::BufferOverflow)
                && *final(self) == *old(self),
    {
        let bytes: [u8; 2] = [(data / 256) as u8, (data % 256) as u8];
        let r = self.write_bytes(&bytes);
        assert(bytes@ =~= u16_bytes(data));
        r
    }

    pub fn write_u32(&mut self, data: u32) -> (r: Result<(), DnsError>)
        requires
            old(self).wf(),
        ensures
            final(self).wf(),
            old(self).cursor() + 4 <= BUFFER_SIZE ==> r is Ok
                && final(self).data() == splice(old(self).data(), old(self).cursor(), u32_bytes(data))
                && final(self).cursor() == old(self).cursor() + 4,
            old(self).cursor() + 4 > BUFFER_SIZE ==> r == Err::<(), DnsError>(DnsError::BufferOverflow)
                && *final(self) == *old(self),
    {
        let bytes: [u8; 4] = [
            (data / 0x100_0000) as u8,
            ((data / 0x1_0000) % 256) as u8,
            ((data / 256) % 256) as u8,
            (data % 256) as u8,
        ];
        let r = self.write_bytes(&bytes);
        assert(bytes@ =~= u32_bytes(data));
        r
    }

    /// Reads one octet at the cursor and advances it.
    pub fn read(&mut self) -> (r: Result<u8, DnsError>)
        requires
            old(self).wf(),
        ensures
            final(self).wf(),
            final(self).data() == old(self).data(),
            old(self).cursor() < BUFFER_SIZE ==> r == Ok::<u8, DnsError>(old(self).data()[old(self).cursor()])
                && final(self).cursor() == old(self).cursor() + 1,
            old(self).cursor() >= BUFFER_SIZE ==> r == Err::<u8, DnsError>(DnsError::BufferOverflow)
                && final(self).cursor() == old(self).cursor(),
    {
        if self.pos >= BUFFER_SIZE {
            return Err(DnsError::BufferOverflow);
        }
        let b = self.buff[self.pos];
        self.pos = self.pos + 1;
        Ok(b)
    }

    pub fn read_u16(&mut self) -> (r: Result<u16, DnsError>)
        requires
            old(self).wf(),
        ensures
            final(self).wf(),
            final(self).data() == old(self).data(),
            old(self).cursor() + 2 <= BUFFER_SIZE ==> r == Ok::<u16, DnsError>(be16(old(self).data(), old(self).cursor()))
                && final(self).cursor() == old(self).cursor() + 2,
            old(self).cursor() + 2 > BUFFER_SIZE ==> r == Err::<u16, DnsError>(DnsError::BufferOverflow)
                && final(self).cursor() == old(self).cursor(),
    {
        if self.pos >= BUFFER_SIZE - 1 {
            return Err(DnsError::BufferOverflow);
        }
        let hi = self.buff[self.pos];
        let lo = self.buff[self.pos + 1];
        self.pos = self.pos + 2;
        Ok((hi as u16) * 256 + (lo as u16))
    }

    pub fn read_u32(&mut self) -> (r: Result<u32, DnsError>)
        requires
            old(self).wf(),
        ensures
            final(self).wf(),
            final(self).data() == old(self).data(),
            old(self).cursor() + 4 <= BUFFER_SIZE ==> r == Ok::<u32, DnsError>(be32(old(self).data(), old(self).cursor()))
                && final(self).cursor() == old(self).cursor() + 4,
            old(self).cursor() + 4 > BUFFER_SIZE ==> r == Err::<u32, DnsError>(DnsError::BufferOverflow)
                && final(self).cursor() == old(self).cursor(),
    {
        if self.pos > BUFFER_SIZE - 4 {
            return Err(DnsError::BufferOverflow);
        }
        let hi = self.read_u16();
        let lo = self.read_u16();
        match (hi, lo) {
            (Ok(h), Ok(l)) => Ok((h as u32) * 0x1_0000 + (l as u32)),
            _ => Err(DnsError::BufferOverflow),
        }
    }

    /// Decodes the (possibly compressed) name at the cursor, lowercased, and moves
    /// the cursor past it: after the first pointer where one is followed.
    pub fn get_qname(&mut self) -> (r: Result<String, DnsError>)
        requires
            old(self).wf(),
        ensures
            final(self).wf(),
            final(self).data() == old(self).data(),
            match read_name(old(self).data(), old(self).cursor()) {
                Ok((text, end)) => r is Ok && r->Ok_0@ == text && final(self).cursor() == end,
                Err(e) => r == Err::<String, DnsError>(e),
            },
    {
        let ghost d = self.data();
        let ghost start = self.cursor();
        let mut qname = String::new();
        let mut pos: usize = self.pos;
        let mut jumped = false;
        let mut jumps: usize = 0;
        let mut first = true;
        let ghost mut acc: Seq<Seq<u8>> = seq![];
        let ghost mut resume: int = 0;
        proof {
            assert(acc + seq![] =~= acc);
        }
        loop
            invariant
                self.wf(),
                self.data() == d,
                d == old(self).data(),
                start == old(self).cursor(),
                jumps <= MAX_JUMPS,
                first == (acc.len() == 0),
                qname@ == name_text(acc),
                jumped ==> self.cursor() == resume,
                !jumped ==> self.cursor() == start,
                scan_name(d, start, 0) == scan_outcome(acc, jumped, resume, scan_name(d, pos as int, jumps as nat)),
            decreases MAX_JUMPS - jumps, BUFFER_SIZE - pos,
        {
            if pos >= BUFFER_SIZE {
                return Err(DnsError::BufferOverflow);
            }
            let len = self.buff[pos];
            if len >= 0xC0 {
                if jumps >= MAX_JUMPS {
                    return Err(DnsError::MalformedName);
                }
                if pos + 1 >= BUFFER_SIZE {
                    return Err(DnsError::BufferOverflow);
                }
                let ghost before = scan_name(d, pos as int, jumps as nat);
                if !jumped {
                    self.pos = pos + 2;
                    proof {
                        resume = pos + 2;
                    }
                }
                let b2 = self.buff[pos + 1];
                let ghost old_pos = pos as int;
                pos = ((len - 0xC0) as usize) * 256 + (b2 as usize);
                assert(pos == pointer_target(d, old_pos));
                jumped = true;
                jumps = jumps + 1;
            } else if len == 0 {
                if !jumped {
                    self.pos = pos + 1;
                }
                proof {
                    assert(acc + seq![] =~= acc);
                }
                return Ok(qname);
            } else {
                let lstart = pos + 1;
                if len as usize > BUFFER_SIZE - lstart {
                    return Err(DnsError::BufferOverflow);
                }
                let label = match self.get_range(lstart, len as usize) {
                    Ok(v) => v,
                    Err(e) => {
                        return Err(e);
                    },
                };
                let text = decode_label(label.as_slice());
                proof {
                    reveal_strlit(".");
                }
                if !first {
                    qname.append(".");
                }
                qname.append(text.as_str());
                proof {
                    lemma_name_text_push(acc, label@);
                    let next = scan_name(d, pos + 1 + len, jumps as nat);
                    match next {
                        Ok((ls, end)) => {
                            assert(acc + (seq![label@] + ls) =~= acc.push(label@) + ls);
                        },
                        Err(e) => {},
                    }
                    acc = acc.push(label@);
                }
                first = false;
                pos = lstart + len as usize;
            }
        }
    }

    /// Writes `name` as length-prefixed labels and a zero byte at the cursor.
    pub fn write_qname(&mut self, name: &str) -> (r: Result<(), DnsError>)
        requires
            old(self).wf(),
        ensures
            final(self).wf(),
            !valid_name(name.spec_bytes()) ==> r == Err::<(), DnsError>(DnsError::MalformedName)
                && *final(self) == *old(self),
            valid_name(name.spec_bytes()) && old(self).cursor() + name_wire(name.spec_bytes()).len() > BUFFER_SIZE
                ==> r == Err::<(), DnsError>(DnsError::BufferOverflow) && *final(self) == *old(self),
            valid_name(name.spec_bytes()) && old(self).cursor() + name_wire(name.spec_bytes()).len() <= BUFFER_SIZE
                ==> r is Ok && final(self).data() == splice(old(self).data(), old(self).cursor(), name_wire(name.spec_bytes()))
                && final(self).cursor() == old(self).cursor() + name_wire(name.spec_bytes()).len(),
    {
        match encode_name(name) {
            Ok(wire) => self.write_bytes(wire.as_slice()),
            Err(e) => Err(e),
        }
    }
}

} // verus!
