use vstd::prelude::*;
use vstd::utf8::{encode_utf8, is_ascii_chars, is_ascii_chars_encode_utf8};
use crate::error::DnsError;
use crate::name::{
    ascii_bytes, ascii_lower_char, joined, label_text, labels_of, lemma_scan_wire,
    lemma_split_len, name_text, read_name, split_labels, DOT,
};
use crate::header::{header_encodable, lemma_header_round_trip, lemma_u16_round_trip, HEADER_SIZE};
use crate::packet::{
    counted, lemma_questions_wire_concat, lemma_records_wire_concat, packet_wire, questions_wire, read_packet,
    read_questions, read_records, records_wire, PacketModel,
};
use crate::packet_buffer::{be16, be32, lemma_splice_index, splice, u16_bytes, u32_bytes, BUFFER_SIZE};
use crate::query_type::{canonical_type, lemma_type_code_round_trip, type_code};
use crate::question::{question_wire, read_question, text_valid, text_wire, QuestionModel};
use crate::record::{ipv4_bytes, ipv6_bytes, read_record, record_prefix, record_wire, sized, RecordModel};

verus! {

/// A name given as text that reads back as itself: ASCII without uppercase letters,
/// and encodable.
pub open spec fn canonical_text(s: Seq<char>) -> bool {
    &&& is_ascii_chars(s)
    &&& forall|i: int| 0 <= i < s.len() ==> !('A' <= #[trigger] s[i] <= 'Z')
    &&& text_valid(s)
}

/// Where `a + b` stands at `t`, `a` stands at `t` and `b` right after it.
pub proof fn lemma_subrange_split(d: Seq<u8>, t: int, a: Seq<u8>, b: Seq<u8>)
    requires
        0 <= t,
        t + a.len() + b.len() <= d.len(),
        d.subrange(t, t + a.len() + b.len()) == a + b,
    ensures
        d.subrange(t, t + a.len()) == a,
        d.subrange(t + a.len(), t + a.len() + b.len()) == b,
{
    assert forall|i: int| 0 <= i < a.len() implies d.subrange(t, t + a.len())[i] == a[i] by {
        assert(d.subrange(t, t + a.len() + b.len())[i] == (a + b)[i]);
    }
    assert forall|i: int| 0 <= i < b.len() implies d.subrange(t + a.len(), t + a.len() + b.len())[i] == b[i] by {
        assert(d.subrange(t, t + a.len() + b.len())[a.len() + i] == (a + b)[a.len() + i]);
        assert(d.subrange(t + a.len(), t + a.len() + b.len())[i] == d[t + a.len() + i]);
        assert(d.subrange(t, t + a.len() + b.len())[a.len() + i] == d[t + a.len() + i]);
    }
    assert(d.subrange(t, t + a.len()) =~= a);
    assert(d.subrange(t + a.len(), t + a.len() + b.len()) =~= b);
}

/// Joining the pieces of a split gives back what was split.
pub proof fn lemma_join_split(b: Seq<u8>)
    ensures
        joined(split_labels(b), DOT) == b,
    decreases b.len(),
{
    if b.len() == 0 {
        assert(joined(split_labels(b), DOT) =~= b);
    } else {
        let t = b.drop_first();
        let r = split_labels(t);
        lemma_split_len(t);
        lemma_join_split(t);
        if b[0] == DOT {
            let s = seq![Seq::<u8>::empty()] + r;
            assert(s.drop_first() =~= r);
            assert(joined(s, DOT) =~= b);
        } else {
            let s = seq![seq![b[0]] + r[0]] + r.drop_first();
            if r.len() == 1 {
                assert(r.drop_first() =~= Seq::<Seq<u8>>::empty());
                assert(s =~= seq![seq![b[0]] + r[0]]);
                assert(joined(r, DOT) == r[0]);
                assert(joined(s, DOT) == s[0]);
                assert(r[0] == t);
                assert(seq![b[0]] + t =~= b);
            } else {
                assert(s.drop_first() =~= r.drop_first());
                assert(s.len() >= 2);
                assert(joined(s, DOT) == s[0] + seq![DOT] + joined(s.drop_first(), DOT));
                assert(joined(r, DOT) == r[0] + seq![DOT] + joined(r.drop_first(), DOT));
                assert(seq![b[0]] + t =~= b);
                assert(joined(s, DOT) =~= b);
            }
        }
    }
}

/// The pieces of an ASCII sequence are ASCII.
pub proof fn lemma_split_ascii(b: Seq<u8>)
    requires
        ascii_bytes(b),
    ensures
        forall|i: int| 0 <= i < split_labels(b).len() ==> ascii_bytes(#[trigger] split_labels(b)[i]),
    decreases b.len(),
{
    if b.len() > 0 {
        let t = b.drop_first();
        assert forall|i: int| 0 <= i < t.len() implies #[trigger] t[i] < 128 by {
            assert(t[i] == b[i + 1]);
        }
        lemma_split_ascii(t);
        lemma_split_len(t);
        let r = split_labels(t);
        let s = split_labels(b);
        assert forall|i: int| 0 <= i < s.len() implies ascii_bytes(#[trigger] s[i]) by {
            if b[0] == DOT {
                if i > 0 {
                    assert(s[i] == r[i - 1]);
                }
            } else if i == 0 {
                assert(ascii_bytes(r[0]));
                assert(s[0] == seq![b[0]] + r[0]);
                assert forall|k: int| 0 <= k < s[0].len() implies #[trigger] s[0][k] < 128 by {
                    if k > 0 {
                        assert(s[0][k] == r[0][k - 1]);
                    }
                }
            } else {
                assert(s[i] == r[i]);
            }
        }
    }
}

/// For ASCII labels, joining the decoded texts is decoding the joined bytes.
pub proof fn lemma_joined_text(ls: Seq<Seq<u8>>)
    requires
        forall|i: int| 0 <= i < ls.len() ==> ascii_bytes(#[trigger] ls[i]),
    ensures
        name_text(ls) == joined(ls, DOT).map_values(|b: u8| ascii_lower_char(b)),
    decreases ls.len(),
{
    let f = |x: Seq<u8>| label_text(x);
    let g = |b: u8| ascii_lower_char(b);
    let m = ls.map_values(f);
    vstd::utf8::char_u32_cast('.', 46);
    assert(ascii_lower_char(DOT) == '.');
    if ls.len() == 0 {
        assert(name_text(ls) =~= joined(ls, DOT).map_values(g));
    } else if ls.len() == 1 {
        assert(ascii_bytes(ls[0]));
        assert(name_text(ls) =~= joined(ls, DOT).map_values(g));
    } else {
        let rest = ls.drop_first();
        assert forall|i: int| 0 <= i < rest.len() implies ascii_bytes(#[trigger] rest[i]) by {
            assert(rest[i] == ls[i + 1]);
        }
        lemma_joined_text(rest);
        assert(m.drop_first() =~= rest.map_values(f));
        assert(ascii_bytes(ls[0]));
        assert(m[0] == ls[0].map_values(g));
        assert(name_text(ls) =~= joined(ls, DOT).map_values(g));
    }
}

/// A canonical name, wherever its wire form stands, reads back as itself and ends
/// where its wire form ends.
pub proof fn lemma_text_round_trip(d: Seq<u8>, t: int, s: Seq<char>)
    requires
        canonical_text(s),
        0 <= t,
        t + text_wire(s).len() <= d.len(),
        d.subrange(t, t + text_wire(s).len()) == text_wire(s),
    ensures
        read_name(d, t) == Ok::<(Seq<char>, int), DnsError>((s, t + text_wire(s).len())),
{
    let b = encode_utf8(s);
    is_ascii_chars_encode_utf8(s);
    let ls = labels_of(b);
    lemma_scan_wire(d, t, 0, ls);
    assert forall|i: int| 0 <= i < b.len() implies #[trigger] b[i] < 128 by {
        assert(s[i] as u8 == b[i]);
    }
    if b.len() > 0 {
        lemma_split_ascii(b);
        lemma_join_split(b);
    } else {
        assert(joined(ls, DOT) =~= b);
    }
    lemma_joined_text(ls);
    assert forall|i: int| 0 <= i < s.len() implies #[trigger] ascii_lower_char(b[i]) == s[i] by {
        assert(s[i] as u8 == b[i]);
        assert(!('A' <= s[i] <= 'Z'));
        vstd::utf8::char_u32_cast(s[i], s[i] as u32);
    }
    assert(b.map_values(|x: u8| ascii_lower_char(x)) =~= s);
}

/// A piece of what stands at `t` stands at the matching offset.
pub proof fn lemma_piece_at(d: Seq<u8>, t: int, w: Seq<u8>, k: int, piece: Seq<u8>)
    requires
        0 <= t,
        t + w.len() <= d.len(),
        d.subrange(t, t + w.len()) == w,
        0 <= k,
        k + piece.len() <= w.len(),
        w.subrange(k, k + piece.len()) == piece,
    ensures
        d.subrange(t + k, t + k + piece.len()) == piece,
{
    assert forall|i: int| 0 <= i < piece.len() implies d.subrange(t + k, t + k + piece.len())[i] == piece[i] by {
        assert(d.subrange(t, t + w.len())[k + i] == w[k + i]);
        assert(w.subrange(k, k + piece.len())[i] == w[k + i]);
    }
    assert(d.subrange(t + k, t + k + piece.len()) =~= piece);
}

pub proof fn lemma_u16_at(d: Seq<u8>, p: int, v: u16)
    requires
        0 <= p,
        p + 2 <= d.len(),
        d.subrange(p, p + 2) == u16_bytes(v),
    ensures
        be16(d, p) == v,
{
    assert(d[p] == d.subrange(p, p + 2)[0]);
    assert(d[p + 1] == d.subrange(p, p + 2)[1]);
    lemma_u16_round_trip(v, d, p);
}

pub proof fn lemma_u32_at(d: Seq<u8>, p: int, v: u32)
    requires
        0 <= p,
        p + 4 <= d.len(),
        d.subrange(p, p + 4) == u32_bytes(v),
    ensures
        be32(d, p) == v,
{
    let s = d.subrange(p, p + 4);
    assert(d[p] == s[0] && d[p + 1] == s[1] && d[p + 2] == s[2] && d[p + 3] == s[3]);
    let hi = (v / 0x1_0000) as u16;
    let lo = (v % 0x1_0000) as u16;
    assert(hi / 256 == v / 0x100_0000 && hi % 256 == (v / 0x1_0000) % 256) by (nonlinear_arith)
        requires
            hi == v / 0x1_0000,
    ;
    assert(lo / 256 == (v / 256) % 256 && lo % 256 == v % 256) by (nonlinear_arith)
        requires
            lo == v % 0x1_0000,
    ;
    lemma_u16_round_trip(hi, d, p);
    lemma_u16_round_trip(lo, d, p + 2);
    assert(hi as int * 0x1_0000 + lo as int == v) by (nonlinear_arith)
        requires
            hi == v / 0x1_0000,
            lo == v % 0x1_0000,
    ;
}

pub open spec fn canonical_question(q: QuestionModel) -> bool {
    canonical_text(q.name) && canonical_type(q.qtype)
}

/// A canonical question reads back as itself.
pub proof fn lemma_question_round_trip(d: Seq<u8>, t: int, q: QuestionModel)
    requires
        canonical_question(q),
        0 <= t,
        t + question_wire(q).len() <= d.len(),
        d.subrange(t, t + question_wire(q).len()) == question_wire(q),
    ensures
        read_question(d, t) == Ok::<(QuestionModel, int), DnsError>((q, t + question_wire(q).len())),
{
    let w = question_wire(q);
    let tw = text_wire(q.name);
    let code = type_code(q.qtype);
    assert(w.subrange(0, tw.len() as int) =~= tw);
    lemma_piece_at(d, t, w, 0, tw);
    lemma_text_round_trip(d, t, q.name);
    assert(w.subrange(tw.len() as int, tw.len() + 2int) =~= u16_bytes(code));
    lemma_piece_at(d, t, w, tw.len() as int, u16_bytes(code));
    lemma_u16_at(d, t + tw.len(), code);
    lemma_type_code_round_trip(code, q.qtype);
}

/// A record whose names are canonical and whose type is one of the five known.
pub open spec fn canonical_record(m: RecordModel) -> bool {
    match m {
        RecordModel::UNKNOWN { .. } => false,
        RecordModel::A { domain, .. } => canonical_text(domain),
        RecordModel::NS { domain, host, .. } => canonical_text(domain) && canonical_text(host),
        RecordModel::CNAME { domain, host, .. } => canonical_text(domain) && canonical_text(host),
        RecordModel::MX { domain, host, .. } => canonical_text(domain) && canonical_text(host),
        RecordModel::AAAA { domain, .. } => canonical_text(domain),
    }
}

/// The owner name, type, class and TTL read back; `rdata` follows the length field.
proof fn lemma_prefix_at(d: Seq<u8>, t: int, domain: Seq<char>, code: u16, ttl: u32, rdata: Seq<u8>)
    requires
        canonical_text(domain),
        0 <= t,
        t + (record_prefix(domain, code, ttl) + sized(rdata)).len() <= d.len(),
        d.subrange(t, t + (record_prefix(domain, code, ttl) + sized(rdata)).len()) == record_prefix(domain, code, ttl)
            + sized(rdata),
        rdata.len() < 0x1_0000,
    ensures
        ({
            let q = t + text_wire(domain).len();
            &&& read_name(d, t) == Ok::<(Seq<char>, int), DnsError>((domain, q))
            &&& q + 10 <= d.len()
            &&& be16(d, q) == code
            &&& be32(d, q + 4) == ttl
            &&& be16(d, q + 8) == rdata.len()
            &&& d.subrange(q + 10, q + 10 + rdata.len()) == rdata
        }),
{
    let w = record_prefix(domain, code, ttl) + sized(rdata);
    let tw = text_wire(domain);
    let k = tw.len() as int;
    assert(w.subrange(0, k) =~= tw);
    lemma_piece_at(d, t, w, 0, tw);
    lemma_text_round_trip(d, t, domain);
    assert(w.subrange(k, k + 2) =~= u16_bytes(code));
    lemma_piece_at(d, t, w, k, u16_bytes(code));
    lemma_u16_at(d, t + k, code);
    assert(w.subrange(k + 4, k + 8) =~= u32_bytes(ttl));
    lemma_piece_at(d, t, w, k + 4, u32_bytes(ttl));
    lemma_u32_at(d, t + k + 4, ttl);
    assert(w.subrange(k + 8, k + 10) =~= u16_bytes(rdata.len() as u16));
    lemma_piece_at(d, t, w, k + 8, u16_bytes(rdata.len() as u16));
    lemma_u16_at(d, t + k + 8, rdata.len() as u16);
    assert(w.subrange(k + 10, k + 10 + rdata.len()) =~= rdata);
    lemma_piece_at(d, t, w, k + 10, rdata);
}

proof fn lemma_a_round_trip(d: Seq<u8>, t: int, domain: Seq<char>, addr: crate::record::Ipv4Address, ttl: u32)
    requires
        canonical_text(domain),
        0 <= t,
        t + (record_prefix(domain, 1, ttl) + sized(ipv4_bytes(addr))).len() <= d.len(),
        d.subrange(t, t + (record_prefix(domain, 1, ttl) + sized(ipv4_bytes(addr))).len()) == record_prefix(
            domain,
            1,
            ttl,
        ) + sized(ipv4_bytes(addr)),
    ensures
        read_record(d, t) == Ok::<(RecordModel, int), DnsError>((
            RecordModel::A { domain, addr, ttl },
            t + (record_prefix(domain, 1, ttl) + sized(ipv4_bytes(addr))).len(),
        )),
{
    reveal(read_record);
    let rd = ipv4_bytes(addr);
    lemma_prefix_at(d, t, domain, 1, ttl, rd);
    let r = t + text_wire(domain).len() + 10;
    let s = d.subrange(r, r + 4);
    assert(d[r] == s[0] && d[r + 1] == s[1] && d[r + 2] == s[2] && d[r + 3] == s[3]);
}

proof fn lemma_host_round_trip(d: Seq<u8>, t: int, domain: Seq<char>, code: u16, host: Seq<char>, ttl: u32)
    requires
        code == 2 || code == 5,
        canonical_text(domain),
        canonical_text(host),
        0 <= t,
        (record_prefix(domain, code, ttl) + sized(text_wire(host))).len() < 0x1_0000,
        t + (record_prefix(domain, code, ttl) + sized(text_wire(host))).len() <= d.len(),
        d.subrange(t, t + (record_prefix(domain, code, ttl) + sized(text_wire(host))).len()) == record_prefix(
            domain,
            code,
            ttl,
        ) + sized(text_wire(host)),
    ensures
        read_record(d, t) == Ok::<(RecordModel, int), DnsError>((
            if code == 2 {
                RecordModel::NS { domain, host, ttl }
            } else {
                RecordModel::CNAME { domain, host, ttl }
            },
            t + (record_prefix(domain, code, ttl) + sized(text_wire(host))).len(),
        )),
{
    reveal(read_record);
    let rd = text_wire(host);
    lemma_prefix_at(d, t, domain, code, ttl, rd);
    let r = t + text_wire(domain).len() + 10;
    lemma_text_round_trip(d, r, host);
}

proof fn lemma_mx_round_trip(d: Seq<u8>, t: int, domain: Seq<char>, priority: u16, host: Seq<char>, ttl: u32)
    requires
        canonical_text(domain),
        canonical_text(host),
        0 <= t,
        (record_prefix(domain, 15, ttl) + sized(u16_bytes(priority) + text_wire(host))).len() < 0x1_0000,
        t + (record_prefix(domain, 15, ttl) + sized(u16_bytes(priority) + text_wire(host))).len() <= d.len(),
        d.subrange(t, t + (record_prefix(domain, 15, ttl) + sized(u16_bytes(priority) + text_wire(host))).len())
            == record_prefix(domain, 15, ttl) + sized(u16_bytes(priority) + text_wire(host)),
    ensures
        read_record(d, t) == Ok::<(RecordModel, int), DnsError>((
            RecordModel::MX { domain, priority, host, ttl },
            t + (record_prefix(domain, 15, ttl) + sized(u16_bytes(priority) + text_wire(host))).len(),
        )),
{
    reveal(read_record);
    let rd = u16_bytes(priority) + text_wire(host);
    lemma_prefix_at(d, t, domain, 15, ttl, rd);
    let r = t + text_wire(domain).len() + 10;
    assert(rd.subrange(0, 2) =~= u16_bytes(priority));
    lemma_piece_at(d, r, rd, 0, u16_bytes(priority));
    lemma_u16_at(d, r, priority);
    assert(rd.subrange(2, rd.len() as int) =~= text_wire(host));
    lemma_piece_at(d, r, rd, 2, text_wire(host));
    lemma_text_round_trip(d, r + 2, host);
}

proof fn lemma_aaaa_round_trip(d: Seq<u8>, t: int, domain: Seq<char>, addr: crate::record::Ipv6Address, ttl: u32)
    requires
        canonical_text(domain),
        0 <= t,
        t + (record_prefix(domain, 28, ttl) + sized(ipv6_bytes(addr))).len() <= d.len(),
        d.subrange(t, t + (record_prefix(domain, 28, ttl) + sized(ipv6_bytes(addr))).len()) == record_prefix(
            domain,
            28,
            ttl,
        ) + sized(ipv6_bytes(addr)),
    ensures
        read_record(d, t) == Ok::<(RecordModel, int), DnsError>((
            RecordModel::AAAA { domain, addr, ttl },
            t + (record_prefix(domain, 28, ttl) + sized(ipv6_bytes(addr))).len(),
        )),
{
    reveal(read_record);
    let rd = ipv6_bytes(addr);
    lemma_prefix_at(d, t, domain, 28, ttl, rd);
    let r = t + text_wire(domain).len() + 10;
    let segs = seq![addr.0, addr.1, addr.2, addr.3, addr.4, addr.5, addr.6, addr.7];
    assert forall|i: int| 0 <= i < 8 implies be16(d, r + 2 * i) == #[trigger] segs[i] by {
        assert(rd.subrange(2 * i, 2 * i + 2) =~= u16_bytes(segs[i]));
        lemma_piece_at(d, r, rd, 2 * i, u16_bytes(segs[i]));
        lemma_u16_at(d, r + 2 * i, segs[i]);
    }
    assert(be16(d, r) == segs[0] && be16(d, r + 2) == segs[1] && be16(d, r + 4) == segs[2]);
    assert(be16(d, r + 6) == segs[3] && be16(d, r + 8) == segs[4] && be16(d, r + 10) == segs[5]);
    assert(be16(d, r + 12) == segs[6] && be16(d, r + 14) == segs[7]);
}

/// A canonical record that fits a datagram reads back as itself.
pub proof fn lemma_record_round_trip(d: Seq<u8>, t: int, m: RecordModel)
    requires
        canonical_record(m),
        0 <= t,
        t + record_wire(m).len() <= d.len(),
        record_wire(m).len() < 0x1_0000,
        d.subrange(t, t + record_wire(m).len()) == record_wire(m),
    ensures
        read_record(d, t) == Ok::<(RecordModel, int), DnsError>((m, t + record_wire(m).len())),
{
    reveal(record_wire);
    match m {
        RecordModel::UNKNOWN { .. } => {},
        RecordModel::A { domain, addr, ttl } => lemma_a_round_trip(d, t, domain, addr, ttl),
        RecordModel::NS { domain, host, ttl } => lemma_host_round_trip(d, t, domain, 2, host, ttl),
        RecordModel::CNAME { domain, host, ttl } => lemma_host_round_trip(d, t, domain, 5, host, ttl),
        RecordModel::MX { domain, priority, host, ttl } => lemma_mx_round_trip(d, t, domain, priority, host, ttl),
        RecordModel::AAAA { domain, addr, ttl } => lemma_aaaa_round_trip(d, t, domain, addr, ttl),
    }
}

/// Canonical questions, one after another, read back as themselves.
pub proof fn lemma_questions_round_trip(d: Seq<u8>, t: int, qs: Seq<QuestionModel>)
    requires
        forall|i: int| 0 <= i < qs.len() ==> canonical_question(#[trigger] qs[i]),
        0 <= t,
        t + questions_wire(qs).len() <= d.len(),
        d.subrange(t, t + questions_wire(qs).len()) == questions_wire(qs),
    ensures
        read_questions(d, t, qs.len()) == Ok::<(Seq<QuestionModel>, int), DnsError>((qs, t + questions_wire(qs).len())),
    decreases qs.len(),
{
    if qs.len() == 0 {
        assert(qs =~= seq![]);
    } else {
        let x = qs[0];
        let rest = qs.drop_first();
        lemma_questions_wire_concat(seq![x], rest);
        assert(seq![x] + rest =~= qs);
        assert(seq![x].drop_last() =~= Seq::<QuestionModel>::empty());
        assert(questions_wire(Seq::<QuestionModel>::empty()) =~= Seq::<u8>::empty());
        assert(seq![x].last() == x);
        assert(questions_wire(seq![x]) =~= question_wire(x));
        let a = question_wire(x);
        let b = questions_wire(rest);
        lemma_subrange_split(d, t, a, b);
        lemma_question_round_trip(d, t, x);
        assert forall|i: int| 0 <= i < rest.len() implies canonical_question(#[trigger] rest[i]) by {
            assert(rest[i] == qs[i + 1]);
        }
        lemma_questions_round_trip(d, t + a.len(), rest);
    }
}

/// Canonical records, one after another, read back as themselves.
pub proof fn lemma_records_round_trip(d: Seq<u8>, t: int, rs: Seq<RecordModel>)
    requires
        forall|i: int| 0 <= i < rs.len() ==> canonical_record(#[trigger] rs[i]),
        0 <= t,
        t + records_wire(rs).len() <= d.len(),
        records_wire(rs).len() < 0x1_0000,
        d.subrange(t, t + records_wire(rs).len()) == records_wire(rs),
    ensures
        read_records(d, t, rs.len()) == Ok::<(Seq<RecordModel>, int), DnsError>((rs, t + records_wire(rs).len())),
    decreases rs.len(),
{
    if rs.len() == 0 {
        assert(rs =~= seq![]);
    } else {
        let x = rs[0];
        let rest = rs.drop_first();
        lemma_records_wire_concat(seq![x], rest);
        assert(seq![x] + rest =~= rs);
        assert(seq![x].drop_last() =~= Seq::<RecordModel>::empty());
        assert(records_wire(Seq::<RecordModel>::empty()) =~= Seq::<u8>::empty());
        assert(seq![x].last() == x);
        assert(records_wire(seq![x]) =~= record_wire(x));
        let a = record_wire(x);
        let b = records_wire(rest);
        lemma_subrange_split(d, t, a, b);
        lemma_record_round_trip(d, t, x);
        assert forall|i: int| 0 <= i < rest.len() implies canonical_record(#[trigger] rest[i]) by {
            assert(rest[i] == rs[i + 1]);
        }
        lemma_records_round_trip(d, t + a.len(), rest);
    }
}

/// A message that reads back as itself: a 4-bit opcode and a 4-bit response code,
/// canonical questions, and records of the five known types with canonical names.
pub open spec fn canonical_packet(m: PacketModel) -> bool {
    &&& header_encodable(m.header)
    &&& forall|i: int| 0 <= i < m.questions.len() ==> canonical_question(#[trigger] m.questions[i])
    &&& forall|i: int| 0 <= i < m.answers.len() ==> canonical_record(#[trigger] m.answers[i])
    &&& forall|i: int| 0 <= i < m.authorities.len() ==> canonical_record(#[trigger] m.authorities[i])
    &&& forall|i: int| 0 <= i < m.additionals.len() ==> canonical_record(#[trigger] m.additionals[i])
}

#[verifier::rlimit(100)]
/// Round trip: where a canonical message has been written into a buffer at `p` (its
/// counts taken from its sections), decoding at `p` gives back that message, header
/// flags, counts and every field of every entry, and ends where the writing ended.
pub proof fn lemma_packet_round_trip(m: PacketModel, d: Seq<u8>, p: int)
    requires
        canonical_packet(m),
        m.questions.len() <= u16::MAX,
        m.answers.len() <= u16::MAX,
        m.authorities.len() <= u16::MAX,
        m.additionals.len() <= u16::MAX,
        d.len() == BUFFER_SIZE,
        0 <= p,
        p + packet_wire(counted(m)).len() <= d.len(),
    ensures
        read_packet(splice(d, p, packet_wire(counted(m))), p) == Ok::<(PacketModel, int), DnsError>((
            counted(m),
            p + packet_wire(counted(m)).len(),
        )),
{
    let c = counted(m);
    let w = packet_wire(c);
    let e = splice(d, p, w);
    lemma_splice_index(d, p, w);
    assert(e.subrange(p, p + w.len()) =~= w);
    let hw = crate::header::header_wire(c.header);
    let qw = questions_wire(c.questions);
    let aw = records_wire(c.answers);
    let nw = records_wire(c.authorities);
    let rw = records_wire(c.additionals);
    assert(w == hw + qw + aw + nw + rw);
    assert(w.subrange(0, HEADER_SIZE as int) =~= hw);
    lemma_piece_at(e, p, w, 0, hw);
    lemma_header_round_trip(c.header, e, p);
    let p1 = p + HEADER_SIZE;
    assert(w.subrange(HEADER_SIZE as int, HEADER_SIZE + qw.len()) =~= qw);
    lemma_piece_at(e, p, w, HEADER_SIZE as int, qw);
    lemma_questions_round_trip(e, p1, c.questions);
    let p2 = p1 + qw.len();
    let k2 = HEADER_SIZE + qw.len();
    assert(w.subrange(k2, k2 + aw.len()) =~= aw);
    lemma_piece_at(e, p, w, k2, aw);
    lemma_records_round_trip(e, p2, c.answers);
    let p3 = p2 + aw.len();
    let k3 = k2 + aw.len();
    assert(w.subrange(k3, k3 + nw.len()) =~= nw);
    lemma_piece_at(e, p, w, k3, nw);
    lemma_records_round_trip(e, p3, c.authorities);
    let p4 = p3 + nw.len();
    let k4 = k3 + nw.len();
    assert(w.subrange(k4, k4 + rw.len()) =~= rw);
    lemma_piece_at(e, p, w, k4, rw);
    lemma_records_round_trip(e, p4, c.additionals);
}

} // verus!
