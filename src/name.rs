use vstd::prelude::*;
use crate::error::DnsError;
use vstd::string::StringSliceAdditionalSpecFns;

verus! {

/// Most compression pointers that one name may follow.
pub const MAX_JUMPS: usize = 5;

/// The byte that separates labels in a dotted name.
pub const DOT: u8 = 46;

/// Longest label that a length byte can announce.
pub const MAX_LABEL: usize = 63;

/// Characters that `String::from_utf8_lossy` makes of `bytes`.
pub uninterp spec fn lossy_text(bytes: Seq<u8>) -> Seq<char>;

/// Characters that `str::to_lowercase` makes of `s`.
pub uninterp spec fn lower_text(s: Seq<char>) -> Seq<char>;

pub open spec fn ascii_bytes(b: Seq<u8>) -> bool {
    forall|i: int| 0 <= i < b.len() ==> #[trigger] b[i] < 128
}

pub open spec fn ascii_chars(s: Seq<char>) -> bool {
    forall|i: int| 0 <= i < s.len() ==> (#[trigger] s[i] as u32) < 128
}

/// The code of the ASCII lowercase form of the character with code `c`.
pub open spec fn ascii_lower_code(c: u32) -> u32 {
    if 65 <= c <= 90 { (c + 32) as u32 } else { c }
}

/// Relies on `String::from_utf8_lossy`: valid UTF-8 comes out unchanged, so ASCII
/// octets come out as the characters with the same codes.
#[verifier::external_body]
fn utf8_lossy(bytes: &[u8]) -> (r: String)
    ensures
        r@ == lossy_text(bytes@),
        ascii_bytes(bytes@) ==> r@.len() == bytes@.len()
            && forall|i: int| 0 <= i < bytes@.len() ==> #[trigger] r@[i] as u32 == bytes@[i] as u32,
{
    String::from_utf8_lossy(bytes).into_owned()
}

/// Relies on `str::to_lowercase`: an ASCII character maps to its ASCII lowercase form.
#[verifier::external_body]
fn to_lower(s: &str) -> (r: String)
    ensures
        r@ == lower_text(s@),
        ascii_chars(s@) ==> r@.len() == s@.len()
            && forall|i: int| 0 <= i < s@.len() ==> #[trigger] r@[i] as u32 == ascii_lower_code(s@[i] as u32),
{
    s.to_lowercase()
}

/// The ASCII lowercase form of the ASCII character with code `b`.
pub open spec fn ascii_lower_char(b: u8) -> char {
    ascii_lower_code(b as u32) as char
}

/// The text that a raw label decodes to: lossy UTF-8, then lowercased; for an ASCII
/// label that is its ASCII lowercase form.
pub open spec fn label_text(label: Seq<u8>) -> Seq<char> {
    if ascii_bytes(label) {
        label.map_values(|b: u8| ascii_lower_char(b))
    } else {
        lower_text(lossy_text(label))
    }
}

/// The decoded, lowercased text of a raw label.
pub fn decode_label(label: &[u8]) -> (r: String)
    ensures
        r@ == label_text(label@),
{
    let raw = utf8_lossy(label);
    proof {
        if ascii_bytes(label@) {
            assert forall|i: int| 0 <= i < raw@.len() implies (#[trigger] raw@[i] as u32) < 128 by {
                assert(raw@[i] as u32 == label@[i] as u32);
            }
        }
    }
    let low = to_lower(raw.as_str());
    proof {
        if ascii_bytes(label@) {
            assert forall|i: int| 0 <= i < label@.len() implies #[trigger] low@[i] == ascii_lower_char(label@[i]) by {
                assert(raw@[i] as u32 == label@[i] as u32);
                assert(low@[i] as u32 == ascii_lower_code(label@[i] as u32));
                vstd::utf8::char_u32_cast(low@[i], ascii_lower_code(label@[i] as u32));
            }
            assert(low@ =~= label@.map_values(|b: u8| ascii_lower_char(b)));
        }
    }
    low
}

/// Labels joined with `sep` between them.
pub open spec fn joined<A>(ls: Seq<Seq<A>>, sep: A) -> Seq<A>
    decreases ls.len(),
{
    if ls.len() == 0 {
        seq![]
    } else if ls.len() == 1 {
        ls[0]
    } else {
        ls[0] + seq![sep] + joined(ls.drop_first(), sep)
    }
}

/// The dotted text of a sequence of raw labels.
pub open spec fn name_text(labels: Seq<Seq<u8>>) -> Seq<char> {
    joined(labels.map_values(|l: Seq<u8>| label_text(l)), '.')
}

/// Offset that the compression pointer at `p` refers to.
pub open spec fn pointer_target(d: Seq<u8>, p: int) -> int {
    (d[p] as int - 0xC0) * 256 + d[p + 1] as int
}

/// Decodes the name at `p` having followed `jumps` pointers: its raw labels and the
/// offset just after it (after the first pointer, where one is met).
pub open spec fn scan_name(d: Seq<u8>, p: int, jumps: nat) -> Result<(Seq<Seq<u8>>, int), DnsError>
    decreases MAX_JUMPS - jumps, d.len() - p,
{
    if p < 0 || p >= d.len() {
        Err(DnsError::BufferOverflow)
    } else if d[p] >= 0xC0 {
        if jumps >= MAX_JUMPS {
            Err(DnsError::MalformedName)
        } else if p + 1 >= d.len() {
            Err(DnsError::BufferOverflow)
        } else {
            match scan_name(d, pointer_target(d, p), jumps + 1) {
                Ok((ls, _)) => Ok((ls, p + 2)),
                Err(e) => Err(e),
            }
        }
    } else if d[p] == 0 {
        Ok((seq![], p + 1))
    } else if p + 1 + d[p] > d.len() {
        Err(DnsError::BufferOverflow)
    } else {
        match scan_name(d, p + 1 + d[p], jumps) {
            Ok((ls, end)) => Ok((seq![d.subrange(p + 1, p + 1 + d[p])] + ls, end)),
            Err(e) => Err(e),
        }
    }
}

/// The decoded text of the name at `p` and the offset after it.
pub open spec fn read_name(d: Seq<u8>, p: int) -> Result<(Seq<char>, int), DnsError> {
    match scan_name(d, p, 0) {
        Ok((ls, end)) => Ok((name_text(ls), end)),
        Err(e) => Err(e),
    }
}

/// Splits `b` at every dot.
pub open spec fn split_labels(b: Seq<u8>) -> Seq<Seq<u8>>
    decreases b.len(),
{
    if b.len() == 0 {
        seq![seq![]]
    } else {
        let r = split_labels(b.drop_first());
        if b[0] == DOT {
            seq![seq![]] + r
        } else {
            seq![seq![b[0]] + r[0]] + r.drop_first()
        }
    }
}

/// The labels of a dotted name; the empty name has none.
pub open spec fn labels_of(b: Seq<u8>) -> Seq<Seq<u8>> {
    if b.len() == 0 { seq![] } else { split_labels(b) }
}

/// Every label is 1 to 63 octets long.
pub open spec fn labels_valid(ls: Seq<Seq<u8>>) -> bool {
    forall|i: int| 0 <= i < ls.len() ==> 1 <= #[trigger] ls[i].len() <= MAX_LABEL
}

/// A dotted name that the encoder accepts.
pub open spec fn valid_name(b: Seq<u8>) -> bool {
    labels_valid(labels_of(b))
}

/// Each label behind its length byte, then a zero byte.
pub open spec fn labels_wire(ls: Seq<Seq<u8>>) -> Seq<u8>
    decreases ls.len(),
{
    if ls.len() == 0 {
        seq![0u8]
    } else {
        seq![ls[0].len() as u8] + ls[0] + labels_wire(ls.drop_first())
    }
}

/// The uncompressed wire form of a dotted name.
pub open spec fn name_wire(b: Seq<u8>) -> Seq<u8> {
    labels_wire(labels_of(b))
}

/// Joining one more label adds a separator and the label.
pub proof fn lemma_joined_push<A>(ls: Seq<Seq<A>>, l: Seq<A>, sep: A)
    ensures
        joined(ls.push(l), sep) == if ls.len() == 0 { l } else { joined(ls, sep) + seq![sep] + l },
    decreases ls.len(),
{
    if ls.len() >= 1 {
        assert(ls.push(l).drop_first() =~= ls.drop_first().push(l));
        lemma_joined_push(ls.drop_first(), l, sep);
        if ls.len() >= 2 {
            assert(joined(ls.push(l), sep) =~= joined(ls, sep) + seq![sep] + l);
        }
    }
}

/// The text of the labels so far, one more appended.
pub proof fn lemma_name_text_push(ls: Seq<Seq<u8>>, l: Seq<u8>)
    ensures
        name_text(ls.push(l)) == if ls.len() == 0 { label_text(l) } else {
            name_text(ls) + seq!['.'] + label_text(l)
        },
{
    let f = |x: Seq<u8>| label_text(x);
    assert(ls.push(l).map_values(f) =~= ls.map_values(f).push(label_text(l)));
    lemma_joined_push(ls.map_values(f), label_text(l), '.');
}

pub proof fn lemma_split_len(b: Seq<u8>)
    ensures
        split_labels(b).len() >= 1,
    decreases b.len(),
{
    if b.len() > 0 {
        lemma_split_len(b.drop_first());
    }
}

/// Splitting at the first dot, at `j`, or where none is left.
pub proof fn lemma_split_first(c: Seq<u8>, j: int)
    requires
        0 <= j <= c.len(),
        forall|k: int| 0 <= k < j ==> #[trigger] c[k] != DOT,
        j == c.len() || c[j] == DOT,
    ensures
        split_labels(c) == seq![c.subrange(0, j)] + (if j == c.len() { Seq::<Seq<u8>>::empty() } else {
            split_labels(c.subrange(j + 1, c.len() as int))
        }),
    decreases j,
{
    if j == 0 {
        assert(c.subrange(0, 0) =~= Seq::<u8>::empty());
        if c.len() == 0 {
            assert(split_labels(c) =~= seq![c.subrange(0, 0)]);
        } else {
            assert(c.drop_first() =~= c.subrange(1, c.len() as int));
            assert(split_labels(c) =~= seq![c.subrange(0, 0)] + split_labels(c.subrange(1, c.len() as int)));
        }
    } else {
        let t = c.drop_first();
        assert forall|k: int| 0 <= k < j - 1 implies #[trigger] t[k] != DOT by {
            assert(t[k] == c[k + 1]);
        }
        lemma_split_first(t, j - 1);
        lemma_split_len(t);
        let r = split_labels(t);
        assert(t.subrange(0, j - 1) =~= c.subrange(1, j));
        assert(seq![c[0]] + t.subrange(0, j - 1) =~= c.subrange(0, j));
        if j < c.len() {
            assert(t.subrange(j, t.len() as int) =~= c.subrange(j + 1, c.len() as int));
        }
        assert(split_labels(c) =~= seq![seq![c[0]] + r[0]] + r.drop_first());
        assert(split_labels(c) =~= seq![c.subrange(0, j)] + (if j == c.len() { Seq::<Seq<u8>>::empty() } else {
            split_labels(c.subrange(j + 1, c.len() as int))
        }));
    }
}

/// Encodes a dotted name as length-prefixed labels; fails on an empty or overlong label.
pub fn encode_name(name: &str) -> (r: Result<Vec<u8>, DnsError>)
    ensures
        valid_name(name.spec_bytes()) ==> r is Ok && r->Ok_0@ == name_wire(name.spec_bytes()),
        !valid_name(name.spec_bytes()) ==> r == Err::<Vec<u8>, DnsError>(DnsError::MalformedName),
{
    let b = name.as_bytes();
    let n = b.len();
    let ghost bs = b@;
    assert(bs == name.spec_bytes());
    let mut out: Vec<u8> = Vec::new();
    if n == 0 {
        out.push(0u8);
        proof {
            assert(labels_of(bs) =~= Seq::<Seq<u8>>::empty());
            assert(out@ =~= name_wire(bs));
        }
        return Ok(out);
    }
    let mut start: usize = 0;
    let ghost mut done: Seq<Seq<u8>> = seq![];
    proof {
        assert(bs.subrange(0, n as int) =~= bs);
    }
    loop
        invariant
            b@ == bs,
            bs == name.spec_bytes(),
            n == bs.len(),
            n > 0,
            start <= n,
            labels_of(bs) == done + split_labels(bs.subrange(start as int, n as int)),
            labels_valid(done),
            labels_wire(labels_of(bs)) == out@ + labels_wire(split_labels(bs.subrange(start as int, n as int))),
        decreases n - start,
    {
        let mut j: usize = start;
        while j < n && b[j] != DOT
            invariant
                b@ == bs,
                n == bs.len(),
                start <= j <= n,
                forall|k: int| start <= k < j ==> #[trigger] bs[k] != DOT,
            decreases n - j,
        {
            j = j + 1;
        }
        let ghost c = bs.subrange(start as int, n as int);
        proof {
            assert forall|k: int| 0 <= k < j - start implies #[trigger] c[k] != DOT by {
                assert(c[k] == bs[start + k]);
            }
            lemma_split_first(c, j - start);
            assert(c.subrange(0, j - start) =~= bs.subrange(start as int, j as int));
            if j < n {
                assert(c.subrange(j - start + 1, c.len() as int) =~= bs.subrange(j + 1, n as int));
            }
        }
        let ghost label = bs.subrange(start as int, j as int);
        let ghost rest = if j == n { Seq::<Seq<u8>>::empty() } else { split_labels(bs.subrange(j + 1, n as int)) };
        if j == start || j - start > MAX_LABEL {
            proof {
                let all = labels_of(bs);
                assert(split_labels(c) == seq![label] + rest);
                assert(all =~= done + (seq![label] + rest));
                assert(all[done.len() as int] == label);
                assert(!(1 <= all[done.len() as int].len() <= MAX_LABEL));
                assert(!labels_valid(all));
            }
            return Err(DnsError::MalformedName);
        }
        let ghost out0 = out@;
        out.push((j - start) as u8);
        let mut k: usize = start;
        while k < j
            invariant
                b@ == bs,
                n == bs.len(),
                start < k <= j || k == start,
                start <= k <= j <= n,
                out@ == out0 + seq![(j - start) as u8] + bs.subrange(start as int, k as int),
            decreases j - k,
        {
            out.push(b[k]);
            k = k + 1;
            assert(out@ =~= out0 + seq![(j - start) as u8] + bs.subrange(start as int, k as int));
        }
        proof {
            assert(split_labels(c) == seq![label] + rest);
            assert((seq![label] + rest).drop_first() =~= rest);
            assert(labels_wire(seq![label] + rest) == seq![label.len() as u8] + label + labels_wire(rest));
            assert(labels_of(bs) =~= done.push(label) + rest);
            assert(labels_valid(done.push(label)));
            done = done.push(label);
            assert(out0 + seq![(j - start) as u8] + label + labels_wire(rest) =~= out@ + labels_wire(rest));
        }
        if j == n {
            out.push(0u8);
            proof {
                assert(labels_wire(rest) == seq![0u8]);
                assert(labels_of(bs) =~= done);
            }
            return Ok(out);
        }
        start = j + 1;
    }
}

/// An uncompressed wire name, wherever it stands, scans back to its labels and ends
/// where the wire form ends, whatever number of pointers led to it.
pub proof fn lemma_scan_wire(d: Seq<u8>, t: int, jumps: nat, ls: Seq<Seq<u8>>)
    requires
        0 <= t,
        t + labels_wire(ls).len() <= d.len(),
        d.subrange(t, t + labels_wire(ls).len()) == labels_wire(ls),
        labels_valid(ls),
    ensures
        scan_name(d, t, jumps) == Ok::<(Seq<Seq<u8>>, int), DnsError>((ls, t + labels_wire(ls).len())),
    decreases ls.len(),
{
    let w = labels_wire(ls);
    assert(d[t] == w[0]);
    if ls.len() == 0 {
        assert(ls =~= seq![]);
    } else {
        let l = ls[0];
        let rest = ls.drop_first();
        let wr = labels_wire(rest);
        let t2 = t + 1 + l.len();
        assert(1 <= ls[0].len() <= MAX_LABEL);
        assert(d[t] == l.len() as u8);
        assert(w =~= seq![l.len() as u8] + l + wr);
        assert forall|i: int| 0 <= i < rest.len() implies 1 <= #[trigger] rest[i].len() <= MAX_LABEL by {
            assert(rest[i] == ls[i + 1]);
        }
        assert(d.subrange(t + 1, t2) =~= l) by {
            assert forall|i: int| 0 <= i < l.len() implies d.subrange(t + 1, t2)[i] == l[i] by {
                assert(d[t + 1 + i] == d.subrange(t, t + w.len())[1 + i]);
                assert(w[1 + i] == l[i]);
            }
        }
        assert(d.subrange(t2, t2 + wr.len()) =~= wr) by {
            assert forall|i: int| 0 <= i < wr.len() implies d.subrange(t2, t2 + wr.len())[i] == wr[i] by {
                assert(d[t2 + i] == d.subrange(t, t + w.len())[1 + l.len() + i]);
                assert(w[1 + l.len() + i] == wr[i]);
            }
        }
        lemma_scan_wire(d, t2, jumps, rest);
        assert(seq![l] + rest =~= ls);
    }
}

/// Name compression: a pointer to an earlier position where an uncompressed name
/// stands decodes to the same text as that name, and the name read through the
/// pointer ends right after the pointer's two bytes.
pub proof fn lemma_pointer_reads_target(d: Seq<u8>, p: int, t: int, ls: Seq<Seq<u8>>)
    requires
        0 <= t < p,
        p + 2 <= d.len(),
        d[p] >= 0xC0,
        pointer_target(d, p) == t,
        t + labels_wire(ls).len() <= d.len(),
        d.subrange(t, t + labels_wire(ls).len()) == labels_wire(ls),
        labels_valid(ls),
    ensures
        read_name(d, t) == Ok::<(Seq<char>, int), DnsError>((name_text(ls), t + labels_wire(ls).len())),
        read_name(d, p) == Ok::<(Seq<char>, int), DnsError>((name_text(ls), p + 2)),
{
    lemma_scan_wire(d, t, 0, ls);
    lemma_scan_wire(d, t, 1, ls);
}

/// Cycle protection: where six pointers follow one another, the name fails with
/// `MalformedName`, whatever they point to after the sixth.
pub proof fn lemma_pointer_chain_fails(d: Seq<u8>, ps: Seq<int>)
    requires
        ps.len() == MAX_JUMPS + 1,
        forall|k: int| 0 <= k < ps.len() ==> 0 <= #[trigger] ps[k] && ps[k] + 1 < d.len() && d[ps[k]] >= 0xC0,
        forall|k: int| 0 <= k < MAX_JUMPS ==> pointer_target(d, #[trigger] ps[k]) == ps[k + 1],
    ensures
        scan_name(d, ps[0], 0) == Err::<(Seq<Seq<u8>>, int), DnsError>(DnsError::MalformedName),
{
    lemma_chain_from(d, ps, 0);
}

proof fn lemma_chain_from(d: Seq<u8>, ps: Seq<int>, k: nat)
    requires
        k <= MAX_JUMPS,
        ps.len() == MAX_JUMPS + 1,
        forall|i: int| 0 <= i < ps.len() ==> 0 <= #[trigger] ps[i] && ps[i] + 1 < d.len() && d[ps[i]] >= 0xC0,
        forall|i: int| 0 <= i < MAX_JUMPS ==> pointer_target(d, #[trigger] ps[i]) == ps[i + 1],
    ensures
        scan_name(d, ps[k as int], k) == Err::<(Seq<Seq<u8>>, int), DnsError>(DnsError::MalformedName),
    decreases MAX_JUMPS - k,
{
    assert(0 <= ps[k as int] && ps[k as int] + 1 < d.len() && d[ps[k as int]] >= 0xC0);
    if k < MAX_JUMPS {
        assert(pointer_target(d, ps[k as int]) == ps[k + 1 as int]);
        lemma_chain_from(d, ps, (k + 1) as nat);
    }
}

} // verus!
