use vstd::prelude::*;

use crate::error::DnsError;
use crate::question::{
    lemma_question_decode_then_encode, question_wire, spec_question_decode, Question,
};
use crate::name::{labels_wire, lemma_name_encode_then_decode};
use crate::wire::{
    be16_bytes, be16_value, lemma_be16_bytes_of_value, lemma_be16_value_of_bytes, push_u16, read_u16};

verus! {

/// The length of the fixed part of the header.
pub const HEADER_LEN: usize = 12;

/// The fixed 12-byte header, followed by its one question.
#[derive(Debug, Clone, PartialEq, Eq)]
pub struct Header {
    pub id: u16,
    pub qr: bool,
    pub opcode: u8,
    pub aa: bool,
    pub tc: bool,
    pub rd: bool,
    pub ra: bool,
    pub z: u8,
    pub rcode: u8,
    pub qdcount: u16,
    pub ancount: u16,
    pub nscount: u16,
    pub arcount: u16,
    pub question: Question,
}

/// `mask` if `b`, else no bit.
pub open spec fn bit_if(b: bool, mask: u8) -> u8 {
    if b {
        mask
    } else {
        0
    }
}

/// The third header byte, most significant bit first: `qr`, four bits of
/// `opcode`, `aa`, `tc`, `rd`. Only the low four bits of `opcode` are kept.
pub open spec fn flags_hi(qr: bool, opcode: u8, aa: bool, tc: bool, rd: bool) -> u8 {
    bit_if(qr, 0x80) | ((opcode & 0x0F) << 3u8) | bit_if(aa, 0x04) | bit_if(tc, 0x02) | bit_if(
        rd,
        0x01,
    )
}

/// The fourth header byte, most significant bit first: `ra`, three bits of
/// `z`, four bits of `rcode`. Only the low bits of `z` and `rcode` are kept.
pub open spec fn flags_lo(ra: bool, z: u8, rcode: u8) -> u8 {
    bit_if(ra, 0x80) | ((z & 0x07) << 4u8) | (rcode & 0x0F)
}

/// Whether the bit of `mask` is set in `x`.
pub open spec fn has_bit(x: u8, mask: u8) -> bool {
    x & mask != 0
}

/// Unpacking a flags byte and packing it again gives the byte back.
proof fn lemma_flags_unpack_pack(x: u8)
    by (bit_vector)
    ensures
        flags_hi(has_bit(x, 0x80), (x >> 3u8) & 0x0F, has_bit(x, 0x04), has_bit(x, 0x02), has_bit(x, 0x01)) == x,
        flags_lo(has_bit(x, 0x80), (x >> 4u8) & 0x07, x & 0x0F) == x,
{
}

/// Packing fields that fit their widths and unpacking them again gives the fields back.
proof fn lemma_flags_pack_unpack(qr: bool, opcode: u8, aa: bool, tc: bool, rd: bool, ra: bool, z: u8, rcode: u8)
    by (bit_vector)
    requires
        opcode < 16,
        z < 8,
        rcode < 16,
    ensures
        has_bit(flags_hi(qr, opcode, aa, tc, rd), 0x80) == qr,
        (flags_hi(qr, opcode, aa, tc, rd) >> 3u8) & 0x0F == opcode,
        has_bit(flags_hi(qr, opcode, aa, tc, rd), 0x04) == aa,
        has_bit(flags_hi(qr, opcode, aa, tc, rd), 0x02) == tc,
        has_bit(flags_hi(qr, opcode, aa, tc, rd), 0x01) == rd,
        has_bit(flags_lo(ra, z, rcode), 0x80) == ra,
        (flags_lo(ra, z, rcode) >> 4u8) & 0x07 == z,
        flags_lo(ra, z, rcode) & 0x0F == rcode,
{
}

/// What `encode` does with each field: the bit that a flag sets is set, and
/// every other bit does not depend on it.
proof fn lemma_flags_bits(qr: bool, opcode: u8, aa: bool, tc: bool, rd: bool, ra: bool, z: u8, rcode: u8, v: bool)
    by (bit_vector)
    ensures
        has_bit(flags_hi(v, opcode, aa, tc, rd), 0x80) == v,
        flags_hi(v, opcode, aa, tc, rd) & 0x7F == flags_hi(qr, opcode, aa, tc, rd) & 0x7F,
        has_bit(flags_hi(qr, opcode, v, tc, rd), 0x04) == v,
        flags_hi(qr, opcode, v, tc, rd) & 0xFB == flags_hi(qr, opcode, aa, tc, rd) & 0xFB,
        has_bit(flags_hi(qr, opcode, aa, v, rd), 0x02) == v,
        flags_hi(qr, opcode, aa, v, rd) & 0xFD == flags_hi(qr, opcode, aa, tc, rd) & 0xFD,
        has_bit(flags_hi(qr, opcode, aa, tc, v), 0x01) == v,
        flags_hi(qr, opcode, aa, tc, v) & 0xFE == flags_hi(qr, opcode, aa, tc, rd) & 0xFE,
        has_bit(flags_lo(v, z, rcode), 0x80) == v,
        flags_lo(v, z, rcode) & 0x7F == flags_lo(ra, z, rcode) & 0x7F,
{
}


/// What keeps a header from decoding at `off` of `b`, if anything: fewer
/// than twelve bytes, or a question that does not decode after them.
pub open spec fn header_decode_error(b: Seq<u8>, off: int) -> Option<DnsError> {
    if off < 0 || off + HEADER_LEN > b.len() {
        Some(DnsError::TruncatedInput)
    } else {
        match spec_question_decode(b, off + HEADER_LEN) {
            Err(e) => Some(e),
            Ok(_) => None,
        }
    }
}

/// One of the single-bit flags of the header.
#[derive(Debug, Clone, Copy, PartialEq, Eq, Structural)]
pub enum Flag {
    /// Query (clear) or response (set).
    Qr,
    /// Authoritative answer.
    Aa,
    /// Truncation.
    Tc,
    /// Recursion desired.
    Rd,
    /// Recursion available.
    Ra,
}

/// The byte of the encoded header that holds `f`.
pub open spec fn flag_byte(f: Flag) -> int {
    match f {
        Flag::Ra => 3,
        _ => 2,
    }
}

/// The bit of that byte that holds `f`.
pub open spec fn flag_mask(f: Flag) -> u8 {
    match f {
        Flag::Qr => 0x80,
        Flag::Aa => 0x04,
        Flag::Tc => 0x02,
        Flag::Rd => 0x01,
        Flag::Ra => 0x80,
    }
}

impl Header {
    /// The twelve fixed bytes: id, the two flag bytes, then the four counts,
    /// all multi-byte values in network byte order.
    pub open spec fn fixed_wire(&self) -> Seq<u8> {
        be16_bytes(self.id) + seq![
            flags_hi(self.qr, self.opcode, self.aa, self.tc, self.rd),
            flags_lo(self.ra, self.z, self.rcode),
        ] + be16_bytes(self.qdcount) + be16_bytes(self.ancount) + be16_bytes(self.nscount)
            + be16_bytes(self.arcount)
    }

    /// The header on the wire: the fixed bytes, then the question.
    pub open spec fn wire(&self) -> Seq<u8> {
        self.fixed_wire() + question_wire(self.question@)
    }

    /// `self` is what decoding `b` at `off` gives, `n` bytes taken: every field
    /// unpacked from its bits, the question decoded after the fixed bytes.
    pub open spec fn decoded_from(&self, b: Seq<u8>, off: int, n: int) -> bool {
        &&& 0 <= off
        &&& off + HEADER_LEN <= b.len()
        &&& self.id == be16_value(b[off], b[off + 1])
        &&& self.qr == has_bit(b[off + 2], 0x80)
        &&& self.opcode == (b[off + 2] >> 3u8) & 0x0F
        &&& self.aa == has_bit(b[off + 2], 0x04)
        &&& self.tc == has_bit(b[off + 2], 0x02)
        &&& self.rd == has_bit(b[off + 2], 0x01)
        &&& self.ra == has_bit(b[off + 3], 0x80)
        &&& self.z == (b[off + 3] >> 4u8) & 0x07
        &&& self.rcode == b[off + 3] & 0x0F
        &&& self.qdcount == be16_value(b[off + 4], b[off + 5])
        &&& self.ancount == be16_value(b[off + 6], b[off + 7])
        &&& self.nscount == be16_value(b[off + 8], b[off + 9])
        &&& self.arcount == be16_value(b[off + 10], b[off + 11])
        &&& self.question.name.wf()
        &&& spec_question_decode(b, off + HEADER_LEN) == Ok::<
            ((Seq<Seq<u8>>, u16, u16), int),
            DnsError,
        >((self.question@, n - HEADER_LEN))
    }

    /// The value of flag `f`.
    pub open spec fn flag(&self, f: Flag) -> bool {
        match f {
            Flag::Qr => self.qr,
            Flag::Aa => self.aa,
            Flag::Tc => self.tc,
            Flag::Rd => self.rd,
            Flag::Ra => self.ra,
        }
    }

    /// The header with flag `f` set to `v` and every other field kept.
    pub open spec fn with_flag(self, f: Flag, v: bool) -> Header {
        match f {
            Flag::Qr => Header { qr: v, ..self },
            Flag::Aa => Header { aa: v, ..self },
            Flag::Tc => Header { tc: v, ..self },
            Flag::Rd => Header { rd: v, ..self },
            Flag::Ra => Header { ra: v, ..self },
        }
    }

    /// Reads a header and its question at `offset` of `bytes`, and says how
    /// many bytes they took.
    pub fn decode(bytes: &[u8], offset: usize) -> (r: Result<(Header, usize), DnsError>)
        ensures
            match r {
                Ok((h, n)) => header_decode_error(bytes@, offset as int) is None && h.decoded_from(
                    bytes@,
                    offset as int,
                    n as int,
                ),
                Err(e) => header_decode_error(bytes@, offset as int) == Some(e),
            },
    {
        if offset >= bytes.len() || bytes.len() - offset < HEADER_LEN {
            return Err(DnsError::TruncatedInput);
        }
        let hi = bytes[offset + 2];
        let lo = bytes[offset + 3];
        let (question, n) = match Question::decode(bytes, offset + HEADER_LEN) {
            Ok(x) => x,
            Err(e) => {
                return Err(e);
            },
        };
        proof {
            lemma_question_decode_then_encode(bytes@, offset + HEADER_LEN);
        }
        let h = Header {
            id: read_u16(bytes, offset),
            qr: hi & 0x80 != 0,
            opcode: (hi >> 3u8) & 0x0F,
            aa: hi & 0x04 != 0,
            tc: hi & 0x02 != 0,
            rd: hi & 0x01 != 0,
            ra: lo & 0x80 != 0,
            z: (lo >> 4u8) & 0x07,
            rcode: lo & 0x0F,
            qdcount: read_u16(bytes, offset + 4),
            ancount: read_u16(bytes, offset + 6),
            nscount: read_u16(bytes, offset + 8),
            arcount: read_u16(bytes, offset + 10),
            question,
        };
        Ok((h, HEADER_LEN + n))
    }

    /// Appends the header's wire form, question included, to `out`. Only the
    /// low four bits of `opcode` and `rcode` and the low three of `z` are kept.
    pub fn encode_into(&self, out: &mut Vec<u8>)
        requires
            self.question.name.wf(),
        ensures
            final(out)@ == old(out)@ + self.wire(),
    {
        push_u16(out, self.id);
        let hi: u8 = (if self.qr { 0x80u8 } else { 0u8 }) | ((self.opcode & 0x0F) << 3u8) | (if self.aa {
            0x04u8
        } else {
            0u8
        }) | (if self.tc { 0x02u8 } else { 0u8 }) | (if self.rd { 0x01u8 } else { 0u8 });
        let lo: u8 = (if self.ra { 0x80u8 } else { 0u8 }) | ((self.z & 0x07) << 4u8) | (self.rcode
            & 0x0F);
        out.push(hi);
        out.push(lo);
        push_u16(out, self.qdcount);
        push_u16(out, self.ancount);
        push_u16(out, self.nscount);
        push_u16(out, self.arcount);
        self.question.encode_into(out);
        assert(out@ =~= old(out)@ + self.wire());
    }

    /// The header on the wire, question included.
    pub fn encode(&self) -> (r: Vec<u8>)
        requires
            self.question.name.wf(),
        ensures
            r@ == self.wire(),
    {
        let mut out: Vec<u8> = Vec::new();
        self.encode_into(&mut out);
        assert(out@ =~= self.wire());
        out
    }

    /// Sets flag `f` to `value`, leaving every other field as it was.
    pub fn set_flag(&mut self, f: Flag, value: bool)
        ensures
            *final(self) == old(self).with_flag(f, value),
    {
        match f {
            Flag::Qr => self.qr = value,
            Flag::Aa => self.aa = value,
            Flag::Tc => self.tc = value,
            Flag::Rd => self.rd = value,
            Flag::Ra => self.ra = value,
        }
    }

    /// The value of flag `f`.
    pub fn get_flag(&self, f: Flag) -> (r: bool)
        ensures
            r == self.flag(f),
    {
        match f {
            Flag::Qr => self.qr,
            Flag::Aa => self.aa,
            Flag::Tc => self.tc,
            Flag::Rd => self.rd,
            Flag::Ra => self.ra,
        }
    }

    /// Whether every field fits the bits it is given on the wire; refuses an
    /// `opcode` or `rcode` of 16 or more and a `z` of 8 or more, which
    /// encoding would cut to their low bits.
    pub fn check_field_widths(&self) -> (r: Result<(), DnsError>)
        ensures
            r is Ok <==> (self.opcode < 16 && self.z < 8 && self.rcode < 16),
            r is Err ==> r->Err_0 == DnsError::EncodingOverflow,
    {
        if self.opcode >= 16 || self.z >= 8 || self.rcode >= 16 {
            Err(DnsError::EncodingOverflow)
        } else {
            Ok(())
        }
    }
}

/// Decoding a header and encoding it again gives back exactly the bytes that
/// were read, flag bits and question included.
pub proof fn lemma_header_decode_then_encode(h: Header, b: Seq<u8>, off: int, n: int)
    requires
        h.decoded_from(b, off, n),
    ensures
        off + n <= b.len(),
        h.wire() == b.subrange(off, off + n),
{
    let qoff = off + HEADER_LEN;
    lemma_question_decode_then_encode(b, qoff);
    lemma_flags_unpack_pack(b[off + 2]);
    lemma_flags_unpack_pack(b[off + 3]);
    lemma_be16_bytes_of_value(b[off], b[off + 1]);
    lemma_be16_bytes_of_value(b[off + 4], b[off + 5]);
    lemma_be16_bytes_of_value(b[off + 6], b[off + 7]);
    lemma_be16_bytes_of_value(b[off + 8], b[off + 9]);
    lemma_be16_bytes_of_value(b[off + 10], b[off + 11]);
    assert(h.fixed_wire() =~= b.subrange(off, qoff));
    let qw = question_wire(h.question@);
    assert(qw == b.subrange(qoff, off + n));
    assert(qw.len() == n - HEADER_LEN);
    let w = h.wire();
    assert forall|k: int| 0 <= k < n implies w[k] == b.subrange(off, off + n)[k] by {
        if k < HEADER_LEN {
            assert(w[k] == h.fixed_wire()[k]);
        } else {
            assert(w[k] == qw[k - HEADER_LEN]);
        }
    }
    assert(h.wire() =~= b.subrange(off, off + n));
}

/// Encoding a header whose fields fit their widths and decoding it again
/// gives back the same header, whatever bytes follow it.
pub proof fn lemma_header_encode_then_decode(h: Header, b: Seq<u8>, off: int)
    requires
        h.question.name.wf(),
        h.opcode < 16,
        h.z < 8,
        h.rcode < 16,
        0 <= off,
        off + h.wire().len() <= b.len(),
        b.subrange(off, off + h.wire().len()) == h.wire(),
    ensures
        header_decode_error(b, off) is None,
        h.decoded_from(b, off, h.wire().len() as int),
{
    let w = h.wire();
    let fw = h.fixed_wire();
    let q = h.question@;
    let qw = question_wire(q);
    let ls = q.0;
    let nw = labels_wire(ls);
    let qoff = off + HEADER_LEN;
    let at = qoff + nw.len() as int;
    assert(fw.len() == HEADER_LEN);
    assert forall|k: int| 0 <= k < w.len() implies b[off + k] == w[k] by {
        assert(b.subrange(off, off + w.len())[k] == w[k]);
    }
    assert forall|k: int| 0 <= k < HEADER_LEN implies b[off + k] == fw[k] by {
        assert(w[k] == fw[k]);
    }
    lemma_be16_value_of_bytes(h.id);
    lemma_be16_value_of_bytes(h.qdcount);
    lemma_be16_value_of_bytes(h.ancount);
    lemma_be16_value_of_bytes(h.nscount);
    lemma_be16_value_of_bytes(h.arcount);
    lemma_be16_value_of_bytes(h.question.query_type);
    lemma_be16_value_of_bytes(h.question.query_class);
    lemma_flags_pack_unpack(h.qr, h.opcode, h.aa, h.tc, h.rd, h.ra, h.z, h.rcode);
    assert(b.subrange(qoff, qoff + nw.len()) =~= nw) by {
        assert forall|k: int| 0 <= k < nw.len() implies b.subrange(qoff, qoff + nw.len())[k]
            == nw[k] by {
            assert(w[HEADER_LEN + k] == qw[k]);
            assert(qw[k] == nw[k]);
        }
    }
    lemma_name_encode_then_decode(ls, b, qoff);
    assert(b[at + 0] == qw[nw.len() as int + 0]) by {
        let i = HEADER_LEN + nw.len() + 0;
        assert(b[off + i] == w[i]);
        assert(w[i] == qw[nw.len() as int + 0]);
    }
    assert(b[at + 1] == qw[nw.len() as int + 1]) by {
        let i = HEADER_LEN + nw.len() + 1;
        assert(b[off + i] == w[i]);
        assert(w[i] == qw[nw.len() as int + 1]);
    }
    assert(b[at + 2] == qw[nw.len() as int + 2]) by {
        let i = HEADER_LEN + nw.len() + 2;
        assert(b[off + i] == w[i]);
        assert(w[i] == qw[nw.len() as int + 2]);
    }
    assert(b[at + 3] == qw[nw.len() as int + 3]) by {
        let i = HEADER_LEN + nw.len() + 3;
        assert(b[off + i] == w[i]);
        assert(w[i] == qw[nw.len() as int + 3]);
    }
    assert(spec_question_decode(b, qoff) == Ok::<((Seq<Seq<u8>>, u16, u16), int), DnsError>(
        (q, nw.len() + 4int),
    ));
    assert(b[off + 2] == flags_hi(h.qr, h.opcode, h.aa, h.tc, h.rd)) by {
        assert(b[off + 2] == fw[2]);
    }
    assert(b[off + 3] == flags_lo(h.ra, h.z, h.rcode)) by {
        assert(b[off + 3] == fw[3]);
    }
    assert(h.id == be16_value(b[off], b[off + 1])) by {
        assert(b[off] == fw[0] && b[off + 1] == fw[1]);
        assert(fw[0] == be16_bytes(h.id)[0] && fw[1] == be16_bytes(h.id)[1]);
    }
    assert(h.qdcount == be16_value(b[off + 4], b[off + 5])) by {
        assert(b[off + 4] == fw[4] && b[off + 5] == fw[5]);
        assert(fw[4] == be16_bytes(h.qdcount)[0] && fw[5] == be16_bytes(h.qdcount)[1]);
    }
    assert(h.ancount == be16_value(b[off + 6], b[off + 7])) by {
        assert(b[off + 6] == fw[6] && b[off + 7] == fw[7]);
        assert(fw[6] == be16_bytes(h.ancount)[0] && fw[7] == be16_bytes(h.ancount)[1]);
    }
    assert(h.nscount == be16_value(b[off + 8], b[off + 9])) by {
        assert(b[off + 8] == fw[8] && b[off + 9] == fw[9]);
        assert(fw[8] == be16_bytes(h.nscount)[0] && fw[9] == be16_bytes(h.nscount)[1]);
    }
    assert(h.arcount == be16_value(b[off + 10], b[off + 11])) by {
        assert(b[off + 10] == fw[10] && b[off + 11] == fw[11]);
        assert(fw[10] == be16_bytes(h.arcount)[0] && fw[11] == be16_bytes(h.arcount)[1]);
    }
}

/// Setting one flag changes exactly that flag's bit of the encoded header:
/// the encoding keeps its length, every other byte stays as it was, the
/// other bits of that byte stay too, and the bit now reads `v`.
pub proof fn lemma_flag_isolation(h: Header, f: Flag, v: bool)
    ensures
        ({
            let before = h.wire();
            let after = h.with_flag(f, v).wire();
            let k = flag_byte(f);
            let m = flag_mask(f);
            &&& after.len() == before.len()
            &&& forall|i: int| 0 <= i < before.len() && i != k ==> after[i] == before[i]
            &&& after[k] & !m == before[k] & !m
            &&& has_bit(after[k], m) == v
        }),
{
    lemma_flags_bits(h.qr, h.opcode, h.aa, h.tc, h.rd, h.ra, h.z, h.rcode, v);
    let h2 = h.with_flag(f, v);
    assert(h2.question == h.question);
    let before = h.wire();
    let after = h2.wire();
    let k = flag_byte(f);
    let m = flag_mask(f);
    assert(!0x80u8 == 0x7Fu8) by (bit_vector);
    assert(!0x04u8 == 0xFBu8) by (bit_vector);
    assert(!0x02u8 == 0xFDu8) by (bit_vector);
    assert(!0x01u8 == 0xFEu8) by (bit_vector);
    assert forall|i: int| 0 <= i < before.len() && i != k implies after[i] == before[i] by {
        if i == 2 {
            assert(f == Flag::Ra);
        } else if i == 3 {
            assert(f != Flag::Ra);
        }
    }
}

/// Encoding depends on the field values alone: two headers whose fields hold
/// the same values, their names the same labels, encode to the same bytes.
pub proof fn lemma_encode_deterministic(h1: Header, h2: Header)
    requires
        h1.id == h2.id,
        h1.qr == h2.qr,
        h1.opcode == h2.opcode,
        h1.aa == h2.aa,
        h1.tc == h2.tc,
        h1.rd == h2.rd,
        h1.ra == h2.ra,
        h1.z == h2.z,
        h1.rcode == h2.rcode,
        h1.qdcount == h2.qdcount,
        h1.ancount == h2.ancount,
        h1.nscount == h2.nscount,
        h1.arcount == h2.arcount,
        h1.question@ == h2.question@,
    ensures
        h1.wire() == h2.wire(),
{
}

} // verus!
