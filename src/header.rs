use vstd::prelude::*;
use crate::packet::{be16, u16_bytes, wrote, BytePacketBuffer, PacketError};

verus! {

/// The 4-bit result code of a response.
#[derive(Debug, Clone, Copy, PartialEq, Eq, Structural)]
pub enum ResultCode {
    NoError,
    FormerR,
    ServFail,
    NXDomain,
    NOTimP,
    Refused,
}

/// The code that stands for `v`; codes without a name read as `NoError`.
pub open spec fn rescode_of(v: u8) -> ResultCode {
    if v == 1 {
        ResultCode::FormerR
    } else if v == 2 {
        ResultCode::ServFail
    } else if v == 3 {
        ResultCode::NXDomain
    } else if v == 4 {
        ResultCode::NOTimP
    } else if v == 5 {
        ResultCode::Refused
    } else {
        ResultCode::NoError
    }
}

/// The number of a result code.
pub open spec fn rescode_num(c: ResultCode) -> u8 {
    match c {
        ResultCode::NoError => 0,
        ResultCode::FormerR => 1,
        ResultCode::ServFail => 2,
        ResultCode::NXDomain => 3,
        ResultCode::NOTimP => 4,
        ResultCode::Refused => 5,
    }
}

impl ResultCode {
    /// The number of this code.
    pub fn to_num(&self) -> (r: u8)
        ensures
            r == rescode_num(*self),
    {
        match self {
            ResultCode::NoError => 0,
            ResultCode::FormerR => 1,
            ResultCode::ServFail => 2,
            ResultCode::NXDomain => 3,
            ResultCode::NOTimP => 4,
            ResultCode::Refused => 5,
        }
    }
}

impl From<u8> for ResultCode {
    fn from(value: u8) -> (r: Self)
        ensures
            r == rescode_of(value),
    {
        match value {
            1 => ResultCode::FormerR,
            2 => ResultCode::ServFail,
            3 => ResultCode::NXDomain,
            4 => ResultCode::NOTimP,
            5 => ResultCode::Refused,
            _ => ResultCode::NoError,
        }
    }
}

impl vstd::std_specs::convert::FromSpecImpl<u8> for ResultCode {
    open spec fn obeys_from_spec() -> bool {
        true
    }

    open spec fn from_spec(v: u8) -> Self {
        rescode_of(v)
    }
}

/// The fixed 12-byte header of a DNS message.
#[derive(Debug, Clone, Copy, PartialEq, Eq, Structural)]
pub struct DnsHeader {
    pub id: u16,
    pub recursion_desired: bool,
    pub truncated_msg: bool,
    pub authorative_answer: bool,
    /// Four bits.
    pub opcode: u8,
    pub response: bool,
    pub rescode: ResultCode,
    pub checking_disabled: bool,
    pub authed_data: bool,
    pub z: bool,
    pub recursion_available: bool,
    pub questions: u16,
    pub answers: u16,
    pub authorative_entries: u16,
    pub resource_entries: u16,
}

/// One bit for a flag.
pub open spec fn bit(b: bool) -> u8 {
    if b {
        1
    } else {
        0
    }
}

/// The first flag byte: RD, TC, AA from bit 0 up, the opcode in bits 3 to
/// 6, QR in bit 7.
pub open spec fn flags_hi(h: DnsHeader) -> u8 {
    bit(h.recursion_desired) | (bit(h.truncated_msg) << 1u8) | (bit(h.authorative_answer) << 2u8)
        | (h.opcode << 3u8) | (bit(h.response) << 7u8)
}

/// The second flag byte: the result code in bits 0 to 3, then CD, AD, Z
/// and RA.
pub open spec fn flags_lo(h: DnsHeader) -> u8 {
    rescode_num(h.rescode) | (bit(h.checking_disabled) << 4u8) | (bit(h.authed_data) << 5u8) | (
    bit(h.z) << 6u8) | (bit(h.recursion_available) << 7u8)
}

/// The header in wire form.
pub open spec fn header_wire(h: DnsHeader) -> Seq<u8> {
    u16_bytes(h.id) + seq![flags_hi(h), flags_lo(h)] + u16_bytes(h.questions) + u16_bytes(
        h.answers,
    ) + u16_bytes(h.authorative_entries) + u16_bytes(h.resource_entries)
}

/// The header that the 12 bytes at `at` of `b` describe.
pub open spec fn header_at(b: Seq<u8>, at: int) -> DnsHeader {
    let a = b[at + 2];
    let c = b[at + 3];
    DnsHeader {
        id: be16(b[at], b[at + 1]),
        recursion_desired: a & 1u8 != 0,
        truncated_msg: a & 2u8 != 0,
        authorative_answer: a & 4u8 != 0,
        opcode: (a >> 3u8) & 0x0Fu8,
        response: a & 128u8 != 0,
        rescode: rescode_of(c & 0x0Fu8),
        checking_disabled: c & 16u8 != 0,
        authed_data: c & 32u8 != 0,
        z: c & 64u8 != 0,
        recursion_available: c & 128u8 != 0,
        questions: be16(b[at + 4], b[at + 5]),
        answers: be16(b[at + 6], b[at + 7]),
        authorative_entries: be16(b[at + 8], b[at + 9]),
        resource_entries: be16(b[at + 10], b[at + 11]),
    }
}

proof fn lemma_flag_bits(r: u8, t: u8, a: u8, o: u8, q: u8)
    requires
        r <= 1,
        t <= 1,
        a <= 1,
        o <= 15,
        q <= 1,
    ensures
        ((r | (t << 1u8) | (a << 2u8) | (o << 3u8) | (q << 7u8)) & 1u8 != 0) == (r == 1),
        ((r | (t << 1u8) | (a << 2u8) | (o << 3u8) | (q << 7u8)) & 2u8 != 0) == (t == 1),
        ((r | (t << 1u8) | (a << 2u8) | (o << 3u8) | (q << 7u8)) & 4u8 != 0) == (a == 1),
        (((r | (t << 1u8) | (a << 2u8) | (o << 3u8) | (q << 7u8)) >> 3u8) & 0x0Fu8) == o,
        ((r | (t << 1u8) | (a << 2u8) | (o << 3u8) | (q << 7u8)) & 128u8 != 0) == (q == 1),
{
    assert(((r | (t << 1u8) | (a << 2u8) | (o << 3u8) | (q << 7u8)) & 1u8 != 0) == (r == 1)
        && ((r | (t << 1u8) | (a << 2u8) | (o << 3u8) | (q << 7u8)) & 2u8 != 0) == (t == 1)
        && ((r | (t << 1u8) | (a << 2u8) | (o << 3u8) | (q << 7u8)) & 4u8 != 0) == (a == 1)
        && (((r | (t << 1u8) | (a << 2u8) | (o << 3u8) | (q << 7u8)) >> 3u8) & 0x0Fu8) == o
        && ((r | (t << 1u8) | (a << 2u8) | (o << 3u8) | (q << 7u8)) & 128u8 != 0) == (q == 1))
        by (bit_vector)
        requires
            r <= 1 && t <= 1 && a <= 1 && o <= 15 && q <= 1,
    ;
}

proof fn lemma_code_bits(c: u8, d: u8, a: u8, z: u8, v: u8)
    requires
        c <= 15,
        d <= 1,
        a <= 1,
        z <= 1,
        v <= 1,
    ensures
        ((c | (d << 4u8) | (a << 5u8) | (z << 6u8) | (v << 7u8)) & 0x0Fu8) == c,
        ((c | (d << 4u8) | (a << 5u8) | (z << 6u8) | (v << 7u8)) & 16u8 != 0) == (d == 1),
        ((c | (d << 4u8) | (a << 5u8) | (z << 6u8) | (v << 7u8)) & 32u8 != 0) == (a == 1),
        ((c | (d << 4u8) | (a << 5u8) | (z << 6u8) | (v << 7u8)) & 64u8 != 0) == (z == 1),
        ((c | (d << 4u8) | (a << 5u8) | (z << 6u8) | (v << 7u8)) & 128u8 != 0) == (v == 1),
{
    assert(((c | (d << 4u8) | (a << 5u8) | (z << 6u8) | (v << 7u8)) & 0x0Fu8) == c
        && ((c | (d << 4u8) | (a << 5u8) | (z << 6u8) | (v << 7u8)) & 16u8 != 0) == (d == 1)
        && ((c | (d << 4u8) | (a << 5u8) | (z << 6u8) | (v << 7u8)) & 32u8 != 0) == (a == 1)
        && ((c | (d << 4u8) | (a << 5u8) | (z << 6u8) | (v << 7u8)) & 64u8 != 0) == (z == 1)
        && ((c | (d << 4u8) | (a << 5u8) | (z << 6u8) | (v << 7u8)) & 128u8 != 0) == (v == 1))
        by (bit_vector)
        requires
            c <= 15 && d <= 1 && a <= 1 && z <= 1 && v <= 1,
    ;
}

/// A written header reads back as itself, where its opcode fits in four
/// bits.
pub proof fn lemma_header_round_trip(b: Seq<u8>, at: int, h: DnsHeader)
    requires
        h.opcode <= 15,
        wrote(b, b, at, header_wire(h)),
    ensures
        header_at(b, at) == h,
{
    let w = header_wire(h);
    assert forall|i: int| 0 <= i < 12 implies #[trigger] b[at + i] == w[i] by {}
    assert(b[at + 0] == w[0]);
    lemma_flag_bits(bit(h.recursion_desired), bit(h.truncated_msg), bit(h.authorative_answer), h.opcode, bit(h.response));
    lemma_code_bits(rescode_num(h.rescode), bit(h.checking_disabled), bit(h.authed_data), bit(h.z), bit(h.recursion_available));
    crate::packet::lemma_u16_bytes(h.id);
    crate::packet::lemma_u16_bytes(h.questions);
    crate::packet::lemma_u16_bytes(h.answers);
    crate::packet::lemma_u16_bytes(h.authorative_entries);
    crate::packet::lemma_u16_bytes(h.resource_entries);
    assert(b[at + 1] == w[1]);
    assert(b[at + 2] == w[2]);
    assert(b[at + 3] == w[3]);
    assert(b[at + 4] == w[4]);
    assert(b[at + 5] == w[5]);
    assert(b[at + 6] == w[6]);
    assert(b[at + 7] == w[7]);
    assert(b[at + 8] == w[8]);
    assert(b[at + 9] == w[9]);
    assert(b[at + 10] == w[10]);
    assert(b[at + 11] == w[11]);
    assert(rescode_of(rescode_num(h.rescode)) == h.rescode);
}

impl DnsHeader {
    /// The fresh header: every field zero or false, result code `NoError`.
    pub open spec fn spec_new() -> DnsHeader {
        DnsHeader {
            id: 0,
            recursion_desired: false,
            truncated_msg: false,
            authorative_answer: false,
            opcode: 0,
            response: false,
            rescode: ResultCode::NoError,
            checking_disabled: false,
            authed_data: false,
            z: false,
            recursion_available: false,
            questions: 0,
            answers: 0,
            authorative_entries: 0,
            resource_entries: 0,
        }
    }

    /// A header with every field zero or false and result code `NoError`.
    pub fn new() -> (r: Self)
        ensures
            r == DnsHeader::spec_new(),
            r == (DnsHeader {
                id: 0,
                recursion_desired: false,
                truncated_msg: false,
                authorative_answer: false,
                opcode: 0,
                response: false,
                rescode: ResultCode::NoError,
                checking_disabled: false,
                authed_data: false,
                z: false,
                recursion_available: false,
                questions: 0,
                answers: 0,
                authorative_entries: 0,
                resource_entries: 0,
            }),
    {
        DnsHeader {
            id: 0,
            recursion_desired: false,
            truncated_msg: false,
            authorative_answer: false,
            opcode: 0,
            response: false,
            rescode: ResultCode::NoError,
            checking_disabled: false,
            authed_data: false,
            z: false,
            recursion_available: false,
            questions: 0,
            answers: 0,
            authorative_entries: 0,
            resource_entries: 0,
        }
    }

    /// Write the header at the cursor of `packet`.
    pub fn write(&mut self, packet: &mut BytePacketBuffer) -> (r: Result<(), PacketError>)
        ensures
            *final(self) == *old(self),
            old(packet).pos + 12 <= 512 ==> r is Ok && wrote(
                old(packet).data(),
                final(packet).data(),
                old(packet).pos as int,
                header_wire(*old(self)),
            ) && final(packet).pos == old(packet).pos + 12,
            old(packet).pos + 12 > 512 ==> r == Err::<(), PacketError>(PacketError::BufferBounds),
    {
        let ghost d0 = packet.data();
        let ghost at = packet.pos as int;
        let rd: u8 = if self.recursion_desired { 1 } else { 0 };
        let tc: u8 = if self.truncated_msg { 1 } else { 0 };
        let aa: u8 = if self.authorative_answer { 1 } else { 0 };
        let qr: u8 = if self.response { 1 } else { 0 };
        let cd: u8 = if self.checking_disabled { 1 } else { 0 };
        let ad: u8 = if self.authed_data { 1 } else { 0 };
        let z: u8 = if self.z { 1 } else { 0 };
        let ra: u8 = if self.recursion_available { 1 } else { 0 };
        let hi: u8 = rd | (tc << 1u8) | (aa << 2u8) | (self.opcode << 3u8) | (qr << 7u8);
        let lo: u8 = self.rescode.to_num() | (cd << 4u8) | (ad << 5u8) | (z << 6u8) | (ra << 7u8);
        packet.write_u16(self.id)?;
        let ghost d1 = packet.data();
        packet.write(hi)?;
        let ghost d2 = packet.data();
        packet.write(lo)?;
        let ghost d3 = packet.data();
        packet.write_u16(self.questions)?;
        let ghost d4 = packet.data();
        packet.write_u16(self.answers)?;
        let ghost d5 = packet.data();
        packet.write_u16(self.authorative_entries)?;
        let ghost d6 = packet.data();
        packet.write_u16(self.resource_entries)?;
        proof {
            let h = *self;
            crate::packet::lemma_wrote_byte(d1, at + 2, hi);
            crate::packet::lemma_wrote_byte(d2, at + 3, lo);
            crate::packet::lemma_wrote_then(d0, d1, d2, at, u16_bytes(h.id), seq![hi]);
            crate::packet::lemma_wrote_then(d0, d2, d3, at, u16_bytes(h.id) + seq![hi], seq![lo]);
            crate::packet::lemma_wrote_then(d0, d3, d4, at, u16_bytes(h.id) + seq![hi] + seq![lo],
                u16_bytes(h.questions));
            crate::packet::lemma_wrote_then(d0, d4, d5, at, u16_bytes(h.id) + seq![hi] + seq![lo]
                + u16_bytes(h.questions), u16_bytes(h.answers));
            crate::packet::lemma_wrote_then(d0, d5, d6, at, u16_bytes(h.id) + seq![hi] + seq![lo]
                + u16_bytes(h.questions) + u16_bytes(h.answers), u16_bytes(h.authorative_entries));
            crate::packet::lemma_wrote_then(d0, d6, packet.data(), at, u16_bytes(h.id) + seq![hi]
                + seq![lo] + u16_bytes(h.questions) + u16_bytes(h.answers) + u16_bytes(
                h.authorative_entries), u16_bytes(h.resource_entries));
            assert(u16_bytes(h.id) + seq![hi] + seq![lo] + u16_bytes(h.questions) + u16_bytes(h.answers)
                + u16_bytes(h.authorative_entries) + u16_bytes(h.resource_entries) =~= header_wire(h));
        }
        Ok(())
    }

    /// Read a header at the cursor of `packet` into `self`.
    pub fn read(&mut self, packet: &mut BytePacketBuffer) -> (r: Result<(), PacketError>)
        ensures
            final(packet).same_bytes(old(packet)),
            old(packet).pos + 12 <= 512 ==> r is Ok && *final(self) == header_at(
                old(packet).data(),
                old(packet).pos as int,
            ) && final(packet).pos == old(packet).pos + 12,
            old(packet).pos + 12 > 512 ==> r == Err::<(), PacketError>(PacketError::BufferBounds),
    {
        self.id = packet.read_u16()?;
        let flags = packet.read_u16()?;
        let a = #[verifier::truncate] ((flags >> 8) as u8);
        let b = #[verifier::truncate] ((flags & 0xFF) as u8);
        self.recursion_desired = (a & 1) > 0;
        self.truncated_msg = (a & 2) > 0;
        self.authorative_answer = (a & 4) > 0;
        self.opcode = (a >> 3) & 0x0F;
        self.response = (a & 128) > 0;
        self.rescode = ResultCode::from(b & 0x0F);
        self.checking_disabled = (b & 16) > 0;
        self.authed_data = (b & 32) > 0;
        self.z = (b & 64) > 0;
        self.recursion_available = (b & 128) > 0;
        self.questions = packet.read_u16()?;
        self.answers = packet.read_u16()?;
        self.authorative_entries = packet.read_u16()?;
        self.resource_entries = packet.read_u16()?;
        proof {
            let d = old(packet).data();
            let at = old(packet).pos as int;
            let x = d[at + 2];
            let y = d[at + 3];
            assert(((be16(x, y) >> 8) as u8) == x && ((be16(x, y) & 0xFF) as u8) == y) by (bit_vector);
        }
        Ok(())
    }
}

} // verus!
