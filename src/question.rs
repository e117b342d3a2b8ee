use vstd::prelude::*;
use vstd::utf8::encode_utf8;
use crate::name::{
    labels_ok, lemma_name_read_back, name_end, name_labels, name_text, name_wire, qname_outcome,
    split_dots, then_fits,
};
use crate::packet::{be16, lemma_u16_bytes, lemma_wrote_slice, u16_bytes, wrote, BytePacketBuffer, PacketError};

verus! {

/// The type of a query or of a record: the five that this codec reads, and
/// any other by its number.
#[derive(Debug, Clone, Copy, Hash, PartialEq, Eq, Structural)]
pub enum QueryType {
    Unknown(u16),
    A,
    NS,
    CNAME,
    MX,
    AAAA,
}

/// The query type of a number.
pub open spec fn qtype_of(v: u16) -> QueryType {
    if v == 1 {
        QueryType::A
    } else if v == 2 {
        QueryType::NS
    } else if v == 5 {
        QueryType::CNAME
    } else if v == 15 {
        QueryType::MX
    } else if v == 28 {
        QueryType::AAAA
    } else {
        QueryType::Unknown(v)
    }
}

/// The number of a query type.
pub open spec fn qtype_num(t: QueryType) -> u16 {
    match t {
        QueryType::A => 1,
        QueryType::NS => 2,
        QueryType::CNAME => 5,
        QueryType::MX => 15,
        QueryType::AAAA => 28,
        QueryType::Unknown(x) => x,
    }
}

/// A query type that reads back as itself: any but an `Unknown` that holds
/// the number of a known type.
pub open spec fn qtype_canonical(t: QueryType) -> bool {
    match t {
        QueryType::Unknown(x) => x != 1 && x != 2 && x != 5 && x != 15 && x != 28,
        _ => true,
    }
}

impl From<u16> for QueryType {
    fn from(value: u16) -> (r: Self)
        ensures
            r == qtype_of(value),
    {
        match value {
            1 => QueryType::A,
            2 => QueryType::NS,
            5 => QueryType::CNAME,
            15 => QueryType::MX,
            28 => QueryType::AAAA,
            _ => QueryType::Unknown(value),
        }
    }
}

impl vstd::std_specs::convert::FromSpecImpl<u16> for QueryType {
    open spec fn obeys_from_spec() -> bool {
        true
    }

    open spec fn from_spec(v: u16) -> Self {
        qtype_of(v)
    }
}

impl From<QueryType> for u16 {
    fn from(value: QueryType) -> (r: Self)
        ensures
            r == qtype_num(value),
    {
        match value {
            QueryType::A => 1,
            QueryType::NS => 2,
            QueryType::CNAME => 5,
            QueryType::MX => 15,
            QueryType::AAAA => 28,
            QueryType::Unknown(x) => x,
        }
    }
}

impl vstd::std_specs::convert::FromSpecImpl<QueryType> for u16 {
    open spec fn obeys_from_spec() -> bool {
        true
    }

    open spec fn from_spec(v: QueryType) -> Self {
        qtype_num(v)
    }
}

/// The class field that every question and record carries: Internet.
pub const CLASS_IN: u16 = 1;

/// One entry of the question section.
#[derive(Debug, Clone, PartialEq, Eq)]
pub struct DnsQuestion {
    pub name: String,
    pub qtype: QueryType,
}

impl View for DnsQuestion {
    type V = (Seq<char>, QueryType);

    open spec fn view(&self) -> (Seq<char>, QueryType) {
        (self.name@, self.qtype)
    }
}

/// A question in wire form: its name, its type, the class.
pub open spec fn question_wire(name: Seq<char>, qtype: QueryType) -> Seq<u8> {
    name_wire(encode_utf8(name)) + u16_bytes(qtype_num(qtype)) + u16_bytes(CLASS_IN)
}

/// The question at `pos` of `buf`: its labels, its type and where it ends.
pub open spec fn question_at(buf: Seq<u8>, pos: int) -> Result<
    (Seq<Seq<u8>>, QueryType, int),
    PacketError,
> {
    match name_labels(buf, pos, 0) {
        Err(e) => Err(e),
        Ok(ls) => {
            let e = name_end(buf, pos);
            if e + 4 > 512 {
                Err(PacketError::BufferBounds)
            } else {
                Ok((ls, qtype_of(be16(buf[e], buf[e + 1])), e + 4))
            }
        },
    }
}

/// A question that reads back as written: labels of 1 to 63 bytes, and a
/// type that reads back as itself.
pub open spec fn question_ok(name: Seq<char>, qtype: QueryType) -> bool {
    labels_ok(split_dots(encode_utf8(name))) && qtype_canonical(qtype)
}

/// A written question reads back: its labels, its type, and its end.
pub proof fn lemma_question_round_trip(b0: Seq<u8>, b1: Seq<u8>, at: int, name: Seq<char>, qtype: QueryType)
    requires
        b1.len() == 512,
        question_ok(name, qtype),
        wrote(b0, b1, at, question_wire(name, qtype)),
    ensures
        question_at(b1, at) == Ok::<(Seq<Seq<u8>>, QueryType, int), PacketError>(
            (split_dots(encode_utf8(name)), qtype, at + question_wire(name, qtype).len()),
        ),
{
    let w = question_wire(name, qtype);
    let nw = name_wire(encode_utf8(name));
    lemma_wrote_slice(b0, b1, at, w, 0, nw.len() as int);
    assert(w.subrange(0, nw.len() as int) =~= nw);
    lemma_name_read_back(b1, at, encode_utf8(name));
    let e = at + nw.len();
    assert(b1[at + (nw.len() as int + 0)] == w[nw.len() as int + 0]);
    assert(b1[at + (nw.len() as int + 1)] == w[nw.len() as int + 1]);
    lemma_u16_bytes(qtype_num(qtype));
    assert(qtype_of(qtype_num(qtype)) == qtype);
}

impl DnsQuestion {
    pub fn new(name: String, qtype: QueryType) -> (r: Self)
        ensures
            r.name@ == name@,
            r.qtype == qtype,
    {
        DnsQuestion { name, qtype }
    }

    /// Write the question at the cursor of `packet`.
    pub fn write(&self, packet: &mut BytePacketBuffer) -> (r: Result<(), PacketError>)
        ensures
            r == then_fits(
                qname_outcome(encode_utf8(self.name@), old(packet).pos as int),
                old(packet).pos + question_wire(self.name@, self.qtype).len(),
            ),
            r is Ok ==> wrote(
                old(packet).data(),
                final(packet).data(),
                old(packet).pos as int,
                question_wire(self.name@, self.qtype),
            ) && final(packet).pos == old(packet).pos + question_wire(self.name@, self.qtype).len(),
    {
        let ghost d0 = packet.data();
        let ghost at = packet.pos as int;
        packet.write_qname(self.name.as_str())?;
        let ghost d1 = packet.data();
        let numbtype = u16::from(self.qtype);
        packet.write_u16(numbtype)?;
        let ghost d2 = packet.data();
        packet.write_u16(CLASS_IN)?;
        proof {
            let nw = name_wire(encode_utf8(self.name@));
            crate::packet::lemma_wrote_then(d0, d1, d2, at, nw, u16_bytes(qtype_num(self.qtype)));
            crate::packet::lemma_wrote_then(d0, d2, packet.data(), at, nw + u16_bytes(qtype_num(self.qtype)), u16_bytes(CLASS_IN));
        }
        Ok(())
    }

    /// Read a question at the cursor of `packet`; its name is appended to
    /// `self.name`.
    pub fn read(&mut self, packet: &mut BytePacketBuffer) -> (r: Result<(), PacketError>)
        ensures
            final(packet).same_bytes(old(packet)),
            match question_at(old(packet).data(), old(packet).pos as int) {
                Ok((ls, t, end)) => r is Ok && final(self).name@ == old(self).name@ + name_text(ls)
                    && final(self).qtype == t && final(packet).pos == end,
                Err(e) => r == Err::<(), PacketError>(e),
            },
    {
        packet.read_qname(&mut self.name)?;
        self.qtype = QueryType::from(packet.read_u16()?);
        let _ = packet.read_u16()?;
        Ok(())
    }
}

} // verus!
