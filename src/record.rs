use vstd::prelude::*;
use vstd::utf8::encode_utf8;
use crate::name::{
    labels_ok, lemma_name_read_back, name_end, name_labels, name_text, name_wire, qname_outcome,
    read_back, split_dots, then_fits,
};
use crate::packet::{
    be16, be32, lemma_be32_parts, lemma_u16_bytes, lemma_u32_bytes, lemma_wrote_patch,
    lemma_wrote_slice, lemma_wrote_then, u16_bytes, u32_bytes, wrote, BytePacketBuffer, PacketError,
};
use crate::question::{qtype_num, qtype_of, QueryType, CLASS_IN};

verus! {

/// A resource record: an owner name, a time to live in seconds, and the
/// data of its type. Records of a type that this codec does not read keep
/// their type number and data length; their data is skipped.
#[derive(Debug, Clone, PartialEq, Eq)]
pub enum DnsRecord {
    Unknown { domain: String, qtype: u16, data_len: u16, ttl: u32 },
    A { domain: String, addr: [u8; 4], ttl: u32 },
    NS { domain: String, host: String, ttl: u32 },
    CNAME { domain: String, host: String, ttl: u32 },
    MX { domain: String, priority: u16, host: String, ttl: u32 },
    AAAA { domain: String, addr: [u16; 8], ttl: u32 },
}

/// A record as values: names as their characters, addresses as sequences.
pub enum RecordView {
    Unknown { domain: Seq<char>, qtype: u16, data_len: u16, ttl: u32 },
    A { domain: Seq<char>, addr: Seq<u8>, ttl: u32 },
    NS { domain: Seq<char>, host: Seq<char>, ttl: u32 },
    CNAME { domain: Seq<char>, host: Seq<char>, ttl: u32 },
    MX { domain: Seq<char>, priority: u16, host: Seq<char>, ttl: u32 },
    AAAA { domain: Seq<char>, addr: Seq<u16>, ttl: u32 },
}

impl View for DnsRecord {
    type V = RecordView;

    open spec fn view(&self) -> RecordView {
        match self {
            DnsRecord::Unknown { domain, qtype, data_len, ttl } => RecordView::Unknown {
                domain: domain@,
                qtype: *qtype,
                data_len: *data_len,
                ttl: *ttl,
            },
            DnsRecord::A { domain, addr, ttl } => RecordView::A {
                domain: domain@,
                addr: addr@,
                ttl: *ttl,
            },
            DnsRecord::NS { domain, host, ttl } => RecordView::NS {
                domain: domain@,
                host: host@,
                ttl: *ttl,
            },
            DnsRecord::CNAME { domain, host, ttl } => RecordView::CNAME {
                domain: domain@,
                host: host@,
                ttl: *ttl,
            },
            DnsRecord::MX { domain, priority, host, ttl } => RecordView::MX {
                domain: domain@,
                priority: *priority,
                host: host@,
                ttl: *ttl,
            },
            DnsRecord::AAAA { domain, addr, ttl } => RecordView::AAAA {
                domain: domain@,
                addr: addr@,
                ttl: *ttl,
            },
        }
    }
}

/// The eight segments of an IPv6 address from its sixteen bytes at `q`.
pub open spec fn segments_at(buf: Seq<u8>, q: int) -> Seq<u16> {
    Seq::new(8, |i: int| be16(buf[q + 2 * i], buf[q + 2 * i + 1]))
}

/// The record at `pos` of `buf`, and where it ends; or why it cannot be
/// read. After the owner name come type, class, ttl and data length; then
/// the data of the type.
pub open spec fn record_at(buf: Seq<u8>, pos: int) -> Result<(RecordView, int), PacketError> {
    match name_labels(buf, pos, 0) {
        Err(e) => Err(e),
        Ok(ls) => {
            let p = name_end(buf, pos);
            if p + 10 > 512 {
                Err(PacketError::BufferBounds)
            } else {
                let domain = name_text(ls);
                let ttl = be32(buf[p + 4], buf[p + 5], buf[p + 6], buf[p + 7]);
                let q = p + 10;
                match qtype_of(be16(buf[p], buf[p + 1])) {
                    QueryType::A => if q + 4 > 512 {
                        Err(PacketError::BufferBounds)
                    } else {
                        Ok((RecordView::A { domain, addr: buf.subrange(q, q + 4), ttl }, q + 4))
                    },
                    QueryType::AAAA => if q + 16 > 512 {
                        Err(PacketError::BufferBounds)
                    } else {
                        Ok((RecordView::AAAA { domain, addr: segments_at(buf, q), ttl }, q + 16))
                    },
                    QueryType::NS => match name_labels(buf, q, 0) {
                        Err(e) => Err(e),
                        Ok(h) => Ok(
                            (RecordView::NS { domain, host: name_text(h), ttl }, name_end(buf, q)),
                        ),
                    },
                    QueryType::CNAME => match name_labels(buf, q, 0) {
                        Err(e) => Err(e),
                        Ok(h) => Ok(
                            (RecordView::CNAME { domain, host: name_text(h), ttl }, name_end(buf, q)),
                        ),
                    },
                    QueryType::MX => if q + 2 > 512 {
                        Err(PacketError::BufferBounds)
                    } else {
                        match name_labels(buf, q + 2, 0) {
                            Err(e) => Err(e),
                            Ok(h) => Ok(
                                (
                                    RecordView::MX {
                                        domain,
                                        priority: be16(buf[q], buf[q + 1]),
                                        host: name_text(h),
                                        ttl,
                                    },
                                    name_end(buf, q + 2),
                                ),
                            ),
                        }
                    },
                    QueryType::Unknown(x) => Ok(
                        (
                            RecordView::Unknown {
                                domain,
                                qtype: x,
                                data_len: be16(buf[p + 8], buf[p + 9]),
                                ttl,
                            },
                            q + be16(buf[p + 8], buf[p + 9]),
                        ),
                    ),
                }
            }
        },
    }
}

/// Owner name, type, class and ttl in wire form.
pub open spec fn preamble_wire(domain: Seq<char>, t: QueryType, ttl: u32) -> Seq<u8> {
    name_wire(encode_utf8(domain)) + u16_bytes(qtype_num(t)) + u16_bytes(CLASS_IN) + u32_bytes(ttl)
}

/// The segments of an IPv6 address in wire form.
pub open spec fn segments_wire(s: Seq<u16>) -> Seq<u8>
    decreases s.len(),
{
    if s.len() == 0 {
        Seq::empty()
    } else {
        segments_wire(s.drop_last()) + u16_bytes(s.last())
    }
}

/// A record in wire form. A record of an unread type is not written.
pub open spec fn record_wire(r: RecordView) -> Seq<u8> {
    match r {
        RecordView::A { domain, addr, ttl } => preamble_wire(domain, QueryType::A, ttl) + u16_bytes(4)
            + addr,
        RecordView::AAAA { domain, addr, ttl } => preamble_wire(domain, QueryType::AAAA, ttl)
            + u16_bytes(16) + segments_wire(addr),
        RecordView::NS { domain, host, ttl } => preamble_wire(domain, QueryType::NS, ttl)
            + u16_bytes(name_wire(encode_utf8(host)).len() as u16) + name_wire(encode_utf8(host)),
        RecordView::CNAME { domain, host, ttl } => preamble_wire(domain, QueryType::CNAME, ttl)
            + u16_bytes(name_wire(encode_utf8(host)).len() as u16) + name_wire(encode_utf8(host)),
        RecordView::MX { domain, priority, host, ttl } => preamble_wire(domain, QueryType::MX, ttl)
            + u16_bytes((2 + name_wire(encode_utf8(host)).len()) as u16) + u16_bytes(priority)
            + name_wire(encode_utf8(host)),
        RecordView::Unknown { .. } => Seq::empty(),
    }
}

/// What writing the owner name and the preamble from `at` returns.
pub open spec fn preamble_outcome(domain: Seq<char>, at: int) -> Result<(), PacketError> {
    then_fits(qname_outcome(encode_utf8(domain), at), at + name_wire(encode_utf8(domain)).len() + 8)
}

/// What writing a record from `at` returns, in the order in which its
/// parts are written.
pub open spec fn record_outcome(r: RecordView, at: int) -> Result<(), PacketError> {
    match r {
        RecordView::A { domain, .. } => then_fits(
            preamble_outcome(domain, at),
            at + name_wire(encode_utf8(domain)).len() + 14,
        ),
        RecordView::AAAA { domain, .. } => then_fits(
            preamble_outcome(domain, at),
            at + name_wire(encode_utf8(domain)).len() + 26,
        ),
        RecordView::NS { domain, host, .. } | RecordView::CNAME { domain, host, .. } => match then_fits(
            preamble_outcome(domain, at),
            at + name_wire(encode_utf8(domain)).len() + 10,
        ) {
            Ok(()) => qname_outcome(encode_utf8(host), at + name_wire(encode_utf8(domain)).len() + 10),
            Err(e) => Err(e),
        },
        RecordView::MX { domain, host, .. } => match then_fits(
            preamble_outcome(domain, at),
            at + name_wire(encode_utf8(domain)).len() + 12,
        ) {
            Ok(()) => qname_outcome(encode_utf8(host), at + name_wire(encode_utf8(domain)).len() + 12),
            Err(e) => Err(e),
        },
        RecordView::Unknown { .. } => Ok(()),
    }
}

/// A record that reads back as written: of a type that is written, with
/// names whose labels hold 1 to 63 bytes each, and addresses of full
/// length.
pub open spec fn record_ok(r: RecordView) -> bool {
    match r {
        RecordView::A { domain, addr, .. } => labels_ok(split_dots(encode_utf8(domain))) && addr.len()
            == 4,
        RecordView::AAAA { domain, addr, .. } => labels_ok(split_dots(encode_utf8(domain)))
            && addr.len() == 8,
        RecordView::NS { domain, host, .. } | RecordView::CNAME { domain, host, .. } | RecordView::MX {
            domain,
            host,
            ..
        } => labels_ok(split_dots(encode_utf8(domain))) && labels_ok(split_dots(encode_utf8(host))),
        RecordView::Unknown { .. } => false,
    }
}

/// The record that reading back `r` gives: its names as read.
pub open spec fn record_read_back(r: RecordView) -> RecordView {
    match r {
        RecordView::A { domain, addr, ttl } => RecordView::A { domain: read_back(domain), addr, ttl },
        RecordView::AAAA { domain, addr, ttl } => RecordView::AAAA {
            domain: read_back(domain),
            addr,
            ttl,
        },
        RecordView::NS { domain, host, ttl } => RecordView::NS {
            domain: read_back(domain),
            host: read_back(host),
            ttl,
        },
        RecordView::CNAME { domain, host, ttl } => RecordView::CNAME {
            domain: read_back(domain),
            host: read_back(host),
            ttl,
        },
        RecordView::MX { domain, priority, host, ttl } => RecordView::MX {
            domain: read_back(domain),
            priority,
            host: read_back(host),
            ttl,
        },
        RecordView::Unknown { .. } => r,
    }
}

/// The preamble of a written record reads back: owner name, type, ttl,
/// and the data length that follows it.
proof fn lemma_preamble_read_back(
    b0: Seq<u8>,
    b1: Seq<u8>,
    at: int,
    w: Seq<u8>,
    domain: Seq<char>,
    t: QueryType,
    ttl: u32,
    dlen: u16,
)
    requires
        b1.len() == 512,
        wrote(b0, b1, at, w),
        w.len() >= preamble_wire(domain, t, ttl).len() as int + 2,
        w.subrange(0, preamble_wire(domain, t, ttl).len() as int + 2) == preamble_wire(domain, t, ttl)
            + u16_bytes(dlen),
        labels_ok(split_dots(encode_utf8(domain))),
    ensures
        ({
            let p = at + name_wire(encode_utf8(domain)).len();
            &&& name_labels(b1, at, 0) == Ok::<Seq<Seq<u8>>, PacketError>(
                split_dots(encode_utf8(domain)),
            )
            &&& name_end(b1, at) == p
            &&& p + 10 <= 512
            &&& p + 10 == at + preamble_wire(domain, t, ttl).len() as int + 2
            &&& be16(b1[p], b1[p + 1]) == qtype_num(t)
            &&& be32(b1[p + 4], b1[p + 5], b1[p + 6], b1[p + 7]) == ttl
            &&& be16(b1[p + 8], b1[p + 9]) == dlen
        }),
{
    let dw = name_wire(encode_utf8(domain));
    let pre = preamble_wire(domain, t, ttl);
    let head = pre + u16_bytes(dlen);
    let p = at + dw.len() as int;
    lemma_wrote_slice(b0, b1, at, w, 0, dw.len() as int);
    assert(w.subrange(0, dw.len() as int) =~= head.subrange(0, dw.len() as int));
    assert(head.subrange(0, dw.len() as int) =~= dw);
    lemma_name_read_back(b1, at, encode_utf8(domain));
    assert forall|i: int| 0 <= i < 10 implies #[trigger] b1[p + i] == head[dw.len() as int + i] by {
        assert(b1[at + (dw.len() as int + i)] == w[dw.len() as int + i]);
        assert(w.subrange(0, pre.len() as int + 2)[dw.len() as int + i] == w[dw.len() as int + i]);
    }
    assert(b1[p + 0] == u16_bytes(qtype_num(t))[0]);
    assert(b1[p + 1] == u16_bytes(qtype_num(t))[1]);
    assert(b1[p + 4] == u32_bytes(ttl)[0]);
    assert(b1[p + 5] == u32_bytes(ttl)[1]);
    assert(b1[p + 6] == u32_bytes(ttl)[2]);
    assert(b1[p + 7] == u32_bytes(ttl)[3]);
    assert(b1[p + 8] == u16_bytes(dlen)[0]);
    assert(b1[p + 9] == u16_bytes(dlen)[1]);
    lemma_u16_bytes(qtype_num(t));
    lemma_u32_bytes(ttl);
    lemma_u16_bytes(dlen);
}

pub proof fn lemma_segments_wire_index(s: Seq<u16>, i: int)
    requires
        0 <= i < s.len(),
    ensures
        segments_wire(s)[2 * i] == u16_bytes(s[i])[0],
        segments_wire(s)[2 * i + 1] == u16_bytes(s[i])[1],
    decreases s.len(),
{
    lemma_segments_wire_len(s.drop_last());
    if i < s.len() - 1 {
        lemma_segments_wire_index(s.drop_last(), i);
    }
}

/// A written address record reads back.
proof fn lemma_a_round_trip(b0: Seq<u8>, b1: Seq<u8>, at: int, r: RecordView)
    requires
        b1.len() == 512,
        record_ok(r),
        r is A,
        wrote(b0, b1, at, record_wire(r)),
    ensures
        record_at(b1, at) == Ok::<(RecordView, int), PacketError>(
            (record_read_back(r), at + record_wire(r).len()),
        ),
{
    let w = record_wire(r);
    let domain = r->A_domain;
    let addr = r->A_addr;
    let ttl = r->A_ttl;
        let pre = preamble_wire(domain, QueryType::A, ttl);
        assert(w.subrange(0, pre.len() as int + 2) =~= pre + u16_bytes(4));
        lemma_preamble_read_back(b0, b1, at, w, domain, QueryType::A, ttl, 4);
        let q = at + pre.len() as int + 2;
        lemma_wrote_slice(b0, b1, at, w, pre.len() as int + 2, 4);
        assert(w.subrange(pre.len() as int + 2, pre.len() as int + 6) =~= addr);
}

/// A written IPv6 address record reads back.
proof fn lemma_aaaa_round_trip(b0: Seq<u8>, b1: Seq<u8>, at: int, r: RecordView)
    requires
        b1.len() == 512,
        record_ok(r),
        r is AAAA,
        wrote(b0, b1, at, record_wire(r)),
    ensures
        record_at(b1, at) == Ok::<(RecordView, int), PacketError>(
            (record_read_back(r), at + record_wire(r).len()),
        ),
{
    let w = record_wire(r);
    let domain = r->AAAA_domain;
    let addr = r->AAAA_addr;
    let ttl = r->AAAA_ttl;
        let pre = preamble_wire(domain, QueryType::AAAA, ttl);
        assert(w.subrange(0, pre.len() as int + 2) =~= pre + u16_bytes(16));
        lemma_preamble_read_back(b0, b1, at, w, domain, QueryType::AAAA, ttl, 16);
        let q = at + pre.len() as int + 2;
        lemma_segments_wire_len(addr);
        assert forall|i: int| 0 <= i < 8 implies #[trigger] segments_at(b1, q)[i] == addr[i] by {
            lemma_segments_wire_index(addr, i);
            assert(b1[at + (pre.len() as int + 2 + 2 * i)] == w[pre.len() as int + 2 + 2 * i]);
            assert(b1[at + (pre.len() as int + 2 + 2 * i + 1)] == w[pre.len() as int + 2 + 2 * i + 1]);
            lemma_u16_bytes(addr[i]);
        }
        assert(segments_at(b1, q) =~= addr);
}

/// A written mail exchange record reads back.
proof fn lemma_mx_round_trip(b0: Seq<u8>, b1: Seq<u8>, at: int, r: RecordView)
    requires
        b1.len() == 512,
        record_ok(r),
        r is MX,
        wrote(b0, b1, at, record_wire(r)),
    ensures
        record_at(b1, at) == Ok::<(RecordView, int), PacketError>(
            (record_read_back(r), at + record_wire(r).len()),
        ),
{
    let w = record_wire(r);
    let domain = r->MX_domain;
    let priority = r->MX_priority;
    let host = r->MX_host;
    let ttl = r->MX_ttl;
        let pre = preamble_wire(domain, QueryType::MX, ttl);
        let hw = name_wire(encode_utf8(host));
        assert(w.subrange(0, pre.len() as int + 2) =~= pre + u16_bytes((2 + hw.len()) as u16));
        lemma_preamble_read_back(b0, b1, at, w, domain, QueryType::MX, ttl, (2 + hw.len()) as u16);
        let q = at + pre.len() as int + 2;
        assert(b1[at + (pre.len() as int + 2)] == w[pre.len() as int + 2]);
        assert(b1[at + (pre.len() as int + 3)] == w[pre.len() as int + 3]);
        assert(w[pre.len() as int + 2] == u16_bytes(priority)[0]);
        assert(w[pre.len() as int + 3] == u16_bytes(priority)[1]);
        lemma_u16_bytes(priority);
        lemma_wrote_slice(b0, b1, at, w, pre.len() as int + 4, hw.len() as int);
        assert(w.subrange(pre.len() as int + 4, pre.len() as int + 4 + hw.len() as int) =~= hw);
        lemma_name_read_back(b1, q + 2, encode_utf8(host));
}

/// A written record whose data is one name reads back.
proof fn lemma_host_round_trip(b0: Seq<u8>, b1: Seq<u8>, at: int, r: RecordView)
    requires
        b1.len() == 512,
        record_ok(r),
        r is NS || r is CNAME,
        wrote(b0, b1, at, record_wire(r)),
    ensures
        record_at(b1, at) == Ok::<(RecordView, int), PacketError>(
            (record_read_back(r), at + record_wire(r).len()),
        ),
{
    let w = record_wire(r);
    let (domain, host, t, ttl) = match r {
        RecordView::NS { domain, host, ttl } => (domain, host, QueryType::NS, ttl),
        RecordView::CNAME { domain, host, ttl } => (domain, host, QueryType::CNAME, ttl),
        _ => (Seq::empty(), Seq::empty(), QueryType::A, 0u32),
    };
    let pre = preamble_wire(domain, t, ttl);
    let hw = name_wire(encode_utf8(host));
    assert(w.subrange(0, pre.len() as int + 2) =~= pre + u16_bytes(hw.len() as u16));
    lemma_preamble_read_back(b0, b1, at, w, domain, t, ttl, hw.len() as u16);
    lemma_host_length_declared(b0, b1, at, r);
}

/// A written record reads back: the same record with its names as read,
/// ending where its wire form ends.
pub proof fn lemma_record_round_trip(b0: Seq<u8>, b1: Seq<u8>, at: int, r: RecordView)
    requires
        b1.len() == 512,
        record_ok(r),
        wrote(b0, b1, at, record_wire(r)),
    ensures
        record_at(b1, at) == Ok::<(RecordView, int), PacketError>(
            (record_read_back(r), at + record_wire(r).len()),
        ),
{
    match r {
        RecordView::A { .. } => lemma_a_round_trip(b0, b1, at, r),
        RecordView::AAAA { .. } => lemma_aaaa_round_trip(b0, b1, at, r),
        RecordView::MX { .. } => lemma_mx_round_trip(b0, b1, at, r),
        RecordView::NS { .. } | RecordView::CNAME { .. } => lemma_host_round_trip(b0, b1, at, r),
        RecordView::Unknown { .. } => {},
    }
}

/// The data length that a name-bearing record declares is the length of
/// the name written after it, and that name decodes on its own from there.
pub proof fn lemma_host_length_declared(b0: Seq<u8>, b1: Seq<u8>, at: int, r: RecordView)
    requires
        b1.len() == 512,
        record_ok(r),
        r is NS || r is CNAME,
        wrote(b0, b1, at, record_wire(r)),
    ensures
        ({
            let (domain, host, t, ttl) = match r {
                RecordView::NS { domain, host, ttl } => (domain, host, QueryType::NS, ttl),
                RecordView::CNAME { domain, host, ttl } => (domain, host, QueryType::CNAME, ttl),
                _ => (Seq::empty(), Seq::empty(), QueryType::A, 0u32),
            };
            let n = name_wire(encode_utf8(host)).len();
            let q = at + preamble_wire(domain, t, ttl).len() as int + 2;
            &&& be16(b1[q - 2], b1[q - 1]) == n
            &&& name_labels(b1, q, 0) == Ok::<Seq<Seq<u8>>, PacketError>(split_dots(encode_utf8(host)))
            &&& name_end(b1, q) == q + n
            &&& q + n == at + record_wire(r).len()
        }),
{
    let w = record_wire(r);
    let (domain, host, t, ttl) = match r {
        RecordView::NS { domain, host, ttl } => (domain, host, QueryType::NS, ttl),
        RecordView::CNAME { domain, host, ttl } => (domain, host, QueryType::CNAME, ttl),
        _ => (Seq::empty(), Seq::empty(), QueryType::A, 0u32),
    };
    let pre = preamble_wire(domain, t, ttl);
    let hw = name_wire(encode_utf8(host));
    assert(w.subrange(0, pre.len() as int + 2) =~= pre + u16_bytes(hw.len() as u16));
    lemma_preamble_read_back(b0, b1, at, w, domain, t, ttl, hw.len() as u16);
    let q = at + pre.len() as int + 2;
    lemma_wrote_slice(b0, b1, at, w, pre.len() as int + 2, hw.len() as int);
    assert(w.subrange(pre.len() as int + 2, pre.len() as int + 2 + hw.len() as int) =~= hw);
    lemma_name_read_back(b1, q, encode_utf8(host));
}

/// A record of an unread type is skipped: reading it ends exactly its
/// declared data length past the preamble, whatever that data holds.
pub proof fn lemma_unknown_skip(b1: Seq<u8>, b2: Seq<u8>, pos: int)
    requires
        b1.len() == 512,
        b2.len() == 512,
        name_labels(b1, pos, 0) is Ok,
        name_labels(b2, pos, 0) == name_labels(b1, pos, 0),
        name_end(b2, pos) == name_end(b1, pos),
        name_end(b1, pos) + 10 <= 512,
        forall|i: int| name_end(b1, pos) <= i < name_end(b1, pos) + 10 ==> b1[i] == b2[i],
        qtype_of(be16(b1[name_end(b1, pos)], b1[name_end(b1, pos) + 1])) is Unknown,
    ensures
        ({
            let p = name_end(b1, pos);
            let len = be16(b1[p + 8], b1[p + 9]);
            &&& record_at(b1, pos) is Ok
            &&& record_at(b1, pos)->Ok_0.1 == p + 10 + len
            &&& record_at(b1, pos)->Ok_0.0 is Unknown
            &&& record_at(b1, pos)->Ok_0.0->Unknown_data_len == len
            &&& record_at(b2, pos) == record_at(b1, pos)
        }),
{
    let p = name_end(b1, pos);
    assert(b1[p] == b2[p] && b1[p + 1] == b2[p + 1]);
    assert(b1[p + 4] == b2[p + 4] && b1[p + 5] == b2[p + 5] && b1[p + 6] == b2[p + 6] && b1[p + 7] == b2[p + 7]);
    assert(b1[p + 8] == b2[p + 8] && b1[p + 9] == b2[p + 9]);
}

/// Write owner name, type, class and ttl at the cursor.
fn write_preamble(packet: &mut BytePacketBuffer, domain: &String, t: QueryType, ttl: u32) -> (r:
    Result<(), PacketError>)
    ensures
        r == preamble_outcome(domain@, old(packet).pos as int),
        r is Ok ==> wrote(
            old(packet).data(),
            final(packet).data(),
            old(packet).pos as int,
            preamble_wire(domain@, t, ttl),
        ) && final(packet).pos == old(packet).pos + preamble_wire(domain@, t, ttl).len(),
{
    let ghost d0 = packet.data();
    let ghost at = packet.pos as int;
    packet.write_qname(domain.as_str())?;
    let ghost d1 = packet.data();
    packet.write_u16(u16::from(t))?;
    let ghost d2 = packet.data();
    packet.write_u16(CLASS_IN)?;
    let ghost d3 = packet.data();
    packet.write_u32(ttl)?;
    proof {
        let nw = name_wire(encode_utf8(domain@));
        lemma_wrote_then(d0, d1, d2, at, nw, u16_bytes(qtype_num(t)));
        lemma_wrote_then(d0, d2, d3, at, nw + u16_bytes(qtype_num(t)), u16_bytes(CLASS_IN));
        lemma_wrote_then(d0, d3, packet.data(), at, nw + u16_bytes(qtype_num(t)) + u16_bytes(CLASS_IN),
            u32_bytes(ttl));
    }
    Ok(())
}

impl DnsRecord {
    /// Read the record at the cursor of `packet`.
    pub fn read(packet: &mut BytePacketBuffer) -> (r: Result<DnsRecord, PacketError>)
        ensures
            final(packet).same_bytes(old(packet)),
            match record_at(old(packet).data(), old(packet).pos as int) {
                Ok((v, end)) => r is Ok && r->Ok_0@ == v && final(packet).pos == end,
                Err(e) => r == Err::<DnsRecord, PacketError>(e),
            },
    {
        let ghost buf = packet.data();
        let mut domain = String::new();
        packet.read_qname(&mut domain)?;
        let qtype = QueryType::from(packet.read_u16()?);
        let _ = packet.read_u16()?;
        let ttl = packet.read_u32()?;
        let data_len = packet.read_u16()?;
        let ghost q = packet.pos as int;
        match qtype {
            QueryType::A => {
                let raw_addr = packet.read_u32()?;
                proof {
                    lemma_be32_parts(buf[q], buf[q + 1], buf[q + 2], buf[q + 3]);
                }
                let addr = [
                    ((raw_addr >> 24) & 0xFF) as u8,
                    ((raw_addr >> 16) & 0xFF) as u8,
                    ((raw_addr >> 8) & 0xFF) as u8,
                    (raw_addr & 0xFF) as u8,
                ];
                proof {
                    assert(addr@ =~= buf.subrange(q, q + 4));
                }
                Ok(DnsRecord::A { domain, addr, ttl })
            },
            QueryType::AAAA => {
                let raw_addr1 = packet.read_u32()?;
                let raw_addr2 = packet.read_u32()?;
                let raw_addr3 = packet.read_u32()?;
                let raw_addr4 = packet.read_u32()?;
                proof {
                    lemma_be32_parts(buf[q], buf[q + 1], buf[q + 2], buf[q + 3]);
                    lemma_be32_parts(buf[q + 4], buf[q + 5], buf[q + 6], buf[q + 7]);
                    lemma_be32_parts(buf[q + 8], buf[q + 9], buf[q + 10], buf[q + 11]);
                    lemma_be32_parts(buf[q + 12], buf[q + 13], buf[q + 14], buf[q + 15]);
                }
                let addr = [
                    ((raw_addr1 >> 16) & 0xFFFF) as u16,
                    (raw_addr1 & 0xFFFF) as u16,
                    ((raw_addr2 >> 16) & 0xFFFF) as u16,
                    (raw_addr2 & 0xFFFF) as u16,
                    ((raw_addr3 >> 16) & 0xFFFF) as u16,
                    (raw_addr3 & 0xFFFF) as u16,
                    ((raw_addr4 >> 16) & 0xFFFF) as u16,
                    (raw_addr4 & 0xFFFF) as u16,
                ];
                proof {
                    assert(addr@ =~= segments_at(buf, q));
                }
                Ok(DnsRecord::AAAA { domain, addr, ttl })
            },
            QueryType::NS => {
                let mut ns = String::new();
                packet.read_qname(&mut ns)?;
                Ok(DnsRecord::NS { domain, host: ns, ttl })
            },
            QueryType::CNAME => {
                let mut cname = String::new();
                packet.read_qname(&mut cname)?;
                Ok(DnsRecord::CNAME { domain, host: cname, ttl })
            },
            QueryType::MX => {
                let priority = packet.read_u16()?;
                let mut mx = String::new();
                packet.read_qname(&mut mx)?;
                Ok(DnsRecord::MX { domain, priority, host: mx, ttl })
            },
            QueryType::Unknown(code) => {
                packet.step(data_len as usize);
                Ok(DnsRecord::Unknown { domain, qtype: code, data_len, ttl })
            },
        }
    }
    /// Write the record at the cursor of `packet` and return how many bytes
    /// it took. The data length of a name-bearing record is written as a
    /// placeholder and patched once the name is written. A record of an
    /// unread type is skipped: nothing is written and 0 is returned.
    pub fn write(&self, packet: &mut BytePacketBuffer) -> (r: Result<usize, PacketError>)
        ensures
            match record_outcome(self@, old(packet).pos as int) {
                Ok(()) => r == Ok::<usize, PacketError>(record_wire(self@).len() as usize)
                    && final(packet).pos == old(packet).pos + record_wire(self@).len()
                    && (record_wire(self@).len() == 0 ==> *final(packet) == *old(packet))
                    && (record_wire(self@).len() > 0 ==> wrote(
                        old(packet).data(),
                        final(packet).data(),
                        old(packet).pos as int,
                        record_wire(self@),
                    )),
                Err(e) => r == Err::<usize, PacketError>(e),
            },
    {
        let start_pos = packet.pos();
        match self {
            DnsRecord::A { domain, addr, ttl } => {
                write_a(packet, domain, addr, *ttl)?;
            },
            DnsRecord::NS { domain, host, ttl } => {
                write_host(packet, domain, QueryType::NS, host, *ttl)?;
            },
            DnsRecord::CNAME { domain, host, ttl } => {
                write_host(packet, domain, QueryType::CNAME, host, *ttl)?;
            },
            DnsRecord::MX { domain, priority, host, ttl } => {
                write_mx(packet, domain, *priority, host, *ttl)?;
            },
            DnsRecord::AAAA { domain, addr, ttl } => {
                write_aaaa(packet, domain, addr, *ttl)?;
            },
            DnsRecord::Unknown { .. } => {},
        }
        Ok(packet.pos() - start_pos)
    }
}

/// Write an address record.
fn write_a(packet: &mut BytePacketBuffer, domain: &String, addr: &[u8; 4], ttl: u32) -> (r: Result<
    (),
    PacketError,
>)
    ensures
        ({
            let v = RecordView::A { domain: domain@, addr: addr@, ttl };
            &&& r == record_outcome(v, old(packet).pos as int)
            &&& r is Ok ==> wrote(old(packet).data(), final(packet).data(), old(packet).pos as int, record_wire(v))
                && final(packet).pos == old(packet).pos + record_wire(v).len()
        }),
{
    let ghost d0 = packet.data();
    let ghost at = packet.pos as int;
    write_preamble(packet, domain, QueryType::A, ttl)?;
    let ghost pre = preamble_wire(domain@, QueryType::A, ttl);
    let ghost d1 = packet.data();
    packet.write_u16(4)?;
    let ghost d2 = packet.data();
    packet.write(addr[0])?;
    packet.write(addr[1])?;
    packet.write(addr[2])?;
    packet.write(addr[3])?;
    proof {
        lemma_wrote_then(d0, d1, d2, at, pre, u16_bytes(4));
        assert(wrote(d2, packet.data(), at + pre.len() + 2, addr@));
        lemma_wrote_then(d0, d2, packet.data(), at, pre + u16_bytes(4), addr@);
    }
    Ok(())
}

/// Write a record whose data is one name: its length is patched in after
/// the name is written.
fn write_host(packet: &mut BytePacketBuffer, domain: &String, t: QueryType, host: &String, ttl: u32) -> (r:
    Result<(), PacketError>)
    requires
        t == QueryType::NS || t == QueryType::CNAME,
    ensures
        ({
            let v = if t == QueryType::NS {
                RecordView::NS { domain: domain@, host: host@, ttl }
            } else {
                RecordView::CNAME { domain: domain@, host: host@, ttl }
            };
            &&& r == record_outcome(v, old(packet).pos as int)
            &&& r is Ok ==> wrote(old(packet).data(), final(packet).data(), old(packet).pos as int, record_wire(v))
                && final(packet).pos == old(packet).pos + record_wire(v).len()
        }),
{
    let ghost d0 = packet.data();
    let ghost at = packet.pos as int;
    write_preamble(packet, domain, t, ttl)?;
    let ghost pre = preamble_wire(domain@, t, ttl);
    let ghost d1 = packet.data();
    let pos = packet.pos();
    packet.write_u16(0)?;
    let ghost d2 = packet.data();
    packet.write_qname(host.as_str())?;
    let ghost d3 = packet.data();
    let size = packet.pos() - (pos + 2);
    packet.set_u16(pos, size as u16);
    proof {
        let hw = name_wire(encode_utf8(host@));
        lemma_wrote_then(d0, d1, d2, at, pre, u16_bytes(0));
        lemma_wrote_then(d0, d2, d3, at, pre + u16_bytes(0), hw);
        lemma_wrote_patch(d0, d3, packet.data(), at, pre, hw, 0, size as u16);
    }
    Ok(())
}

/// Write a mail exchange record: the data length is patched in after the
/// priority and the name are written.
fn write_mx(packet: &mut BytePacketBuffer, domain: &String, priority: u16, host: &String, ttl: u32) -> (r:
    Result<(), PacketError>)
    ensures
        ({
            let v = RecordView::MX { domain: domain@, priority, host: host@, ttl };
            &&& r == record_outcome(v, old(packet).pos as int)
            &&& r is Ok ==> wrote(old(packet).data(), final(packet).data(), old(packet).pos as int, record_wire(v))
                && final(packet).pos == old(packet).pos + record_wire(v).len()
        }),
{
    let ghost d0 = packet.data();
    let ghost at = packet.pos as int;
    write_preamble(packet, domain, QueryType::MX, ttl)?;
    let ghost pre = preamble_wire(domain@, QueryType::MX, ttl);
    let ghost d1 = packet.data();
    let pos = packet.pos();
    packet.write_u16(0)?;
    let ghost d2 = packet.data();
    packet.write_u16(priority)?;
    let ghost d3 = packet.data();
    packet.write_qname(host.as_str())?;
    let ghost d4 = packet.data();
    let size = packet.pos() - (pos + 2);
    packet.set_u16(pos, size as u16);
    proof {
        let hw = name_wire(encode_utf8(host@));
        lemma_wrote_then(d0, d1, d2, at, pre, u16_bytes(0));
        lemma_wrote_then(d0, d2, d3, at, pre + u16_bytes(0), u16_bytes(priority));
        lemma_wrote_then(d0, d3, d4, at, pre + u16_bytes(0) + u16_bytes(priority), hw);
        assert(pre + u16_bytes(0) + u16_bytes(priority) + hw =~= pre + u16_bytes(0) + (u16_bytes(
            priority,
        ) + hw));
        lemma_wrote_patch(d0, d4, packet.data(), at, pre, u16_bytes(priority) + hw, 0, size as u16);
        assert(pre + u16_bytes(size as u16) + (u16_bytes(priority) + hw) =~= pre + u16_bytes(
            size as u16,
        ) + u16_bytes(priority) + hw);
    }
    Ok(())
}

pub proof fn lemma_segments_wire_len(s: Seq<u16>)
    ensures
        segments_wire(s).len() == 2 * s.len(),
    decreases s.len(),
{
    if s.len() > 0 {
        lemma_segments_wire_len(s.drop_last());
    }
}

/// Write an IPv6 address record.
fn write_aaaa(packet: &mut BytePacketBuffer, domain: &String, addr: &[u16; 8], ttl: u32) -> (r: Result<
    (),
    PacketError,
>)
    ensures
        ({
            let v = RecordView::AAAA { domain: domain@, addr: addr@, ttl };
            &&& r == record_outcome(v, old(packet).pos as int)
            &&& r is Ok ==> wrote(old(packet).data(), final(packet).data(), old(packet).pos as int, record_wire(v))
                && final(packet).pos == old(packet).pos + record_wire(v).len()
        }),
{
    let ghost d0 = packet.data();
    let ghost at = packet.pos as int;
    write_preamble(packet, domain, QueryType::AAAA, ttl)?;
    let ghost pre = preamble_wire(domain@, QueryType::AAAA, ttl);
    let ghost d1 = packet.data();
    packet.write_u16(16)?;
    let ghost d2 = packet.data();
    if packet.pos() > 496 {
        return Err(PacketError::BufferBounds);
    }
    proof {
        lemma_wrote_then(d0, d1, d2, at, pre, u16_bytes(16));
        assert(addr@.take(0) =~= Seq::<u16>::empty());
        assert(pre + u16_bytes(16) + segments_wire(Seq::<u16>::empty()) =~= pre + u16_bytes(16));
    }
    let mut i: usize = 0;
    while i < 8
        invariant
            0 <= i <= 8,
            addr@.len() == 8,
            packet.pos == at + pre.len() + 2 + 2 * i,
            at + pre.len() + 2 + 16 <= 512,
            wrote(d0, packet.data(), at, pre + u16_bytes(16) + segments_wire(addr@.take(i as int))),
            d0.len() == 512,
        decreases 8 - i,
    {
        let ghost mid = packet.data();
        packet.write_u16(addr[i]).unwrap();
        proof {
            lemma_segments_wire_len(addr@.take(i as int));
            lemma_wrote_then(d0, mid, packet.data(), at, pre + u16_bytes(16) + segments_wire(
                addr@.take(i as int)), u16_bytes(addr@[i as int]));
            assert(addr@.take(i + 1).drop_last() =~= addr@.take(i as int));
        }
        i = i + 1;
    }
    proof {
        assert(addr@.take(8) =~= addr@);
        lemma_segments_wire_len(addr@);
    }
    Ok(())
}

} // verus!
