use vstd::prelude::*;
use vstd::utf8::encode_utf8;
use crate::header::{header_at, header_wire, lemma_header_round_trip, DnsHeader};
use crate::name::{name_text, qname_outcome, read_back, then_fits};
use crate::packet::{
    lemma_wrote_nothing, lemma_wrote_split, lemma_wrote_then, wrote, BytePacketBuffer, PacketError,
};
use crate::question::{
    lemma_question_round_trip, question_at, question_ok, question_wire, DnsQuestion, QueryType,
};
use crate::record::{
    lemma_record_round_trip, record_at, record_ok, record_outcome, record_read_back, record_wire,
    DnsRecord, RecordView,
};

verus! {

/// A DNS message: a header and four sections in wire order.
#[derive(Debug, Clone)]
pub struct DnsPackets {
    pub header: DnsHeader,
    pub questions: Vec<DnsQuestion>,
    pub answers: Vec<DnsRecord>,
    pub authoritiees: Vec<DnsRecord>,
    pub resources: Vec<DnsRecord>,
}

/// A message as values.
pub struct MessageView {
    pub header: DnsHeader,
    pub questions: Seq<(Seq<char>, QueryType)>,
    pub answers: Seq<RecordView>,
    pub authoritiees: Seq<RecordView>,
    pub resources: Seq<RecordView>,
}

impl View for DnsPackets {
    type V = MessageView;

    open spec fn view(&self) -> MessageView {
        MessageView {
            header: self.header,
            questions: self.questions@.map_values(|q: DnsQuestion| q@),
            answers: self.answers@.map_values(|r: DnsRecord| r@),
            authoritiees: self.authoritiees@.map_values(|r: DnsRecord| r@),
            resources: self.resources@.map_values(|r: DnsRecord| r@),
        }
    }
}

/// Questions in wire form, one after another.
#[verifier::opaque]
pub open spec fn questions_wire(qs: Seq<(Seq<char>, QueryType)>) -> Seq<u8>
    decreases qs.len(),
{
    if qs.len() == 0 {
        Seq::empty()
    } else {
        questions_wire(qs.drop_last()) + question_wire(qs.last().0, qs.last().1)
    }
}

/// Records in wire form, one after another.
#[verifier::opaque]
pub open spec fn records_wire(rs: Seq<RecordView>) -> Seq<u8>
    decreases rs.len(),
{
    if rs.len() == 0 {
        Seq::empty()
    } else {
        records_wire(rs.drop_last()) + record_wire(rs.last())
    }
}

/// What writing the questions from `at` returns.
#[verifier::opaque]
pub open spec fn questions_outcome(qs: Seq<(Seq<char>, QueryType)>, at: int) -> Result<(), PacketError>
    decreases qs.len(),
{
    if qs.len() == 0 {
        Ok(())
    } else {
        match questions_outcome(qs.drop_last(), at) {
            Ok(()) => {
                let p = at + questions_wire(qs.drop_last()).len();
                then_fits(
                    qname_outcome(encode_utf8(qs.last().0), p),
                    p + question_wire(qs.last().0, qs.last().1).len(),
                )
            },
            Err(e) => Err(e),
        }
    }
}

/// What writing the records from `at` returns.
#[verifier::opaque]
pub open spec fn records_outcome(rs: Seq<RecordView>, at: int) -> Result<(), PacketError>
    decreases rs.len(),
{
    if rs.len() == 0 {
        Ok(())
    } else {
        match records_outcome(rs.drop_last(), at) {
            Ok(()) => record_outcome(rs.last(), at + records_wire(rs.drop_last()).len()),
            Err(e) => Err(e),
        }
    }
}

/// The header with its four counts set from the sections of `m`.
pub open spec fn counted_header(m: MessageView) -> DnsHeader {
    DnsHeader {
        questions: m.questions.len() as u16,
        answers: m.answers.len() as u16,
        authorative_entries: m.authoritiees.len() as u16,
        resource_entries: m.resources.len() as u16,
        ..m.header
    }
}

/// A message in wire form: the counted header, then the four sections.
pub open spec fn message_wire(m: MessageView) -> Seq<u8> {
    header_wire(counted_header(m)) + questions_wire(m.questions) + records_wire(m.answers)
        + records_wire(m.authoritiees) + records_wire(m.resources)
}

/// What writing the message from `at` returns, section after section.
pub open spec fn message_outcome(m: MessageView, at: int) -> Result<(), PacketError> {
    let a1 = at + 12;
    let a2 = a1 + questions_wire(m.questions).len();
    let a3 = a2 + records_wire(m.answers).len();
    let a4 = a3 + records_wire(m.authoritiees).len();
    if a1 > 512 {
        Err(PacketError::BufferBounds)
    } else {
        match questions_outcome(m.questions, a1) {
            Err(e) => Err(e),
            Ok(()) => match records_outcome(m.answers, a2) {
                Err(e) => Err(e),
                Ok(()) => match records_outcome(m.authoritiees, a3) {
                    Err(e) => Err(e),
                    Ok(()) => records_outcome(m.resources, a4),
                },
            },
        }
    }
}

/// `n` questions read one after another from `pos`, and where they end.
pub open spec fn questions_at(buf: Seq<u8>, pos: int, n: nat) -> Result<
    (Seq<(Seq<char>, QueryType)>, int),
    PacketError,
>
    decreases n,
{
    if n == 0 {
        Ok((Seq::empty(), pos))
    } else {
        match questions_at(buf, pos, (n - 1) as nat) {
            Err(e) => Err(e),
            Ok((qs, p)) => match question_at(buf, p) {
                Err(e) => Err(e),
                Ok((ls, t, end)) => Ok((qs.push((name_text(ls), t)), end)),
            },
        }
    }
}

/// `n` records read one after another from `pos`, and where they end.
pub open spec fn records_at(buf: Seq<u8>, pos: int, n: nat) -> Result<(Seq<RecordView>, int), PacketError>
    decreases n,
{
    if n == 0 {
        Ok((Seq::empty(), pos))
    } else {
        match records_at(buf, pos, (n - 1) as nat) {
            Err(e) => Err(e),
            Ok((rs, p)) => match record_at(buf, p) {
                Err(e) => Err(e),
                Ok((r, end)) => Ok((rs.push(r), end)),
            },
        }
    }
}

/// The message at `pos` of `buf`, and where it ends: a header, then as
/// many entries in each section as the header counts.
pub open spec fn message_at(buf: Seq<u8>, pos: int) -> Result<(MessageView, int), PacketError> {
    if pos + 12 > 512 {
        Err(PacketError::BufferBounds)
    } else {
        let h = header_at(buf, pos);
        match questions_at(buf, pos + 12, h.questions as nat) {
            Err(e) => Err(e),
            Ok((qs, qs_end)) => match records_at(buf, qs_end, h.answers as nat) {
                Err(e) => Err(e),
                Ok((an, an_end)) => match records_at(buf, an_end, h.authorative_entries as nat) {
                    Err(e) => Err(e),
                    Ok((ns, ns_end)) => match records_at(buf, ns_end, h.resource_entries as nat) {
                        Err(e) => Err(e),
                        Ok((ar, ar_end)) => Ok(
                            (
                                MessageView {
                                    header: h,
                                    questions: qs,
                                    answers: an,
                                    authoritiees: ns,
                                    resources: ar,
                                },
                                ar_end,
                            ),
                        ),
                    },
                },
            },
        }
    }
}

/// The questions that reading back `qs` gives: their names as read.
pub open spec fn questions_read_back(qs: Seq<(Seq<char>, QueryType)>) -> Seq<(Seq<char>, QueryType)> {
    qs.map_values(|q: (Seq<char>, QueryType)| (read_back(q.0), q.1))
}

/// The records that reading back `rs` gives: their names as read.
pub open spec fn records_read_back(rs: Seq<RecordView>) -> Seq<RecordView> {
    rs.map_values(|r: RecordView| record_read_back(r))
}

/// A message that reads back as written: an opcode of four bits, section
/// counts that fit the header, and entries that each read back.
pub open spec fn message_ok(m: MessageView) -> bool {
    &&& m.header.opcode <= 15
    &&& m.questions.len() <= u16::MAX
    &&& m.answers.len() <= u16::MAX
    &&& m.authoritiees.len() <= u16::MAX
    &&& m.resources.len() <= u16::MAX
    &&& forall|i: int| 0 <= i < m.questions.len() ==> question_ok(#[trigger] m.questions[i].0, m.questions[i].1)
    &&& forall|i: int| 0 <= i < m.answers.len() ==> record_ok(#[trigger] m.answers[i])
    &&& forall|i: int| 0 <= i < m.authoritiees.len() ==> record_ok(#[trigger] m.authoritiees[i])
    &&& forall|i: int| 0 <= i < m.resources.len() ==> record_ok(#[trigger] m.resources[i])
}

/// The message that reading back `m` gives: the counted header, and the
/// entries with their names as read.
pub open spec fn message_read_back(m: MessageView) -> MessageView {
    MessageView {
        header: counted_header(m),
        questions: questions_read_back(m.questions),
        answers: records_read_back(m.answers),
        authoritiees: records_read_back(m.authoritiees),
        resources: records_read_back(m.resources),
    }
}

/// Written questions read back one after another.
pub proof fn lemma_questions_round_trip(b: Seq<u8>, at: int, qs: Seq<(Seq<char>, QueryType)>)
    requires
        b.len() == 512,
        forall|i: int| 0 <= i < qs.len() ==> question_ok(#[trigger] qs[i].0, qs[i].1),
        wrote(b, b, at, questions_wire(qs)),
    ensures
        questions_at(b, at, qs.len()) == Ok::<(Seq<(Seq<char>, QueryType)>, int), PacketError>(
            (questions_read_back(qs), at + questions_wire(qs).len()),
        ),
    decreases qs.len(),
{
    reveal(questions_wire);
    if qs.len() == 0 {
        assert(questions_read_back(qs) =~= Seq::<(Seq<char>, QueryType)>::empty());
    } else {
        let pre = qs.drop_last();
        let q = qs.last();
        lemma_wrote_split(b, b, at, questions_wire(pre), question_wire(q.0, q.1));
        assert forall|i: int| 0 <= i < pre.len() implies question_ok(#[trigger] pre[i].0, pre[i].1) by {
            assert(pre[i] == qs[i]);
        }
        lemma_questions_round_trip(b, at, pre);
        assert(question_ok(qs[qs.len() - 1].0, qs[qs.len() - 1].1));
        lemma_question_round_trip(b, b, at + questions_wire(pre).len(), q.0, q.1);
        assert(questions_read_back(pre).push((read_back(q.0), q.1)) =~= questions_read_back(qs));
        assert((qs.len() - 1) as nat == pre.len());
    }
}

/// Written records read back one after another.
pub proof fn lemma_records_round_trip(b: Seq<u8>, at: int, rs: Seq<RecordView>)
    requires
        b.len() == 512,
        forall|i: int| 0 <= i < rs.len() ==> record_ok(#[trigger] rs[i]),
        wrote(b, b, at, records_wire(rs)),
    ensures
        records_at(b, at, rs.len()) == Ok::<(Seq<RecordView>, int), PacketError>(
            (records_read_back(rs), at + records_wire(rs).len()),
        ),
    decreases rs.len(),
{
    reveal(records_wire);
    if rs.len() == 0 {
        assert(records_read_back(rs) =~= Seq::<RecordView>::empty());
    } else {
        let pre = rs.drop_last();
        let r = rs.last();
        lemma_wrote_split(b, b, at, records_wire(pre), record_wire(r));
        assert forall|i: int| 0 <= i < pre.len() implies record_ok(#[trigger] pre[i]) by {
            assert(pre[i] == rs[i]);
        }
        lemma_records_round_trip(b, at, pre);
        assert(record_ok(rs[rs.len() - 1]));
        lemma_record_round_trip(b, b, at + records_wire(pre).len(), r);
        assert(records_read_back(pre).push(record_read_back(r)) =~= records_read_back(rs));
        assert((rs.len() - 1) as nat == pre.len());
    }
}

/// Decoding an encoded message gives the message back: the header with
/// its counts set from the sections, every question and record in order,
/// names as read; and decoding ends where the encoding ended.
pub proof fn lemma_message_round_trip(b0: Seq<u8>, b1: Seq<u8>, at: int, m: MessageView)
    requires
        b1.len() == 512,
        message_ok(m),
        wrote(b0, b1, at, message_wire(m)),
    ensures
        message_at(b1, at) == Ok::<(MessageView, int), PacketError>(
            (message_read_back(m), at + message_wire(m).len()),
        ),
{
    let hw = header_wire(counted_header(m));
    let qw = questions_wire(m.questions);
    let aw = records_wire(m.answers);
    let nw = records_wire(m.authoritiees);
    let rw = records_wire(m.resources);
    lemma_wrote_split(b0, b1, at, hw + qw + aw + nw, rw);
    lemma_wrote_split(b1, b1, at, hw + qw + aw, nw);
    lemma_wrote_split(b1, b1, at, hw + qw, aw);
    lemma_wrote_split(b1, b1, at, hw, qw);
    lemma_header_round_trip(b1, at, counted_header(m));
    lemma_questions_round_trip(b1, at + hw.len(), m.questions);
    lemma_records_round_trip(b1, at + hw.len() + qw.len(), m.answers);
    lemma_records_round_trip(b1, at + hw.len() + qw.len() + aw.len(), m.authoritiees);
    lemma_records_round_trip(b1, at + hw.len() + qw.len() + aw.len() + nw.len(), m.resources);
    assert(hw.len() == 12);
}

pub proof fn lemma_questions_outcome_err(qs: Seq<(Seq<char>, QueryType)>, k: int, at: int)
    requires
        0 <= k <= qs.len(),
        questions_outcome(qs.take(k), at) is Err,
    ensures
        questions_outcome(qs, at) == questions_outcome(qs.take(k), at),
    decreases qs.len() - k,
{
    reveal(questions_outcome);
    if k == qs.len() {
        assert(qs.take(k) =~= qs);
    } else {
        assert(qs.drop_last().take(k) =~= qs.take(k));
        lemma_questions_outcome_err(qs.drop_last(), k, at);
    }
}

pub proof fn lemma_records_outcome_err(rs: Seq<RecordView>, k: int, at: int)
    requires
        0 <= k <= rs.len(),
        records_outcome(rs.take(k), at) is Err,
    ensures
        records_outcome(rs, at) == records_outcome(rs.take(k), at),
    decreases rs.len() - k,
{
    reveal(records_outcome);
    if k == rs.len() {
        assert(rs.take(k) =~= rs);
    } else {
        assert(rs.drop_last().take(k) =~= rs.take(k));
        lemma_records_outcome_err(rs.drop_last(), k, at);
    }
}

pub proof fn lemma_questions_at_err(buf: Seq<u8>, pos: int, k: nat, n: nat)
    requires
        k <= n,
        questions_at(buf, pos, k) is Err,
    ensures
        questions_at(buf, pos, n) == questions_at(buf, pos, k),
    decreases n - k,
{
    if k < n {
        lemma_questions_at_err(buf, pos, k, (n - 1) as nat);
    }
}

pub proof fn lemma_records_at_err(buf: Seq<u8>, pos: int, k: nat, n: nat)
    requires
        k <= n,
        records_at(buf, pos, k) is Err,
    ensures
        records_at(buf, pos, n) == records_at(buf, pos, k),
    decreases n - k,
{
    if k < n {
        lemma_records_at_err(buf, pos, k, (n - 1) as nat);
    }
}

/// Write the questions one after another at the cursor.
fn write_questions(qs: &Vec<DnsQuestion>, packet: &mut BytePacketBuffer) -> (r: Result<(), PacketError>)
    requires
        old(packet).pos <= 512,
    ensures
        ({
            let v = qs@.map_values(|q: DnsQuestion| q@);
            match questions_outcome(v, old(packet).pos as int) {
                Ok(()) => r is Ok && final(packet).pos == old(packet).pos + questions_wire(v).len()
                    && wrote(old(packet).data(), final(packet).data(), old(packet).pos as int, questions_wire(v)),
                Err(e) => r == Err::<(), PacketError>(e),
            }
        }),
{
    let ghost v = qs@.map_values(|q: DnsQuestion| q@);
    let ghost at = packet.pos as int;
    let ghost d0 = packet.data();
    proof {
        reveal(questions_outcome);
        reveal(questions_wire);
        assert(v.take(0) =~= Seq::<(Seq<char>, QueryType)>::empty());
        lemma_wrote_nothing(d0, at);
    }
    let mut i: usize = 0;
    while i < qs.len()
        invariant
            0 <= i <= qs.len(),
            v == qs@.map_values(|q: DnsQuestion| q@),
            at == old(packet).pos as int,
            d0 == old(packet).data(),
            questions_outcome(v.take(i as int), at) is Ok,
            packet.pos == at + questions_wire(v.take(i as int)).len(),
            wrote(d0, packet.data(), at, questions_wire(v.take(i as int))),
        decreases qs.len() - i,
    {
        let ghost mid = packet.data();
        proof {
            reveal(questions_outcome);
            reveal(questions_wire);
            assert(v.take(i + 1).drop_last() =~= v.take(i as int));
            assert(v.take(i + 1).last() == qs@[i as int]@);
        }
        match qs[i].write(packet) {
            Ok(()) => {},
            Err(e) => {
                proof {
                    lemma_questions_outcome_err(v, i + 1, at);
                }
                return Err(e);
            },
        }
        proof {
            lemma_wrote_then(d0, mid, packet.data(), at, questions_wire(v.take(i as int)),
                question_wire(qs@[i as int].name@, qs@[i as int].qtype));
        }
        i = i + 1;
    }
    proof {
        assert(v.take(qs.len() as int) =~= v);
    }
    Ok(())
}

/// Write the records one after another at the cursor.
#[verifier::rlimit(50)]
fn write_records(rs: &Vec<DnsRecord>, packet: &mut BytePacketBuffer) -> (r: Result<(), PacketError>)
    requires
        old(packet).pos <= 512,
    ensures
        ({
            let v = rs@.map_values(|x: DnsRecord| x@);
            match records_outcome(v, old(packet).pos as int) {
                Ok(()) => r is Ok && final(packet).pos == old(packet).pos + records_wire(v).len()
                    && wrote(old(packet).data(), final(packet).data(), old(packet).pos as int, records_wire(v)),
                Err(e) => r == Err::<(), PacketError>(e),
            }
        }),
{
    let ghost v = rs@.map_values(|x: DnsRecord| x@);
    let ghost at = packet.pos as int;
    let ghost d0 = packet.data();
    proof {
        reveal(records_outcome);
        reveal(records_wire);
        assert(v.take(0) =~= Seq::<RecordView>::empty());
        lemma_wrote_nothing(d0, at);
    }
    let mut i: usize = 0;
    while i < rs.len()
        invariant
            0 <= i <= rs.len(),
            v == rs@.map_values(|x: DnsRecord| x@),
            at == old(packet).pos as int,
            d0 == old(packet).data(),
            records_outcome(v.take(i as int), at) is Ok,
            packet.pos == at + records_wire(v.take(i as int)).len(),
            wrote(d0, packet.data(), at, records_wire(v.take(i as int))),
        decreases rs.len() - i,
    {
        let ghost mid = packet.data();
        proof {
            reveal(records_outcome);
            reveal(records_wire);
            assert(v.take(i + 1).drop_last() =~= v.take(i as int));
            assert(v.take(i + 1).last() == rs@[i as int]@);
        }
        match rs[i].write(packet) {
            Ok(_) => {},
            Err(e) => {
                proof {
                    lemma_records_outcome_err(v, i + 1, at);
                }
                return Err(e);
            },
        }
        proof {
            if record_wire(rs@[i as int]@).len() == 0 {
                lemma_wrote_nothing(mid, packet.pos as int);
            }
            lemma_wrote_then(d0, mid, packet.data(), at, records_wire(v.take(i as int)),
                record_wire(rs@[i as int]@));
        }
        i = i + 1;
    }
    proof {
        assert(v.take(rs.len() as int) =~= v);
    }
    Ok(())
}

/// Read `count` records one after another at the cursor.
fn read_records(buffer: &mut BytePacketBuffer, count: u16) -> (r: Result<Vec<DnsRecord>, PacketError>)
    ensures
        final(buffer).same_bytes(old(buffer)),
        match records_at(old(buffer).data(), old(buffer).pos as int, count as nat) {
            Ok((rs, end)) => r is Ok && r->Ok_0@.map_values(|x: DnsRecord| x@) == rs
                && final(buffer).pos == end,
            Err(e) => r == Err::<Vec<DnsRecord>, PacketError>(e),
        },
{
    let ghost buf = buffer.data();
    let ghost start = buffer.pos as int;
    let mut out: Vec<DnsRecord> = Vec::new();
    let mut i: u16 = 0;
    proof {
        assert(out@.map_values(|x: DnsRecord| x@) =~= Seq::<RecordView>::empty());
    }
    while i < count
        invariant
            0 <= i <= count,
            buffer.data() == buf,
            buf == old(buffer).data(),
            start == old(buffer).pos as int,
            records_at(buf, start, i as nat) == Ok::<(Seq<RecordView>, int), PacketError>(
                (out@.map_values(|x: DnsRecord| x@), buffer.pos as int),
            ),
        decreases count - i,
    {
        let rec = match DnsRecord::read(buffer) {
            Ok(rec) => rec,
            Err(e) => {
                proof {
                    lemma_records_at_err(buf, start, (i + 1) as nat, count as nat);
                }
                return Err(e);
            },
        };
        let ghost before = out@;
        out.push(rec);
        proof {
            assert(out@.map_values(|x: DnsRecord| x@) =~= before.map_values(|x: DnsRecord| x@).push(rec@));
        }
        i = i + 1;
    }
    Ok(out)
}

/// Write the header of `m` as it stands, then its sections in order.
#[verifier::rlimit(50)]
fn write_sections(m: &mut DnsPackets, packet: &mut BytePacketBuffer) -> (r: Result<(), PacketError>)
    requires
        old(m).header == counted_header(old(m)@),
    ensures
        *final(m) == *old(m),
        match message_outcome(old(m)@, old(packet).pos as int) {
            Ok(()) => r is Ok && final(packet).pos == old(packet).pos + message_wire(old(m)@).len()
                && wrote(old(packet).data(), final(packet).data(), old(packet).pos as int, message_wire(old(m)@)),
            Err(e) => r == Err::<(), PacketError>(e),
        },
{
    let ghost v = m@;
    let ghost at = packet.pos as int;
    let ghost d0 = packet.data();
    m.header.write(packet)?;
    let ghost d1 = packet.data();
    write_questions(&m.questions, packet)?;
    let ghost d2 = packet.data();
    write_records(&m.answers, packet)?;
    let ghost d3 = packet.data();
    write_records(&m.authoritiees, packet)?;
    let ghost d4 = packet.data();
    write_records(&m.resources, packet)?;
    proof {
        let hw = header_wire(counted_header(v));
        let qw = questions_wire(v.questions);
        let aw = records_wire(v.answers);
        let nw = records_wire(v.authoritiees);
        lemma_wrote_then(d0, d1, d2, at, hw, qw);
        lemma_wrote_then(d0, d2, d3, at, hw + qw, aw);
        lemma_wrote_then(d0, d3, d4, at, hw + qw + aw, nw);
        lemma_wrote_then(d0, d4, packet.data(), at, hw + qw + aw + nw, records_wire(v.resources));
    }
    Ok(())
}

impl DnsPackets {
    /// An empty message with a fresh header.
    pub fn new() -> (r: DnsPackets)
        ensures
            r.header == DnsHeader::spec_new(),
            r.questions@.len() == 0,
            r.answers@.len() == 0,
            r.authoritiees@.len() == 0,
            r.resources@.len() == 0,
    {
        DnsPackets {
            header: DnsHeader::new(),
            questions: Vec::new(),
            answers: Vec::new(),
            authoritiees: Vec::new(),
            resources: Vec::new(),
        }
    }

    /// Write the message at the cursor: the header's counts are first set
    /// from the sections, then header and sections are written in order.
    pub fn write(&mut self, packet: &mut BytePacketBuffer) -> (r: Result<(), PacketError>)
        requires
            old(self).questions@.len() <= u16::MAX,
            old(self).answers@.len() <= u16::MAX,
            old(self).authoritiees@.len() <= u16::MAX,
            old(self).resources@.len() <= u16::MAX,
        ensures
            final(self)@ == (MessageView { header: counted_header(old(self)@), ..old(self)@ }),
            match message_outcome(old(self)@, old(packet).pos as int) {
                Ok(()) => r is Ok && final(packet).pos == old(packet).pos + message_wire(old(self)@).len()
                    && wrote(old(packet).data(), final(packet).data(), old(packet).pos as int, message_wire(old(self)@)),
                Err(e) => r == Err::<(), PacketError>(e),
            },
    {
        let ghost m = self@;
        self.header.questions = self.questions.len() as u16;
        self.header.answers = self.answers.len() as u16;
        self.header.authorative_entries = self.authoritiees.len() as u16;
        self.header.resource_entries = self.resources.len() as u16;
        proof {
            assert(self@.questions =~= m.questions);
            assert(self@.answers =~= m.answers);
            assert(self@.authoritiees =~= m.authoritiees);
            assert(self@.resources =~= m.resources);
        }
        write_sections(self, packet)
    }

    /// Read a message at the cursor: the header, then as many questions and
    /// records as its counts say.
    pub fn from_buffer(buffer: &mut BytePacketBuffer) -> (r: Result<DnsPackets, PacketError>)
        ensures
            final(buffer).same_bytes(old(buffer)),
            match message_at(old(buffer).data(), old(buffer).pos as int) {
                Ok((m, end)) => r is Ok && r->Ok_0@ == m && final(buffer).pos == end,
                Err(e) => r == Err::<DnsPackets, PacketError>(e),
            },
    {
        let ghost buf = buffer.data();
        let ghost start = buffer.pos as int;
        let mut result = DnsPackets::new();
        result.header.read(buffer)?;
        let ghost body = buffer.pos as int;
        let mut i: u16 = 0;
        proof {
            assert(result.questions@.map_values(|q: DnsQuestion| q@) =~= Seq::<(Seq<char>, QueryType)>::empty());
        }
        while i < result.header.questions
            invariant
                0 <= i <= result.header.questions,
                buffer.data() == buf,
                buf == old(buffer).data(),
                start == old(buffer).pos as int,
                body == start + 12,
                start + 12 <= 512,
                result.header == header_at(buf, start),
                result.answers@.len() == 0,
                result.authoritiees@.len() == 0,
                result.resources@.len() == 0,
                questions_at(buf, body, i as nat) == Ok::<(Seq<(Seq<char>, QueryType)>, int), PacketError>(
                    (result.questions@.map_values(|q: DnsQuestion| q@), buffer.pos as int),
                ),
            decreases result.header.questions - i,
        {
            let mut question = DnsQuestion::new(String::new(), QueryType::Unknown(0));
            match question.read(buffer) {
                Ok(()) => {},
                Err(e) => {
                    proof {
                        lemma_questions_at_err(buf, body, (i + 1) as nat, result.header.questions as nat);
                    }
                    return Err(e);
                },
            }
            let ghost before = result.questions@;
            result.questions.push(question);
            proof {
                assert(result.questions@.map_values(|q: DnsQuestion| q@) =~= before.map_values(
                    |q: DnsQuestion| q@,
                ).push(question@));
            }
            i = i + 1;
        }
        result.answers = read_records(buffer, result.header.answers)?;
        result.authoritiees = read_records(buffer, result.header.authorative_entries)?;
        result.resources = read_records(buffer, result.header.resource_entries)?;
        Ok(result)
    }
}

} // verus!
