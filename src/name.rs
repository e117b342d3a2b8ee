use vstd::prelude::*;
use vstd::utf8::encode_utf8;
use vstd::string::StringExecFns;
use crate::packet::PacketError;

verus! {

/// The byte of the label separator '.'.
pub const DOT: u8 = 46;

/// Largest length of one label.
pub const MAX_LABEL: usize = 63;

/// The labels of a dotted name: its bytes cut at every '.' byte. A name
/// with no dot is one label; the empty name is one empty label.
pub open spec fn split_dots(bs: Seq<u8>) -> Seq<Seq<u8>>
    decreases bs.len(),
{
    if bs.len() == 0 {
        seq![Seq::<u8>::empty()]
    } else {
        let p = split_dots(bs.drop_last());
        if bs.last() == DOT {
            p.push(Seq::<u8>::empty())
        } else {
            p.update(p.len() - 1, p.last().push(bs.last()))
        }
    }
}

/// Every label fits its one-byte length prefix.
pub open spec fn all_short(ls: Seq<Seq<u8>>) -> bool {
    forall|i: int| 0 <= i < ls.len() ==> #[trigger] ls[i].len() <= MAX_LABEL
}

/// The labels in wire form: each one its length byte and then its bytes.
pub open spec fn labels_wire(ls: Seq<Seq<u8>>) -> Seq<u8>
    decreases ls.len(),
{
    if ls.len() == 0 {
        Seq::empty()
    } else {
        labels_wire(ls.drop_last()) + seq![ls.last().len() as u8] + ls.last()
    }
}

/// The uncompressed wire form of a dotted name: its labels, then a zero byte.
pub open spec fn name_wire(bs: Seq<u8>) -> Seq<u8> {
    labels_wire(split_dots(bs)) + seq![0u8]
}

/// Encoding the name stops at label `k`, which is too long, after the
/// labels before it were written from cursor `at`.
pub open spec fn long_label_at(ls: Seq<Seq<u8>>, k: int, at: int) -> bool {
    &&& 0 <= k < ls.len()
    &&& ls[k].len() > MAX_LABEL
    &&& all_short(ls.take(k))
    &&& (k == 0 || at + labels_wire(ls.take(k)).len() <= 512)
}

/// What writing the dotted name `bs` from cursor `at` returns: a too-long
/// label that is reached stops it, else it needs room for the whole wire
/// form.
pub open spec fn qname_outcome(bs: Seq<u8>, at: int) -> Result<(), PacketError> {
    let ls = split_dots(bs);
    if exists|k: int| long_label_at(ls, k, at) {
        Err(PacketError::LabelTooLong)
    } else if all_short(ls) && at + name_wire(bs).len() <= 512 {
        Ok(())
    } else {
        Err(PacketError::BufferBounds)
    }
}

/// `o`, and then room up to `end`.
pub open spec fn then_fits(o: Result<(), PacketError>, end: int) -> Result<(), PacketError> {
    match o {
        Ok(()) => if end <= 512 {
            Ok(())
        } else {
            Err(PacketError::BufferBounds)
        },
        Err(e) => Err(e),
    }
}

pub proof fn lemma_split_nonempty(bs: Seq<u8>)
    ensures
        split_dots(bs).len() >= 1,
    decreases bs.len(),
{
    if bs.len() > 0 {
        lemma_split_nonempty(bs.drop_last());
    }
}

/// Bytes without a dot extend the last label.
pub proof fn lemma_split_extend(bs: Seq<u8>, start: int, end: int)
    requires
        0 <= start <= end <= bs.len(),
        forall|i: int| start <= i < end ==> bs[i] != DOT,
    ensures
        split_dots(bs.take(end)) == split_dots(bs.take(start)).drop_last().push(
            split_dots(bs.take(start)).last() + bs.subrange(start, end),
        ),
    decreases end - start,
{
    lemma_split_nonempty(bs.take(start));
    let s = split_dots(bs.take(start));
    if end == start {
        assert(bs.subrange(start, end) =~= Seq::<u8>::empty());
        assert(s.last() + Seq::<u8>::empty() =~= s.last());
        assert(s.drop_last().push(s.last()) =~= s);
    } else {
        lemma_split_extend(bs, start, end - 1);
        assert(bs.take(end).drop_last() =~= bs.take(end - 1));
        lemma_split_nonempty(bs.take(end - 1));
        assert(s.last() + bs.subrange(start, end) =~= (s.last() + bs.subrange(start, end - 1)).push(
            bs[end - 1],
        ));
        assert(split_dots(bs.take(end)) =~= s.drop_last().push(s.last() + bs.subrange(start, end)));
    }
}

/// A dot closes the last label and opens an empty one.
pub proof fn lemma_split_dot(bs: Seq<u8>, i: int)
    requires
        0 <= i < bs.len(),
        bs[i] == DOT,
    ensures
        split_dots(bs.take(i + 1)) == split_dots(bs.take(i)).push(Seq::<u8>::empty()),
{
    assert(bs.take(i + 1).drop_last() =~= bs.take(i));
}

/// The labels completed in a prefix stay the first labels of the whole.
pub proof fn lemma_split_prefix(bs: Seq<u8>, k: int, m: int)
    requires
        0 <= k <= m <= bs.len(),
    ensures
        split_dots(bs.take(k)).len() <= split_dots(bs.take(m)).len(),
        split_dots(bs.take(m)).take(split_dots(bs.take(k)).len() - 1) == split_dots(
            bs.take(k),
        ).drop_last(),
    decreases m - k,
{
    lemma_split_nonempty(bs.take(k));
    lemma_split_nonempty(bs.take(m));
    if k < m {
        lemma_split_prefix(bs, k, m - 1);
        assert(bs.take(m).drop_last() =~= bs.take(m - 1));
        lemma_split_nonempty(bs.take(m - 1));
        let a = split_dots(bs.take(m - 1));
        let n = split_dots(bs.take(k)).len() - 1;
        assert(split_dots(bs.take(m)).take(n) =~= a.take(n));
    } else {
        assert(split_dots(bs.take(m)).take(split_dots(bs.take(k)).len() - 1) =~= split_dots(
            bs.take(k),
        ).drop_last());
    }
}

pub proof fn lemma_labels_wire_concat(a: Seq<Seq<u8>>, b: Seq<Seq<u8>>)
    ensures
        labels_wire(a + b) == labels_wire(a) + labels_wire(b),
    decreases b.len(),
{
    if b.len() == 0 {
        assert(a + b =~= a);
        assert(labels_wire(a) + labels_wire(b) =~= labels_wire(a));
    } else {
        lemma_labels_wire_concat(a, b.drop_last());
        assert((a + b).drop_last() =~= a + b.drop_last());
        assert(labels_wire(a + b) =~= labels_wire(a) + labels_wire(b));
    }
}

/// Wire forms of prefixes grow with the prefix, by at least a length byte
/// and the bytes of each label added.
pub proof fn lemma_labels_wire_take(ls: Seq<Seq<u8>>, j: int, k: int)
    requires
        0 <= j <= k <= ls.len(),
    ensures
        labels_wire(ls.take(j)).len() <= labels_wire(ls.take(k)).len(),
        j < k ==> labels_wire(ls.take(j)).len() + 1 + ls[j].len() <= labels_wire(ls.take(k)).len(),
{
    lemma_labels_wire_concat(ls.take(j), ls.subrange(j, k));
    assert(ls.take(j) + ls.subrange(j, k) =~= ls.take(k));
    if j < k {
        lemma_labels_wire_concat(seq![ls[j]], ls.subrange(j + 1, k));
        assert(seq![ls[j]] + ls.subrange(j + 1, k) =~= ls.subrange(j, k));
        assert(seq![ls[j]].drop_last() =~= Seq::<Seq<u8>>::empty());
    }
}

/// Most pointers that one name may follow.
pub const MAX_JUMPS: usize = 5;

/// The offset that a compression pointer `hi lo` names: the low six bits of
/// `hi` and the eight bits of `lo`.
pub open spec fn pointer_target(hi: u8, lo: u8) -> int {
    (hi - 0xC0) * 256 + lo
}

/// The labels of the name that starts at `pos` in `buf`, after `jumps`
/// pointers were followed to reach it; or why it cannot be read.
pub open spec fn name_labels(buf: Seq<u8>, pos: int, jumps: nat) -> Result<
    Seq<Seq<u8>>,
    PacketError,
>
    decreases 6 - jumps, 512 - pos,
{
    if jumps > MAX_JUMPS {
        Err(PacketError::TooManyJumps)
    } else if pos < 0 || pos >= 512 || buf.len() != 512 {
        Err(PacketError::BufferBounds)
    } else {
        let len = buf[pos];
        if len >= 0xC0 {
            if pos + 1 >= 512 {
                Err(PacketError::BufferBounds)
            } else {
                name_labels(buf, pointer_target(len, buf[pos + 1]), jumps + 1)
            }
        } else if len == 0 {
            Ok(Seq::empty())
        } else if pos + 1 + len >= 512 {
            Err(PacketError::BufferBounds)
        } else {
            match name_labels(buf, pos + 1 + len, jumps) {
                Ok(rest) => Ok(seq![buf.subrange(pos + 1, pos + 1 + len)] + rest),
                Err(e) => Err(e),
            }
        }
    }
}

/// Where the field after the name at `pos` begins: just past the first
/// pointer, or just past the closing zero byte where there is no pointer.
pub open spec fn name_end(buf: Seq<u8>, pos: int) -> int
    decreases 512 - pos,
{
    if pos < 0 || pos >= 512 || buf.len() != 512 {
        pos
    } else if buf[pos] >= 0xC0 {
        pos + 2
    } else if buf[pos] == 0 || pos + 1 + buf[pos] >= 512 {
        pos + 1
    } else {
        name_end(buf, pos + 1 + buf[pos])
    }
}

/// `labels` in front of the labels of `r`.
pub open spec fn prepend_labels(labels: Seq<Seq<u8>>, r: Result<Seq<Seq<u8>>, PacketError>) -> Result<
    Seq<Seq<u8>>,
    PacketError,
> {
    match r {
        Ok(rest) => Ok(labels + rest),
        Err(e) => Err(e),
    }
}

/// The text of one label as read: decoded with replacement of invalid
/// sequences, then lowercased.
pub open spec fn label_text(label: Seq<u8>) -> Seq<char> {
    lower_text(lossy_text(label))
}

/// The text of a name as read: its labels' texts joined by '.'.
pub open spec fn name_text(ls: Seq<Seq<u8>>) -> Seq<char>
    decreases ls.len(),
{
    if ls.len() == 0 {
        Seq::empty()
    } else if ls.len() == 1 {
        label_text(ls[0])
    } else {
        name_text(ls.drop_last()) + seq!['.'] + label_text(ls.last())
    }
}

/// A name that reads back label for label: every label holds 1 to 63
/// bytes.
pub open spec fn labels_ok(ls: Seq<Seq<u8>>) -> bool {
    &&& all_short(ls)
    &&& forall|i: int| 0 <= i < ls.len() ==> #[trigger] ls[i].len() > 0
}

/// The text that reading back the written name `name` gives.
pub open spec fn read_back(name: Seq<char>) -> Seq<char> {
    name_text(split_dots(encode_utf8(name)))
}

pub proof fn lemma_labels_wire_first(ls: Seq<Seq<u8>>)
    requires
        ls.len() > 0,
    ensures
        labels_wire(ls) == seq![ls[0].len() as u8] + ls[0] + labels_wire(ls.drop_first()),
{
    let one = seq![ls[0]];
    lemma_labels_wire_concat(one, ls.drop_first());
    assert(one + ls.drop_first() =~= ls);
    assert(one.drop_last() =~= Seq::<Seq<u8>>::empty());
    assert(one.last() == ls[0]);
    assert(labels_wire(Seq::<Seq<u8>>::empty()) == Seq::<u8>::empty());
    assert(labels_wire(one) == labels_wire(one.drop_last()) + seq![one.last().len() as u8] + one.last());
    assert(labels_wire(one) =~= seq![ls[0].len() as u8] + ls[0]);
}

/// Labels in wire form, closed by a zero byte, read back as the same
/// labels, and the name ends right after the zero byte.
pub proof fn lemma_labels_read_back(buf: Seq<u8>, at: int, ls: Seq<Seq<u8>>, jumps: nat)
    requires
        buf.len() == 512,
        0 <= at,
        at + labels_wire(ls).len() + 1 <= 512,
        buf.subrange(at, at + labels_wire(ls).len() + 1) == labels_wire(ls) + seq![0u8],
        labels_ok(ls),
        jumps <= MAX_JUMPS,
    ensures
        name_labels(buf, at, jumps) == Ok::<Seq<Seq<u8>>, PacketError>(ls),
        name_end(buf, at) == at + labels_wire(ls).len() + 1,
    decreases ls.len(),
{
    let w = labels_wire(ls) + seq![0u8];
    assert(buf[at] == buf.subrange(at, at + labels_wire(ls).len() + 1)[0]);
    if ls.len() == 0 {
        assert(buf[at] == 0);
        assert(ls =~= Seq::<Seq<u8>>::empty());
    } else {
        lemma_labels_wire_first(ls);
        let l = ls[0];
        let rest = ls.drop_first();
        let n = l.len();
        assert(buf[at] == n as u8);
        assert(ls[0].len() <= MAX_LABEL);
        assert(ls[0].len() > 0);
        assert(buf.subrange(at + 1, at + 1 + n) =~= l) by {
            assert forall|i: int| 0 <= i < n implies buf.subrange(at + 1, at + 1 + n)[i] == l[i] by {
                assert(buf[at + 1 + i] == buf.subrange(at, at + labels_wire(ls).len() + 1)[1 + i]);
                assert(w[1 + i] == l[i]);
            }
        }
        assert(buf.subrange(at + 1 + n, at + 1 + n + labels_wire(rest).len() + 1) =~= labels_wire(rest)
            + seq![0u8]) by {
            assert forall|i: int| 0 <= i < labels_wire(rest).len() + 1 implies buf.subrange(
                at + 1 + n,
                at + 1 + n + labels_wire(rest).len() + 1,
            )[i] == (labels_wire(rest) + seq![0u8])[i] by {
                assert(buf[at + 1 + n + i] == buf.subrange(at, at + labels_wire(ls).len() + 1)[1 + n + i]);
                assert(w[1 + n + i] == (labels_wire(rest) + seq![0u8])[i]);
            }
        }
        assert(labels_ok(rest)) by {
            assert forall|i: int| 0 <= i < rest.len() implies #[trigger] rest[i].len() <= MAX_LABEL
                && rest[i].len() > 0 by {
                assert(rest[i] == ls[i + 1]);
            }
        }
        lemma_labels_read_back(buf, at + 1 + n, rest, jumps);
        assert(seq![l] + rest =~= ls);
        assert(labels_wire(ls).len() == 1 + n + labels_wire(rest).len());
        assert(buf[at] as int == n);
        assert(at + 1 + n < 512);
        assert(buf[at] < 0xC0 && buf[at] != 0);
        assert(name_labels(buf, at, jumps) == Ok::<Seq<Seq<u8>>, PacketError>(seq![buf.subrange(at + 1, at + 1 + n)] + rest));
    }
}

/// A name written without compression reads back as its labels, and the
/// field after it begins right after its closing zero byte.
pub proof fn lemma_name_read_back(buf: Seq<u8>, at: int, bs: Seq<u8>)
    requires
        buf.len() == 512,
        0 <= at,
        at + name_wire(bs).len() <= 512,
        buf.subrange(at, at + name_wire(bs).len()) == name_wire(bs),
        labels_ok(split_dots(bs)),
    ensures
        name_labels(buf, at, 0) == Ok::<Seq<Seq<u8>>, PacketError>(split_dots(bs)),
        name_end(buf, at) == at + name_wire(bs).len(),
{
    lemma_labels_read_back(buf, at, split_dots(bs), 0);
}

/// A name that is only a pointer to a name written without compression
/// reads as that name, and the field after it begins two bytes on.
pub proof fn lemma_pointer_to_name(buf: Seq<u8>, pos: int, k: int, bs: Seq<u8>)
    requires
        buf.len() == 512,
        0 <= pos,
        pos + 1 < 512,
        buf[pos] >= 0xC0,
        pointer_target(buf[pos], buf[pos + 1]) == k,
        0 <= k,
        k + name_wire(bs).len() <= 512,
        buf.subrange(k, k + name_wire(bs).len()) == name_wire(bs),
        labels_ok(split_dots(bs)),
    ensures
        name_labels(buf, pos, 0) == Ok::<Seq<Seq<u8>>, PacketError>(split_dots(bs)),
        name_end(buf, pos) == pos + 2,
{
    lemma_labels_read_back(buf, k, split_dots(bs), 1);
}

/// A label of 64 bytes cannot be written; one of 63 bytes can, where it
/// has room.
pub proof fn lemma_label_length_limit(bs: Seq<u8>, at: int)
    requires
        forall|i: int| 0 <= i < bs.len() ==> bs[i] != DOT,
    ensures
        bs.len() == 64 ==> qname_outcome(bs, at) == Err::<(), PacketError>(PacketError::LabelTooLong),
        bs.len() == 63 && at + 65 <= 512 ==> qname_outcome(bs, at) == Ok::<(), PacketError>(()),
{
    lemma_split_extend(bs, 0, bs.len() as int);
    assert(bs.take(0) =~= Seq::<u8>::empty());
    assert(bs.take(bs.len() as int) =~= bs);
    assert(Seq::<u8>::empty() + bs.subrange(0, bs.len() as int) =~= bs);
    let ls = split_dots(bs);
    assert(ls =~= seq![bs]);
    assert(ls.take(0) =~= Seq::<Seq<u8>>::empty());
    if bs.len() == 64 {
        assert(long_label_at(ls, 0, at));
    }
    if bs.len() == 63 {
        assert(seq![bs].drop_last() =~= Seq::<Seq<u8>>::empty());
        lemma_labels_wire_first(ls);
        assert(ls.drop_first() =~= Seq::<Seq<u8>>::empty());
        assert(labels_wire(ls).len() == 64);
        assert forall|k: int| !long_label_at(ls, k, at) by {}
    }
}

/// A chain of six compression pointers, each naming the next, cannot be
/// read: decoding stops with `TooManyJumps` rather than going on.
pub proof fn lemma_pointer_chain_too_long(buf: Seq<u8>, ps: Seq<int>)
    requires
        buf.len() == 512,
        ps.len() == MAX_JUMPS + 1,
        forall|i: int| 0 <= i < ps.len() ==> 0 <= #[trigger] ps[i] && ps[i] + 1 < 512 && buf[ps[i]] >= 0xC0,
        forall|i: int| 0 <= i < ps.len() - 1 ==> pointer_target(buf[ps[i]], buf[ps[i] + 1]) == #[trigger] ps[i + 1],
    ensures
        name_labels(buf, ps[0], 0) == Err::<Seq<Seq<u8>>, PacketError>(PacketError::TooManyJumps),
{
    lemma_pointer_chain_from(buf, ps, 0);
}

proof fn lemma_pointer_chain_from(buf: Seq<u8>, ps: Seq<int>, i: nat)
    requires
        buf.len() == 512,
        ps.len() == MAX_JUMPS + 1,
        i < ps.len(),
        forall|j: int| 0 <= j < ps.len() ==> 0 <= #[trigger] ps[j] && ps[j] + 1 < 512 && buf[ps[j]] >= 0xC0,
        forall|j: int| 0 <= j < ps.len() - 1 ==> pointer_target(buf[ps[j]], buf[ps[j] + 1]) == #[trigger] ps[j + 1],
    ensures
        name_labels(buf, ps[i as int], i) == Err::<Seq<Seq<u8>>, PacketError>(PacketError::TooManyJumps),
    decreases ps.len() - i,
{
    assert(buf[ps[i as int]] >= 0xC0);
    if i + 1 < ps.len() {
        lemma_pointer_chain_from(buf, ps, i + 1);
        assert(pointer_target(buf[ps[i as int]], buf[ps[i as int] + 1]) == ps[(i + 1) as int]);
    } else {
        let t = pointer_target(buf[ps[i as int]], buf[ps[i as int] + 1]);
        assert(name_labels(buf, t, i + 1) == Err::<Seq<Seq<u8>>, PacketError>(PacketError::TooManyJumps));
    }
}

/// Append the text of one label to a name being read: after a '.' unless it
/// is the first label.
pub fn append_label(out: &mut String, text: &str, first: bool)
    ensures
        first ==> final(out)@ == old(out)@ + text@,
        !first ==> final(out)@ == old(out)@ + seq!['.'] + text@,
{
    if !first {
        proof {
            reveal_strlit(".");
        }
        out.append(".");
    }
    out.append(text);
}

/// What `String::from_utf8_lossy` makes of some bytes.
pub uninterp spec fn lossy_text(b: Seq<u8>) -> Seq<char>;

/// What `str::to_lowercase` makes of some characters.
pub uninterp spec fn lower_text(s: Seq<char>) -> Seq<char>;

/// Relies on `String::from_utf8_lossy`: the text depends on the bytes
/// alone.
#[verifier::external_body]
pub(crate) fn utf8_lossy(b: &[u8]) -> (r: String)
    ensures
        r@ == lossy_text(b@),
{
    String::from_utf8_lossy(b).into_owned()
}

/// Relies on `str::to_lowercase`: the result depends on the characters
/// alone.
#[verifier::external_body]
pub(crate) fn lowercase(s: &str) -> (r: String)
    ensures
        r@ == lower_text(s@),
{
    s.to_lowercase()
}

} // verus!
