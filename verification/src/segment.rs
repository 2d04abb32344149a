//! Segments: runs of consecutive ids, and the bytes that record them.
//!
//! A record is laid out as
//!
//! ```text
//! offset 0   flags         1 byte
//! offset 1   level         1 byte
//! offset 2   high          8 bytes, big-endian
//! offset 10  high - low    variable-length integer
//!            parent count  variable-length integer
//!            parents       variable-length integer each
//! ```

use crate::endian::be_bytes;
use crate::endian::be_value;
use crate::endian::lemma_be_value_of_bytes;
use crate::endian::read_u64_be;
use crate::endian::write_u64_be;
use crate::id::Id;
use crate::id::GROUP_SPAN;
use crate::text::decimal;
use crate::text::hex_dump;
use crate::text::push_char;
use crate::text::push_decimal;
use crate::text::push_hex_dump;
use crate::varint;
use vstd::prelude::*;
use vstd::string::StringExecFns;

verus! {

/// Height of a segment: 0 for flat segments, more for segments of segments.
pub type Level = u8;

pub const OFFSET_FLAGS: usize = 0;

pub const OFFSET_LEVEL: usize = 1;

pub const OFFSET_HIGH: usize = 2;

pub const OFFSET_DELTA: usize = 10;

/// The level that no segment has: its byte starts the records that are
/// no segments.
pub const RESERVED_LEVEL: Level = 0xf0;

/// Bit of the flags byte: the segment holds an id without parents.
pub const FLAG_HAS_ROOT: u8 = 1;

/// Bit of the flags byte: the segment holds the only head of its group.
pub const FLAG_ONLY_HEAD: u8 = 2;

/// What is known of a segment beyond its ids and parents.
#[derive(Clone, Copy, Debug, PartialEq, Eq, Structural)]
pub struct SegmentFlags {
    pub has_root: bool,
    pub only_head: bool,
}

impl SegmentFlags {
    /// The flags byte of a record.
    pub open spec fn spec_bits(self) -> u8 {
        ((if self.has_root {
            1int
        } else {
            0int
        }) + (if self.only_head {
            2int
        } else {
            0int
        })) as u8
    }

    /// The flags that a byte stands for; `None` where it sets an unknown bit.
    pub open spec fn spec_from_bits(bits: u8) -> Option<SegmentFlags> {
        if bits < 4 {
            Some(SegmentFlags { has_root: bits % 2 == 1, only_head: bits >= 2 })
        } else {
            None
        }
    }

    pub fn empty() -> (f: SegmentFlags)
        ensures
            f == (SegmentFlags { has_root: false, only_head: false }),
    {
        SegmentFlags { has_root: false, only_head: false }
    }

    pub fn root() -> (f: SegmentFlags)
        ensures
            f == (SegmentFlags { has_root: true, only_head: false }),
    {
        SegmentFlags { has_root: true, only_head: false }
    }

    pub fn head() -> (f: SegmentFlags)
        ensures
            f == (SegmentFlags { has_root: false, only_head: true }),
    {
        SegmentFlags { has_root: false, only_head: true }
    }

    #[verifier::when_used_as_spec(spec_bits)]
    pub fn bits(self) -> (b: u8)
        ensures
            b == self.spec_bits(),
            b < 4,
    {
        let r: u8 = if self.has_root {
            FLAG_HAS_ROOT
        } else {
            0
        };
        let h: u8 = if self.only_head {
            FLAG_ONLY_HEAD
        } else {
            0
        };
        r + h
    }

    pub fn from_bits(bits: u8) -> (f: Option<SegmentFlags>)
        ensures
            f == Self::spec_from_bits(bits),
    {
        if bits < 4 {
            Some(SegmentFlags { has_root: bits % 2 == 1, only_head: bits >= 2 })
        } else {
            None
        }
    }
}

/// Flags and their byte determine each other.
pub proof fn lemma_flags_roundtrip(f: SegmentFlags)
    ensures
        SegmentFlags::spec_from_bits(f.spec_bits()) == Some(f),
{
}

/// A segment as a mathematical value.
pub struct SegmentView {
    pub flags: SegmentFlags,
    pub level: Level,
    pub low: Id,
    pub high: Id,
    pub parents: Seq<Id>,
}

impl SegmentView {
    /// What every segment satisfies:
    /// its ids run from `low` up to `high` inside one group, it is marked
    /// as holding a root exactly when it has no parents, the parents of
    /// a flat segment come before its ids, and its level is not the
    /// reserved one.
    pub open spec fn wf(self) -> bool {
        &&& self.level != RESERVED_LEVEL
        &&& self.low.0 <= self.high.0
        &&& self.low.wf()
        &&& self.low.spec_group() == self.high.spec_group()
        &&& self.flags.has_root <==> self.parents.len() == 0
        &&& self.parents.len() <= u64::MAX
        &&& self.level == 0 ==> forall|i: int|
            0 <= i < self.parents.len() ==> (#[trigger] self.parents[i]).0 < self.low.0
    }

    /// Whether `id` is one of the ids of the segment.
    pub open spec fn contains(self, id: Id) -> bool {
        self.low.0 <= id.0 <= self.high.0
    }
}

/// The bytes that record the parents `ps`, one after another.
pub open spec fn parents_encoding(ps: Seq<Id>) -> Seq<u8>
    decreases ps.len(),
{
    if ps.len() == 0 {
        Seq::empty()
    } else {
        varint::encoding(ps[0].0 as nat) + parents_encoding(ps.skip(1))
    }
}

/// The ten bytes that start the record of a segment, without the flags:
/// its level and its highest id. This is the key of the segment in the
/// index by level and head.
pub open spec fn level_head_key(level: Level, high: Id) -> Seq<u8> {
    seq![level] + be_bytes(high.0)
}

/// The record of a segment.
pub open spec fn encoding(v: SegmentView) -> Seq<u8> {
    seq![v.flags.spec_bits()] + level_head_key(v.level, v.high) + varint::encoding(
        (v.high.0 - v.low.0) as nat,
    ) + varint::encoding(v.parents.len()) + parents_encoding(v.parents)
}

/// Reads `count` parents from the start of `s`: the parents and the number
/// of bytes they take.
pub open spec fn parents_decoding(s: Seq<u8>, count: nat) -> Option<(Seq<Id>, nat)>
    decreases count,
{
    if count == 0 {
        Some((Seq::empty(), 0nat))
    } else {
        match varint::decoding_u64(s) {
            Some((p, n)) => match parents_decoding(s.skip(n as int), (count - 1) as nat) {
                Some((rest, m)) => Some((seq![Id(p)] + rest, (n + m) as nat)),
                None => None,
            },
            None => None,
        }
    }
}

/// The fields of the record `b`, read in order without any check on what
/// they hold; `None` where `b` ends early or goes on after the last parent.
pub open spec fn fields(b: Seq<u8>) -> Option<(u8, SegmentView)> {
    if b.len() < OFFSET_DELTA {
        None
    } else {
        match varint::decoding_u64(b.skip(OFFSET_DELTA as int)) {
            Some((delta, n1)) => match varint::decoding_u64(b.skip(OFFSET_DELTA + n1)) {
                Some((count, n2)) => match parents_decoding(
                    b.skip(OFFSET_DELTA + n1 + n2),
                    count as nat,
                ) {
                    Some((parents, n3)) => {
                        let high = be_value(b.subrange(OFFSET_HIGH as int, OFFSET_DELTA as int));
                        if OFFSET_DELTA + n1 + n2 + n3 == b.len() && delta <= high {
                            Some(
                                (
                                    b[0],
                                    SegmentView {
                                        flags: SegmentFlags { has_root: false, only_head: false },
                                        level: b[1],
                                        low: Id((high - delta) as u64),
                                        high: Id(high),
                                        parents,
                                    },
                                ),
                            )
                        } else {
                            None
                        }
                    },
                    None => None,
                },
                None => None,
            },
            None => None,
        }
    }
}

/// The segment that the record `b` holds; `None` where `b` is no record
/// of a well-formed segment.
pub open spec fn decoding(b: Seq<u8>) -> Option<SegmentView> {
    match fields(b) {
        Some((bits, raw)) => match SegmentFlags::spec_from_bits(bits) {
            Some(flags) => {
                let v = SegmentView { flags, ..raw };
                if v.wf() {
                    Some(v)
                } else {
                    None
                }
            },
            None => None,
        },
        None => None,
    }
}

/// Reading parents that were written gives them back, when nothing follows.
pub proof fn lemma_parents_roundtrip(ps: Seq<Id>)
    ensures
        parents_decoding(parents_encoding(ps), ps.len()) == Some(
            (ps, parents_encoding(ps).len()),
        ),
    decreases ps.len(),
{
    if ps.len() > 0 {
        let first = varint::encoding(ps[0].0 as nat);
        let rest = parents_encoding(ps.skip(1));
        varint::lemma_roundtrip_u64(ps[0].0, rest);
        varint::lemma_encoding_len_u64(ps[0].0);
        lemma_parents_roundtrip(ps.skip(1));
        let n = first.len() as usize;
        assert(varint::decoding_u64(first + rest) == Some((ps[0].0, n)));
        assert((first + rest).skip(n as int) =~= rest);
        assert(seq![Id(ps[0].0)] + ps.skip(1) =~= ps);
        assert(parents_encoding(ps) =~= first + rest);
    }
}

/// The record of a well-formed segment is read back as that segment.
pub proof fn lemma_decoding_of_encoding(v: SegmentView)
    requires
        v.wf(),
    ensures
        decoding(encoding(v)) == Some(v),
{
    let b = encoding(v);
    let d = varint::encoding((v.high.0 - v.low.0) as nat);
    let c = varint::encoding(v.parents.len());
    let p = parents_encoding(v.parents);
    let delta = (v.high.0 - v.low.0) as u64;
    let count = v.parents.len() as u64;
    lemma_be_value_of_bytes(v.high.0);
    varint::lemma_encoding_len_u64(delta);
    varint::lemma_encoding_len_u64(count);
    varint::lemma_roundtrip_u64(delta, c + p);
    varint::lemma_roundtrip_u64(count, p);
    lemma_parents_roundtrip(v.parents);
    let n1 = d.len() as usize;
    let n2 = c.len() as usize;
    assert(b.len() == OFFSET_DELTA + d.len() + c.len() + p.len());
    assert(b.skip(OFFSET_DELTA as int) =~= d + (c + p));
    assert(b.skip(OFFSET_DELTA + n1) =~= c + p);
    assert(b.skip(OFFSET_DELTA + n1 + n2) =~= p);
    let part = b.subrange(OFFSET_HIGH as int, OFFSET_DELTA as int);
    assert(part =~= be_bytes(v.high.0));
    assert(b[0] == v.flags.spec_bits());
    assert(b[1] == v.level);
    lemma_flags_roundtrip(v.flags);
    let raw = SegmentView {
        flags: SegmentFlags { has_root: false, only_head: false },
        level: v.level,
        low: Id((v.high.0 - delta) as u64),
        high: v.high,
        parents: v.parents,
    };
    assert(fields(b) == Some((b[0], raw)));
    assert((SegmentView { flags: v.flags, ..raw }) == v);
}

/// Writing the parents `ps` and then `p` is writing `ps.push(p)`.
pub proof fn lemma_parents_encoding_push(ps: Seq<Id>, p: Id)
    ensures
        parents_encoding(ps.push(p)) == parents_encoding(ps) + varint::encoding(p.0 as nat),
    decreases ps.len(),
{
    if ps.len() == 0 {
        let one = ps.push(p);
        assert(one.skip(1) =~= Seq::<Id>::empty());
        assert(one[0] == p);
        assert(parents_encoding(one.skip(1)) =~= Seq::<u8>::empty());
        assert(parents_encoding(one) =~= varint::encoding(p.0 as nat) + parents_encoding(
            one.skip(1),
        ));
        assert(parents_encoding(ps) =~= Seq::<u8>::empty());
        assert(parents_encoding(one) =~= parents_encoding(ps) + varint::encoding(p.0 as nat));
    } else {
        lemma_parents_encoding_push(ps.skip(1), p);
        assert(ps.push(p).skip(1) =~= ps.skip(1).push(p));
        assert(parents_encoding(ps.push(p)) =~= parents_encoding(ps) + varint::encoding(
            p.0 as nat,
        ));
    }
}

/// The error of reading a record: the bytes are no record of a
/// well-formed segment.
#[derive(Clone, Copy, Debug, PartialEq, Eq, Structural)]
pub struct CorruptSegment;

/// A segment with its fields at hand.
#[derive(Clone, Debug)]
pub struct SegmentData {
    pub flags: SegmentFlags,
    pub level: Level,
    pub low: Id,
    pub high: Id,
    pub parents: Vec<Id>,
}

impl View for SegmentData {
    type V = SegmentView;

    open spec fn view(&self) -> SegmentView {
        SegmentView {
            flags: self.flags,
            level: self.level,
            low: self.low,
            high: self.high,
            parents: self.parents@,
        }
    }
}

/// Whether all of `parents` come before `low`.
fn parents_precede(parents: &Vec<Id>, low: Id) -> (b: bool)
    ensures
        b == forall|i: int| 0 <= i < parents@.len() ==> (#[trigger] parents@[i]).0 < low.0,
{
    let mut i: usize = 0;
    while i < parents.len()
        invariant
            i <= parents@.len(),
            forall|j: int| 0 <= j < i ==> (#[trigger] parents@[j]).0 < low.0,
        decreases parents@.len() - i,
    {
        if parents[i].0 >= low.0 {
            return false;
        }
        i = i + 1;
    }
    true
}

impl SegmentData {
    /// Whether the segment is well-formed.
    pub fn is_wf(&self) -> (b: bool)
        ensures
            b == self@.wf(),
    {
        let low_group = self.low.group();
        let high_group = self.high.group();
        let groups = match (low_group, high_group) {
            (Some(a), Some(b)) => a == b,
            _ => false,
        };
        let ordered = self.level != 0 || parents_precede(&self.parents, self.low);
        self.level != RESERVED_LEVEL && self.low.0 <= self.high.0 && groups && self.flags.has_root
            == (self.parents.len() == 0) && ordered
    }

    /// The record of the segment.
    pub fn encode(&self) -> (bytes: Vec<u8>)
        requires
            self.low.0 <= self.high.0,
        ensures
            bytes@ == encoding(self@),
    {
        let mut out: Vec<u8> = Vec::new();
        out.push(self.flags.bits());
        out.push(self.level);
        let mut high = write_u64_be(self.high.0);
        out.append(&mut high);
        varint::write(&mut out, self.high.0 - self.low.0);
        varint::write(&mut out, self.parents.len() as u64);
        let ghost head = out@;
        let mut i: usize = 0;
        while i < self.parents.len()
            invariant
                i <= self.parents@.len(),
                out@ == head + parents_encoding(self.parents@.take(i as int)),
            decreases self.parents@.len() - i,
        {
            let ghost before = out@;
            varint::write(&mut out, self.parents[i].0);
            proof {
                let done = self.parents@.take(i as int);
                lemma_parents_encoding_push(done, self.parents@[i as int]);
                assert(done.push(self.parents@[i as int]) =~= self.parents@.take(i + 1));
                assert(out@ =~= head + parents_encoding(self.parents@.take(i + 1)));
            }
            i = i + 1;
        }
        proof {
            assert(self.parents@.take(i as int) =~= self.parents@);
            assert(out@ =~= encoding(self@));
        }
        out
    }
}

/// How parents read from `s.skip(used)` extend the parents `acc` read so far.
pub open spec fn parents_extended(tail: Option<(Seq<Id>, nat)>, acc: Seq<Id>, used: nat) -> Option<
    (Seq<Id>, nat),
> {
    match tail {
        Some((rest, m)) => Some((acc + rest, used + m)),
        None => None,
    }
}

/// Reads the record `bytes`.
///
/// Returns the segment that `decoding` gives, and `CorruptSegment` exactly
/// where it gives none.
pub fn decode(bytes: &[u8]) -> (r: Result<SegmentData, CorruptSegment>)
    ensures
        match r {
            Ok(d) => decoding(bytes@) == Some(d@),
            Err(_) => decoding(bytes@).is_none(),
        },
{
    if bytes.len() < OFFSET_DELTA {
        return Err(CorruptSegment);
    }
    let bits = bytes[OFFSET_FLAGS];
    let level = bytes[OFFSET_LEVEL];
    let high = read_u64_be(vstd::slice::slice_subrange(bytes, OFFSET_HIGH, OFFSET_DELTA));
    proof {
        let part = bytes@.subrange(OFFSET_HIGH as int, OFFSET_DELTA as int);
        assert(part.take(8) =~= part);
    }
    let (delta, n1) = match varint::read(bytes, OFFSET_DELTA) {
        Some(x) => x,
        None => { return Err(CorruptSegment); },
    };
    proof {
        varint::lemma_decoding_takes_a_byte(bytes@.skip(OFFSET_DELTA as int));
    }
    let (count, n2) = match varint::read(bytes, OFFSET_DELTA + n1) {
        Some(x) => x,
        None => { return Err(CorruptSegment); },
    };
    proof {
        varint::lemma_decoding_takes_a_byte(bytes@.skip(OFFSET_DELTA + n1));
    }
    let start: usize = OFFSET_DELTA + n1 + n2;
    let ghost s = bytes@.skip(start as int);
    let mut parents: Vec<Id> = Vec::new();
    let mut used: usize = 0;
    let mut i: u64 = 0;
    let ghost whole = parents_decoding(s, count as nat);
    proof {
        assert(s.skip(0) =~= s);
        match whole {
            Some((rest, m)) => {
                assert(Seq::<Id>::empty() + rest =~= rest);
            },
            None => {},
        }
        assert(fields(bytes@) == match whole {
            Some((ps, n3)) => if start + n3 == bytes@.len() && delta <= high {
                Some(
                    (
                        bits,
                        SegmentView {
                            flags: SegmentFlags { has_root: false, only_head: false },
                            level,
                            low: Id((high - delta) as u64),
                            high: Id(high),
                            parents: ps,
                        },
                    ),
                )
            } else {
                None
            },
            None => None,
        });
    }
    while i < count
        invariant
            start <= bytes@.len(),
            s == bytes@.skip(start as int),
            whole == parents_decoding(s, count as nat),
            whole.is_none() ==> decoding(bytes@).is_none(),
            s.len() == bytes@.len() - start,
            bytes@.len() <= usize::MAX,
            i <= count,
            used <= s.len(),
            parents_decoding(s, count as nat) == parents_extended(
                parents_decoding(s.skip(used as int), (count - i) as nat),
                parents@,
                used as nat,
            ),
        decreases count - i,
    {
        let ghost t = s.skip(used as int);
        proof {
            assert(t =~= bytes@.skip(start + used));
        }
        let (p, n) = match varint::read(bytes, start + used) {
            Some(x) => x,
            None => { return Err(CorruptSegment); },
        };
        proof {
            varint::lemma_decoding_takes_a_byte(t);
            assert(t.skip(n as int) =~= s.skip(used + n));
            let next = parents_decoding(s.skip(used + n), (count - i - 1) as nat);
            match next {
                Some((rest, m)) => {
                    assert(parents@ + (seq![Id(p)] + rest) =~= parents@.push(Id(p)) + rest);
                },
                None => {},
            }
        }
        parents.push(Id(p));
        used = used + n;
        i = i + 1;
    }
    proof {
        assert(parents@ + Seq::<Id>::empty() =~= parents@);
    }
    if start + used != bytes.len() || delta > high {
        return Err(CorruptSegment);
    }
    let flags = match SegmentFlags::from_bits(bits) {
        Some(f) => f,
        None => { return Err(CorruptSegment); },
    };
    let data = SegmentData { flags, level, low: Id(high - delta), high: Id(high), parents };
    if data.is_wf() {
        Ok(data)
    } else {
        Err(CorruptSegment)
    }
}

/// A run of consecutive ids, both ends included.
#[derive(Clone, Copy, Debug, PartialEq, Eq, Structural)]
pub struct Span {
    pub low: Id,
    pub high: Id,
}

impl Span {
    pub open spec fn spec_contains(self, id: Id) -> bool {
        self.low.0 <= id.0 <= self.high.0
    }

    #[verifier::when_used_as_spec(spec_contains)]
    pub fn contains(self, id: Id) -> (b: bool)
        ensures
            b == self.spec_contains(id),
    {
        self.low.0 <= id.0 && id.0 <= self.high.0
    }
}

/// The record of a segment, as it lies in the log.
#[derive(Clone, Debug)]
pub struct Segment(pub Vec<u8>);

impl View for Segment {
    type V = Seq<u8>;

    open spec fn view(&self) -> Seq<u8> {
        self.0@
    }
}

impl Segment {
    /// The segment that the record holds, if it is the record of one.
    pub open spec fn spec_data(self) -> Option<SegmentView> {
        decoding(self.0@)
    }

    /// Makes the record of the segment with the given fields.
    pub fn new(flags: SegmentFlags, level: Level, low: Id, high: Id, parents: &[Id]) -> (seg:
        Segment)
        requires
            low.0 <= high.0,
        ensures
            seg@ == encoding(SegmentView { flags, level, low, high, parents: parents@ }),
    {
        let data = SegmentData { flags, level, low,
            high, parents: vstd::slice::slice_to_vec(parents) };
        Segment(data.encode())
    }

    /// Reads the record.
    pub fn data(&self) -> (r: Result<SegmentData, CorruptSegment>)
        ensures
            match r {
                Ok(d) => self.spec_data() == Some(d@),
                Err(_) => self.spec_data().is_none(),
            },
    {
        decode(self.0.as_slice())
    }

    pub fn flags(&self) -> (r: Result<SegmentFlags, CorruptSegment>)
        ensures
            match r {
                Ok(f) => self.spec_data().is_some() && f == self.spec_data().unwrap().flags,
                Err(_) => self.spec_data().is_none(),
            },
    {
        match self.data() {
            Ok(d) => Ok(d.flags),
            Err(e) => Err(e),
        }
    }

    pub fn has_root(&self) -> (r: Result<bool, CorruptSegment>)
        ensures
            match r {
                Ok(b) => self.spec_data().is_some()
                    && b == self.spec_data().unwrap().flags.has_root,
                Err(_) => self.spec_data().is_none(),
            },
    {
        match self.data() {
            Ok(d) => Ok(d.flags.has_root),
            Err(e) => Err(e),
        }
    }

    pub fn only_head(&self) -> (r: Result<bool, CorruptSegment>)
        ensures
            match r {
                Ok(b) => self.spec_data().is_some() && b
                    == self.spec_data().unwrap().flags.only_head,
                Err(_) => self.spec_data().is_none(),
            },
    {
        match self.data() {
            Ok(d) => Ok(d.flags.only_head),
            Err(e) => Err(e),
        }
    }

    pub fn level(&self) -> (r: Result<Level, CorruptSegment>)
        ensures
            match r {
                Ok(l) => self.spec_data().is_some() && l == self.spec_data().unwrap().level,
                Err(_) => self.spec_data().is_none(),
            },
    {
        match self.data() {
            Ok(d) => Ok(d.level),
            Err(e) => Err(e),
        }
    }

    pub fn high(&self) -> (r: Result<Id, CorruptSegment>)
        ensures
            match r {
                Ok(h) => self.spec_data().is_some() && h == self.spec_data().unwrap().high,
                Err(_) => self.spec_data().is_none(),
            },
    {
        match self.data() {
            Ok(d) => Ok(d.high),
            Err(e) => Err(e),
        }
    }

    /// The head of a segment is its highest id.
    pub fn head(&self) -> (r: Result<Id, CorruptSegment>)
        ensures
            match r {
                Ok(h) => self.spec_data().is_some() && h == self.spec_data().unwrap().high,
                Err(_) => self.spec_data().is_none(),
            },
    {
        self.high()
    }

    pub fn span(&self) -> (r: Result<Span, CorruptSegment>)
        ensures
            match r {
                Ok(sp) => self.spec_data().is_some() && sp.low == self.spec_data().unwrap().low
                    && sp.high == self.spec_data().unwrap().high,
                Err(_) => self.spec_data().is_none(),
            },
    {
        match self.data() {
            Ok(d) => Ok(Span { low: d.low, high: d.high }),
            Err(e) => Err(e),
        }
    }

    pub fn parents(&self) -> (r: Result<Vec<Id>, CorruptSegment>)
        ensures
            match r {
                Ok(ps) => self.spec_data().is_some() && ps@ == self.spec_data().unwrap().parents,
                Err(_) => self.spec_data().is_none(),
            },
    {
        match self.data() {
            Ok(d) => Ok(d.parents),
            Err(e) => Err(e),
        }
    }
}

/// An id as it is shown: the number for the master group, `N` and the
/// position inside the group for the other one.
pub open spec fn id_text(id: Id) -> Seq<char> {
    if GROUP_SPAN <= id.0 < 2 * GROUP_SPAN {
        seq!['N'] + decimal((id.0 - GROUP_SPAN) as nat)
    } else {
        decimal(id.0 as nat)
    }
}

/// Appends `id` as it is shown.
pub fn push_id(s: &mut String, id: Id)
    ensures
        final(s)@ == old(s)@ + id_text(id),
{
    let ghost start = s@;
    if id.0 >= GROUP_SPAN && id.0 - GROUP_SPAN < GROUP_SPAN {
        push_char(s, 'N');
        push_decimal(s, id.0 - GROUP_SPAN);
        proof {
            assert(s@ =~= start + id_text(id));
        }
    } else {
        push_decimal(s, id.0);
    }
}

/// The ids `ps[from..]`, separated by a comma and a space.
pub open spec fn id_list_text(ps: Seq<Id>, from: int) -> Seq<char>
    decreases ps.len() - from,
{
    if from >= ps.len() {
        Seq::empty()
    } else if from + 1 == ps.len() {
        id_text(ps[from])
    } else {
        id_text(ps[from]) + ", "@ + id_list_text(ps, from + 1)
    }
}

/// A segment in short: `R` where it has a root, `H` where it holds the
/// only head, then its ids and, in brackets, its parents.
pub open spec fn segment_text(v: SegmentView) -> Seq<char> {
    (if v.flags.has_root {
        seq!['R']
    } else {
        Seq::empty()
    }) + (if v.flags.only_head {
        seq!['H']
    } else {
        Seq::empty()
    }) + id_text(v.low) + seq!['-'] + id_text(v.high) + seq!['['] + id_list_text(v.parents, 0)
        + seq![']']
}

impl SegmentData {
    /// The segment in short, as `segment_text` spells it.
    pub fn to_text(&self) -> (s: String)
        ensures
            s@ == segment_text(self@),
    {
        let mut s = String::new();
        if self.flags.has_root {
            push_char(&mut s, 'R');
        }
        if self.flags.only_head {
            push_char(&mut s, 'H');
        }
        push_id(&mut s, self.low);
        push_char(&mut s, '-');
        push_id(&mut s, self.high);
        push_char(&mut s, '[');
        let ghost head = s@;
        let mut i: usize = 0;
        while i < self.parents.len()
            invariant
                i <= self.parents@.len(),
                s@ + id_list_text(self.parents@, i as int) == head + id_list_text(self.parents@, 0),
            decreases self.parents@.len() - i,
        {
            let ghost before = s@;
            push_id(&mut s, self.parents[i]);
            if i + 1 < self.parents.len() {
                s.append(", ");
            }
            proof {
                let ps = self.parents@;
                if i + 1 < ps.len() {
                    assert(s@ + id_list_text(ps, i + 1) =~= before + id_list_text(ps, i as int));
                } else {
                    assert(id_list_text(ps, i + 1) =~= Seq::<char>::empty());
                    assert(s@ + id_list_text(ps, i + 1) =~= before + id_list_text(ps, i as int));
                }
            }
            i = i + 1;
        }
        proof {
            assert(id_list_text(self.parents@, i as int) =~= Seq::<char>::empty());
            assert(s@ =~= head + id_list_text(self.parents@, 0));
        }
        push_char(&mut s, ']');
        proof {
            assert(s@ =~= segment_text(self@));
        }
        s
    }
}

/// The names of the flags that the two low bits of `bits` set.
pub open spec fn flags_text(bits: u8) -> Seq<char> {
    if bits % 4 == 0 {
        "(empty)"@
    } else if bits % 4 == 1 {
        "HAS_ROOT"@
    } else if bits % 4 == 2 {
        "ONLY_HEAD"@
    } else {
        "HAS_ROOT | ONLY_HEAD"@
    }
}

/// One line of a description: the bytes in hexadecimal, then what they mean.
pub open spec fn described(bytes: Seq<u8>, what: Seq<char>) -> Seq<char> {
    "# "@ + hex_dump(bytes) + ": "@ + what + "\n"@
}

/// Appends one line of a description.
pub fn push_described(s: &mut String, bytes: &[u8], what: &str)
    ensures
        final(s)@ == old(s)@ + described(bytes@, what@),
{
    let ghost start = s@;
    s.append("# ");
    push_hex_dump(s, bytes);
    s.append(": ");
    s.append(what);
    s.append("\n");
    proof {
        assert(s@ =~= start + described(bytes@, what@));
    }
}

/// What is said of the bytes that hold `high - low`.
pub open spec fn delta_text(delta: u64, high: u64) -> Seq<char> {
    "Delta = "@ + decimal(delta as nat) + (if delta <= high {
        " (Low = "@ + id_text(Id((high - delta) as u64)) + ")"@
    } else {
        Seq::empty()
    })
}

/// The lines for the parents numbered `i` and up, which start at `pos`.
pub open spec fn parents_described(data: Seq<u8>, pos: int, i: nat, count: nat) -> Seq<char>
    decreases count - i,
{
    if i >= count || pos > data.len() {
        Seq::empty()
    } else {
        match varint::decoding_u64(data.skip(pos)) {
            Some((p, n)) => described(
                data.subrange(pos, pos + n),
                "Parents["@ + decimal(i) + "] = "@ + id_text(Id(p)),
            ) + parents_described(data, pos + n, i + 1, count),
            None => Seq::empty(),
        }
    }
}

/// What follows the line of the highest id: the lines from `high - low` on.
pub open spec fn tail_described(data: Seq<u8>, high: u64) -> Seq<char> {
    match varint::decoding_u64(data.skip(OFFSET_DELTA as int)) {
        Some((delta, n1)) => described(
            data.subrange(OFFSET_DELTA as int, OFFSET_DELTA + n1),
            delta_text(delta, high),
        ) + (match varint::decoding_u64(data.skip(OFFSET_DELTA + n1)) {
            Some((count, n2)) => described(
                data.subrange(OFFSET_DELTA + n1, OFFSET_DELTA + n1 + n2),
                "Parent count = "@ + decimal(count as nat),
            ) + parents_described(data, OFFSET_DELTA + n1 + n2, 0, count as nat),
            None => Seq::empty(),
        }),
        None => Seq::empty(),
    }
}

/// The description of the bytes of a record, field by field, one line
/// each, up to the first field that the bytes do not hold.
pub open spec fn segment_described(data: Seq<u8>) -> Seq<char> {
    if data.len() < 1 {
        Seq::empty()
    } else {
        described(data.subrange(0, 1), "Flags = "@ + flags_text(data[0])) + (if data.len() < 2 {
            Seq::empty()
        } else {
            described(data.subrange(1, 2), "Level = "@ + decimal(data[1] as nat)) + (if data.len()
                < OFFSET_DELTA {
                Seq::empty()
            } else {
                let high = be_value(data.subrange(OFFSET_HIGH as int, OFFSET_DELTA as int));
                described(
                    data.subrange(OFFSET_HIGH as int, OFFSET_DELTA as int),
                    "High = "@ + id_text(Id(high)),
                ) + tail_described(data, high)
            })
        })
    }
}

fn flags_name(bits: u8) -> (name: &'static str)
    ensures
        name@ == flags_text(bits),
{
    if bits % 4 == 0 {
        "(empty)"
    } else if bits % 4 == 1 {
        "HAS_ROOT"
    } else if bits % 4 == 2 {
        "ONLY_HEAD"
    } else {
        "HAS_ROOT | ONLY_HEAD"
    }
}

/// Appends the lines for the `count` parents that start at `start`.
fn push_parents_described(message: &mut String, data: &[u8], start: usize, count: u64)
    requires
        start <= data@.len(),
    ensures
        final(message)@ == old(message)@ + parents_described(
            data@,
            start as int,
            0,
            count as nat,
        ),
{
    let ghost whole = message@ + parents_described(data@, start as int, 0, count as nat);
    let total = data.len();
    let mut pos: usize = start;
    let mut i: u64 = 0;
    while i < count
        invariant
            i <= count,
            pos <= data@.len(),
            data@.len() == total,
            whole == old(message)@ + parents_described(data@, start as int, 0, count as nat),
            message@ + parents_described(data@, pos as int, i as nat, count as nat) == whole,
        decreases count - i,
    {
        let (p, n) = match varint::read(data, pos) {
            Some(x) => x,
            None => {
                proof {
                    assert(message@ =~= whole);
                }
                return ;
            },
        };
        proof {
            varint::lemma_decoding_takes_a_byte(data@.skip(pos as int));
        }
        let mut what = String::from_str("Parents[");
        push_decimal(&mut what, i);
        what.append("] = ");
        push_id(&mut what, Id(p));
        let ghost before = message@;
        let ghost line = described(
            data@.subrange(pos as int, pos + n),
            "Parents["@ + decimal(i as nat) + "] = "@ + id_text(Id(p)),
        );
        proof {
            assert(what@ =~= "Parents["@ + decimal(i as nat) + "] = "@ + id_text(Id(p)));
        }
        push_described(message, vstd::slice::slice_subrange(data, pos, pos + n), what.as_str());
        proof {
            let rest = parents_described(data@, pos + n, (i + 1) as nat, count as nat);
            assert(parents_described(data@, pos as int, i as nat, count as nat) == line + rest);
            assert(message@ == before + line);
            assert((before + line) + rest =~= before + (line + rest));
        }
        pos = pos + n;
        i = i + 1;
    }
    proof {
        assert(message@ =~= whole);
    }
}

/// Appends the lines that follow the line of the highest id.
fn push_tail_described(message: &mut String, data: &[u8], high: u64)
    requires
        data@.len() >= OFFSET_DELTA,
    ensures
        final(message)@ == old(message)@ + tail_described(data@, high),
{
    let ghost start = message@;
    let (delta, n1) = match varint::read(data, OFFSET_DELTA) {
        Some(x) => x,
        None => {
            proof {
                assert(message@ =~= start + tail_described(data@, high));
            }
            return ;
        },
    };
    proof {
        varint::lemma_decoding_takes_a_byte(data@.skip(OFFSET_DELTA as int));
    }
    let mut what = String::from_str("Delta = ");
    push_decimal(&mut what, delta);
    if delta <= high {
        what.append(" (Low = ");
        push_id(&mut what, Id(high - delta));
        what.append(")");
    }
    proof {
        assert(what@ =~= delta_text(delta, high));
    }
    let ghost line1 = described(
        data@.subrange(OFFSET_DELTA as int, OFFSET_DELTA + n1),
        delta_text(delta, high),
    );
    push_described(
        message,
        vstd::slice::slice_subrange(data, OFFSET_DELTA, OFFSET_DELTA + n1),
        what.as_str(),
    );
    let (count, n2) = match varint::read(data, OFFSET_DELTA + n1) {
        Some(x) => x,
        None => {
            proof {
                assert(tail_described(data@, high) =~= line1);
            }
            return ;
        },
    };
    proof {
        varint::lemma_decoding_takes_a_byte(data@.skip(OFFSET_DELTA + n1));
    }
    let mut what = String::from_str("Parent count = ");
    push_decimal(&mut what, count);
    let ghost line2 = described(
        data@.subrange(OFFSET_DELTA + n1, OFFSET_DELTA + n1 + n2),
        "Parent count = "@ + decimal(count as nat),
    );
    push_described(
        message,
        vstd::slice::slice_subrange(data, OFFSET_DELTA + n1, OFFSET_DELTA + n1 + n2),
        what.as_str(),
    );
    push_parents_described(message, data, OFFSET_DELTA + n1 + n2, count);
    proof {
        let rest = parents_described(data@, OFFSET_DELTA + n1 + n2, 0, count as nat);
        assert(tail_described(data@, high) == line1 + (line2 + rest));
        assert(((start + line1) + line2) + rest =~= start + (line1 + (line2 + rest)));
    }
}

/// Describes the bytes of a record for troubleshooting.
pub fn describe_segment_bytes(data: &[u8]) -> (message: String)
    ensures
        message@ == segment_described(data@),
{
    let mut message = String::new();
    if data.len() < 1 {
        return message;
    }
    let mut what = String::from_str("Flags = ");
    what.append(flags_name(data[0]));
    let ghost line1 = described(data@.subrange(0, 1), "Flags = "@ + flags_text(data@[0]));
    push_described(&mut message, vstd::slice::slice_subrange(data, 0, 1), what.as_str());
    proof {
        assert(message@ =~= line1);
    }
    if data.len() < 2 {
        proof {
            assert(segment_described(data@) =~= line1);
        }
        return message;
    }
    let mut what = String::from_str("Level = ");
    push_decimal(&mut what, data[1] as u64);
    let ghost line2 = described(data@.subrange(1, 2), "Level = "@ + decimal(data@[1] as nat));
    push_described(&mut message, vstd::slice::slice_subrange(data, 1, 2), what.as_str());
    if data.len() < OFFSET_DELTA {
        proof {
            assert(segment_described(data@) =~= line1 + line2);
        }
        return message;
    }
    let high_bytes = vstd::slice::slice_subrange(data, OFFSET_HIGH, OFFSET_DELTA);
    let high = read_u64_be(high_bytes);
    let mut what = String::from_str("High = ");
    push_id(&mut what, Id(high));
    let ghost line3 = described(high_bytes@, "High = "@ + id_text(Id(high)));
    push_described(&mut message, high_bytes, what.as_str());
    push_tail_described(&mut message, data, high);
    proof {
        let rest = tail_described(data@, high);
        assert(segment_described(data@) == line1 + (line2 + (line3 + rest)));
        assert(((line1 + line2) + line3) + rest =~= line1 + (line2 + (line3 + rest)));
    }
    message
}

} // verus!
