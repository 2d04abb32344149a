//! The two indexes of the segment log, as functions of its records.
//!
//! Every record of the log contributes to each index a list of operations
//! on keys. An index is what is left when the operations of all records
//! are carried out in the order of the records. This file states that as a
//! mathematical model, holds the two functions that compute the
//! operations of a record, and proves what the marker records do to an
//! index.

use crate::endian::be_bytes;
use crate::endian::write_u64_be;
use crate::id::Group;
use crate::lex::has_prefix;
use crate::lex::key_le;
use crate::lex::lemma_key_le_push;
use crate::id::Id;
use crate::segment;
use crate::segment::level_head_key;
use crate::segment::Level;
use crate::segment::OFFSET_DELTA;
use crate::segment::OFFSET_LEVEL;
use vstd::prelude::*;

verus! {

/// Position of the index by level and head among the indexes of the log.
pub const INDEX_LEVEL_HEAD: usize = 0;

/// Position of the index by group and parent among the indexes of the log.
pub const INDEX_PARENT: usize = 1;

/// Length of a key of the index by level and head: a level and an id.
pub const KEY_LEVEL_HEAD_LEN: usize = 9;

/// First byte of a record that replaces the last flat segment. No flags
/// byte of a segment has its high bits set, so no segment starts like this.
pub const MAGIC_REWRITE_LAST_FLAT: u8 = 0xf0;

/// The record that removes every segment of the non-master group: the
/// five letters `CLRNM`. It is shorter than any record of a segment.
pub open spec fn clear_non_master_record() -> Seq<u8> {
    seq![0x43u8, 0x4cu8, 0x52u8, 0x4eu8, 0x4du8]
}

/// Whether `data` is the record that removes the non-master group.
pub open spec fn is_clear_non_master(data: Seq<u8>) -> bool {
    data == clear_non_master_record()
}

/// Whether `data` is a record that replaces the last flat segment.
pub open spec fn is_rewrite_last_flat(data: Seq<u8>) -> bool {
    data.len() >= 1 && data[0] == MAGIC_REWRITE_LAST_FLAT
}

/// Length of what precedes the segment in a record that replaces the last
/// flat segment: the marker byte and the key of the segment replaced.
pub const REWRITE_HEADER_LEN: usize = 10;

/// The record that replaces the flat segment with head `previous` by the
/// segment recorded in `merged`.
pub open spec fn rewrite_record(previous: Id, merged: Seq<u8>) -> Seq<u8> {
    seq![MAGIC_REWRITE_LAST_FLAT] + level_head_key(0, previous) + merged
}

/// The record of the segment that `data` stands for: `data` itself, or
/// what follows the header where `data` replaces the last flat segment.
pub open spec fn segment_part(data: Seq<u8>) -> Seq<u8> {
    if is_rewrite_last_flat(data) && data.len() >= REWRITE_HEADER_LEN {
        data.skip(REWRITE_HEADER_LEN as int)
    } else {
        data
    }
}

/// The key of the index by group and parent: the group of the child
/// segment and the id of the parent.
pub open spec fn parent_key(group: Group, parent: Id) -> Seq<u8> {
    seq![group.spec_tag()] + be_bytes(parent.0)
}

/// An operation on the keys of an index.
pub enum KeyOp {
    /// The record is added in front of the records found under the key.
    Insert(Seq<u8>),
    /// The key and all records found under it leave the index.
    Remove(Seq<u8>),
    /// Every key that starts with the prefix leaves the index.
    RemovePrefix(Seq<u8>),
}

/// An index: the records found under each key, the newest first.
pub type IndexState = Map<Seq<u8>, Seq<Seq<u8>>>;

/// The records found under `key`: none where the index lacks the key.
pub open spec fn values_at(m: IndexState, key: Seq<u8>) -> Seq<Seq<u8>> {
    if m.dom().contains(key) {
        m[key]
    } else {
        Seq::empty()
    }
}

/// The index after one operation that the record `data` asked for.
pub open spec fn apply_op(m: IndexState, op: KeyOp, data: Seq<u8>) -> IndexState {
    match op {
        KeyOp::Insert(key) => m.insert(key, seq![data] + values_at(m, key)),
        KeyOp::Remove(key) => m.remove(key),
        KeyOp::RemovePrefix(prefix) => m.remove_keys(Set::new(|k: Seq<u8>| has_prefix(k, prefix))),
    }
}

/// The index after the operations `ops` of the record `data`, in order.
pub open spec fn apply_ops(m: IndexState, ops: Seq<KeyOp>, data: Seq<u8>) -> IndexState
    decreases ops.len(),
{
    if ops.len() == 0 {
        m
    } else {
        apply_op(apply_ops(m, ops.drop_last(), data), ops.last(), data)
    }
}

/// What the record that removes the non-master group asks of the index
/// by level and head: for every level, to remove the keys of that level
/// whose id starts with the tag of the non-master group.
pub open spec fn clear_level_head_ops(levels: nat) -> Seq<KeyOp> {
    Seq::new(levels, |l: int| KeyOp::RemovePrefix(seq![l as u8, Group::NonMaster.spec_tag()]))
}

/// What the record `data` asks of the index by level and head.
///
/// A segment is found under its level and head. A record that replaces
/// the last flat segment removes the key of the segment replaced and is
/// found under the key of the new one. Records too short to hold a key ask nothing.
pub open spec fn level_head_ops(data: Seq<u8>) -> Seq<KeyOp> {
    if is_clear_non_master(data) {
        clear_level_head_ops(256)
    } else if is_rewrite_last_flat(data) {
        if data.len() >= REWRITE_HEADER_LEN + OFFSET_DELTA {
            seq![
                KeyOp::Remove(data.subrange(1, REWRITE_HEADER_LEN as int)),
                KeyOp::Insert(
                    data.subrange(
                        REWRITE_HEADER_LEN + OFFSET_LEVEL,
                        REWRITE_HEADER_LEN + OFFSET_DELTA,
                    ),
                ),
            ]
        } else {
            Seq::empty()
        }
    } else if data.len() >= OFFSET_DELTA {
        seq![KeyOp::Insert(data.subrange(OFFSET_LEVEL as int, OFFSET_DELTA as int))]
    } else {
        Seq::empty()
    }
}

/// The keys under which a flat segment with the given parents is found
/// in the index by group and parent.
pub open spec fn parent_inserts(group: Group, parents: Seq<Id>) -> Seq<KeyOp> {
    Seq::new(parents.len(), |i: int| KeyOp::Insert(parent_key(group, parents[i])))
}

/// What the record `data` asks of the index by group and parent.
///
/// A flat segment is found under each of its parents, together with its
/// own group. A record that replaces the last flat segment asks nothing:
/// the new segment has the parents of the one replaced, whose keys stay.
pub open spec fn group_parent_ops(data: Seq<u8>) -> Seq<KeyOp> {
    if is_clear_non_master(data) {
        seq![KeyOp::RemovePrefix(seq![Group::NonMaster.spec_tag()])]
    } else if is_rewrite_last_flat(data) {
        Seq::empty()
    } else {
        match segment::decoding(data) {
            Some(v) => if v.level == 0 {
                parent_inserts(v.low.spec_group().unwrap(), v.parents)
            } else {
                Seq::empty()
            },
            None => Seq::empty(),
        }
    }
}

/// What the record `data` asks of the index numbered `which`.
pub open spec fn ops_of(which: int, data: Seq<u8>) -> Seq<KeyOp> {
    if which == INDEX_LEVEL_HEAD {
        level_head_ops(data)
    } else {
        group_parent_ops(data)
    }
}

/// The index numbered `which` of a log that holds `entries`.
pub open spec fn index_state(entries: Seq<Seq<u8>>, which: int) -> IndexState
    decreases entries.len(),
{
    if entries.len() == 0 {
        Map::empty()
    } else {
        apply_ops(
            index_state(entries.drop_last(), which),
            ops_of(which, entries.last()),
            entries.last(),
        )
    }
}

/// The records found under `key` in the index numbered `which`, the newest first.
pub open spec fn lookup(entries: Seq<Seq<u8>>, which: int, key: Seq<u8>) -> Seq<Seq<u8>> {
    values_at(index_state(entries, which), key)
}

/// Whether the key lies between `low` and `high`; `high` itself counts
/// where `high_included` says so.
pub open spec fn key_in_range(key: Seq<u8>, low: Seq<u8>,
    high: Seq<u8>, high_included: bool) -> bool {
    &&& key_le(low, key)
    &&& key_le(key, high)
    &&& high_included || key != high
}

/// What an operation of a record does to one key depends only on what
/// the index held under that key.
pub proof fn lemma_apply_op_pointwise(a: IndexState,
    b: IndexState, op: KeyOp, data: Seq<u8>, key: Seq<u8>)
    requires
        a.dom().contains(key) == b.dom().contains(key),
        values_at(a, key) == values_at(b, key),
    ensures
        apply_op(a, op, data).dom().contains(key) == apply_op(b, op, data).dom().contains(key),
        values_at(apply_op(a, op, data), key) == values_at(apply_op(b, op, data), key),
{
}

/// The same holds of all operations of a record.
pub proof fn lemma_apply_ops_pointwise(
    a: IndexState,
    b: IndexState,
    ops: Seq<KeyOp>,
    data: Seq<u8>,
    key: Seq<u8>,
)
    requires
        a.dom().contains(key) == b.dom().contains(key),
        values_at(a, key) == values_at(b, key),
    ensures
        apply_ops(a, ops, data).dom().contains(key) == apply_ops(b, ops, data).dom().contains(key),
        values_at(apply_ops(a, ops, data), key) == values_at(apply_ops(b, ops, data), key),
    decreases ops.len(),
{
    if ops.len() > 0 {
        lemma_apply_ops_pointwise(a, b, ops.drop_last(), data, key);
        lemma_apply_op_pointwise(
            apply_ops(a, ops.drop_last(), data),
            apply_ops(b, ops.drop_last(), data),
            ops.last(),
            data,
            key,
        );
    }
}

/// Operations that remove prefixes which `key` does not start with leave
/// what is found under `key` as it was.
pub proof fn lemma_remove_other_prefixes(m: IndexState,
    ops: Seq<KeyOp>, data: Seq<u8>, key: Seq<u8>)
    requires
        forall|i: int|
            0 <= i < ops.len() ==> (#[trigger] ops[i] matches KeyOp::RemovePrefix(p) && !has_prefix(
                key,
                p,
            )),
    ensures
        apply_ops(m, ops, data).dom().contains(key) == m.dom().contains(key),
        values_at(apply_ops(m, ops, data), key) == values_at(m, key),
    decreases ops.len(),
{
    if ops.len() > 0 {
        lemma_remove_other_prefixes(m, ops.drop_last(), data, key);
        assert(ops[ops.len() - 1] == ops.last());
    }
}

/// Operations that remove prefixes add no key to an index.
pub proof fn lemma_removals_add_no_key(m: IndexState, ops: Seq<KeyOp>, data: Seq<u8>, key: Seq<u8>)
    requires
        forall|i: int| 0 <= i < ops.len() ==> #[trigger] ops[i] is RemovePrefix,
    ensures
        apply_ops(m, ops, data).dom().contains(key) ==> m.dom().contains(key),
    decreases ops.len(),
{
    if ops.len() > 0 {
        lemma_removals_add_no_key(m, ops.drop_last(), data, key);
        assert(ops[ops.len() - 1] == ops.last());
        assert(ops.last() is RemovePrefix);
    }
}

/// The record that removes the non-master group adds no key to the
/// index by level and head.
pub proof fn lemma_clear_adds_no_key(entries: Seq<Seq<u8>>, key: Seq<u8>)
    ensures
        index_state(entries.push(clear_non_master_record()), INDEX_LEVEL_HEAD as int).dom().contains(
            key,
        ) ==> index_state(entries, INDEX_LEVEL_HEAD as int).dom().contains(key),
{
    let cleared = entries.push(clear_non_master_record());
    assert(cleared.drop_last() =~= entries);
    let ops = ops_of(INDEX_LEVEL_HEAD as int, clear_non_master_record());
    assert forall|i: int| 0 <= i < ops.len() implies #[trigger] ops[i] is RemovePrefix by {
        let p = seq![i as u8, Group::NonMaster.spec_tag()];
        assert(ops[i] == KeyOp::RemovePrefix(p));
    }
    lemma_removals_add_no_key(
        index_state(entries, INDEX_LEVEL_HEAD as int),
        ops,
        clear_non_master_record(),
        key,
    );
}

/// Whether a key of the index numbered `which` belongs to a segment of
/// the master group: the byte that holds the tag of the group is 0.
pub open spec fn is_master_key(which: int, key: Seq<u8>) -> bool {
    if which == INDEX_LEVEL_HEAD {
        key.len() >= 2 && key[1] == Group::Master.spec_tag()
    } else {
        key.len() >= 1 && key[0] == Group::Master.spec_tag()
    }
}

/// The record that removes the non-master group leaves what is found
/// under the keys of the master group as it was.
pub proof fn lemma_clear_keeps_master(m: IndexState, which: int, key: Seq<u8>)
    requires
        is_master_key(which, key),
    ensures
        apply_ops(m, ops_of(which, clear_non_master_record()),
            clear_non_master_record()).dom().contains(
            key,
        ) == m.dom().contains(key),
        values_at(
            apply_ops(m, ops_of(which, clear_non_master_record()), clear_non_master_record()),
            key,
        ) == values_at(m, key),
{
    let ops = ops_of(which, clear_non_master_record());
    assert forall|i: int| 0 <= i < ops.len() implies (#[trigger] ops[i] matches KeyOp::RemovePrefix(
        p,
    ) && !has_prefix(key, p)) by {
        if which == INDEX_LEVEL_HEAD {
            let p = seq![i as u8, Group::NonMaster.spec_tag()];
            assert(ops[i] == KeyOp::RemovePrefix(p));
            if has_prefix(key, p) {
                assert(key.take(2)[1] == p[1]);
            }
        } else {
            let p = seq![Group::NonMaster.spec_tag()];
            assert(ops[i] == KeyOp::RemovePrefix(p));
            if has_prefix(key, p) {
                assert(key.take(1)[0] == p[0]);
            }
        }
    }
    lemma_remove_other_prefixes(m, ops, clear_non_master_record(), key);
}

/// Writing the record that removes the non-master group, and then any
/// records at all, leaves under every key of the master group what the
/// same records would have left there without it.
pub proof fn lemma_clear_non_master_preserves_master(
    entries: Seq<Seq<u8>>,
    later: Seq<Seq<u8>>,
    which: int,
    key: Seq<u8>,
)
    requires
        is_master_key(which, key),
    ensures
        lookup(entries.push(clear_non_master_record()) + later, which, key) == lookup(
            entries + later,
            which,
            key,
        ),
        index_state(entries.push(clear_non_master_record()) + later, which).dom().contains(key)
            == index_state(entries + later, which).dom().contains(key),
    decreases later.len(),
{
    let cleared = entries.push(clear_non_master_record());
    if later.len() == 0 {
        assert(cleared + later =~= cleared);
        assert(entries + later =~= entries);
        assert(cleared.drop_last() =~= entries);
        lemma_clear_keeps_master(index_state(entries, which), which, key);
    } else {
        let init = later.drop_last();
        lemma_clear_non_master_preserves_master(entries, init, which, key);
        assert((cleared + later).drop_last() =~= cleared + init);
        assert((entries + later).drop_last() =~= entries + init);
        lemma_apply_ops_pointwise(
            index_state(cleared + init, which),
            index_state(entries + init, which),
            ops_of(which, later.last()),
            later.last(),
            key,
        );
    }
}

/// Numbers are ordered as their digits are.
pub proof fn lemma_digits_ordered(a: nat, b: nat, n: nat)
    requires
        a <= b,
        b < crate::endian::pow256(n),
    ensures
        key_le(crate::endian::be_digits(a, n), crate::endian::be_digits(b, n)),
    decreases n,
{
    let da = crate::endian::be_digits(a, n);
    let db = crate::endian::be_digits(b, n);
    if n > 0 {
        let m = (n - 1) as nat;
        let ha = crate::endian::be_digits(a / 256, m);
        let hb = crate::endian::be_digits(b / 256, m);
        crate::endian::lemma_be_digits_len(a / 256, m);
        crate::endian::lemma_be_digits_len(b / 256, m);
        lemma_digits_ordered(a / 256, b / 256, m);
        lemma_key_le_push(ha, (a % 256) as u8, hb, (b % 256) as u8);
        if ha == hb {
            crate::endian::lemma_be_number_of_digits(a / 256, m);
            crate::endian::lemma_be_number_of_digits(b / 256, m);
            assert(a / 256 == b / 256);
        }
    }
}

/// The keys of one level are ordered as the ids in them are.
pub proof fn lemma_level_head_keys_ordered(level: Level, a: Id, b: Id)
    requires
        a.0 <= b.0,
    ensures
        key_le(level_head_key(level, a), level_head_key(level, b)),
{
    assert(crate::endian::pow256(8) == 0x1_0000_0000_0000_0000) by {
        reveal_with_fuel(crate::endian::pow256, 9);
    }
    lemma_digits_ordered(a.0 as nat, b.0 as nat, 8);
    let x = level_head_key(level, a);
    let y = level_head_key(level, b);
    assert(x.skip(1) =~= be_bytes(a.0));
    assert(y.skip(1) =~= be_bytes(b.0));
}

/// The keys of one group are ordered as the parents in them are.
pub proof fn lemma_parent_keys_ordered(group: Group, a: Id, b: Id)
    requires
        a.0 <= b.0,
    ensures
        key_le(parent_key(group, a), parent_key(group, b)),
{
    assert(crate::endian::pow256(8) == 0x1_0000_0000_0000_0000) by {
        reveal_with_fuel(crate::endian::pow256, 9);
    }
    lemma_digits_ordered(a.0 as nat, b.0 as nat, 8);
    let x = parent_key(group, a);
    let y = parent_key(group, b);
    assert(x.skip(1) =~= be_bytes(a.0));
    assert(y.skip(1) =~= be_bytes(b.0));
}

/// An operation on keys, as the functions of this file hand it out. A
/// key is given in full, or as the part of the record that holds it.
#[derive(Debug)]
pub enum IndexOp {
    /// The record is found under the bytes of it from `start` up to `end`.
    Reference { start: u64, end: u64 },
    /// The record is found under the key.
    Owned(Vec<u8>),
    /// The key leaves the index.
    Remove(Vec<u8>),
    /// The keys that start with the prefix leave the index.
    RemovePrefix(Vec<u8>),
}

impl IndexOp {
    /// The operation as a mathematical value, for the record `data`.
    pub open spec fn key_op(self, data: Seq<u8>) -> KeyOp {
        match self {
            IndexOp::Reference { start, end } => KeyOp::Insert(
                data.subrange(start as int, end as int),
            ),
            IndexOp::Owned(key) => KeyOp::Insert(key@),
            IndexOp::Remove(key) => KeyOp::Remove(key@),
            IndexOp::RemovePrefix(prefix) => KeyOp::RemovePrefix(prefix@),
        }
    }

    /// A part of the record lies inside the record.
    pub open spec fn in_bounds(self, data: Seq<u8>) -> bool {
        match self {
            IndexOp::Reference { start, end } => start <= end <= data.len(),
            _ => true,
        }
    }
}

/// Whether `ops` are the operations `expected`, for the record `data`.
pub open spec fn ops_match(ops: Seq<IndexOp>, data: Seq<u8>, expected: Seq<KeyOp>) -> bool {
    &&& ops.len() == expected.len()
    &&& forall|i: int|
        0 <= i < ops.len() ==> (#[trigger] ops[i]).in_bounds(data) && ops[i].key_op(data)
            == expected[i]
}

/// Whether `data` is the record that removes the non-master group.
pub fn is_clear_non_master_record(data: &[u8]) -> (b: bool)
    ensures
        b == is_clear_non_master(data@),
{
    let b = data.len() == 5 && data[0] == 0x43 && data[1] == 0x4c && data[2] == 0x52 && data[3]
        == 0x4e && data[4] == 0x4d;
    proof {
        if b {
            assert(data@ =~= clear_non_master_record());
        }
    }
    b
}

/// The record that removes the non-master group.
pub fn clear_non_master_bytes() -> (record: Vec<u8>)
    ensures
        record@ == clear_non_master_record(),
{
    let mut record: Vec<u8> = Vec::new();
    record.push(0x43);
    record.push(0x4c);
    record.push(0x52);
    record.push(0x4e);
    record.push(0x4d);
    proof {
        assert(record@ =~= clear_non_master_record());
    }
    record
}

/// Whether `data` is a record that replaces the last flat segment.
pub fn is_rewrite_last_flat_record(data: &[u8]) -> (b: bool)
    ensures
        b == is_rewrite_last_flat(data@),
{
    data.len() >= 1 && data[0] == MAGIC_REWRITE_LAST_FLAT
}

/// The key of the segment with the given level and head in the index by
/// level and head.
pub fn serialize_head_level_lookup_key(value: Id, level: Level) -> (key: Vec<u8>)
    ensures
        key@ == level_head_key(level, value),
        key@.len() == KEY_LEVEL_HEAD_LEN,
{
    let mut key: Vec<u8> = Vec::new();
    key.push(level);
    let mut id = write_u64_be(value.0);
    key.append(&mut id);
    proof {
        crate::endian::lemma_be_value_of_bytes(value.0);
        assert(key@ =~= level_head_key(level, value));
    }
    key
}

/// The key of the index by group and parent for the segments of `group`
/// that have the parent `id`.
pub fn index_parent_key(group: Group, id: Id) -> (key: Vec<u8>)
    ensures
        key@ == parent_key(group, id),
        key@.len() == 9,
{
    let mut key: Vec<u8> = Vec::new();
    key.push(group.tag());
    let mut parent = write_u64_be(id.0);
    key.append(&mut parent);
    proof {
        crate::endian::lemma_be_value_of_bytes(id.0);
        assert(key@ =~= parent_key(group, id));
    }
    key
}

/// Computes what the record `data` asks of the index by level and head.
pub fn level_head_index(data: &[u8]) -> (ops: Vec<IndexOp>)
    ensures
        ops_match(ops@, data@, level_head_ops(data@)),
{
    let mut ops: Vec<IndexOp> = Vec::new();
    if is_clear_non_master_record(data) {
        let mut level: usize = 0;
        while level < 256
            invariant
                level <= 256,
                ops_match(ops@, data@, clear_level_head_ops(level as nat)),
            decreases 256 - level,
        {
            let mut prefix: Vec<u8> = Vec::new();
            prefix.push(level as u8);
            prefix.push(Group::NonMaster.tag());
            proof {
                assert(prefix@ =~= seq![level as u8, Group::NonMaster.spec_tag()]);
            }
            ops.push(IndexOp::RemovePrefix(prefix));
            level = level + 1;
        }
    } else if is_rewrite_last_flat_record(data) {
        if data.len() >= REWRITE_HEADER_LEN + OFFSET_DELTA {
            let previous = vstd::slice::slice_to_vec(
                vstd::slice::slice_subrange(data, 1, REWRITE_HEADER_LEN),
            );
            ops.push(IndexOp::Remove(previous));
            ops.push(
                IndexOp::Reference {
                    start: (REWRITE_HEADER_LEN + OFFSET_LEVEL) as u64,
                    end: (REWRITE_HEADER_LEN + OFFSET_DELTA) as u64,
                },
            );
        }
    } else if data.len() >= OFFSET_DELTA {
        ops.push(IndexOp::Reference { start: OFFSET_LEVEL as u64, end: OFFSET_DELTA as u64 });
    }
    ops
}

/// Computes what the record `data` asks of the index by group and parent.
pub fn group_parent_index(data: &[u8]) -> (ops: Vec<IndexOp>)
    ensures
        ops_match(ops@, data@, group_parent_ops(data@)),
{
    let mut ops: Vec<IndexOp> = Vec::new();
    if is_clear_non_master_record(data) {
        let mut prefix: Vec<u8> = Vec::new();
        prefix.push(Group::NonMaster.tag());
        proof {
            assert(prefix@ =~= seq![Group::NonMaster.spec_tag()]);
        }
        ops.push(IndexOp::RemovePrefix(prefix));
        return ops;
    }
    if is_rewrite_last_flat_record(data) {
        return ops;
    }
    let seg = match segment::decode(data) {
        Ok(seg) => seg,
        Err(_) => { return ops; },
    };
    if seg.level != 0 {
        return ops;
    }
    let group = match seg.low.group() {
        Some(g) => g,
        None => { return ops; },
    };
    let mut i: usize = 0;
    while i < seg.parents.len()
        invariant
            i <= seg.parents@.len(),
            ops_match(ops@, data@, parent_inserts(group, seg.parents@.take(i as int))),
        decreases seg.parents@.len() - i,
    {
        let key = index_parent_key(group, seg.parents[i]);
        ops.push(IndexOp::Owned(key));
        i = i + 1;
    }
    proof {
        assert(seg.parents@.take(i as int) =~= seg.parents@);
    }
    ops
}

/// A key between the first and the last key of the non-master group of
/// one level starts with that level and the tag of that group.
pub proof fn lemma_non_master_range(level: Level, key: Seq<u8>)
    requires
        key_in_range(
            key,
            level_head_key(level, Id(Group::NonMaster.spec_min() as u64)),
            level_head_key(level, Id(Group::NonMaster.spec_max() as u64)),
            true,
        ),
    ensures
        has_prefix(key, seq![level, Group::NonMaster.spec_tag()]),
{
    let low = level_head_key(level, Id(Group::NonMaster.spec_min() as u64));
    let high = level_head_key(level, Id(Group::NonMaster.spec_max() as u64));
    assert(be_bytes(Group::NonMaster.spec_min() as u64)[0] == 1) by {
        reveal_with_fuel(crate::endian::be_digits, 9);
    }
    assert(be_bytes(Group::NonMaster.spec_max() as u64)[0] == 1) by {
        reveal_with_fuel(crate::endian::be_digits, 9);
    }
    crate::endian::lemma_be_digits_len(Group::NonMaster.spec_min() as nat, 8);
    crate::endian::lemma_be_digits_len(Group::NonMaster.spec_max() as nat, 8);
    assert(low[0] == level && low[1] == 1);
    assert(high[0] == level && high[1] == 1);
    assert(key.len() > 0);
    assert(key[0] == level);
    assert(key_le(low.skip(1), key.skip(1)));
    assert(key_le(key.skip(1), high.skip(1)));
    assert(low.skip(1)[0] == 1);
    assert(high.skip(1)[0] == 1);
    assert(key.skip(1).len() > 0);
    assert(key.skip(1)[0] == 1);
    assert(key.take(2) =~= seq![level, Group::NonMaster.spec_tag()]);
}

/// Once the prefixes of the levels below `levels` are removed, no key
/// with such a prefix is left.
pub proof fn lemma_clear_level_head(m: IndexState, levels: nat, data: Seq<u8>, key: Seq<u8>)
    requires
        levels <= 256,
        key.len() >= 2,
        key[0] < levels,
        key[1] == Group::NonMaster.spec_tag(),
    ensures
        !apply_ops(m, clear_level_head_ops(levels), data).dom().contains(key),
    decreases levels,
{
    let ops = clear_level_head_ops(levels);
    let before = apply_ops(m, ops.drop_last(), data);
    assert(ops.drop_last() =~= clear_level_head_ops((levels - 1) as nat));
    let p = seq![(levels - 1) as u8, Group::NonMaster.spec_tag()];
    assert(ops.last() == KeyOp::RemovePrefix(p));
    if key[0] == levels - 1 {
        assert(key.take(2) =~= p);
        assert(has_prefix(key, p));
    } else {
        lemma_clear_level_head(m, (levels - 1) as nat, data, key);
    }
}

/// After the record that removes the non-master group, the index by
/// level and head holds no key of that group, on any level.
pub proof fn lemma_clear_removes_non_master(entries: Seq<Seq<u8>>, key: Seq<u8>)
    requires
        key.len() >= 2,
        key[1] == Group::NonMaster.spec_tag(),
    ensures
        !index_state(entries.push(clear_non_master_record()),
            INDEX_LEVEL_HEAD as int).dom().contains(
            key,
        ),
{
    let cleared = entries.push(clear_non_master_record());
    assert(cleared.drop_last() =~= entries);
    lemma_clear_level_head(
        index_state(entries, INDEX_LEVEL_HEAD as int),
        256,
        clear_non_master_record(),
        key,
    );
}

/// After the record that removes the non-master group, the index by
/// group and parent holds no key of that group.
pub proof fn lemma_clear_removes_non_master_parents(entries: Seq<Seq<u8>>, key: Seq<u8>)
    requires
        key.len() >= 1,
        key[0] == Group::NonMaster.spec_tag(),
    ensures
        !index_state(entries.push(clear_non_master_record()),
            INDEX_PARENT as int).dom().contains(key),
{
    let cleared = entries.push(clear_non_master_record());
    assert(cleared.drop_last() =~= entries);
    let ops = group_parent_ops(clear_non_master_record());
    let p = seq![Group::NonMaster.spec_tag()];
    assert(ops.drop_last() =~= Seq::<KeyOp>::empty());
    assert(ops.last() == KeyOp::RemovePrefix(p));
    assert(key.take(1) =~= p);
}

/// Whether every key of `m` has a record.
pub open spec fn all_keys_have_records(m: IndexState) -> bool {
    forall|k: Seq<u8>| #[trigger] m.dom().contains(k) ==> m[k].len() > 0
}

/// The operations of a record leave no key without a record.
pub proof fn lemma_apply_ops_keep_records(m: IndexState, ops: Seq<KeyOp>, data: Seq<u8>)
    requires
        all_keys_have_records(m),
    ensures
        all_keys_have_records(apply_ops(m, ops, data)),
    decreases ops.len(),
{
    if ops.len() > 0 {
        lemma_apply_ops_keep_records(m, ops.drop_last(), data);
        let before = apply_ops(m, ops.drop_last(), data);
        let after = apply_op(before, ops.last(), data);
        assert forall|k: Seq<u8>| #[trigger] after.dom().contains(k) implies after[k].len() > 0 by {
            match ops.last() {
                KeyOp::Insert(key) => {
                    if k != key {
                        assert(before.dom().contains(k));
                    }
                },
                KeyOp::Remove(key) => {
                    assert(before.dom().contains(k));
                },
                KeyOp::RemovePrefix(prefix) => {
                    assert(before.dom().contains(k));
                },
            }
        }
    }
}

/// Every key of an index has a record.
pub proof fn lemma_index_keys_have_records(entries: Seq<Seq<u8>>, which: int)
    ensures
        all_keys_have_records(index_state(entries, which)),
    decreases entries.len(),
{
    if entries.len() > 0 {
        lemma_index_keys_have_records(entries.drop_last(), which);
        lemma_apply_ops_keep_records(
            index_state(entries.drop_last(), which),
            ops_of(which, entries.last()),
            entries.last(),
        );
    }
}

} // verus!
