//! An immutable hash map over groups of control bytes.
//!
//! Every bucket has one control byte: `EMPTY`, or the seven-bit tag of the
//! key stored there. A probe starts at bucket `hash % bucket_count` and
//! takes the buckets from there on in groups of sixteen, the indices
//! wrapping at the bucket count. It visits the groups with growing strides:
//! the group of a step lies one group further from the last than that lay
//! from the one before, reduced by the least power of two that is not below
//! the number of groups; a group that lies past the bucket count is skipped.
//! The control bytes past the bucket count repeat the head of the array, so
//! a read that runs past the last bucket goes on into that tail. A step
//! reads its group in two sub-groups of eight control bytes before the probe
//! moves on. A lookup ends at the first group with an empty bucket, or when
//! every group has been visited once.

use crate::hash::{hash_value, spec_hash, spec_tag, tag_of};
use crate::layout::{
    checked_layout, layout_fits, spec_bucket_count, spec_control_count, spec_group_count, EMPTY,
    MAX_GROUP_WIDTH, SUB_GROUP_WIDTH,
};
use crate::rc::{
    check_value, schema_ok, valid_extent, value_outcome, ArchiveContext, Shape, ValueError,
};
use crate::probe::{
    lemma_span, lemma_step_is, lemma_step_of, lemma_tri_closed, lemma_tri_injective, probe_span,
    span_of, step_of, tri,
};
use vstd::prelude::*;
use vstd::std_specs::cmp::PartialEqSpecImpl;

verus! {

/// A key with its value, as stored in one bucket.
pub struct Entry {
    pub key: Vec<u8>,
    pub value: u64,
}

/// Number of occupied buckets among the first `n`.
pub open spec fn full_count(ctrl: Seq<u8>, n: int) -> int
    decreases n,
{
    if n <= 0 {
        0
    } else {
        full_count(ctrl, n - 1) + if ctrl[n - 1] != EMPTY {
            1int
        } else {
            0int
        }
    }
}

/// The shape that every readable table has: whole groups of control bytes,
/// each of them empty or a tag, the tail repeating the head, and as many
/// occupied buckets as the declared length.
pub open spec fn shape_ok(ctrl: Seq<u8>, cap: int, len: int) -> bool {
    &&& ctrl.len() == spec_control_count(cap)
    &&& forall|i: int| 0 <= i < cap ==> #[trigger] ctrl[i] <= EMPTY
    &&& forall|i: int| cap <= i < ctrl.len() ==> #[trigger] ctrl[i] == ctrl[i - cap]
    &&& full_count(ctrl, cap) == len
}

/// The bucket at which a probe for `hash` starts.
pub open spec fn start_index(hash: u64, cap: int) -> int {
    (hash as int) % cap
}

/// The bucket that a probe from bucket `s` visits at offset `t`: the indices
/// wrap at the bucket count.
pub open spec fn probe_bucket(s: int, t: int, cap: int) -> int {
    if s + t < cap {
        s + t
    } else {
        s + t - cap
    }
}

/// The offset at which a probe from bucket `s` visits bucket `b`.
pub open spec fn probe_offset(s: int, b: int, cap: int) -> int {
    if b >= s {
        b - s
    } else {
        b - s + cap
    }
}

/// The first offset of group `k`, or the bucket count where the probe has
/// no such group.
pub open spec fn group_start(k: int, cap: int) -> int {
    if 16 * k < cap {
        16 * k
    } else {
        cap
    }
}

/// One past the last offset of group `k`; offsets at or past the bucket
/// count are skipped.
pub open spec fn group_end(k: int, cap: int) -> int {
    if 16 * k + 16 < cap {
        16 * k + 16
    } else {
        cap
    }
}

/// No bucket at the offsets `lo..hi` of the probe from `s` is empty.
pub open spec fn range_full(ctrl: Seq<u8>, cap: int, s: int, lo: int, hi: int) -> bool {
    forall|t: int| lo <= t < hi ==> ctrl[#[trigger] probe_bucket(s, t, cap)] != EMPTY
}

/// No bucket of group `k` of the probe from `s` is empty.
pub open spec fn group_full(ctrl: Seq<u8>, cap: int, s: int, k: int) -> bool {
    range_full(ctrl, cap, s, 16 * k, group_end(k, cap))
}

/// Bucket `i` is occupied by `key` under `tag`.
pub open spec fn slot_matches(ctrl: Seq<u8>, ents: Seq<Entry>, i: int, tag: u8, key: Seq<u8>) -> bool {
    ctrl[i] == tag && ents[i].key@ == key
}

/// The first bucket at the offsets `lo..hi` of the probe from `s` that
/// matches, if any.
pub open spec fn first_match(
    ctrl: Seq<u8>,
    ents: Seq<Entry>,
    s: int,
    lo: int,
    hi: int,
    tag: u8,
    key: Seq<u8>,
) -> Option<int>
    decreases hi - lo,
{
    if lo >= hi {
        None
    } else if slot_matches(ctrl, ents, probe_bucket(s, lo, ents.len() as int), tag, key) {
        Some(probe_bucket(s, lo, ents.len() as int))
    } else {
        first_match(ctrl, ents, s, lo + 1, hi, tag, key)
    }
}

/// What a probe from bucket `s` finds from step `k` on: the first matching
/// bucket of the first group that has one, unless a group with an empty
/// bucket comes first. A step whose group lies past the bucket count is
/// skipped.
pub open spec fn probe_from(
    ctrl: Seq<u8>,
    ents: Seq<Entry>,
    s: int,
    k: int,
    tag: u8,
    key: Seq<u8>,
) -> Option<int>
    decreases probe_span(spec_group_count(ents.len() as int)) - k,
{
    let cap = ents.len() as int;
    let groups = spec_group_count(cap);
    let span = probe_span(groups);
    if k < 0 || k >= span {
        None
    } else if tri(span, k) >= groups {
        probe_from(ctrl, ents, s, k + 1, tag, key)
    } else {
        match first_match(
            ctrl,
            ents,
            s,
            16 * tri(span, k),
            group_end(tri(span, k), cap),
            tag,
            key,
        ) {
            Some(i) => Some(i),
            None => if group_full(ctrl, cap, s, tri(span, k)) {
                probe_from(ctrl, ents, s, k + 1, tag, key)
            } else {
                None
            },
        }
    }
}

/// The bucket that a lookup of `key` returns.
pub open spec fn spec_find(ctrl: Seq<u8>, ents: Seq<Entry>, key: Seq<u8>) -> Option<int> {
    let cap = ents.len() as int;
    if cap == 0 {
        None
    } else {
        let h = spec_hash(key);
        probe_from(ctrl, ents, start_index(h, cap), 0, spec_tag(h), key)
    }
}

/// The predicate answered false on every bucket at the offsets `lo..hi` of
/// the probe from `s` that carries `tag`.
pub open spec fn all_rejected<F: Fn(&Vec<u8>, &Vec<u8>) -> bool>(
    ctrl: Seq<u8>,
    ents: Seq<Entry>,
    s: int,
    lo: int,
    hi: int,
    tag: u8,
    pred: F,
    key: &Vec<u8>,
) -> bool {
    forall|t: int|
        lo <= t < hi && ctrl[#[trigger] probe_bucket(s, t, ents.len() as int)] == tag
            ==> pred.ensures((key, &ents[probe_bucket(s, t, ents.len() as int)].key), false)
}

/// The group of step `k` lies past the bucket count, or none of its buckets
/// is empty.
pub open spec fn step_full(ctrl: Seq<u8>, cap: int, s: int, k: int) -> bool {
    let groups = spec_group_count(cap);
    let g = tri(probe_span(groups), k);
    g >= groups || group_full(ctrl, cap, s, g)
}

/// The group of step `k` lies past the bucket count, or the predicate
/// answered false on each of its buckets that carries `tag`.
pub open spec fn step_rejected<F: Fn(&Vec<u8>, &Vec<u8>) -> bool>(
    ctrl: Seq<u8>,
    ents: Seq<Entry>,
    s: int,
    k: int,
    tag: u8,
    pred: F,
    key: &Vec<u8>,
) -> bool {
    let cap = ents.len() as int;
    let groups = spec_group_count(cap);
    let g = tri(probe_span(groups), k);
    g >= groups || all_rejected(ctrl, ents, s, 16 * g, group_end(g, cap), tag, pred, key)
}

/// The step at which a probe that finds nothing stops, from step `k` on: the
/// first step whose group has an empty bucket, or the number of steps.
pub open spec fn probe_stop(ctrl: Seq<u8>, cap: int, s: int, k: int) -> int
    decreases probe_span(spec_group_count(cap)) - k,
{
    if k < 0 || k >= probe_span(spec_group_count(cap)) {
        probe_span(spec_group_count(cap))
    } else if step_full(ctrl, cap, s, k) {
        probe_stop(ctrl, cap, s, k + 1)
    } else {
        k
    }
}

/// A lookup of `key` with the caller's predicate ends at bucket `i`: the
/// bucket carries the tag of `key`, the predicate answered true on its key,
/// every group that the probe visits before it is full, and the predicate
/// answered false on every bucket with the tag that the probe visits before
/// it.
pub open spec fn found_by<F: Fn(&Vec<u8>, &Vec<u8>) -> bool>(
    ctrl: Seq<u8>,
    ents: Seq<Entry>,
    pred: F,
    key: &Vec<u8>,
    i: int,
) -> bool {
    let cap = ents.len() as int;
    let h = spec_hash(key@);
    let s = start_index(h, cap);
    let t = probe_offset(s, i, cap);
    &&& 0 <= i < cap
    &&& ctrl[i] == spec_tag(h)
    &&& pred.ensures((key, &ents[i].key), true)
    &&& reach_ok(ctrl, cap, key@, i)
    &&& forall|j: int|
        0 <= j < step_of(spec_group_count(cap), t / 16) ==> #[trigger] step_rejected(
            ctrl,
            ents,
            s,
            j,
            spec_tag(h),
            pred,
            key,
        )
    &&& all_rejected(ctrl, ents, s, 16 * (t / 16), t, spec_tag(h), pred, key)
}

/// A lookup of `key` with the caller's predicate finds nothing: the
/// predicate answered false on every bucket with the tag of `key` that the
/// probe visits before it stops.
pub open spec fn missed_by<F: Fn(&Vec<u8>, &Vec<u8>) -> bool>(
    ctrl: Seq<u8>,
    ents: Seq<Entry>,
    pred: F,
    key: &Vec<u8>,
) -> bool {
    let cap = ents.len() as int;
    let h = spec_hash(key@);
    let s = start_index(h, cap);
    cap == 0 || forall|j: int|
        0 <= j <= probe_stop(ctrl, cap, s, 0) && j < probe_span(spec_group_count(cap))
            ==> #[trigger] step_rejected(ctrl, ents, s, j, spec_tag(h), pred, key)
}

/// Bucket `i` is occupied and holds `key`.
pub open spec fn holds(ctrl: Seq<u8>, ents: Seq<Entry>, i: int, key: Seq<u8>) -> bool {
    0 <= i < ents.len() && ctrl[i] != EMPTY && ents[i].key@ == key
}

/// The mapping that a table denotes: the keys of its occupied buckets, each
/// with the value stored beside it.
pub open spec fn table_map(ctrl: Seq<u8>, ents: Seq<Entry>) -> Map<Seq<u8>, u64> {
    Map::new(
        |k: Seq<u8>| exists|i: int| holds(ctrl, ents, i, k),
        |k: Seq<u8>| ents[choose|i: int| holds(ctrl, ents, i, k)].value,
    )
}

/// Every group that a probe for `key` visits before it reaches bucket `b` is
/// full.
pub open spec fn reach_ok(ctrl: Seq<u8>, cap: int, key: Seq<u8>, b: int) -> bool {
    let s = start_index(spec_hash(key), cap);
    forall|j: int|
        0 <= j < step_of(spec_group_count(cap), probe_offset(s, b, cap) / 16)
            ==> #[trigger] step_full(ctrl, cap, s, j)
}

/// The entry in occupied bucket `i` carries its key's tag and can be reached
/// by a probe for its key.
pub open spec fn placed_ok(ctrl: Seq<u8>, ents: Seq<Entry>, i: int) -> bool {
    &&& ctrl[i] == spec_tag(spec_hash(ents[i].key@))
    &&& reach_ok(ctrl, ents.len() as int, ents[i].key@, i)
}

/// What a built table satisfies beyond its shape: every entry can be reached
/// by a probe for its key, and no key occurs twice.
pub open spec fn well_formed(ctrl: Seq<u8>, ents: Seq<Entry>, len: int) -> bool {
    &&& shape_ok(ctrl, ents.len() as int, len)
    &&& forall|i: int| 0 <= i < ents.len() && ctrl[i] != EMPTY ==> #[trigger] placed_ok(ctrl, ents, i)
    &&& forall|i: int, j: int|
        0 <= i < j < ents.len() && #[trigger] ctrl[i] != EMPTY && #[trigger] ctrl[j] != EMPTY
            ==> ents[i].key@ != ents[j].key@
}

pub proof fn lemma_first_match(
    ctrl: Seq<u8>,
    ents: Seq<Entry>,
    s: int,
    lo: int,
    hi: int,
    tag: u8,
    key: Seq<u8>,
)
    requires
        0 <= s < ents.len(),
        0 <= lo,
        hi <= ents.len(),
    ensures
        match first_match(ctrl, ents, s, lo, hi, tag, key) {
            Some(m) => {
                &&& 0 <= m < ents.len()
                &&& slot_matches(ctrl, ents, m, tag, key)
                &&& lo <= probe_offset(s, m, ents.len() as int) < hi
                &&& forall|j: int|
                    lo <= j < probe_offset(s, m, ents.len() as int) ==> !slot_matches(
                        ctrl,
                        ents,
                        #[trigger] probe_bucket(s, j, ents.len() as int),
                        tag,
                        key,
                    )
            },
            None => forall|j: int|
                lo <= j < hi ==> !slot_matches(
                    ctrl,
                    ents,
                    #[trigger] probe_bucket(s, j, ents.len() as int),
                    tag,
                    key,
                ),
        },
    decreases hi - lo,
{
    if lo < hi && !slot_matches(ctrl, ents, probe_bucket(s, lo, ents.len() as int), tag, key) {
        lemma_first_match(ctrl, ents, s, lo + 1, hi, tag, key);
    }
}

proof fn lemma_tag_is_full(hash: u64)
    ensures
        spec_tag(hash) < 0x80,
{
    assert((hash >> 57) < 0x80) by (bit_vector);
}

proof fn lemma_probe_sound(ctrl: Seq<u8>, ents: Seq<Entry>, s: int, k: int, tag: u8, key: Seq<u8>)
    requires
        tag < 0x80,
        0 <= s < ents.len(),
        0 <= k,
    ensures
        match probe_from(ctrl, ents, s, k, tag, key) {
            Some(i) => holds(ctrl, ents, i, key) && ctrl[i] == tag,
            None => true,
        },
    decreases probe_span(spec_group_count(ents.len() as int)) - k,
{
    let cap = ents.len() as int;
    let groups = spec_group_count(cap);
    let span = probe_span(groups);
    if k < span {
        lemma_span(groups);
        lemma_tri_closed(span, k);
        let g = tri(span, k);
        if g >= groups {
            lemma_probe_sound(ctrl, ents, s, k + 1, tag, key);
        } else {
            lemma_first_match(ctrl, ents, s, 16 * g, group_end(g, cap), tag, key);
            if first_match(ctrl, ents, s, 16 * g, group_end(g, cap), tag, key) is None
                && group_full(ctrl, cap, s, g) {
                lemma_probe_sound(ctrl, ents, s, k + 1, tag, key);
            }
        }
    }
}

proof fn lemma_probe_reaches(ctrl: Seq<u8>, ents: Seq<Entry>, len: int, i: int, k: int)
    requires
        well_formed(ctrl, ents, len),
        0 <= i < ents.len(),
        ctrl[i] != EMPTY,
        k == 0 || 0 <= k <= step_of(
            spec_group_count(ents.len() as int),
            probe_offset(
                start_index(spec_hash(ents[i].key@), ents.len() as int),
                i,
                ents.len() as int,
            ) / 16,
        ),
    ensures
        probe_from(
            ctrl,
            ents,
            start_index(spec_hash(ents[i].key@), ents.len() as int),
            k,
            spec_tag(spec_hash(ents[i].key@)),
            ents[i].key@,
        ) == Some(i),
    decreases
            step_of(
                spec_group_count(ents.len() as int),
                probe_offset(
                    start_index(spec_hash(ents[i].key@), ents.len() as int),
                    i,
                    ents.len() as int,
                ) / 16,
            ) - k,
{
    let cap = ents.len() as int;
    let groups = spec_group_count(cap);
    let span = probe_span(groups);
    let key = ents[i].key@;
    let h = spec_hash(key);
    let tag = spec_tag(h);
    let s = start_index(h, cap);
    vstd::arithmetic::div_mod::lemma_mod_bound(h as int, cap);
    let t = probe_offset(s, i, cap);
    let gi = t / 16;
    assert(0 <= t < cap);
    assert(0 <= gi < groups);
    lemma_span(groups);
    lemma_step_of(groups, gi);
    let step = step_of(groups, gi);
    lemma_tag_is_full(h);
    assert(placed_ok(ctrl, ents, i));
    assert(probe_bucket(s, t, cap) == i);
    lemma_tri_closed(span, k);
    let g = tri(span, k);
    if k == step {
        lemma_first_match(ctrl, ents, s, 16 * g, group_end(g, cap), tag, key);
        let found = first_match(ctrl, ents, s, 16 * g, group_end(g, cap), tag, key);
        assert(16 * g <= t < group_end(g, cap));
        assert(slot_matches(ctrl, ents, probe_bucket(s, t, cap), tag, key));
        let m = found.unwrap();
        assert(ctrl[m] != EMPTY);
        assert(m == i);
    } else {
        lemma_tri_injective(span, k, step);
        assert(step_full(ctrl, cap, s, k));
        if g < groups {
            lemma_first_match(ctrl, ents, s, 16 * g, group_end(g, cap), tag, key);
            let found = first_match(ctrl, ents, s, 16 * g, group_end(g, cap), tag, key);
            if found is Some {
                let m = found.unwrap();
                assert(ctrl[m] != EMPTY);
                assert(m == i);
                assert(false);
            }
            assert(group_full(ctrl, cap, s, g));
        }
        lemma_probe_reaches(ctrl, ents, len, i, k + 1);
    }
}

/// In a well-formed table a lookup finds exactly the keys of the mapping,
/// each in the bucket that holds its value.
pub proof fn lemma_find_is_map_lookup(ctrl: Seq<u8>, ents: Seq<Entry>, len: int, key: Seq<u8>)
    requires
        well_formed(ctrl, ents, len),
    ensures
        match spec_find(ctrl, ents, key) {
            Some(i) => holds(ctrl, ents, i, key) && table_map(ctrl, ents).dom().contains(key)
                && table_map(ctrl, ents)[key] == ents[i].value,
            None => !table_map(ctrl, ents).dom().contains(key),
        },
{
    let cap = ents.len() as int;
    let h = spec_hash(key);
    lemma_tag_is_full(h);
    if cap > 0 {
        vstd::arithmetic::div_mod::lemma_mod_bound(h as int, cap);
        lemma_probe_sound(ctrl, ents, start_index(h, cap), 0, spec_tag(h), key);
    }
    if table_map(ctrl, ents).dom().contains(key) {
        let i = choose|i: int| holds(ctrl, ents, i, key);
        lemma_probe_reaches(ctrl, ents, len, i, 0);
        assert(spec_find(ctrl, ents, key) == Some(i));
    } else {
        if spec_find(ctrl, ents, key) is Some {
            let i = spec_find(ctrl, ents, key).unwrap();
            assert(holds(ctrl, ents, i, key));
        }
    }
}

/// Control bytes, slots and length as they are stored, before anything has
/// been checked.
pub struct RawSwissTable {
    pub ctrl: Vec<u8>,
    pub slots: Vec<Entry>,
    pub len: usize,
}

/// The value of the entry in a bucket failed its check.
#[derive(Debug, PartialEq, Eq, Clone, Copy)]
pub struct EntryError {
    pub bucket: usize,
    pub error: ValueError,
}

/// The position in the buffer that a stored value names; one that does not
/// fit the machine names the last position, which holds no value.
pub open spec fn value_position(v: u64) -> usize {
    if v > usize::MAX as u64 {
        usize::MAX
    } else {
        v as usize
    }
}

/// The result of checking the values of the occupied buckets below `n` in
/// their order, with the claims afterwards: the first failure with its
/// bucket ends the check.
pub open spec fn values_outcome(
    types: Seq<Shape>,
    buf: Seq<u8>,
    extent: int,
    stride: int,
    claims: Seq<bool>,
    ctrl: Seq<u8>,
    ents: Seq<Entry>,
    value_type: int,
    n: int,
) -> (Result<(), EntryError>, Seq<bool>)
    decreases n,
{
    if n <= 0 {
        (Ok(()), claims)
    } else {
        let before = values_outcome(
            types,
            buf,
            extent,
            stride,
            claims,
            ctrl,
            ents,
            value_type,
            n - 1,
        );
        if before.0 is Err || ctrl[n - 1] == EMPTY {
            before
        } else {
            let one = value_outcome(
                types,
                buf,
                extent,
                stride,
                before.1,
                value_type,
                value_position(ents[n - 1].value) as int,
            );
            match one.0 {
                Ok(_) => (Ok(()), one.1),
                Err(error) => (Err(EntryError { bucket: (n - 1) as usize, error }), one.1),
            }
        }
    }
}

/// A failure below `n` is the result for every later bucket count.
pub proof fn lemma_values_failure_stays(
    types: Seq<Shape>,
    buf: Seq<u8>,
    extent: int,
    stride: int,
    claims: Seq<bool>,
    ctrl: Seq<u8>,
    ents: Seq<Entry>,
    value_type: int,
    n: int,
    m: int,
)
    requires
        n <= m,
        values_outcome(types, buf, extent, stride, claims, ctrl, ents, value_type, n).0 is Err,
    ensures
        values_outcome(types, buf, extent, stride, claims, ctrl, ents, value_type, m)
            == values_outcome(types, buf, extent, stride, claims, ctrl, ents, value_type, n),
    decreases m - n,
{
    if n < m {
        lemma_values_failure_stays(
            types,
            buf,
            extent,
            stride,
            claims,
            ctrl,
            ents,
            value_type,
            n,
            m - 1,
        );
    }
}

/// Why stored parts were refused.
#[derive(Debug, PartialEq, Eq, Clone, Copy)]
pub enum TableError {
    /// The bucket count or the number of control bytes is not what the
    /// length and the load factor give.
    InvalidLayout,
    /// The control byte of this bucket is neither empty nor a tag.
    InvalidControlByte(usize),
    /// The control byte at this index of the tail does not repeat the head.
    TailMismatch(usize),
    /// The number of occupied buckets is not the declared length.
    LengthMismatch,
}

/// Bucket count and control-byte count are those of the layout.
pub open spec fn layout_matches(raw: RawSwissTable, load_factor: (usize, usize)) -> bool {
    &&& layout_fits(raw.len, load_factor)
    &&& raw.slots@.len() == spec_bucket_count(
        raw.len as int,
        load_factor.0 as int,
        load_factor.1 as int,
    )
    &&& raw.ctrl@.len() == spec_control_count(raw.slots@.len() as int)
}

/// The first `n` control bytes are each empty or a tag.
pub open spec fn head_ok(ctrl: Seq<u8>, n: int) -> bool {
    forall|i: int| 0 <= i < n ==> #[trigger] ctrl[i] <= EMPTY
}

/// The control bytes in `cap..n` repeat the head.
pub open spec fn tail_ok(ctrl: Seq<u8>, cap: int, n: int) -> bool {
    forall|i: int| cap <= i < n ==> #[trigger] ctrl[i] == ctrl[i - cap]
}

/// A table whose shape has been checked; only such a table can be read.
pub struct ArchivedSwissTable {
    raw: RawSwissTable,
}

/// The predicate decides equality of keys and can be called on any two keys.
pub open spec fn decides_key_eq<F: Fn(&Vec<u8>, &Vec<u8>) -> bool>(pred: F) -> bool {
    &&& forall|q: &Vec<u8>, k: &Vec<u8>| #[trigger] pred.requires((q, k))
    &&& forall|q: &Vec<u8>, k: &Vec<u8>, b: bool| #[trigger]
        pred.ensures((q, k), b) ==> b == (q@ == k@)
}

/// Whether two byte strings are equal.
pub fn bytes_eq(a: &Vec<u8>, b: &Vec<u8>) -> (r: bool)
    ensures
        r == (a@ == b@),
{
    if a.len() != b.len() {
        return false;
    }
    let mut i: usize = 0;
    while i < a.len()
        invariant
            i <= a.len(),
            a.len() == b.len(),
            forall|j: int| 0 <= j < i ==> a@[j] == b@[j],
        decreases a.len() - i,
    {
        if a[i] != b[i] {
            return false;
        }
        i += 1;
    }
    assert(a@ =~= b@);
    true
}

impl View for ArchivedSwissTable {
    type V = Map<Seq<u8>, u64>;

    /// The mapping from keys to values that the table denotes.
    open spec fn view(&self) -> Map<Seq<u8>, u64> {
        table_map(self.parts().ctrl@, self.parts().slots@)
    }
}

impl ArchivedSwissTable {
    #[verifier::type_invariant]
    spec fn inv(self) -> bool {
        shape_ok(self.raw.ctrl@, self.raw.slots@.len() as int, self.raw.len as int)
    }

    /// The stored parts of the table.
    pub closed spec fn parts(&self) -> RawSwissTable {
        self.raw
    }

    /// The bucket that a lookup of `key` ends in, if it finds one.
    pub open spec fn find_spec(&self, key: Seq<u8>) -> Option<int> {
        spec_find(self.parts().ctrl@, self.parts().slots@, key)
    }

    /// Whether the table has everything that a build establishes.
    pub open spec fn well_formed(&self) -> bool {
        well_formed(self.parts().ctrl@, self.parts().slots@, self.parts().len as int)
    }

    /// Certifies stored parts: the layout is recomputed from the declared
    /// length and the load factor, then the control bytes are held against
    /// it. The first failing check decides the error.
    pub fn check(raw: RawSwissTable, load_factor: (usize, usize)) -> (r: Result<
        ArchivedSwissTable,
        TableError,
    >)
        ensures
            match r {
                Ok(t) => t.parts() == raw && layout_matches(raw, load_factor) && shape_ok(
                    raw.ctrl@,
                    raw.slots@.len() as int,
                    raw.len as int,
                ),
                Err(TableError::InvalidLayout) => !layout_matches(raw, load_factor),
                Err(TableError::InvalidControlByte(i)) => layout_matches(raw, load_factor) && i
                    < raw.slots@.len() && raw.ctrl@[i as int] > EMPTY && head_ok(
                    raw.ctrl@,
                    i as int,
                ),
                Err(TableError::TailMismatch(i)) => layout_matches(raw, load_factor) && head_ok(
                    raw.ctrl@,
                    raw.slots@.len() as int,
                ) && raw.slots@.len() <= i < raw.ctrl@.len() && raw.ctrl@[i as int]
                    != raw.ctrl@[i - raw.slots@.len()] && tail_ok(
                    raw.ctrl@,
                    raw.slots@.len() as int,
                    i as int,
                ),
                Err(TableError::LengthMismatch) => layout_matches(raw, load_factor) && head_ok(
                    raw.ctrl@,
                    raw.slots@.len() as int,
                ) && tail_ok(raw.ctrl@, raw.slots@.len() as int, raw.ctrl@.len() as int)
                    && full_count(raw.ctrl@, raw.slots@.len() as int) != raw.len,
            },
    {
        let cap = raw.slots.len();
        match checked_layout(raw.len, load_factor) {
            None => {
                return Err(TableError::InvalidLayout);
            },
            Some((buckets, groups)) => {
                if buckets != cap || raw.ctrl.len() != groups * 16 {
                    return Err(TableError::InvalidLayout);
                }
            },
        }
        let mut count: usize = 0;
        let mut i: usize = 0;
        while i < cap
            invariant
                cap == raw.slots.len(),
                cap <= raw.ctrl.len(),
                i <= cap,
                layout_matches(raw, load_factor),
                head_ok(raw.ctrl@, i as int),
                count == full_count(raw.ctrl@, i as int),
                count <= i,
            decreases cap - i,
        {
            let c = raw.ctrl[i];
            if c > EMPTY {
                return Err(TableError::InvalidControlByte(i));
            }
            if c != EMPTY {
                count += 1;
            }
            i += 1;
        }
        while i < raw.ctrl.len()
            invariant
                cap == raw.slots.len(),
                cap <= i <= raw.ctrl.len(),
                cap == 0 ==> raw.ctrl.len() == 0,
                layout_matches(raw, load_factor),
                head_ok(raw.ctrl@, cap as int),
                tail_ok(raw.ctrl@, cap as int, i as int),
            decreases raw.ctrl.len() - i,
        {
            if raw.ctrl[i] != raw.ctrl[i - cap] {
                return Err(TableError::TailMismatch(i));
            }
            i += 1;
        }
        if count != raw.len {
            return Err(TableError::LengthMismatch);
        }
        Ok(ArchivedSwissTable { raw })
    }

    /// Checks the values of the entries, where each value is the position in
    /// `buf` of a value of the type `value_type`: the occupied buckets are
    /// taken in their order, with the claims of the pass that `ctx` holds, so
    /// a target that several entries lead to is checked once. The first
    /// failure ends the check and is returned with its bucket.
    pub fn check_values(
        &self,
        types: &Vec<Shape>,
        buf: &Vec<u8>,
        value_type: usize,
        ctx: &mut ArchiveContext,
    ) -> (r: Result<(), EntryError>)
        requires
            schema_ok(types@),
            value_type < types.len(),
            old(ctx).wf(),
            old(ctx).kinds() == types.len(),
        ensures
            (r, final(ctx).claims()) == values_outcome(
                types@,
                buf@,
                valid_extent(buf@, *old(ctx)),
                old(ctx).extent() as int,
                old(ctx).claims(),
                self.parts().ctrl@,
                self.parts().slots@,
                value_type as int,
                self.parts().slots@.len() as int,
            ),
            final(ctx).wf(),
            final(ctx).extent() == old(ctx).extent(),
            final(ctx).kinds() == old(ctx).kinds(),
    {
        proof {
            use_type_invariant(self);
        }
        let cap = self.raw.slots.len();
        let mut i: usize = 0;
        while i < cap
            invariant
                cap == self.raw.slots.len(),
                cap <= self.raw.ctrl.len(),
                i <= cap,
                schema_ok(types@),
                value_type < types.len(),
                ctx.wf(),
                ctx.kinds() == types.len(),
                ctx.kinds() == old(ctx).kinds(),
                ctx.extent() == old(ctx).extent(),
                (Ok::<(), EntryError>(()), ctx.claims()) == values_outcome(
                    types@,
                    buf@,
                    valid_extent(buf@, *old(ctx)),
                    old(ctx).extent() as int,
                    old(ctx).claims(),
                    self.raw.ctrl@,
                    self.raw.slots@,
                    value_type as int,
                    i as int,
                ),
            decreases cap - i,
        {
            if self.raw.ctrl[i] != EMPTY {
                let v = self.raw.slots[i].value;
                let pos: usize = if v > usize::MAX as u64 {
                    usize::MAX
                } else {
                    v as usize
                };
                match check_value(types, buf, value_type, pos, ctx) {
                    Ok(_) => {},
                    Err(error) => {
                        proof {
                            lemma_values_failure_stays(
                                types@,
                                buf@,
                                valid_extent(buf@, *old(ctx)),
                                old(ctx).extent() as int,
                                old(ctx).claims(),
                                self.raw.ctrl@,
                                self.raw.slots@,
                                value_type as int,
                                i + 1,
                                cap as int,
                            );
                        }
                        return Err(EntryError { bucket: i, error });
                    },
                }
            }
            i += 1;
        }
        Ok(())
    }

    /// Gives the stored parts back.
    pub fn into_parts(self) -> (r: RawSwissTable)
        ensures
            r == self.parts(),
            shape_ok(r.ctrl@, r.slots@.len() as int, r.len as int),
    {
        proof {
            use_type_invariant(&self);
        }
        self.raw
    }

    fn find<F: Fn(&Vec<u8>, &Vec<u8>) -> bool>(&self, key: &Vec<u8>, pred: &F) -> (r: Option<usize>)
        requires
            forall|q: &Vec<u8>, k: &Vec<u8>| #[trigger] pred.requires((q, k)),
        ensures
            match r {
                Some(i) => i < self.parts().slots@.len() && self.found_with(*pred, key, i as int),
                None => self.missed_with(*pred, key),
            },
            decides_key_eq(*pred) ==> r is Some == self.find_spec(key@) is Some,
            decides_key_eq(*pred) && r is Some ==> r.unwrap() == self.find_spec(key@).unwrap(),
    {
        proof {
            use_type_invariant(self);
        }
        let cap = self.raw.slots.len();
        if cap == 0 {
            return None;
        }
        let h = hash_value(key);
        let tag = tag_of(h);
        let groups: usize = self.raw.ctrl.len() / 16;
        let span: usize = span_of(groups);
        let s: usize = (h % (cap as u64)) as usize;
        proof {
            lemma_span(groups as int);
            lemma_tri_closed(span as int, 0);
        }
        let mut k: usize = 0;
        let mut g: usize = 0;
        while k < span
            invariant
                cap == self.raw.slots.len(),
                cap > 0,
                shape_ok(self.raw.ctrl@, cap as int, self.raw.len as int),
                groups == spec_group_count(cap as int),
                groups >= 1,
                self.raw.ctrl.len() == groups * 16,
                span == probe_span(groups as int),
                span < 2 * groups,
                s == start_index(h, cap as int),
                s < cap,
                h == spec_hash(key@),
                tag == spec_tag(h),
                tag < 0x80,
                forall|q: &Vec<u8>, x: &Vec<u8>| #[trigger] pred.requires((q, x)),
                k <= span,
                g == tri(span as int, k as int),
                g < span,
                forall|j: int|
                    0 <= j < k ==> #[trigger] step_full(self.raw.ctrl@, cap as int, s as int, j),
                forall|j: int|
                    0 <= j < k ==> #[trigger] step_rejected(
                        self.raw.ctrl@,
                        self.raw.slots@,
                        s as int,
                        j,
                        tag,
                        *pred,
                        key,
                    ),
                probe_stop(self.raw.ctrl@, cap as int, s as int, 0) == probe_stop(
                    self.raw.ctrl@,
                    cap as int,
                    s as int,
                    k as int,
                ),
                decides_key_eq(*pred) ==> self.find_spec(key@) == probe_from(
                    self.raw.ctrl@,
                    self.raw.slots@,
                    s as int,
                    k as int,
                    tag,
                    key@,
                ),
            decreases span - k,
        {
            if g < groups {
                let lo: usize = g * 16;
                let hi: usize = if lo + 16 < cap {
                    lo + 16
                } else {
                    cap
                };
                let mut t: usize = lo;
                let mut any_empty = false;
                let mut u: usize = 0;
                while u < MAX_GROUP_WIDTH / SUB_GROUP_WIDTH
                    invariant
                        cap == self.raw.slots.len(),
                        cap > 0,
                        shape_ok(self.raw.ctrl@, cap as int, self.raw.len as int),
                        cap <= self.raw.ctrl.len(),
                        s == start_index(h, cap as int),
                        s < cap,
                        h == spec_hash(key@),
                        tag == spec_tag(h),
                        tag < 0x80,
                        forall|q: &Vec<u8>, x: &Vec<u8>| #[trigger] pred.requires((q, x)),
                        k < span,
                        g < groups,
                        groups >= 1,
                        groups == spec_group_count(cap as int),
                        span == probe_span(groups as int),
                        g == tri(span as int, k as int),
                        lo == 16 * g,
                        hi == group_end(g as int, cap as int),
                        lo <= t <= hi,
                        hi <= cap,
                        hi <= lo + 16,
                        forall|j: int|
                            0 <= j < k ==> #[trigger] step_full(
                                self.raw.ctrl@,
                                cap as int,
                                s as int,
                                j,
                            ),
                        forall|j: int|
                            0 <= j < k ==> #[trigger] step_rejected(
                                self.raw.ctrl@,
                                self.raw.slots@,
                                s as int,
                                j,
                                tag,
                                *pred,
                                key,
                            ),
                        all_rejected(
                            self.raw.ctrl@,
                            self.raw.slots@,
                            s as int,
                            lo as int,
                            t as int,
                            tag,
                            *pred,
                            key,
                        ),
                        any_empty == !range_full(
                            self.raw.ctrl@,
                            cap as int,
                            s as int,
                            lo as int,
                            t as int,
                        ),
                        decides_key_eq(*pred) ==> self.find_spec(key@) == probe_from(
                            self.raw.ctrl@,
                            self.raw.slots@,
                            s as int,
                            k as int,
                            tag,
                            key@,
                        ),
                        decides_key_eq(*pred) ==> first_match(
                            self.raw.ctrl@,
                            self.raw.slots@,
                            s as int,
                            lo as int,
                            hi as int,
                            tag,
                            key@,
                        ) == first_match(
                            self.raw.ctrl@,
                            self.raw.slots@,
                            s as int,
                            t as int,
                            hi as int,
                            tag,
                            key@,
                        ),
                        u <= MAX_GROUP_WIDTH / SUB_GROUP_WIDTH,
                        t == (if lo + SUB_GROUP_WIDTH * u < hi {
                            lo + SUB_GROUP_WIDTH * u
                        } else {
                            hi as int
                        }),
                    decreases MAX_GROUP_WIDTH / SUB_GROUP_WIDTH - u,
                {
                    let sub_hi: usize = if hi - lo > SUB_GROUP_WIDTH * (u + 1) {
                        lo + SUB_GROUP_WIDTH * (u + 1)
                    } else {
                        hi
                    };
                    while t < sub_hi
                        invariant
                            cap == self.raw.slots.len(),
                            cap > 0,
                            shape_ok(self.raw.ctrl@, cap as int, self.raw.len as int),
                            cap <= self.raw.ctrl.len(),
                            s == start_index(h, cap as int),
                            s < cap,
                            h == spec_hash(key@),
                            tag == spec_tag(h),
                            tag < 0x80,
                            forall|q: &Vec<u8>, x: &Vec<u8>| #[trigger] pred.requires((q, x)),
                            k < span,
                            g < groups,
                            groups >= 1,
                            groups == spec_group_count(cap as int),
                            span == probe_span(groups as int),
                            g == tri(span as int, k as int),
                            lo == 16 * g,
                            hi == group_end(g as int, cap as int),
                            lo <= t <= hi,
                            hi <= cap,
                            hi <= lo + 16,
                            forall|j: int|
                                0 <= j < k ==> #[trigger] step_full(
                                    self.raw.ctrl@,
                                    cap as int,
                                    s as int,
                                    j,
                                ),
                            forall|j: int|
                                0 <= j < k ==> #[trigger] step_rejected(
                                    self.raw.ctrl@,
                                    self.raw.slots@,
                                    s as int,
                                    j,
                                    tag,
                                    *pred,
                                    key,
                                ),
                            all_rejected(
                                self.raw.ctrl@,
                                self.raw.slots@,
                                s as int,
                                lo as int,
                                t as int,
                                tag,
                                *pred,
                                key,
                            ),
                            any_empty == !range_full(
                                self.raw.ctrl@,
                                cap as int,
                                s as int,
                                lo as int,
                                t as int,
                            ),
                            decides_key_eq(*pred) ==> self.find_spec(key@) == probe_from(
                                self.raw.ctrl@,
                                self.raw.slots@,
                                s as int,
                                k as int,
                                tag,
                                key@,
                            ),
                            decides_key_eq(*pred) ==> first_match(
                                self.raw.ctrl@,
                                self.raw.slots@,
                                s as int,
                                lo as int,
                                hi as int,
                                tag,
                                key@,
                            ) == first_match(
                                self.raw.ctrl@,
                                self.raw.slots@,
                                s as int,
                                t as int,
                                hi as int,
                                tag,
                                key@,
                            ),
                            u < MAX_GROUP_WIDTH / SUB_GROUP_WIDTH,
                            t <= sub_hi <= hi,
                            sub_hi == (if lo + SUB_GROUP_WIDTH * (u + 1) < hi {
                                lo + SUB_GROUP_WIDTH * (u + 1)
                            } else {
                                hi as int
                            }),
                        decreases sub_hi - t,
                    {
                        let b: usize = if t < cap - s {
                            s + t
                        } else {
                            t - (cap - s)
                        };
                        let c = if t < self.raw.ctrl.len() - s {
                            self.raw.ctrl[s + t]
                        } else {
                            self.raw.ctrl[b]
                        };
                        proof {
                            assert(b == probe_bucket(s as int, t as int, cap as int));
                            assert(c == self.raw.ctrl@[b as int]);
                            assert(probe_offset(s as int, b as int, cap as int) == t);
                            assert(t as int / 16 == g);
                            lemma_step_is(groups as int, g as int, k as int);
                        }
                        if c == tag && pred(key, &self.raw.slots[b].key) {
                            return Some(b);
                        }
                        if c == EMPTY {
                            any_empty = true;
                        }
                        t += 1;
                    }
                    u += 1;
                }
                proof {
                    assert(group_full(self.raw.ctrl@, cap as int, s as int, g as int)
                        == !any_empty);
                }
                if any_empty {
                    return None;
                }
            }
            proof {
                lemma_tri_closed(span as int, k + 1);
                assert(step_full(self.raw.ctrl@, cap as int, s as int, k as int));
                assert(step_rejected(
                    self.raw.ctrl@,
                    self.raw.slots@,
                    s as int,
                    k as int,
                    tag,
                    *pred,
                    key,
                ));
            }
            g = (g + (k + 1)) % span;
            k += 1;
        }
        None
    }

    /// A lookup of `key` with the caller's predicate ends at bucket `i`.
    pub open spec fn found_with<F: Fn(&Vec<u8>, &Vec<u8>) -> bool>(
        &self,
        pred: F,
        key: &Vec<u8>,
        i: int,
    ) -> bool {
        found_by(self.parts().ctrl@, self.parts().slots@, pred, key, i)
    }

    /// A lookup of `key` with the caller's predicate finds nothing.
    pub open spec fn missed_with<F: Fn(&Vec<u8>, &Vec<u8>) -> bool>(
        &self,
        pred: F,
        key: &Vec<u8>,
    ) -> bool {
        missed_by(self.parts().ctrl@, self.parts().slots@, pred, key)
    }

    /// Looks `key` up with the caller's predicate: the first bucket on the
    /// probe that carries the tag of `key` and on whose key the predicate
    /// answers true gives the stored key and its value. Where the predicate
    /// decides equality of keys, this is the plain lookup.
    pub fn get_key_value_with<F: Fn(&Vec<u8>, &Vec<u8>) -> bool>(
        &self,
        key: &Vec<u8>,
        pred: F,
    ) -> (r: Option<(&Vec<u8>, &u64)>)
        requires
            forall|q: &Vec<u8>, k: &Vec<u8>| #[trigger] pred.requires((q, k)),
        ensures
            match r {
                Some(kv) => exists|i: int| #[trigger]
                    self.found_with(pred, key, i) && kv == (
                        &self.parts().slots@[i].key,
                        &self.parts().slots@[i].value,
                    ),
                None => self.missed_with(pred, key),
            },
            decides_key_eq(pred) ==> r == match self.find_spec(key@) {
                Some(i) => Some((&self.parts().slots@[i].key, &self.parts().slots@[i].value)),
                None => None,
            },
            decides_key_eq(pred) && self.well_formed() ==> (r is Some) == self@.dom().contains(
                key@,
            ),
            decides_key_eq(pred) && self.well_formed() && r is Some ==> r.unwrap().0@ == key@
                && *r.unwrap().1 == self@[key@],
    {
        proof {
            use_type_invariant(self);
            if self.well_formed() {
                lemma_find_is_map_lookup(
                    self.raw.ctrl@,
                    self.raw.slots@,
                    self.raw.len as int,
                    key@,
                );
            }
        }
        match self.find(key, &pred) {
            Some(i) => {
                proof {
                    assert(self.found_with(pred, key, i as int));
                }
                Some((&self.raw.slots[i].key, &self.raw.slots[i].value))
            },
            None => None,
        }
    }

    /// Looks `key` up and returns the stored key and its value.
    pub fn get_key_value(&self, key: &Vec<u8>) -> (r: Option<(&Vec<u8>, &u64)>)
        ensures
            r == match self.find_spec(key@) {
                Some(i) => Some((&self.parts().slots@[i].key, &self.parts().slots@[i].value)),
                None => None,
            },
            self.well_formed() ==> (r is Some) == self@.dom().contains(key@),
            self.well_formed() && r is Some ==> r.unwrap().0@ == key@ && *r.unwrap().1
                == self@[key@],
    {
        self.get_key_value_with(key, bytes_eq)
    }

    /// Looks `key` up with the caller's predicate and returns the value of
    /// the first entry on the probe that the predicate accepts.
    pub fn get_with<F: Fn(&Vec<u8>, &Vec<u8>) -> bool>(&self, key: &Vec<u8>, pred: F) -> (r:
        Option<&u64>)
        requires
            forall|q: &Vec<u8>, k: &Vec<u8>| #[trigger] pred.requires((q, k)),
        ensures
            match r {
                Some(v) => exists|i: int| #[trigger]
                    self.found_with(pred, key, i) && v == &self.parts().slots@[i].value,
                None => self.missed_with(pred, key),
            },
            decides_key_eq(pred) ==> r == match self.find_spec(key@) {
                Some(i) => Some(&self.parts().slots@[i].value),
                None => None,
            },
            decides_key_eq(pred) && self.well_formed() ==> r == if self@.dom().contains(key@) {
                Some(&self@[key@])
            } else {
                None
            },
    {
        match self.get_key_value_with(key, pred) {
            Some(kv) => Some(kv.1),
            None => None,
        }
    }

    /// Looks `key` up and returns its value.
    pub fn get(&self, key: &Vec<u8>) -> (r: Option<&u64>)
        ensures
            r == match self.find_spec(key@) {
                Some(i) => Some(&self.parts().slots@[i].value),
                None => None,
            },
            self.well_formed() ==> r == if self@.dom().contains(key@) {
                Some(&self@[key@])
            } else {
                None
            },
    {
        match self.get_key_value(key) {
            Some(kv) => Some(kv.1),
            None => None,
        }
    }

    /// Looks `key` up with the caller's predicate and gives exclusive access
    /// to the value of the first entry on the probe that the predicate
    /// accepts. The key and the control bytes stay as they are.
    pub fn get_mut_with<F: Fn(&Vec<u8>, &Vec<u8>) -> bool>(&mut self, key: &Vec<u8>, pred: F) -> (r:
        Option<&mut u64>)
        requires
            forall|q: &Vec<u8>, k: &Vec<u8>| #[trigger] pred.requires((q, k)),
        ensures
            final(self).parts().ctrl == old(self).parts().ctrl,
            final(self).parts().len == old(self).parts().len,
            forall|k: Seq<u8>| #[trigger] final(self).find_spec(k) == old(self).find_spec(k),
            old(self).well_formed() ==> final(self).well_formed(),
            match r {
                Some(v) => exists|i: int| #[trigger]
                    old(self).found_with(pred, key, i) && *v == old(self).parts().slots@[i].value
                        && final(self).parts().slots@ == old(self).parts().slots@.update(
                        i,
                        (Entry { key: old(self).parts().slots@[i].key, value: *final(v) }),
                    ),
                None => old(self).missed_with(pred, key) && final(self).parts() == old(
                    self,
                ).parts(),
            },
            decides_key_eq(pred) ==> match old(self).find_spec(key@) {
                Some(i) => 0 <= i < old(self).parts().slots@.len() && r is Some && *r.unwrap() == old(self).parts().slots@[i].value
                    && final(self).parts().slots@ == old(self).parts().slots@.update(
                    i,
                    (Entry {
                        key: old(self).parts().slots@[i].key,
                        value: *final(r.unwrap()),
                    }),
                ),
                None => r is None,
            },
    {
        match self.get_key_value_mut_with(key, pred) {
            Some(kv) => Some(kv.1),
            None => None,
        }
    }

    /// Looks `key` up and gives exclusive access to its value. The key and
    /// the control bytes stay as they are.
    pub fn get_mut(&mut self, key: &Vec<u8>) -> (r: Option<&mut u64>)
        ensures
            final(self).parts().ctrl == old(self).parts().ctrl,
            final(self).parts().len == old(self).parts().len,
            forall|k: Seq<u8>| #[trigger] final(self).find_spec(k) == old(self).find_spec(k),
            old(self).well_formed() ==> final(self).well_formed(),
            match old(self).find_spec(key@) {
                Some(i) => 0 <= i < old(self).parts().slots@.len() && r is Some && *r.unwrap() == old(self).parts().slots@[i].value
                    && final(self).parts().slots@ == old(self).parts().slots@.update(
                    i,
                    (Entry {
                        key: old(self).parts().slots@[i].key,
                        value: *final(r.unwrap()),
                    }),
                ),
                None => r is None && final(self).parts() == old(self).parts(),
            },
    {
        self.get_mut_with(key, bytes_eq)
    }

    /// Looks `key` up with the caller's predicate and returns, for the first
    /// entry on the probe that the predicate accepts, the stored key,
    /// read-only, with exclusive access to its value.
    pub fn get_key_value_mut_with<F: Fn(&Vec<u8>, &Vec<u8>) -> bool>(
        &mut self,
        key: &Vec<u8>,
        pred: F,
    ) -> (r: Option<(&Vec<u8>, &mut u64)>)
        requires
            forall|q: &Vec<u8>, k: &Vec<u8>| #[trigger] pred.requires((q, k)),
        ensures
            final(self).parts().ctrl == old(self).parts().ctrl,
            final(self).parts().len == old(self).parts().len,
            forall|k: Seq<u8>| #[trigger] final(self).find_spec(k) == old(self).find_spec(k),
            old(self).well_formed() ==> final(self).well_formed(),
            match r {
                Some(kv) => exists|i: int| #[trigger]
                    old(self).found_with(pred, key, i) && *kv.0 == old(self).parts().slots@[i].key
                        && *kv.1 == old(self).parts().slots@[i].value
                        && final(self).parts().slots@ == old(self).parts().slots@.update(
                        i,
                        (Entry { key: old(self).parts().slots@[i].key, value: *final(kv.1) }),
                    ),
                None => old(self).missed_with(pred, key) && final(self).parts() == old(
                    self,
                ).parts(),
            },
            decides_key_eq(pred) ==> match old(self).find_spec(key@) {
                Some(i) => 0 <= i < old(self).parts().slots@.len() && r is Some && *r.unwrap().0 == old(self).parts().slots@[i].key
                    && *r.unwrap().1 == old(self).parts().slots@[i].value
                    && final(self).parts().slots@ == old(self).parts().slots@.update(
                    i,
                    (Entry {
                        key: old(self).parts().slots@[i].key,
                        value: *final(r.unwrap().1),
                    }),
                ),
                None => r is None,
            },
    {
        proof {
            use_type_invariant(&*self);
        }
        match self.find(key, &pred) {
            Some(i) => {
                proof {
                    assert(self.found_with(pred, key, i as int));
                    let ctrl = self.raw.ctrl@;
                    let ents = self.raw.slots@;
                    let len = self.raw.len as int;
                    assert forall|v: u64, k: Seq<u8>| #[trigger]
                        spec_find(
                            ctrl,
                            ents.update(i as int, (Entry { key: ents[i as int].key, value: v })),
                            k,
                        ) == spec_find(ctrl, ents, k) by {
                        lemma_values_change_no_lookup(
                            ctrl,
                            ents,
                            ents.update(i as int, (Entry { key: ents[i as int].key, value: v })),
                            len,
                            k,
                        );
                    }
                    assert forall|v: u64|
                        well_formed(ctrl, ents, len) implies #[trigger] well_formed(
                            ctrl,
                            ents.update(i as int, (Entry { key: ents[i as int].key, value: v })),
                            len,
                        ) by {
                        lemma_values_change_no_lookup(
                            ctrl,
                            ents,
                            ents.update(i as int, (Entry { key: ents[i as int].key, value: v })),
                            len,
                            seq![],
                        );
                    }
                }
                let entry = &mut self.raw.slots[i];
                Some((&entry.key, &mut entry.value))
            },
            None => None,
        }
    }

    /// Looks `key` up and returns the stored key, read-only, with exclusive
    /// access to its value.
    pub fn get_key_value_mut(&mut self, key: &Vec<u8>) -> (r: Option<(&Vec<u8>, &mut u64)>)
        ensures
            final(self).parts().ctrl == old(self).parts().ctrl,
            final(self).parts().len == old(self).parts().len,
            forall|k: Seq<u8>| #[trigger] final(self).find_spec(k) == old(self).find_spec(k),
            old(self).well_formed() ==> final(self).well_formed(),
            match old(self).find_spec(key@) {
                Some(i) => 0 <= i < old(self).parts().slots@.len() && r is Some && *r.unwrap().0 == old(self).parts().slots@[i].key
                    && *r.unwrap().1 == old(self).parts().slots@[i].value 
                    && final(self).parts().slots@ == old(self).parts().slots@.update(
                    i,
                    (Entry {
                        key: old(self).parts().slots@[i].key,
                        value: *final(r.unwrap().1),
                    }),
                ),
                None => r is None && final(self).parts() == old(self).parts(),
            },
    {
        self.get_key_value_mut_with(key, bytes_eq)
    }

    /// Whether a lookup of `key` finds an entry.
    pub fn contains_key(&self, key: &Vec<u8>) -> (r: bool)
        ensures
            r == self.find_spec(key@) is Some,
            self.well_formed() ==> r == self@.dom().contains(key@),
    {
        self.get(key).is_some()
    }

    /// The value of a key that the table is known to hold.
    pub fn index(&self, key: &Vec<u8>) -> (r: &u64)
        requires
            self.find_spec(key@) is Some,
        ensures
            *r == self.parts().slots@[self.find_spec(key@).unwrap()].value,
            self.well_formed() ==> self@.dom().contains(key@) && *r == self@[key@],
    {
        self.get(key).unwrap()
    }

    /// An iterator over the entries, in the order of their buckets.
    pub fn iter(&self) -> (it: Iter<'_>)
        ensures
            it.table() == *self,
            it.position() == 0,
    {
        proof {
            use_type_invariant(self);
            lemma_full_count_bound(self.raw.ctrl@, self.raw.slots@.len() as int);
        }
        Iter { table: self, pos: 0, remaining: self.raw.len }
    }

    /// An iterator over the keys, in the order of their buckets.
    pub fn keys(&self) -> (it: Keys<'_>)
        ensures
            it.entries().table() == *self,
            it.entries().position() == 0,
    {
        Keys { raw: self.iter() }
    }

    /// An iterator over the values, in the order of their buckets.
    pub fn values(&self) -> (it: Values<'_>)
        ensures
            it.entries().table() == *self,
            it.entries().position() == 0,
    {
        Values { raw: self.iter() }
    }

    /// A walk over the entries, in the order of their buckets, that gives
    /// exclusive access to each value.
    pub fn iter_mut(&mut self) -> (it: IterMut<'_>)
        ensures
            it.position() == 0,
            it.table() == *old(self),
            it.wf(),
            *final(self) == *final(it.table),
    {
        proof {
            use_type_invariant(&*self);
            lemma_full_count_bound(self.raw.ctrl@, self.raw.slots@.len() as int);
        }
        let remaining = self.raw.len;
        IterMut { table: self, cursor: (0, remaining) }
    }

    /// A walk over the values, in the order of their buckets, that gives
    /// exclusive access to each.
    pub fn values_mut(&mut self) -> (it: ValuesMut<'_>)
        ensures
            it.position() == 0,
            it.table() == *old(self),
            it.wf(),
            *final(self) == *final(it.raw.table),
    {
        ValuesMut { raw: self.iter_mut() }
    }

    /// Whether the table holds no entry.
    pub fn is_empty(&self) -> (r: bool)
        ensures
            r == (self.parts().len == 0),
    {
        self.raw.len == 0
    }

    /// The number of entries.
    pub fn len(&self) -> (r: usize)
        ensures
            r == self.parts().len,
            r == full_count(self.parts().ctrl@, self.parts().slots@.len() as int),
    {
        proof {
            use_type_invariant(self);
        }
        self.raw.len
    }

    /// The number of buckets.
    pub fn capacity(&self) -> (r: usize)
        ensures
            r == self.parts().slots@.len(),
            r >= self.parts().len,
    {
        proof {
            use_type_invariant(self);
            lemma_full_count_bound(self.raw.ctrl@, self.raw.slots@.len() as int);
        }
        self.raw.slots.len()
    }
}

/// Equality of tables: both have the same length and every entry of the
/// first is found in the second with the same value, whatever buckets the
/// entries were given.
impl PartialEq for ArchivedSwissTable {
    fn eq(&self, other: &ArchivedSwissTable) -> (r: bool)
    {
        proof {
            use_type_invariant(self);
        }
        if self.raw.len != other.raw.len {
            return false;
        }
        let cap = self.raw.slots.len();
        let mut i: usize = 0;
        while i < cap
            invariant
                cap == self.raw.slots.len(),
                cap <= self.raw.ctrl.len(),
                i <= cap,
                self.raw.len == other.raw.len,
                forall|j: int|
                    0 <= j < i && self.raw.ctrl@[j] != EMPTY ==> has_pair(
                        other.parts().ctrl@,
                        other.parts().slots@,
                        (#[trigger] self.raw.slots@[j]).key@,
                        self.raw.slots@[j].value,
                    ),
            decreases cap - i,
        {
            if self.raw.ctrl[i] != EMPTY {
                let entry = &self.raw.slots[i];
                let same = match other.get(&entry.key) {
                    Some(v) => *v == entry.value,
                    None => false,
                };
                if !same {
                    return false;
                }
            }
            i += 1;
        }
        true
    }
}

impl PartialEqSpecImpl for ArchivedSwissTable {
    open spec fn obeys_eq_spec() -> bool {
        true
    }

    open spec fn eq_spec(&self, other: &ArchivedSwissTable) -> bool {
        tables_equal(self.parts(), other.parts())
    }
}

/// Filling an empty bucket among the first `n` raises their count by one.
pub proof fn lemma_full_count_update(ctrl: Seq<u8>, i: int, v: u8, n: int)
    requires
        0 <= i < ctrl.len(),
        0 <= n <= ctrl.len(),
        ctrl[i] == EMPTY,
        v != EMPTY,
    ensures
        full_count(ctrl.update(i, v), n) == full_count(ctrl, n) + if i < n {
            1int
        } else {
            0int
        },
    decreases n,
{
    if n > 0 {
        lemma_full_count_update(ctrl, i, v, n - 1);
    }
}

/// The count looks at the first `n` control bytes only.
pub proof fn lemma_full_count_same(a: Seq<u8>, b: Seq<u8>, n: int)
    requires
        forall|i: int| 0 <= i < n ==> a[i] == b[i],
    ensures
        full_count(a, n) == full_count(b, n),
    decreases n,
{
    if n > 0 {
        lemma_full_count_same(a, b, n - 1);
    }
}

/// Where no bucket is empty, all are counted; where none is occupied, none.
pub proof fn lemma_full_count_uniform(ctrl: Seq<u8>, n: int)
    requires
        n >= 0,
    ensures
        (forall|i: int| 0 <= i < n ==> ctrl[i] != EMPTY) ==> full_count(ctrl, n) == n,
        (forall|i: int| 0 <= i < n ==> ctrl[i] == EMPTY) ==> full_count(ctrl, n) == 0,
    decreases n,
{
    if n > 0 {
        lemma_full_count_uniform(ctrl, n - 1);
    }
}

/// Occupying more buckets keeps a bucket reachable.
pub proof fn lemma_reach_monotone(before: Seq<u8>, after: Seq<u8>, cap: int, key: Seq<u8>, b: int)
    requires
        cap > 0,
        forall|i: int| 0 <= i < cap && before[i] != EMPTY ==> after[i] != EMPTY,
        reach_ok(before, cap, key, b),
    ensures
        reach_ok(after, cap, key, b),
{
    let s = start_index(spec_hash(key), cap);
    let groups = spec_group_count(cap);
    let span = probe_span(groups);
    lemma_span(groups);
    vstd::arithmetic::div_mod::lemma_mod_bound(spec_hash(key) as int, cap);
    assert forall|j: int|
        0 <= j < step_of(groups, probe_offset(s, b, cap) / 16) implies #[trigger] step_full(
        after,
        cap,
        s,
        j,
    ) by {
        assert(step_full(before, cap, s, j));
        lemma_tri_closed(span, j);
        let g = tri(span, j);
        if g < groups {
            assert forall|t: int|
                16 * g <= t < group_end(g, cap) implies after[#[trigger] probe_bucket(s, t, cap)]
                != EMPTY by {
                assert(before[probe_bucket(s, t, cap)] != EMPTY);
            }
        }
    }
}

/// The count never falls as more buckets are counted.
pub proof fn lemma_full_count_monotone(ctrl: Seq<u8>, a: int, b: int)
    requires
        a <= b,
    ensures
        full_count(ctrl, a) <= full_count(ctrl, b),
    decreases b - a,
{
    if a < b {
        lemma_full_count_monotone(ctrl, a, b - 1);
    }
}

/// At most `n` of the first `n` buckets are occupied.
pub proof fn lemma_full_count_bound(ctrl: Seq<u8>, n: int)
    requires
        n >= 0,
    ensures
        0 <= full_count(ctrl, n) <= n,
    decreases n,
{
    if n > 0 {
        lemma_full_count_bound(ctrl, n - 1);
    }
}

/// A lookup of `key` ends at an entry with `value`.
pub open spec fn has_pair(ctrl: Seq<u8>, ents: Seq<Entry>, key: Seq<u8>, value: u64) -> bool {
    match spec_find(ctrl, ents, key) {
        Some(j) => ents[j].value == value,
        None => false,
    }
}

/// Equality of tables: the same length, and every entry of the first is
/// found in the second with the same value.
pub open spec fn tables_equal(a: RawSwissTable, b: RawSwissTable) -> bool {
    &&& a.len == b.len
    &&& forall|i: int|
        0 <= i < a.slots@.len() && a.ctrl@[i] != EMPTY ==> has_pair(
            b.ctrl@,
            b.slots@,
            (#[trigger] a.slots@[i]).key@,
            a.slots@[i].value,
        )
}

/// The first occupied bucket at or after `from`, or `cap` where there is none.
pub open spec fn next_full(ctrl: Seq<u8>, from: int, cap: int) -> int
    decreases cap - from,
{
    if from >= cap {
        cap
    } else if ctrl[from] != EMPTY {
        from
    } else {
        next_full(ctrl, from + 1, cap)
    }
}

/// An iterator over the entries of a table.
pub struct Iter<'a> {
    table: &'a ArchivedSwissTable,
    pos: usize,
    remaining: usize,
}

/// An iterator over the keys of a table.
pub struct Keys<'a> {
    raw: Iter<'a>,
}

/// An iterator over the values of a table.
pub struct Values<'a> {
    raw: Iter<'a>,
}

impl<'a> Iter<'a> {
    #[verifier::type_invariant]
    spec fn inv(self) -> bool {
        &&& self.pos <= self.table.raw.slots@.len()
        &&& self.remaining == full_count(self.table.raw.ctrl@, self.table.raw.slots@.len() as int)
            - full_count(self.table.raw.ctrl@, self.pos as int)
    }

    /// The table that is walked.
    pub closed spec fn table(&self) -> ArchivedSwissTable {
        *self.table
    }

    /// The bucket at which the walk goes on.
    pub closed spec fn position(&self) -> int {
        self.pos as int
    }

    /// The number of entries still to come.
    pub open spec fn spec_len(&self) -> int {
        let t = self.table().parts();
        full_count(t.ctrl@, t.slots@.len() as int) - full_count(t.ctrl@, self.position())
    }

    /// The next entry: that of the first occupied bucket at or after the
    /// position. The tail of the control bytes is never walked.
    pub fn next(&mut self) -> (r: Option<(&'a Vec<u8>, &'a u64)>)
        ensures
            final(self).table() == old(self).table(),
            ({
                let t = old(self).table().parts();
                let i = next_full(t.ctrl@, old(self).position(), t.slots@.len() as int);
                if 0 <= i < t.slots@.len() {
                    &&& r == Some((&t.slots@[i].key, &t.slots@[i].value))
                    &&& t.ctrl@[i] != EMPTY
                    &&& final(self).position() == i + 1
                    &&& old(self).position() <= i
                    &&& final(self).spec_len() == old(self).spec_len() - 1
                } else {
                    &&& r is None
                    &&& old(self).spec_len() == 0
                    &&& final(self).position() == t.slots@.len()
                }
            }),
    {
        proof {
            use_type_invariant(&*self);
            use_type_invariant(self.table);
        }
        let table: &'a ArchivedSwissTable = self.table;
        let cap = table.raw.slots.len();
        let start = self.pos;
        let remaining = self.remaining;
        let mut i: usize = start;
        while i < cap
            invariant
                *table == old(self).table(),
                start == old(self).position(),
                cap == table.raw.slots.len(),
                remaining == full_count(table.raw.ctrl@, cap as int) - full_count(
                    table.raw.ctrl@,
                    start as int,
                ),
                cap <= table.raw.ctrl.len(),
                start <= i <= cap,
                next_full(table.raw.ctrl@, start as int, cap as int) == next_full(
                    table.raw.ctrl@,
                    i as int,
                    cap as int,
                ),
                full_count(table.raw.ctrl@, i as int) == full_count(table.raw.ctrl@, start as int),
            decreases cap - i,
        {
            if table.raw.ctrl[i] != EMPTY {
                proof {
                    lemma_full_count_monotone(table.raw.ctrl@, i + 1, cap as int);
                }
                *self = Iter { table, pos: i + 1, remaining: remaining - 1 };
                return Some((&table.raw.slots[i].key, &table.raw.slots[i].value));
            }
            i += 1;
        }
        *self = Iter { table, pos: cap, remaining: 0 };
        None
    }

    /// The number of entries still to come.
    pub fn len(&self) -> (r: usize)
        ensures
            r == self.spec_len(),
    {
        proof {
            use_type_invariant(self);
        }
        self.remaining
    }
}

impl<'a> Keys<'a> {
    /// The walk over the entries whose keys are handed out.
    pub closed spec fn entries(&self) -> Iter<'a> {
        self.raw
    }

    /// The key of the next entry.
    pub fn next(&mut self) -> (r: Option<&'a Vec<u8>>)
        ensures
            final(self).entries().table() == old(self).entries().table(),
            ({
                let t = old(self).entries().table().parts();
                let i = next_full(t.ctrl@, old(self).entries().position(), t.slots@.len() as int);
                if 0 <= i < t.slots@.len() {
                    &&& r == Some(&t.slots@[i].key)
                    &&& final(self).entries().position() == i + 1
                    &&& old(self).entries().position() <= i
                } else {
                    &&& r is None
                    &&& final(self).entries().position() == t.slots@.len()
                }
            }),
    {
        match self.raw.next() {
            Some(kv) => Some(kv.0),
            None => None,
        }
    }

    /// The number of keys still to come.
    pub fn len(&self) -> (r: usize)
        ensures
            r == self.entries().spec_len(),
    {
        self.raw.len()
    }
}

impl<'a> Values<'a> {
    /// The walk over the entries whose values are handed out.
    pub closed spec fn entries(&self) -> Iter<'a> {
        self.raw
    }

    /// The value of the next entry.
    pub fn next(&mut self) -> (r: Option<&'a u64>)
        ensures
            final(self).entries().table() == old(self).entries().table(),
            ({
                let t = old(self).entries().table().parts();
                let i = next_full(t.ctrl@, old(self).entries().position(), t.slots@.len() as int);
                if 0 <= i < t.slots@.len() {
                    &&& r == Some(&t.slots@[i].value)
                    &&& final(self).entries().position() == i + 1
                    &&& old(self).entries().position() <= i
                } else {
                    &&& r is None
                    &&& final(self).entries().position() == t.slots@.len()
                }
            }),
    {
        match self.raw.next() {
            Some(kv) => Some(kv.1),
            None => None,
        }
    }

    /// The number of values still to come.
    pub fn len(&self) -> (r: usize)
        ensures
            r == self.entries().spec_len(),
    {
        self.raw.len()
    }
}

/// A walk over the entries of a table that gives exclusive access to each
/// value in turn.
pub struct IterMut<'a> {
    /// The table that is walked.
    pub table: &'a mut ArchivedSwissTable,
    /// The bucket at which the walk goes on, and the entries still to come.
    pub cursor: (usize, usize),
}

/// A walk over the values of a table that gives exclusive access to each in
/// turn.
pub struct ValuesMut<'a> {
    /// The walk over the entries whose values are handed out.
    pub raw: IterMut<'a>,
}

impl<'a> ValuesMut<'a> {
    /// The table that is walked, as it is now.
    pub open spec fn table(&self) -> ArchivedSwissTable {
        self.raw.table()
    }

    /// The bucket at which the walk goes on.
    pub open spec fn position(&self) -> int {
        self.raw.position()
    }

    /// The walk is inside its table and counts what is still to come.
    pub open spec fn wf(&self) -> bool {
        self.raw.wf()
    }

    /// Exclusive access to the value of the next entry.
    pub fn next(&mut self) -> (r: Option<&mut u64>)
        requires
            old(self).wf(),
        ensures
            final(self).wf(),
            *final(final(self).raw.table) == *final(old(self).raw.table),
            ({
                let t = old(self).table().parts();
                let i = next_full(t.ctrl@, old(self).position(), t.slots@.len() as int);
                if 0 <= i < t.slots@.len() {
                    &&& r is Some
                    &&& t.ctrl@[i] != EMPTY
                    &&& *r.unwrap() == t.slots@[i].value
                    &&& final(self).position() == i + 1
                    &&& old(self).position() <= i
                    &&& final(self).table().parts().ctrl == t.ctrl
                    &&& final(self).table().parts().len == t.len
                    &&& final(self).table().parts().slots@ == t.slots@.update(
                        i,
                        (Entry { key: t.slots@[i].key, value: *final(r.unwrap()) }),
                    )
                } else {
                    &&& r is None
                    &&& final(self).position() == old(self).position()
                    &&& final(self).table() == old(self).table()
                }
            }),
    {
        match self.raw.next() {
            Some(kv) => Some(kv.1),
            None => None,
        }
    }

    /// The number of values still to come.
    pub fn len(&self) -> (r: usize)
        requires
            self.wf(),
        ensures
            r == full_count(self.table().parts().ctrl@, self.table().parts().slots@.len() as int)
                - full_count(self.table().parts().ctrl@, self.position()),
    {
        self.raw.len()
    }
}

impl<'a> IterMut<'a> {
    /// The table that is walked, as it is now.
    pub open spec fn table(&self) -> ArchivedSwissTable {
        *self.table
    }

    /// The bucket at which the walk goes on.
    pub open spec fn position(&self) -> int {
        self.cursor.0 as int
    }

    /// The walk is inside its table and counts what is still to come.
    pub open spec fn wf(&self) -> bool {
        let t = self.table().parts();
        &&& self.cursor.0 <= t.slots@.len()
        &&& self.cursor.1 == full_count(t.ctrl@, t.slots@.len() as int) - full_count(
            t.ctrl@,
            self.cursor.0 as int,
        )
    }

    /// The number of entries still to come.
    pub fn len(&self) -> (r: usize)
        requires
            self.wf(),
        ensures
            r == full_count(self.table().parts().ctrl@, self.table().parts().slots@.len() as int)
                - full_count(self.table().parts().ctrl@, self.position()),
    {
        self.cursor.1
    }

    /// The next entry: the key, read-only, and exclusive access to the value
    /// of the first occupied bucket at or after the position.
    pub fn next(&mut self) -> (r: Option<(&Vec<u8>, &mut u64)>)
        requires
            old(self).wf(),
        ensures
            final(self).wf(),
            *final(final(self).table) == *final(old(self).table),
            ({
                let t = old(self).table().parts();
                let i = next_full(t.ctrl@, old(self).position(), t.slots@.len() as int);
                if 0 <= i < t.slots@.len() {
                    &&& r is Some
                    &&& t.ctrl@[i] != EMPTY
                    &&& *r.unwrap().0 == t.slots@[i].key
                    &&& *r.unwrap().1 == t.slots@[i].value
                    &&& final(self).position() == i + 1
                    &&& old(self).position() <= i
                    &&& final(self).table().parts().ctrl == t.ctrl
                    &&& final(self).table().parts().len == t.len
                    &&& final(self).table().parts().slots@ == t.slots@.update(
                        i,
                        (Entry { key: t.slots@[i].key, value: *final(r.unwrap().1) }),
                    )
                } else {
                    &&& r is None
                    &&& final(self).position() == old(self).position()
                    &&& final(self).table() == old(self).table()
                }
            }),
    {
        proof {
            use_type_invariant(&*self.table);
        }
        let cap = self.table.raw.slots.len();
        let start = self.cursor.0;
        let mut i: usize = start;
        while i < cap && self.table.raw.ctrl[i] == EMPTY
            invariant
                *self == *old(self),
                start == self.cursor.0,
                start <= i <= cap,
                full_count(self.table.raw.ctrl@, i as int) == full_count(
                    self.table.raw.ctrl@,
                    start as int,
                ),
                cap == self.table.raw.slots.len(),
                cap <= self.table.raw.ctrl.len(),
                next_full(self.table.raw.ctrl@, start as int, cap as int) == next_full(
                    self.table.raw.ctrl@,
                    i as int,
                    cap as int,
                ),
            decreases cap - i,
        {
            i += 1;
        }
        if i < cap {
            proof {
                lemma_full_count_monotone(self.table.raw.ctrl@, i + 1, cap as int);
            }
            self.cursor = (i + 1, self.cursor.1 - 1);
            let entry = &mut self.table.raw.slots[i];
            Some((&entry.key, &mut entry.value))
        } else {
            None
        }
    }
}

/// Two well-formed tables of the same length that denote the same mapping
/// are equal, whatever buckets their entries were given.
pub proof fn lemma_equal_in_any_order(a: RawSwissTable, b: RawSwissTable)
    requires
        well_formed(a.ctrl@, a.slots@, a.len as int),
        well_formed(b.ctrl@, b.slots@, b.len as int),
        a.len == b.len,
        table_map(a.ctrl@, a.slots@) == table_map(b.ctrl@, b.slots@),
    ensures
        tables_equal(a, b),
        tables_equal(b, a),
{
    lemma_same_map_found(a, b);
    lemma_same_map_found(b, a);
}

proof fn lemma_same_map_found(a: RawSwissTable, b: RawSwissTable)
    requires
        well_formed(a.ctrl@, a.slots@, a.len as int),
        well_formed(b.ctrl@, b.slots@, b.len as int),
        a.len == b.len,
        table_map(a.ctrl@, a.slots@) == table_map(b.ctrl@, b.slots@),
    ensures
        tables_equal(a, b),
{
    assert forall|i: int| 0 <= i < a.slots@.len() && a.ctrl@[i] != EMPTY implies has_pair(
        b.ctrl@,
        b.slots@,
        (#[trigger] a.slots@[i]).key@,
        a.slots@[i].value,
    ) by {
        let k = a.slots@[i].key@;
        assert(holds(a.ctrl@, a.slots@, i, k));
        lemma_find_is_map_lookup(a.ctrl@, a.slots@, a.len as int, k);
        lemma_probe_reaches(a.ctrl@, a.slots@, a.len as int, i, 0);
        lemma_find_is_map_lookup(b.ctrl@, b.slots@, b.len as int, k);
    }
}

/// Tables that are equal agree on every key of the first: what the first
/// maps a key to, the second maps it to as well.
pub proof fn lemma_equal_tables_agree(a: RawSwissTable, b: RawSwissTable, key: Seq<u8>)
    requires
        well_formed(a.ctrl@, a.slots@, a.len as int),
        well_formed(b.ctrl@, b.slots@, b.len as int),
        tables_equal(a, b),
        table_map(a.ctrl@, a.slots@).dom().contains(key),
    ensures
        table_map(b.ctrl@, b.slots@).dom().contains(key),
        table_map(b.ctrl@, b.slots@)[key] == table_map(a.ctrl@, a.slots@)[key],
{
    let i = choose|i: int| holds(a.ctrl@, a.slots@, i, key);
    assert(has_pair(b.ctrl@, b.slots@, a.slots@[i].key@, a.slots@[i].value));
    lemma_probe_reaches(a.ctrl@, a.slots@, a.len as int, i, 0);
    lemma_find_is_map_lookup(a.ctrl@, a.slots@, a.len as int, key);
    lemma_find_is_map_lookup(b.ctrl@, b.slots@, b.len as int, key);
}

/// A probe visits each group at most once: after as many steps as the span
/// has it has ended, and the span is not above the bucket count.
pub proof fn lemma_probe_ends(ctrl: Seq<u8>, ents: Seq<Entry>, s: int, k: int, tag: u8, key: Seq<u8>)
    requires
        k >= probe_span(spec_group_count(ents.len() as int)),
    ensures
        probe_from(ctrl, ents, s, k, tag, key) is None,
        ents.len() >= 1 ==> probe_span(spec_group_count(ents.len() as int)) <= ents.len(),
{
    if ents.len() >= 1 {
        lemma_span(spec_group_count(ents.len() as int));
    }
}

/// Every control byte, those of the tail too, is the control byte of the
/// bucket that its index wraps to.
pub proof fn lemma_tail_wraps(ctrl: Seq<u8>, cap: int, len: int, i: int)
    requires
        shape_ok(ctrl, cap, len),
        0 <= i < ctrl.len(),
    ensures
        cap > 0,
        ctrl[i] == ctrl[i % cap],
    decreases i,
{
    if i < cap {
        vstd::arithmetic::div_mod::lemma_small_mod(i as nat, cap as nat);
    } else {
        lemma_tail_wraps(ctrl, cap, len, i - cap);
        vstd::arithmetic::div_mod::lemma_mod_sub_multiples_vanish(i, cap);
    }
}

/// Two slot arrays hold the same keys.
pub open spec fn same_keys(a: Seq<Entry>, b: Seq<Entry>) -> bool {
    &&& a.len() == b.len()
    &&& forall|i: int| 0 <= i < a.len() ==> (#[trigger] a[i]).key@ == b[i].key@
}

proof fn lemma_first_match_ignores_values(
    ctrl: Seq<u8>,
    a: Seq<Entry>,
    b: Seq<Entry>,
    s: int,
    lo: int,
    hi: int,
    tag: u8,
    key: Seq<u8>,
)
    requires
        same_keys(a, b),
        0 <= s < a.len(),
        0 <= lo,
        hi <= a.len(),
    ensures
        first_match(ctrl, a, s, lo, hi, tag, key) == first_match(ctrl, b, s, lo, hi, tag, key),
    decreases hi - lo,
{
    if lo < hi {
        let i = probe_bucket(s, lo, a.len() as int);
        assert(a[i].key@ == b[i].key@);
        lemma_first_match_ignores_values(ctrl, a, b, s, lo + 1, hi, tag, key);
    }
}

proof fn lemma_probe_ignores_values(
    ctrl: Seq<u8>,
    a: Seq<Entry>,
    b: Seq<Entry>,
    s: int,
    k: int,
    tag: u8,
    key: Seq<u8>,
)
    requires
        same_keys(a, b),
        0 <= s < a.len(),
        0 <= k,
    ensures
        probe_from(ctrl, a, s, k, tag, key) == probe_from(ctrl, b, s, k, tag, key),
    decreases probe_span(spec_group_count(a.len() as int)) - k,
{
    let cap = a.len() as int;
    let groups = spec_group_count(cap);
    let span = probe_span(groups);
    if k < span {
        lemma_span(groups);
        lemma_tri_closed(span, k);
        let g = tri(span, k);
        if g < groups {
            lemma_first_match_ignores_values(ctrl, a, b, s, 16 * g, group_end(g, cap), tag, key);
        }
        lemma_probe_ignores_values(ctrl, a, b, s, k + 1, tag, key);
    }
}

/// Changing values in place moves nothing: every lookup ends in the bucket
/// in which it ended before, and a well-formed table stays well-formed.
pub proof fn lemma_values_change_no_lookup(
    ctrl: Seq<u8>,
    a: Seq<Entry>,
    b: Seq<Entry>,
    len: int,
    key: Seq<u8>,
)
    requires
        same_keys(a, b),
    ensures
        spec_find(ctrl, a, key) == spec_find(ctrl, b, key),
        well_formed(ctrl, a, len) ==> well_formed(ctrl, b, len),
{
    let cap = a.len() as int;
    if cap > 0 {
        let h = spec_hash(key);
        vstd::arithmetic::div_mod::lemma_mod_bound(h as int, cap);
        lemma_probe_ignores_values(ctrl, a, b, start_index(h, cap), 0, spec_tag(h), key);
    }
    if well_formed(ctrl, a, len) {
        assert forall|i: int| 0 <= i < b.len() && ctrl[i] != EMPTY implies #[trigger] placed_ok(
            ctrl,
            b,
            i,
        ) by {
            assert(placed_ok(ctrl, a, i));
            assert(a[i].key@ == b[i].key@);
        }
        assert forall|i: int, j: int|
            0 <= i < j < b.len() && #[trigger] ctrl[i] != EMPTY && #[trigger] ctrl[j]
                != EMPTY implies b[i].key@ != b[j].key@ by {
            assert(a[i].key@ == b[i].key@);
            assert(a[j].key@ == b[j].key@);
        }
    }
}

/// The predicate answers true or false on a stored key, never both.
pub open spec fn answers_once<F: Fn(&Vec<u8>, &Vec<u8>) -> bool>(pred: F, key: &Vec<u8>) -> bool {
    forall|k: &Vec<u8>| !(#[trigger] pred.ensures((key, k), true) && pred.ensures((key, k), false))
}

proof fn lemma_stop_bounds(ctrl: Seq<u8>, cap: int, s: int, k: int)
    requires
        0 <= k <= probe_span(spec_group_count(cap)),
    ensures
        k <= probe_stop(ctrl, cap, s, k) <= probe_span(spec_group_count(cap)),
    decreases probe_span(spec_group_count(cap)) - k,
{
    if k < probe_span(spec_group_count(cap)) && step_full(ctrl, cap, s, k) {
        lemma_stop_bounds(ctrl, cap, s, k + 1);
    }
}

proof fn lemma_stop_not_before(ctrl: Seq<u8>, cap: int, s: int, k: int, n: int)
    requires
        0 <= k <= n <= probe_span(spec_group_count(cap)),
        forall|j: int| 0 <= j < n ==> #[trigger] step_full(ctrl, cap, s, j),
    ensures
        n <= probe_stop(ctrl, cap, s, k),
    decreases n - k,
{
    if k < n {
        assert(step_full(ctrl, cap, s, k));
        lemma_stop_not_before(ctrl, cap, s, k + 1, n);
    } else {
        lemma_stop_bounds(ctrl, cap, s, k);
    }
}

/// With a predicate that answers once on every stored key, a lookup has one
/// outcome: it cannot both end at a bucket and find nothing, nor end at two
/// buckets. So two lookups of one key with one predicate agree, the shared
/// one and the one that gives exclusive access.
pub proof fn lemma_lookup_with_is_determined<F: Fn(&Vec<u8>, &Vec<u8>) -> bool>(
    ctrl: Seq<u8>,
    ents: Seq<Entry>,
    pred: F,
    key: &Vec<u8>,
    i: int,
    j: int,
)
    requires
        answers_once(pred, key),
        found_by(ctrl, ents, pred, key, i),
    ensures
        !missed_by(ctrl, ents, pred, key),
        found_by(ctrl, ents, pred, key, j) ==> i == j,
{
    let cap = ents.len() as int;
    let groups = spec_group_count(cap);
    let h = spec_hash(key@);
    let tag = spec_tag(h);
    let s = start_index(h, cap);
    vstd::arithmetic::div_mod::lemma_mod_bound(h as int, cap);
    lemma_span(groups);
    let t = probe_offset(s, i, cap);
    let g = t / 16;
    lemma_step_of(groups, g);
    let k = step_of(groups, g);
    assert(probe_bucket(s, t, cap) == i);
    lemma_stop_not_before(ctrl, cap, s, 0, k);
    if missed_by(ctrl, ents, pred, key) {
        assert(step_rejected(ctrl, ents, s, k, tag, pred, key));
        assert(pred.ensures((key, &ents[probe_bucket(s, t, cap)].key), false));
        assert(false);
    }
    if found_by(ctrl, ents, pred, key, j) && i != j {
        let u = probe_offset(s, j, cap);
        let gj = u / 16;
        lemma_step_of(groups, gj);
        let kj = step_of(groups, gj);
        assert(probe_bucket(s, u, cap) == j);
        if g == gj {
            if t < u {
                assert(pred.ensures((key, &ents[probe_bucket(s, t, cap)].key), false));
            } else {
                assert(pred.ensures((key, &ents[probe_bucket(s, u, cap)].key), false));
            }
        } else if k < kj {
            assert(step_rejected(ctrl, ents, s, k, tag, pred, key));
            assert(pred.ensures((key, &ents[probe_bucket(s, t, cap)].key), false));
        } else {
            assert(step_rejected(ctrl, ents, s, kj, tag, pred, key));
            assert(pred.ensures((key, &ents[probe_bucket(s, u, cap)].key), false));
        }
        assert(false);
    }
}

/// Which buckets of `b` the lookups of the entries in the first `n` buckets
/// of `a` end in.
spec fn hits(a: RawSwissTable, b: RawSwissTable, n: int) -> Seq<u8>
    decreases n,
{
    if n <= 0 {
        Seq::new(b.slots@.len(), |j: int| EMPTY)
    } else {
        let before = hits(a, b, n - 1);
        if a.ctrl@[n - 1] != EMPTY {
            match spec_find(b.ctrl@, b.slots@, a.slots@[n - 1].key@) {
                Some(j) => before.update(j, 0u8),
                None => before,
            }
        } else {
            before
        }
    }
}

/// Bucket `j` of `b` holds an entry that `a` holds below bucket `n`.
spec fn found_below(a: RawSwissTable, b: RawSwissTable, j: int, n: int) -> bool {
    match spec_find(a.ctrl@, a.slots@, b.slots@[j].key@) {
        Some(i) => i < n && a.slots@[i].value == b.slots@[j].value,
        None => false,
    }
}

proof fn lemma_hits(a: RawSwissTable, b: RawSwissTable, n: int)
    requires
        well_formed(a.ctrl@, a.slots@, a.len as int),
        well_formed(b.ctrl@, b.slots@, b.len as int),
        tables_equal(a, b),
        0 <= n <= a.slots@.len(),
    ensures
        hits(a, b, n).len() == b.slots@.len(),
        full_count(hits(a, b, n), b.slots@.len() as int) == full_count(a.ctrl@, n),
        forall|j: int|
            0 <= j < b.slots@.len() && #[trigger] hits(a, b, n)[j] != EMPTY ==> b.ctrl@[j] != EMPTY
                && found_below(a, b, j, n),
    decreases n,
{
    let cap = b.slots@.len() as int;
    if n <= 0 {
        lemma_full_count_uniform(hits(a, b, n), cap);
    } else {
        lemma_hits(a, b, n - 1);
        let before = hits(a, b, n - 1);
        if a.ctrl@[n - 1] != EMPTY {
            let key = a.slots@[n - 1].key@;
            assert(has_pair(b.ctrl@, b.slots@, a.slots@[n - 1].key@, a.slots@[n - 1].value));
            lemma_find_is_map_lookup(b.ctrl@, b.slots@, b.len as int, key);
            let j0 = spec_find(b.ctrl@, b.slots@, key).unwrap();
            lemma_probe_reaches(a.ctrl@, a.slots@, a.len as int, n - 1, 0);
            assert(spec_find(a.ctrl@, a.slots@, key) == Some(n - 1));
            assert(b.slots@[j0].key@ == key);
            if before[j0] != EMPTY {
                assert(found_below(a, b, j0, n - 1));
                assert(false);
            }
            lemma_full_count_update(before, j0, 0u8, cap);
            assert forall|j: int|
                0 <= j < cap && #[trigger] hits(a, b, n)[j] != EMPTY implies b.ctrl@[j] != EMPTY
                    && found_below(a, b, j, n) by {
                if j != j0 {
                    assert(before[j] != EMPTY);
                    assert(found_below(a, b, j, n - 1));
                }
            }
        } else {
            assert forall|j: int|
                0 <= j < cap && #[trigger] hits(a, b, n)[j] != EMPTY implies b.ctrl@[j] != EMPTY
                    && found_below(a, b, j, n) by {
                assert(before[j] != EMPTY);
                assert(found_below(a, b, j, n - 1));
            }
        }
    }
}

/// Of two arrays with equally many occupied buckets, of which the second
/// has every occupied bucket of the first, each has those of the other.
pub proof fn lemma_counts_squeeze(x: Seq<u8>, y: Seq<u8>, n: int)
    requires
        forall|j: int| 0 <= j < n && #[trigger] x[j] != EMPTY ==> y[j] != EMPTY,
    ensures
        full_count(x, n) <= full_count(y, n),
        full_count(x, n) == full_count(y, n) ==> forall|j: int|
            0 <= j < n && #[trigger] y[j] != EMPTY ==> x[j] != EMPTY,
    decreases n,
{
    if n > 0 {
        lemma_counts_squeeze(x, y, n - 1);
    }
}

/// Equality of well-formed tables is symmetric: tables of the same length,
/// of which one holds every entry of the other, hold the same entries.
pub proof fn lemma_eq_symmetric(a: RawSwissTable, b: RawSwissTable)
    requires
        well_formed(a.ctrl@, a.slots@, a.len as int),
        well_formed(b.ctrl@, b.slots@, b.len as int),
        tables_equal(a, b),
    ensures
        tables_equal(b, a),
{
    let n = a.slots@.len() as int;
    let cap = b.slots@.len() as int;
    lemma_hits(a, b, n);
    lemma_counts_squeeze(hits(a, b, n), b.ctrl@, cap);
    assert forall|j: int| 0 <= j < cap && b.ctrl@[j] != EMPTY implies has_pair(
        a.ctrl@,
        a.slots@,
        (#[trigger] b.slots@[j]).key@,
        b.slots@[j].value,
    ) by {
        assert(hits(a, b, n)[j] != EMPTY);
        assert(found_below(a, b, j, n));
    }
}

} // verus!
