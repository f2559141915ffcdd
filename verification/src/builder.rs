//! Building a table in two passes: the first assigns every entry its
//! bucket, the second lays the control bytes and slots out.

use crate::hash::{hash_value, spec_hash, spec_tag, tag_of};
use crate::layout::{
    layout, layout_fits, spec_bucket_count, spec_control_count, spec_group_count, EMPTY,
    MAX_GROUP_WIDTH, SUB_GROUP_WIDTH,
};
use crate::probe::{
    lemma_span, lemma_step_is, lemma_step_of, lemma_tri_closed, probe_span, span_of, step_of, tri,
};
use crate::swiss_table::{
    full_count, group_end, group_full, holds, lemma_find_is_map_lookup, lemma_full_count_same,
    lemma_full_count_uniform, lemma_full_count_update, lemma_reach_monotone, placed_ok,
    probe_bucket, probe_offset, range_full, reach_ok, shape_ok, spec_find, start_index, step_full,
    table_map, well_formed, ArchivedSwissTable, Entry, RawSwissTable,
};
use vstd::prelude::*;

verus! {

/// What the first pass hands to the second: the bucket of every entry, in
/// insertion order, the bucket count, and the length of the repeated tail.
pub struct SwissTableResolver {
    pub buckets: Vec<usize>,
    pub bucket_count: usize,
    pub tail: usize,
}

/// No key occurs twice.
pub open spec fn keys_unique(pairs: Seq<Entry>) -> bool {
    forall|m1: int, m2: int|
        0 <= m1 < m2 < pairs.len() ==> (#[trigger] pairs[m1]).key@ != (#[trigger] pairs[m2]).key@
}

/// Entry `m` has key `k`.
pub open spec fn pair_has_key(pairs: Seq<Entry>, m: int, k: Seq<u8>) -> bool {
    0 <= m < pairs.len() && pairs[m].key@ == k
}

/// The mapping that a list of entries with unique keys denotes.
pub open spec fn pairs_map(pairs: Seq<Entry>) -> Map<Seq<u8>, u64> {
    Map::new(
        |k: Seq<u8>| exists|m: int| pair_has_key(pairs, m, k),
        |k: Seq<u8>| pairs[choose|m: int| pair_has_key(pairs, m, k)].value,
    )
}

/// Control bytes that show only which buckets an assignment occupies.
pub open spec fn occupancy(buckets: Seq<usize>, cap: int) -> Seq<u8> {
    Seq::new(
        cap as nat,
        |i: int|
            if buckets.contains(i as usize) {
                0u8
            } else {
                EMPTY
            },
    )
}

/// The assignment gives every entry a bucket of its own, and each entry can
/// be reached by a probe for its key once all of them are in place.
pub open spec fn resolver_valid(pairs: Seq<Entry>, cap: int, r: SwissTableResolver) -> bool {
    &&& r.bucket_count == cap
    &&& r.tail == spec_control_count(cap) - cap
    &&& r.buckets@.len() == pairs.len()
    &&& forall|m: int| 0 <= m < pairs.len() ==> 0 <= #[trigger] r.buckets@[m] < cap
    &&& forall|m1: int, m2: int|
        0 <= m1 < m2 < pairs.len() ==> #[trigger] r.buckets@[m1] != #[trigger] r.buckets@[m2]
    &&& forall|m: int|
        0 <= m < pairs.len() ==> reach_ok(
            occupancy(r.buckets@, cap),
            cap,
            (#[trigger] pairs[m]).key@,
            r.buckets@[m] as int,
        )
}

/// The first empty bucket at the offsets `lo..hi` of the probe from `s`, if
/// any.
pub open spec fn first_empty(work: Seq<u8>, s: int, lo: int, hi: int) -> Option<int>
    decreases hi - lo,
{
    if lo >= hi {
        None
    } else if work[probe_bucket(s, lo, work.len() as int)] == EMPTY {
        Some(probe_bucket(s, lo, work.len() as int))
    } else {
        first_empty(work, s, lo + 1, hi)
    }
}

/// The bucket that an insertion takes from step `k` of its probe on: the
/// first empty bucket of the first group that has one.
pub open spec fn free_from(work: Seq<u8>, s: int, k: int) -> Option<int>
    decreases probe_span(spec_group_count(work.len() as int)) - k,
{
    let cap = work.len() as int;
    let groups = spec_group_count(cap);
    let span = probe_span(groups);
    if k < 0 || k >= span {
        None
    } else if tri(span, k) >= groups {
        free_from(work, s, k + 1)
    } else {
        match first_empty(work, s, 16 * tri(span, k), group_end(tri(span, k), cap)) {
            Some(i) => Some(i),
            None => free_from(work, s, k + 1),
        }
    }
}

/// The bucket that an entry with `key` takes in a table with these control
/// bytes.
pub open spec fn free_bucket(work: Seq<u8>, key: Seq<u8>) -> Option<int> {
    free_from(work, start_index(spec_hash(key), work.len() as int), 0)
}

/// The control bytes of the buckets once the first `n` entries are placed,
/// each in turn in the bucket that its probe finds free.
pub open spec fn placed_controls(pairs: Seq<Entry>, cap: int, n: int) -> Seq<u8>
    decreases n,
{
    if n <= 0 {
        Seq::new(cap as nat, |i: int| EMPTY)
    } else {
        let before = placed_controls(pairs, cap, n - 1);
        let key = pairs[n - 1].key@;
        match free_bucket(before, key) {
            Some(b) => before.update(b, spec_tag(spec_hash(key))),
            None => before,
        }
    }
}

/// The bucket that entry `m` is given.
pub open spec fn assigned_bucket(pairs: Seq<Entry>, cap: int, m: int) -> Option<int> {
    free_bucket(placed_controls(pairs, cap, m), pairs[m].key@)
}

fn empty_controls(n: usize) -> (v: Vec<u8>)
    ensures
        v.len() == n,
        forall|i: int| 0 <= i < n ==> v@[i] == EMPTY,
{
    let mut v: Vec<u8> = Vec::new();
    let mut i: usize = 0;
    while i < n
        invariant
            i <= n,
            v.len() == i,
            forall|j: int| 0 <= j < i ==> v@[j] == EMPTY,
        decreases n - i,
    {
        v.push(EMPTY);
        i += 1;
    }
    v
}

fn copy_bytes(a: &Vec<u8>) -> (v: Vec<u8>)
    ensures
        v@ == a@,
{
    let mut v: Vec<u8> = Vec::new();
    let mut i: usize = 0;
    while i < a.len()
        invariant
            i <= a.len(),
            v@ == a@.take(i as int),
        decreases a.len() - i,
    {
        v.push(a[i]);
        proof {
            assert(a@.take(i + 1) =~= a@.take(i as int).push(a@[i as int]));
        }
        i += 1;
    }
    proof {
        assert(a@.take(a.len() as int) =~= a@);
    }
    v
}

/// The first empty bucket of the first group with one, on the probe that
/// starts at bucket `s`.
fn find_free(work: &Vec<u8>, s: usize) -> (b: usize)
    requires
        work.len() > 0,
        work.len() + 15 <= usize::MAX,
        s < work.len(),
        full_count(work@, work.len() as int) < work.len(),
    ensures
        b < work.len(),
        work@[b as int] == EMPTY,
        free_from(work@, s as int, 0) == Some(b as int),
        forall|j: int|
            0 <= j < step_of(
                spec_group_count(work.len() as int),
                probe_offset(s as int, b as int, work.len() as int) / 16,
            ) ==> #[trigger] step_full(work@, work.len() as int, s as int, j),
{
    let cap = work.len();
    let groups: usize = (cap + 15) / 16;
    let span: usize = span_of(groups);
    proof {
        lemma_span(groups as int);
        lemma_tri_closed(span as int, 0);
    }
    let mut k: usize = 0;
    let mut g: usize = 0;
    while k < span
        invariant
            cap == work.len(),
            cap > 0,
            cap + 15 <= usize::MAX,
            groups == spec_group_count(cap as int),
            groups >= 1,
            span == probe_span(groups as int),
            span < 2 * groups,
            s < cap,
            k <= span,
            g == tri(span as int, k as int),
            g < span,
            free_from(work@, s as int, 0) == free_from(work@, s as int, k as int),
            forall|j: int| 0 <= j < k ==> #[trigger] step_full(work@, cap as int, s as int, j),
        decreases span - k,
    {
        if g < groups {
            let lo: usize = g * 16;
            let hi: usize = if lo + 16 < cap {
                lo + 16
            } else {
                cap
            };
            let mut t: usize = lo;
            let mut u: usize = 0;
            while u < MAX_GROUP_WIDTH / SUB_GROUP_WIDTH
                invariant
                    cap == work.len(),
                    cap > 0,
                    s < cap,
                    k < span,
                    g < groups,
                    groups >= 1,
                    groups == spec_group_count(cap as int),
                    span == probe_span(groups as int),
                    g == tri(span as int, k as int),
                    lo == 16 * g,
                    hi == group_end(g as int, cap as int),
                    lo <= t <= hi,
                    hi <= cap,
                    hi <= lo + 16,
                    range_full(work@, cap as int, s as int, lo as int, t as int),
                    free_from(work@, s as int, 0) == free_from(work@, s as int, k as int),
                    first_empty(work@, s as int, lo as int, hi as int) == first_empty(
                        work@,
                        s as int,
                        t as int,
                        hi as int,
                    ),
                    forall|j: int|
                        0 <= j < k ==> #[trigger] step_full(work@, cap as int, s as int, j),
                    u <= MAX_GROUP_WIDTH / SUB_GROUP_WIDTH,
                    t == (if lo + SUB_GROUP_WIDTH * u < hi {
                        lo + SUB_GROUP_WIDTH * u
                    } else {
                        hi as int
                    }),
                decreases MAX_GROUP_WIDTH / SUB_GROUP_WIDTH - u,
            {
                let sub_hi: usize = if hi - lo > SUB_GROUP_WIDTH * (u + 1) {
                    lo + SUB_GROUP_WIDTH * (u + 1)
                } else {
                    hi
                };
                while t < sub_hi
                    invariant
                        cap == work.len(),
                        cap > 0,
                        s < cap,
                        k < span,
                        g < groups,
                        groups >= 1,
                        groups == spec_group_count(cap as int),
                        span == probe_span(groups as int),
                        g == tri(span as int, k as int),
                        lo == 16 * g,
                        hi == group_end(g as int, cap as int),
                        lo <= t <= hi,
                        hi <= cap,
                        hi <= lo + 16,
                        range_full(work@, cap as int, s as int, lo as int, t as int),
                        free_from(work@, s as int, 0) == free_from(work@, s as int, k as int),
                        first_empty(work@, s as int, lo as int, hi as int) == first_empty(
                            work@,
                            s as int,
                            t as int,
                            hi as int,
                        ),
                        forall|j: int|
                            0 <= j < k ==> #[trigger] step_full(work@, cap as int, s as int, j),
                        u < MAX_GROUP_WIDTH / SUB_GROUP_WIDTH,
                        t <= sub_hi <= hi,
                        sub_hi == (if lo + SUB_GROUP_WIDTH * (u + 1) < hi {
                            lo + SUB_GROUP_WIDTH * (u + 1)
                        } else {
                            hi as int
                        }),
                    decreases sub_hi - t,
                {
                    let b: usize = if t < cap - s {
                        s + t
                    } else {
                        t - (cap - s)
                    };
                    proof {
                        assert(b == probe_bucket(s as int, t as int, cap as int));
                        assert(probe_offset(s as int, b as int, cap as int) == t);
                        assert(t as int / 16 == g);
                        lemma_step_is(groups as int, g as int, k as int);
                    }
                    if work[b] == EMPTY {
                        return b;
                    }
                    t += 1;
                }
                u += 1;
            }
            proof {
                assert(group_full(work@, cap as int, s as int, g as int));
            }
        }
        proof {
            lemma_tri_closed(span as int, k + 1);
            assert(step_full(work@, cap as int, s as int, k as int));
        }
        g = (g + (k + 1)) % span;
        k += 1;
    }
    proof {
        assert forall|i: int| 0 <= i < cap implies work@[i] != EMPTY by {
            let t = probe_offset(s as int, i, cap as int);
            let gi = t / 16;
            assert(0 <= gi < groups);
            lemma_step_of(groups as int, gi);
            let j = step_of(groups as int, gi);
            assert(step_full(work@, cap as int, s as int, j));
            assert(group_full(work@, cap as int, s as int, gi));
            assert(16 * gi <= t < group_end(gi, cap as int));
            assert(probe_bucket(s as int, t, cap as int) == i);
        }
        lemma_full_count_uniform(work@, cap as int);
        assert(false);
    }
    0
}

impl ArchivedSwissTable {
    /// First pass: assigns every entry the first empty bucket on the probe
    /// for its key, in the order in which the entries come.
    pub fn serialize_from_iter(pairs: &Vec<Entry>, load_factor: (usize, usize)) -> (r:
        SwissTableResolver)
        requires
            layout_fits(pairs.len(), load_factor),
        ensures
            resolver_valid(
                pairs@,
                spec_bucket_count(pairs.len() as int, load_factor.0 as int, load_factor.1 as int),
                r,
            ),
            forall|m: int|
                0 <= m < pairs.len() ==> assigned_bucket(
                    pairs@,
                    spec_bucket_count(
                        pairs.len() as int,
                        load_factor.0 as int,
                        load_factor.1 as int,
                    ),
                    m,
                ) == Some(#[trigger] r.buckets@[m] as int),
    {
        let len = pairs.len();
        let (cap, groups) = layout(len, load_factor);
        let mut work = empty_controls(cap);
        let mut buckets: Vec<usize> = Vec::new();
        let mut n: usize = 0;
        proof {
            lemma_full_count_uniform(work@, cap as int);
            assert(work@ =~= placed_controls(pairs@, cap as int, 0));
        }
        while n < len
            invariant
                len == pairs.len(),
                n <= len <= cap,
                cap + 15 <= usize::MAX,
                work.len() == cap,
                work@ == placed_controls(pairs@, cap as int, n as int),
                forall|m: int|
                    0 <= m < n ==> assigned_bucket(pairs@, cap as int, m) == Some(
                        #[trigger] buckets@[m] as int,
                    ),
                groups == spec_group_count(cap as int),
                buckets.len() == n,
                full_count(work@, cap as int) == n,
                forall|m: int|
                    0 <= m < n ==> 0 <= #[trigger] buckets@[m] < cap && work@[buckets@[m] as int]
                        != EMPTY,
                forall|i: int|
                    0 <= i < cap && #[trigger] work@[i] != EMPTY ==> buckets@.contains(i as usize),
                forall|m1: int, m2: int|
                    0 <= m1 < m2 < n ==> #[trigger] buckets@[m1] != #[trigger] buckets@[m2],
                forall|m: int|
                    0 <= m < n ==> reach_ok(
                        work@,
                        cap as int,
                        (#[trigger] pairs@[m]).key@,
                        buckets@[m] as int,
                    ),
            decreases len - n,
        {
            let h = hash_value(&pairs[n].key);
            let tag = tag_of(h);
            let start: usize = (h % (cap as u64)) as usize;
            let b = find_free(&work, start);
            let ghost before = work@;
            let ghost chosen = buckets@;
            work.set(b, tag);
            buckets.push(b);
            proof {
                lemma_full_count_update(before, b as int, tag, cap as int);
                assert forall|i: int| 0 <= i < cap && #[trigger] work@[i] != EMPTY implies buckets@.contains(
                    i as usize,
                ) by {
                    if i == b {
                        assert(buckets@[n as int] == b);
                    } else {
                        assert(before[i] != EMPTY);
                        let w = choose|w: int| 0 <= w < chosen.len() && chosen[w] == i as usize;
                        assert(buckets@[w] == i as usize);
                    }
                }
                assert forall|m: int| 0 <= m < n + 1 implies reach_ok(
                    work@,
                    cap as int,
                    (#[trigger] pairs@[m]).key@,
                    buckets@[m] as int,
                ) by {
                    if m < n {
                        assert(buckets@[m] == chosen[m]);
                    }
                    lemma_reach_monotone(
                        before,
                        work@,
                        cap as int,
                        pairs@[m].key@,
                        buckets@[m] as int,
                    );
                }
            }
            n += 1;
        }
        proof {
            let occ = occupancy(buckets@, cap as int);
            assert forall|m: int| 0 <= m < len implies reach_ok(
                occ,
                cap as int,
                (#[trigger] pairs@[m]).key@,
                buckets@[m] as int,
            ) by {
                lemma_reach_monotone(work@, occ, cap as int, pairs@[m].key@, buckets@[m] as int);
            }
        }
        SwissTableResolver { buckets, bucket_count: cap, tail: groups * 16 - cap }
    }

    /// Second pass: lays out the control bytes and the slots of the table
    /// that the assignment describes. The length, the load factor and the
    /// entries must be those that the assignment was made for.
    pub fn resolve_from_len(
        pairs: &Vec<Entry>,
        len: usize,
        load_factor: (usize, usize),
        resolver: SwissTableResolver,
    ) -> (out: RawSwissTable)
        requires
            len == pairs.len(),
            layout_fits(len, load_factor),
            keys_unique(pairs@),
            resolver_valid(
                pairs@,
                spec_bucket_count(len as int, load_factor.0 as int, load_factor.1 as int),
                resolver,
            ),
        ensures
            out.len == len,
            out.slots@.len() == spec_bucket_count(
                len as int,
                load_factor.0 as int,
                load_factor.1 as int,
            ),
            well_formed(out.ctrl@, out.slots@, len as int),
            table_map(out.ctrl@, out.slots@) == pairs_map(pairs@),
            forall|i: int|
                0 <= i < out.slots@.len() && #[trigger] out.ctrl@[i] != EMPTY
                    ==> resolver.buckets@.contains(i as usize),
            forall|m: int|
                0 <= m < len ==> holds(
                    out.ctrl@,
                    out.slots@,
                    #[trigger] resolver.buckets@[m] as int,
                    pairs@[m].key@,
                ) && out.slots@[resolver.buckets@[m] as int].value == pairs@[m].value,
    {
        let (cap, groups) = layout(len, load_factor);
        let mut head = empty_controls(cap);
        let mut slots: Vec<Entry> = Vec::new();
        let mut i: usize = 0;
        while i < cap
            invariant
                i <= cap,
                slots.len() == i,
            decreases cap - i,
        {
            slots.push(Entry { key: Vec::new(), value: 0 });
            i += 1;
        }
        let ghost mut owner: Seq<int> = Seq::new(cap as nat, |i: int| 0int);
        let mut n: usize = 0;
        proof {
            lemma_full_count_uniform(head@, cap as int);
        }
        while n < len
            invariant
                len == pairs.len(),
                n <= len <= cap,
                head.len() == cap,
                slots.len() == cap,
                owner.len() == cap,
                keys_unique(pairs@),
                resolver_valid(pairs@, cap as int, resolver),
                full_count(head@, cap as int) == n,
                forall|i: int| 0 <= i < cap ==> #[trigger] head@[i] <= EMPTY,
                forall|i: int|
                    0 <= i < cap && #[trigger] head@[i] != EMPTY ==> {
                        &&& 0 <= owner[i] < n
                        &&& resolver.buckets@[owner[i]] == i
                        &&& slots@[i].key@ == pairs@[owner[i]].key@
                        &&& slots@[i].value == pairs@[owner[i]].value
                        &&& head@[i] == spec_tag(spec_hash(slots@[i].key@))
                    },
                forall|m: int|
                    0 <= m < n ==> head@[#[trigger] resolver.buckets@[m] as int] != EMPTY
                        && owner[resolver.buckets@[m] as int] == m,
            decreases len - n,
        {
            let b = resolver.buckets[n];
            let pair = &pairs[n];
            let tag = tag_of(hash_value(&pair.key));
            let ghost before = head@;
            proof {
                if before[b as int] != EMPTY {
                    assert(resolver.buckets@[owner[b as int]] == b);
                    assert(false);
                }
                lemma_full_count_update(before, b as int, tag, cap as int);
            }
            head.set(b, tag);
            slots.set(b, Entry { key: copy_bytes(&pair.key), value: pair.value });
            proof {
                owner = owner.update(b as int, n as int);
            }
            n += 1;
        }
        let mut ctrl: Vec<u8> = Vec::new();
        let total: usize = groups * 16;
        let mut i: usize = 0;
        while i < total
            invariant
                i <= total,
                cap <= total,
                cap == 0 ==> total == 0,
                head.len() == cap,
                ctrl.len() == i,
                forall|j: int| 0 <= j < i && j < cap ==> #[trigger] ctrl@[j] == head@[j],
                forall|j: int| cap <= j < i ==> #[trigger] ctrl@[j] == ctrl@[j - cap],
            decreases total - i,
        {
            let c = if i < cap {
                head[i]
            } else {
                ctrl[i - cap]
            };
            ctrl.push(c);
            i += 1;
        }
        proof {
            lemma_full_count_same(ctrl@, head@, cap as int);
            let occ = occupancy(resolver.buckets@, cap as int);
            assert forall|i: int| 0 <= i < cap && occ[i] != EMPTY implies ctrl@[i] != EMPTY by {
                let m = choose|m: int|
                    0 <= m < resolver.buckets@.len() && resolver.buckets@[m] == i as usize;
                assert(head@[resolver.buckets@[m] as int] != EMPTY);
            }
            assert forall|i: int| 0 <= i < cap && ctrl@[i] != EMPTY implies #[trigger] placed_ok(
                ctrl@,
                slots@,
                i,
            ) by {
                assert(head@[i] != EMPTY);
                let m = owner[i];
                assert(reach_ok(occ, cap as int, pairs@[m].key@, resolver.buckets@[m] as int));
                lemma_reach_monotone(occ, ctrl@, cap as int, pairs@[m].key@, i);
            }
            assert forall|i: int, j: int|
                0 <= i < j < cap && #[trigger] ctrl@[i] != EMPTY && #[trigger] ctrl@[j]
                    != EMPTY implies slots@[i].key@ != slots@[j].key@ by {
                assert(head@[i] != EMPTY && head@[j] != EMPTY);
                assert(owner[i] != owner[j]);
                assert(pairs@[owner[i]].key@ != pairs@[owner[j]].key@);
            }
            assert forall|m: int| 0 <= m < len implies holds(
                ctrl@,
                slots@,
                #[trigger] resolver.buckets@[m] as int,
                pairs@[m].key@,
            ) && slots@[resolver.buckets@[m] as int].value == pairs@[m].value by {
                assert(head@[resolver.buckets@[m] as int] != EMPTY);
            }
            assert forall|i: int| 0 <= i < cap && #[trigger] ctrl@[i] != EMPTY implies resolver.buckets@.contains(
                i as usize,
            ) by {
                assert(head@[i] != EMPTY);
                assert(resolver.buckets@[owner[i]] == i as usize);
            }
            let built = table_map(ctrl@, slots@);
            let wanted = pairs_map(pairs@);
            assert forall|k: Seq<u8>| built.dom().contains(k) == wanted.dom().contains(k) by {
                if built.dom().contains(k) {
                    let i = choose|i: int| holds(ctrl@, slots@, i, k);
                    assert(head@[i] != EMPTY);
                    assert(pair_has_key(pairs@, owner[i], k));
                }
                if wanted.dom().contains(k) {
                    let m = choose|m: int| pair_has_key(pairs@, m, k);
                    assert(holds(ctrl@, slots@, resolver.buckets@[m] as int, k));
                }
            }
            assert forall|k: Seq<u8>| built.dom().contains(k) implies built[k] == wanted[k] by {
                let i = choose|i: int| holds(ctrl@, slots@, i, k);
                let m = choose|m: int| pair_has_key(pairs@, m, k);
                assert(head@[i] != EMPTY);
                assert(pair_has_key(pairs@, owner[i], k));
                if owner[i] < m {
                    assert(pairs@[owner[i]].key@ != pairs@[m].key@);
                } else if m < owner[i] {
                    assert(pairs@[m].key@ != pairs@[owner[i]].key@);
                }
            }
            assert(built =~= wanted);
        }
        RawSwissTable { ctrl, slots, len }
    }
}

/// In the table built from entries with unique keys, a lookup of a key of
/// one of the entries ends at that entry's value, and a lookup of any other
/// key finds nothing. The table also has the shape that the check asks for.
pub proof fn lemma_round_trip(pairs: Seq<Entry>, out: RawSwissTable, key: Seq<u8>)
    requires
        keys_unique(pairs),
        well_formed(out.ctrl@, out.slots@, out.len as int),
        table_map(out.ctrl@, out.slots@) == pairs_map(pairs),
    ensures
        shape_ok(out.ctrl@, out.slots@.len() as int, out.len as int),
        forall|m: int|
            pair_has_key(pairs, m, key) ==> spec_find(out.ctrl@, out.slots@, key) is Some
                && out.slots@[spec_find(out.ctrl@, out.slots@, key).unwrap()].value
                == pairs[m].value,
        (forall|m: int| !pair_has_key(pairs, m, key)) ==> spec_find(out.ctrl@, out.slots@, key)
            is None,
{
    lemma_find_is_map_lookup(out.ctrl@, out.slots@, out.len as int, key);
    assert forall|m: int| pair_has_key(pairs, m, key) implies spec_find(
        out.ctrl@,
        out.slots@,
        key,
    ) is Some && out.slots@[spec_find(out.ctrl@, out.slots@, key).unwrap()].value
        == pairs[m].value by {
        let w = choose|w: int| pair_has_key(pairs, w, key);
        assert(pairs_map(pairs).dom().contains(key));
        if w < m {
            assert(pairs[w].key@ != pairs[m].key@);
        } else if m < w {
            assert(pairs[m].key@ != pairs[w].key@);
        }
    }
}

} // verus!
