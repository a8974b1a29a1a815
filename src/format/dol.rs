//! Segments of GameCube DOL executables.
use crate::error::FerroxError;
use crate::format::{bss_permissions, code_permissions, data_permissions, Permissions, Segment};
use crate::format::sweep::{
    lemma_count_positive, lemma_count_zero, lemma_insert_sum, lemma_push_covered, lemma_stretch,
    lemma_update_sum, sum_le,
};
use orthrus_core::data::{DataCursorRef, DataError, Endian, ReadExt, SeekExt};
use vstd::prelude::*;

verus! {

/// Number of code sections in the header.
pub const CODE_SLOTS: usize = 7;

/// Number of code and data sections in the header.
pub const SLOTS: usize = 18;

/// Number of bytes of the header that segment extraction reads: 56 words.
pub const HEADER_LEN: usize = 224;

/// The big-endian 32-bit word at byte `i` of `b`.
pub open spec fn be_u32(b: Seq<u8>, i: int) -> u32 {
    (b[i] as int * 0x100_0000 + b[i + 1] as int * 0x1_0000 + b[i + 2] as int * 0x100 + b[i
        + 3] as int) as u32
}

/// Word `k` of the header.
pub open spec fn word(b: Seq<u8>, k: int) -> u32 {
    be_u32(b, 4 * k)
}

pub open spec fn slot_offset(b: Seq<u8>, n: int) -> u32 {
    word(b, n)
}

pub open spec fn slot_address(b: Seq<u8>, n: int) -> u32 {
    word(b, SLOTS + n)
}

pub open spec fn slot_size(b: Seq<u8>, n: int) -> u32 {
    word(b, 2 * SLOTS + n)
}

pub open spec fn bss_address(b: Seq<u8>) -> u32 {
    word(b, 3 * SLOTS)
}

pub open spec fn bss_size(b: Seq<u8>) -> u32 {
    word(b, 3 * SLOTS + 1)
}

/// The segment that section `n` of the header declares.
pub open spec fn slot_segment(b: Seq<u8>, n: int) -> Segment<u32> {
    Segment {
        address: slot_address(b, n),
        size: slot_size(b, n),
        offset: slot_offset(b, n),
        permissions: if n < CODE_SLOTS {
            code_permissions()
        } else {
            data_permissions()
        },
    }
}

/// The segments declared by the first `n` sections, skipping empty ones, in header order.
pub open spec fn declared_upto(b: Seq<u8>, n: int) -> Seq<Segment<u32>>
    decreases n,
{
    if n <= 0 {
        Seq::empty()
    } else if slot_size(b, n - 1) > 0 {
        declared_upto(b, n - 1).push(slot_segment(b, n - 1))
    } else {
        declared_upto(b, n - 1)
    }
}

/// The segments declared by the code and data sections of the header.
pub open spec fn declared(b: Seq<u8>) -> Seq<Segment<u32>> {
    declared_upto(b, SLOTS as int)
}

/// A boundary of the sweep: an address and the net change there of the number of
/// segments that cover it (a start counts 1, an end -1).
pub type Point = (u32, i32);

/// Boundaries in strictly ascending address order, one per address.
pub open spec fn increasing(s: Seq<Point>) -> bool {
    forall|i: int, j: int| 0 <= i < j < s.len() ==> s[i].0 < s[j].0
}

pub open spec fn has_address(s: Seq<Point>, a: u32) -> bool {
    exists|k: int| 0 <= k < s.len() && s[k].0 == a
}

/// `a + b`, or the largest `u32` where the sum does not fit.
pub open spec fn sat_add(a: u32, b: u32) -> u32 {
    if a + b > u32::MAX {
        u32::MAX
    } else {
        (a + b) as u32
    }
}

pub open spec fn segment_end(s: Segment<u32>) -> u32 {
    sat_add(s.address, s.size)
}

/// Whether `s` holds address `x`.
pub open spec fn covers(s: Segment<u32>, x: u32) -> bool {
    s.address <= x && x < segment_end(s)
}

/// Whether one of `segs` holds address `x`.
pub open spec fn covered(segs: Seq<Segment<u32>>, x: u32) -> bool {
    exists|i: int| 0 <= i < segs.len() && covers(segs[i], x)
}

/// How many of the first `m` segments hold address `x`.
pub open spec fn count_covering(segs: Seq<Segment<u32>>, x: u32, m: int) -> int
    decreases m,
{
    if m <= 0 {
        0
    } else {
        count_covering(segs, x, m - 1) + if covers(segs[m - 1], x) {
            1int
        } else {
            0int
        }
    }
}

/// The sum of the first `n` changes of coverage.
pub open spec fn coverage(pts: Seq<Point>, n: int) -> int
    decreases n,
{
    if n <= 0 {
        0
    } else {
        coverage(pts, n - 1) + pts[n - 1].1
    }
}

/// Zero-initialized, non-empty segments within `[ba, be)`, in ascending order,
/// each separated from the next by at least one address.
pub open spec fn gap_shape(g: Seq<Segment<u32>>, ba: u32, be: u32) -> bool {
    &&& forall|k: int|
        0 <= k < g.len() ==> {
            &&& #[trigger] g[k].size > 0
            &&& g[k].offset == 0
            &&& g[k].permissions == bss_permissions()
            &&& ba <= g[k].address
            &&& g[k].address + g[k].size <= be
        }
    &&& forall|k: int|
        0 <= k < g.len() - 1 ==> #[trigger] g[k].address + g[k].size < g[k + 1].address
}

/// `g` is what the BSS range `[ba, ba + bs)` adds to the segments `segs`: nothing
/// when it is empty, else one segment for each maximal run of the range that no
/// segment of `segs` holds.
pub open spec fn bss_gaps(segs: Seq<Segment<u32>>, ba: u32, bs: u32, g: Seq<Segment<u32>>) -> bool {
    if bs == 0 {
        g == Seq::<Segment<u32>>::empty()
    } else {
        &&& gap_shape(g, ba, sat_add(ba, bs))
        &&& forall|x: u32|
            ba <= x < sat_add(ba, bs) ==> (#[trigger] covered(g, x) <==> !covered(segs, x))
    }
}

pub open spec fn sorted_by_address(s: Seq<Segment<u32>>) -> bool {
    forall|i: int, j: int| 0 <= i < j < s.len() ==> s[i].address <= s[j].address
}

/// `v` is the outcome of extracting the segments of the header `b`: the declared
/// segments and the BSS gaps, ordered by address.
pub open spec fn extraction(b: Seq<u8>, v: Seq<Segment<u32>>) -> bool {
    &&& sorted_by_address(v)
    &&& exists|g: Seq<Segment<u32>>|
        bss_gaps(declared(b), bss_address(b), bss_size(b), g) && #[trigger] v.to_multiset() == (
        declared(b) + g).to_multiset()
}

/// Adds `d` to the change of coverage at address `a`, making a boundary there if
/// there is none.
fn add_delta(v: &mut Vec<Point>, a: u32, d: i32, Ghost(lim): Ghost<int>)
    requires
        increasing(old(v)@),
        0 <= lim < 1000,
        -1 <= d <= 1,
        forall|k: int| 0 <= k < old(v)@.len() ==> -lim <= #[trigger] old(v)@[k].1 <= lim,
    ensures
        increasing(final(v)@),
        forall|k: int| 0 <= k < final(v)@.len() ==> -lim - 1 <= #[trigger] final(v)@[k].1 <= lim + 1,
        forall|y: u32|
            #[trigger] sum_le(final(v)@, y) == sum_le(old(v)@, y) + if a <= y {
                d as int
            } else {
                0
            },
        final(v)@.len() <= old(v)@.len() + 1,
        has_address(final(v)@, a),
        forall|b: u32| has_address(old(v)@, b) ==> has_address(final(v)@, b),
{
    let mut i: usize = 0;
    while i < v.len() && v[i].0 < a
        invariant
            increasing(v@),
            i <= v@.len(),
            forall|j: int| 0 <= j < i ==> v@[j].0 < a,
        decreases v.len() - i,
    {
        i = i + 1;
    }
    let ghost s = v@;
    if i < v.len() && v[i].0 == a {
        let e = v[i];
        v.set(i, (a, e.1 + d));
        proof {
            assert forall|y: u32| #[trigger] sum_le(v@, y) == sum_le(s, y) + if a <= y {
                d as int
            } else {
                0
            } by {
                lemma_update_sum(s, i as int, (a, (e.1 + d) as i32), y);
            }
            assert(v@[i as int].0 == a);
            assert forall|b: u32| has_address(s, b) implies has_address(v@, b) by {
                let k = choose|k: int| 0 <= k < s.len() && s[k].0 == b;
                assert(v@[k].0 == b);
            }
        }
    } else {
        v.insert(i, (a, d));
        proof {
            assert forall|y: u32| #[trigger] sum_le(v@, y) == sum_le(s, y) + if a <= y {
                d as int
            } else {
                0
            } by {
                lemma_insert_sum(s, i as int, (a, d), y);
            }
            assert(v@[i as int].0 == a);
            assert forall|b: u32| has_address(s, b) implies has_address(v@, b) by {
                let k = choose|k: int| 0 <= k < s.len() && s[k].0 == b;
                if k < i {
                    assert(v@[k].0 == b);
                } else {
                    assert(v@[k + 1].0 == b);
                }
            }
            assert forall|x: int, y: int| 0 <= x < y < v@.len() implies v@[x].0 < v@[y].0 by {
                if x < i && y > i {
                    assert(v@[y] == s[y - 1]);
                    assert(s[i as int].0 > a);
                    if y - 1 > i {
                        assert(s[i as int].0 < s[y - 1].0);
                    }
                } else if x == i {
                    assert(v@[y] == s[y - 1]);
                    if y - 1 > i {
                        assert(s[i as int].0 < s[y - 1].0);
                    }
                } else if x > i {
                    assert(v@[x] == s[x - 1] && v@[y] == s[y - 1]);
                }
            }
        }
    }
}

/// The segments of `v` ordered by address; equal addresses keep their order.
fn sort_by_address(v: Vec<Segment<u32>>) -> (r: Vec<Segment<u32>>)
    ensures
        sorted_by_address(r@),
        r@.to_multiset() == v@.to_multiset(),
{
    let mut out: Vec<Segment<u32>> = Vec::new();
    let mut i: usize = 0;
    proof {
        assert(v@.take(0) =~= out@);
    }
    while i < v.len()
        invariant
            i <= v@.len(),
            sorted_by_address(out@),
            out@.to_multiset() == v@.take(i as int).to_multiset(),
        decreases v.len() - i,
    {
        let x = v[i];
        let mut pos: usize = 0;
        while pos < out.len() && out[pos].address <= x.address
            invariant
                pos <= out@.len(),
                sorted_by_address(out@),
                forall|j: int| 0 <= j < pos ==> out@[j].address <= x.address,
            decreases out.len() - pos,
        {
            pos = pos + 1;
        }
        let ghost before = out@;
        out.insert(pos, x);
        proof {
            assert forall|a: int, b: int| 0 <= a < b < out@.len() implies out@[a].address
                <= out@[b].address by {
                if a < pos && b < pos {
                    assert(out@[a] == before[a] && out@[b] == before[b]);
                } else if a < pos && b == pos {
                    assert(out@[a] == before[a]);
                } else if a < pos {
                    assert(out@[a] == before[a] && out@[b] == before[b - 1]);
                } else if a == pos {
                    assert(out@[b] == before[b - 1]);
                    assert(before[pos as int].address > x.address);
                } else {
                    assert(out@[a] == before[a - 1] && out@[b] == before[b - 1]);
                }
            }
            vstd::seq_lib::to_multiset_insert(before, pos as int, x);
            assert(v@.take(i + 1) == v@.take(i as int).push(x));
            vstd::seq_lib::to_multiset_build(v@.take(i as int), x);
        }
        i = i + 1;
    }
    proof {
        assert(v@.take(v@.len() as int) == v@);
    }
    out
}

/// Extracts the memory segments of a DOL executable from its header: a segment
/// for each non-empty code and data section, and one for each part of the BSS
/// range that none of those covers, ordered by address.
pub struct DolBinary;

impl DolBinary {
    /// Fails exactly when `data` is too short to hold the 56 header words.
    pub fn segments(data: &[u8]) -> (r: Result<Vec<Segment<u32>>, FerroxError>)
        ensures
            r.is_ok() <==> data@.len() >= HEADER_LEN,
            r matches Ok(v) ==> extraction(data@, v@),
    {
        let offsets = match read_words(data, 0, SLOTS) {
            Ok(w) => w,
            Err(e) => {
                return Err(FerroxError::from(e));
            },
        };
        let addresses = match read_words(data, SLOTS, SLOTS) {
            Ok(w) => w,
            Err(e) => {
                return Err(FerroxError::from(e));
            },
        };
        let sizes = match read_words(data, 2 * SLOTS, SLOTS) {
            Ok(w) => w,
            Err(e) => {
                return Err(FerroxError::from(e));
            },
        };
        let mut segments: Vec<Segment<u32>> = Vec::new();
        let mut n: usize = 0;
        while n < SLOTS
            invariant
                n <= SLOTS,
                offsets@.len() == SLOTS && addresses@.len() == SLOTS && sizes@.len() == SLOTS,
                forall|j: int|
                    0 <= j < SLOTS ==> offsets@[j] == slot_offset(data@, j) && addresses@[j]
                        == slot_address(data@, j) && sizes@[j] == slot_size(data@, j),
                segments@ == declared_upto(data@, n as int),
                segments@.len() <= n,
            decreases SLOTS - n,
        {
            if sizes[n] > 0 {
                let permissions = if n < CODE_SLOTS {
                    Permissions::code()
                } else {
                    Permissions::data()
                };
                segments.push(
                    Segment { address: addresses[n], size: sizes[n], offset: offsets[n], permissions },
                );
            }
            n = n + 1;
        }
        let bss = match read_words(data, 3 * SLOTS, 2) {
            Ok(w) => w,
            Err(e) => {
                return Err(FerroxError::from(e));
            },
        };
        let ghost decl = segments@;
        Self::calculate_unique_bss(&mut segments, bss[0], bss[1]);
        let ghost all = segments@;
        let sorted = sort_by_address(segments);
        proof {
            let g = all.skip(decl.len() as int);
            assert(all == decl + g);
            assert(bss_gaps(declared(data@), bss_address(data@), bss_size(data@), g));
        }
        Ok(sorted)
    }

    /// Appends to `segments` one zero-initialized segment for each maximal run of
    /// the BSS range `[bss_address, bss_address + bss_size)` that none of them
    /// covers, found by a sweep over the addresses where coverage changes.
    fn calculate_unique_bss(segments: &mut Vec<Segment<u32>>, bss_address: u32, bss_size: u32)
        requires
            old(segments)@.len() <= SLOTS,
        ensures
            final(segments)@.len() >= old(segments)@.len(),
            final(segments)@.take(old(segments)@.len() as int) == old(segments)@,
            bss_gaps(
                old(segments)@,
                bss_address,
                bss_size,
                final(segments)@.skip(old(segments)@.len() as int),
            ),
    {
        let ghost start = segments@;
        let ghost m = start.len() as int;
        if bss_size == 0 {
            proof {
                assert(segments@.skip(start.len() as int) =~= Seq::<Segment<u32>>::empty());
                assert(segments@.take(start.len() as int) =~= start);
            }
            return;
        }
        let bss_end = bss_address.saturating_add(bss_size);
        let mut transitions: Vec<Point> = Vec::new();
        let mut i: usize = 0;
        while i < segments.len()
            invariant
                segments@ == start,
                m == start.len(),
                m <= SLOTS,
                i <= m,
                increasing(transitions@),
                transitions@.len() <= 2 * i,
                forall|k: int|
                    0 <= k < transitions@.len() ==> -2 * i <= #[trigger] transitions@[k].1 <= 2 * i,
                forall|y: u32| #[trigger]
                    sum_le(transitions@, y) == count_covering(start, y, i as int),
            decreases m - i,
        {
            let seg = segments[i];
            let seg_end = seg.address.saturating_add(seg.size);
            let ghost t0 = transitions@;
            add_delta(&mut transitions, seg.address, 1, Ghost(2 * i as int));
            let ghost t1 = transitions@;
            add_delta(&mut transitions, seg_end, -1, Ghost(2 * i + 1));
            proof {
                assert forall|y: u32| #[trigger]
                    sum_le(transitions@, y) == count_covering(start, y, i + 1) by {
                    assert(sum_le(t1, y) == sum_le(t0, y) + if seg.address <= y { 1int } else { 0int });
                    assert(segment_end(start[i as int]) >= start[i as int].address);
                }
            }
            i = i + 1;
        }
        add_delta(&mut transitions, bss_address, 0, Ghost(2 * m));
        add_delta(&mut transitions, bss_end, 0, Ghost(2 * m + 1));
        let ghost pts = transitions@;
        let ghost be = sat_add(bss_address, bss_size);
        proof {
            assert(bss_end == be);
            assert forall|y: u32| #[trigger] sum_le(pts, y) == count_covering(start, y, m) by {}
        }
        let ghost ia = choose|k: int| 0 <= k < pts.len() && pts[k].0 == bss_address;
        let ghost ie = choose|k: int| 0 <= k < pts.len() && pts[k].0 == bss_end;
        let mut gaps: Vec<Segment<u32>> = Vec::new();
        let mut in_existing: i64 = 0;
        let mut k: usize = 0;
        while k < transitions.len()
            invariant
                transitions@ == pts,
                increasing(pts),
                pts.len() <= 2 * SLOTS + 2,
                forall|j: int| 0 <= j < pts.len() ==> -40 <= #[trigger] pts[j].1 <= 40,
                forall|y: u32| #[trigger] sum_le(pts, y) == count_covering(start, y, m),
                0 <= ia < pts.len() && pts[ia].0 == bss_address,
                0 <= ie < pts.len() && pts[ie].0 == bss_end,
                bss_end == be,
                k <= pts.len(),
                -40 * k <= in_existing <= 40 * k,
                in_existing == coverage(pts, k as int),
                gap_shape(gaps@, bss_address, bss_end),
                k == 0 ==> gaps@.len() == 0,
                k > 0 ==> forall|j: int|
                    0 <= j < gaps@.len() ==> #[trigger] gaps@[j].address + gaps@[j].size <= pts[k
                        - 1].0,
                k > 0 ==> forall|x: u32|
                    bss_address <= x < bss_end && x < pts[k - 1].0 ==> (#[trigger] covered(
                        gaps@,
                        x,
                    ) <==> count_covering(start, x, m) == 0),
            decreases pts.len() - k,
        {
            let ghost g0 = gaps@;
            if k > 0 {
                let prev = transitions[k - 1].0;
                let cur = transitions[k].0;
                proof {
                    assert(prev < cur);
                    lemma_stretch(pts, k as int);
                }
                if in_existing == 0 && prev >= bss_address && cur <= bss_end {
                    let n = gaps.len();
                    if n > 0 && gaps[n - 1].address + gaps[n - 1].size == prev {
                        let last = gaps.pop().unwrap();
                        gaps.push(
                            Segment {
                                address: last.address,
                                size: cur - last.address,
                                offset: 0,
                                permissions: Permissions::bss(),
                            },
                        );
                        proof {
                            let g1 = gaps@;
                            let d = g0.drop_last();
                            assert(g0 == d.push(last));
                            assert(g1 == d.push(g1.last()));
                            assert forall|x: u32|
                                bss_address <= x < bss_end && x < cur implies (#[trigger] covered(
                                    g1,
                                    x,
                                ) <==> count_covering(start, x, m) == 0) by {
                                lemma_push_covered(d, last, x);
                                lemma_push_covered(d, g1.last(), x);
                                if x >= prev {
                                    assert(count_covering(start, x, m) == sum_le(pts, x));
                                }
                            }
                        }
                    } else {
                        gaps.push(
                            Segment {
                                address: prev,
                                size: cur - prev,
                                offset: 0,
                                permissions: Permissions::bss(),
                            },
                        );
                        proof {
                            let g1 = gaps@;
                            assert(g1 == g0.push(g1.last()));
                            assert forall|x: u32|
                                bss_address <= x < bss_end && x < cur implies (#[trigger] covered(
                                    g1,
                                    x,
                                ) <==> count_covering(start, x, m) == 0) by {
                                lemma_push_covered(g0, g1.last(), x);
                                if x >= prev {
                                    assert(count_covering(start, x, m) == sum_le(pts, x));
                                }
                            }
                        }
                    }
                } else {
                    proof {
                        assert forall|x: u32|
                            bss_address <= x < bss_end && x < cur implies (#[trigger] covered(
                                gaps@,
                                x,
                            ) <==> count_covering(start, x, m) == 0) by {
                            if x >= prev {
                                assert(count_covering(start, x, m) == sum_le(pts, x));
                                if covered(gaps@, x) {
                                    let j = choose|j: int| 0 <= j < gaps@.len() && covers(gaps@[j], x);
                                    assert(gaps@[j].address + gaps@[j].size <= prev);
                                }
                                if prev < bss_address {
                                    if ia < k {
                                        assert(pts[ia].0 <= pts[k - 1].0);
                                    }
                                    assert(cur <= bss_address);
                                }
                                if cur > bss_end {
                                    if ie >= k {
                                        assert(pts[k as int].0 <= pts[ie].0);
                                    }
                                    assert(bss_end <= prev);
                                }
                            }
                        }
                    }
                }
            } else {
                proof {
                    assert forall|x: u32|
                        bss_address <= x < bss_end && x < pts[0].0 implies (#[trigger] covered(
                            gaps@,
                            x,
                        ) <==> count_covering(start, x, m) == 0) by {
                        if ia > 0 {
                            assert(pts[0].0 < pts[ia].0);
                        }
                    }
                }
            }
            in_existing = in_existing + transitions[k].1 as i64;
            k = k + 1;
        }
        proof {
            assert(pts[ie].0 <= pts[pts.len() - 1].0) by {
                if ie < pts.len() - 1 {
                    assert(pts[ie].0 < pts[pts.len() - 1].0);
                }
            }
            assert forall|x: u32|
                bss_address <= x < bss_end implies (#[trigger] covered(gaps@, x)
                    <==> !covered(start, x)) by {
                if covered(start, x) {
                    let j = choose|j: int| 0 <= j < m && covers(start[j], x);
                    lemma_count_positive(start, x, m, j);
                } else {
                    lemma_count_zero(start, x, m);
                }
            }
        }
        let ghost g = gaps@;
        segments.append(&mut gaps);
        proof {
            assert(segments@.take(m) =~= start);
            assert(segments@.skip(m) =~= g);
        }
    }
}

/// Relies on orthrus-core's `DataCursorRef` in big-endian mode: `set_position`
/// moves to `pos` (clamped to the length), and `read_u32` reads the four bytes
/// there most significant first, failing when fewer than four are left.
#[verifier::external_body]
fn read_be_u32(data: &[u8], pos: usize) -> (r: Result<u32, DataError>)
    ensures
        r.is_ok() == (pos + 4 <= data@.len()),
        r matches Ok(w) ==> w == be_u32(data@, pos as int),
{
    let mut cursor = DataCursorRef::new(data, Endian::Big);
    cursor.set_position(pos as u64)?;
    cursor.read_u32()
}

/// Reads the `count` header words from word `first` on.
fn read_words(data: &[u8], first: usize, count: usize) -> (r: Result<Vec<u32>, DataError>)
    requires
        0 < count,
        4 * (first + count) <= HEADER_LEN,
    ensures
        r.is_ok() <==> 4 * (first + count) <= data@.len(),
        r matches Ok(v) ==> v@.len() == count && forall|j: int|
            0 <= j < count ==> v@[j] == word(data@, first + j),
{
    let mut v: Vec<u32> = Vec::new();
    let mut j: usize = 0;
    while j < count
        invariant
            0 < count,
            4 * (first + count) <= HEADER_LEN,
            j <= count,
            j > 0 ==> 4 * (first + j) <= data@.len(),
            v@.len() == j,
            forall|i: int| 0 <= i < j ==> v@[i] == word(data@, first + i),
        decreases count - j,
    {
        let w = read_be_u32(data, 4 * (first + j))?;
        v.push(w);
        j = j + 1;
    }
    Ok(v)
}

/// Every extraction is ordered by address.
pub proof fn lemma_extraction_sorted(b: Seq<u8>, v: Seq<Segment<u32>>)
    requires
        extraction(b, v),
    ensures
        forall|i: int, j: int| 0 <= i < j < v.len() ==> v[i].address <= v[j].address,
{
}

/// An empty BSS range adds no segment: the extraction holds the declared
/// segments alone, whatever the other fields hold.
pub proof fn lemma_empty_bss_adds_nothing(b: Seq<u8>, v: Seq<Segment<u32>>)
    requires
        bss_size(b) == 0,
        extraction(b, v),
    ensures
        v.to_multiset() == declared(b).to_multiset(),
{
    let g = choose|g: Seq<Segment<u32>>|
        bss_gaps(declared(b), bss_address(b), bss_size(b), g) && #[trigger] v.to_multiset() == (
        declared(b) + g).to_multiset();
    assert(declared(b) + g =~= declared(b));
}

/// A header whose sections and BSS range are all empty gives no segments.
pub proof fn lemma_empty_header(b: Seq<u8>, v: Seq<Segment<u32>>)
    requires
        b.len() >= HEADER_LEN,
        forall|n: int| 0 <= n < SLOTS ==> slot_size(b, n) == 0,
        bss_size(b) == 0,
        extraction(b, v),
    ensures
        v.len() == 0,
{
    lemma_empty_bss_adds_nothing(b, v);
    lemma_declared_upto_empty(b, SLOTS as int);
    vstd::seq_lib::to_multiset_len(v);
    vstd::seq_lib::to_multiset_len(declared(b));
}

/// The zero-initialized segments of an extraction, together with the declared
/// segments, make up the BSS range: an address of the range lies in a
/// zero-initialized segment exactly when no declared section holds it.
pub proof fn lemma_extraction_bss_coverage(b: Seq<u8>, v: Seq<Segment<u32>>, x: u32)
    requires
        extraction(b, v),
        bss_size(b) > 0,
        bss_address(b) <= x < sat_add(bss_address(b), bss_size(b)),
    ensures
        (exists|i: int| 0 <= i < v.len() && v[i].permissions.uninitialized && covers(v[i], x))
            <==> !covered(declared(b), x),
{
    let d = declared(b);
    let g = choose|g: Seq<Segment<u32>>|
        bss_gaps(d, bss_address(b), bss_size(b), g) && #[trigger] v.to_multiset() == (d
            + g).to_multiset();
    lemma_declared_initialized(b, SLOTS as int);
    assert(covered(g, x) <==> !covered(d, x));
    if exists|i: int| 0 <= i < v.len() && v[i].permissions.uninitialized && covers(v[i], x) {
        let i = choose|i: int| 0 <= i < v.len() && v[i].permissions.uninitialized && covers(v[i], x);
        vstd::seq_lib::to_multiset_contains(v, v[i]);
        vstd::seq_lib::to_multiset_contains(d + g, v[i]);
        assert(v.contains(v[i]));
        let j = choose|j: int| 0 <= j < (d + g).len() && (d + g)[j] == v[i];
        assert(j >= d.len());
        assert(g[j - d.len()] == v[i]);
        assert(covered(g, x));
    }
    if covered(g, x) {
        let k = choose|k: int| 0 <= k < g.len() && covers(g[k], x);
        assert((d + g)[d.len() + k] == g[k]);
        assert((d + g).contains(g[k]));
        vstd::seq_lib::to_multiset_contains(v, g[k]);
        vstd::seq_lib::to_multiset_contains(d + g, g[k]);
        let i = choose|i: int| 0 <= i < v.len() && v[i] == g[k];
        assert(v[i].permissions.uninitialized && covers(v[i], x));
    }
}

proof fn lemma_declared_initialized(b: Seq<u8>, n: int)
    ensures
        forall|i: int|
            0 <= i < declared_upto(b, n).len() ==> !(#[trigger] declared_upto(
                b,
                n,
            )[i]).permissions.uninitialized,
    decreases n,
{
    if n > 0 {
        lemma_declared_initialized(b, n - 1);
        let d = declared_upto(b, n - 1);
        assert forall|i: int| 0 <= i < declared_upto(b, n).len() implies !(#[trigger] declared_upto(
            b,
            n,
        )[i]).permissions.uninitialized by {
            if i < d.len() {
                assert(declared_upto(b, n)[i] == d[i]);
            }
        }
    }
}

proof fn lemma_declared_upto_empty(b: Seq<u8>, n: int)
    requires
        n <= SLOTS,
        forall|k: int| 0 <= k < SLOTS ==> slot_size(b, k) == 0,
    ensures
        declared_upto(b, n).len() == 0,
    decreases n,
{
    if n > 0 {
        lemma_declared_upto_empty(b, n - 1);
    }
}

} // verus!
