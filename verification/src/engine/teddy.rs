//! The fingerprint engine: candidates are the places where the first bytes
//! of an anchor occur, found by comparing many positions in one step.

use crate::engine::anchor::{
    buildable, lemma_grouped_records, search_key_list, search_keys, Anchor,
};
use crate::engine::common::{CompiledPattern, PatternInfo};
use crate::engine::grouping::{byte_strings, group_patterns, is_grouping, Grouping};
use crate::engine::laws::{
    complete, law_complete, law_sound, law_walk, lemma_fingerprint_engine, reports_exactly,
    scannable, sound, walks_exactly,
};
use crate::engine::matching::{
    bucket_piece, bucket_span, fingerprint, group_at, occurs_at, position_piece,
    position_prefix, strided_piece, strided_prefix, walk_piece, walk_span, well_formed,
};
use crate::engine::sequence::{
    concat_range, lemma_concat_empty, lemma_concat_prefix, lemma_concat_shift, lemma_concat_split,
    lemma_concat_step,
};
use crate::engine::table::{compile_all, compile_patterns, ids_of, sources, stores, PatternTable};
use crate::engine::{
    delivered, lemma_delivered_step, pattern_failure, scanned, sink_ready, EngineError,
    MatchedPattern, Scan,
};
use vstd::prelude::*;
use vstd::std_specs::bits::{axiom_u32_trailing_zeros, u32_trailing_zeros};

verus! {

/// Whether lane `k` is set in a lane mask.
pub open spec fn lane_set(mask: u32, k: u32) -> bool {
    k < 32 && (mask >> k) & 1u32 == 1u32
}

/// Setting lane `k` sets that lane and changes no other.
proof fn lemma_set_lane(mask: u32, k: u32, j: u32)
    requires
        k < 32,
        j < 32,
    ensures
        lane_set(mask | (1u32 << k), j) == (lane_set(mask, j) || j == k),
{
    assert(((mask | (1u32 << k)) >> j) & 1u32 == 1u32 <==> ((mask >> j) & 1u32 == 1u32 || j == k))
        by (bit_vector)
        requires
            k < 32,
            j < 32,
    ;
}

/// No lane is set in the empty mask.
proof fn lemma_no_lane(j: u32)
    ensures
        !lane_set(0u32, j),
{
    assert((0u32 >> j) & 1u32 == 0u32) by (bit_vector);
}

/// Clearing the lowest set lane `k` of `bits`, as `bits & (bits - 1)` does,
/// clears that lane and changes no other.
proof fn lemma_clear_lowest(bits: u32, j: u32)
    requires
        bits != 0,
        j < 32,
    ensures
        lane_set((bits & ((bits - 1) as u32)), j) == (lane_set(bits, j) && j != u32_trailing_zeros(
            bits,
        )),
{
    axiom_u32_trailing_zeros(bits);
    let k = u32_trailing_zeros(bits);
    let low = (32 - k) as u32;
    assert(bits << low == 0);
    assert(((bits & ((bits - 1) as u32)) >> j) & 1u32 == 1u32 <==> ((bits >> j) & 1u32 == 1u32 && j
        != k)) by (bit_vector)
        requires
            bits != 0,
            k < 32,
            j < 32,
            low == 32 - k,
            (bits >> k) & 1u32 == 1u32,
            bits << low == 0,
    ;
}

/// How many positions the engine compares in one step.
#[derive(Clone, Copy, Debug, PartialEq, Eq, Structural)]
pub enum VectorWidth {
    /// Sixteen positions: a 128-bit vector of bytes.
    Lanes16,
    /// Thirty-two positions: a 256-bit vector of bytes.
    Lanes32,
}

impl VectorWidth {
    /// The number of lanes.
    pub open spec fn count(self) -> int {
        match self {
            VectorWidth::Lanes16 => 16,
            VectorWidth::Lanes32 => 32,
        }
    }

    /// The number of lanes.
    pub fn lanes(self) -> (n: usize)
        ensures
            n == self.count(),
    {
        match self {
            VectorWidth::Lanes16 => 16,
            VectorWidth::Lanes32 => 32,
        }
    }
}

/// The fingerprint of each pattern, by identifier.
pub open spec fn fingerprints_of(patterns: Seq<CompiledPattern>) -> Seq<Seq<u8>> {
    Seq::new(patterns.len(), |i: int| fingerprint(patterns[i]))
}

/// The first position that the strided phase leaves to the walk: the phase
/// takes steps of `lanes` positions while a step and two bytes more fit.
pub open spec fn vector_limit(n: int, lanes: int) -> int {
    let safe_limit = n - (lanes + 2);
    safe_limit - safe_limit % lanes + lanes
}

/// Whether `x` is a multiple of the stride, which is 16 or 32.
pub open spec fn stride_aligned(x: int, lanes: int) -> bool {
    (lanes == 16 && x % 16 == 0) || (lanes == 32 && x % 32 == 0)
}

/// What the fingerprint engine reports on a buffer of at least `lanes + 2`
/// bytes, in order: first bucket after bucket over the positions of the
/// strided phase, then position after position over the rest.
pub open spec fn fingerprint_order(
    patterns: Seq<CompiledPattern>,
    keys: Seq<Seq<u8>>,
    members: Seq<Seq<int>>,
    lanes: int,
    data: Seq<u8>,
) -> Seq<MatchedPattern> {
    let limit = vector_limit(data.len() as int, lanes);
    strided_prefix(patterns, keys, members, data, limit, keys.len() as int) + walk_span(
        patterns,
        keys,
        members,
        data,
        limit,
        data.len() as int,
    )
}

/// What the verifier yields at each lane of a step that begins at `base`: at
/// a lane that is set in `mask`, what the candidate list yields at the lane's
/// position.
pub open spec fn lane_piece(
    patterns: Seq<CompiledPattern>,
    ids: Seq<int>,
    data: Seq<u8>,
    base: int,
    mask: u32,
) -> spec_fn(int) -> Seq<MatchedPattern> {
    |k: int|
        if 0 <= k < 32 && lane_set(mask, k as u32) {
            group_at(patterns, ids, data, base + k)
        } else {
            Seq::empty()
        }
}

/// What the verifier yields at the first `n` lanes of a step, in ascending
/// order of the lanes.
pub open spec fn lanes_span(
    patterns: Seq<CompiledPattern>,
    ids: Seq<int>,
    data: Seq<u8>,
    base: int,
    mask: u32,
    n: int,
) -> Seq<MatchedPattern> {
    concat_range(0, n, lane_piece(patterns, ids, data, base, mask))
}

/// With the lane mask of a bucket's fingerprint, the lanes of a step yield
/// what the bucket yields at the step's positions.
pub proof fn lemma_lanes_are_positions(
    patterns: Seq<CompiledPattern>,
    key: Seq<u8>,
    ids: Seq<int>,
    data: Seq<u8>,
    base: int,
    mask: u32,
    lanes: int,
)
    requires
        0 <= lanes <= 32,
        is_lane_mask(mask, data, base, key, lanes),
    ensures
        lanes_span(patterns, ids, data, base, mask, 32) == bucket_span(
            patterns,
            key,
            ids,
            data,
            base,
            base + lanes,
        ),
{
    let by_lane = lane_piece(patterns, ids, data, base, mask);
    let by_pos = bucket_piece(patterns, key, ids, data);
    lemma_concat_split(0, lanes, 32, by_lane);
    assert forall|k: int| lanes <= k < 32 implies (#[trigger] by_lane(k)).len() == 0 by {
        assert(!lane_set(mask, k as u32));
    }
    lemma_concat_empty(lanes, 32, by_lane);
    assert(concat_range(0, lanes, by_lane) + Seq::<MatchedPattern>::empty() =~= concat_range(
        0,
        lanes,
        by_lane,
    ));
    assert forall|k: int| 0 <= k < lanes implies #[trigger] by_lane(k) == by_pos(k + base) by {
        assert(lane_set(mask, k as u32) <==> occurs_at(key, data, base + k as u32));
    }
    lemma_concat_shift(0, lanes, by_lane, base, by_pos);
}

/// Whether the bytes of `key` stand in `data` from `pos` on, where they fit.
fn bytes_at(data: &[u8], pos: usize, key: &Vec<u8>) -> (r: bool)
    requires
        pos + key.len() <= data.len(),
    ensures
        r == occurs_at(key@, data@, pos as int),
{
    let mut t: usize = 0;
    while t < key.len()
        invariant
            t <= key.len(),
            pos + key.len() <= data.len(),
            forall|j: int| 0 <= j < t ==> data@[pos + j] == key@[j],
        decreases key.len() - t,
    {
        if data[pos + t] != key[t] {
            return false;
        }
        t += 1;
    }
    true
}

/// Whether the bytes of `key` stand in `data` from `pos` on.
fn fingerprint_at(data: &[u8], pos: usize, key: &Vec<u8>) -> (r: bool)
    ensures
        r == occurs_at(key@, data@, pos as int),
{
    if pos > data.len() || key.len() > data.len() - pos {
        false
    } else {
        bytes_at(data, pos, key)
    }
}

/// Whether `mask` is the lane mask of `key` for the step that begins at
/// `base`: lane `k` is set exactly when the bytes of the key stand at
/// `base + k`.
pub open spec fn is_lane_mask(mask: u32, data: Seq<u8>, base: int, key: Seq<u8>, lanes: int) -> bool {
    forall|k: u32| #[trigger] lane_set(mask, k) <==> k < lanes && occurs_at(key, data, base + k)
}

/// Whether `compare` can be called wherever `lane_mask` can, and then
/// returns a lane mask as `lane_mask` does.
pub open spec fn compares_lanes<M: Fn(&[u8], usize, &Vec<u8>, usize) -> u32>(compare: M) -> bool {
    &&& forall|data: &[u8], base: usize, key: &Vec<u8>, lanes: usize|
        lanes <= 32 && key.len() <= 3 && base + lanes + 2 <= data.len() ==> #[trigger] call_requires(
            compare,
            (data, base, key, lanes),
        )
    &&& forall|data: &[u8], base: usize, key: &Vec<u8>, lanes: usize, mask: u32|
        lanes <= 32 && key.len() <= 3 && base + lanes + 2 <= data.len() && #[trigger] call_ensures(
            compare,
            (data, base, key, lanes),
            mask,
        ) ==> is_lane_mask(mask, data@, base as int, key@, lanes as int)
}

/// Compares the fingerprint `key` with the buffer at the `lanes` positions
/// from `base` on. Lane `k` of the result is set exactly when the bytes of
/// the key stand at `base + k`.
pub fn lane_mask(data: &[u8], base: usize, key: &Vec<u8>, lanes: usize) -> (mask: u32)
    requires
        lanes <= 32,
        key.len() <= 3,
        base + lanes + 2 <= data.len(),
    ensures
        is_lane_mask(mask, data@, base as int, key@, lanes as int),
{
    let mut mask: u32 = 0;
    let mut k: u32 = 0;
    proof {
        assert forall|j: u32| !#[trigger] lane_set(mask, j) by {
            lemma_no_lane(j);
        }
    }
    while (k as usize) < lanes
        invariant
            k <= lanes <= 32,
            key.len() <= 3,
            base + lanes + 2 <= data.len(),
            forall|j: u32| #[trigger]
                lane_set(mask, j) <==> j < k && occurs_at(key@, data@, base + j),
        decreases lanes - k,
    {
        if bytes_at(data, base + k as usize, key) {
            let ghost before = mask;
            mask = mask | (1u32 << k);
            proof {
                assert forall|j: u32| #[trigger]
                    lane_set(mask, j) <==> j < k + 1 && occurs_at(key@, data@, base + j) by {
                    if j < 32 {
                        lemma_set_lane(before, k, j);
                    }
                }
            }
        }
        k += 1;
    }
    mask
}

/// The engine that finds candidates by comparing the fingerprints of the
/// patterns with the buffer, `lanes` positions at a time, and that hands
/// buffers too short for one such step to the automaton engine.
pub struct Teddy {
    lanes: usize,
    buckets: Grouping,
    fallback: Anchor,
}

impl Teddy {
    #[verifier::type_invariant]
    spec fn inv(self) -> bool {
        &&& self.lanes == 16 || self.lanes == 32
        &&& self.fallback.patterns().len() <= usize::MAX
        &&& forall|i: int|
            0 <= i < self.fallback.patterns().len() ==> well_formed(
                #[trigger] self.fallback.patterns()[i],
            )
        &&& is_grouping(
            fingerprints_of(self.fallback.patterns()),
            self.buckets.key_bytes(),
            self.buckets.ids(),
        )
        &&& forall|b: int|
            0 <= b < self.buckets.members.len() ==> self.fallback.table().holds_all(
                (#[trigger] self.buckets.members[b])@,
            )
        &&& forall|b: int|
            0 <= b < self.buckets.keys.len() ==> (#[trigger] self.buckets.keys[b]).len() <= 3
    }

    /// The compiled patterns, by identifier.
    pub closed spec fn patterns(&self) -> Seq<CompiledPattern> {
        self.fallback.patterns()
    }

    /// The number of positions compared in one step.
    pub closed spec fn lanes(&self) -> int {
        self.lanes as int
    }

    /// The distinct fingerprints, in the order in which they first occur
    /// among the patterns: one bucket each. The patterns without a fully
    /// specified byte share the empty fingerprint, which stands at every
    /// position.
    pub closed spec fn fingerprints(&self) -> Seq<Seq<u8>> {
        self.buckets.key_bytes()
    }

    /// For each bucket, the identifiers of its patterns.
    pub closed spec fn buckets(&self) -> Seq<Seq<int>> {
        self.buckets.ids()
    }

    /// For each bucket, the records of its patterns.
    pub closed spec fn records(&self) -> Seq<Seq<PatternInfo>> {
        self.buckets.records()
    }

    /// The table that holds the patterns.
    pub closed spec fn table(&self) -> PatternTable {
        self.fallback.table()
    }

    /// The automaton engine for the same patterns.
    pub closed spec fn fallback(&self) -> Anchor {
        self.fallback
    }

    /// What a scan of `data` reports, in order.
    pub open spec fn matches(&self, data: Seq<u8>) -> Seq<MatchedPattern> {
        if data.len() < self.lanes() + 2 {
            self.fallback().matches(data)
        } else {
            fingerprint_order(
                self.patterns(),
                self.fingerprints(),
                self.buckets(),
                self.lanes(),
                data,
            )
        }
    }

    /// Builds the engine for the patterns given, to compare `width` positions
    /// in one step. The pattern at position `i` gets the identifier `i`.
    /// Fails with the error of the first pattern that does not compile;
    /// where all compile, it fails exactly if the builder of the automaton
    /// for short buffers refuses the literals.
    pub fn new(patterns: &[&str], width: VectorWidth) -> (r: Result<Teddy, EngineError>)
        ensures
            r is Ok <==> buildable(sources(patterns@)),
            compile_all(sources(patterns@)) matches Err(e) ==> r matches Err(f) && f
                == pattern_failure(e),
            compile_all(sources(patterns@)) matches Ok(ps) ==> match r {
                Ok(engine) => {
                    &&& engine.patterns() == ps
                    &&& engine.lanes() == width.count()
                    &&& is_grouping(fingerprints_of(ps), engine.fingerprints(), engine.buckets())
                    &&& stores(engine.table(), engine.records(), engine.buckets(), ps)
                    &&& engine.fallback().patterns() == ps
                    &&& is_grouping(
                        search_keys(ps),
                        engine.fallback().keys(),
                        engine.fallback().groups(),
                    )
                },
                Err(f) => f is AutomatonBuildFailure,
            },
    {
        let set = match compile_patterns(patterns) {
            Ok(set) => set,
            Err(e) => {
                return Err(EngineError::from_pattern(e));
            },
        };
        let ghost ps = set.table.patterns();
        let ghost table = set.table;
        let ghost infos = set.infos@;
        let keys = search_key_list(&set.anchors, &set.anchored, Some(3));
        let buckets = group_patterns(&keys, &set.infos);
        proof {
            assert(byte_strings(keys@) =~= fingerprints_of(ps));
            lemma_grouped_records(set, buckets);
        }
        let fallback = match Anchor::from_set(set) {
            Ok(engine) => engine,
            Err(e) => {
                return Err(e);
            },
        };
        proof {
            assert forall|b: int| 0 <= b < buckets.members.len() implies table.holds_all(
                (#[trigger] buckets.members[b])@,
            ) by {
                assert forall|j: int| 0 <= j < buckets.members[b]@.len() implies table.holds(
                    #[trigger] buckets.members[b]@[j],
                ) by {
                    let info = buckets.members[b][j];
                    assert(info == infos[info.id as int]);
                }
            }
            assert forall|b: int| 0 <= b < buckets.keys.len() implies (
            #[trigger] buckets.keys[b]).len() <= 3 by {
                assert(buckets.ids()[b].len() > 0);
                let i = buckets.ids()[b][0];
                assert(fingerprints_of(ps)[i] == buckets.key_bytes()[b]);
            }
        }
        Ok(Teddy { lanes: width.lanes(), buckets, fallback })
    }

    /// The number of positions compared in one step.
    pub fn width(&self) -> (n: usize)
        ensures
            n == self.lanes(),
            n == 16 || n == 32,
    {
        proof {
            use_type_invariant(self);
        }
        self.lanes
    }

    /// Where the strided phase ends on a buffer of `len` bytes: the first
    /// position that is left to the walk. `None` where the buffer is too
    /// short for one step.
    pub fn strided_limit(&self, len: usize) -> (r: Option<usize>)
        ensures
            len < self.lanes() + 2 ==> r is None,
            len >= self.lanes() + 2 ==> r == Some(vector_limit(len as int, self.lanes()) as usize),
            r matches Some(limit) ==> limit + 2 <= len && stride_aligned(limit as int, self.lanes()),
    {
        proof {
            use_type_invariant(self);
        }
        let lanes: usize = self.lanes;
        if len < lanes + 2 {
            return None;
        }
        let safe_limit: usize = len - (lanes + 2);
        let aligned_limit: usize = safe_limit & !(lanes - 1);
        proof {
            if lanes == 16 {
                assert(safe_limit & !15usize == safe_limit - safe_limit % 16) by (bit_vector);
                assert((safe_limit - safe_limit % 16 + 16) % 16 == 0);
            } else {
                assert(safe_limit & !31usize == safe_limit - safe_limit % 32) by (bit_vector);
                assert((safe_limit - safe_limit % 32 + 32) % 32 == 0);
            }
        }
        Some(aligned_limit + lanes)
    }

    /// The number of buckets.
    pub fn bucket_count(&self) -> (n: usize)
        ensures
            n == self.fingerprints().len(),
            n == self.buckets().len(),
    {
        proof {
            use_type_invariant(self);
        }
        self.buckets.keys.len()
    }

    /// The fingerprint of a bucket: up to three bytes. The bucket of the
    /// patterns without a fully specified byte has the empty fingerprint.
    pub fn fingerprint_bytes(&self, bucket: usize) -> (key: &Vec<u8>)
        requires
            bucket < self.fingerprints().len(),
        ensures
            key@ == self.fingerprints()[bucket as int],
            key.len() <= 3,
    {
        proof {
            use_type_invariant(self);
        }
        &self.buckets.keys[bucket]
    }

    /// Verifies the patterns of a bucket at each lane that is set in `mask`,
    /// in ascending order of the lanes, until the sink asks to stop. Lane
    /// `k` stands for the position `base + k`. Returns whether the scan goes
    /// on, and what the sink received.
    #[verifier::loop_isolation(false)]
    pub fn verify_lanes<F: FnMut(MatchedPattern) -> Scan>(
        &self,
        data: &[u8],
        bucket: usize,
        base: usize,
        mask: u32,
        on_match: &mut F,
    ) -> (r: (bool, Ghost<Seq<MatchedPattern>>))
        requires
            bucket < self.buckets().len(),
            base + 31 <= usize::MAX,
            sink_ready(*old(on_match), self.patterns(), data@),
        ensures
            *final(on_match) == *old(on_match),
            delivered(
                *old(on_match),
                lanes_span(self.patterns(), self.buckets()[bucket as int], data@, base as int, mask, 32),
                r.1@,
                !r.0,
            ),
    {
        proof {
            use_type_invariant(self);
        }
        let table = self.fallback.table_ref();
        let candidates = &self.buckets.members[bucket];
        let ghost ps = self.patterns();
        let ghost ids = self.buckets()[bucket as int];
        let ghost piece = lane_piece(ps, ids, data@, base as int, mask);
        let ghost whole = lanes_span(ps, ids, data@, base as int, mask, 32);
        assert(ids == ids_of(candidates@));
        let ghost mut emitted = Seq::<MatchedPattern>::empty();
        let ghost mut next: int = 0;
        let mut bits: u32 = mask;
        while bits != 0
            invariant
                0 <= next <= 32,
                forall|k: u32| #[trigger] lane_set(bits, k) <==> k >= next && lane_set(mask, k),
                *on_match == *old(on_match),
                delivered(
                    *on_match,
                    lanes_span(ps, ids, data@, base as int, mask, next),
                    emitted,
                    false,
                ),
            decreases 32 - next,
        {
            proof {
                axiom_u32_trailing_zeros(bits);
            }
            let lane: u32 = bits.trailing_zeros();
            assert(lane_set(bits, lane));
            let match_pos: usize = base + lane as usize;
            proof {
                assert forall|k: int| next <= k < lane implies (#[trigger] piece(k)).len() == 0 by {
                    assert(!lane_set(bits, k as u32));
                }
                lemma_concat_split(0, next, lane as int, piece);
                lemma_concat_empty(next, lane as int, piece);
                assert(lanes_span(ps, ids, data@, base as int, mask, next) + Seq::<
                    MatchedPattern,
                >::empty() =~= lanes_span(ps, ids, data@, base as int, mask, next));
            }
            let step = table.verify_bucket_patterns(data, match_pos, candidates, on_match);
            proof {
                assert(piece(lane as int) == group_at(ps, ids, data@, match_pos as int));
                lemma_concat_step(0, lane as int, piece);
                lemma_concat_prefix(0, lane + 1, 32, piece);
                lemma_delivered_step(
                    *on_match,
                    lanes_span(ps, ids, data@, base as int, mask, lane as int),
                    piece(lane as int),
                    emitted,
                    step.1@,
                    !step.0,
                    whole,
                );
                emitted = emitted + step.1@;
            }
            if !step.0 {
                return (false, Ghost(emitted));
            }
            let ghost before = bits;
            bits = bits & (bits - 1);
            proof {
                assert forall|k: u32| #[trigger]
                    lane_set(bits, k) <==> k >= lane + 1 && lane_set(mask, k) by {
                    if k < 32 {
                        lemma_clear_lowest(before, k);
                    }
                }
                next = lane + 1;
            }
        }
        proof {
            assert forall|k: int| next <= k < 32 implies (#[trigger] piece(k)).len() == 0 by {
                if lane_set(mask, k as u32) {
                    assert(lane_set(bits, k as u32));
                    lemma_no_lane(k as u32);
                }
            }
            lemma_concat_split(0, next, 32, piece);
            lemma_concat_empty(next, 32, piece);
            assert(lanes_span(ps, ids, data@, base as int, mask, next) + Seq::<
                MatchedPattern,
            >::empty() =~= lanes_span(ps, ids, data@, base as int, mask, next));
        }
        (true, Ghost(emitted))
    }

    /// The strided phase for one bucket: steps of `lanes` positions from 0 up
    /// to `limit`.
    #[verifier::loop_isolation(false)]
    fn scan_bucket<M: Fn(&[u8], usize, &Vec<u8>, usize) -> u32, F: FnMut(MatchedPattern) -> Scan>(
        &self,
        data: &[u8],
        bucket: usize,
        limit: usize,
        compare: &M,
        on_match: &mut F,
    ) -> (r: (bool, Ghost<Seq<MatchedPattern>>))
        requires
            compares_lanes(*compare),
            bucket < self.fingerprints().len(),
            limit + 2 <= data.len(),
            stride_aligned(limit as int, self.lanes()),
            sink_ready(*old(on_match), self.patterns(), data@),
        ensures
            *final(on_match) == *old(on_match),
            delivered(
                *old(on_match),
                bucket_span(
                    self.patterns(),
                    self.fingerprints()[bucket as int],
                    self.buckets()[bucket as int],
                    data@,
                    0,
                    limit as int,
                ),
                r.1@,
                !r.0,
            ),
    {
        proof {
            use_type_invariant(self);
        }
        let ghost ps = self.patterns();
        let ghost key = self.fingerprints()[bucket as int];
        let ghost ids = self.buckets()[bucket as int];
        let ghost piece = bucket_piece(ps, key, ids, data@);
        let ghost mut emitted = Seq::<MatchedPattern>::empty();
        let lanes: usize = self.lanes;
        let mut i: usize = 0;
        while i < limit
            invariant
                i <= limit,
                stride_aligned(i as int, lanes as int),
                *on_match == *old(on_match),
                delivered(*on_match, bucket_span(ps, key, ids, data@, 0, i as int), emitted, false),
            decreases limit - i,
        {
            let fingerprint = &self.buckets.keys[bucket];
            let mask = compare(data, i, fingerprint, lanes);
            assert(call_ensures(*compare, (data, i, fingerprint, lanes), mask));
            assert(is_lane_mask(mask, data@, i as int, fingerprint@, lanes as int));
            let step = self.verify_lanes(data, bucket, i, mask, on_match);
            proof {
                lemma_lanes_are_positions(ps, key, ids, data@, i as int, mask, lanes as int);
                lemma_concat_split(0, i as int, i + lanes, piece);
                lemma_concat_prefix(0, i + lanes, limit as int, piece);
                lemma_delivered_step(
                    *on_match,
                    bucket_span(ps, key, ids, data@, 0, i as int),
                    bucket_span(ps, key, ids, data@, i as int, i + lanes),
                    emitted,
                    step.1@,
                    !step.0,
                    bucket_span(ps, key, ids, data@, 0, limit as int),
                );
                emitted = emitted + step.1@;
            }
            if !step.0 {
                return (false, Ghost(emitted));
            }
            i += lanes;
        }
        (true, Ghost(emitted))
    }

    /// The strided phase: each bucket in turn over the positions before
    /// `limit`.
    #[verifier::loop_isolation(false)]
    fn scan_strided<M: Fn(&[u8], usize, &Vec<u8>, usize) -> u32, F: FnMut(MatchedPattern) -> Scan>(
        &self,
        data: &[u8],
        limit: usize,
        compare: &M,
        on_match: &mut F,
    ) -> (r: (bool, Ghost<Seq<MatchedPattern>>))
        requires
            compares_lanes(*compare),
            limit + 2 <= data.len(),
            stride_aligned(limit as int, self.lanes()),
            sink_ready(*old(on_match), self.patterns(), data@),
        ensures
            *final(on_match) == *old(on_match),
            delivered(
                *old(on_match),
                strided_prefix(
                    self.patterns(),
                    self.fingerprints(),
                    self.buckets(),
                    data@,
                    limit as int,
                    self.fingerprints().len() as int,
                ),
                r.1@,
                !r.0,
            ),
    {
        proof {
            use_type_invariant(self);
        }
        let ghost ps = self.patterns();
        let ghost keys = self.fingerprints();
        let ghost members = self.buckets();
        let ghost piece = strided_piece(ps, keys, members, data@, limit as int);
        let ghost mut emitted = Seq::<MatchedPattern>::empty();
        let mut b: usize = 0;
        while b < self.buckets.keys.len()
            invariant
                b <= self.buckets.keys.len(),
                *on_match == *old(on_match),
                delivered(
                    *on_match,
                    strided_prefix(ps, keys, members, data@, limit as int, b as int),
                    emitted,
                    false,
                ),
            decreases self.buckets.keys.len() - b,
        {
            let step = self.scan_bucket(data, b, limit, compare, on_match);
            proof {
                lemma_concat_step(0, b as int, piece);
                lemma_concat_prefix(0, b + 1, keys.len() as int, piece);
                lemma_delivered_step(
                    *on_match,
                    strided_prefix(ps, keys, members, data@, limit as int, b as int),
                    piece(b as int),
                    emitted,
                    step.1@,
                    !step.0,
                    strided_prefix(ps, keys, members, data@, limit as int, keys.len() as int),
                );
                emitted = emitted + step.1@;
            }
            if !step.0 {
                return (false, Ghost(emitted));
            }
            b += 1;
        }
        (true, Ghost(emitted))
    }

    /// Verifies, at one position, the patterns of each bucket whose
    /// fingerprint stands there, bucket after bucket.
    #[verifier::loop_isolation(false)]
    fn scan_position<F: FnMut(MatchedPattern) -> Scan>(
        &self,
        data: &[u8],
        pos: usize,
        on_match: &mut F,
    ) -> (r: (bool, Ghost<Seq<MatchedPattern>>))
        requires
            sink_ready(*old(on_match), self.patterns(), data@),
        ensures
            *final(on_match) == *old(on_match),
            delivered(
                *old(on_match),
                position_prefix(
                    self.patterns(),
                    self.fingerprints(),
                    self.buckets(),
                    data@,
                    pos as int,
                    self.fingerprints().len() as int,
                ),
                r.1@,
                !r.0,
            ),
    {
        proof {
            use_type_invariant(self);
        }
        let table = self.fallback.table_ref();
        let ghost ps = self.patterns();
        let ghost keys = self.fingerprints();
        let ghost members = self.buckets();
        let ghost piece = position_piece(ps, keys, members, data@, pos as int);
        let ghost whole = position_prefix(ps, keys, members, data@, pos as int, keys.len() as int);
        let ghost mut emitted = Seq::<MatchedPattern>::empty();
        let mut b: usize = 0;
        while b < self.buckets.keys.len()
            invariant
                b <= self.buckets.keys.len(),
                *on_match == *old(on_match),
                delivered(
                    *on_match,
                    position_prefix(ps, keys, members, data@, pos as int, b as int),
                    emitted,
                    false,
                ),
            decreases self.buckets.keys.len() - b,
        {
            proof {
                lemma_concat_step(0, b as int, piece);
                lemma_concat_prefix(0, b + 1, keys.len() as int, piece);
            }
            if fingerprint_at(data, pos, &self.buckets.keys[b]) {
                let candidates = &self.buckets.members[b];
                assert(members[b as int] == ids_of(candidates@));
                let step = table.verify_bucket_patterns(data, pos, candidates, on_match);
                proof {
                    lemma_delivered_step(
                        *on_match,
                        position_prefix(ps, keys, members, data@, pos as int, b as int),
                        piece(b as int),
                        emitted,
                        step.1@,
                        !step.0,
                        whole,
                    );
                    emitted = emitted + step.1@;
                }
                if !step.0 {
                    return (false, Ghost(emitted));
                }
            } else {
                assert(position_prefix(ps, keys, members, data@, pos as int, b as int) + piece(
                    b as int,
                ) =~= position_prefix(ps, keys, members, data@, pos as int, b as int));
            }
            b += 1;
        }
        (true, Ghost(emitted))
    }

    /// The walk: position after position from `start_offset` to the end of
    /// the buffer, at each position all buckets.
    #[verifier::loop_isolation(false)]
    pub fn scan_slow<F: FnMut(MatchedPattern) -> Scan>(
        &self,
        data: &[u8],
        start_offset: usize,
        on_match: &mut F,
    ) -> (r: (bool, Ghost<Seq<MatchedPattern>>))
        requires
            sink_ready(*old(on_match), self.patterns(), data@),
        ensures
            *final(on_match) == *old(on_match),
            delivered(
                *old(on_match),
                walk_span(
                    self.patterns(),
                    self.fingerprints(),
                    self.buckets(),
                    data@,
                    start_offset as int,
                    data@.len() as int,
                ),
                r.1@,
                !r.0,
            ),
            walks_exactly(
                self.patterns(),
                data@,
                start_offset as int,
                walk_span(
                    self.patterns(),
                    self.fingerprints(),
                    self.buckets(),
                    data@,
                    start_offset as int,
                    data@.len() as int,
                ),
            ),
    {
        proof {
            use_type_invariant(self);
            assert(data@.len() == data.len());
            law_walk(
                self.patterns(),
                self.fingerprints(),
                self.buckets(),
                data@,
                start_offset as int,
            );
        }
        let ghost ps = self.patterns();
        let ghost keys = self.fingerprints();
        let ghost members = self.buckets();
        let ghost piece = walk_piece(ps, keys, members, data@);
        let ghost mut emitted = Seq::<MatchedPattern>::empty();
        let len: usize = data.len();
        if start_offset >= len {
            return (true, Ghost(emitted));
        }
        let mut i: usize = start_offset;
        while i < len
            invariant
                start_offset <= i <= len,
                *on_match == *old(on_match),
                delivered(
                    *on_match,
                    walk_span(ps, keys, members, data@, start_offset as int, i as int),
                    emitted,
                    false,
                ),
            decreases len - i,
        {
            let step = self.scan_position(data, i, on_match);
            proof {
                lemma_concat_step(start_offset as int, i as int, piece);
                lemma_concat_prefix(start_offset as int, i + 1, len as int, piece);
                lemma_delivered_step(
                    *on_match,
                    walk_span(ps, keys, members, data@, start_offset as int, i as int),
                    piece(i as int),
                    emitted,
                    step.1@,
                    !step.0,
                    walk_span(ps, keys, members, data@, start_offset as int, len as int),
                );
                emitted = emitted + step.1@;
            }
            if !step.0 {
                return (false, Ghost(emitted));
            }
            i += 1;
        }
        (true, Ghost(emitted))
    }

    /// Scans `data`, with `compare` for the lane masks of the strided phase,
    /// and hands each record to the sink until it asks to stop. Returns
    /// whether it never did, and what the sink received.
    pub(crate) fn scan_into<
        M: Fn(&[u8], usize, &Vec<u8>, usize) -> u32,
        F: FnMut(MatchedPattern) -> Scan,
    >(&self, data: &[u8], compare: &M, on_match: &mut F) -> (r: (bool, Ghost<Seq<MatchedPattern>>))
        requires
            compares_lanes(*compare),
            sink_ready(*old(on_match), self.patterns(), data@),
        ensures
            *final(on_match) == *old(on_match),
            delivered(*old(on_match), self.matches(data@), r.1@, !r.0),
            scannable(self.patterns(), data@),
            reports_exactly(self.patterns(), data@, self.matches(data@)),
    {
        proof {
            use_type_invariant(self);
        }
        let len: usize = data.len();
        let limit: usize = match self.strided_limit(len) {
            Some(limit) => limit,
            None => {
                return self.fallback.scan_into(data, on_match);
            },
        };
        proof {
            lemma_fingerprint_engine(
                self.patterns(),
                self.fingerprints(),
                self.buckets(),
                self.lanes as int,
                data@,
            );
        }
        let ghost ps = self.patterns();
        let ghost keys = self.fingerprints();
        let ghost members = self.buckets();
        let ghost strided = strided_prefix(ps, keys, members, data@, limit as int, keys.len() as int);
        let ghost walk = walk_span(ps, keys, members, data@, limit as int, len as int);
        let ghost none = Seq::<MatchedPattern>::empty();
        let first = self.scan_strided(data, limit, compare, on_match);
        proof {
            assert(none + strided =~= strided);
            assert(strided.is_prefix_of(strided + walk));
            lemma_delivered_step(*on_match, none, strided, none, first.1@, !first.0, strided + walk);
            assert(none + first.1@ =~= first.1@);
        }
        if !first.0 {
            return first;
        }
        let second = self.scan_slow(data, limit, on_match);
        proof {
            lemma_delivered_step(
                *on_match,
                strided,
                walk,
                first.1@,
                second.1@,
                !second.0,
                strided + walk,
            );
        }
        (second.0, Ghost(first.1@ + second.1@))
    }

    /// Scans `data` for the patterns and hands the record of each occurrence
    /// to `on_match`, in the order of `matches`, until it returns
    /// `Scan::Stop`. Returns what the sink received.
    pub fn scan<F: FnMut(MatchedPattern) -> Scan>(&self, data: &[u8], on_match: F) -> (trace: Ghost<
        Seq<MatchedPattern>,
    >)
        requires
            sink_ready(on_match, self.patterns(), data@),
        ensures
            scanned(on_match, self.matches(data@), trace@),
            reports_exactly(self.patterns(), data@, self.matches(data@)),
            sound(self.patterns(), data@, trace@),
            trace@.len() == self.matches(data@).len() ==> complete(self.patterns(), data@, trace@),
    {
        self.scan_with(data, lane_mask, on_match)
    }

    /// Scans `data` like `scan`, with `compare` in the place of `lane_mask`:
    /// a function that compares a fingerprint with all positions of a step
    /// at once, as a vector unit can.
    pub fn scan_with<M: Fn(&[u8], usize, &Vec<u8>, usize) -> u32, F: FnMut(MatchedPattern) -> Scan>(
        &self,
        data: &[u8],
        compare: M,
        mut on_match: F,
    ) -> (trace: Ghost<Seq<MatchedPattern>>)
        requires
            compares_lanes(compare),
            sink_ready(on_match, self.patterns(), data@),
        ensures
            scanned(on_match, self.matches(data@), trace@),
            reports_exactly(self.patterns(), data@, self.matches(data@)),
            sound(self.patterns(), data@, trace@),
            trace@.len() == self.matches(data@).len() ==> complete(self.patterns(), data@, trace@),
    {
        let r = self.scan_into(data, &compare, &mut on_match);
        proof {
            law_sound(on_match, self.patterns(), data@, self.matches(data@), r.1@);
            if r.1@.len() == self.matches(data@).len() {
                law_complete(on_match, self.patterns(), data@, self.matches(data@), r.1@);
            }
        }
        r.1
    }
}

} // verus!
