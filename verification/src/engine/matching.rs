//! What it means for a pattern to lie in a buffer, and what the engines
//! report in which order.

use crate::engine::common::{anchor_offset, search_key, CompiledPattern};
use crate::engine::sequence::concat_range;
use crate::engine::MatchedPattern;
use crate::pattern::PatternId;
use vstd::prelude::*;

verus! {

/// A pattern has as many masks as values, and at least one of each.
pub open spec fn well_formed(p: CompiledPattern) -> bool {
    p.values.len() == p.masks.len() && p.values.len() > 0
}

/// Whether the pattern lies at `data[start .. start + len]`: the range is
/// within the buffer and each byte agrees with the pattern on the masked bits.
pub open spec fn fits(p: CompiledPattern, data: Seq<u8>, start: int) -> bool {
    &&& 0 <= start
    &&& start + p.values.len() <= data.len()
    &&& forall|k: int| 0 <= k < p.values.len() ==> data[start + k] & p.masks[k] == p.values[k]
}

/// Whether the bytes of `needle` stand in `data` from `pos` on.
pub open spec fn occurs_at(needle: Seq<u8>, data: Seq<u8>, pos: int) -> bool {
    &&& 0 <= pos
    &&& pos + needle.len() <= data.len()
    &&& forall|k: int| 0 <= k < needle.len() ==> data[pos + k] == needle[k]
}

/// The fingerprint of a pattern: the first bytes of its search key, three at
/// most. It is empty, and so stands everywhere, for a pattern without a
/// fully specified byte.
pub open spec fn fingerprint(p: CompiledPattern) -> Seq<u8> {
    let key = search_key(p);
    if key.len() <= 3 {
        key
    } else {
        key.take(3)
    }
}

/// The record of pattern `id` at `start`.
pub open spec fn record(id: int, p: CompiledPattern, start: int) -> MatchedPattern {
    MatchedPattern {
        start: start as usize,
        end: (start + p.values.len()) as usize,
        pattern_id: PatternId(id as usize),
    }
}

/// Whether `m` records a place where one of the patterns lies.
pub open spec fn is_occurrence(
    patterns: Seq<CompiledPattern>,
    data: Seq<u8>,
    m: MatchedPattern,
) -> bool {
    &&& m.pattern_id.0 < patterns.len()
    &&& fits(patterns[m.pattern_id.0 as int], data, m.start as int)
    &&& m.end == m.start + patterns[m.pattern_id.0 as int].values.len()
}

/// What the verifier emits for pattern `id` when a candidate for its anchor
/// was seen at `pos`: the record of the pattern, if it lies there.
pub open spec fn match_at(
    patterns: Seq<CompiledPattern>,
    id: int,
    data: Seq<u8>,
    pos: int,
) -> Seq<MatchedPattern> {
    let start = pos - anchor_offset(patterns[id]);
    if fits(patterns[id], data, start) {
        seq![record(id, patterns[id], start)]
    } else {
        Seq::empty()
    }
}

/// What the verifier emits for each pattern of a candidate list.
pub open spec fn group_piece(
    patterns: Seq<CompiledPattern>,
    ids: Seq<int>,
    data: Seq<u8>,
    pos: int,
) -> spec_fn(int) -> Seq<MatchedPattern> {
    |j: int| match_at(patterns, ids[j], data, pos)
}

/// What the verifier emits for the first `n` patterns of a candidate list.
pub open spec fn group_prefix(
    patterns: Seq<CompiledPattern>,
    ids: Seq<int>,
    data: Seq<u8>,
    pos: int,
    n: int,
) -> Seq<MatchedPattern> {
    concat_range(0, n, group_piece(patterns, ids, data, pos))
}

/// What the verifier emits for a candidate list, in the list's order.
pub open spec fn group_at(
    patterns: Seq<CompiledPattern>,
    ids: Seq<int>,
    data: Seq<u8>,
    pos: int,
) -> Seq<MatchedPattern> {
    group_prefix(patterns, ids, data, pos, ids.len() as int)
}

/// What a bucket yields at `pos`: its patterns are verified where its
/// fingerprint stands, and nowhere else.
pub open spec fn bucket_at(
    patterns: Seq<CompiledPattern>,
    key: Seq<u8>,
    ids: Seq<int>,
    data: Seq<u8>,
    pos: int,
) -> Seq<MatchedPattern> {
    if occurs_at(key, data, pos) {
        group_at(patterns, ids, data, pos)
    } else {
        Seq::empty()
    }
}

/// What a bucket yields at each position.
pub open spec fn bucket_piece(
    patterns: Seq<CompiledPattern>,
    key: Seq<u8>,
    ids: Seq<int>,
    data: Seq<u8>,
) -> spec_fn(int) -> Seq<MatchedPattern> {
    |pos: int| bucket_at(patterns, key, ids, data, pos)
}

/// What a bucket yields at the positions `from .. upto`, in ascending order.
pub open spec fn bucket_span(
    patterns: Seq<CompiledPattern>,
    key: Seq<u8>,
    ids: Seq<int>,
    data: Seq<u8>,
    from: int,
    upto: int,
) -> Seq<MatchedPattern> {
    concat_range(from, upto, bucket_piece(patterns, key, ids, data))
}

/// What each bucket yields over the positions before `limit`.
pub open spec fn strided_piece(
    patterns: Seq<CompiledPattern>,
    keys: Seq<Seq<u8>>,
    members: Seq<Seq<int>>,
    data: Seq<u8>,
    limit: int,
) -> spec_fn(int) -> Seq<MatchedPattern> {
    |b: int| bucket_span(patterns, keys[b], members[b], data, 0, limit)
}

/// The strided phase: the first `n` buckets, one after the other, each over
/// the positions before `limit`.
pub open spec fn strided_prefix(
    patterns: Seq<CompiledPattern>,
    keys: Seq<Seq<u8>>,
    members: Seq<Seq<int>>,
    data: Seq<u8>,
    limit: int,
    n: int,
) -> Seq<MatchedPattern> {
    concat_range(0, n, strided_piece(patterns, keys, members, data, limit))
}

/// What each bucket yields at one position.
pub open spec fn position_piece(
    patterns: Seq<CompiledPattern>,
    keys: Seq<Seq<u8>>,
    members: Seq<Seq<int>>,
    data: Seq<u8>,
    pos: int,
) -> spec_fn(int) -> Seq<MatchedPattern> {
    |b: int| bucket_at(patterns, keys[b], members[b], data, pos)
}

/// What the first `n` buckets yield at one position.
pub open spec fn position_prefix(
    patterns: Seq<CompiledPattern>,
    keys: Seq<Seq<u8>>,
    members: Seq<Seq<int>>,
    data: Seq<u8>,
    pos: int,
    n: int,
) -> Seq<MatchedPattern> {
    concat_range(0, n, position_piece(patterns, keys, members, data, pos))
}

/// What all buckets, in their order, yield at each position.
pub open spec fn walk_piece(
    patterns: Seq<CompiledPattern>,
    keys: Seq<Seq<u8>>,
    members: Seq<Seq<int>>,
    data: Seq<u8>,
) -> spec_fn(int) -> Seq<MatchedPattern> {
    |pos: int| position_prefix(patterns, keys, members, data, pos, keys.len() as int)
}

/// The position-by-position walk over `from .. upto`: at each position all
/// buckets in their order.
pub open spec fn walk_span(
    patterns: Seq<CompiledPattern>,
    keys: Seq<Seq<u8>>,
    members: Seq<Seq<int>>,
    data: Seq<u8>,
    from: int,
    upto: int,
) -> Seq<MatchedPattern> {
    concat_range(from, upto, walk_piece(patterns, keys, members, data))
}

/// What the candidates of each hit of the automaton yield. A hit is the
/// number of a literal and the position where it starts.
pub open spec fn hits_piece(
    patterns: Seq<CompiledPattern>,
    members: Seq<Seq<int>>,
    hits: Seq<(usize, usize)>,
    data: Seq<u8>,
) -> spec_fn(int) -> Seq<MatchedPattern> {
    |h: int| group_at(patterns, members[hits[h].0 as int], data, hits[h].1 as int)
}

/// What the candidates of the first `n` hits yield, hit after hit.
pub open spec fn hits_prefix(
    patterns: Seq<CompiledPattern>,
    members: Seq<Seq<int>>,
    hits: Seq<(usize, usize)>,
    data: Seq<u8>,
    n: int,
) -> Seq<MatchedPattern> {
    concat_range(0, n, hits_piece(patterns, members, hits, data))
}

} // verus!
