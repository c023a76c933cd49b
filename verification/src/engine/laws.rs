//! What holds of every scan: the records that an engine reports are the
//! occurrences of its patterns, each once, whichever engine it is.

use crate::engine::anchor::{
    automaton_order, empty_at, group_of_literal, literal_members, literals_of, open_group,
    open_members, search_keys, Anchor,
};
use crate::engine::common::{
    anchor_bytes, anchor_offset, anchor_span, full_run, has_full_byte, is_anchor_run,
    lemma_anchor_nonempty, lemma_anchor_run_exists, search_key, CompiledPattern,
};
use crate::engine::automaton::{every_occurrence_once, overlapping_hits};
use crate::engine::grouping::{is_grouping, is_member};
use crate::engine::matching::{
    bucket_piece, bucket_span, fingerprint, fits, group_at, group_piece, hits_piece, hits_prefix,
    is_occurrence, match_at, occurs_at, position_piece, position_prefix, record, strided_piece,
    strided_prefix, walk_piece, walk_span, well_formed,
};
use crate::engine::sequence::{lemma_concat_contains, lemma_concat_no_duplicates};
use crate::engine::teddy::{
    fingerprint_order, fingerprints_of, stride_aligned, vector_limit, Teddy,
};
use crate::engine::{scanned, MatchedPattern, Scan};
use vstd::prelude::*;

verus! {

/// Whether the patterns and the buffer are such as an engine can hold: each
/// pattern is well formed, and identifiers and positions fit in a `usize`.
pub open spec fn scannable(patterns: Seq<CompiledPattern>, data: Seq<u8>) -> bool {
    &&& patterns.len() <= usize::MAX
    &&& data.len() <= usize::MAX
    &&& forall|i: int| 0 <= i < patterns.len() ==> well_formed(#[trigger] patterns[i])
}

/// Where the anchor of the recorded pattern begins in the buffer.
pub open spec fn anchor_pos(patterns: Seq<CompiledPattern>, m: MatchedPattern) -> int {
    m.start + anchor_offset(patterns[m.pattern_id.0 as int])
}

/// The anchor of a pattern with a fully specified byte is a run of such
/// bytes within the pattern.
pub proof fn lemma_anchor_is_run(p: CompiledPattern)
    requires
        well_formed(p),
        has_full_byte(p.masks),
    ensures
        is_anchor_run(p.masks, anchor_span(p.masks).0, anchor_span(p.masks).1),
{
    lemma_anchor_run_exists(p.masks);
}

/// Where a pattern with a fully specified byte lies, its anchor stands.
pub proof fn lemma_anchor_stands(p: CompiledPattern, data: Seq<u8>, start: int)
    requires
        well_formed(p),
        has_full_byte(p.masks),
        fits(p, data, start),
    ensures
        occurs_at(anchor_bytes(p), data, start + anchor_offset(p)),
{
    lemma_anchor_is_run(p);
    let s = anchor_span(p.masks).0;
    let l = anchor_span(p.masks).1;
    assert(full_run(p.masks, s, l));
    let anchor = anchor_bytes(p);
    assert forall|k: int| 0 <= k < anchor.len() implies data[start + s + k] == anchor[k] by {
        let x = data[start + s + k];
        assert(p.masks[s + k] == 0xFFu8);
        assert(x & p.masks[s + k] == p.values[s + k]);
        assert(x & 0xFFu8 == x) by (bit_vector);
    }
}

/// Where a pattern lies, its search key stands at the anchor's place.
pub proof fn lemma_search_key_stands(p: CompiledPattern, data: Seq<u8>, start: int)
    requires
        well_formed(p),
        fits(p, data, start),
    ensures
        occurs_at(search_key(p), data, start + anchor_offset(p)),
        0 <= start + anchor_offset(p) < data.len(),
{
    lemma_anchor_nonempty(p);
    if has_full_byte(p.masks) {
        lemma_anchor_stands(p, data, start);
    }
}

/// Where a pattern lies, its fingerprint stands at the anchor's place.
pub proof fn lemma_fingerprint_stands(p: CompiledPattern, data: Seq<u8>, start: int)
    requires
        well_formed(p),
        fits(p, data, start),
    ensures
        occurs_at(fingerprint(p), data, start + anchor_offset(p)),
{
    lemma_search_key_stands(p, data, start);
    let key = search_key(p);
    let pos = start + anchor_offset(p);
    assert forall|k: int| 0 <= k < fingerprint(p).len() implies data[pos + k] == fingerprint(p)[k] by {
        assert(data[pos + k] == key[k]);
    }
}

/// The verifier's answer for one pattern holds `m` exactly when the pattern
/// lies around the candidate and `m` is its record.
pub proof fn lemma_match_at(
    patterns: Seq<CompiledPattern>,
    id: int,
    data: Seq<u8>,
    pos: int,
    m: MatchedPattern,
)
    requires
        scannable(patterns, data),
        0 <= id < patterns.len(),
    ensures
        match_at(patterns, id, data, pos).contains(m) <==> m.pattern_id.0 == id && is_occurrence(
            patterns,
            data,
            m,
        ) && anchor_pos(patterns, m) == pos,
        match_at(patterns, id, data, pos).no_duplicates(),
{
    let p = patterns[id];
    let start = pos - anchor_offset(p);
    let found = match_at(patterns, id, data, pos);
    if fits(p, data, start) {
        let r = record(id, p, start);
        assert(found[0] == r);
        if m.pattern_id.0 == id && is_occurrence(patterns, data, m) && anchor_pos(patterns, m)
            == pos {
            assert(m == r);
            assert(found.contains(m));
        }
    }
}

/// Whether the identifiers are those of patterns, each at most once.
pub open spec fn distinct_ids(patterns: Seq<CompiledPattern>, ids: Seq<int>) -> bool {
    &&& forall|j: int| 0 <= j < ids.len() ==> 0 <= #[trigger] ids[j] < patterns.len()
    &&& ids.no_duplicates()
}

/// The verifier's answer for a candidate list holds `m` exactly when `m`
/// records one of the list's patterns, lying around the candidate; and it
/// holds nothing twice.
pub proof fn lemma_group_at(
    patterns: Seq<CompiledPattern>,
    ids: Seq<int>,
    data: Seq<u8>,
    pos: int,
    m: MatchedPattern,
)
    requires
        scannable(patterns, data),
        distinct_ids(patterns, ids),
    ensures
        group_at(patterns, ids, data, pos).contains(m) <==> ids.contains(m.pattern_id.0 as int)
            && is_occurrence(patterns, data, m) && anchor_pos(patterns, m) == pos,
        group_at(patterns, ids, data, pos).no_duplicates(),
{
    let piece = group_piece(patterns, ids, data, pos);
    lemma_concat_contains(0, ids.len() as int, piece, m);
    if group_at(patterns, ids, data, pos).contains(m) {
        let j = choose|j: int| 0 <= j < ids.len() && (#[trigger] piece(j)).contains(m);
        lemma_match_at(patterns, ids[j], data, pos, m);
        assert(ids.contains(ids[j]));
    }
    if ids.contains(m.pattern_id.0 as int) && is_occurrence(patterns, data, m) && anchor_pos(
        patterns,
        m,
    ) == pos {
        let j = choose|j: int| 0 <= j < ids.len() && ids[j] == m.pattern_id.0 as int;
        lemma_match_at(patterns, ids[j], data, pos, m);
        assert(piece(j).contains(m));
    }
    assert forall|j: int| 0 <= j < ids.len() implies (#[trigger] piece(j)).no_duplicates() by {
        lemma_match_at(patterns, ids[j], data, pos, m);
    }
    assert forall|i: int, j: int, x: MatchedPattern|
        0 <= i < j < ids.len() && #[trigger] piece(i).contains(x) implies !#[trigger] piece(
            j,
        ).contains(x) by {
        lemma_match_at(patterns, ids[i], data, pos, x);
        lemma_match_at(patterns, ids[j], data, pos, x);
    }
    lemma_concat_no_duplicates(0, ids.len() as int, piece);
}

/// In a grouping, the identifiers of each group are those of patterns, each
/// at most once.
pub proof fn lemma_group_ids(
    patterns: Seq<CompiledPattern>,
    key_of: Seq<Seq<u8>>,
    keys: Seq<Seq<u8>>,
    members: Seq<Seq<int>>,
    g: int,
)
    requires
        key_of.len() == patterns.len(),
        is_grouping(key_of, keys, members),
        0 <= g < members.len(),
    ensures
        distinct_ids(patterns, members[g]),
{
    let ids = members[g];
    assert forall|j: int| 0 <= j < ids.len() implies 0 <= #[trigger] ids[j] < patterns.len() by {
        assert(0 <= members[g][j] < key_of.len());
    }
    assert forall|i: int, j: int| 0 <= i < ids.len() && 0 <= j < ids.len() && i != j implies ids[i]
        != ids[j] by {
        if i < j {
            assert(members[g][i] < members[g][j]);
        } else {
            assert(members[g][j] < members[g][i]);
        }
    }
}

/// In a grouping, the first pattern of group `g` has at least `g` patterns
/// before it, so that there are no more groups than patterns.
pub proof fn lemma_group_count(
    key_of: Seq<Seq<u8>>,
    keys: Seq<Seq<u8>>,
    members: Seq<Seq<int>>,
    g: int,
)
    requires
        is_grouping(key_of, keys, members),
        0 <= g < members.len(),
    ensures
        g <= members[g][0] < key_of.len(),
        keys.len() <= key_of.len(),
    decreases members.len() - g,
{
    assert(members[g].len() > 0);
    assert(0 <= members[g][0] < key_of.len());
    if g > 0 {
        lemma_group_first(key_of, keys, members, g);
    }
    if g + 1 < members.len() {
        lemma_group_count(key_of, keys, members, g + 1);
    }
}

/// In a grouping, the first pattern of group `g` has at least `g` patterns
/// before it.
proof fn lemma_group_first(key_of: Seq<Seq<u8>>, keys: Seq<Seq<u8>>, members: Seq<Seq<int>>, g: int)
    requires
        is_grouping(key_of, keys, members),
        0 <= g < members.len(),
    ensures
        g <= members[g][0],
    decreases g,
{
    assert(members[g].len() > 0);
    assert(0 <= members[g][0] < key_of.len());
    if g > 0 {
        lemma_group_first(key_of, keys, members, g - 1);
        assert(members[g - 1][0] < members[g][0]);
    }
}

/// In a grouping, a pattern is in a group exactly when the group's key is
/// the pattern's, and it is in some group.
pub proof fn lemma_group_of(
    key_of: Seq<Seq<u8>>,
    keys: Seq<Seq<u8>>,
    members: Seq<Seq<int>>,
    id: int,
) -> (g: int)
    requires
        is_grouping(key_of, keys, members),
        0 <= id < key_of.len(),
    ensures
        0 <= g < keys.len(),
        keys[g] == key_of[id],
        forall|h: int| 0 <= h < keys.len() ==> (#[trigger] members[h].contains(id) <==> h == g),
{
    assert(is_member(members, id));
    let (g, j) = choose|g: int, j: int|
        0 <= g < members.len() && 0 <= j < members[g].len() && #[trigger] members[g][j] == id;
    assert(key_of[members[g][j]] == keys[g]);
    assert(members[g].contains(id));
    assert forall|h: int| 0 <= h < keys.len() && #[trigger] members[h].contains(id) implies h
        == g by {
        let k = choose|k: int| 0 <= k < members[h].len() && members[h][k] == id;
        assert(key_of[members[h][k]] == keys[h]);
        if h < g {
            assert(keys[h] != keys[g]);
        } else if g < h {
            assert(keys[g] != keys[h]);
        }
    }
    g
}

/// Whether a sequence of integers ascends strictly.
pub open spec fn ascending(a: Seq<int>) -> bool {
    forall|i: int, j: int| 0 <= i < j < a.len() ==> a[i] < a[j]
}

/// Two ascending sequences with the same elements agree at each index that
/// both have.
proof fn lemma_ascending_same_at(a: Seq<int>, b: Seq<int>, i: int)
    requires
        ascending(a),
        ascending(b),
        forall|x: int| a.contains(x) <==> b.contains(x),
        0 <= i < a.len(),
        i < b.len(),
    ensures
        a[i] == b[i],
    decreases i,
{
    assert forall|j: int| 0 <= j < i implies a[j] == b[j] by {
        lemma_ascending_same_at(a, b, j);
    }
    assert(a.contains(a[i]));
    let j = choose|j: int| 0 <= j < b.len() && b[j] == a[i];
    assert(b.contains(b[i]));
    let k = choose|k: int| 0 <= k < a.len() && a[k] == b[i];
    if j < i {
        assert(a[j] == b[j]);
    }
    if k < i {
        assert(a[k] == b[k]);
    }
}

/// Two ascending sequences with the same elements are equal.
pub proof fn lemma_ascending_same(a: Seq<int>, b: Seq<int>)
    requires
        ascending(a),
        ascending(b),
        forall|x: int| a.contains(x) <==> b.contains(x),
    ensures
        a == b,
{
    if a.len() < b.len() {
        let x = b[a.len() as int];
        assert(b.contains(x));
        let j = choose|j: int| 0 <= j < a.len() && a[j] == x;
        lemma_ascending_same_at(a, b, j);
    }
    if b.len() < a.len() {
        let x = a[b.len() as int];
        assert(a.contains(x));
        let j = choose|j: int| 0 <= j < b.len() && b[j] == x;
        lemma_ascending_same_at(a, b, j);
    }
    assert forall|i: int| 0 <= i < a.len() implies a[i] == b[i] by {
        lemma_ascending_same_at(a, b, i);
    }
    assert(a =~= b);
}

/// The first pattern of each group of a grouping.
pub open spec fn group_firsts(members: Seq<Seq<int>>) -> Seq<int> {
    Seq::new(members.len(), |g: int| members[g][0])
}

/// Whether pattern `i` is the first with its key.
pub open spec fn first_with_key(key_of: Seq<Seq<u8>>, i: int) -> bool {
    &&& 0 <= i < key_of.len()
    &&& forall|j: int| 0 <= j < i ==> key_of[j] != key_of[i]
}

/// In a grouping, the patterns that begin the groups are those that are the
/// first with their key, in ascending order.
proof fn lemma_group_firsts(key_of: Seq<Seq<u8>>, keys: Seq<Seq<u8>>, members: Seq<Seq<int>>)
    requires
        is_grouping(key_of, keys, members),
    ensures
        ascending(group_firsts(members)),
        forall|x: int| group_firsts(members).contains(x) <==> first_with_key(key_of, x),
{
    let firsts = group_firsts(members);
    assert forall|g: int, h: int| 0 <= g < h < firsts.len() implies firsts[g] < firsts[h] by {
        assert(members[g][0] < members[h][0]);
    }
    assert forall|x: int| firsts.contains(x) <==> first_with_key(key_of, x) by {
        if firsts.contains(x) {
            let g = choose|g: int| 0 <= g < firsts.len() && firsts[g] == x;
            assert(members[g].len() > 0);
            assert(0 <= members[g][0] < key_of.len() && key_of[members[g][0]] == keys[g]);
            assert forall|j: int| 0 <= j < x implies key_of[j] != key_of[x] by {
                if key_of[j] == key_of[x] {
                    let h = lemma_group_of(key_of, keys, members, j);
                    assert(members[g].contains(x));
                    let hx = lemma_group_of(key_of, keys, members, x);
                    assert(h == g) by {
                        if h < g {
                            assert(keys[h] != keys[g]);
                        } else if g < h {
                            assert(keys[g] != keys[h]);
                        }
                    }
                    assert(members[g].contains(j));
                    let k = choose|k: int| 0 <= k < members[g].len() && members[g][k] == j;
                    if k > 0 {
                        assert(members[g][0] < members[g][k]);
                    }
                }
            }
        }
        if first_with_key(key_of, x) {
            let g = lemma_group_of(key_of, keys, members, x);
            assert(members[g].contains(x));
            let k = choose|k: int| 0 <= k < members[g].len() && members[g][k] == x;
            if k > 0 {
                assert(members[g][0] < members[g][k]);
                assert(0 <= members[g][0] < key_of.len() && key_of[members[g][0]] == keys[g]);
            }
            assert(firsts[g] == x);
        }
    }
}

/// The patterns determine their grouping: two groupings by the same keys
/// have the same keys in the same order and the same groups.
pub proof fn law_grouping_unique(
    key_of: Seq<Seq<u8>>,
    keys: Seq<Seq<u8>>,
    members: Seq<Seq<int>>,
    other_keys: Seq<Seq<u8>>,
    other_members: Seq<Seq<int>>,
)
    requires
        is_grouping(key_of, keys, members),
        is_grouping(key_of, other_keys, other_members),
    ensures
        keys == other_keys,
        members == other_members,
{
    lemma_group_firsts(key_of, keys, members);
    lemma_group_firsts(key_of, other_keys, other_members);
    let firsts = group_firsts(members);
    let other_firsts = group_firsts(other_members);
    assert forall|x: int| firsts.contains(x) <==> other_firsts.contains(x) by {
        assert(firsts.contains(x) <==> first_with_key(key_of, x));
        assert(other_firsts.contains(x) <==> first_with_key(key_of, x));
    }
    lemma_ascending_same(firsts, other_firsts);
    assert(firsts.len() == members.len());
    assert(other_firsts.len() == other_members.len());
    assert(members.len() == other_members.len());
    assert forall|g: int| 0 <= g < keys.len() implies keys[g] == other_keys[g] by {
        assert(firsts[g] == other_firsts[g]);
        assert(members[g].len() > 0 && other_members[g].len() > 0);
        assert(key_of[members[g][0]] == keys[g]);
        assert(key_of[other_members[g][0]] == other_keys[g]);
    }
    assert(keys =~= other_keys);
    assert forall|g: int| 0 <= g < members.len() implies members[g] == other_members[g] by {
        let a = members[g];
        let b = other_members[g];
        assert forall|i: int, j: int| 0 <= i < j < a.len() implies a[i] < a[j] by {
            assert(members[g][i] < members[g][j]);
        }
        assert forall|i: int, j: int| 0 <= i < j < b.len() implies b[i] < b[j] by {
            assert(other_members[g][i] < other_members[g][j]);
        }
        assert forall|x: int| a.contains(x) <==> b.contains(x) by {
            if a.contains(x) {
                let k = choose|k: int| 0 <= k < a.len() && a[k] == x;
                assert(0 <= members[g][k] < key_of.len() && key_of[members[g][k]] == keys[g]);
                let h = lemma_group_of(key_of, other_keys, other_members, x);
                assert(h == g) by {
                    if h < g {
                        assert(other_keys[h] != other_keys[g]);
                    } else if g < h {
                        assert(other_keys[g] != other_keys[h]);
                    }
                }
            }
            if b.contains(x) {
                let k = choose|k: int| 0 <= k < b.len() && b[k] == x;
                assert(0 <= other_members[g][k] < key_of.len() && key_of[other_members[g][k]]
                    == other_keys[g]);
                let h = lemma_group_of(key_of, keys, members, x);
                assert(h == g) by {
                    if h < g {
                        assert(keys[h] != keys[g]);
                    } else if g < h {
                        assert(keys[g] != keys[h]);
                    }
                }
            }
        }
        lemma_ascending_same(a, b);
    }
    assert(members =~= other_members);
}

/// What a bucket yields over a range of positions holds `m` exactly when `m`
/// records one of the bucket's patterns, lying around a position of the
/// range at which the bucket's key stands; and it holds nothing twice.
pub proof fn lemma_bucket_span(
    patterns: Seq<CompiledPattern>,
    key: Seq<u8>,
    ids: Seq<int>,
    data: Seq<u8>,
    lo: int,
    hi: int,
    m: MatchedPattern,
)
    requires
        scannable(patterns, data),
        distinct_ids(patterns, ids),
    ensures
        bucket_span(patterns, key, ids, data, lo, hi).contains(m) <==> ids.contains(
            m.pattern_id.0 as int,
        ) && is_occurrence(patterns, data, m) && lo <= anchor_pos(patterns, m) < hi && occurs_at(
            key,
            data,
            anchor_pos(patterns, m),
        ),
        bucket_span(patterns, key, ids, data, lo, hi).no_duplicates(),
{
    let piece = bucket_piece(patterns, key, ids, data);
    lemma_concat_contains(lo, hi, piece, m);
    if bucket_span(patterns, key, ids, data, lo, hi).contains(m) {
        let pos = choose|pos: int| lo <= pos < hi && (#[trigger] piece(pos)).contains(m);
        lemma_group_at(patterns, ids, data, pos, m);
    }
    if ids.contains(m.pattern_id.0 as int) && is_occurrence(patterns, data, m) && lo <= anchor_pos(
        patterns,
        m,
    ) < hi && occurs_at(key, data, anchor_pos(patterns, m)) {
        let pos = anchor_pos(patterns, m);
        lemma_group_at(patterns, ids, data, pos, m);
        assert(piece(pos).contains(m));
    }
    assert forall|pos: int| lo <= pos < hi implies (#[trigger] piece(pos)).no_duplicates() by {
        lemma_group_at(patterns, ids, data, pos, m);
    }
    assert forall|i: int, j: int, x: MatchedPattern|
        lo <= i < j < hi && #[trigger] piece(i).contains(x) implies !#[trigger] piece(j).contains(
            x,
        ) by {
        lemma_group_at(patterns, ids, data, i, x);
        lemma_group_at(patterns, ids, data, j, x);
    }
    lemma_concat_no_duplicates(lo, hi, piece);
}

/// The strided phase holds `m` exactly when `m` records a pattern that lies
/// around a position before `limit` at which the pattern's key stands; and
/// it holds nothing twice.
pub proof fn lemma_strided(
    patterns: Seq<CompiledPattern>,
    key_of: Seq<Seq<u8>>,
    keys: Seq<Seq<u8>>,
    members: Seq<Seq<int>>,
    data: Seq<u8>,
    limit: int,
    m: MatchedPattern,
)
    requires
        scannable(patterns, data),
        key_of.len() == patterns.len(),
        is_grouping(key_of, keys, members),
    ensures
        strided_prefix(patterns, keys, members, data, limit, keys.len() as int).contains(m)
            <==> is_occurrence(patterns, data, m) && 0 <= anchor_pos(patterns, m) < limit
            && occurs_at(key_of[m.pattern_id.0 as int], data, anchor_pos(patterns, m)),
        strided_prefix(patterns, keys, members, data, limit, keys.len() as int).no_duplicates(),
{
    let piece = strided_piece(patterns, keys, members, data, limit);
    let n = keys.len() as int;
    lemma_concat_contains(0, n, piece, m);
    if strided_prefix(patterns, keys, members, data, limit, n).contains(m) {
        let b = choose|b: int| 0 <= b < n && (#[trigger] piece(b)).contains(m);
        lemma_group_ids(patterns, key_of, keys, members, b);
        lemma_bucket_span(patterns, keys[b], members[b], data, 0, limit, m);
        let k = choose|k: int| 0 <= k < members[b].len() && members[b][k] == m.pattern_id.0 as int;
        assert(key_of[members[b][k]] == keys[b]);
    }
    if is_occurrence(patterns, data, m) && 0 <= anchor_pos(patterns, m) < limit && occurs_at(
        key_of[m.pattern_id.0 as int],
        data,
        anchor_pos(patterns, m),
    ) {
        let b = lemma_group_of(key_of, keys, members, m.pattern_id.0 as int);
        assert(members[b].contains(m.pattern_id.0 as int));
        lemma_group_ids(patterns, key_of, keys, members, b);
        lemma_bucket_span(patterns, keys[b], members[b], data, 0, limit, m);
        assert(piece(b).contains(m));
    }
    assert forall|b: int| 0 <= b < n implies (#[trigger] piece(b)).no_duplicates() by {
        lemma_group_ids(patterns, key_of, keys, members, b);
        lemma_bucket_span(patterns, keys[b], members[b], data, 0, limit, m);
    }
    assert forall|a: int, b: int, x: MatchedPattern|
        0 <= a < b < n && #[trigger] piece(a).contains(x) implies !#[trigger] piece(b).contains(
            x,
        ) by {
        lemma_group_ids(patterns, key_of, keys, members, a);
        lemma_group_ids(patterns, key_of, keys, members, b);
        lemma_bucket_span(patterns, keys[a], members[a], data, 0, limit, x);
        lemma_bucket_span(patterns, keys[b], members[b], data, 0, limit, x);
        if piece(b).contains(x) {
            let g = lemma_group_of(key_of, keys, members, x.pattern_id.0 as int);
            assert(members[a].contains(x.pattern_id.0 as int));
            assert(members[b].contains(x.pattern_id.0 as int));
        }
    }
    lemma_concat_no_duplicates(0, n, piece);
}

/// What all buckets yield at one position holds `m` exactly when `m` records
/// a pattern that lies around the position, at which the pattern's key
/// stands; and it holds nothing twice.
pub proof fn lemma_position(
    patterns: Seq<CompiledPattern>,
    key_of: Seq<Seq<u8>>,
    keys: Seq<Seq<u8>>,
    members: Seq<Seq<int>>,
    data: Seq<u8>,
    pos: int,
    m: MatchedPattern,
)
    requires
        scannable(patterns, data),
        key_of.len() == patterns.len(),
        is_grouping(key_of, keys, members),
    ensures
        position_prefix(patterns, keys, members, data, pos, keys.len() as int).contains(m)
            <==> is_occurrence(patterns, data, m) && anchor_pos(patterns, m) == pos && occurs_at(
            key_of[m.pattern_id.0 as int],
            data,
            pos,
        ),
        position_prefix(patterns, keys, members, data, pos, keys.len() as int).no_duplicates(),
{
    let piece = position_piece(patterns, keys, members, data, pos);
    let n = keys.len() as int;
    lemma_concat_contains(0, n, piece, m);
    if position_prefix(patterns, keys, members, data, pos, n).contains(m) {
        let b = choose|b: int| 0 <= b < n && (#[trigger] piece(b)).contains(m);
        lemma_group_ids(patterns, key_of, keys, members, b);
        lemma_group_at(patterns, members[b], data, pos, m);
        let k = choose|k: int| 0 <= k < members[b].len() && members[b][k] == m.pattern_id.0 as int;
        assert(key_of[members[b][k]] == keys[b]);
    }
    if is_occurrence(patterns, data, m) && anchor_pos(patterns, m) == pos && occurs_at(
        key_of[m.pattern_id.0 as int],
        data,
        pos,
    ) {
        let b = lemma_group_of(key_of, keys, members, m.pattern_id.0 as int);
        assert(members[b].contains(m.pattern_id.0 as int));
        lemma_group_ids(patterns, key_of, keys, members, b);
        lemma_group_at(patterns, members[b], data, pos, m);
        assert(piece(b).contains(m));
    }
    assert forall|b: int| 0 <= b < n implies (#[trigger] piece(b)).no_duplicates() by {
        lemma_group_ids(patterns, key_of, keys, members, b);
        lemma_group_at(patterns, members[b], data, pos, m);
    }
    assert forall|a: int, b: int, x: MatchedPattern|
        0 <= a < b < n && #[trigger] piece(a).contains(x) implies !#[trigger] piece(b).contains(
            x,
        ) by {
        lemma_group_ids(patterns, key_of, keys, members, a);
        lemma_group_ids(patterns, key_of, keys, members, b);
        lemma_group_at(patterns, members[a], data, pos, x);
        lemma_group_at(patterns, members[b], data, pos, x);
        if piece(b).contains(x) {
            let g = lemma_group_of(key_of, keys, members, x.pattern_id.0 as int);
            assert(members[a].contains(x.pattern_id.0 as int));
            assert(members[b].contains(x.pattern_id.0 as int));
        }
    }
    lemma_concat_no_duplicates(0, n, piece);
}

/// The walk over a range of positions holds `m` exactly when `m` records a
/// pattern that lies around a position of the range at which the pattern's
/// key stands; and it holds nothing twice.
pub proof fn lemma_walk(
    patterns: Seq<CompiledPattern>,
    key_of: Seq<Seq<u8>>,
    keys: Seq<Seq<u8>>,
    members: Seq<Seq<int>>,
    data: Seq<u8>,
    lo: int,
    hi: int,
    m: MatchedPattern,
)
    requires
        scannable(patterns, data),
        key_of.len() == patterns.len(),
        is_grouping(key_of, keys, members),
    ensures
        walk_span(patterns, keys, members, data, lo, hi).contains(m) <==> is_occurrence(
            patterns,
            data,
            m,
        ) && lo <= anchor_pos(patterns, m) < hi && occurs_at(
            key_of[m.pattern_id.0 as int],
            data,
            anchor_pos(patterns, m),
        ),
        walk_span(patterns, keys, members, data, lo, hi).no_duplicates(),
{
    let piece = walk_piece(patterns, keys, members, data);
    lemma_concat_contains(lo, hi, piece, m);
    if walk_span(patterns, keys, members, data, lo, hi).contains(m) {
        let pos = choose|pos: int| lo <= pos < hi && (#[trigger] piece(pos)).contains(m);
        lemma_position(patterns, key_of, keys, members, data, pos, m);
    }
    if is_occurrence(patterns, data, m) && lo <= anchor_pos(patterns, m) < hi && occurs_at(
        key_of[m.pattern_id.0 as int],
        data,
        anchor_pos(patterns, m),
    ) {
        let pos = anchor_pos(patterns, m);
        lemma_position(patterns, key_of, keys, members, data, pos, m);
        assert(piece(pos).contains(m));
    }
    assert forall|pos: int| lo <= pos < hi implies (#[trigger] piece(pos)).no_duplicates() by {
        lemma_position(patterns, key_of, keys, members, data, pos, m);
    }
    assert forall|i: int, j: int, x: MatchedPattern|
        lo <= i < j < hi && #[trigger] piece(i).contains(x) implies !#[trigger] piece(j).contains(
            x,
        ) by {
        lemma_position(patterns, key_of, keys, members, data, i, x);
        lemma_position(patterns, key_of, keys, members, data, j, x);
    }
    lemma_concat_no_duplicates(lo, hi, piece);
}

/// Whether `order` holds the record of every place where one of the
/// patterns lies in `data`, each once, and nothing else.
pub open spec fn reports_exactly(
    patterns: Seq<CompiledPattern>,
    data: Seq<u8>,
    order: Seq<MatchedPattern>,
) -> bool {
    &&& forall|m: MatchedPattern| #[trigger] order.contains(m) <==> is_occurrence(patterns, data, m)
    &&& order.no_duplicates()
}

/// Whether each record of `trace` is a place where the recorded pattern
/// lies: the range has the pattern's length and the buffer agrees with the
/// pattern on the masked bits of each byte.
pub open spec fn sound(
    patterns: Seq<CompiledPattern>,
    data: Seq<u8>,
    trace: Seq<MatchedPattern>,
) -> bool {
    forall|i: int| 0 <= i < trace.len() ==> is_occurrence(patterns, data, #[trigger] trace[i])
}

/// Whether `trace` has a record for each place where a pattern lies.
pub open spec fn complete(
    patterns: Seq<CompiledPattern>,
    data: Seq<u8>,
    trace: Seq<MatchedPattern>,
) -> bool {
    forall|id: int, start: int|
        0 <= id < patterns.len() && #[trigger] fits(patterns[id], data, start) ==> trace.contains(
            record(id, patterns[id], start),
        )
}

/// The anchor of a pattern that lies in the buffer begins within the buffer.
pub proof fn lemma_anchor_pos_in_buffer(
    patterns: Seq<CompiledPattern>,
    data: Seq<u8>,
    m: MatchedPattern,
)
    requires
        scannable(patterns, data),
        is_occurrence(patterns, data, m),
    ensures
        0 <= anchor_pos(patterns, m) < data.len(),
{
    lemma_anchor_nonempty(patterns[m.pattern_id.0 as int]);
}

/// The fingerprint engine reports, on a buffer long enough for one step,
/// the occurrences of its patterns, each once.
pub proof fn lemma_fingerprint_engine(
    patterns: Seq<CompiledPattern>,
    keys: Seq<Seq<u8>>,
    members: Seq<Seq<int>>,
    lanes: int,
    data: Seq<u8>,
)
    requires
        scannable(patterns, data),
        is_grouping(fingerprints_of(patterns), keys, members),
        lanes == 16 || lanes == 32,
        data.len() >= lanes + 2,
    ensures
        reports_exactly(patterns, data, fingerprint_order(patterns, keys, members, lanes, data)),
{
    let key_of = fingerprints_of(patterns);
    let n = data.len() as int;
    let limit = vector_limit(n, lanes);
    let strided = strided_prefix(patterns, keys, members, data, limit, keys.len() as int);
    let walk = walk_span(patterns, keys, members, data, limit, n);
    let order = strided + walk;
    assert forall|m: MatchedPattern| #[trigger] order.contains(m) <==> is_occurrence(
        patterns,
        data,
        m,
    ) by {
        lemma_strided(patterns, key_of, keys, members, data, limit, m);
        lemma_walk(patterns, key_of, keys, members, data, limit, n, m);
        lemma_append_contains(strided, walk, m);
        if is_occurrence(patterns, data, m) {
            let p = patterns[m.pattern_id.0 as int];
            lemma_fingerprint_stands(p, data, m.start as int);
            lemma_anchor_pos_in_buffer(patterns, data, m);
        }
    }
    assert(order.no_duplicates()) by {
        let some = record(0, patterns[0], 0);
        lemma_strided(patterns, key_of, keys, members, data, limit, some);
        lemma_walk(patterns, key_of, keys, members, data, limit, n, some);
        assert forall|i: int, j: int| 0 <= i < strided.len() && 0 <= j < walk.len() implies strided[i]
            != walk[j] by {
            let x = strided[i];
            assert(strided.contains(x));
            lemma_strided(patterns, key_of, keys, members, data, limit, x);
            lemma_walk(patterns, key_of, keys, members, data, limit, n, x);
            if walk[j] == x {
                assert(walk.contains(x));
            }
        }
        vstd::seq_lib::lemma_no_dup_in_concat(strided, walk);
    }
}

/// An element is in `a + b` exactly when it is in `a` or in `b`.
pub proof fn lemma_append_contains<T>(a: Seq<T>, b: Seq<T>, x: T)
    ensures
        (a + b).contains(x) <==> a.contains(x) || b.contains(x),
{
    if (a + b).contains(x) {
        let k = choose|k: int| 0 <= k < (a + b).len() && (a + b)[k] == x;
        if k < a.len() {
            assert(a[k] == x);
        } else {
            assert(b[k - a.len()] == x);
        }
    }
    if a.contains(x) {
        let k = choose|k: int| 0 <= k < a.len() && a[k] == x;
        assert((a + b)[k] == x);
    }
    if b.contains(x) {
        let k = choose|k: int| 0 <= k < b.len() && b[k] == x;
        assert((a + b)[a.len() + k] == x);
    }
}

/// In a grouping, at most one group has the empty key, and the literals are
/// the keys of the other groups: none of them is empty, and each stands for
/// a group.
pub proof fn lemma_literals(key_of: Seq<Seq<u8>>, keys: Seq<Seq<u8>>, members: Seq<Seq<int>>)
    requires
        is_grouping(key_of, keys, members),
    ensures
        forall|e: int| #[trigger] empty_at(keys, e) ==> open_group(keys) == Some(e),
        forall|l: int|
            0 <= l < literals_of(keys).len() ==> (#[trigger] literals_of(keys)[l]).len() > 0,
        forall|l: int|
            0 <= l < literals_of(keys).len() ==> 0 <= #[trigger] group_of_literal(
                open_group(keys),
                l,
            ) < keys.len(),
        literal_members(keys, members).len() == literals_of(keys).len(),
{
    assert forall|e: int| #[trigger] empty_at(keys, e) implies open_group(keys) == Some(e) by {
        let f = choose|f: int| empty_at(keys, f);
        assert(keys[f] =~= keys[e]);
        if f < e {
            assert(keys[f] != keys[e]);
        } else if e < f {
            assert(keys[e] != keys[f]);
        }
    }
    assert forall|l: int| 0 <= l < literals_of(keys).len() implies (#[trigger] literals_of(
        keys,
    )[l]).len() > 0 by {
        let g = group_of_literal(open_group(keys), l);
        if keys[g].len() == 0 {
            assert(empty_at(keys, g));
        }
    }
}

/// The automaton engine reports the occurrences of its patterns, each once,
/// whatever the order in which the automaton yields its hits.
pub proof fn lemma_automaton_engine(
    patterns: Seq<CompiledPattern>,
    keys: Seq<Seq<u8>>,
    members: Seq<Seq<int>>,
    hits: Seq<(usize, usize)>,
    data: Seq<u8>,
)
    requires
        scannable(patterns, data),
        is_grouping(search_keys(patterns), keys, members),
        every_occurrence_once(literals_of(keys), data, hits),
    ensures
        reports_exactly(patterns, data, automaton_order(patterns, keys, members, hits, data)),
{
    let key_of = search_keys(patterns);
    let open = open_group(keys);
    let candidates = literal_members(keys, members);
    let piece = hits_piece(patterns, candidates, hits, data);
    let n = hits.len() as int;
    let found = hits_prefix(patterns, candidates, hits, data, n);
    let open_ids = open_members(keys, members);
    let rest = bucket_span(patterns, Seq::<u8>::empty(), open_ids, data, 0, data.len() as int);
    lemma_literals(key_of, keys, members);
    assert forall|h: int| 0 <= h < n implies distinct_ids(
        patterns,
        #[trigger] candidates[hits[h].0 as int],
    ) by {
        lemma_group_ids(patterns, key_of, keys, members, group_of_literal(open, hits[h].0 as int));
    }
    assert(distinct_ids(patterns, open_ids)) by {
        if open is Some {
            lemma_group_ids(patterns, key_of, keys, members, open->0);
        }
    }
    assert forall|m: MatchedPattern| #[trigger] found.contains(m) <==> is_occurrence(
        patterns,
        data,
        m,
    ) && has_full_byte(patterns[m.pattern_id.0 as int].masks) by {
        lemma_concat_contains(0, n, piece, m);
        if found.contains(m) {
            let h = choose|h: int| 0 <= h < n && (#[trigger] piece(h)).contains(m);
            let g = group_of_literal(open, hits[h].0 as int);
            lemma_group_ids(patterns, key_of, keys, members, g);
            lemma_group_at(patterns, members[g], data, hits[h].1 as int, m);
            let k = choose|k: int|
                0 <= k < members[g].len() && members[g][k] == m.pattern_id.0 as int;
            assert(key_of[members[g][k]] == keys[g]);
            assert(literals_of(keys)[hits[h].0 as int].len() > 0);
        }
        if is_occurrence(patterns, data, m) && has_full_byte(patterns[m.pattern_id.0 as int].masks) {
            let id = m.pattern_id.0 as int;
            let pos = anchor_pos(patterns, m);
            lemma_search_key_stands(patterns[id], data, m.start as int);
            lemma_anchor_nonempty(patterns[id]);
            let g = lemma_group_of(key_of, keys, members, id);
            lemma_group_count(key_of, keys, members, g);
            let l = if open is Some && g > open->0 {
                g - 1
            } else {
                g
            };
            if open is Some && g == open->0 {
                assert(empty_at(keys, g));
            }
            assert(group_of_literal(open, l) == g);
            assert(literals_of(keys)[l] == keys[g]);
            assert(occurs_at(literals_of(keys)[l], data, pos));
            assert(hits.contains((l as usize, pos as usize)));
            let h = choose|h: int| 0 <= h < n && hits[h] == (l as usize, pos as usize);
            assert(members[g].contains(id));
            lemma_group_ids(patterns, key_of, keys, members, g);
            lemma_group_at(patterns, members[g], data, pos, m);
            assert(piece(h).contains(m));
        }
    }
    assert forall|m: MatchedPattern| #[trigger] rest.contains(m) <==> is_occurrence(
        patterns,
        data,
        m,
    ) && !has_full_byte(patterns[m.pattern_id.0 as int].masks) by {
        lemma_bucket_span(patterns, Seq::<u8>::empty(), open_ids, data, 0, data.len() as int, m);
        if rest.contains(m) {
            let e = open->0;
            let k = choose|k: int|
                0 <= k < members[e].len() && members[e][k] == m.pattern_id.0 as int;
            assert(key_of[members[e][k]] == keys[e]);
            lemma_anchor_nonempty(patterns[m.pattern_id.0 as int]);
        }
        if is_occurrence(patterns, data, m) && !has_full_byte(patterns[m.pattern_id.0 as int].masks) {
            let id = m.pattern_id.0 as int;
            lemma_search_key_stands(patterns[id], data, m.start as int);
            let g = lemma_group_of(key_of, keys, members, id);
            assert(empty_at(keys, g));
            assert(members[g].contains(id));
        }
    }
    assert(found.no_duplicates()) by {
        assert forall|h: int| 0 <= h < n implies (#[trigger] piece(h)).no_duplicates() by {
            let g = group_of_literal(open, hits[h].0 as int);
            lemma_group_ids(patterns, key_of, keys, members, g);
            lemma_group_at(patterns, members[g], data, hits[h].1 as int, record(0, patterns[0], 0));
        }
        assert forall|a: int, b: int, x: MatchedPattern|
            0 <= a < b < n && #[trigger] piece(a).contains(x) implies !#[trigger] piece(b).contains(
                x,
            ) by {
            let ga = group_of_literal(open, hits[a].0 as int);
            let gb = group_of_literal(open, hits[b].0 as int);
            lemma_group_ids(patterns, key_of, keys, members, ga);
            lemma_group_ids(patterns, key_of, keys, members, gb);
            lemma_group_at(patterns, members[ga], data, hits[a].1 as int, x);
            lemma_group_at(patterns, members[gb], data, hits[b].1 as int, x);
            if piece(b).contains(x) {
                let g = lemma_group_of(key_of, keys, members, x.pattern_id.0 as int);
                assert(members[ga].contains(x.pattern_id.0 as int));
                assert(members[gb].contains(x.pattern_id.0 as int));
                assert(hits[a].0 == hits[b].0);
                assert(hits[a] == hits[b]);
            }
        }
        lemma_concat_no_duplicates(0, n, piece);
    }
    let order = found + rest;
    assert forall|m: MatchedPattern| #[trigger] order.contains(m) <==> is_occurrence(
        patterns,
        data,
        m,
    ) by {
        lemma_append_contains(found, rest, m);
        assert(found.contains(m) <==> is_occurrence(patterns, data, m) && has_full_byte(
            patterns[m.pattern_id.0 as int].masks,
        ));
        assert(rest.contains(m) <==> is_occurrence(patterns, data, m) && !has_full_byte(
            patterns[m.pattern_id.0 as int].masks,
        ));
    }
    lemma_bucket_span(
        patterns,
        Seq::<u8>::empty(),
        open_ids,
        data,
        0,
        data.len() as int,
        record(0, patterns[0], 0),
    );
    assert forall|i: int, j: int| 0 <= i < found.len() && 0 <= j < rest.len() implies found[i]
        != rest[j] by {
        assert(found.contains(found[i]));
        assert(rest.contains(rest[j]));
    }
    vstd::seq_lib::lemma_no_dup_in_concat(found, rest);
}

/// Two sequences that hold the same elements, each once, are the same
/// multiset.
pub proof fn lemma_same_multiset<T>(a: Seq<T>, b: Seq<T>)
    requires
        a.no_duplicates(),
        b.no_duplicates(),
        forall|x: T| #[trigger] a.contains(x) <==> b.contains(x),
    ensures
        a.to_multiset() == b.to_multiset(),
{
    a.to_multiset_ensures();
    b.to_multiset_ensures();
    a.lemma_multiset_has_no_duplicates();
    b.lemma_multiset_has_no_duplicates();
    assert forall|x: T| a.to_multiset().count(x) == b.to_multiset().count(x) by {
        assert(a.contains(x) <==> b.contains(x));
        assert(a.to_multiset().contains(x) <==> a.to_multiset().count(x) > 0);
        assert(b.to_multiset().contains(x) <==> b.to_multiset().count(x) > 0);
    }
    assert(a.to_multiset() =~= b.to_multiset());
}

/// Engine equivalence: for the same patterns and the same buffer, the
/// fingerprint engine and the automaton engine report the same multiset of
/// records.
pub proof fn law_engines_agree(
    patterns: Seq<CompiledPattern>,
    fingerprints: Seq<Seq<u8>>,
    buckets: Seq<Seq<int>>,
    lanes: int,
    keys: Seq<Seq<u8>>,
    groups: Seq<Seq<int>>,
    hits: Seq<(usize, usize)>,
    data: Seq<u8>,
)
    requires
        scannable(patterns, data),
        is_grouping(fingerprints_of(patterns), fingerprints, buckets),
        is_grouping(search_keys(patterns), keys, groups),
        every_occurrence_once(literals_of(keys), data, hits),
        lanes == 16 || lanes == 32,
        data.len() >= lanes + 2,
    ensures
        fingerprint_order(patterns, fingerprints, buckets, lanes, data).to_multiset()
            == automaton_order(patterns, keys, groups, hits, data).to_multiset(),
{
    let a = fingerprint_order(patterns, fingerprints, buckets, lanes, data);
    let b = automaton_order(patterns, keys, groups, hits, data);
    lemma_fingerprint_engine(patterns, fingerprints, buckets, lanes, data);
    lemma_automaton_engine(patterns, keys, groups, hits, data);
    assert forall|x: MatchedPattern| #[trigger] a.contains(x) <==> b.contains(x) by {
        assert(a.contains(x) <==> is_occurrence(patterns, data, x));
        assert(b.contains(x) <==> is_occurrence(patterns, data, x));
    }
    lemma_same_multiset(a, b);
}

/// Engine equivalence, for buffers of any length: a fingerprint engine and an
/// automaton engine for the same patterns report the same multiset of
/// records on the same buffer.
pub proof fn law_scanners_agree(teddy: Teddy, anchor: Anchor, data: Seq<u8>)
    requires
        scannable(anchor.patterns(), data),
        teddy.patterns() == anchor.patterns(),
        teddy.fallback().patterns() == anchor.patterns(),
        teddy.lanes() == 16 || teddy.lanes() == 32,
        is_grouping(fingerprints_of(anchor.patterns()), teddy.fingerprints(), teddy.buckets()),
        is_grouping(
            search_keys(anchor.patterns()),
            teddy.fallback().keys(),
            teddy.fallback().groups(),
        ),
        is_grouping(search_keys(anchor.patterns()), anchor.keys(), anchor.groups()),
        every_occurrence_once(
            anchor.literals(),
            data,
            overlapping_hits(anchor.literals(), data),
        ),
    ensures
        teddy.matches(data).to_multiset() == anchor.matches(data).to_multiset(),
{
    let ps = anchor.patterns();
    law_grouping_unique(
        search_keys(ps),
        anchor.keys(),
        anchor.groups(),
        teddy.fallback().keys(),
        teddy.fallback().groups(),
    );
    if data.len() >= teddy.lanes() + 2 {
        law_engines_agree(
            ps,
            teddy.fingerprints(),
            teddy.buckets(),
            teddy.lanes(),
            anchor.keys(),
            anchor.groups(),
            overlapping_hits(anchor.literals(), data),
            data,
        );
    }
}

/// Soundness: whatever a scan hands to the sink is a place where the
/// recorded pattern lies.
pub proof fn law_sound<F: FnMut(MatchedPattern) -> Scan>(
    sink: F,
    patterns: Seq<CompiledPattern>,
    data: Seq<u8>,
    order: Seq<MatchedPattern>,
    trace: Seq<MatchedPattern>,
)
    requires
        reports_exactly(patterns, data, order),
        scanned(sink, order, trace),
    ensures
        sound(patterns, data, trace),
{
    assert forall|i: int| 0 <= i < trace.len() implies is_occurrence(
        patterns,
        data,
        #[trigger] trace[i],
    ) by {
        assert(trace[i] == order[i]);
        assert(order.contains(trace[i]));
    }
}

/// Within the buffer: every record that a scan hands to the sink covers a
/// nonempty range of the buffer.
pub proof fn law_within_buffer(
    patterns: Seq<CompiledPattern>,
    data: Seq<u8>,
    trace: Seq<MatchedPattern>,
)
    requires
        scannable(patterns, data),
        sound(patterns, data, trace),
    ensures
        forall|i: int|
            0 <= i < trace.len() ==> 0 <= (#[trigger] trace[i]).start < trace[i].end <= data.len(),
{
    assert forall|i: int| 0 <= i < trace.len() implies 0 <= (#[trigger] trace[i]).start
        < trace[i].end <= data.len() by {
        assert(is_occurrence(patterns, data, trace[i]));
        assert(well_formed(patterns[trace[i].pattern_id.0 as int]));
    }
}

/// Completeness: a scan that the sink did not cut short has handed it a
/// record for each place where a pattern lies.
pub proof fn law_complete<F: FnMut(MatchedPattern) -> Scan>(
    sink: F,
    patterns: Seq<CompiledPattern>,
    data: Seq<u8>,
    order: Seq<MatchedPattern>,
    trace: Seq<MatchedPattern>,
)
    requires
        scannable(patterns, data),
        reports_exactly(patterns, data, order),
        scanned(sink, order, trace),
        trace.len() == order.len(),
    ensures
        complete(patterns, data, trace),
{
    assert(trace =~= order);
    assert forall|id: int, start: int|
        0 <= id < patterns.len() && #[trigger] fits(patterns[id], data, start) implies trace.contains(
        record(id, patterns[id], start),
    ) by {
        let m = record(id, patterns[id], start);
        assert(is_occurrence(patterns, data, m));
    }
}

/// Scanning again: two scans of the same buffer that were not cut short hand
/// the same multiset of records to their sinks.
pub proof fn law_rescan<F: FnMut(MatchedPattern) -> Scan, G: FnMut(MatchedPattern) -> Scan>(
    first_sink: F,
    second_sink: G,
    order: Seq<MatchedPattern>,
    first: Seq<MatchedPattern>,
    second: Seq<MatchedPattern>,
)
    requires
        scanned(first_sink, order, first),
        scanned(second_sink, order, second),
        first.len() == order.len(),
        second.len() == order.len(),
    ensures
        first.to_multiset() == second.to_multiset(),
{
    assert(first =~= order);
    assert(second =~= order);
}

/// The tail: on a buffer long enough for one step, the walk that follows the
/// strided phase reports each occurrence whose anchor begins at or after the
/// phase's limit, and the limit leaves at least the last two positions of the
/// buffer to the walk. With the strided phase, no position is left out.
pub proof fn law_tail(
    patterns: Seq<CompiledPattern>,
    keys: Seq<Seq<u8>>,
    members: Seq<Seq<int>>,
    lanes: int,
    data: Seq<u8>,
    m: MatchedPattern,
)
    requires
        scannable(patterns, data),
        is_grouping(fingerprints_of(patterns), keys, members),
        lanes == 16 || lanes == 32,
        data.len() >= lanes + 2,
        is_occurrence(patterns, data, m),
    ensures
        lanes <= vector_limit(data.len() as int, lanes) <= data.len() - 2,
        data.len() - vector_limit(data.len() as int, lanes) <= lanes + 1,
        anchor_pos(patterns, m) >= vector_limit(data.len() as int, lanes) ==> walk_span(
            patterns,
            keys,
            members,
            data,
            vector_limit(data.len() as int, lanes),
            data.len() as int,
        ).contains(m),
        fingerprint_order(patterns, keys, members, lanes, data).contains(m),
{
    let n = data.len() as int;
    let limit = vector_limit(n, lanes);
    lemma_anchor_pos_in_buffer(patterns, data, m);
    lemma_fingerprint_stands(patterns[m.pattern_id.0 as int], data, m.start as int);
    lemma_walk(patterns, fingerprints_of(patterns), keys, members, data, limit, n, m);
    lemma_fingerprint_engine(patterns, keys, members, lanes, data);
    lemma_vector_limit(n, lanes);
}

/// Whether `order` holds the record of every place where a pattern lies with
/// its anchor at or after `from`, each once, and nothing else.
pub open spec fn walks_exactly(
    patterns: Seq<CompiledPattern>,
    data: Seq<u8>,
    from: int,
    order: Seq<MatchedPattern>,
) -> bool {
    &&& forall|m: MatchedPattern| #[trigger]
        order.contains(m) <==> is_occurrence(patterns, data, m) && anchor_pos(patterns, m) >= from
    &&& order.no_duplicates()
}

/// The walk from `from` to the end of the buffer reports every place where a
/// pattern lies with its anchor at or after `from`, each once: nothing is
/// left out, whether or not the pattern has a fully specified byte.
pub proof fn law_walk(
    patterns: Seq<CompiledPattern>,
    keys: Seq<Seq<u8>>,
    members: Seq<Seq<int>>,
    data: Seq<u8>,
    from: int,
)
    requires
        scannable(patterns, data),
        is_grouping(fingerprints_of(patterns), keys, members),
    ensures
        walks_exactly(
            patterns,
            data,
            from,
            walk_span(patterns, keys, members, data, from, data.len() as int),
        ),
{
    let order = walk_span(patterns, keys, members, data, from, data.len() as int);
    let key_of = fingerprints_of(patterns);
    assert forall|m: MatchedPattern| #[trigger]
        order.contains(m) <==> is_occurrence(patterns, data, m) && anchor_pos(patterns, m)
            >= from by {
        lemma_walk(patterns, key_of, keys, members, data, from, data.len() as int, m);
        if is_occurrence(patterns, data, m) {
            lemma_fingerprint_stands(patterns[m.pattern_id.0 as int], data, m.start as int);
            lemma_anchor_pos_in_buffer(patterns, data, m);
        }
    }
    lemma_walk(
        patterns,
        key_of,
        keys,
        members,
        data,
        from,
        data.len() as int,
        record(0, patterns[0], 0),
    );
}

/// The limit of the strided phase is a multiple of the stride, leaves the
/// last two positions out and at most one stride and one position to the
/// walk.
pub proof fn lemma_vector_limit(n: int, lanes: int)
    requires
        lanes == 16 || lanes == 32,
        n >= lanes + 2,
    ensures
        lanes <= vector_limit(n, lanes) <= n - 2,
        n - vector_limit(n, lanes) <= lanes + 1,
        stride_aligned(vector_limit(n, lanes), lanes),
{
    if lanes == 16 {
        let safe = n - 18;
        assert(vector_limit(n, lanes) == safe - safe % 16 + 16);
        assert(0 <= safe % 16 < 16);
        assert((safe - safe % 16 + 16) % 16 == 0);
    } else {
        let safe = n - 34;
        assert(vector_limit(n, lanes) == safe - safe % 32 + 32);
        assert(0 <= safe % 32 < 32);
        assert((safe - safe % 32 + 32) % 32 == 0);
    }
}

/// On an empty buffer an engine reports nothing.
pub proof fn law_empty_buffer(patterns: Seq<CompiledPattern>, order: Seq<MatchedPattern>)
    requires
        scannable(patterns, Seq::<u8>::empty()),
        reports_exactly(patterns, Seq::<u8>::empty(), order),
    ensures
        order.len() == 0,
{
    if order.len() > 0 {
        assert(order.contains(order[0]));
        assert(is_occurrence(patterns, Seq::<u8>::empty(), order[0]));
    }
}

/// A pattern that is longer than the buffer is not reported.
pub proof fn law_longer_than_buffer(
    patterns: Seq<CompiledPattern>,
    data: Seq<u8>,
    order: Seq<MatchedPattern>,
    m: MatchedPattern,
)
    requires
        reports_exactly(patterns, data, order),
        order.contains(m),
    ensures
        patterns[m.pattern_id.0 as int].values.len() <= data.len(),
{
}

/// A pattern that is as long as the buffer is reported at the start of the
/// buffer or not at all.
pub proof fn lemma_as_long_as_buffer(
    patterns: Seq<CompiledPattern>,
    data: Seq<u8>,
    order: Seq<MatchedPattern>,
    id: int,
)
    requires
        scannable(patterns, data),
        reports_exactly(patterns, data, order),
        0 <= id < patterns.len(),
        patterns[id].values.len() == data.len(),
    ensures
        forall|m: MatchedPattern|
            #[trigger] order.contains(m) && m.pattern_id.0 == id ==> m == record(
                id,
                patterns[id],
                0,
            ),
{
    assert forall|m: MatchedPattern| #[trigger] order.contains(m) && m.pattern_id.0 == id implies m
        == record(id, patterns[id], 0) by {
        assert(is_occurrence(patterns, data, m));
    }
}

/// A fully specified pattern lies where its bytes stand.
pub proof fn lemma_full_pattern_fits(p: CompiledPattern, data: Seq<u8>, start: int)
    requires
        well_formed(p),
        forall|k: int| 0 <= k < p.masks.len() ==> p.masks[k] == 0xFFu8,
        occurs_at(p.values, data, start),
    ensures
        fits(p, data, start),
{
    assert forall|k: int| 0 <= k < p.values.len() implies data[start + k] & p.masks[k]
        == p.values[k] by {
        let x = data[start + k];
        assert(x & 0xFFu8 == x) by (bit_vector);
    }
}

/// A fully specified pattern whose bytes are the whole buffer is reported
/// once: at the start of the buffer.
pub proof fn law_whole_buffer(
    patterns: Seq<CompiledPattern>,
    data: Seq<u8>,
    order: Seq<MatchedPattern>,
    id: int,
)
    requires
        scannable(patterns, data),
        reports_exactly(patterns, data, order),
        0 <= id < patterns.len(),
        patterns[id].values == data,
        forall|k: int| 0 <= k < patterns[id].masks.len() ==> patterns[id].masks[k] == 0xFFu8,
    ensures
        order.contains(record(id, patterns[id], 0)),
        forall|m: MatchedPattern|
            #[trigger] order.contains(m) && m.pattern_id.0 == id ==> m == record(
                id,
                patterns[id],
                0,
            ),
{
    let p = patterns[id];
    assert(well_formed(p));
    lemma_as_long_as_buffer(patterns, data, order, id);
    assert(order.contains(record(id, p, 0))) by {
        lemma_full_pattern_fits(p, data, 0);
        assert(is_occurrence(patterns, data, record(id, p, 0)));
    }
}

/// A pattern of wildcards only is reported at every position that leaves
/// room for it.
pub proof fn law_wildcards(
    patterns: Seq<CompiledPattern>,
    data: Seq<u8>,
    order: Seq<MatchedPattern>,
    id: int,
    start: int,
)
    requires
        scannable(patterns, data),
        reports_exactly(patterns, data, order),
        0 <= id < patterns.len(),
        forall|k: int| 0 <= k < patterns[id].masks.len() ==> patterns[id].masks[k] == 0x00u8,
        forall|k: int| 0 <= k < patterns[id].values.len() ==> patterns[id].values[k] == 0x00u8,
        0 <= start <= data.len() - patterns[id].values.len(),
    ensures
        order.contains(record(id, patterns[id], start)),
{
    let p = patterns[id];
    assert(well_formed(p));
    assert(fits(p, data, start)) by {
        assert forall|k: int| 0 <= k < p.values.len() implies data[start + k] & p.masks[k]
            == p.values[k] by {
            let x = data[start + k];
            assert(x & 0x00u8 == 0x00u8) by (bit_vector);
        }
    }
    let m = record(id, p, start);
    assert(is_occurrence(patterns, data, m));
}

} // verus!
