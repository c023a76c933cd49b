//! The table of compiled patterns and the verifier, which tests a candidate
//! byte by byte.

use crate::engine::common::{
    anchor_bytes, anchor_offset, compile, find_best_anchor, full_run, has_full_byte,
    parse_hex_pattern,
    CompiledPattern, PatternError, PatternInfo,
};
use crate::engine::matching::{
    fits, group_at, group_piece, group_prefix, is_occurrence, match_at, record, well_formed,
};
use crate::engine::sequence::{lemma_concat_prefix, lemma_concat_step};
use crate::engine::{delivered, lemma_delivered_stopped, lemma_delivered_then, sink_ready};
use crate::engine::{MatchedPattern, Scan};
use crate::pattern::PatternId;
use vstd::prelude::*;

verus! {

/// The compiled patterns of an engine, stored end to end in two parallel
/// arrays: the required bytes and their masks.
pub struct PatternTable {
    all_values: Vec<u8>,
    all_masks: Vec<u8>,
    patterns: Ghost<Seq<CompiledPattern>>,
}

/// The strings of a list of patterns, as sequences of characters.
pub open spec fn sources(patterns: Seq<&str>) -> Seq<Seq<char>> {
    Seq::new(patterns.len(), |i: int| patterns[i]@)
}

/// What a list of pattern strings compiles to: the compiled patterns in the
/// order given, or the error of the first string that does not compile.
pub open spec fn compile_all(sources: Seq<Seq<char>>) -> Result<Seq<CompiledPattern>, PatternError>
    decreases sources.len(),
{
    if sources.len() == 0 {
        Ok(Seq::empty())
    } else {
        match compile_all(sources.drop_last()) {
            Err(e) => Err(e),
            Ok(before) => match compile(sources.last()) {
                Err(e) => Err(e),
                Ok(p) => Ok(before.push(p)),
            },
        }
    }
}

/// Where the bytes of pattern `i` begin when the patterns are stored end to
/// end: the total length of the patterns before it.
pub open spec fn offset_of(patterns: Seq<CompiledPattern>, i: int) -> int
    decreases i,
{
    if i <= 0 {
        0
    } else {
        offset_of(patterns, i - 1) + patterns[i - 1].values.len()
    }
}

/// The record of pattern `i`: its identifier, its length, where its bytes
/// begin in the two arrays, and where its anchor begins.
pub open spec fn record_of(patterns: Seq<CompiledPattern>, i: int) -> PatternInfo {
    PatternInfo {
        id: i as usize,
        len: patterns[i].values.len() as usize,
        data_offset: offset_of(patterns, i) as usize,
        anchor_offset: anchor_offset(patterns[i]) as usize,
    }
}

/// Whether the two arrays hold the patterns end to end, in the order of
/// their identifiers, and nothing else.
pub open spec fn filled(values: Seq<u8>, masks: Seq<u8>, patterns: Seq<CompiledPattern>) -> bool {
    &&& values.len() == offset_of(patterns, patterns.len() as int)
    &&& masks.len() == values.len()
    &&& forall|i: int, k: int|
        0 <= i < patterns.len() && 0 <= k < patterns[i].values.len() ==> values[offset_of(
            patterns,
            i,
        ) + k] == #[trigger] patterns[i].values[k]
    &&& forall|i: int, k: int|
        0 <= i < patterns.len() && 0 <= k < patterns[i].masks.len() ==> masks[offset_of(patterns, i)
            + k] == #[trigger] patterns[i].masks[k]
}

/// Whether each record is the record of the pattern whose identifier stands
/// at its place in `ids`.
pub open spec fn records_match(
    records: Seq<Seq<PatternInfo>>,
    ids: Seq<Seq<int>>,
    patterns: Seq<CompiledPattern>,
) -> bool {
    &&& records.len() == ids.len()
    &&& forall|g: int| 0 <= g < records.len() ==> (#[trigger] records[g]).len() == ids[g].len()
    &&& forall|g: int, j: int|
        0 <= g < records.len() && 0 <= j < records[g].len() ==> #[trigger] records[g][j]
            == record_of(patterns, ids[g][j])
}

/// Whether an engine's table and grouped records are those of `patterns`:
/// the arrays hold the patterns end to end, and each record of each group is
/// the table's record of the pattern whose identifier stands at its place.
pub open spec fn stores(
    table: PatternTable,
    records: Seq<Seq<PatternInfo>>,
    ids: Seq<Seq<int>>,
    patterns: Seq<CompiledPattern>,
) -> bool {
    &&& table.patterns() == patterns
    &&& filled(table.values(), table.masks(), patterns)
    &&& records_match(records, ids, patterns)
    &&& forall|g: int| 0 <= g < records.len() ==> table.holds_all(#[trigger] records[g])
}

/// One more pattern at the end moves none of the others.
proof fn lemma_offset_push(patterns: Seq<CompiledPattern>, p: CompiledPattern, i: int)
    requires
        i <= patterns.len(),
    ensures
        offset_of(patterns.push(p), i) == offset_of(patterns, i),
    decreases i,
{
    if i > 0 {
        lemma_offset_push(patterns, p, i - 1);
    }
}

/// A compiled list of patterns: the table and, by identifier, the record of
/// each pattern, its anchor, and whether it has a fully specified byte.
pub struct CompiledSet {
    pub table: PatternTable,
    pub infos: Vec<PatternInfo>,
    pub anchors: Vec<Vec<u8>>,
    /// Whether the pattern has a fully specified byte.
    pub anchored: Vec<bool>,
}

impl CompiledSet {
    /// Whether this is what compiling gives for `patterns`.
    pub open spec fn is_for(&self, patterns: Seq<CompiledPattern>) -> bool {
        &&& self.table.patterns() == patterns
        &&& patterns.len() <= usize::MAX
        &&& self.infos.len() == patterns.len()
        &&& self.anchors.len() == patterns.len()
        &&& self.anchored.len() == patterns.len()
        &&& forall|i: int|
            0 <= i < patterns.len() ==> #[trigger] self.anchored[i] == has_full_byte(
                patterns[i].masks,
            )
        &&& forall|i: int| 0 <= i < patterns.len() ==> well_formed(#[trigger] patterns[i])
        &&& forall|i: int|
            0 <= i < patterns.len() ==> (#[trigger] self.infos[i]).id == i && self.table.holds(
                self.infos[i],
            )
        &&& forall|i: int|
            0 <= i < patterns.len() ==> (#[trigger] self.infos[i]).len == patterns[i].values.len()
                && self.infos[i].data_offset == offset_of(patterns, i)
                && self.infos[i].anchor_offset == anchor_offset(patterns[i])
        &&& forall|i: int| 0 <= i < patterns.len() ==> #[trigger] self.infos[i] == record_of(patterns, i)
        &&& filled(self.table.values(), self.table.masks(), patterns)
        &&& forall|i: int|
            0 <= i < patterns.len() ==> (#[trigger] self.anchors[i])@ == anchor_bytes(patterns[i])
    }
}

/// Whether `info` says where the pattern `info.id` of `patterns` is stored in
/// the two arrays and where its anchor begins.
spec fn stored(
    all_values: Seq<u8>,
    all_masks: Seq<u8>,
    patterns: Seq<CompiledPattern>,
    info: PatternInfo,
) -> bool {
    let p = patterns[info.id as int];
    &&& info.id < patterns.len()
    &&& info.len == p.values.len()
    &&& info.data_offset + info.len <= all_values.len()
    &&& info.data_offset + info.len <= all_masks.len()
    &&& forall|k: int|
        0 <= k < info.len ==> all_values[info.data_offset + k] == #[trigger] p.values[k]
    &&& forall|k: int| 0 <= k < info.len ==> all_masks[info.data_offset + k] == #[trigger] p.masks[k]
    &&& info.anchor_offset == anchor_offset(p)
}

/// Appends the bytes of `src` to `dst`.
fn append_bytes(dst: &mut Vec<u8>, src: &Vec<u8>)
    ensures
        final(dst)@ == old(dst)@ + src@,
{
    let mut k: usize = 0;
    while k < src.len()
        invariant
            k <= src.len(),
            dst@ == old(dst)@ + src@.take(k as int),
        decreases src.len() - k,
    {
        dst.push(src[k]);
        assert(src@.take(k + 1) =~= src@.take(k as int).push(src@[k as int]));
        assert(dst@ =~= old(dst)@ + src@.take(k + 1));
        k += 1;
    }
    assert(src@.take(src@.len() as int) =~= src@);
}

/// Compiles the pattern strings in order into one table. The pattern at
/// position `i` gets the identifier `i`. Fails with the error of the first
/// string that does not compile.
#[verifier::loop_isolation(false)]
pub fn compile_patterns(patterns: &[&str]) -> (res: Result<CompiledSet, PatternError>)
    ensures
        res matches Ok(set) ==> compile_all(sources(patterns@)) matches Ok(ps) && set.is_for(ps),
        res matches Err(e) ==> compile_all(sources(patterns@)) matches Err(f) && e == f,
{
    let ghost srcs = sources(patterns@);
    let mut all_values: Vec<u8> = Vec::new();
    let mut all_masks: Vec<u8> = Vec::new();
    let mut infos: Vec<PatternInfo> = Vec::new();
    let mut anchors: Vec<Vec<u8>> = Vec::new();
    let mut anchored: Vec<bool> = Vec::new();
    let ghost mut done: Seq<CompiledPattern> = Seq::empty();
    let mut i: usize = 0;
    while i < patterns.len()
        invariant
            i <= patterns.len(),
            compile_all(srcs.take(i as int)) == Ok::<Seq<CompiledPattern>, PatternError>(done),
            done.len() == i,
            infos.len() == i,
            anchors.len() == i,
            anchored.len() == i,
            forall|j: int| 0 <= j < i ==> #[trigger] anchored[j] == has_full_byte(done[j].masks),
            all_values.len() == all_masks.len(),
            all_values.len() == offset_of(done, i as int),
            forall|j: int|
                0 <= j < i ==> (#[trigger] infos[j]).len == done[j].values.len()
                    && infos[j].data_offset == offset_of(done, j) && infos[j].anchor_offset
                    == anchor_offset(done[j]),
            forall|j: int| 0 <= j < i ==> well_formed(#[trigger] done[j]),
            forall|j: int|
                0 <= j < i ==> (#[trigger] infos[j]).id == j && stored(
                    all_values@,
                    all_masks@,
                    done,
                    infos[j],
                ),
            forall|j: int| 0 <= j < i ==> (#[trigger] anchors[j])@ == anchor_bytes(done[j]),
        decreases patterns.len() - i,
    {
        proof {
            assert(srcs.take(i + 1).drop_last() =~= srcs.take(i as int));
            assert(srcs.take(i + 1).last() == patterns@[i as int]@);
        }
        let parsed = parse_hex_pattern(patterns[i]);
        let (values, masks) = match parsed {
            Ok(pair) => pair,
            Err(e) => {
                proof {
                    lemma_first_error_stays(srcs, i + 1);
                }
                return Err(e);
            },
        };
        let ghost p = CompiledPattern { values: values@, masks: masks@ };
        assert(p == compile(patterns@[i as int]@)->Ok_0);
        let (anchor, anchor_at) = find_best_anchor(values.as_slice(), masks.as_slice());
        let info = PatternInfo {
            id: i,
            len: values.len(),
            data_offset: all_values.len(),
            anchor_offset: anchor_at,
        };
        let ghost old_values = all_values@;
        let ghost old_masks = all_masks@;
        let ghost old_done = done;
        append_bytes(&mut all_values, &values);
        append_bytes(&mut all_masks, &masks);
        let has_anchor = masks[anchor_at] == 0xFF;
        proof {
            if has_full_byte(masks@) {
                assert(full_run(masks@, anchor_at as int, anchor@.len() as int));
            }
        }
        infos.push(info);
        anchors.push(anchor);
        anchored.push(has_anchor);
        proof {
            done = done.push(p);
            assert forall|j: int| 0 <= j <= i implies offset_of(done, j) == offset_of(old_done, j) by {
                lemma_offset_push(old_done, p, j);
            }
            assert(offset_of(done, i + 1) == offset_of(done, i as int) + p.values.len());
            assert forall|j: int| 0 <= j < i + 1 implies (#[trigger] infos[j]).id == j && stored(
                all_values@,
                all_masks@,
                done,
                infos[j],
            ) by {
                if j < i {
                    assert(stored(old_values, old_masks, old_done, infos[j]));
                    assert(done[infos[j].id as int] == old_done[infos[j].id as int]);
                }
            }
        }
        i += 1;
    }
    assert(srcs.take(i as int) =~= srcs);
    assert(filled(all_values@, all_masks@, done)) by {
        assert forall|j: int, k: int|
            0 <= j < done.len() && 0 <= k < done[j].values.len() implies all_values@[offset_of(
            done,
            j,
        ) + k] == #[trigger] done[j].values[k] by {
            assert(stored(all_values@, all_masks@, done, infos[j]));
        }
        assert forall|j: int, k: int|
            0 <= j < done.len() && 0 <= k < done[j].masks.len() implies all_masks@[offset_of(done, j)
            + k] == #[trigger] done[j].masks[k] by {
            assert(stored(all_values@, all_masks@, done, infos[j]));
        }
    }
    let table = PatternTable { all_values, all_masks, patterns: Ghost(done) };
    Ok(CompiledSet { table, infos, anchors, anchored })
}

/// Once a prefix of the strings fails to compile, the whole list fails with
/// the same error.
proof fn lemma_first_error_stays(srcs: Seq<Seq<char>>, n: int)
    requires
        0 <= n <= srcs.len(),
        compile_all(srcs.take(n)) is Err,
    ensures
        compile_all(srcs) == compile_all(srcs.take(n)),
    decreases srcs.len() - n,
{
    if n < srcs.len() {
        assert(srcs.take(n + 1).drop_last() =~= srcs.take(n));
        lemma_first_error_stays(srcs, n + 1);
    } else {
        assert(srcs.take(n) =~= srcs);
    }
}

/// The identifiers of a list of pattern records.
pub open spec fn ids_of(records: Seq<PatternInfo>) -> Seq<int> {
    Seq::new(records.len(), |j: int| records[j].id as int)
}

impl PatternTable {
    #[verifier::type_invariant]
    spec fn inv(self) -> bool {
        &&& filled(self.all_values@, self.all_masks@, self.patterns@)
        &&& forall|i: int| 0 <= i < self.patterns@.len() ==> well_formed(#[trigger] self.patterns@[i])
    }

    /// The array of the required bytes: those of the patterns, end to end.
    pub closed spec fn values(&self) -> Seq<u8> {
        self.all_values@
    }

    /// The array of the masks, parallel to that of the bytes.
    pub closed spec fn masks(&self) -> Seq<u8> {
        self.all_masks@
    }

    /// The patterns of the table, by identifier.
    pub closed spec fn patterns(&self) -> Seq<CompiledPattern> {
        self.patterns@
    }

    /// Whether `info` is this table's record of the pattern `info.id`: it
    /// says where the pattern is stored and where its anchor begins.
    pub closed spec fn holds(&self, info: PatternInfo) -> bool {
        stored(self.all_values@, self.all_masks@, self.patterns@, info)
    }

    /// Whether all of `records` are records of this table.
    pub open spec fn holds_all(&self, records: Seq<PatternInfo>) -> bool {
        forall|j: int| 0 <= j < records.len() ==> self.holds(#[trigger] records[j])
    }

    /// Verifies one candidate: a place where the anchor of the pattern `pat`
    /// may begin at `anchor_pos`. Where the whole pattern lies around it, the
    /// record goes to the sink, whose answer is returned.
    #[verifier::loop_isolation(false)]
    pub fn verify_match<F: FnMut(MatchedPattern) -> Scan>(
        &self,
        data: &[u8],
        anchor_pos: usize,
        pat: &PatternInfo,
        on_match: &mut F,
    ) -> (r: (Scan, Ghost<Seq<MatchedPattern>>))
        requires
            self.holds(*pat),
            sink_ready(*old(on_match), self.patterns(), data@),
        ensures
            *final(on_match) == *old(on_match),
            delivered(
                *old(on_match),
                match_at(self.patterns(), pat.id as int, data@, anchor_pos as int),
                r.1@,
                r.0 == Scan::Stop,
            ),
    {
        proof {
            use_type_invariant(self);
        }
        let ghost p = self.patterns@[pat.id as int];
        assert(well_formed(p));
        assert(pat.data_offset + pat.len <= self.all_values.len());
        assert(self.all_values.len() == self.all_masks.len());
        let ghost none = Seq::<MatchedPattern>::empty();
        if anchor_pos < pat.anchor_offset {
            return (Scan::Continue, Ghost(none));
        }
        let start: usize = anchor_pos - pat.anchor_offset;
        if start > data.len() || pat.len > data.len() - start {
            return (Scan::Continue, Ghost(none));
        }
        let mut k: usize = 0;
        while k < pat.len
            invariant
                k <= pat.len,
                forall|j: int| 0 <= j < k ==> data@[start + j] & p.masks[j] == #[trigger] p.values[j],
            decreases pat.len - k,
        {
            let value: u8 = self.all_values[pat.data_offset + k];
            let mask: u8 = self.all_masks[pat.data_offset + k];
            assert(value == p.values[k as int]);
            assert(mask == p.masks[k as int]);
            if (data[start + k] & mask) != value {
                return (Scan::Continue, Ghost(none));
            }
            k += 1;
        }
        let found = MatchedPattern {
            start: start,
            end: start + pat.len,
            pattern_id: PatternId(pat.id),
        };
        assert(fits(p, data@, start as int));
        assert(found == record(pat.id as int, p, start as int));
        assert(is_occurrence(self.patterns(), data@, found));
        let answer = on_match(found);
        let ghost one = seq![found];
        assert(one.drop_last() =~= none);
        (answer, Ghost(one))
    }

    /// Verifies each pattern of a candidate list at `anchor_pos`, in the
    /// list's order, until the sink asks to stop. Returns whether the scan
    /// goes on.
    #[verifier::loop_isolation(false)]
    pub fn verify_bucket_patterns<F: FnMut(MatchedPattern) -> Scan>(
        &self,
        data: &[u8],
        anchor_pos: usize,
        candidates: &Vec<PatternInfo>,
        on_match: &mut F,
    ) -> (r: (bool, Ghost<Seq<MatchedPattern>>))
        requires
            self.holds_all(candidates@),
            sink_ready(*old(on_match), self.patterns(), data@),
        ensures
            *final(on_match) == *old(on_match),
            delivered(
                *old(on_match),
                group_at(self.patterns(), ids_of(candidates@), data@, anchor_pos as int),
                r.1@,
                !r.0,
            ),
    {
        let ghost ids = ids_of(candidates@);
        let ghost mut emitted = Seq::<MatchedPattern>::empty();
        let mut j: usize = 0;
        while j < candidates.len()
            invariant
                j <= candidates.len(),
                *on_match == *old(on_match),
                delivered(
                    *on_match,
                    group_prefix(self.patterns(), ids, data@, anchor_pos as int, j as int),
                    emitted,
                    false,
                ),
            decreases candidates.len() - j,
        {
            let pat = &candidates[j];
            let step = self.verify_match(data, anchor_pos, pat, on_match);
            proof {
                let piece = group_piece(self.patterns(), ids, data@, anchor_pos as int);
                lemma_concat_step(0, j as int, piece);
                lemma_delivered_then(
                    *on_match,
                    emitted,
                    match_at(self.patterns(), ids[j as int], data@, anchor_pos as int),
                    step.1@,
                    step.0 == Scan::Stop,
                );
                emitted = emitted + step.1@;
            }
            if step.0 == Scan::Stop {
                proof {
                    let piece = group_piece(self.patterns(), ids, data@, anchor_pos as int);
                    lemma_concat_prefix(0, j + 1, ids.len() as int, piece);
                    lemma_delivered_stopped(
                        *on_match,
                        group_prefix(self.patterns(), ids, data@, anchor_pos as int, j + 1),
                        group_at(self.patterns(), ids, data@, anchor_pos as int),
                        emitted,
                    );
                }
                return (false, Ghost(emitted));
            }
            j += 1;
        }
        (true, Ghost(emitted))
    }
}

} // verus!
