//! The automaton engine: candidates are the places where the anchor of a
//! pattern occurs, found by a multi-literal automaton in one pass. A pattern
//! without a fully specified byte has no such anchor; the engine verifies it
//! at every position.

use crate::engine::automaton::{
    automaton_literals, build_automaton, builder_accepts, every_occurrence_once, in_end_order,
    next_hit, overlapping_hits, overlapping_search, pending_hits, reports_overlaps,
};
use crate::engine::common::{search_key, CompiledPattern, PatternInfo};
use crate::engine::grouping::{
    byte_strings, find_key, group_patterns, grouping_of, is_grouping, Grouping,
};
use crate::engine::laws::{
    complete, law_complete, law_grouping_unique, law_sound, lemma_automaton_engine, lemma_literals,
    reports_exactly, scannable, sound,
};
use crate::engine::matching::{
    bucket_piece, bucket_span, group_at, hits_piece, hits_prefix, well_formed,
};
use crate::engine::sequence::{lemma_concat_empty, lemma_concat_prefix, lemma_concat_step};
use crate::engine::table::{
    compile_all, compile_patterns, ids_of, record_of, sources, stores, CompiledSet, PatternTable,
};
use crate::engine::{
    delivered, lemma_delivered_step, pattern_failure, scanned, sink_ready, EngineError,
    MatchedPattern, Scan,
};
use aho_corasick::{AhoCorasick, BuildError};
use vstd::prelude::*;
use vstd::slice::slice_to_vec;

verus! {

/// The search key of each pattern, by identifier.
pub open spec fn search_keys(patterns: Seq<CompiledPattern>) -> Seq<Seq<u8>> {
    Seq::new(patterns.len(), |i: int| search_key(patterns[i]))
}

/// Whether the key at `e` is the empty one.
pub open spec fn empty_at(keys: Seq<Seq<u8>>, e: int) -> bool {
    0 <= e < keys.len() && keys[e].len() == 0
}

/// The group of the patterns without a fully specified byte: the one with
/// the empty key, if there is one.
pub open spec fn open_group(keys: Seq<Seq<u8>>) -> Option<int> {
    if exists|e: int| empty_at(keys, e) {
        Some(choose|e: int| empty_at(keys, e))
    } else {
        None
    }
}

/// The group that literal `l` of the automaton stands for: the literals are
/// the keys in their order, but for the empty one.
pub open spec fn group_of_literal(open: Option<int>, l: int) -> int {
    match open {
        Some(e) => if l < e {
            l
        } else {
            l + 1
        },
        None => l,
    }
}

/// How many literals the keys give.
pub open spec fn literal_total(keys: Seq<Seq<u8>>) -> nat {
    match open_group(keys) {
        Some(e) => (keys.len() - 1) as nat,
        None => keys.len(),
    }
}

/// The literals of the automaton: the keys that are not empty, in order.
pub open spec fn literals_of(keys: Seq<Seq<u8>>) -> Seq<Seq<u8>> {
    Seq::new(literal_total(keys), |l: int| keys[group_of_literal(open_group(keys), l)])
}

/// For each literal, the identifiers of the patterns that it anchors.
pub open spec fn literal_members(keys: Seq<Seq<u8>>, members: Seq<Seq<int>>) -> Seq<Seq<int>> {
    Seq::new(literal_total(keys), |l: int| members[group_of_literal(open_group(keys), l)])
}

/// The identifiers of the patterns without a fully specified byte.
pub open spec fn open_members(keys: Seq<Seq<u8>>, members: Seq<Seq<int>>) -> Seq<int> {
    match open_group(keys) {
        Some(e) => members[e],
        None => Seq::empty(),
    }
}

/// The literals that the automaton is built from for these patterns.
pub open spec fn literals_for(patterns: Seq<CompiledPattern>) -> Seq<Seq<u8>> {
    literals_of(grouping_of(search_keys(patterns)).0)
}

/// Whether an engine can be built from these pattern strings: they all
/// compile, and the automaton's builder accepts their literals.
pub open spec fn buildable(sources: Seq<Seq<char>>) -> bool {
    match compile_all(sources) {
        Ok(patterns) => builder_accepts(literals_for(patterns)),
        Err(_) => false,
    }
}

/// What the automaton engine reports for the hits `hits`, in order: for each
/// hit, the patterns whose anchor is the literal that was hit, verified
/// around the place of the hit; then, position after position, the patterns
/// without a fully specified byte.
pub open spec fn automaton_order(
    patterns: Seq<CompiledPattern>,
    keys: Seq<Seq<u8>>,
    members: Seq<Seq<int>>,
    hits: Seq<(usize, usize)>,
    data: Seq<u8>,
) -> Seq<MatchedPattern> {
    hits_prefix(patterns, literal_members(keys, members), hits, data, hits.len() as int)
        + bucket_span(
        patterns,
        Seq::<u8>::empty(),
        open_members(keys, members),
        data,
        0,
        data.len() as int,
    )
}

/// The literals of the automaton, and the group of the empty key.
#[verifier::loop_isolation(false)]
fn literal_list(keys: &Vec<Vec<u8>>, Ghost(key_of): Ghost<Seq<Seq<u8>>>, Ghost(members): Ghost<
    Seq<Seq<int>>,
>) -> (r: (Vec<Vec<u8>>, Option<usize>))
    requires
        is_grouping(key_of, byte_strings(keys@), members),
    ensures
        byte_strings(r.0@) == literals_of(byte_strings(keys@)),
        open_group(byte_strings(keys@)) == match r.1 {
            Some(e) => Some(e as int),
            None => None,
        },
        forall|l: int| 0 <= l < r.0.len() ==> (#[trigger] r.0[l]).len() > 0,
{
    let ghost ks = byte_strings(keys@);
    let none: Vec<u8> = Vec::new();
    let open = find_key(keys, &none);
    proof {
        lemma_literals(key_of, ks, members);
        match open {
            Some(e) => {
                assert(empty_at(ks, e as int));
            },
            None => {
                if exists|e: int| empty_at(ks, e) {
                    let e = choose|e: int| empty_at(ks, e);
                    assert(keys@[e]@ =~= none@);
                }
            },
        }
    }
    let ghost og = open_group(ks);
    let mut literals: Vec<Vec<u8>> = Vec::new();
    let mut g: usize = 0;
    while g < keys.len()
        invariant
            g <= keys.len(),
            literals.len() == (if og is Some && g > og->0 {
                g - 1
            } else {
                g as int
            }),
            forall|l: int|
                0 <= l < literals.len() ==> (#[trigger] literals[l])@ == ks[group_of_literal(og, l)],
        decreases keys.len() - g,
    {
        let skip = match open {
            Some(e) => e == g,
            None => false,
        };
        if !skip {
            literals.push(slice_to_vec(keys[g].as_slice()));
        }
        g += 1;
    }
    proof {
        assert(byte_strings(literals@) =~= literals_of(ks));
        assert forall|l: int| 0 <= l < literals.len() implies (#[trigger] literals[l]).len() > 0 by {
            assert(literals_of(ks)[l].len() > 0);
        }
    }
    (literals, open)
}

/// The engine that finds candidates with a multi-literal automaton over the
/// distinct anchors of the patterns that have a fully specified byte, and
/// that tries the other patterns at every position.
pub struct Anchor {
    ac: AhoCorasick,
    groups: Grouping,
    open: Option<usize>,
    table: PatternTable,
}

impl Anchor {
    #[verifier::type_invariant]
    spec fn inv(self) -> bool {
        Self::assembled(self.table, self.groups, self.open, self.ac)
    }

    /// Whether the parts belong together: the groups are the patterns
    /// grouped by their search keys, with the table's records, and the
    /// automaton searches for the keys that are not empty.
    spec fn assembled(
        table: PatternTable,
        groups: Grouping,
        open: Option<usize>,
        ac: AhoCorasick,
    ) -> bool {
        &&& table.patterns().len() <= usize::MAX
        &&& forall|i: int|
            0 <= i < table.patterns().len() ==> well_formed(#[trigger] table.patterns()[i])
        &&& is_grouping(search_keys(table.patterns()), groups.key_bytes(), groups.ids())
        &&& forall|g: int|
            0 <= g < groups.members.len() ==> table.holds_all((#[trigger] groups.members[g])@)
        &&& open_group(groups.key_bytes()) == match open {
            Some(e) => Some(e as int),
            None => None,
        }
        &&& automaton_literals(ac) == literals_of(groups.key_bytes())
        &&& reports_overlaps(ac)
    }

    /// The compiled patterns, by identifier.
    pub closed spec fn patterns(&self) -> Seq<CompiledPattern> {
        self.table.patterns()
    }

    /// The table that holds the patterns.
    pub closed spec fn table(&self) -> PatternTable {
        self.table
    }

    /// The table that holds the patterns.
    pub(crate) fn table_ref(&self) -> (t: &PatternTable)
        ensures
            *t == self.table(),
            t.patterns() == self.patterns(),
    {
        &self.table
    }

    /// The distinct search keys, in the order in which they first occur
    /// among the patterns.
    pub closed spec fn keys(&self) -> Seq<Seq<u8>> {
        self.groups.key_bytes()
    }

    /// For each key, the identifiers of the patterns that have it.
    pub closed spec fn groups(&self) -> Seq<Seq<int>> {
        self.groups.ids()
    }

    /// For each key, the records of the patterns that have it.
    pub closed spec fn records(&self) -> Seq<Seq<PatternInfo>> {
        self.groups.records()
    }

    /// The literals of the automaton: the distinct anchors of the patterns
    /// that have a fully specified byte.
    pub open spec fn literals(&self) -> Seq<Seq<u8>> {
        literals_of(self.keys())
    }

    /// For each literal, the identifiers of the patterns that it anchors.
    pub open spec fn candidates(&self) -> Seq<Seq<int>> {
        literal_members(self.keys(), self.groups())
    }

    /// The identifiers of the patterns without a fully specified byte.
    pub open spec fn open_patterns(&self) -> Seq<int> {
        open_members(self.keys(), self.groups())
    }

    /// What a scan of `data` reports, in order.
    pub open spec fn matches(&self, data: Seq<u8>) -> Seq<MatchedPattern> {
        automaton_order(
            self.patterns(),
            self.keys(),
            self.groups(),
            overlapping_hits(self.literals(), data),
            data,
        )
    }

    /// Puts an engine together from the compiled patterns, their grouping by
    /// search key, the group of the empty key and what the automaton's
    /// builder returned.
    pub fn assemble(
        set: CompiledSet,
        groups: Grouping,
        open: Option<usize>,
        built: Result<AhoCorasick, BuildError>,
    ) -> (r: Result<Anchor, EngineError>)
        requires
            is_grouping(search_keys(set.table.patterns()), groups.key_bytes(), groups.ids()),
            groups.records_from(set.infos@),
            set.is_for(set.table.patterns()),
            open_group(groups.key_bytes()) == match open {
                Some(e) => Some(e as int),
                None => None,
            },
            built matches Ok(ac) ==> automaton_literals(ac) == literals_of(groups.key_bytes())
                && reports_overlaps(ac),
        ensures
            built matches Ok(ac) ==> r matches Ok(engine) && engine.table() == set.table
                && engine.patterns() == set.table.patterns() && engine.keys()
                == groups.key_bytes() && engine.groups() == groups.ids() && engine.records()
                == groups.records(),
            built matches Err(e) ==> r matches Err(EngineError::AutomatonBuildFailure(f)) && e == f,
    {
        match built {
            Ok(ac) => {
                assert forall|g: int| 0 <= g < groups.members.len() implies set.table.holds_all(
                    (#[trigger] groups.members[g])@,
                ) by {
                    assert forall|j: int| 0 <= j < groups.members[g]@.len() implies set.table.holds(
                        #[trigger] groups.members[g]@[j],
                    ) by {
                        let info = groups.members[g][j];
                        assert(info == set.infos[info.id as int]);
                    }
                }
                Ok(Anchor { ac, groups, open, table: set.table })
            },
            Err(e) => Err(EngineError::AutomatonBuildFailure(e)),
        }
    }

    /// Builds the engine for the patterns given. The pattern at position `i`
    /// gets the identifier `i`. Fails with the error of the first pattern
    /// that does not compile; where all compile, it fails exactly if the
    /// automaton's builder refuses the literals.
    pub fn new(patterns: &[&str]) -> (r: Result<Anchor, EngineError>)
        ensures
            r is Ok <==> buildable(sources(patterns@)),
            compile_all(sources(patterns@)) matches Err(e) ==> r matches Err(f) && f
                == pattern_failure(e),
            compile_all(sources(patterns@)) matches Ok(ps) ==> match r {
                Ok(engine) => engine.patterns() == ps && is_grouping(
                    search_keys(ps),
                    engine.keys(),
                    engine.groups(),
                ) && stores(engine.table(), engine.records(), engine.groups(), ps),
                Err(f) => f is AutomatonBuildFailure,
            },
    {
        let set = match compile_patterns(patterns) {
            Ok(set) => set,
            Err(e) => {
                return Err(EngineError::from_pattern(e));
            },
        };
        Anchor::from_set(set)
    }

    /// Builds the engine for patterns that are compiled already. Fails
    /// exactly if the automaton's builder refuses the literals.
    pub fn from_set(set: CompiledSet) -> (r: Result<Anchor, EngineError>)
        requires
            set.is_for(set.table.patterns()),
        ensures
            r is Ok <==> builder_accepts(literals_for(set.table.patterns())),
            match r {
                Ok(engine) => engine.table() == set.table && engine.patterns()
                    == set.table.patterns() && is_grouping(
                    search_keys(set.table.patterns()),
                    engine.keys(),
                    engine.groups(),
                ) && stores(
                    engine.table(),
                    engine.records(),
                    engine.groups(),
                    set.table.patterns(),
                ),
                Err(f) => f is AutomatonBuildFailure,
            },
    {
        let ghost ps = set.table.patterns();
        let keys = search_key_list(&set.anchors, &set.anchored, None);
        let groups = group_patterns(&keys, &set.infos);
        proof {
            assert(byte_strings(keys@) =~= search_keys(ps));
            let chosen = grouping_of(search_keys(ps));
            let found = (groups.key_bytes(), groups.ids());
            assert(is_grouping(search_keys(ps), found.0, found.1));
            law_grouping_unique(
                search_keys(ps),
                groups.key_bytes(),
                groups.ids(),
                chosen.0,
                chosen.1,
            );
        }
        proof {
            lemma_grouped_records(set, groups);
        }
        let (literals, open) = literal_list(&groups.keys, Ghost(search_keys(ps)), Ghost(groups.ids()));
        let built = build_automaton(&literals);
        Anchor::assemble(set, groups, open, built)
    }

    /// The number of literals of the automaton.
    pub fn literal_count(&self) -> (n: usize)
        ensures
            n == self.literals().len(),
            n == self.candidates().len(),
    {
        proof {
            use_type_invariant(self);
        }
        match self.open {
            Some(_) => self.groups.keys.len() - 1,
            None => self.groups.keys.len(),
        }
    }

    /// Verifies the candidates of one hit of the automaton: the patterns
    /// whose anchor is the literal `literal`, around the position `start`
    /// where the literal was found. Returns whether the scan goes on, and
    /// what the sink received.
    pub fn verify_hit<F: FnMut(MatchedPattern) -> Scan>(
        &self,
        data: &[u8],
        literal: usize,
        start: usize,
        on_match: &mut F,
    ) -> (r: (bool, Ghost<Seq<MatchedPattern>>))
        requires
            literal < self.literals().len(),
            sink_ready(*old(on_match), self.patterns(), data@),
        ensures
            *final(on_match) == *old(on_match),
            delivered(
                *old(on_match),
                group_at(self.patterns(), self.candidates()[literal as int], data@, start as int),
                r.1@,
                !r.0,
            ),
    {
        proof {
            use_type_invariant(self);
            lemma_literals(search_keys(self.patterns()), self.keys(), self.groups());
            assert(self.literals().len() == literal_total(self.keys()));
            assert(self.keys().len() == self.groups.keys.len());
        }
        let group: usize = match self.open {
            Some(e) => if literal < e {
                literal
            } else {
                literal + 1
            },
            None => literal,
        };
        let candidates = &self.groups.members[group];
        assert(self.candidates()[literal as int] == ids_of(candidates@));
        self.table.verify_bucket_patterns(data, start, candidates, on_match)
    }

    /// The hits of the automaton, one after the other, each with its
    /// candidates.
    #[verifier::loop_isolation(false)]
    fn scan_hits<F: FnMut(MatchedPattern) -> Scan>(&self, data: &[u8], on_match: &mut F) -> (r: (
        bool,
        Ghost<Seq<MatchedPattern>>,
    ))
        requires
            sink_ready(*old(on_match), self.patterns(), data@),
        ensures
            *final(on_match) == *old(on_match),
            delivered(
                *old(on_match),
                hits_prefix(
                    self.patterns(),
                    self.candidates(),
                    overlapping_hits(self.literals(), data@),
                    data@,
                    overlapping_hits(self.literals(), data@).len() as int,
                ),
                r.1@,
                !r.0,
            ),
            every_occurrence_once(
                self.literals(),
                data@,
                overlapping_hits(self.literals(), data@),
            ),
            in_end_order(self.literals(), overlapping_hits(self.literals(), data@)),
    {
        proof {
            use_type_invariant(self);
            lemma_literals(search_keys(self.patterns()), self.keys(), self.groups());
        }
        let mut it = overlapping_search(&self.ac, data);
        let ghost hits = pending_hits(it);
        let ghost piece = hits_piece(self.patterns(), self.candidates(), hits, data@);
        let ghost whole = hits_prefix(
            self.patterns(),
            self.candidates(),
            hits,
            data@,
            hits.len() as int,
        );
        let ghost mut emitted = Seq::<MatchedPattern>::empty();
        let ghost mut n: int = 0;
        let mut next = next_hit(&mut it);
        assert(hits.skip(0) =~= hits);
        while next.is_some()
            invariant
                0 <= n <= hits.len(),
                next matches Some(hit) ==> n < hits.len() && hit == hits[n] && pending_hits(it)
                    == hits.skip(n + 1),
                next is None ==> n == hits.len(),
                *on_match == *old(on_match),
                delivered(
                    *on_match,
                    hits_prefix(self.patterns(), self.candidates(), hits, data@, n),
                    emitted,
                    false,
                ),
            decreases hits.len() - n,
        {
            let (literal, start) = next.unwrap();
            let step = self.verify_hit(data, literal, start, on_match);
            proof {
                lemma_concat_step(0, n, piece);
                lemma_concat_prefix(0, n + 1, hits.len() as int, piece);
                lemma_delivered_step(
                    *on_match,
                    hits_prefix(self.patterns(), self.candidates(), hits, data@, n),
                    piece(n),
                    emitted,
                    step.1@,
                    !step.0,
                    whole,
                );
                emitted = emitted + step.1@;
                n = n + 1;
            }
            if !step.0 {
                return (false, Ghost(emitted));
            }
            next = next_hit(&mut it);
            proof {
                if hits.skip(n).len() > 0 {
                    assert(hits.skip(n)[0] == hits[n]);
                    assert(hits.skip(n).drop_first() =~= hits.skip(n + 1));
                }
            }
        }
        (true, Ghost(emitted))
    }

    /// The patterns without a fully specified byte, verified at every
    /// position of the buffer in turn.
    #[verifier::loop_isolation(false)]
    fn scan_open<F: FnMut(MatchedPattern) -> Scan>(&self, data: &[u8], on_match: &mut F) -> (r: (
        bool,
        Ghost<Seq<MatchedPattern>>,
    ))
        requires
            sink_ready(*old(on_match), self.patterns(), data@),
        ensures
            *final(on_match) == *old(on_match),
            delivered(
                *old(on_match),
                bucket_span(
                    self.patterns(),
                    Seq::<u8>::empty(),
                    self.open_patterns(),
                    data@,
                    0,
                    data@.len() as int,
                ),
                r.1@,
                !r.0,
            ),
    {
        proof {
            use_type_invariant(self);
        }
        let ghost ps = self.patterns();
        let ghost key = Seq::<u8>::empty();
        let ghost ids = self.open_patterns();
        let ghost piece = bucket_piece(ps, key, ids, data@);
        let ghost whole = bucket_span(ps, key, ids, data@, 0, data@.len() as int);
        let ghost mut emitted = Seq::<MatchedPattern>::empty();
        let group: usize = match self.open {
            Some(e) => e,
            None => {
                proof {
                    assert forall|pos: int| 0 <= pos < data@.len() implies (#[trigger] piece(
                        pos,
                    )).len() == 0 by {
                        assert(group_at(ps, ids, data@, pos) =~= Seq::<MatchedPattern>::empty());
                    }
                    lemma_concat_empty(0, data@.len() as int, piece);
                }
                return (true, Ghost(emitted));
            },
        };
        let candidates = &self.groups.members[group];
        assert(ids == ids_of(candidates@));
        let mut pos: usize = 0;
        while pos < data.len()
            invariant
                pos <= data.len(),
                *on_match == *old(on_match),
                delivered(*on_match, bucket_span(ps, key, ids, data@, 0, pos as int), emitted, false),
            decreases data.len() - pos,
        {
            let step = self.table.verify_bucket_patterns(data, pos, candidates, on_match);
            proof {
                assert(piece(pos as int) == group_at(ps, ids, data@, pos as int));
                lemma_concat_step(0, pos as int, piece);
                lemma_concat_prefix(0, pos + 1, data@.len() as int, piece);
                lemma_delivered_step(
                    *on_match,
                    bucket_span(ps, key, ids, data@, 0, pos as int),
                    piece(pos as int),
                    emitted,
                    step.1@,
                    !step.0,
                    whole,
                );
                emitted = emitted + step.1@;
            }
            if !step.0 {
                return (false, Ghost(emitted));
            }
            pos += 1;
        }
        (true, Ghost(emitted))
    }

    /// Scans `data` and hands each record to the sink until it asks to stop.
    /// Returns whether it never did, and what the sink received.
    pub(crate) fn scan_into<F: FnMut(MatchedPattern) -> Scan>(
        &self,
        data: &[u8],
        on_match: &mut F,
    ) -> (r: (bool, Ghost<Seq<MatchedPattern>>))
        requires
            sink_ready(*old(on_match), self.patterns(), data@),
        ensures
            *final(on_match) == *old(on_match),
            delivered(*old(on_match), self.matches(data@), r.1@, !r.0),
            scannable(self.patterns(), data@),
            reports_exactly(self.patterns(), data@, self.matches(data@)),
            every_occurrence_once(
                self.literals(),
                data@,
                overlapping_hits(self.literals(), data@),
            ),
            in_end_order(self.literals(), overlapping_hits(self.literals(), data@)),
    {
        proof {
            use_type_invariant(self);
            assert(data@.len() == data.len());
        }
        let ghost hits = overlapping_hits(self.literals(), data@);
        let ghost found = hits_prefix(
            self.patterns(),
            self.candidates(),
            hits,
            data@,
            hits.len() as int,
        );
        let ghost rest = bucket_span(
            self.patterns(),
            Seq::<u8>::empty(),
            self.open_patterns(),
            data@,
            0,
            data@.len() as int,
        );
        let ghost none = Seq::<MatchedPattern>::empty();
        let first = self.scan_hits(data, on_match);
        proof {
            lemma_automaton_engine(self.patterns(), self.keys(), self.groups(), hits, data@);
            assert(none + found =~= found);
            assert(found.is_prefix_of(found + rest));
            lemma_delivered_step(*on_match, none, found, none, first.1@, !first.0, found + rest);
            assert(none + first.1@ =~= first.1@);
        }
        if !first.0 {
            return first;
        }
        let second = self.scan_open(data, on_match);
        proof {
            lemma_delivered_step(
                *on_match,
                found,
                rest,
                first.1@,
                second.1@,
                !second.0,
                found + rest,
            );
        }
        (second.0, Ghost(first.1@ + second.1@))
    }

    /// Scans `data` for the patterns and hands the record of each occurrence
    /// to `on_match`, in the order of `matches`, until it returns
    /// `Scan::Stop`. Returns what the sink received.
    pub fn scan<F: FnMut(MatchedPattern) -> Scan>(&self, data: &[u8], mut on_match: F) -> (trace:
        Ghost<Seq<MatchedPattern>>)
        requires
            sink_ready(on_match, self.patterns(), data@),
        ensures
            scanned(on_match, self.matches(data@), trace@),
            reports_exactly(self.patterns(), data@, self.matches(data@)),
            sound(self.patterns(), data@, trace@),
            trace@.len() == self.matches(data@).len() ==> complete(self.patterns(), data@, trace@),
            every_occurrence_once(
                self.literals(),
                data@,
                overlapping_hits(self.literals(), data@),
            ),
            in_end_order(self.literals(), overlapping_hits(self.literals(), data@)),
    {
        let r = self.scan_into(data, &mut on_match);
        proof {
            law_sound(on_match, self.patterns(), data@, self.matches(data@), r.1@);
            if r.1@.len() == self.matches(data@).len() {
                law_complete(on_match, self.patterns(), data@, self.matches(data@), r.1@);
            }
        }
        r.1
    }
}

/// The records of a grouping of a compiled set are the table's records of
/// the grouped patterns.
pub proof fn lemma_grouped_records(set: CompiledSet, groups: Grouping)
    requires
        set.is_for(set.table.patterns()),
        groups.records_from(set.infos@),
    ensures
        stores(set.table, groups.records(), groups.ids(), set.table.patterns()),
{
    let ps = set.table.patterns();
    let records = groups.records();
    assert forall|g: int, j: int|
        0 <= g < records.len() && 0 <= j < records[g].len() implies #[trigger] records[g][j]
        == record_of(ps, groups.ids()[g][j]) && set.table.holds(records[g][j]) by {
        let info = groups.members[g][j];
        assert(info == set.infos[info.id as int]);
    }
}

/// The search key of each pattern: its anchor where it has a fully
/// specified byte, nothing otherwise; cut to `limit` bytes where a limit is
/// given.
#[verifier::loop_isolation(false)]
pub fn search_key_list(anchors: &Vec<Vec<u8>>, anchored: &Vec<bool>, limit: Option<usize>) -> (keys:
    Vec<Vec<u8>>)
    requires
        anchors.len() == anchored.len(),
    ensures
        keys.len() == anchors.len(),
        forall|i: int|
            0 <= i < anchors.len() ==> (#[trigger] keys[i])@ == cut_key(
                anchors[i]@,
                anchored[i],
                limit,
            ),
{
    let mut keys: Vec<Vec<u8>> = Vec::new();
    let mut i: usize = 0;
    while i < anchors.len()
        invariant
            i <= anchors.len(),
            keys.len() == i,
            forall|j: int|
                0 <= j < i ==> (#[trigger] keys[j])@ == cut_key(anchors[j]@, anchored[j], limit),
        decreases anchors.len() - i,
    {
        let anchor = &anchors[i];
        let full: usize = if anchored[i] {
            anchor.len()
        } else {
            0
        };
        let key_len: usize = match limit {
            Some(n) => if full < n {
                full
            } else {
                n
            },
            None => full,
        };
        let key = slice_to_vec(vstd::slice::slice_subrange(anchor.as_slice(), 0, key_len));
        assert(key@ =~= cut_key(anchor@, anchored[i as int], limit));
        keys.push(key);
        i += 1;
    }
    keys
}

/// The key that an anchor gives: the anchor of a pattern with a fully
/// specified byte, cut to `limit` bytes where a limit is given; nothing for
/// a pattern without such a byte.
pub open spec fn cut_key(anchor: Seq<u8>, anchored: bool, limit: Option<usize>) -> Seq<u8> {
    let key = if anchored {
        anchor
    } else {
        Seq::empty()
    };
    match limit {
        Some(n) => if key.len() <= n {
            key
        } else {
            key.take(n as int)
        },
        None => key,
    }
}

} // verus!
