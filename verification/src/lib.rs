//! Multi-pattern binary signature scanning.
//!
//! A pattern is a sequence of hexadecimal byte tokens in which a whole byte
//! (`??`) or one nibble (`4?`, `?A`) may be left open. Patterns are compiled
//! once into an engine; scanning a buffer reports every occurrence of every
//! pattern to a caller-supplied sink.
//!
//! The crate is verified with Verus. What a scan reports is stated in
//! `engine::matching` and `engine::laws`; the calls into the `aho-corasick`
//! crate, whose contracts are taken on trust, stand in `engine::automaton`.

pub mod engine;
pub mod pattern;

use crate::engine::anchor::{buildable, search_keys, Anchor};
use crate::engine::common::CompiledPattern;
use crate::engine::grouping::is_grouping;
use crate::engine::laws::{complete, law_complete, law_sound, reports_exactly, sound};
use crate::engine::table::{compile_all, sources, stores};
use crate::engine::teddy::{compares_lanes, fingerprints_of, lane_mask, Teddy, VectorWidth};
use crate::engine::{pattern_failure, scanned, sink_ready, EngineError, MatchedPattern, Scan};
use vstd::prelude::*;

verus! {

/// What the processor offers for comparing many bytes at once.
#[derive(Clone, Copy, Debug, PartialEq, Eq, Structural)]
pub enum VectorSupport {
    /// 256-bit vectors: x86-64 with AVX2.
    Avx2,
    /// 128-bit vectors: AArch64, or ARMv7 with NEON.
    Neon,
    /// Neither.
    Portable,
}

/// The vector width that the fingerprint engine uses on a processor, or
/// `None` where the automaton engine is to be used.
pub open spec fn width_for(cpu: VectorSupport) -> Option<VectorWidth> {
    match cpu {
        VectorSupport::Avx2 => Some(VectorWidth::Lanes32),
        VectorSupport::Neon => Some(VectorWidth::Lanes16),
        VectorSupport::Portable => None,
    }
}

/// The engine behind a scanner: one of the two kinds.
pub enum Engine {
    Fingerprint(Teddy),
    Automaton(Anchor),
}

/// A scanner for a set of patterns, with the engine that suits the processor.
pub struct Hexpotter {
    engine: Engine,
}

impl Hexpotter {
    /// The engine of the scanner.
    pub closed spec fn engine(&self) -> Engine {
        self.engine
    }

    /// The engine of the scanner.
    pub fn engine_ref(&self) -> (engine: &Engine)
        ensures
            *engine == self.engine(),
    {
        &self.engine
    }

    /// The compiled patterns, by identifier.
    pub open spec fn patterns(&self) -> Seq<CompiledPattern> {
        match self.engine() {
            Engine::Fingerprint(teddy) => teddy.patterns(),
            Engine::Automaton(anchor) => anchor.patterns(),
        }
    }

    /// What a scan of `data` reports, in order.
    pub open spec fn matches(&self, data: Seq<u8>) -> Seq<MatchedPattern> {
        match self.engine() {
            Engine::Fingerprint(teddy) => teddy.matches(data),
            Engine::Automaton(anchor) => anchor.matches(data),
        }
    }

    /// Compiles the patterns and builds the engine that suits `cpu`: the
    /// fingerprint engine with 32 lanes for AVX2 and with 16 for NEON, the
    /// automaton engine otherwise. The pattern at position `i` gets the
    /// identifier `i`. Fails with the error of the first pattern that does
    /// not compile; where all compile, it fails exactly if the automaton's
    /// builder refuses the literals (both engines hold an automaton).
    pub fn new(patterns: &[&str], cpu: VectorSupport) -> (r: Result<Hexpotter, EngineError>)
        ensures
            r is Ok <==> buildable(sources(patterns@)),
            compile_all(sources(patterns@)) matches Err(e) ==> r matches Err(f) && f
                == pattern_failure(e),
            compile_all(sources(patterns@)) matches Ok(ps) ==> match r {
                Ok(scanner) => scanner.patterns() == ps && match width_for(cpu) {
                    Some(width) => scanner.engine() matches Engine::Fingerprint(teddy)
                        && teddy.lanes() == width.count() && is_grouping(
                        fingerprints_of(ps),
                        teddy.fingerprints(),
                        teddy.buckets(),
                    ) && is_grouping(
                        search_keys(ps),
                        teddy.fallback().keys(),
                        teddy.fallback().groups(),
                    ) && stores(teddy.table(), teddy.records(), teddy.buckets(), ps),
                    None => scanner.engine() matches Engine::Automaton(anchor) && is_grouping(
                        search_keys(ps),
                        anchor.keys(),
                        anchor.groups(),
                    ) && stores(anchor.table(), anchor.records(), anchor.groups(), ps),
                },
                Err(f) => f is AutomatonBuildFailure,
            },
    {
        let engine = match cpu {
            VectorSupport::Avx2 => match Teddy::new(patterns, VectorWidth::Lanes32) {
                Ok(teddy) => Engine::Fingerprint(teddy),
                Err(e) => {
                    return Err(e);
                },
            },
            VectorSupport::Neon => match Teddy::new(patterns, VectorWidth::Lanes16) {
                Ok(teddy) => Engine::Fingerprint(teddy),
                Err(e) => {
                    return Err(e);
                },
            },
            VectorSupport::Portable => match Anchor::new(patterns) {
                Ok(anchor) => Engine::Automaton(anchor),
                Err(e) => {
                    return Err(e);
                },
            },
        };
        Ok(Hexpotter { engine })
    }

    /// Scans `data` for the patterns and hands the record of each occurrence
    /// to `on_match`, in the order of `matches`, until it returns
    /// `Scan::Stop`. Returns what the sink received.
    pub fn scan<F: FnMut(MatchedPattern) -> Scan>(&self, data: &[u8], on_match: F) -> (trace: Ghost<
        Seq<MatchedPattern>,
    >)
        requires
            sink_ready(on_match, self.patterns(), data@),
        ensures
            scanned(on_match, self.matches(data@), trace@),
            reports_exactly(self.patterns(), data@, self.matches(data@)),
            sound(self.patterns(), data@, trace@),
            trace@.len() == self.matches(data@).len() ==> complete(self.patterns(), data@, trace@),
    {
        self.scan_with(data, lane_mask, on_match)
    }

    /// Scans `data` like `scan`, with `compare` in the place of `lane_mask`
    /// in the fingerprint engine: a function that compares a fingerprint
    /// with all positions of a step at once, as a vector unit can. The
    /// automaton engine has no use for it.
    pub fn scan_with<M: Fn(&[u8], usize, &Vec<u8>, usize) -> u32, F: FnMut(MatchedPattern) -> Scan>(
        &self,
        data: &[u8],
        compare: M,
        mut on_match: F,
    ) -> (trace: Ghost<Seq<MatchedPattern>>)
        requires
            compares_lanes(compare),
            sink_ready(on_match, self.patterns(), data@),
        ensures
            scanned(on_match, self.matches(data@), trace@),
            reports_exactly(self.patterns(), data@, self.matches(data@)),
            sound(self.patterns(), data@, trace@),
            trace@.len() == self.matches(data@).len() ==> complete(self.patterns(), data@, trace@),
    {
        let r = match &self.engine {
            Engine::Fingerprint(teddy) => teddy.scan_into(data, &compare, &mut on_match),
            Engine::Automaton(anchor) => anchor.scan_into(data, &mut on_match),
        };
        proof {
            law_sound(on_match, self.patterns(), data@, self.matches(data@), r.1@);
            if r.1@.len() == self.matches(data@).len() {
                law_complete(on_match, self.patterns(), data@, self.matches(data@), r.1@);
            }
        }
        r.1
    }
}

} // verus!
