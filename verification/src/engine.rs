//! The engines, and what they share: the answer of a sink, the record of a
//! match, and what it means to hand records to a sink until it asks to stop.

pub mod anchor;
pub mod automaton;
pub mod common;
pub mod grouping;
pub mod laws;
pub mod matching;
pub mod sequence;
pub mod table;
pub mod teddy;

use crate::engine::common::{CompiledPattern, PatternError};
use crate::engine::matching::is_occurrence;
use crate::pattern::PatternId;
use aho_corasick::BuildError;
use vstd::prelude::*;

verus! {

/// What a sink tells the engine after it has received a match.
#[derive(Clone, Copy, Debug, PartialEq, Eq, Structural)]
pub enum Scan {
    Continue,
    Stop,
}

/// Why an engine cannot be built.
#[derive(Debug)]
pub enum EngineError {
    /// A token of some pattern is not one of `HH`, `??`, `H?`, `?H`.
    MalformedPattern,
    /// Some pattern holds no token.
    EmptyPattern,
    /// The automaton could not be built from the anchors; the error is the
    /// builder's own.
    AutomatonBuildFailure(BuildError),
}

/// The engine's error for a pattern that does not compile.
pub open spec fn pattern_failure(e: PatternError) -> EngineError {
    match e {
        PatternError::MalformedPattern => EngineError::MalformedPattern,
        PatternError::EmptyPattern => EngineError::EmptyPattern,
    }
}

impl EngineError {
    /// The engine's error for a pattern that does not compile.
    pub fn from_pattern(e: PatternError) -> (r: EngineError)
        ensures
            r == pattern_failure(e),
    {
        match e {
            PatternError::MalformedPattern => EngineError::MalformedPattern,
            PatternError::EmptyPattern => EngineError::EmptyPattern,
        }
    }
}

/// One occurrence of a pattern: the pattern's identifier and the half-open
/// byte range `[start, end)` of the buffer that it covers.
#[derive(Clone, Copy, Debug, PartialEq, Eq, Structural)]
pub struct MatchedPattern {
    pub start: usize,
    pub end: usize,
    pub pattern_id: PatternId,
}

impl MatchedPattern {
    /// Where the occurrence begins.
    pub fn start(&self) -> (r: usize)
        ensures
            r == self.start,
    {
        self.start
    }

    /// Where the occurrence ends: the position after its last byte.
    pub fn end(&self) -> (r: usize)
        ensures
            r == self.end,
    {
        self.end
    }

    /// The identifier of the pattern.
    pub fn id(&self) -> (r: PatternId)
        ensures
            r == self.pattern_id,
    {
        self.pattern_id
    }
}

/// Whether the sink can be handed every record of a place where one of the
/// patterns lies in `data`.
pub open spec fn sink_ready<F: FnMut(MatchedPattern) -> Scan>(
    sink: F,
    patterns: Seq<CompiledPattern>,
    data: Seq<u8>,
) -> bool {
    forall|m: MatchedPattern| #[trigger]
        is_occurrence(patterns, data, m) ==> call_requires(sink, (m,))
}

/// Whether the sink has asked to continue after each record of `s`.
pub open spec fn accepted<F: FnMut(MatchedPattern) -> Scan>(sink: F, s: Seq<MatchedPattern>) -> bool {
    forall|i: int| 0 <= i < s.len() ==> call_ensures(sink, (#[trigger] s[i],), Scan::Continue)
}

/// Handing the records of `all` to the sink, in order, until it asks to stop.
/// `emitted` is what the sink has received; `stopped` says that it asked to
/// stop, which it then did on the last record of `emitted`.
pub open spec fn delivered<F: FnMut(MatchedPattern) -> Scan>(
    sink: F,
    all: Seq<MatchedPattern>,
    emitted: Seq<MatchedPattern>,
    stopped: bool,
) -> bool {
    if stopped {
        &&& emitted.len() > 0
        &&& emitted.is_prefix_of(all)
        &&& accepted(sink, emitted.drop_last())
        &&& call_ensures(sink, (emitted.last(),), Scan::Stop)
    } else {
        &&& emitted == all
        &&& accepted(sink, all)
    }
}

/// The outcome of a scan that was to report `all`: the sink received
/// `emitted`, all of it or what came up to the record on which it asked to
/// stop.
pub open spec fn scanned<F: FnMut(MatchedPattern) -> Scan>(
    sink: F,
    all: Seq<MatchedPattern>,
    emitted: Seq<MatchedPattern>,
) -> bool {
    delivered(sink, all, emitted, true) || delivered(sink, all, emitted, false)
}

/// A delivery that was not stopped goes on with the next records.
pub proof fn lemma_delivered_then<F: FnMut(MatchedPattern) -> Scan>(
    sink: F,
    first: Seq<MatchedPattern>,
    next: Seq<MatchedPattern>,
    emitted: Seq<MatchedPattern>,
    stopped: bool,
)
    requires
        accepted(sink, first),
        delivered(sink, next, emitted, stopped),
    ensures
        delivered(sink, first + next, first + emitted, stopped),
{
    let whole = first + emitted;
    if stopped {
        assert(whole.drop_last() =~= first + emitted.drop_last());
        assert(whole.last() == emitted.last());
        assert(whole.is_prefix_of(first + next)) by {
            assert forall|i: int| 0 <= i < whole.len() implies whole[i] == (first + next)[i] by {
                if i >= first.len() {
                    assert(emitted[i - first.len()] == next[i - first.len()]);
                }
            }
        }
        assert forall|i: int| 0 <= i < whole.drop_last().len() implies call_ensures(
            sink,
            (#[trigger] whole.drop_last()[i],),
            Scan::Continue,
        ) by {
            if i >= first.len() {
                assert(whole.drop_last()[i] == emitted.drop_last()[i - first.len()]);
            } else {
                assert(whole.drop_last()[i] == first[i]);
            }
        }
    } else {
        assert forall|i: int| 0 <= i < whole.len() implies call_ensures(
            sink,
            (#[trigger] whole[i],),
            Scan::Continue,
        ) by {
            if i >= first.len() {
                assert(whole[i] == next[i - first.len()]);
            } else {
                assert(whole[i] == first[i]);
            }
        }
    }
}

/// One more step of a delivery that has not been stopped: after `done`, the
/// records of `piece` were due, and the step ended as `stopped` says. If it
/// was stopped, that is the outcome for any `whole` that begins with `done`
/// and `piece`.
pub proof fn lemma_delivered_step<F: FnMut(MatchedPattern) -> Scan>(
    sink: F,
    done: Seq<MatchedPattern>,
    piece: Seq<MatchedPattern>,
    emitted: Seq<MatchedPattern>,
    step: Seq<MatchedPattern>,
    stopped: bool,
    whole: Seq<MatchedPattern>,
)
    requires
        delivered(sink, done, emitted, false),
        delivered(sink, piece, step, stopped),
        (done + piece).is_prefix_of(whole),
    ensures
        stopped ==> delivered(sink, whole, emitted + step, true),
        !stopped ==> delivered(sink, done + piece, emitted + step, false),
{
    lemma_delivered_then(sink, done, piece, step, stopped);
    if stopped {
        lemma_delivered_stopped(sink, done + piece, whole, emitted + step);
    }
}

/// A delivery that was stopped stays as it is, whatever was to follow.
pub proof fn lemma_delivered_stopped<F: FnMut(MatchedPattern) -> Scan>(
    sink: F,
    part: Seq<MatchedPattern>,
    whole: Seq<MatchedPattern>,
    emitted: Seq<MatchedPattern>,
)
    requires
        delivered(sink, part, emitted, true),
        part.is_prefix_of(whole),
    ensures
        delivered(sink, whole, emitted, true),
{
    assert(emitted.is_prefix_of(whole)) by {
        assert forall|i: int| 0 <= i < emitted.len() implies emitted[i] == whole[i] by {
            assert(emitted[i] == part[i]);
        }
    }
}

} // verus!
