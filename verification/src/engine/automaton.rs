//! The multi-literal automaton of the `aho-corasick` crate, as far as the
//! engines use it. Nothing in this file is proved: Verus takes the contracts
//! of the three functions at their word.

use crate::engine::grouping::byte_strings;
use crate::engine::matching::occurs_at;
use aho_corasick::{AhoCorasick, AhoCorasickKind, BuildError, FindOverlappingIter};
use vstd::prelude::*;

verus! {

#[verifier::external_type_specification]
#[verifier::external_body]
pub struct ExAhoCorasick(AhoCorasick);

#[verifier::external_type_specification]
#[verifier::external_body]
pub struct ExBuildError(BuildError);

#[verifier::external_type_specification]
#[verifier::external_body]
pub struct ExFindOverlappingIter<'a, 'h>(FindOverlappingIter<'a, 'h>);

/// The literals that an automaton searches for. A literal's number is its
/// position in this sequence.
pub uninterp spec fn automaton_literals(ac: AhoCorasick) -> Seq<Seq<u8>>;

/// Whether an automaton is one that `build_automaton` has built: with the
/// builder's defaults but for the kind, that is with the standard match
/// semantics, for searches that are not anchored, and telling upper from
/// lower case. Such an automaton can search for overlapping occurrences.
pub uninterp spec fn reports_overlaps(ac: AhoCorasick) -> bool;

/// Whether the builder, set up as `build_automaton` sets it up, builds an
/// automaton for these literals. It refuses where one of its fixed limits is
/// passed: too many literals, too long a literal, too many states.
pub uninterp spec fn builder_accepts(literals: Seq<Seq<u8>>) -> bool;

/// The hits of an overlapping search for `literals` in `haystack`, in the
/// order in which the automaton yields them. A hit is the number of a literal
/// and the position where the occurrence starts.
pub uninterp spec fn overlapping_hits(literals: Seq<Seq<u8>>, haystack: Seq<u8>) -> Seq<
    (usize, usize),
>;

/// The hits that a running search has yet to yield, in order.
pub uninterp spec fn pending_hits(it: FindOverlappingIter<'_, '_>) -> Seq<(usize, usize)>;

/// Whether `hits` holds each occurrence of each literal in `haystack` once,
/// and nothing else.
pub open spec fn every_occurrence_once(
    literals: Seq<Seq<u8>>,
    haystack: Seq<u8>,
    hits: Seq<(usize, usize)>,
) -> bool {
    &&& forall|h: int|
        0 <= h < hits.len() ==> (#[trigger] hits[h]).0 < literals.len() && occurs_at(
            literals[hits[h].0 as int],
            haystack,
            hits[h].1 as int,
        )
    &&& forall|l: int, s: int|
        0 <= l < literals.len() && #[trigger] occurs_at(literals[l], haystack, s) ==> hits.contains(
            (l as usize, s as usize),
        )
    &&& hits.no_duplicates()
}

/// Whether the hits stand in the order of the positions where they end.
pub open spec fn in_end_order(literals: Seq<Seq<u8>>, hits: Seq<(usize, usize)>) -> bool {
    forall|a: int, b: int|
        0 <= a < b < hits.len() ==> (#[trigger] hits[a]).1 + literals[hits[a].0 as int].len() <= (
        #[trigger] hits[b]).1 + literals[hits[b].0 as int].len()
}

/// Calls `AhoCorasickBuilder::build` on a builder whose only setting is the
/// kind, `AhoCorasickKind::DFA`. The contract claims that an automaton that
/// was built searches for exactly the literals given, numbered in the order
/// given, and supports overlapping searches, which the builder's defaults
/// (standard match semantics, unanchored start) provide. Of failure it
/// claims that it depends on the literals alone: the builder fails where one
/// of its fixed limits is passed, and `builder_accepts` names whether none
/// is.
#[verifier::external_body]
pub(crate) fn build_automaton(literals: &Vec<Vec<u8>>) -> (r: Result<AhoCorasick, BuildError>)
    requires
        forall|i: int| 0 <= i < literals.len() ==> (#[trigger] literals[i]).len() > 0,
    ensures
        r is Ok <==> builder_accepts(byte_strings(literals@)),
        r matches Ok(ac) ==> automaton_literals(ac) == byte_strings(literals@) && reports_overlaps(
            ac,
        ),
{
    AhoCorasick::builder().kind(Some(AhoCorasickKind::DFA)).build(literals)
}

/// Calls `AhoCorasick::find_overlapping_iter`, which panics on an automaton
/// that does not support overlapping searches. The contract claims what the
/// crate documents of the iterator: it yields all possible matches at every
/// position, that is each occurrence of each literal; that it yields none
/// twice is read from the search loop, which visits each end position once
/// and there each literal of the state once. The same loop moves forward
/// through the buffer, so that the hits come in the order of their ends;
/// the order of the hits that end at one position is left to the automaton
/// and only named.
#[verifier::external_body]
pub(crate) fn overlapping_search<'a, 'h>(ac: &'a AhoCorasick, haystack: &'h [u8]) -> (it:
    FindOverlappingIter<'a, 'h>)
    requires
        reports_overlaps(*ac),
        forall|i: int|
            0 <= i < automaton_literals(*ac).len() ==> (#[trigger] automaton_literals(*ac)[i]).len()
                > 0,
    ensures
        pending_hits(it) == overlapping_hits(automaton_literals(*ac), haystack@),
        every_occurrence_once(automaton_literals(*ac), haystack@, pending_hits(it)),
        in_end_order(automaton_literals(*ac), pending_hits(it)),
{
    ac.find_overlapping_iter(haystack)
}

/// Calls `Iterator::next` on the search and takes from the match the number
/// of the literal (`Match::pattern`) and where it starts (`Match::start`).
/// The contract claims that this is the first of the pending hits and that
/// the others stay pending, and that `None` comes when none is pending.
#[verifier::external_body]
pub(crate) fn next_hit(it: &mut FindOverlappingIter<'_, '_>) -> (r: Option<(usize, usize)>)
    ensures
        r matches Some(hit) ==> pending_hits(*old(it)).len() > 0 && hit == pending_hits(*old(it))[0]
            && pending_hits(*final(it)) == pending_hits(*old(it)).drop_first(),
        r is None ==> pending_hits(*old(it)).len() == 0 && pending_hits(*final(it)).len() == 0,
{
    it.next().map(|m| (m.pattern().as_usize(), m.start()))
}

} // verus!
