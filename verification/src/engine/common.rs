//! Patterns: their text form, their compiled form and their anchors.

use vstd::prelude::*;
use vstd::slice::{slice_subrange, slice_to_vec};

verus! {

/// Why a pattern string cannot be compiled.
#[derive(Clone, Copy, Debug, PartialEq, Eq, Structural)]
pub enum PatternError {
    /// Some token is not one of `HH`, `??`, `H?`, `?H` with `H` a hex digit.
    MalformedPattern,
    /// The string holds no token at all.
    EmptyPattern,
}

/// Where a compiled pattern is stored and anchored.
#[derive(Clone, Copy, Debug)]
pub struct PatternInfo {
    /// The pattern's identifier: its position among the patterns given.
    pub id: usize,
    /// The number of bytes of the pattern.
    pub len: usize,
    /// Where the pattern's bytes begin within the shared arrays.
    pub data_offset: usize,
    /// Where the anchor begins within the pattern.
    pub anchor_offset: usize,
}

/// A compiled pattern: for each position the byte that is required and the
/// bits of it that count.
pub struct CompiledPattern {
    pub values: Seq<u8>,
    pub masks: Seq<u8>,
}

/// The characters that separate tokens: Unicode's `White_Space` property.
pub open spec fn is_space(c: char) -> bool {
    let n = c as u32;
    ||| 0x09 <= n <= 0x0D
    ||| n == 0x20
    ||| n == 0x85
    ||| n == 0xA0
    ||| n == 0x1680
    ||| 0x2000 <= n <= 0x200A
    ||| n == 0x2028
    ||| n == 0x2029
    ||| n == 0x202F
    ||| n == 0x205F
    ||| n == 0x3000
}

/// The value of a hexadecimal digit, in either case.
pub open spec fn hex_value(c: char) -> Option<u8> {
    if '0' <= c <= '9' {
        Some((c as u32 - '0' as u32) as u8)
    } else if 'a' <= c <= 'f' {
        Some((c as u32 - 'a' as u32 + 10) as u8)
    } else if 'A' <= c <= 'F' {
        Some((c as u32 - 'A' as u32 + 10) as u8)
    } else {
        None
    }
}

/// The `(value, mask)` pair that a token stands for, or `None` where the
/// token is not of one of the four shapes.
pub open spec fn token_byte(t: Seq<char>) -> Option<(u8, u8)> {
    if t.len() != 2 {
        None
    } else if t[0] == '?' && t[1] == '?' {
        Some((0x00u8, 0x00u8))
    } else if t[1] == '?' {
        match hex_value(t[0]) {
            Some(h) => Some(((h * 16) as u8, 0xF0u8)),
            None => None,
        }
    } else if t[0] == '?' {
        match hex_value(t[1]) {
            Some(l) => Some((l, 0x0Fu8)),
            None => None,
        }
    } else {
        match (hex_value(t[0]), hex_value(t[1])) {
            (Some(h), Some(l)) => Some(((h * 16 + l) as u8, 0xFFu8)),
            _ => None,
        }
    }
}

/// The byte that a well-formed token requires, wildcard bits cleared.
pub open spec fn token_value(t: Seq<char>) -> u8 {
    match token_byte(t) {
        Some(pair) => pair.0,
        None => 0u8,
    }
}

/// The bits that a well-formed token fixes.
pub open spec fn token_mask(t: Seq<char>) -> u8 {
    match token_byte(t) {
        Some(pair) => pair.1,
        None => 0u8,
    }
}

/// The state of splitting a string into tokens, read from left to right.
pub struct Splitting {
    /// The tokens that a separator has already ended.
    pub closed: Seq<Seq<char>>,
    /// The characters read since the last separator.
    pub open: Seq<char>,
}

/// Splitting `s`: a separator ends the open token, if there is one; any
/// other character extends it.
pub open spec fn split(s: Seq<char>) -> Splitting
    decreases s.len(),
{
    if s.len() == 0 {
        Splitting { closed: Seq::empty(), open: Seq::empty() }
    } else {
        let before = split(s.drop_last());
        if !is_space(s.last()) {
            Splitting { closed: before.closed, open: before.open.push(s.last()) }
        } else if before.open.len() > 0 {
            Splitting { closed: before.closed.push(before.open), open: Seq::empty() }
        } else {
            before
        }
    }
}

/// The tokens of `s`: its maximal runs of characters that are no separators,
/// in order.
pub open spec fn tokens(s: Seq<char>) -> Seq<Seq<char>> {
    let st = split(s);
    if st.open.len() > 0 {
        st.closed.push(st.open)
    } else {
        st.closed
    }
}

/// Whether `t` is a word: it has a character, and none of its characters is
/// a separator.
pub open spec fn is_word(t: Seq<char>) -> bool {
    t.len() > 0 && forall|k: int| 0 <= k < t.len() ==> !is_space(#[trigger] t[k])
}

/// Each token is a word.
pub proof fn law_tokens_are_words(s: Seq<char>)
    ensures
        forall|j: int| 0 <= j < tokens(s).len() ==> is_word(#[trigger] tokens(s)[j]),
{
    lemma_split_words(s);
}

/// Splitting yields words only: the closed tokens are words, and the open
/// token holds no separator.
proof fn lemma_split_words(s: Seq<char>)
    ensures
        forall|j: int| 0 <= j < split(s).closed.len() ==> is_word(#[trigger] split(s).closed[j]),
        forall|k: int| 0 <= k < split(s).open.len() ==> !is_space(#[trigger] split(s).open[k]),
    decreases s.len(),
{
    if s.len() > 0 {
        lemma_split_words(s.drop_last());
        let before = split(s.drop_last());
        let now = split(s);
        assert forall|j: int| 0 <= j < now.closed.len() implies is_word(
            #[trigger] now.closed[j],
        ) by {
            if j < before.closed.len() {
                assert(now.closed[j] == before.closed[j]);
            }
        }
        assert forall|k: int| 0 <= k < now.open.len() implies !is_space(#[trigger] now.open[k]) by {
            if k < before.open.len() {
                assert(now.open[k] == before.open[k]);
            }
        }
    }
}

/// Whether each of the tokens stands for a byte.
pub open spec fn all_well_formed(toks: Seq<Seq<char>>) -> bool {
    forall|j: int| 0 <= j < toks.len() ==> (#[trigger] token_byte(toks[j])) is Some
}

/// What a pattern string compiles to.
pub open spec fn compile(s: Seq<char>) -> Result<CompiledPattern, PatternError> {
    let toks = tokens(s);
    if !all_well_formed(toks) {
        Err(PatternError::MalformedPattern)
    } else if toks.len() == 0 {
        Err(PatternError::EmptyPattern)
    } else {
        Ok(
            CompiledPattern {
                values: Seq::new(toks.len(), |j: int| token_value(toks[j])),
                masks: Seq::new(toks.len(), |j: int| token_mask(toks[j])),
            },
        )
    }
}

fn is_separator(c: char) -> (r: bool)
    ensures
        r == is_space(c),
{
    let n: u32 = c as u32;
    (0x09 <= n && n <= 0x0D) || n == 0x20 || n == 0x85 || n == 0xA0 || n == 0x1680 || (0x2000 <= n
        && n <= 0x200A) || n == 0x2028 || n == 0x2029 || n == 0x202F || n == 0x205F || n == 0x3000
}

fn hex_digit(c: char) -> (d: Option<u8>)
    ensures
        d == hex_value(c),
        d matches Some(v) ==> v < 16,
{
    let n: u32 = c as u32;
    if 0x30 <= n && n <= 0x39 {
        Some((n - 0x30) as u8)
    } else if 0x61 <= n && n <= 0x66 {
        Some((n - 0x61 + 10) as u8)
    } else if 0x41 <= n && n <= 0x46 {
        Some((n - 0x41 + 10) as u8)
    } else {
        None
    }
}

/// Compiles one token of two characters.
fn token_pair(a: char, b: char) -> (r: Option<(u8, u8)>)
    ensures
        r == token_byte(seq![a, b]),
{
    if a == '?' && b == '?' {
        Some((0x00, 0x00))
    } else if b == '?' {
        match hex_digit(a) {
            Some(h) => Some((h * 16, 0xF0)),
            None => None,
        }
    } else if a == '?' {
        match hex_digit(b) {
            Some(l) => Some((l, 0x0F)),
            None => None,
        }
    } else {
        match (hex_digit(a), hex_digit(b)) {
            (Some(h), Some(l)) => Some((h * 16 + l, 0xFF)),
            _ => None,
        }
    }
}

/// How the state of the compiler's loop stands for a splitting: the bytes of
/// the closed tokens, whether one of them was malformed, and the first two
/// characters and the capped length of the open one.
spec fn tracks(
    st: Splitting,
    values: Seq<u8>,
    masks: Seq<u8>,
    bad: bool,
    open_len: usize,
    c0: char,
    c1: char,
) -> bool {
    &&& bad == !all_well_formed(st.closed)
    &&& !bad ==> values =~= Seq::new(st.closed.len(), |j: int| token_value(st.closed[j]))
    &&& !bad ==> masks =~= Seq::new(st.closed.len(), |j: int| token_mask(st.closed[j]))
    &&& open_len == if st.open.len() < 3 {
        st.open.len()
    } else {
        3
    }
    &&& st.open.len() >= 1 ==> c0 == st.open[0]
    &&& st.open.len() >= 2 ==> c1 == st.open[1]
}

/// Ends the open token: appends its byte, or records that it is malformed.
fn close_token(
    values: &mut Vec<u8>,
    masks: &mut Vec<u8>,
    bad: &mut bool,
    open_len: usize,
    c0: char,
    c1: char,
    Ghost(st): Ghost<Splitting>,
)
    requires
        st.open.len() > 0,
        tracks(st, old(values)@, old(masks)@, *old(bad), open_len, c0, c1),
    ensures
        tracks(
            Splitting { closed: st.closed.push(st.open), open: Seq::empty() },
            final(values)@,
            final(masks)@,
            *final(bad),
            0,
            c0,
            c1,
        ),
{
    let ghost closed = st.closed.push(st.open);
    let byte = if open_len == 2 {
        assert(st.open =~= seq![c0, c1]);
        token_pair(c0, c1)
    } else {
        None
    };
    assert(byte == token_byte(st.open));
    match byte {
        Some(pair) => {
            values.push(pair.0);
            masks.push(pair.1);
            proof {
                if !*bad {
                    assert forall|j: int| 0 <= j < closed.len() implies (#[trigger] token_byte(
                        closed[j],
                    )) is Some by {
                        if j < st.closed.len() {
                            assert(closed[j] == st.closed[j]);
                        }
                    }
                } else {
                    let j = choose|j: int|
                        0 <= j < st.closed.len() && !((#[trigger] token_byte(
                            st.closed[j],
                        )) is Some);
                    assert(closed[j] == st.closed[j]);
                }
            }
        },
        None => {
            *bad = true;
            assert(closed[st.closed.len() as int] == st.open);
        },
    }
}

/// Compiles a pattern string into its required bytes and their masks.
///
/// Tokens are separated by white space. `HH` fixes a byte, `??` leaves it
/// open, `H?` fixes the high nibble and `?H` the low one. The result is an
/// error exactly when a token has another shape or the string has no token.
pub fn parse_hex_pattern(pattern: &str) -> (res: Result<(Vec<u8>, Vec<u8>), PatternError>)
    ensures
        res matches Ok(vm) ==> compile(pattern@) matches Ok(p) && p.values == vm.0@ && p.masks
            == vm.1@,
        res matches Err(e) ==> compile(pattern@) matches Err(f) && e == f,
{
    let mut values: Vec<u8> = Vec::new();
    let mut masks: Vec<u8> = Vec::new();
    let mut bad = false;
    let mut open_len: usize = 0;
    let mut c0 = '?';
    let mut c1 = '?';
    for c in it: pattern.chars()
        invariant
            it.seq() == pattern@,
            tracks(split(pattern@.take(it.index() as int)), values@, masks@, bad, open_len, c0, c1),
    {
        let ghost before = split(pattern@.take(it.index() as int));
        proof {
            let next = pattern@.take(it.index() + 1);
            assert(next.drop_last() =~= pattern@.take(it.index() as int));
            assert(next.last() == c);
        }
        if is_separator(c) {
            if open_len > 0 {
                close_token(&mut values, &mut masks, &mut bad, open_len, c0, c1, Ghost(before));
                open_len = 0;
            }
        } else {
            if open_len == 0 {
                c0 = c;
            } else if open_len == 1 {
                c1 = c;
            }
            if open_len < 3 {
                open_len = open_len + 1;
            }
        }
    }
    let ghost before = split(pattern@);
    assert(pattern@.take(pattern@.len() as int) =~= pattern@);
    if open_len > 0 {
        close_token(&mut values, &mut masks, &mut bad, open_len, c0, c1, Ghost(before));
    }
    if bad {
        Err(PatternError::MalformedPattern)
    } else if values.len() == 0 {
        Err(PatternError::EmptyPattern)
    } else {
        Ok((values, masks))
    }
}

/// Whether `masks[s .. s + l]` lies within `masks` and holds only fully
/// specified bytes.
pub open spec fn full_run(masks: Seq<u8>, s: int, l: int) -> bool {
    &&& 0 <= s
    &&& 0 <= l
    &&& s + l <= masks.len()
    &&& forall|k: int| s <= k < s + l ==> masks[k] == 0xFFu8
}

/// Whether some byte of the pattern is fully specified.
pub open spec fn has_full_byte(masks: Seq<u8>) -> bool {
    exists|k: int| 0 <= k < masks.len() && masks[k] == 0xFFu8
}

/// Whether `masks[s .. s + l]` is the anchor run: a nonempty run of fully
/// specified bytes than which none is longer, and the first of that length.
pub open spec fn is_anchor_run(masks: Seq<u8>, s: int, l: int) -> bool {
    &&& l > 0
    &&& full_run(masks, s, l)
    &&& forall|s2: int, l2: int| #[trigger] full_run(masks, s2, l2) ==> l2 <= l
    &&& forall|s2: int| 0 <= s2 < s ==> !#[trigger] full_run(masks, s2, l)
}

/// Where the anchor of a pattern lies: `(offset, length)`. A pattern without
/// a fully specified byte is anchored at its first byte.
pub open spec fn anchor_span(masks: Seq<u8>) -> (int, int) {
    if has_full_byte(masks) {
        choose|span: (int, int)| is_anchor_run(masks, span.0, span.1)
    } else {
        (0, 1)
    }
}

/// The anchor's offset within the pattern.
pub open spec fn anchor_offset(p: CompiledPattern) -> int {
    anchor_span(p.masks).0
}

/// The anchor's bytes.
pub open spec fn anchor_bytes(p: CompiledPattern) -> Seq<u8> {
    let span = anchor_span(p.masks);
    p.values.subrange(span.0, span.0 + span.1)
}

/// The bytes by which an engine looks for the pattern: its anchor, where the
/// pattern has a fully specified byte. A pattern without one has no bytes
/// that the buffer must hold, so its search key is empty and every position
/// is a candidate for it.
pub open spec fn search_key(p: CompiledPattern) -> Seq<u8> {
    if has_full_byte(p.masks) {
        anchor_bytes(p)
    } else {
        Seq::empty()
    }
}

/// Every anchor has at least one byte, and lies within its pattern.
pub proof fn lemma_anchor_nonempty(p: CompiledPattern)
    requires
        p.values.len() == p.masks.len(),
        p.values.len() > 0,
    ensures
        anchor_bytes(p).len() > 0,
        0 <= anchor_offset(p),
        anchor_offset(p) + anchor_bytes(p).len() <= p.values.len(),
        anchor_bytes(p).len() == anchor_span(p.masks).1,
{
    if has_full_byte(p.masks) {
        lemma_anchor_run_exists(p.masks);
        let span = choose|span: (int, int)| is_anchor_run(p.masks, span.0, span.1);
        assert(full_run(p.masks, span.0, span.1));
    }
}

/// A pattern with a fully specified byte has an anchor run.
pub proof fn lemma_anchor_run_exists(masks: Seq<u8>)
    requires
        has_full_byte(masks),
    ensures
        exists|span: (int, int)| is_anchor_run(masks, span.0, span.1),
{
    let k = choose|k: int| 0 <= k < masks.len() && masks[k] == 0xFFu8;
    assert(full_run(masks, k, 1));
    // The longest length for which a run exists, then the first start for it.
    let l = lemma_longest_run(masks, masks.len() as int);
    let s = lemma_first_run(masks, l, masks.len() as int - l);
    assert(is_anchor_run(masks, (s, l).0, (s, l).1));
}

/// Some length `l` has a run and no greater length up to `bound` has one.
proof fn lemma_longest_run(masks: Seq<u8>, bound: int) -> (l: int)
    requires
        0 <= bound <= masks.len(),
        exists|s: int| full_run(masks, s, 1),
    ensures
        1 <= l <= masks.len(),
        exists|s: int| full_run(masks, s, l),
        forall|s2: int, l2: int| #[trigger] full_run(masks, s2, l2) && l2 <= bound ==> l2 <= l,
    decreases bound,
{
    if bound <= 1 {
        1
    } else if exists|s: int| full_run(masks, s, bound) {
        bound
    } else {
        let l = lemma_longest_run(masks, bound - 1);
        l
    }
}

/// The first start of a run of length `l`, searched downward from `bound`.
proof fn lemma_first_run(masks: Seq<u8>, l: int, bound: int) -> (s: int)
    requires
        exists|s: int| full_run(masks, s, l) && s <= bound,
    ensures
        full_run(masks, s, l),
        forall|s2: int| 0 <= s2 < s ==> !#[trigger] full_run(masks, s2, l),
    decreases bound,
{
    let any = choose|s: int| full_run(masks, s, l) && s <= bound;
    if exists|s: int| full_run(masks, s, l) && s <= bound - 1 {
        lemma_first_run(masks, l, bound - 1)
    } else {
        assert(any == bound);
        assert forall|s2: int| 0 <= s2 < bound implies !#[trigger] full_run(masks, s2, l) by {
            if full_run(masks, s2, l) {
                assert(full_run(masks, s2, l) && s2 <= bound - 1);
            }
        }
        bound
    }
}

/// There is at most one anchor run.
pub proof fn lemma_anchor_run_unique(masks: Seq<u8>, s: int, l: int, s2: int, l2: int)
    requires
        is_anchor_run(masks, s, l),
        is_anchor_run(masks, s2, l2),
    ensures
        s == s2,
        l == l2,
{
    assert(full_run(masks, s, l));
    assert(full_run(masks, s2, l2));
}

/// An anchor run is the span that `anchor_span` names.
pub proof fn lemma_anchor_span_is(masks: Seq<u8>, s: int, l: int)
    requires
        is_anchor_run(masks, s, l),
    ensures
        has_full_byte(masks),
        anchor_span(masks) == (s, l),
{
    assert(masks[s] == 0xFFu8);
    let span = choose|span: (int, int)| is_anchor_run(masks, span.0, span.1);
    assert(is_anchor_run(masks, (s, l).0, (s, l).1));
    lemma_anchor_run_unique(masks, s, l, span.0, span.1);
}

/// The best run among those that end at or before `c`.
spec fn best_before(masks: Seq<u8>, c: int, s: int, l: int) -> bool {
    &&& 0 <= l
    &&& 0 <= s
    &&& l > 0 ==> full_run(masks, s, l) && s + l <= c
    &&& forall|s2: int, l2: int| #[trigger] full_run(masks, s2, l2) && s2 + l2 <= c ==> l2 <= l
    &&& l > 0 ==> forall|s2: int| 0 <= s2 < s ==> !#[trigger] full_run(masks, s2, l)
}

/// Closing the run `masks[c .. i]` that a byte which is not fully specified
/// (or the end of the pattern) follows: the better of it and the best so far
/// is the best before `bound`.
proof fn lemma_close_run(masks: Seq<u8>, c: int, i: int, bound: int, s: int, l: int)
    requires
        0 <= c <= i <= masks.len(),
        bound == i + 1 || (bound == i && i == masks.len()),
        i < masks.len() ==> masks[i] != 0xFFu8,
        c > 0 ==> masks[c - 1] != 0xFFu8,
        full_run(masks, c, i - c),
        best_before(masks, c, s, l),
    ensures
        i - c > l ==> best_before(masks, bound, c, i - c),
        i - c <= l ==> best_before(masks, bound, s, l),
{
    let cur = i - c;
    let top = if cur > l {
        cur
    } else {
        l
    };
    assert forall|s2: int, l2: int| #[trigger]
        full_run(masks, s2, l2) && s2 + l2 <= bound implies l2 <= top by {
        if l2 > 0 {
            if i < masks.len() && s2 + l2 > i {
                assert(masks[i] == 0xFFu8);
            }
            if s2 < c {
                if s2 + l2 >= c {
                    assert(masks[c - 1] == 0xFFu8);
                }
            }
        }
    }
    if cur > l {
        assert forall|s2: int| 0 <= s2 < c implies !#[trigger] full_run(masks, s2, cur) by {
            if full_run(masks, s2, cur) {
                if s2 + cur >= c {
                    assert(masks[c - 1] == 0xFFu8);
                }
            }
        }
    }
}

/// Selects the anchor of a compiled pattern: its longest run of fully
/// specified bytes, the first one where several are longest. Returns the
/// anchor's bytes and its offset within the pattern. A pattern without any
/// fully specified byte gets its first value byte, at offset 0.
pub fn find_best_anchor(values: &[u8], masks: &[u8]) -> (r: (Vec<u8>, usize))
    requires
        values.len() == masks.len(),
        values.len() > 0,
    ensures
        has_full_byte(masks@) ==> is_anchor_run(masks@, r.1 as int, r.0.len() as int),
        !has_full_byte(masks@) ==> r.1 == 0 && r.0.len() == 1,
        r.0@ == values@.subrange(r.1 as int, r.1 + r.0.len()),
        (r.1 as int, r.0.len() as int) == anchor_span(masks@),
        r.0@ == anchor_bytes((CompiledPattern { values: values@, masks: masks@ })),
{
    let mut best_len: usize = 0;
    let mut best_start: usize = 0;
    let mut current_start: usize = 0;
    let mut current_len: usize = 0;
    let mut i: usize = 0;
    while i < masks.len()
        invariant
            i <= masks.len(),
            current_len <= i,
            current_len > 0 ==> current_start == i - current_len,
            full_run(masks@, i - current_len, current_len as int),
            i - current_len > 0 ==> masks@[i - current_len - 1] != 0xFFu8,
            best_before(masks@, i - current_len, best_start as int, best_len as int),
        decreases masks.len() - i,
    {
        if masks[i] == 0xFF {
            if current_len == 0 {
                current_start = i;
            }
            current_len += 1;
        } else {
            proof {
                lemma_close_run(
                    masks@,
                    i - current_len,
                    i as int,
                    i + 1,
                    best_start as int,
                    best_len as int,
                );
            }
            if current_len > best_len {
                best_len = current_len;
                best_start = current_start;
            }
            current_len = 0;
        }
        i += 1;
    }
    proof {
        lemma_close_run(
            masks@,
            i - current_len,
            i as int,
            i as int,
            best_start as int,
            best_len as int,
        );
    }
    if current_len > best_len {
        best_len = current_len;
        best_start = current_start;
    }
    assert(best_before(masks@, masks@.len() as int, best_start as int, best_len as int));
    if best_len == 0 {
        proof {
            if has_full_byte(masks@) {
                let k = choose|k: int| 0 <= k < masks@.len() && masks@[k] == 0xFFu8;
                assert(full_run(masks@, k, 1));
            }
        }
        let mut anchor: Vec<u8> = Vec::new();
        anchor.push(values[0]);
        assert(anchor@ =~= values@.subrange(0, 1));
        return (anchor, 0);
    }
    proof {
        assert(is_anchor_run(masks@, best_start as int, best_len as int));
        lemma_anchor_span_is(masks@, best_start as int, best_len as int);
    }
    let anchor = slice_to_vec(slice_subrange(values, best_start, best_start + best_len));
    (anchor, best_start)
}

} // verus!
