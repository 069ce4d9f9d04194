//! Skip search for a pattern of fixed bytes and wildcards.
//!
//! A pattern is a sequence of tokens, `Some(b)` for the fixed byte `b` and
//! `None` for a wildcard. A window of the buffer is as long as the pattern.
//! The search returns the least offset whose window matches. It tries windows
//! from left to right and, after one that does not match, steps over the
//! windows that the last byte of that window rules out.

use crate::error::PatchError;
use crate::pattern::{parse_sig, sig_of, well_formed};
use vstd::prelude::*;

verus! {

/// Whether a token accepts a byte: a fixed token accepts its own value, a
/// wildcard accepts every byte.
pub open spec fn token_accepts(tok: Option<u8>, b: u8) -> bool {
    match tok {
        Some(v) => v == b,
        None => true,
    }
}

/// Whether the window of `data` that starts at `off` satisfies `pat`: the
/// window lies within the buffer and each token accepts the byte under it.
pub open spec fn window_matches(pat: Seq<Option<u8>>, data: Seq<u8>, off: int) -> bool {
    &&& 0 <= off
    &&& off + pat.len() <= data.len()
    &&& forall|j: int| 0 <= j < pat.len() ==> token_accepts(#[trigger] pat[j], data[off + j])
}

/// Whether `off` is the least offset whose window matches.
pub open spec fn least_match(pat: Seq<Option<u8>>, data: Seq<u8>, off: int) -> bool {
    &&& window_matches(pat, data, off)
    &&& forall|k: int| 0 <= k < off ==> !window_matches(pat, data, k)
}

/// Whether no window of the buffer matches.
pub open spec fn no_match(pat: Seq<Option<u8>>, data: Seq<u8>) -> bool {
    forall|k: int| !window_matches(pat, data, k)
}

/// The brute-force search: the least offset from `start` on whose window
/// matches, trying every offset in turn.
pub open spec fn first_match_from(pat: Seq<Option<u8>>, data: Seq<u8>, start: int) -> Option<int>
    decreases
        if start < data.len() {
            data.len() - start
        } else {
            0
        },
{
    if start < 0 || start + pat.len() > data.len() {
        None
    } else if window_matches(pat, data, start) {
        Some(start)
    } else {
        first_match_from(pat, data, start + 1)
    }
}

/// What a search returns: `InvalidPattern` for a pattern that is empty or
/// longer than the buffer, else the least offset whose window matches, and
/// `NotFound` where there is none.
pub open spec fn brute_force_result(pat: Seq<Option<u8>>, data: Seq<u8>) -> Result<
    usize,
    PatchError,
> {
    if pat.len() == 0 || pat.len() > data.len() {
        Err(PatchError::InvalidPattern)
    } else {
        match first_match_from(pat, data, 0) {
            Some(off) => Ok(off as usize),
            None => Err(PatchError::NotFound),
        }
    }
}

/// What a search for the pattern that `sig` spells returns: `ParseError` for
/// a malformed text, else what the search for the parsed pattern returns.
pub open spec fn sig_find_result(sig: Seq<char>, data: Seq<u8>) -> Result<usize, PatchError> {
    if well_formed(sig) {
        brute_force_result(sig_of(sig), data)
    } else {
        Err(PatchError::ParseError)
    }
}

/// The greatest position below `k` at which `pat` holds the token `tok`, or
/// -1 where there is none.
pub open spec fn last_holding(pat: Seq<Option<u8>>, tok: Option<u8>, k: int) -> int
    decreases k,
{
    if k <= 0 {
        -1
    } else if pat[k - 1] == tok {
        k - 1
    } else {
        last_holding(pat, tok, k - 1)
    }
}

/// The skip distance of byte `b`: the distance from the rightmost fixed `b`
/// before the last position to the last position, and the pattern's length
/// where no position before the last holds a fixed `b`. Wildcards and the
/// last token have no part in it.
pub open spec fn skip_dist(pat: Seq<Option<u8>>, b: u8) -> int {
    pat.len() - 1 - last_holding(pat, Some(b), pat.len() - 1)
}

/// The greatest step that passes over no window with a wildcard on the byte
/// under the anchor: the distance from the rightmost wildcard before the last
/// position to the last position, and the pattern's length where no position
/// before the last holds a wildcard.
pub open spec fn wildcard_cap(pat: Seq<Option<u8>>) -> int {
    pat.len() - 1 - last_holding(pat, None, pat.len() - 1)
}

/// By how far the anchor advances after a window whose last byte is `b` did
/// not match: the skip distance of `b`, no more than the cap that the
/// wildcards set, and never less than 1.
pub open spec fn step_after(pat: Seq<Option<u8>>, b: u8) -> int {
    let least = if skip_dist(pat, b) < wildcard_cap(pat) {
        skip_dist(pat, b)
    } else {
        wildcard_cap(pat)
    };
    if least < 1 {
        1
    } else {
        least
    }
}

/// Compares one window with the pattern, from its last token back to its
/// first. A window that does not lie within the buffer does not match.
pub fn matches_at(pat: &[Option<u8>], data: &[u8], off: usize) -> (b: bool)
    ensures
        b == window_matches(pat@, data@, off as int),
{
    let m: usize = pat.len();
    let n: usize = data.len();
    if off > n || m > n - off {
        return false;
    }
    let mut j: usize = m;
    while j > 0
        invariant
            j <= m,
            m == pat@.len(),
            n == data@.len(),
            off + m <= n,
            forall|q: int| j <= q < m ==> token_accepts(#[trigger] pat@[q], data@[off + q]),
        decreases j,
    {
        j = j - 1;
        match pat[j] {
            Some(v) => {
                if data[off + j] != v {
                    return false;
                }
            },
            None => {},
        }
    }
    true
}

/// Builds the table of skip distances, one entry for each byte value. Where
/// a byte is fixed at several positions before the last, the rightmost counts.
pub fn skip_table(pat: &[Option<u8>]) -> (skip: Vec<usize>)
    ensures
        skip@.len() == 256,
        forall|b: u8| #[trigger] skip@[b as int] == skip_dist(pat@, b),
{
    let m: usize = pat.len();
    let mut skip: Vec<usize> = vec![m; 256];
    if m == 0 {
        return skip;
    }
    let mut i: usize = 0;
    while i < m - 1
        invariant
            m == pat@.len(),
            0 < m,
            i <= m - 1,
            skip@.len() == 256,
            forall|b: u8|
                #[trigger] skip@[b as int] == m - 1 - last_holding(pat@, Some(b), i as int),
        decreases m - 1 - i,
    {
        proof {
            assert forall|b: u8| -1 <= last_holding(pat@, Some(b), i as int) by {
                lemma_last_holding(pat@, Some(b), i as int);
            }
        }
        match pat[i] {
            Some(b) => {
                skip[b as usize] = (m - 1) - i;
            },
            None => {},
        }
        i = i + 1;
    }
    skip
}

/// Computes the cap that the wildcards before the last position set on every
/// step.
pub fn step_cap(pat: &[Option<u8>]) -> (cap: usize)
    ensures
        cap == wildcard_cap(pat@),
{
    let m: usize = pat.len();
    let mut cap: usize = m;
    if m == 0 {
        return cap;
    }
    let mut i: usize = 0;
    while i < m - 1
        invariant
            m == pat@.len(),
            0 < m,
            i <= m - 1,
            cap == m - 1 - last_holding(pat@, None, i as int),
        decreases m - 1 - i,
    {
        if pat[i].is_none() {
            cap = (m - 1) - i;
        }
        i = i + 1;
    }
    cap
}

/// Searches `data` for `pat` and returns the least offset whose window
/// satisfies it.
///
/// After a window that does not match, the anchor moves on by the skip
/// distance of that window's last byte, capped so that no window is passed
/// over that would lay a wildcard on that byte.
#[verifier::loop_isolation(false)]
pub fn find(pat: &[Option<u8>], data: &[u8]) -> (res: Result<usize, PatchError>)
    ensures
        res == brute_force_result(pat@, data@),
        res matches Ok(off) ==> least_match(pat@, data@, off as int),
        res == Err::<usize, PatchError>(PatchError::NotFound) ==> no_match(pat@, data@),
{
    let n: usize = data.len();
    let m: usize = pat.len();
    if m == 0 || m > n {
        return Err(PatchError::InvalidPattern);
    }
    proof {
        lemma_brute_force_result(pat@, data@);
    }
    let skip: Vec<usize> = skip_table(pat);
    let cap: usize = step_cap(pat);
    let mut i: usize = m - 1;
    while i < n
        invariant
            m - 1 <= i,
            forall|k: int| 0 <= k < i - (m - 1) ==> !window_matches(pat@, data@, k),
        decreases
            if i < n {
                n - i
            } else {
                0
            },
    {
        let start: usize = i - (m - 1);
        if matches_at(pat, data, start) {
            assert(least_match(pat@, data@, start as int));
            return Ok(start);
        }
        let step: usize = skip[data[i] as usize];
        let step: usize = if step > cap {
            cap
        } else {
            step
        };
        let step: usize = if step < 1 {
            1
        } else {
            step
        };
        proof {
            assert forall|k: int| start < k < start + step implies !window_matches(
                pat@,
                data@,
                k,
            ) by {
                lemma_step_passes_no_match(pat@, data@, i as int, k - start);
            }
        }
        i = i.saturating_add(step);
    }
    Err(PatchError::NotFound)
}

/// Parses the text of a search pattern and searches `data` for it.
pub fn sig_find(sig: &str, data: &[u8]) -> (res: Result<usize, PatchError>)
    ensures
        res == sig_find_result(sig@, data@),
        well_formed(sig@) ==> res == brute_force_result(sig_of(sig@), data@),
        res matches Ok(off) ==> well_formed(sig@) && least_match(sig_of(sig@), data@, off as int),
        res == Err::<usize, PatchError>(PatchError::NotFound) ==> well_formed(sig@) && no_match(
            sig_of(sig@),
            data@,
        ),
{
    match parse_sig(sig) {
        Ok(pat) => find(pat.as_slice(), data),
        Err(e) => Err(e),
    }
}

/// `last_holding` stays within `-1 .. k`, names a position that holds the
/// token, and no position between it and `k` holds the token.
pub proof fn lemma_last_holding(pat: Seq<Option<u8>>, tok: Option<u8>, k: int)
    requires
        0 <= k <= pat.len(),
    ensures
        -1 <= last_holding(pat, tok, k) < k,
        last_holding(pat, tok, k) >= 0 ==> pat[last_holding(pat, tok, k)] == tok,
        forall|p: int| last_holding(pat, tok, k) < p < k ==> #[trigger] pat[p] != tok,
    decreases k,
{
    if k > 0 && pat[k - 1] != tok {
        lemma_last_holding(pat, tok, k - 1);
    }
}

/// The brute-force search returns a matching offset before which, from
/// `start` on, no window matches; it returns `None` only where no window from
/// `start` on matches.
pub proof fn lemma_first_match_is_least(pat: Seq<Option<u8>>, data: Seq<u8>, start: int)
    requires
        0 <= start,
    ensures
        match first_match_from(pat, data, start) {
            Some(off) => {
                &&& start <= off
                &&& window_matches(pat, data, off)
                &&& forall|k: int| start <= k < off ==> !window_matches(pat, data, k)
            },
            None => forall|k: int| start <= k ==> !window_matches(pat, data, k),
        },
    decreases
        if start < data.len() {
            data.len() - start
        } else {
            0
        },
{
    if start + pat.len() <= data.len() && !window_matches(pat, data, start) {
        lemma_first_match_is_least(pat, data, start + 1);
    }
}

/// What a search returns, said without the brute-force search: an offset
/// exactly where it is the least whose window matches, and `NotFound` exactly
/// where the pattern fits the buffer and no window matches.
pub proof fn lemma_brute_force_result(pat: Seq<Option<u8>>, data: Seq<u8>)
    requires
        data.len() <= usize::MAX,
    ensures
        forall|off: usize|
            brute_force_result(pat, data) == Ok::<usize, PatchError>(off) <==> 0 < pat.len()
                && #[trigger] least_match(pat, data, off as int),
        brute_force_result(pat, data) == Err::<usize, PatchError>(PatchError::NotFound) <==> 0
            < pat.len() <= data.len() && no_match(pat, data),
        brute_force_result(pat, data) == Err::<usize, PatchError>(PatchError::InvalidPattern)
            <==> pat.len() == 0 || pat.len() > data.len(),
{
    lemma_first_match_is_least(pat, data, 0);
}

/// No window that a step passes over matches. Such a window would lay a token
/// before the last on the byte under the anchor; the cap makes that token a
/// fixed one, and the skip distance makes it another byte.
pub proof fn lemma_step_passes_no_match(pat: Seq<Option<u8>>, data: Seq<u8>, i: int, d: int)
    requires
        pat.len() - 1 <= i < data.len(),
        1 <= d < step_after(pat, data[i]),
    ensures
        !window_matches(pat, data, i - (pat.len() - 1) + d),
{
    let m = pat.len() as int;
    let b = data[i];
    let j = m - 1 - d;
    lemma_last_holding(pat, None, m - 1);
    lemma_last_holding(pat, Some(b), m - 1);
    assert(pat[j] is Some);
    if window_matches(pat, data, i - (m - 1) + d) {
        assert(token_accepts(pat[j], data[i - (m - 1) + d + j]));
        assert(pat[j] == Some(b));
    }
}

/// A wildcard accepts every byte: writing any value under a wildcard of a
/// window leaves unchanged whether that window matches.
pub proof fn lemma_wildcard_accepts_every_byte(
    pat: Seq<Option<u8>>,
    data: Seq<u8>,
    off: int,
    p: int,
    v: u8,
)
    requires
        0 <= p < pat.len(),
        pat[p] is None,
        0 <= off + p < data.len(),
    ensures
        window_matches(pat, data.update(off + p, v), off) == window_matches(pat, data, off),
{
    // Under every other token the byte is the one that was there, and the
    // wildcard accepts the old byte and the new one alike.
    let changed = data.update(off + p, v);
    if 0 <= off && off + pat.len() <= data.len() {
        assert forall|j: int| 0 <= j < pat.len() implies token_accepts(
            #[trigger] pat[j],
            changed[off + j],
        ) == token_accepts(pat[j], data[off + j]) by {}
    }
}

/// Writing any value under a wildcard of the window that a search found does
/// not lose the match: the search on the changed buffer still succeeds, at
/// that offset or at a lesser one.
pub proof fn lemma_wildcard_keeps_match_found(
    pat: Seq<Option<u8>>,
    data: Seq<u8>,
    off: usize,
    p: int,
    v: u8,
)
    requires
        data.len() <= usize::MAX,
        brute_force_result(pat, data) == Ok::<usize, PatchError>(off),
        0 <= p < pat.len(),
        pat[p] is None,
    ensures
        brute_force_result(pat, data.update(off + p, v)) matches Ok(again) && again <= off,
{
    let changed = data.update(off + p, v);
    lemma_brute_force_result(pat, data);
    assert(least_match(pat, data, off as int));
    lemma_wildcard_accepts_every_byte(pat, data, off as int, p, v);
    lemma_first_match_is_least(pat, changed, 0);
}

} // verus!
