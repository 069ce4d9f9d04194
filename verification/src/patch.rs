//! Replacement templates laid over a buffer, and whole signatures run on it.

use crate::error::PatchError;
use crate::pattern::{parse_rep, parse_sig, rep_of, sig_of, well_formed, Replacement};
use crate::search::{brute_force_result, find, least_match, sig_find_result};
use vstd::prelude::*;

verus! {

/// A signature: a name to show, the text of the search pattern and the text
/// of the replacement template.
#[derive(Clone, Copy, Debug)]
pub struct Patch<'a> {
    /// The name under which the outcome is shown.
    pub name: &'a str,
    /// The text of the search pattern.
    pub sig: &'a str,
    /// The text of the replacement template.
    pub rep: &'a str,
}

/// The byte that a replacement token leaves at a position that held `b`.
pub open spec fn replaced(r: Replacement, b: u8) -> u8 {
    match r {
        Replacement::Keep => b,
        Replacement::Value(v) => v,
    }
}

/// The buffer after the template `rep` was laid over it at `off`: each
/// position under a `Value` holds that value, every other position holds
/// what it held.
pub open spec fn patched(data: Seq<u8>, off: int, rep: Seq<Replacement>) -> Seq<u8> {
    Seq::new(
        data.len(),
        |i: int|
            if off <= i < off + rep.len() {
                replaced(rep[i - off], data[i])
            } else {
                data[i]
            },
    )
}

/// Whether every token of the template is `Keep`.
pub open spec fn all_keep(rep: Seq<Replacement>) -> bool {
    forall|j: int| 0 <= j < rep.len() ==> #[trigger] rep[j] == Replacement::Keep
}

/// What applying a template returns: the length check comes first, then the
/// range check, and only then the offset is echoed.
pub open spec fn apply_result(data_len: nat, off: usize, pat_len: nat, rep_len: nat) -> Result<
    usize,
    PatchError,
> {
    if pat_len != rep_len {
        Err(PatchError::TemplateLengthMismatch { pat: pat_len as usize, rep: rep_len as usize })
    } else if off + pat_len > data_len {
        Err(PatchError::OutOfRange)
    } else {
        Ok(off)
    }
}

/// What one signature returns on a buffer. The search pattern is parsed and
/// searched for first; only after a match the template is parsed and its
/// length held against the pattern's. The offset is that of the least
/// matching window.
pub open spec fn patch_result(sig: Seq<char>, rep: Seq<char>, data: Seq<u8>) -> Result<
    usize,
    PatchError,
> {
    match sig_find_result(sig, data) {
        Err(e) => Err(e),
        Ok(off) => if !well_formed(rep) {
            Err(PatchError::ParseError)
        } else if sig_of(sig).len() != rep_of(rep).len() {
            Err(
                PatchError::TemplateLengthMismatch {
                    pat: sig_of(sig).len() as usize,
                    rep: rep_of(rep).len() as usize,
                },
            )
        } else {
            Ok(off)
        },
    }
}

/// The buffer that one signature leaves: patched at the offset found where
/// the signature succeeds, untouched where it fails.
pub open spec fn patch_effect(sig: Seq<char>, rep: Seq<char>, data: Seq<u8>) -> Seq<u8> {
    match patch_result(sig, rep, data) {
        Ok(off) => patched(data, off as int, rep_of(rep)),
        Err(_) => data,
    }
}

/// The buffer after the first `k` signatures of a list ran on it in order,
/// each on what the one before left.
pub open spec fn run_effect(patches: Seq<Patch>, data: Seq<u8>, k: int) -> Seq<u8>
    decreases k,
{
    if k <= 0 {
        data
    } else {
        patch_effect(patches[k - 1].sig@, patches[k - 1].rep@, run_effect(patches, data, k - 1))
    }
}

/// Lays the template `rep` over `data` at `off`, once it has checked that
/// pattern and template have one length and that the region lies within the
/// buffer. On either failure the buffer is left as it was. It is not asked
/// whether the pattern matches at `off`: of `pat` only the length counts.
pub fn apply(data: &mut [u8], off: usize, pat: &[Option<u8>], rep: &[Replacement]) -> (res: Result<
    usize,
    PatchError,
>)
    ensures
        res == apply_result(old(data)@.len(), off, pat@.len(), rep@.len()),
        res is Ok ==> final(data)@ == patched(old(data)@, off as int, rep@),
        res is Err ==> final(data)@ == old(data)@,
        pat@.len() != rep@.len() ==> {
            &&& res == Err::<usize, PatchError>(
                PatchError::TemplateLengthMismatch { pat: pat.len(), rep: rep.len() },
            )
            &&& final(data)@ == old(data)@
        },
        all_keep(rep@) ==> final(data)@ == old(data)@,
{
    let m: usize = pat.len();
    if m != rep.len() {
        return Err(PatchError::TemplateLengthMismatch { pat: m, rep: rep.len() });
    }
    let n: usize = data.len();
    if off > n || m > n - off {
        return Err(PatchError::OutOfRange);
    }
    let mut idx: usize = 0;
    while idx < m
        invariant
            idx <= m,
            m == rep@.len(),
            n == data@.len(),
            n == old(data)@.len(),
            off + m <= n,
            data@ == patched(old(data)@, off as int, rep@.take(idx as int)),
        decreases m - idx,
    {
        match rep[idx] {
            Replacement::Keep => {},
            Replacement::Value(v) => {
                data[off + idx] = v;
            },
        }
        idx = idx + 1;
    }
    proof {
        assert(rep@.take(m as int) == rep@);
        if all_keep(rep@) {
            lemma_all_keep_changes_nothing(old(data)@, off as int, rep@);
        }
    }
    Ok(off)
}

/// Runs one signature on the buffer: finds its pattern and lays its template
/// over the match. A signature that fails leaves the buffer as it was.
pub fn apply_patch(patch: &Patch, data: &mut [u8]) -> (res: Result<usize, PatchError>)
    ensures
        res == patch_result(patch.sig@, patch.rep@, old(data)@),
        final(data)@ == patch_effect(patch.sig@, patch.rep@, old(data)@),
        res matches Ok(off) ==> least_match(sig_of(patch.sig@), old(data)@, off as int),
        well_formed(patch.sig@) && well_formed(patch.rep@) && sig_of(patch.sig@).len() == rep_of(
            patch.rep@,
        ).len() ==> res == brute_force_result(sig_of(patch.sig@), old(data)@),
        well_formed(patch.rep@) && all_keep(rep_of(patch.rep@)) ==> final(data)@ == old(data)@,
{
    let pat: Vec<Option<u8>> = match parse_sig(patch.sig) {
        Ok(pat) => pat,
        Err(e) => {
            return Err(e);
        },
    };
    let off: usize = match find(pat.as_slice(), data) {
        Ok(off) => off,
        Err(e) => {
            return Err(e);
        },
    };
    let rep: Vec<Replacement> = match parse_rep(patch.rep) {
        Ok(rep) => rep,
        Err(e) => {
            return Err(e);
        },
    };
    apply(data, off, pat.as_slice(), rep.as_slice())
}

/// Runs every signature of a list on the buffer, in order. A signature that
/// fails does not stop the run: the next one works on the buffer as the last
/// success left it. The outcomes come back in the order of the list.
pub fn apply_all(patches: &[Patch], data: &mut [u8]) -> (outcomes: Vec<Result<usize, PatchError>>)
    ensures
        outcomes@.len() == patches@.len(),
        forall|k: int|
            0 <= k < patches@.len() ==> #[trigger] outcomes@[k] == patch_result(
                patches@[k].sig@,
                patches@[k].rep@,
                run_effect(patches@, old(data)@, k),
            ),
        final(data)@ == run_effect(patches@, old(data)@, patches@.len() as int),
{
    let mut outcomes: Vec<Result<usize, PatchError>> = Vec::new();
    let mut k: usize = 0;
    while k < patches.len()
        invariant
            k <= patches@.len(),
            outcomes@.len() == k,
            forall|q: int|
                0 <= q < k ==> #[trigger] outcomes@[q] == patch_result(
                    patches@[q].sig@,
                    patches@[q].rep@,
                    run_effect(patches@, old(data)@, q),
                ),
            data@ == run_effect(patches@, old(data)@, k as int),
        decreases patches@.len() - k,
    {
        let outcome: Result<usize, PatchError> = apply_patch(&patches[k], data);
        outcomes.push(outcome);
        k = k + 1;
    }
    outcomes
}

/// Whether every signature of a run succeeded.
pub fn all_succeeded(outcomes: &[Result<usize, PatchError>]) -> (b: bool)
    ensures
        b == forall|k: int| 0 <= k < outcomes@.len() ==> (#[trigger] outcomes@[k]) is Ok,
{
    let mut k: usize = 0;
    while k < outcomes.len()
        invariant
            k <= outcomes@.len(),
            forall|q: int| 0 <= q < k ==> (#[trigger] outcomes@[q]) is Ok,
        decreases outcomes@.len() - k,
    {
        if outcomes[k].is_err() {
            return false;
        }
        k = k + 1;
    }
    true
}

/// A template of `Keep` tokens alone leaves every byte as it was.
pub proof fn lemma_all_keep_changes_nothing(data: Seq<u8>, off: int, rep: Seq<Replacement>)
    requires
        all_keep(rep),
    ensures
        patched(data, off, rep) == data,
{
}

/// Applying a template a second time at the same offset changes nothing more:
/// this holds of a template without `Keep`, and of every other template too.
pub proof fn lemma_patched_twice_is_once(data: Seq<u8>, off: int, rep: Seq<Replacement>)
    ensures
        patched(patched(data, off, rep), off, rep) == patched(data, off, rep),
{
}

} // verus!
