//! The text form of search patterns and replacement templates.
//!
//! A text is a run of tokens separated by white space. A token is a byte in
//! two hex digits of either case, or a wildcard in one of four spellings:
//! `?`, `??`, `*`, `**`. In a search pattern a wildcard stands for any byte;
//! in a replacement template it keeps the byte that is there.

use crate::error::PatchError;
use vstd::prelude::*;

verus! {

/// One token of a replacement template.
#[derive(Clone, Copy, Debug, PartialEq, Eq)]
pub enum Replacement {
    /// The byte at this position stays as it is.
    Keep,
    /// The byte at this position becomes this value.
    Value(u8),
}

/// White space: the characters with the Unicode property `White_Space`.
pub open spec fn is_space(c: char) -> bool {
    let u = c as u32;
    ||| 0x09 <= u <= 0x0D
    ||| u == 0x20
    ||| u == 0x85
    ||| u == 0xA0
    ||| u == 0x1680
    ||| 0x2000 <= u <= 0x200A
    ||| u == 0x2028
    ||| u == 0x2029
    ||| u == 0x202F
    ||| u == 0x205F
    ||| u == 0x3000
}

/// The value of a hex digit of either case; `None` for any other character.
pub open spec fn hex_value(c: char) -> Option<u8> {
    if '0' <= c <= '9' {
        Some((c as u32 - '0' as u32) as u8)
    } else if 'A' <= c <= 'F' {
        Some((c as u32 - 'A' as u32 + 10) as u8)
    } else if 'a' <= c <= 'f' {
        Some((c as u32 - 'a' as u32 + 10) as u8)
    } else {
        None
    }
}

/// Whether a token is one of the four spellings of a wildcard.
pub open spec fn is_wildcard(tok: Seq<char>) -> bool {
    ||| tok =~= seq!['?']
    ||| tok =~= seq!['?', '?']
    ||| tok =~= seq!['*']
    ||| tok =~= seq!['*', '*']
}

/// The byte that a token of exactly two hex digits spells; `None` for every
/// other token.
pub open spec fn hex_byte(tok: Seq<char>) -> Option<u8> {
    if tok.len() == 2 && hex_value(tok[0]) is Some && hex_value(tok[1]) is Some {
        Some((16 * hex_value(tok[0])->0 + hex_value(tok[1])->0) as u8)
    } else {
        None
    }
}

/// What a token means in a search pattern: `Some(None)` for a wildcard,
/// `Some(Some(b))` for the byte `b`, `None` for a malformed token.
pub open spec fn sig_token(tok: Seq<char>) -> Option<Option<u8>> {
    if is_wildcard(tok) {
        Some(None)
    } else {
        match hex_byte(tok) {
            Some(b) => Some(Some(b)),
            None => None,
        }
    }
}

/// The replacement token that stands for a token of the text: `Keep` for a
/// wildcard, `Value` for a byte.
pub open spec fn rep_token(tok: Option<u8>) -> Replacement {
    match tok {
        Some(v) => Replacement::Value(v),
        None => Replacement::Keep,
    }
}

/// The end of the run of characters other than white space that starts at
/// `i`: the position of the next white space, or the length of the text.
pub open spec fn token_end(s: Seq<char>, i: int) -> int
    decreases
        if i < s.len() {
            s.len() - i
        } else {
            0
        },
{
    if 0 <= i < s.len() && !is_space(s[i]) {
        token_end(s, i + 1)
    } else {
        i
    }
}

/// What the text spells from position `i` on: white space is passed over,
/// and each run of other characters up to the next white space is one token.
/// The result holds the meaning of each token in the order of the text, and
/// is `None` where one of them is malformed.
pub open spec fn spelled_from(s: Seq<char>, i: int) -> Option<Seq<Option<u8>>>
    decreases
        if i < s.len() {
            s.len() - i
        } else {
            0
        },
{
    if i < 0 || i >= s.len() {
        Some(Seq::empty())
    } else if is_space(s[i]) {
        spelled_from(s, i + 1)
    } else {
        proof {
            lemma_token_end(s, i);
        }
        match (sig_token(s.subrange(i, token_end(s, i))), spelled_from(s, token_end(s, i))) {
            (Some(tok), Some(rest)) => Some(seq![tok] + rest),
            _ => None,
        }
    }
}

/// Whether every token of a text is a wildcard or a two-digit hex byte.
pub open spec fn well_formed(s: Seq<char>) -> bool {
    spelled_from(s, 0) is Some
}

/// The search pattern that a well-formed text spells: one entry for each
/// token, in the order of the text.
pub open spec fn sig_of(s: Seq<char>) -> Seq<Option<u8>> {
    spelled_from(s, 0)->0
}

/// The replacement template that a well-formed text spells: one entry for
/// each token, in the order of the text.
pub open spec fn rep_of(s: Seq<char>) -> Seq<Replacement> {
    Seq::new(sig_of(s).len(), |k: int| rep_token(sig_of(s)[k]))
}

/// The tokens of a text from position `i` on, in order: the maximal runs of
/// characters other than white space.
pub open spec fn tokens_from(s: Seq<char>, i: int) -> Seq<Seq<char>>
    decreases
        if i < s.len() {
            s.len() - i
        } else {
            0
        },
{
    if i < 0 || i >= s.len() {
        Seq::empty()
    } else if is_space(s[i]) {
        tokens_from(s, i + 1)
    } else {
        proof {
            lemma_token_end(s, i);
        }
        seq![s.subrange(i, token_end(s, i))] + tokens_from(s, token_end(s, i))
    }
}

/// The tokens of a text.
pub open spec fn tokens(s: Seq<char>) -> Seq<Seq<char>> {
    tokens_from(s, 0)
}

/// Whether a sequence of characters is not empty and holds no white space.
pub open spec fn is_run(tok: Seq<char>) -> bool {
    &&& tok.len() > 0
    &&& forall|j: int| 0 <= j < tok.len() ==> !is_space(#[trigger] tok[j])
}

/// Whether `pat` holds, entry by entry, the meaning of each of `toks`.
pub open spec fn spells(toks: Seq<Seq<char>>, pat: Seq<Option<u8>>) -> bool {
    &&& pat.len() == toks.len()
    &&& forall|k: int| 0 <= k < toks.len() ==> sig_token(#[trigger] toks[k]) == Some(pat[k])
}

/// Whether `template` holds, entry by entry, the replacement token that
/// stands for each of `toks`.
pub open spec fn spells_template(toks: Seq<Seq<char>>, template: Seq<Replacement>) -> bool {
    &&& template.len() == toks.len()
    &&& forall|k: int|
        0 <= k < toks.len() ==> {
            &&& sig_token(#[trigger] toks[k]) is Some
            &&& template[k] == rep_token(sig_token(toks[k])->0)
        }
}

/// Whether one of `toks` is malformed.
pub open spec fn has_malformed(toks: Seq<Seq<char>>) -> bool {
    exists|k: int| 0 <= k < toks.len() && sig_token(#[trigger] toks[k]) is None
}

/// Tells whether a character separates tokens.
pub fn is_space_char(c: char) -> (b: bool)
    ensures
        b == is_space(c),
{
    let u: u32 = c as u32;
    (0x09 <= u && u <= 0x0D) || u == 0x20 || u == 0x85 || u == 0xA0 || u == 0x1680 || (0x2000 <= u
        && u <= 0x200A) || u == 0x2028 || u == 0x2029 || u == 0x202F || u == 0x205F || u == 0x3000
}

/// Reads one hex digit.
pub fn hex_digit(c: char) -> (v: Option<u8>)
    ensures
        v == hex_value(c),
        v matches Some(d) ==> d < 16,
{
    if '0' <= c && c <= '9' {
        Some((c as u32 - '0' as u32) as u8)
    } else if 'A' <= c && c <= 'F' {
        Some((c as u32 - 'A' as u32 + 10) as u8)
    } else if 'a' <= c && c <= 'f' {
        Some((c as u32 - 'a' as u32 + 10) as u8)
    } else {
        None
    }
}

/// The characters of a text, in order.
fn chars_of(text: &str) -> (chars: Vec<char>)
    ensures
        chars@ == text@,
{
    let mut chars: Vec<char> = Vec::new();
    let source = text.chars();
    for c in it: source
        invariant
            it.seq() == text@,
            chars@ == text@.take(it.index()),
    {
        chars.push(c);
    }
    chars
}

/// Reads the token that occupies `chars[from..to]`.
fn read_token(chars: &Vec<char>, from: usize, to: usize) -> (tok: Option<Option<u8>>)
    requires
        from <= to <= chars@.len(),
    ensures
        tok == sig_token(chars@.subrange(from as int, to as int)),
{
    let len: usize = to - from;
    if len == 1 {
        let c: char = chars[from];
        if c == '?' || c == '*' {
            Some(None)
        } else {
            None
        }
    } else if len == 2 {
        let c0: char = chars[from];
        let c1: char = chars[from + 1];
        if (c0 == '?' && c1 == '?') || (c0 == '*' && c1 == '*') {
            Some(None)
        } else {
            match (hex_digit(c0), hex_digit(c1)) {
                (Some(high), Some(low)) => Some(Some(high * 16 + low)),
                _ => None,
            }
        }
    } else {
        None
    }
}

/// Parses the text of a search pattern: tokens separated by white space, each
/// a two-digit hex byte or one of the wildcards `?`, `??`, `*`, `**`.
///
/// The pattern has one entry for each token of the text, in order: `None` for
/// a wildcard, `Some(b)` for the byte `b`. A text with a token that is neither
/// gives `ParseError`.
pub fn parse_sig(sig: &str) -> (res: Result<Vec<Option<u8>>, PatchError>)
    ensures
        match res {
            Ok(pat) => well_formed(sig@) && pat@ == sig_of(sig@),
            Err(e) => !well_formed(sig@) && e == PatchError::ParseError,
        },
        match res {
            Ok(pat) => spells(tokens(sig@), pat@),
            Err(_) => has_malformed(tokens(sig@)),
        },
{
    let chars: Vec<char> = chars_of(sig);
    let n: usize = chars.len();
    let mut out: Vec<Option<u8>> = Vec::new();
    let ghost mut done: Seq<Seq<char>> = Seq::empty();
    let mut i: usize = 0;
    proof {
        lemma_spelled_by_tokens(sig@, 0);
    }
    while i < n
        invariant
            i <= n,
            n == chars@.len(),
            chars@ == sig@,
            tokens(sig@) == done + tokens_from(sig@, i as int),
            spells(done, out@),
            match spelled_from(sig@, 0) {
                Some(pat) => spells(tokens(sig@), pat),
                None => has_malformed(tokens(sig@)),
            },
        decreases n - i,
    {
        if is_space_char(chars[i]) {
            i = i + 1;
        } else {
            let mut j: usize = i + 1;
            while j < n && !is_space_char(chars[j])
                invariant
                    i < j <= n,
                    n == chars@.len(),
                    chars@ == sig@,
                    token_end(sig@, i as int) == token_end(sig@, j as int),
                decreases n - j,
            {
                j = j + 1;
            }
            let ghost tok = sig@.subrange(i as int, j as int);
            proof {
                assert(tokens_from(sig@, i as int) == seq![tok] + tokens_from(sig@, j as int));
                assert(tokens(sig@)[done.len() as int] == tok);
            }
            match read_token(&chars, i, j) {
                Some(t) => {
                    out.push(t);
                    proof {
                        done = done.push(tok);
                    }
                },
                None => {
                    return Err(PatchError::ParseError);
                },
            }
            i = j;
        }
    }
    proof {
        assert(tokens(sig@) == done);
        assert forall|k: int| 0 <= k < out@.len() implies out@[k] == sig_of(sig@)[k] by {
            assert(sig_token(done[k]) == Some(out@[k]));
        }
    }
    Ok(out)
}

/// Parses the text of a replacement template: tokens separated by white
/// space, each a two-digit hex byte to write or one of the wildcards `?`,
/// `??`, `*`, `**`, which keep the byte that is there.
///
/// The template has one entry for each token of the text, in order: `Keep`
/// for a wildcard, `Value(b)` for the byte `b`. A text with a token that is
/// neither gives `ParseError`.
pub fn parse_rep(rep: &str) -> (res: Result<Vec<Replacement>, PatchError>)
    ensures
        match res {
            Ok(template) => well_formed(rep@) && template@ == rep_of(rep@),
            Err(e) => !well_formed(rep@) && e == PatchError::ParseError,
        },
        match res {
            Ok(template) => spells_template(tokens(rep@), template@),
            Err(_) => has_malformed(tokens(rep@)),
        },
{
    let toks: Vec<Option<u8>> = match parse_sig(rep) {
        Ok(toks) => toks,
        Err(e) => {
            return Err(e);
        },
    };
    let mut out: Vec<Replacement> = Vec::new();
    let mut k: usize = 0;
    while k < toks.len()
        invariant
            k <= toks@.len(),
            out@.len() == k,
            forall|q: int| 0 <= q < k ==> #[trigger] out@[q] == rep_token(toks@[q]),
        decreases toks@.len() - k,
    {
        match toks[k] {
            Some(v) => out.push(Replacement::Value(v)),
            None => out.push(Replacement::Keep),
        }
        k = k + 1;
    }
    Ok(out)
}

/// A token that starts at `i` ends after `i` and within the text; it holds no
/// white space, and white space or the end of the text follows it.
pub proof fn lemma_token_end(s: Seq<char>, i: int)
    requires
        0 <= i <= s.len(),
    ensures
        i <= token_end(s, i) <= s.len(),
        i < s.len() && !is_space(s[i]) ==> i < token_end(s, i),
        forall|k: int| i <= k < token_end(s, i) ==> !is_space(#[trigger] s[k]),
        token_end(s, i) < s.len() ==> is_space(s[token_end(s, i)]),
    decreases s.len() - i,
{
    if i < s.len() && !is_space(s[i]) {
        lemma_token_end(s, i + 1);
    }
}

/// Every token is a run of at least one character, none of them white space.
pub proof fn lemma_tokens_are_runs(s: Seq<char>, i: int)
    requires
        0 <= i,
    ensures
        forall|k: int| 0 <= k < tokens_from(s, i).len() ==> is_run(#[trigger] tokens_from(s, i)[k]),
    decreases
        if i < s.len() {
            s.len() - i
        } else {
            0
        },
{
    if i >= s.len() {
    } else if is_space(s[i]) {
        lemma_tokens_are_runs(s, i + 1);
        assert(tokens_from(s, i) == tokens_from(s, i + 1));
    } else {
        lemma_token_end(s, i);
        lemma_tokens_are_runs(s, token_end(s, i));
        let first = s.subrange(i, token_end(s, i));
        let rest = tokens_from(s, token_end(s, i));
        assert(is_run(first));
        assert forall|k: int| 0 <= k < tokens_from(s, i).len() implies is_run(
            #[trigger] tokens_from(s, i)[k],
        ) by {
            if k > 0 {
                assert(tokens_from(s, i)[k] == rest[k - 1]);
            }
        }
    }
}

/// What a text spells goes token by token: it has one entry for each token,
/// the meaning of that token, and there is none where a token is malformed.
pub proof fn lemma_spelled_by_tokens(s: Seq<char>, i: int)
    requires
        0 <= i,
    ensures
        match spelled_from(s, i) {
            Some(pat) => spells(tokens_from(s, i), pat),
            None => has_malformed(tokens_from(s, i)),
        },
    decreases
        if i < s.len() {
            s.len() - i
        } else {
            0
        },
{
    if i >= s.len() {
    } else if is_space(s[i]) {
        lemma_spelled_by_tokens(s, i + 1);
    } else {
        lemma_token_end(s, i);
        let end = token_end(s, i);
        let first = s.subrange(i, end);
        let rest = tokens_from(s, end);
        lemma_spelled_by_tokens(s, end);
        assert(tokens_from(s, i)[0] == first);
        match (sig_token(first), spelled_from(s, end)) {
            (Some(tok), Some(tail)) => {
                let pat = seq![tok] + tail;
                assert forall|k: int| 0 <= k < tokens_from(s, i).len() implies sig_token(
                    #[trigger] tokens_from(s, i)[k],
                ) == Some(pat[k]) by {
                    if k > 0 {
                        assert(tokens_from(s, i)[k] == rest[k - 1]);
                        assert(pat[k] == tail[k - 1]);
                    }
                }
            },
            (None, _) => {},
            (Some(_), None) => {
                let k = choose|k: int| 0 <= k < rest.len() && sig_token(#[trigger] rest[k]) is None;
                assert(tokens_from(s, i)[k + 1] == rest[k]);
            },
        }
    }
}

} // verus!
