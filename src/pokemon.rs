//! Extraction of the encountered name that follows the marker phrase.
use vstd::prelude::*;
use vstd::string::*;
use crate::text::{chars_of, chars_eq_ignore_ascii_case, eq_ignore_ascii_case, is_white_space, is_white_space_char};

verus! {

/// The marker phrase "VS. WILD", matched without regard to ASCII case.
pub open spec fn marker() -> Seq<char> {
    seq!['V', 'S', '.', ' ', 'W', 'I', 'L', 'D']
}

/// The marker phrase occurs in `t` at position `i`.
pub open spec fn marker_at(t: Seq<char>, i: int) -> bool {
    &&& 0 <= i
    &&& i + marker().len() <= t.len()
    &&& forall|j: int| 0 <= j < marker().len() ==> eq_ignore_ascii_case(#[trigger] t[i + j], marker()[j])
}

/// The first position at or after `i` where the marker occurs.
pub open spec fn find_marker(t: Seq<char>, i: int) -> Option<int>
    decreases t.len() - i,
{
    if i < 0 || i + marker().len() > t.len() {
        None
    } else if marker_at(t, i) {
        Some(i)
    } else {
        find_marker(t, i + 1)
    }
}

/// The end of the run of white space starting at `i`.
pub open spec fn skip_white_space(t: Seq<char>, i: int) -> int
    decreases t.len() - i,
{
    if 0 <= i < t.len() && is_white_space(t[i]) {
        skip_white_space(t, i + 1)
    } else {
        i
    }
}

/// The end of the run of non-white-space characters starting at `i`.
pub open spec fn token_end(t: Seq<char>, i: int) -> int
    decreases t.len() - i,
{
    if 0 <= i < t.len() && !is_white_space(t[i]) {
        token_end(t, i + 1)
    } else {
        i
    }
}

/// The token after the first occurrence of the marker, if there is one.
pub open spec fn extracted_name(t: Seq<char>) -> Option<Seq<char>> {
    match find_marker(t, 0) {
        None => None,
        Some(i) => {
            let s = skip_white_space(t, i + marker().len());
            let e = token_end(t, s);
            if s < e {
                Some(t.subrange(s, e))
            } else {
                None
            }
        },
    }
}

pub(crate) proof fn lemma_skip_bounds(t: Seq<char>, i: int)
    requires
        0 <= i <= t.len(),
    ensures
        i <= skip_white_space(t, i) <= t.len(),
        skip_white_space(t, i) < t.len() ==> !is_white_space(t[skip_white_space(t, i)]),
    decreases t.len() - i,
{
    if i < t.len() && is_white_space(t[i]) {
        lemma_skip_bounds(t, i + 1);
    }
}

proof fn lemma_token_bounds(t: Seq<char>, i: int)
    requires
        0 <= i <= t.len(),
    ensures
        i <= token_end(t, i) <= t.len(),
    decreases t.len() - i,
{
    if i < t.len() && !is_white_space(t[i]) {
        lemma_token_bounds(t, i + 1);
    }
}

fn marker_matches_at(t: &Vec<char>, pat: &Vec<char>, i: usize) -> (r: bool)
    requires
        pat@ == marker(),
        i + marker().len() <= t@.len(),
    ensures
        r == marker_at(t@, i as int),
{
    let mut j: usize = 0;
    while j < pat.len()
        invariant
            pat@ == marker(),
            i + marker().len() <= t@.len(),
            i + pat.len() <= t.len(),
            j <= pat.len(),
            forall|k: int| 0 <= k < j ==> eq_ignore_ascii_case(#[trigger] t@[i + k], marker()[k]),
        decreases pat.len() - j,
    {
        if !chars_eq_ignore_ascii_case(t[i + j], pat[j]) {
            return false;
        }
        j = j + 1;
    }
    true
}

/// Returns the whitespace-delimited token that follows the first
/// occurrence of "VS. WILD" (in any ASCII case) in `text`, or `None` when
/// the phrase is absent or nothing but white space follows it.
pub fn extract_pokemon_name(text: &str) -> (r: Option<String>)
    ensures
        r matches Some(name) ==> extracted_name(text@) == Some(name@),
        r is None ==> extracted_name(text@) is None,
        r matches Some(name) ==> name@.len() > 0,
{
    let t = chars_of(text);
    proof {
        reveal_strlit("VS. WILD");
    }
    let pat = chars_of("VS. WILD");
    assert(pat@ =~= marker());
    let plen = pat.len();
    if t.len() < plen {
        assert(find_marker(t@, 0) is None);
        return None;
    }
    let mut i: usize = 0;
    let mut found = false;
    while !found && i <= t.len() - plen
        invariant
            pat@ == marker(),
            plen == marker().len(),
            plen <= t.len(),
            i <= t.len() - plen + 1,
            find_marker(t@, 0) == (if found { Some(i as int) } else { find_marker(t@, i as int) }),
            found ==> i + plen <= t.len() && marker_at(t@, i as int),
        decreases t.len() + 1 - i - (if found { 1int } else { 0int }),
    {
        if marker_matches_at(&t, &pat, i) {
            found = true;
        } else {
            i = i + 1;
        }
    }
    if !found {
        assert(find_marker(t@, i as int) is None);
        return None;
    }
    let mut s: usize = i + plen;
    proof {
        lemma_skip_bounds(t@, s as int);
    }
    while s < t.len() && is_white_space_char(t[s])
        invariant
            s <= t.len(),
            skip_white_space(t@, (i + plen) as int) == skip_white_space(t@, s as int),
        decreases t.len() - s,
    {
        s = s + 1;
    }
    let mut e: usize = s;
    while e < t.len() && !is_white_space_char(t[e])
        invariant
            s <= e <= t.len(),
            token_end(t@, s as int) == token_end(t@, e as int),
        decreases t.len() - e,
    {
        e = e + 1;
    }
    if s < e {
        let name = text.substring_char(s, e).to_owned();
        Some(name)
    } else {
        None
    }
}

proof fn lemma_find_marker_at(t: Seq<char>, i: int, k: int)
    requires
        0 <= i <= k,
        marker_at(t, k),
        forall|j: int| i <= j < k ==> !marker_at(t, j),
    ensures
        find_marker(t, i) == Some(k),
    decreases k - i,
{
    if i < k {
        lemma_find_marker_at(t, i + 1, k);
    }
}

proof fn lemma_find_marker_none(t: Seq<char>, i: int)
    requires
        0 <= i,
        forall|j: int| i <= j ==> !marker_at(t, j),
    ensures
        find_marker(t, i) is None,
    decreases t.len() - i,
{
    if i + marker().len() <= t.len() {
        lemma_find_marker_none(t, i + 1);
    }
}

proof fn lemma_skip_to(t: Seq<char>, i: int, k: int)
    requires
        0 <= i <= k <= t.len(),
        forall|j: int| i <= j < k ==> is_white_space(#[trigger] t[j]),
        k == t.len() || !is_white_space(t[k]),
    ensures
        skip_white_space(t, i) == k,
    decreases k - i,
{
    if i < k {
        lemma_skip_to(t, i + 1, k);
    }
}

proof fn lemma_token_to(t: Seq<char>, i: int, k: int)
    requires
        0 <= i <= k <= t.len(),
        forall|j: int| i <= j < k ==> !is_white_space(#[trigger] t[j]),
        k == t.len() || is_white_space(t[k]),
    ensures
        token_end(t, i) == k,
    decreases k - i,
{
    if i < k {
        lemma_token_to(t, i + 1, k);
    }
}

/// Text made of `pre`, the marker in any ASCII case (`m`), white space,
/// a token, and then either nothing or white space first: the token is what
/// is extracted, provided the marker does not occur earlier.
pub proof fn lemma_extracts_token(
    pre: Seq<char>,
    m: Seq<char>,
    ws: Seq<char>,
    tok: Seq<char>,
    rest: Seq<char>,
)
    requires
        m.len() == marker().len(),
        forall|j: int| 0 <= j < m.len() ==> eq_ignore_ascii_case(#[trigger] m[j], marker()[j]),
        forall|i: int| 0 <= i < pre.len() ==> !marker_at(pre + m + ws + tok + rest, i),
        ws.len() > 0,
        forall|j: int| 0 <= j < ws.len() ==> is_white_space(#[trigger] ws[j]),
        tok.len() > 0,
        forall|j: int| 0 <= j < tok.len() ==> !is_white_space(#[trigger] tok[j]),
        rest.len() == 0 || is_white_space(rest[0]),
    ensures
        extracted_name(pre + m + ws + tok + rest) == Some(tok),
{
    let t = pre + m + ws + tok + rest;
    let a = pre.len() as int;
    let b = a + m.len();
    let c = b + ws.len();
    let d = c + tok.len();
    assert forall|j: int| 0 <= j < m.len() implies eq_ignore_ascii_case(#[trigger] t[a + j], marker()[j]) by {
        assert(t[a + j] == m[j]);
    }
    assert(marker_at(t, a));
    lemma_find_marker_at(t, 0, a);
    assert forall|j: int| b <= j < c implies is_white_space(#[trigger] t[j]) by {
        assert(t[j] == ws[j - b]);
    }
    assert(!is_white_space(t[c])) by {
        assert(t[c] == tok[0]);
    }
    lemma_skip_to(t, b, c);
    assert forall|j: int| c <= j < d implies !is_white_space(#[trigger] t[j]) by {
        assert(t[j] == tok[j - c]);
    }
    if rest.len() > 0 {
        assert(t[d] == rest[0]);
    }
    lemma_token_to(t, c, d);
    assert(t.subrange(c, d) =~= tok);
}

/// Text in which the marker does not occur yields nothing.
pub proof fn lemma_no_marker_no_name(t: Seq<char>)
    requires
        forall|i: int| !marker_at(t, i),
    ensures
        extracted_name(t) is None,
{
    lemma_find_marker_none(t, 0);
}

} // verus!
