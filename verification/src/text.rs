//! Byte-level text utilities shared by the format backends: character
//! classes, scanning primitives and their specifications, and splicing.
use vstd::prelude::*;

verus! {

/// ASCII whitespace as the format grammars understand it.
pub open spec fn is_space(b: u8) -> bool {
    b == 32 || (9 <= b && b <= 13)
}

/// ASCII decimal digit.
pub open spec fn is_digit(b: u8) -> bool {
    48 <= b && b <= 57
}

pub open spec fn digit_val(b: u8) -> nat {
    (b - 48) as nat
}

pub open spec fn is_upper(b: u8) -> bool {
    65 <= b && b <= 90
}

pub open spec fn is_lower_alpha(b: u8) -> bool {
    97 <= b && b <= 122
}

/// A word byte: letter, digit or underscore.
pub open spec fn is_word(b: u8) -> bool {
    is_upper(b) || is_lower_alpha(b) || is_digit(b) || b == 95
}

/// ASCII lower-casing of one byte.
pub open spec fn lower_byte(b: u8) -> u8 {
    if is_upper(b) {
        (b + 32) as u8
    } else {
        b
    }
}

pub fn byte_is_space(b: u8) -> (r: bool)
    ensures
        r == is_space(b),
{
    b == 32 || (9 <= b && b <= 13)
}

pub fn byte_is_digit(b: u8) -> (r: bool)
    ensures
        r == is_digit(b),
{
    48 <= b && b <= 57
}

pub fn byte_is_word(b: u8) -> (r: bool)
    ensures
        r == is_word(b),
{
    (65 <= b && b <= 90) || (97 <= b && b <= 122) || (48 <= b && b <= 57) || b == 95
}

pub fn byte_lower(b: u8) -> (r: u8)
    ensures
        r == lower_byte(b),
{
    if 65 <= b && b <= 90 {
        b + 32
    } else {
        b
    }
}

/// `pat` occurs in `s` starting at `i`.
pub open spec fn match_at(s: Seq<u8>, i: int, pat: Seq<u8>) -> bool {
    &&& 0 <= i
    &&& i + pat.len() <= s.len()
    &&& forall|j: int| 0 <= j < pat.len() ==> s[i + j] == pat[j]
}

/// `pat` (already lower-case) occurs case-insensitively in `s` at `i`.
pub open spec fn match_at_ci(s: Seq<u8>, i: int, pat: Seq<u8>) -> bool {
    &&& 0 <= i
    &&& i + pat.len() <= s.len()
    &&& forall|j: int| 0 <= j < pat.len() ==> lower_byte(s[i + j]) == pat[j]
}

pub fn exec_match_at(s: &[u8], i: usize, pat: &[u8]) -> (r: bool)
    ensures
        r == match_at(s@, i as int, pat@),
{
    if i > s.len() || pat.len() > s.len() - i {
        return false;
    }
    let mut j: usize = 0;
    while j < pat.len()
        invariant
            0 <= j <= pat.len(),
            i + pat.len() <= s.len(),
            forall|k: int| 0 <= k < j ==> s@[i + k] == pat@[k],
        decreases pat.len() - j,
    {
        if s[i + j] != pat[j] {
            return false;
        }
        j += 1;
    }
    true
}

pub fn exec_match_at_ci(s: &[u8], i: usize, pat: &[u8]) -> (r: bool)
    ensures
        r == match_at_ci(s@, i as int, pat@),
{
    if i > s.len() || pat.len() > s.len() - i {
        return false;
    }
    let mut j: usize = 0;
    while j < pat.len()
        invariant
            0 <= j <= pat.len(),
            i + pat.len() <= s.len(),
            forall|k: int| 0 <= k < j ==> lower_byte(s@[i + k]) == pat@[k],
        decreases pat.len() - j,
    {
        if byte_lower(s[i + j]) != pat[j] {
            return false;
        }
        j += 1;
    }
    true
}

/// Byte-wise equality of two slices.
pub fn bytes_eq(a: &[u8], b: &[u8]) -> (r: bool)
    ensures
        r == (a@ == b@),
{
    if a.len() != b.len() {
        proof {
            assert(a@.len() != b@.len());
        }
        return false;
    }
    let r = exec_match_at(a, 0, b);
    proof {
        if r {
            assert(a@ =~= b@);
        } else {
            assert(!match_at(a@, 0, b@));
            if a@ == b@ {
                assert(forall|j: int| 0 <= j < b@.len() ==> a@[0 + j] == b@[j]);
                assert(false);
            }
        }
    }
    r
}

/// First index at or after `i` holding a non-space byte (or the length).
pub open spec fn skip_spaces(s: Seq<u8>, i: int) -> int
    decreases s.len() - i,
{
    if i < 0 || i >= s.len() {
        s.len() as int
    } else if is_space(s[i]) {
        skip_spaces(s, i + 1)
    } else {
        i
    }
}

pub proof fn lemma_skip_spaces(s: Seq<u8>, i: int)
    requires
        0 <= i <= s.len(),
    ensures
        i <= skip_spaces(s, i) <= s.len(),
        forall|j: int| i <= j < skip_spaces(s, i) ==> is_space(s[j]),
        skip_spaces(s, i) < s.len() ==> !is_space(s[skip_spaces(s, i)]),
    decreases s.len() - i,
{
    if i < s.len() && is_space(s[i]) {
        lemma_skip_spaces(s, i + 1);
    }
}

pub proof fn lemma_skip_spaces_inv(s: Seq<u8>, i: int, k: int)
    requires
        0 <= i <= k <= s.len(),
        forall|j: int| i <= j < k ==> is_space(s[j]),
        k < s.len() ==> !is_space(s[k]),
    ensures
        skip_spaces(s, i) == k,
    decreases k - i,
{
    if i < k {
        assert(is_space(s[i]));
        lemma_skip_spaces_inv(s, i + 1, k);
    }
}

pub fn exec_skip_spaces(s: &[u8], i: usize) -> (r: usize)
    requires
        i <= s.len(),
    ensures
        r == skip_spaces(s@, i as int),
        i <= r <= s.len(),
{
    let mut r: usize = i;
    while r < s.len() && byte_is_space(s[r])
        invariant
            i <= r <= s.len(),
            forall|j: int| i <= j < r ==> is_space(s@[j]),
        decreases s.len() - r,
    {
        r += 1;
    }
    proof {
        lemma_skip_spaces_inv(s@, i as int, r as int);
    }
    r
}

/// First index at or after `i` holding a non-word byte (or the length).
pub open spec fn skip_word(s: Seq<u8>, i: int) -> int
    decreases s.len() - i,
{
    if i < 0 || i >= s.len() {
        s.len() as int
    } else if is_word(s[i]) {
        skip_word(s, i + 1)
    } else {
        i
    }
}

pub proof fn lemma_skip_word(s: Seq<u8>, i: int)
    requires
        0 <= i <= s.len(),
    ensures
        i <= skip_word(s, i) <= s.len(),
        forall|j: int| i <= j < skip_word(s, i) ==> is_word(s[j]),
        skip_word(s, i) < s.len() ==> !is_word(s[skip_word(s, i)]),
    decreases s.len() - i,
{
    if i < s.len() && is_word(s[i]) {
        lemma_skip_word(s, i + 1);
    }
}

pub proof fn lemma_skip_word_inv(s: Seq<u8>, i: int, k: int)
    requires
        0 <= i <= k <= s.len(),
        forall|j: int| i <= j < k ==> is_word(s[j]),
        k < s.len() ==> !is_word(s[k]),
    ensures
        skip_word(s, i) == k,
    decreases k - i,
{
    if i < k {
        assert(is_word(s[i]));
        lemma_skip_word_inv(s, i + 1, k);
    }
}

pub fn exec_skip_word(s: &[u8], i: usize) -> (r: usize)
    requires
        i <= s.len(),
    ensures
        r == skip_word(s@, i as int),
        i <= r <= s.len(),
{
    let mut r: usize = i;
    while r < s.len() && byte_is_word(s[r])
        invariant
            i <= r <= s.len(),
            forall|j: int| i <= j < r ==> is_word(s@[j]),
        decreases s.len() - r,
    {
        r += 1;
    }
    proof {
        lemma_skip_word_inv(s@, i as int, r as int);
    }
    r
}

/// First index at or after `i` holding a non-digit byte (or the length).
pub open spec fn skip_digits(s: Seq<u8>, i: int) -> int
    decreases s.len() - i,
{
    if i < 0 || i >= s.len() {
        s.len() as int
    } else if is_digit(s[i]) {
        skip_digits(s, i + 1)
    } else {
        i
    }
}

pub proof fn lemma_skip_digits(s: Seq<u8>, i: int)
    requires
        0 <= i <= s.len(),
    ensures
        i <= skip_digits(s, i) <= s.len(),
        forall|j: int| i <= j < skip_digits(s, i) ==> is_digit(s[j]),
        skip_digits(s, i) < s.len() ==> !is_digit(s[skip_digits(s, i)]),
    decreases s.len() - i,
{
    if i < s.len() && is_digit(s[i]) {
        lemma_skip_digits(s, i + 1);
    }
}

pub proof fn lemma_skip_digits_inv(s: Seq<u8>, i: int, k: int)
    requires
        0 <= i <= k <= s.len(),
        forall|j: int| i <= j < k ==> is_digit(s[j]),
        k < s.len() ==> !is_digit(s[k]),
    ensures
        skip_digits(s, i) == k,
    decreases k - i,
{
    if i < k {
        assert(is_digit(s[i]));
        lemma_skip_digits_inv(s, i + 1, k);
    }
}

pub fn exec_skip_digits(s: &[u8], i: usize) -> (r: usize)
    requires
        i <= s.len(),
    ensures
        r == skip_digits(s@, i as int),
        i <= r <= s.len(),
{
    let mut r: usize = i;
    while r < s.len() && byte_is_digit(s[r])
        invariant
            i <= r <= s.len(),
            forall|j: int| i <= j < r ==> is_digit(s@[j]),
        decreases s.len() - r,
    {
        r += 1;
    }
    proof {
        lemma_skip_digits_inv(s@, i as int, r as int);
    }
    r
}

/// First index at or after `i` holding byte `c` (or the length).
pub open spec fn find_byte(s: Seq<u8>, i: int, c: u8) -> int
    decreases s.len() - i,
{
    if i < 0 || i >= s.len() {
        s.len() as int
    } else if s[i] == c {
        i
    } else {
        find_byte(s, i + 1, c)
    }
}

pub proof fn lemma_find_byte(s: Seq<u8>, i: int, c: u8)
    requires
        0 <= i <= s.len(),
    ensures
        i <= find_byte(s, i, c) <= s.len(),
        forall|j: int| i <= j < find_byte(s, i, c) ==> s[j] != c,
        find_byte(s, i, c) < s.len() ==> s[find_byte(s, i, c)] == c,
    decreases s.len() - i,
{
    if i < s.len() && s[i] != c {
        lemma_find_byte(s, i + 1, c);
    }
}

pub proof fn lemma_find_byte_inv(s: Seq<u8>, i: int, c: u8, k: int)
    requires
        0 <= i <= k <= s.len(),
        forall|j: int| i <= j < k ==> s[j] != c,
        k < s.len() ==> s[k] == c,
    ensures
        find_byte(s, i, c) == k,
    decreases k - i,
{
    if i < k {
        lemma_find_byte_inv(s, i + 1, c, k);
    }
}

pub fn exec_find_byte(s: &[u8], i: usize, c: u8) -> (r: usize)
    requires
        i <= s.len(),
    ensures
        r == find_byte(s@, i as int, c),
        i <= r <= s.len(),
{
    let mut r: usize = i;
    while r < s.len() && s[r] != c
        invariant
            i <= r <= s.len(),
            forall|j: int| i <= j < r ==> s@[j] != c,
        decreases s.len() - r,
    {
        r += 1;
    }
    proof {
        lemma_find_byte_inv(s@, i as int, c, r as int);
    }
    r
}

/// First index at or after `i` where `pat` occurs (or the length).
pub open spec fn find_sub(s: Seq<u8>, i: int, pat: Seq<u8>) -> int
    decreases s.len() - i,
{
    if i < 0 || i >= s.len() {
        s.len() as int
    } else if match_at(s, i, pat) {
        i
    } else {
        find_sub(s, i + 1, pat)
    }
}

pub proof fn lemma_find_sub(s: Seq<u8>, i: int, pat: Seq<u8>)
    requires
        0 <= i <= s.len(),
    ensures
        i <= find_sub(s, i, pat) <= s.len(),
        forall|j: int| i <= j < find_sub(s, i, pat) ==> !match_at(s, j, pat),
        find_sub(s, i, pat) < s.len() ==> match_at(s, find_sub(s, i, pat), pat),
    decreases s.len() - i,
{
    if i < s.len() && !match_at(s, i, pat) {
        lemma_find_sub(s, i + 1, pat);
    }
}

pub proof fn lemma_find_sub_inv(s: Seq<u8>, i: int, pat: Seq<u8>, k: int)
    requires
        0 <= i <= k <= s.len(),
        forall|j: int| i <= j < k ==> !match_at(s, j, pat),
        k < s.len() ==> match_at(s, k, pat),
    ensures
        find_sub(s, i, pat) == k,
    decreases k - i,
{
    if i < k {
        lemma_find_sub_inv(s, i + 1, pat, k);
    }
}

pub fn exec_find_sub(s: &[u8], i: usize, pat: &[u8]) -> (r: usize)
    requires
        i <= s.len(),
    ensures
        r == find_sub(s@, i as int, pat@),
        i <= r <= s.len(),
{
    let mut r: usize = i;
    loop
        invariant
            i <= r <= s.len(),
            forall|j: int| i <= j < r ==> !match_at(s@, j, pat@),
        decreases s.len() - r,
    {
        if r >= s.len() {
            proof {
                lemma_find_sub_inv(s@, i as int, pat@, r as int);
            }
            return r;
        }
        if exec_match_at(s, r, pat) {
            proof {
                lemma_find_sub_inv(s@, i as int, pat@, r as int);
            }
            return r;
        }
        r += 1;
    }
}

/// Whether `pat` occurs anywhere in `s`.
pub open spec fn contains_sub(s: Seq<u8>, pat: Seq<u8>) -> bool {
    find_sub(s, 0, pat) < s.len()
}

pub fn exec_contains_sub(s: &[u8], pat: &[u8]) -> (r: bool)
    ensures
        r == contains_sub(s@, pat@),
{
    let k = exec_find_sub(s, 0, pat);
    k < s.len()
}

/// Number of non-overlapping occurrences of `pat` at or after `i`,
/// scanning left to right and resuming after each occurrence's end, as
/// `str::matches` counts them.  An empty pattern counts as zero.
pub open spec fn count_matches(s: Seq<u8>, i: int, pat: Seq<u8>) -> nat
    decreases s.len() - i,
{
    if i < 0 || i >= s.len() || pat.len() == 0 {
        0
    } else if match_at(s, i, pat) {
        count_matches(s, i + pat.len(), pat) + 1
    } else {
        count_matches(s, i + 1, pat)
    }
}

pub proof fn lemma_count_matches_bound(s: Seq<u8>, i: int, pat: Seq<u8>)
    requires
        0 <= i <= s.len(),
    ensures
        count_matches(s, i, pat) <= s.len() - i,
    decreases s.len() - i,
{
    if i < s.len() && pat.len() > 0 {
        if match_at(s, i, pat) {
            lemma_count_matches_bound(s, i + pat.len(), pat);
        } else {
            lemma_count_matches_bound(s, i + 1, pat);
        }
    }
}

pub fn exec_count_matches(s: &[u8], pat: &[u8]) -> (r: usize)
    ensures
        r == count_matches(s@, 0, pat@),
{
    if pat.len() == 0 {
        return 0;
    }
    let mut r: usize = 0;
    let mut i: usize = 0;
    while i < s.len()
        invariant
            0 <= i <= s.len(),
            pat@.len() > 0,
            count_matches(s@, 0, pat@) == r + count_matches(s@, i as int, pat@),
            r <= i,
        decreases s.len() - i,
    {
        proof {
            lemma_count_matches_bound(s@, i as int, pat@);
        }
        if exec_match_at(s, i, pat) {
            r += 1;
            i += pat.len();
        } else {
            i += 1;
        }
    }
    r
}

/// Occurrence counting is the same on agreeing suffixes, up to the shift.
pub proof fn lemma_count_matches_suffix(s1: Seq<u8>, d: int, s2: Seq<u8>, d2: int, i: int, pat: Seq<u8>)
    requires
        suffix_agree(s1, d, s2, d2),
        d <= i,
    ensures
        count_matches(s2, i + (d2 - d), pat) == count_matches(s1, i, pat),
    decreases s1.len() + 1 - i,
{
    if i < s1.len() && pat.len() > 0 {
        lemma_match_at_suffix(s1, d, s2, d2, i, pat);
        if match_at(s1, i, pat) {
            lemma_count_matches_suffix(s1, d, s2, d2, i + pat.len(), pat);
        } else {
            lemma_count_matches_suffix(s1, d, s2, d2, i + 1, pat);
        }
    }
}

/// Occurrences are counted independently on the two sides of a separator
/// byte that occurs in neither the pattern nor the left part.
pub proof fn lemma_count_matches_split(x: Seq<u8>, y: Seq<u8>, c: u8, pat: Seq<u8>)
    requires
        pat.len() > 0,
        forall|j: int| 0 <= j < pat.len() ==> #[trigger] pat[j] != c,
        forall|j: int| 0 <= j < x.len() ==> #[trigger] x[j] != c,
    ensures
        count_matches(x + seq![c] + y, 0, pat) == count_matches(x, 0, pat) + count_matches(
            y,
            0,
            pat,
        ),
{
    let big = x + seq![c] + y;
    assert(big[x.len() as int] == c);
    assert(suffix_agree(y, 0, big, x.len() + 1 as int)) by {
        assert forall|j: int| 0 <= j < y.len() implies #[trigger] big[x.len() + 1 + j] == y[0 + j]
            by {}
    }
    lemma_count_matches_suffix(y, 0, big, x.len() + 1 as int, 0, pat);
    assert(!match_at(big, x.len() as int, pat)) by {
        if match_at(big, x.len() as int, pat) {
            assert(big[x.len() + 0 as int] == pat[0]);
        }
    }
    assert(count_matches(big, x.len() as int, pat) == count_matches(y, 0, pat));
    lemma_count_matches_split_low(x, y, c, pat, 0);
}

/// The positions inside the left part contribute the left part's own
/// count: a match cannot reach across the separator.
proof fn lemma_count_matches_split_low(x: Seq<u8>, y: Seq<u8>, c: u8, pat: Seq<u8>, i: int)
    requires
        pat.len() > 0,
        forall|j: int| 0 <= j < pat.len() ==> #[trigger] pat[j] != c,
        forall|j: int| 0 <= j < x.len() ==> #[trigger] x[j] != c,
        0 <= i <= x.len(),
    ensures
        count_matches(x + seq![c] + y, i, pat) == count_matches(x, i, pat) + count_matches(
            (x + seq![c] + y),
            x.len() as int,
            pat,
        ),
    decreases x.len() - i,
{
    let big = x + seq![c] + y;
    if i < x.len() {
        assert(match_at(big, i, pat) == match_at(x, i, pat)) by {
            if match_at(big, i, pat) && !match_at(x, i, pat) {
                assert(i + pat.len() > x.len());
                assert(big[i + (x.len() - i)] == pat[x.len() - i]);
                assert(big[x.len() as int] == c);
            }
            if match_at(x, i, pat) {
                assert(forall|t: int| 0 <= t < pat.len() ==> #[trigger] big[i + t] == x[i + t]);
            }
        }
        if match_at(x, i, pat) {
            lemma_count_matches_split_low(x, y, c, pat, i + pat.len());
        } else {
            lemma_count_matches_split_low(x, y, c, pat, i + 1);
        }
    }
}

/// An occurrence exists exactly when the count is positive.
pub proof fn lemma_contains_iff_count(s: Seq<u8>, i: int, pat: Seq<u8>)
    requires
        pat.len() > 0,
        0 <= i <= s.len(),
    ensures
        (find_sub(s, i, pat) < s.len()) <==> count_matches(s, i, pat) > 0,
    decreases s.len() - i,
{
    lemma_find_sub(s, i, pat);
    if i < s.len() {
        if match_at(s, i, pat) {
        } else {
            lemma_contains_iff_count(s, i + 1, pat);
        }
    }
}

/// Copy of `s[a..b]` as a fresh vector.
pub fn subvec(s: &[u8], a: usize, b: usize) -> (r: Vec<u8>)
    requires
        a <= b <= s.len(),
    ensures
        r@ == s@.subrange(a as int, b as int),
{
    vstd::slice::slice_to_vec(&s[a..b])
}

/// `s` with `s[a..b]` replaced by `mid`.
pub fn splice(s: &[u8], a: usize, b: usize, mid: &[u8]) -> (r: Vec<u8>)
    requires
        a <= b <= s.len(),
    ensures
        r@ == s@.subrange(0, a as int) + mid@ + s@.subrange(b as int, s@.len() as int),
{
    let mut r: Vec<u8> = Vec::new();
    r.extend_from_slice(&s[0..a]);
    r.extend_from_slice(mid);
    r.extend_from_slice(&s[b..s.len()]);
    proof {
        assert(r@ =~= s@.subrange(0, a as int) + mid@ + s@.subrange(b as int, s@.len() as int));
    }
    r
}

/// Two sequences agree from `d` and `d2` on: the suffixes are equal.
pub open spec fn suffix_agree(s1: Seq<u8>, d: int, s2: Seq<u8>, d2: int) -> bool {
    &&& 0 <= d <= s1.len()
    &&& 0 <= d2 <= s2.len()
    &&& s1.len() - d == s2.len() - d2
    &&& forall|x: int| 0 <= x < s1.len() - d ==> #[trigger] s2[d2 + x] == s1[d + x]
}

/// Space skipping is the same on agreeing suffixes, up to the shift.
pub proof fn lemma_skip_spaces_suffix(s1: Seq<u8>, d: int, s2: Seq<u8>, d2: int, i: int)
    requires
        suffix_agree(s1, d, s2, d2),
        d <= i <= s1.len(),
    ensures
        skip_spaces(s2, i + (d2 - d)) == skip_spaces(s1, i) + (d2 - d),
{
    let k = skip_spaces(s1, i);
    lemma_skip_spaces(s1, i);
    assert forall|j: int| i + (d2 - d) <= j < k + (d2 - d) implies is_space(s2[j]) by {
        assert(s2[d2 + (j - d2)] == s1[d + (j - d2)]);
    }
    if k < s1.len() {
        assert(s2[d2 + (k - d)] == s1[d + (k - d)]);
        assert(s2[k + (d2 - d)] == s1[k]);
    }
    lemma_skip_spaces_inv(s2, i + (d2 - d), k + (d2 - d));
}

/// Digit skipping is the same on agreeing suffixes, up to the shift.
pub proof fn lemma_skip_digits_suffix(s1: Seq<u8>, d: int, s2: Seq<u8>, d2: int, i: int)
    requires
        suffix_agree(s1, d, s2, d2),
        d <= i <= s1.len(),
    ensures
        skip_digits(s2, i + (d2 - d)) == skip_digits(s1, i) + (d2 - d),
{
    let k = skip_digits(s1, i);
    lemma_skip_digits(s1, i);
    assert forall|j: int| i + (d2 - d) <= j < k + (d2 - d) implies is_digit(s2[j]) by {
        assert(s2[d2 + (j - d2)] == s1[d + (j - d2)]);
    }
    if k < s1.len() {
        assert(s2[d2 + (k - d)] == s1[d + (k - d)]);
        assert(s2[k + (d2 - d)] == s1[k]);
    }
    lemma_skip_digits_inv(s2, i + (d2 - d), k + (d2 - d));
}

/// Word skipping is the same on agreeing suffixes, up to the shift.
pub proof fn lemma_skip_word_suffix(s1: Seq<u8>, d: int, s2: Seq<u8>, d2: int, i: int)
    requires
        suffix_agree(s1, d, s2, d2),
        d <= i <= s1.len(),
    ensures
        skip_word(s2, i + (d2 - d)) == skip_word(s1, i) + (d2 - d),
{
    let k = skip_word(s1, i);
    lemma_skip_word(s1, i);
    assert forall|j: int| i + (d2 - d) <= j < k + (d2 - d) implies is_word(s2[j]) by {
        assert(s2[d2 + (j - d2)] == s1[d + (j - d2)]);
    }
    if k < s1.len() {
        assert(s2[d2 + (k - d)] == s1[d + (k - d)]);
        assert(s2[k + (d2 - d)] == s1[k]);
    }
    lemma_skip_word_inv(s2, i + (d2 - d), k + (d2 - d));
}

/// Byte search is the same on agreeing suffixes, up to the shift.
pub proof fn lemma_find_byte_suffix(s1: Seq<u8>, d: int, s2: Seq<u8>, d2: int, i: int, c: u8)
    requires
        suffix_agree(s1, d, s2, d2),
        d <= i <= s1.len(),
    ensures
        find_byte(s2, i + (d2 - d), c) == find_byte(s1, i, c) + (d2 - d),
{
    let k = find_byte(s1, i, c);
    lemma_find_byte(s1, i, c);
    assert forall|j: int| i + (d2 - d) <= j < k + (d2 - d) implies s2[j] != c by {
        assert(s2[d2 + (j - d2)] == s1[d + (j - d2)]);
    }
    if k < s1.len() {
        assert(s2[d2 + (k - d)] == s1[d + (k - d)]);
        assert(s2[k + (d2 - d)] == s1[k]);
    }
    lemma_find_byte_inv(s2, i + (d2 - d), c, k + (d2 - d));
}

/// Matching is the same on agreeing suffixes, up to the shift.
pub proof fn lemma_match_at_suffix(s1: Seq<u8>, d: int, s2: Seq<u8>, d2: int, i: int, pat: Seq<u8>)
    requires
        suffix_agree(s1, d, s2, d2),
        d <= i,
    ensures
        match_at(s2, i + (d2 - d), pat) == match_at(s1, i, pat),
{
    if match_at(s1, i, pat) {
        assert forall|j: int| 0 <= j < pat.len() implies s2[i + (d2 - d) + j] == pat[j] by {
            assert(s2[d2 + (i - d + j)] == s1[d + (i - d + j)]);
        }
    }
    if match_at(s2, i + (d2 - d), pat) {
        assert forall|j: int| 0 <= j < pat.len() implies s1[i + j] == pat[j] by {
            assert(s2[d2 + (i - d + j)] == s1[d + (i - d + j)]);
            assert(s2[i + (d2 - d) + j] == pat[j]);
        }
    }
}

/// Lexicographic byte-wise order, the tie-break rule for equal scores.
pub open spec fn lex_lt(a: Seq<u8>, b: Seq<u8>) -> bool
    decreases a.len(),
{
    if b.len() == 0 {
        false
    } else if a.len() == 0 {
        true
    } else if a[0] < b[0] {
        true
    } else if a[0] > b[0] {
        false
    } else {
        lex_lt(a.drop_first(), b.drop_first())
    }
}

pub fn exec_lex_lt(a: &[u8], b: &[u8]) -> (r: bool)
    ensures
        r == lex_lt(a@, b@),
{
    let mut i: usize = 0;
    proof {
        assert(a@.subrange(0, a@.len() as int) =~= a@);
        assert(b@.subrange(0, b@.len() as int) =~= b@);
    }
    loop
        invariant
            0 <= i <= a.len(),
            i <= b.len(),
            lex_lt(a@, b@) == lex_lt(a@.subrange(i as int, a@.len() as int), b@.subrange(i as int, b@.len() as int)),
        decreases a.len() - i,
    {
        let ghost sa = a@.subrange(i as int, a@.len() as int);
        let ghost sb = b@.subrange(i as int, b@.len() as int);
        if i >= b.len() {
            assert(sb.len() == 0);
            return false;
        }
        if i >= a.len() {
            assert(sa.len() == 0 && sb.len() > 0);
            return true;
        }
        assert(sa[0] == a@[i as int] && sb[0] == b@[i as int]);
        if a[i] < b[i] {
            return true;
        }
        if a[i] > b[i] {
            return false;
        }
        proof {
            assert(sa.drop_first() =~= a@.subrange(i + 1, a@.len() as int));
            assert(sb.drop_first() =~= b@.subrange(i + 1, b@.len() as int));
        }
        i += 1;
    }
}

} // verus!
