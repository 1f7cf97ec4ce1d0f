//! The build-system backend: a whole-content, case-insensitive search for a
//! declaration of the shape `project(<name> ... VERSION X.Y.Z ...)`.  The
//! search is not line-scoped: the name and the VERSION token may be
//! separated by other tokens and line breaks, and the declaration's extent
//! is deliberately not bounded — the version taken is the first
//! whitespace-preceded `VERSION` digit triple anywhere after the first
//! project header, however far down it sits.  A reading that caps the gap
//! at one same-line token run would reject some content this one accepts;
//! the wider rule is this module's documented choice for the declared
//! shape.  Writing replaces only the located digit span.
use vstd::prelude::*;

use crate::lit::{DOT, LPAREN, project_kw, version_key, lit_project_kw, lit_version_key};
use crate::semver::{SemVersion, VersionError, lemma_dec_digits, lemma_parse_of_render,
    lemma_render_of_parse, parse_version, render_version, spec_dec, spec_parse_version,
    spec_render};
use crate::text::{exec_match_at_ci, exec_skip_digits, exec_skip_spaces, exec_skip_word,
    byte_is_digit, byte_is_space, byte_is_word, is_digit, is_space, is_upper, is_word, lower_byte,
    match_at_ci, lemma_skip_digits, lemma_skip_digits_inv, lemma_skip_spaces,
    lemma_skip_spaces_inv, lemma_skip_word, lemma_skip_word_inv, skip_digits, skip_spaces,
    skip_word, splice, subvec};

verus! {

/// Does a `project(` header start at `h`?  If so, the index just past the
/// project name's trailing word run, where the VERSION search begins.
/// `project` must sit on a word boundary, be followed by `(` after optional
/// spaces, then the name (a word run) and at least one whitespace byte.
pub open spec fn project_header_at(s: Seq<u8>, h: int) -> Option<int> {
    if !match_at_ci(s, h, project_kw()) {
        None
    } else if h > 0 && is_word(s[h - 1]) {
        None
    } else {
        let j = skip_spaces(s, h + 7);
        if j >= s.len() || s[j] != LPAREN {
            None
        } else {
            let k = skip_spaces(s, j + 1);
            if k >= s.len() || !is_word(s[k]) {
                None
            } else {
                let m = skip_word(s, k);
                if m >= s.len() || !is_space(s[m]) {
                    None
                } else {
                    Some(m)
                }
            }
        }
    }
}

pub fn exec_project_header_at(s: &[u8], h: usize) -> (r: Option<usize>)
    requires
        h <= s.len(),
    ensures
        match r {
            Some(m) => project_header_at(s@, h as int) == Some(m as int) && m <= s@.len(),
            None => project_header_at(s@, h as int) is None,
        },
{
    let kw = lit_project_kw();
    if !exec_match_at_ci(s, h, kw.as_slice()) {
        return None;
    }
    if h > 0 && byte_is_word(s[h - 1]) {
        return None;
    }
    let j = exec_skip_spaces(s, h + 7);
    if j >= s.len() || s[j] != LPAREN {
        return None;
    }
    let k = exec_skip_spaces(s, j + 1);
    if k >= s.len() || !byte_is_word(s[k]) {
        return None;
    }
    let m = exec_skip_word(s, k);
    if m >= s.len() || !byte_is_space(s[m]) {
        return None;
    }
    Some(m)
}

/// Does a whitespace-preceded `VERSION` token followed by a dotted digit
/// triple start at `k`?  If so, the span of the digits `D+.D+.D+`.
pub open spec fn version_value_at(s: Seq<u8>, k: int) -> Option<(int, int)> {
    if k < 1 || !match_at_ci(s, k, version_key()) {
        None
    } else if !is_space(s[k - 1]) {
        None
    } else {
        let w = skip_spaces(s, k + 7);
        if w == k + 7 || w >= s.len() || !is_digit(s[w]) {
            None
        } else {
            let e1 = skip_digits(s, w);
            if e1 >= s.len() || s[e1] != DOT || e1 + 1 >= s.len() || !is_digit(s[e1 + 1]) {
                None
            } else {
                let e2 = skip_digits(s, e1 + 1);
                if e2 >= s.len() || s[e2] != DOT || e2 + 1 >= s.len() || !is_digit(s[e2 + 1]) {
                    None
                } else {
                    Some((w, skip_digits(s, e2 + 1)))
                }
            }
        }
    }
}

pub fn exec_version_value_at(s: &[u8], k: usize) -> (r: Option<(usize, usize)>)
    requires
        k <= s.len(),
    ensures
        match r {
            Some((a, b)) => version_value_at(s@, k as int) == Some((a as int, b as int)) && a <= b
                <= s@.len(),
            None => version_value_at(s@, k as int) is None,
        },
{
    let kw = lit_version_key();
    if k < 1 || !exec_match_at_ci(s, k, kw.as_slice()) {
        return None;
    }
    if !byte_is_space(s[k - 1]) {
        return None;
    }
    let w = exec_skip_spaces(s, k + 7);
    if w == k + 7 || w >= s.len() || !byte_is_digit(s[w]) {
        return None;
    }
    let e1 = exec_skip_digits(s, w);
    if e1 >= s.len() || s[e1] != DOT || e1 + 1 >= s.len() || !byte_is_digit(s[e1 + 1]) {
        return None;
    }
    let e2 = exec_skip_digits(s, e1 + 1);
    if e2 >= s.len() || s[e2] != DOT || e2 + 1 >= s.len() || !byte_is_digit(s[e2 + 1]) {
        return None;
    }
    let b = exec_skip_digits(s, e2 + 1);
    Some((w, b))
}

/// First position at or after `i` where a project header starts (or the
/// length when there is none).
pub open spec fn find_project_header(s: Seq<u8>, i: int) -> int
    decreases s.len() - i,
{
    if i < 0 || i >= s.len() {
        s.len() as int
    } else if project_header_at(s, i) is Some {
        i
    } else {
        find_project_header(s, i + 1)
    }
}

proof fn lemma_find_project_header(s: Seq<u8>, i: int)
    requires
        0 <= i <= s.len(),
    ensures
        i <= find_project_header(s, i) <= s.len(),
        forall|j: int| i <= j < find_project_header(s, i) ==> project_header_at(s, j) is None,
        find_project_header(s, i) < s.len() ==> project_header_at(s, find_project_header(s, i))
            is Some,
    decreases s.len() - i,
{
    if i < s.len() && project_header_at(s, i) is None {
        lemma_find_project_header(s, i + 1);
    }
}

proof fn lemma_find_project_header_inv(s: Seq<u8>, i: int, k: int)
    requires
        0 <= i <= k <= s.len(),
        forall|j: int| i <= j < k ==> project_header_at(s, j) is None,
        k < s.len() ==> project_header_at(s, k) is Some,
    ensures
        find_project_header(s, i) == k,
    decreases k - i,
{
    if i < k {
        lemma_find_project_header_inv(s, i + 1, k);
    }
}

/// First position at or after `i` where a VERSION value starts (or the
/// length when there is none).
pub open spec fn find_version_value(s: Seq<u8>, i: int) -> int
    decreases s.len() - i,
{
    if i < 0 || i >= s.len() {
        s.len() as int
    } else if version_value_at(s, i) is Some {
        i
    } else {
        find_version_value(s, i + 1)
    }
}

proof fn lemma_find_version_value(s: Seq<u8>, i: int)
    requires
        0 <= i <= s.len(),
    ensures
        i <= find_version_value(s, i) <= s.len(),
        find_version_value(s, i) < s.len() ==> version_value_at(s, find_version_value(s, i))
            is Some,
        forall|j: int| i <= j < find_version_value(s, i) ==> version_value_at(s, j) is None,
    decreases s.len() - i,
{
    if i < s.len() && version_value_at(s, i) is None {
        lemma_find_version_value(s, i + 1);
    }
}

proof fn lemma_find_version_value_inv(s: Seq<u8>, i: int, k: int)
    requires
        0 <= i <= k <= s.len(),
        forall|j: int| i <= j < k ==> version_value_at(s, j) is None,
        k < s.len() ==> version_value_at(s, k) is Some,
    ensures
        find_version_value(s, i) == k,
    decreases k - i,
{
    if i < k {
        lemma_find_version_value_inv(s, i + 1, k);
    }
}

/// The located digit span: the dotted triple of the first VERSION value
/// that follows the first project header, anywhere in the remaining
/// content — the occurrence that counts is the earliest one, with no bound
/// on how much text separates it from the header.  A file with a project
/// header but no version value after it yields nothing; no later header
/// could help, since any value after a later header also lies after this
/// one.
pub open spec fn cmake_locate(s: Seq<u8>) -> Option<(int, int)> {
    let h = find_project_header(s, 0);
    if h == s.len() {
        None
    } else {
        let m = project_header_at(s, h)->Some_0;
        let k = find_version_value(s, m + 1);
        if k == s.len() {
            None
        } else {
            Some(version_value_at(s, k)->Some_0)
        }
    }
}

fn exec_find_header(s: &[u8]) -> (r: Option<(usize, usize)>)
    ensures
        match r {
            Some((h, m)) => find_project_header(s@, 0) == h as int && project_header_at(
                s@,
                h as int,
            ) == Some(m as int) && h < s@.len() && m < s@.len(),
            None => find_project_header(s@, 0) == s@.len(),
        },
{
    let mut h: usize = 0;
    loop
        invariant
            0 <= h <= s@.len(),
            forall|j: int| 0 <= j < h ==> project_header_at(s@, j) is None,
        decreases s.len() - h,
    {
        if h >= s.len() {
            proof {
                lemma_find_project_header_inv(s@, 0, h as int);
            }
            return None;
        }
        match exec_project_header_at(s, h) {
            Some(m) => {
                proof {
                    lemma_find_project_header_inv(s@, 0, h as int);
                }
                return Some((h, m));
            },
            None => {
                h += 1;
            },
        }
    }
}

fn exec_find_value(s: &[u8], start: usize) -> (r: Option<(usize, usize)>)
    requires
        start <= s@.len(),
    ensures
        match r {
            Some((a, b)) => find_version_value(s@, start as int) < s@.len() && version_value_at(
                s@,
                find_version_value(s@, start as int),
            ) == Some((a as int, b as int)) && a <= b <= s@.len(),
            None => find_version_value(s@, start as int) == s@.len(),
        },
{
    let mut k: usize = start;
    loop
        invariant
            start <= k <= s@.len(),
            forall|j: int| start <= j < k ==> version_value_at(s@, j) is None,
        decreases s.len() - k,
    {
        if k >= s.len() {
            proof {
                lemma_find_version_value_inv(s@, start as int, k as int);
            }
            return None;
        }
        match exec_version_value_at(s, k) {
            Some((a, b)) => {
                proof {
                    lemma_find_version_value_inv(s@, start as int, k as int);
                }
                return Some((a, b));
            },
            None => {
                k += 1;
            },
        }
    }
}

pub fn exec_cmake_locate(s: &[u8]) -> (r: Option<(usize, usize)>)
    requires
        s@.len() < usize::MAX,
    ensures
        match r {
            Some((a, b)) => cmake_locate(s@) == Some((a as int, b as int)) && a <= b <= s@.len(),
            None => cmake_locate(s@) is None,
        },
{
    match exec_find_header(s) {
        None => None,
        Some((h, m)) => {
            match exec_find_value(s, m + 1) {
                None => None,
                Some((a, b)) => Some((a, b)),
            }
        },
    }
}

/// What a read of build-system content yields.
pub open spec fn spec_cmake_read(s: Seq<u8>) -> Option<SemVersion> {
    match cmake_locate(s) {
        Some((a, b)) => spec_parse_version(s.subrange(a, b)),
        None => None,
    }
}

/// What a write of build-system content produces: the digit span replaced,
/// everything else byte-identical; content without a match is unchanged.
pub open spec fn spec_cmake_write(s: Seq<u8>, v: SemVersion) -> Seq<u8> {
    match cmake_locate(s) {
        Some((a, b)) => s.subrange(0, a) + spec_render(v) + s.subrange(b, s.len() as int),
        None => s,
    }
}

/// A build-system descriptor bound to a resolved path.
pub struct CmakeFile {
    pub path: String,
}

impl CmakeFile {
    pub fn new(path: String) -> (r: Self)
        ensures
            r.path@ == path@,
    {
        CmakeFile { path }
    }

    /// Parse the version out of the first `project(... VERSION X.Y.Z ...)`
    /// declaration: the first whitespace-preceded VERSION digit triple
    /// anywhere after the first project header, per the module's search
    /// rule; an error exactly when that rule locates nothing.
    pub fn read(&self, content: &[u8]) -> (r: Result<SemVersion, VersionError>)
        requires
            content@.len() < usize::MAX,
        ensures
            match spec_cmake_read(content@) {
                Some(v) => r == Ok::<SemVersion, VersionError>(v),
                None => r == Err::<SemVersion, VersionError>(VersionError::ParseError),
            },
    {
        match exec_cmake_locate(content) {
            Some((a, b)) => {
                match parse_version(&content[a..b]) {
                    Some(v) => Ok(v),
                    None => Err(VersionError::ParseError),
                }
            },
            None => Err(VersionError::ParseError),
        }
    }

    /// Rewrite the located digit span to hold `v`; unrelated bytes are kept.
    pub fn write(&self, content: &[u8], v: &SemVersion) -> (r: Vec<u8>)
        requires
            content@.len() < usize::MAX,
        ensures
            r@ == spec_cmake_write(content@, *v),
    {
        match exec_cmake_locate(content) {
            Some((a, b)) => {
                let rv = render_version(v);
                splice(content, a, b, rv.as_slice())
            },
            None => {
                let r = subvec(content, 0, content.len());
                proof {
                    assert(content@.subrange(0, content@.len() as int) =~= content@);
                }
                r
            },
        }
    }
}

/// The shape of a located value: a run of digits, a dot, a run of digits,
/// a dot, and a final run of digits filling the rest.
pub open spec fn dotted_shape(u: Seq<u8>) -> bool {
    let f1 = skip_digits(u, 0);
    let f2 = skip_digits(u, f1 + 1);
    &&& u.len() > 0
    &&& is_digit(u[0])
    &&& f1 < u.len() && u[f1] == DOT && f1 + 1 < u.len() && is_digit(u[f1 + 1])
    &&& f2 < u.len() && u[f2] == DOT && f2 + 1 < u.len() && is_digit(u[f2 + 1])
    &&& skip_digits(u, f2 + 1) == u.len()
}

/// A dotted shape holds only digits and dots.
proof fn lemma_dotted_classes(u: Seq<u8>)
    requires
        dotted_shape(u),
    ensures
        forall|x: int| 0 <= x < u.len() ==> is_digit(#[trigger] u[x]) || u[x] == DOT,
{
    let f1 = skip_digits(u, 0);
    lemma_skip_digits(u, 0);
    let f2 = skip_digits(u, f1 + 1);
    lemma_skip_digits(u, f1 + 1);
    lemma_skip_digits(u, f2 + 1);
}

/// The canonical rendering of any version is a dotted shape.
proof fn lemma_render_dotted(v: SemVersion)
    ensures
        dotted_shape(spec_render(v)),
{
    let u = spec_render(v);
    let a = spec_dec(v.major as nat);
    let b = spec_dec(v.minor as nat);
    let c = spec_dec(v.patch as nat);
    lemma_dec_digits(v.major as nat);
    lemma_dec_digits(v.minor as nat);
    lemma_dec_digits(v.patch as nat);
    let la = a.len() as int;
    let lb = b.len() as int;
    let lc = c.len() as int;
    assert(forall|j: int| 0 <= j < la ==> u[j] == a[j]);
    assert(u[la] == DOT);
    assert(forall|j: int| 0 <= j < lb ==> u[la + 1 + j] == b[j]);
    assert(u[la + 1 + lb] == DOT);
    assert(forall|j: int| 0 <= j < lc ==> u[la + lb + 2 + j] == c[j]);
    assert(!is_digit(DOT));
    lemma_skip_digits_inv(u, 0, la);
    lemma_skip_digits_inv(u, la + 1, la + 1 + lb);
    lemma_skip_digits_inv(u, la + lb + 2, u.len() as int);
}

/// A located value span, viewed in content coordinates: the positions of
/// its two dots and its three digit runs.
proof fn lemma_span_structure(s: Seq<u8>, a: int, b: int)
    requires
        0 <= a < b <= s.len(),
        dotted_shape(s.subrange(a, b)),
        b < s.len() ==> !is_digit(s[b]),
    ensures
        ({
            let u = s.subrange(a, b);
            let g1 = a + skip_digits(u, 0);
            let g2 = a + skip_digits(u, skip_digits(u, 0) + 1);
            &&& is_digit(s[a])
            &&& a < g1 < g2 < b
            &&& skip_digits(s, a) == g1
            &&& s[g1] == DOT && is_digit(s[g1 + 1])
            &&& skip_digits(s, g1 + 1) == g2
            &&& s[g2] == DOT && is_digit(s[g2 + 1])
            &&& skip_digits(s, g2 + 1) == b
        }),
{
    let u = s.subrange(a, b);
    let f1 = skip_digits(u, 0);
    lemma_skip_digits(u, 0);
    let f2 = skip_digits(u, f1 + 1);
    lemma_skip_digits(u, f1 + 1);
    lemma_skip_digits(u, f2 + 1);
    let g1 = a + f1;
    let g2 = a + f2;
    assert forall|x: int| a <= x < g1 implies is_digit(#[trigger] s[x]) by {
        assert(u[x - a] == s[x]);
        assert(is_digit(u[x - a]));
    }
    assert(s[g1] == u[f1]);
    lemma_skip_digits_inv(s, a, g1);
    assert forall|x: int| g1 + 1 <= x < g2 implies is_digit(#[trigger] s[x]) by {
        assert(u[x - a] == s[x]);
        assert(is_digit(u[x - a]));
    }
    assert(s[g2] == u[f2]);
    lemma_skip_digits_inv(s, g1 + 1, g2);
    assert forall|x: int| g2 + 1 <= x < b implies is_digit(#[trigger] s[x]) by {
        assert(u[x - a] == s[x]);
        assert(is_digit(u[x - a]));
    }
    lemma_skip_digits_inv(s, g2 + 1, b);
}

/// Bounds and shape of a recognized value.
proof fn lemma_value_at_props(s: Seq<u8>, k: int, a: int, b: int)
    requires
        version_value_at(s, k) == Some((a, b)),
    ensures
        1 <= k,
        k + 8 <= a < b <= s.len(),
        dotted_shape(s.subrange(a, b)),
        b < s.len() ==> !is_digit(s[b]),
        forall|x: int| k + 7 <= x < a ==> is_space(#[trigger] s[x]),
{
    let w = skip_spaces(s, k + 7);
    lemma_skip_spaces(s, k + 7);
    let e1 = skip_digits(s, w);
    lemma_skip_digits(s, w);
    let e2 = skip_digits(s, e1 + 1);
    lemma_skip_digits(s, e1 + 1);
    let e3 = skip_digits(s, e2 + 1);
    lemma_skip_digits(s, e2 + 1);
    let u = s.subrange(a, b);
    assert(forall|x: int| 0 <= x < e1 - w ==> is_digit(#[trigger] u[x]));
    assert(u[e1 - w] == s[e1]);
    lemma_skip_digits_inv(u, 0, e1 - w);
    assert(forall|x: int| e1 + 1 - w <= x < e2 - w ==> is_digit(#[trigger] u[x]));
    assert(u[e2 - w] == s[e2]);
    lemma_skip_digits_inv(u, e1 + 1 - w, e2 - w);
    assert(forall|x: int| e2 + 1 - w <= x < u.len() ==> is_digit(#[trigger] u[x]));
    lemma_skip_digits_inv(u, e2 + 1 - w, u.len() as int);
}

/// A failed project-header check left of a value span still fails after
/// new digits are spliced over the span: every byte class the header
/// grammar tests is unchanged.
#[verifier::rlimit(80)]
proof fn lemma_header_at_none_splice(s: Seq<u8>, a: int, b: int, r: Seq<u8>, h: int)
    requires
        0 <= a < b <= s.len(),
        dotted_shape(s.subrange(a, b)),
        dotted_shape(r),
        b < s.len() ==> !is_digit(s[b]),
        project_header_at(s, h) is None,
        0 <= h < a,
    ensures
        project_header_at(s.subrange(0, a) + r + s.subrange(b, s.len() as int), h) is None,
{
    let s2 = s.subrange(0, a) + r + s.subrange(b, s.len() as int);
    lemma_span_structure(s, a, b);
    lemma_dotted_classes(r);
    let u = s.subrange(a, b);
    let g1 = a + skip_digits(u, 0);
    assert(forall|x: int| 0 <= x < a ==> s2[x] == s[x]);
    assert(forall|x: int| 0 <= x < r.len() ==> s2[a + x] == r[x]);
    assert(s2[a] == r[0] && is_digit(s2[a]));
    assert(forall|t: int| 0 <= t < 7 ==> project_kw()[t] >= 99);
    let mc = match_at_ci(s, h, project_kw());
    let mc2 = match_at_ci(s2, h, project_kw());
    if mc {
        assert(h + 7 <= a) by {
            if a < h + 7 {
                assert(lower_byte(s[h + (a - h)]) == project_kw()[a - h]);
                assert(is_digit(s[a]));
            }
        }
        assert(mc2) by {
            assert(forall|t: int| 0 <= t < 7 ==> #[trigger] s2[h + t] == s[h + t]);
        }
    } else {
        assert(!mc2) by {
            if mc2 {
                if h + 7 <= a {
                    assert(forall|t: int| 0 <= t < 7 ==> #[trigger] s[h + t] == s2[h + t]);
                    assert(match_at_ci(s, h, project_kw()));
                } else {
                    assert(lower_byte(s2[h + (a - h)]) == project_kw()[a - h]);
                    assert(is_digit(s2[a]));
                }
            }
        }
    }
    if mc && !(h > 0 && is_word(s[h - 1])) {
        let j = skip_spaces(s, h + 7);
        lemma_skip_spaces(s, h + 7);
        assert(j <= a) by {
            if j > a {
                assert(is_space(s[a]));
            }
        }
        assert(skip_spaces(s2, h + 7) == j) by {
            if j == a {
                assert(!is_space(s2[a]));
            }
            lemma_skip_spaces_inv(s2, h + 7, j);
        }
        if j < s.len() && s[j] == LPAREN {
            assert(j < a);
            let k = skip_spaces(s, j + 1);
            lemma_skip_spaces(s, j + 1);
            assert(k <= a) by {
                if k > a {
                    assert(is_space(s[a]));
                }
            }
            assert(skip_spaces(s2, j + 1) == k) by {
                if k == a {
                    assert(!is_space(s2[a]));
                }
                lemma_skip_spaces_inv(s2, j + 1, k);
            }
            if k < s.len() && is_word(s[k]) {
                let m = skip_word(s, k);
                lemma_skip_word(s, k);
                assert(m != a) by {
                    if m == a {
                        assert(!is_word(s[a]));
                        assert(is_digit(s[a]));
                    }
                }
                if m < a {
                    assert(skip_word(s2, k) == m) by {
                        lemma_skip_word_inv(s2, k, m);
                    }
                    if m < s.len() && is_space(s[m]) {
                        assert(project_header_at(s, h) is Some);
                        assert(false);
                    }
                } else {
                    // the name run crosses the span and ends at its first dot
                    assert(m == g1) by {
                        crate::text::lemma_skip_digits(s, a);
                        if m < g1 {
                            assert(is_digit(s[m]));
                            assert(!is_word(s[m]));
                        }
                        if m > g1 {
                            assert(is_word(s[g1]));
                            assert(s[g1] == DOT);
                        }
                    }
                    assert(!is_space(s[m]));
                    let f1r = skip_digits(r, 0);
                    crate::text::lemma_skip_digits(r, 0);
                    assert(skip_word(s2, k) == a + f1r) by {
                        assert forall|x: int| k <= x < a + f1r implies is_word(s2[x]) by {
                            if x < a {
                                assert(s2[x] == s[x]);
                            } else {
                                assert(s2[x] == r[x - a]);
                                assert(is_digit(r[x - a]));
                            }
                        }
                        assert(s2[a + f1r] == r[f1r] && r[f1r] == DOT);
                        assert(!is_word(DOT));
                        lemma_skip_word_inv(s2, k, a + f1r);
                    }
                    assert(!is_space(s2[a + f1r]));
                }
            }
        }
    }
}

/// A failed VERSION-value check left of the located span still fails after
/// the splice; a check that would reach into the span would have succeeded
/// on the old content already.
#[verifier::rlimit(80)]
proof fn lemma_value_at_none_splice(s: Seq<u8>, a: int, b: int, r: Seq<u8>, k: int)
    requires
        0 <= a < b <= s.len(),
        dotted_shape(s.subrange(a, b)),
        dotted_shape(r),
        b < s.len() ==> !is_digit(s[b]),
        version_value_at(s, k) is None,
        1 <= k < a,
    ensures
        version_value_at(s.subrange(0, a) + r + s.subrange(b, s.len() as int), k) is None,
{
    let s2 = s.subrange(0, a) + r + s.subrange(b, s.len() as int);
    lemma_span_structure(s, a, b);
    lemma_dotted_classes(r);
    let u = s.subrange(a, b);
    let g1 = a + skip_digits(u, 0);
    let g2 = a + skip_digits(u, skip_digits(u, 0) + 1);
    assert(forall|x: int| 0 <= x < a ==> s2[x] == s[x]);
    assert(forall|x: int| 0 <= x < r.len() ==> s2[a + x] == r[x]);
    assert(s2[a] == r[0] && is_digit(s2[a]));
    assert(forall|t: int| 0 <= t < 7 ==> version_key()[t] >= 99);
    let mc = match_at_ci(s, k, version_key());
    let mc2 = match_at_ci(s2, k, version_key());
    if mc {
        assert(k + 7 <= a) by {
            if a < k + 7 {
                assert(lower_byte(s[k + (a - k)]) == version_key()[a - k]);
                assert(is_digit(s[a]));
            }
        }
        assert(mc2) by {
            assert(forall|t: int| 0 <= t < 7 ==> #[trigger] s2[k + t] == s[k + t]);
        }
    } else {
        assert(!mc2) by {
            if mc2 {
                if k + 7 <= a {
                    assert(forall|t: int| 0 <= t < 7 ==> #[trigger] s[k + t] == s2[k + t]);
                    assert(match_at_ci(s, k, version_key()));
                } else {
                    assert(lower_byte(s2[k + (a - k)]) == version_key()[a - k]);
                    assert(is_digit(s2[a]));
                }
            }
        }
    }
    if mc && is_space(s[k - 1]) {
        let w = skip_spaces(s, k + 7);
        lemma_skip_spaces(s, k + 7);
        assert(w <= a) by {
            if w > a {
                assert(is_space(s[a]));
            }
        }
        assert(skip_spaces(s2, k + 7) == w) by {
            if w == a {
                assert(!is_space(s2[a]));
            }
            lemma_skip_spaces_inv(s2, k + 7, w);
        }
        if w != k + 7 {
            if w == a {
                // the value would have started right at the span: but then
                // the old content already carried a recognized value there
                assert(skip_digits(s, a) == g1);
                assert(version_value_at(s, k) is Some);
                assert(false);
            } else if is_digit(s[w]) {
                let e1 = skip_digits(s, w);
                lemma_skip_digits(s, w);
                assert(e1 != a) by {
                    if e1 == a {
                        assert(!is_digit(s[a]));
                    }
                }
                if e1 > a {
                    assert(e1 == g1) by {
                        crate::text::lemma_skip_digits(s, a);
                        if e1 < g1 {
                            assert(is_digit(s[e1]));
                        }
                        if e1 > g1 {
                            assert(is_digit(s[g1]));
                            assert(s[g1] == DOT);
                        }
                    }
                    assert(version_value_at(s, k) is Some);
                    assert(false);
                } else {
                    assert(skip_digits(s2, w) == e1) by {
                        lemma_skip_digits_inv(s2, w, e1);
                    }
                    if s[e1] == DOT && e1 + 1 < s.len() && is_digit(s[e1 + 1]) {
                        if e1 + 1 == a {
                            assert(skip_digits(s, a) == g1);
                            assert(version_value_at(s, k) is Some);
                            assert(false);
                        } else {
                            assert(e1 + 1 < a);
                            let e2 = skip_digits(s, e1 + 1);
                            lemma_skip_digits(s, e1 + 1);
                            assert(e2 != a) by {
                                if e2 == a {
                                    assert(!is_digit(s[a]));
                                }
                            }
                            if e2 > a {
                                assert(e2 == g1) by {
                                    crate::text::lemma_skip_digits(s, a);
                                    if e2 < g1 {
                                        assert(is_digit(s[e2]));
                                    }
                                    if e2 > g1 {
                                        assert(is_digit(s[g1]));
                                        assert(s[g1] == DOT);
                                    }
                                }
                                assert(version_value_at(s, k) is Some);
                                assert(false);
                            } else {
                                assert(skip_digits(s2, e1 + 1) == e2) by {
                                    lemma_skip_digits_inv(s2, e1 + 1, e2);
                                }
                                if s[e2] == DOT && e2 + 1 < s.len() && is_digit(s[e2 + 1]) {
                                    assert(version_value_at(s, k) is Some);
                                    assert(false);
                                } else {
                                    if e2 + 1 == a {
                                        assert(s[e2] == s2[e2]);
                                        if s[e2] == DOT {
                                            assert(is_digit(s2[a]));
                                            assert(is_digit(s[a]));
                                            assert(version_value_at(s, k) is Some);
                                            assert(false);
                                        }
                                    }
                                }
                            }
                        }
                    }
                }
            }
        }
    }
}

/// A recognized project header whose reads stay left of the span is
/// unchanged by the splice.
proof fn lemma_header_at_some_preserved(s: Seq<u8>, a: int, b: int, r: Seq<u8>, h: int, m: int)
    requires
        0 <= a < b <= s.len(),
        dotted_shape(s.subrange(a, b)),
        dotted_shape(r),
        b < s.len() ==> !is_digit(s[b]),
        project_header_at(s, h) == Some(m),
        0 <= h,
        m < a,
    ensures
        project_header_at(s.subrange(0, a) + r + s.subrange(b, s.len() as int), h) == Some(m),
{
    let s2 = s.subrange(0, a) + r + s.subrange(b, s.len() as int);
    assert(forall|x: int| 0 <= x < a ==> s2[x] == s[x]);
    let j = skip_spaces(s, h + 7);
    lemma_skip_spaces(s, h + 7);
    let k = skip_spaces(s, j + 1);
    lemma_skip_spaces(s, j + 1);
    let mm = skip_word(s, k);
    lemma_skip_word(s, k);
    assert(mm == m);
    assert(h + 7 <= j && j < k && k < m);
    assert(match_at_ci(s2, h, project_kw())) by {
        assert(forall|t: int| 0 <= t < 7 ==> #[trigger] s2[h + t] == s[h + t]);
    }
    lemma_skip_spaces_inv(s2, h + 7, j);
    lemma_skip_spaces_inv(s2, j + 1, k);
    lemma_skip_word_inv(s2, k, m);
}

/// The splice carries the recognized value itself over to the new digits.
proof fn lemma_value_at_some_splice(s: Seq<u8>, k: int, a: int, b: int, r: Seq<u8>)
    requires
        version_value_at(s, k) == Some((a, b)),
        dotted_shape(r),
    ensures
        version_value_at(s.subrange(0, a) + r + s.subrange(b, s.len() as int), k) == Some(
            (a, a + r.len()),
        ),
{
    let s2 = s.subrange(0, a) + r + s.subrange(b, s.len() as int);
    lemma_value_at_props(s, k, a, b);
    lemma_dotted_classes(r);
    assert(forall|x: int| 0 <= x < a ==> s2[x] == s[x]);
    assert(forall|x: int| 0 <= x < r.len() ==> s2[a + x] == r[x]);
    let delta = r.len() - (b - a);
    assert(forall|x: int| b <= x < s.len() ==> s2[x + delta] == s[x]);
    assert(match_at_ci(s2, k, version_key())) by {
        assert(forall|t: int| 0 <= t < 7 ==> #[trigger] s2[k + t] == s[k + t]);
    }
    assert(s2[k - 1] == s[k - 1]);
    assert(skip_spaces(s2, k + 7) == a) by {
        assert(!is_space(s2[a]));
        lemma_skip_spaces_inv(s2, k + 7, a);
    }
    let f1 = skip_digits(r, 0);
    crate::text::lemma_skip_digits(r, 0);
    let f2 = skip_digits(r, f1 + 1);
    crate::text::lemma_skip_digits(r, f1 + 1);
    crate::text::lemma_skip_digits(r, f2 + 1);
    assert(skip_digits(s2, a) == a + f1) by {
        assert(s2[a + f1] == r[f1]);
        lemma_skip_digits_inv(s2, a, a + f1);
    }
    assert(s2[a + f1] == DOT && is_digit(s2[a + f1 + 1]));
    assert(skip_digits(s2, a + f1 + 1) == a + f2) by {
        assert(s2[a + f2] == r[f2]);
        lemma_skip_digits_inv(s2, a + f1 + 1, a + f2);
    }
    assert(s2[a + f2] == DOT && is_digit(s2[a + f2 + 1]));
    assert(skip_digits(s2, a + f2 + 1) == a + r.len()) by {
        if b < s.len() {
            assert(s2[b + delta] == s[b]);
            assert(!is_digit(s2[a + r.len()]));
        }
        lemma_skip_digits_inv(s2, a + f2 + 1, a + r.len() as int);
    }
}

/// A recognized header's name-run end lies strictly right of its start.
proof fn lemma_header_at_props(s: Seq<u8>, h: int, m: int)
    requires
        project_header_at(s, h) == Some(m),
    ensures
        0 <= h < m < s.len(),
{
    lemma_skip_spaces(s, h + 7);
    let j = skip_spaces(s, h + 7);
    lemma_skip_spaces(s, j + 1);
    let k = skip_spaces(s, j + 1);
    lemma_skip_word(s, k);
}

/// ROUND TRIP for the build-system backend: on content where the search
/// locates a version, writing any version `v` and reading the result
/// yields exactly `v` back.
pub proof fn lemma_cmake_round_trip(s: Seq<u8>, v: SemVersion)
    requires
        cmake_locate(s) is Some,
    ensures
        spec_cmake_read(spec_cmake_write(s, v)) == Some(v),
{
    let (a, b) = cmake_locate(s)->Some_0;
    let h = find_project_header(s, 0);
    lemma_find_project_header(s, 0);
    let m = project_header_at(s, h)->Some_0;
    let k = find_version_value(s, m + 1);
    lemma_find_version_value(s, m + 1);
    lemma_value_at_props(s, k, a, b);
    let r = spec_render(v);
    lemma_render_dotted(v);
    let s2 = s.subrange(0, a) + r + s.subrange(b, s.len() as int);
    assert(spec_cmake_write(s, v) == s2);
    lemma_header_at_props(s, h, m);
    assert(h < m < a);
    assert forall|hh: int| 0 <= hh < h implies project_header_at(s2, hh) is None by {
        lemma_header_at_none_splice(s, a, b, r, hh);
    }
    lemma_header_at_some_preserved(s, a, b, r, h, m);
    lemma_find_project_header_inv(s2, 0, h);
    assert forall|kk: int| m + 1 <= kk < k implies version_value_at(s2, kk) is None by {
        lemma_value_at_none_splice(s, a, b, r, kk);
    }
    lemma_value_at_some_splice(s, k, a, b, r);
    lemma_find_version_value_inv(s2, m + 1, k);
    assert(cmake_locate(s2) == Some((a, a + r.len())));
    assert(s2.subrange(a, a + r.len() as int) =~= r);
    lemma_parse_of_render(v);
}

/// NO-OP WRITE: writing the version the content already holds returns the
/// content byte-identically.
pub proof fn lemma_cmake_write_noop(s: Seq<u8>, v: SemVersion)
    requires
        spec_cmake_read(s) == Some(v),
    ensures
        spec_cmake_write(s, v) == s,
{
    let (a, b) = cmake_locate(s)->Some_0;
    lemma_cmake_locate_bounds(s);
    lemma_render_of_parse(s.subrange(a, b), v);
    assert(spec_cmake_write(s, v) =~= s);
}

/// A located span lies within the content.
pub proof fn lemma_cmake_locate_bounds(s: Seq<u8>)
    requires
        cmake_locate(s) is Some,
    ensures
        0 <= cmake_locate(s)->Some_0.0 <= cmake_locate(s)->Some_0.1 <= s.len(),
{
    let h = find_project_header(s, 0);
    lemma_find_project_header(s, 0);
    let m = project_header_at(s, h)->Some_0;
    assert(m < s.len());
    let k = find_version_value(s, m + 1);
    lemma_find_version_value(s, m + 1);
    let w = skip_spaces(s, k + 7);
    crate::text::lemma_skip_spaces(s, k + 7);
    let e1 = skip_digits(s, w);
    crate::text::lemma_skip_digits(s, w);
    let e2 = skip_digits(s, e1 + 1);
    crate::text::lemma_skip_digits(s, e1 + 1);
    crate::text::lemma_skip_digits(s, e2 + 1);
}

/// CONTENT PRESERVATION: a write keeps every byte outside the digit span.
pub proof fn lemma_cmake_write_preserves(s: Seq<u8>, v: SemVersion)
    requires
        cmake_locate(s) is Some,
    ensures
        ({
            let (a, b) = cmake_locate(s)->Some_0;
            let w = spec_cmake_write(s, v);
            &&& w.len() == a + spec_render(v).len() + (s.len() - b)
            &&& w.subrange(0, a) == s.subrange(0, a)
            &&& w.subrange(a + spec_render(v).len() as int, w.len() as int) == s.subrange(
                b,
                s.len() as int,
            )
            &&& w.subrange(a, a + spec_render(v).len() as int) == spec_render(v)
        }),
{
    let (a, b) = cmake_locate(s)->Some_0;
    lemma_cmake_locate_bounds(s);
    let w = spec_cmake_write(s, v);
    assert(w.subrange(0, a) =~= s.subrange(0, a));
    assert(w.subrange(a + spec_render(v).len() as int, w.len() as int) =~= s.subrange(
        b,
        s.len() as int,
    ));
    assert(w.subrange(a, a + spec_render(v).len() as int) =~= spec_render(v));
}

} // verus!
