//! The C-header backend: `#define <PREFIX>_VERSION_{MAJOR,MINOR,PATCH} <n>`
//! lines, with automatic inference of the macro prefix.  Candidate prefixes
//! are collected from every line; a lone candidate wins outright, and among
//! several the highest-scoring one wins, scored by substring occurrences
//! plus a fixed bonus when `<PREFIX>_VERSION` also appears.  Equal scores
//! are broken deterministically in favour of the lexicographically smallest
//! prefix.  Patching replaces only the digits of each macro's value, each
//! one independently; a macro absent from the file is left unpatched.
use vstd::prelude::*;

use crate::lit::{HASH, NL, UNDERSCORE, define_kw, dunder_tok, debug_tok, linux_tok, lit_define_kw,
    lit_dunder_tok, lit_debug_tok, lit_linux_tok, lit_macos_tok, lit_major_kw, lit_minor_kw,
    lit_patch_kw, lit_release_tok, lit_version_infix, lit_version_suffix_tok, lit_win32_tok,
    macos_tok, major_kw, minor_kw, patch_kw, release_tok, version_infix, version_suffix_tok,
    win32_tok};
use crate::semver::{SemVersion, VersionError, spec_dec, spec_parse_dec_lenient, parse_dec,
    render_dec};
use crate::text::{contains_sub, count_matches, exec_contains_sub, exec_count_matches,
    exec_find_byte, exec_lex_lt, exec_match_at, exec_skip_digits, exec_skip_spaces,
    exec_skip_word, byte_is_digit, byte_is_space, byte_is_word, bytes_eq, find_byte,
    is_digit, is_space, is_upper, is_word, lemma_contains_iff_count, lemma_count_matches_split,
    lemma_count_matches_suffix, lemma_find_byte, lemma_find_byte_inv, lemma_match_at_suffix,
    lemma_skip_digits, lemma_skip_digits_inv, lemma_skip_digits_suffix, lemma_skip_spaces,
    lemma_skip_spaces_inv, lemma_skip_spaces_suffix, lemma_skip_word, lemma_skip_word_inv,
    lemma_skip_word_suffix, lex_lt, match_at, skip_digits, skip_spaces, skip_word, splice, subvec,
    suffix_agree};

verus! {

/// One of the three version macros.
#[derive(Clone, Copy, Debug, PartialEq, Eq, Structural)]
pub enum VersionPart {
    Major,
    Minor,
    Patch,
}

pub open spec fn part_kw(part: VersionPart) -> Seq<u8> {
    match part {
        VersionPart::Major => major_kw(),
        VersionPart::Minor => minor_kw(),
        VersionPart::Patch => patch_kw(),
    }
}

pub open spec fn part_component(v: SemVersion, part: VersionPart) -> u64 {
    match part {
        VersionPart::Major => v.major,
        VersionPart::Minor => v.minor,
        VersionPart::Patch => v.patch,
    }
}

/// The full macro name `<prefix>_VERSION_<PART>`.
pub open spec fn macro_name(prefix: Seq<u8>, part: VersionPart) -> Seq<u8> {
    prefix + version_infix() + part_kw(part)
}

pub fn build_macro_name(prefix: &[u8], part: VersionPart) -> (r: Vec<u8>)
    ensures
        r@ == macro_name(prefix@, part),
{
    let mut r: Vec<u8> = Vec::new();
    r.extend_from_slice(prefix);
    let infix = lit_version_infix();
    r.extend_from_slice(infix.as_slice());
    let kw = match part {
        VersionPart::Major => lit_major_kw(),
        VersionPart::Minor => lit_minor_kw(),
        VersionPart::Patch => lit_patch_kw(),
    };
    r.extend_from_slice(kw.as_slice());
    proof {
        assert(r@ =~= macro_name(prefix@, part));
    }
    r
}

/// Does a version-macro definition start at `h` in this line?  The shape is
/// `#` spaces `define`, whitespace, then a word run that ends in
/// `_VERSION_` plus one of the three part keywords, then whitespace and a
/// digit.  If so, the span of the prefix (the word run minus the suffix).
pub open spec fn macro_def_at(line: Seq<u8>, h: int) -> Option<(int, int)> {
    if h < 0 || h >= line.len() || line[h] != HASH {
        None
    } else {
        let j = skip_spaces(line, h + 1);
        if !match_at(line, j, define_kw()) {
            None
        } else {
            let k = skip_spaces(line, j + 6);
            if k == j + 6 || k >= line.len() || !is_word(line[k]) {
                None
            } else {
                let m = skip_word(line, k);
                if m - k < 15 || !match_at(line, m - 14, version_infix()) {
                    None
                } else if !(match_at(line, m - 5, major_kw()) || match_at(line, m - 5, minor_kw())
                    || match_at(line, m - 5, patch_kw())) {
                    None
                } else {
                    let w = skip_spaces(line, m);
                    if w == m || w >= line.len() || !is_digit(line[w]) {
                        None
                    } else {
                        Some((k, m - 14))
                    }
                }
            }
        }
    }
}

pub fn exec_macro_def_at(line: &[u8], h: usize) -> (r: Option<(usize, usize)>)
    requires
        h <= line@.len(),
    ensures
        match r {
            Some((ps, pe)) => macro_def_at(line@, h as int) == Some((ps as int, pe as int)) && ps
                <= pe <= line@.len(),
            None => macro_def_at(line@, h as int) is None,
        },
{
    if h >= line.len() || line[h] != HASH {
        return None;
    }
    let j = exec_skip_spaces(line, h + 1);
    let dkw = lit_define_kw();
    if !exec_match_at(line, j, dkw.as_slice()) {
        return None;
    }
    let k = exec_skip_spaces(line, j + 6);
    if k == j + 6 || k >= line.len() || !byte_is_word(line[k]) {
        return None;
    }
    let m = exec_skip_word(line, k);
    let infix = lit_version_infix();
    if m - k < 15 || !exec_match_at(line, m - 14, infix.as_slice()) {
        return None;
    }
    let kw_ma = lit_major_kw();
    let kw_mi = lit_minor_kw();
    let kw_pa = lit_patch_kw();
    if !(exec_match_at(line, m - 5, kw_ma.as_slice()) || exec_match_at(line, m - 5, kw_mi.as_slice())
        || exec_match_at(line, m - 5, kw_pa.as_slice())) {
        return None;
    }
    let w = exec_skip_spaces(line, m);
    if w == m || w >= line.len() || !byte_is_digit(line[w]) {
        return None;
    }
    Some((k, m - 14))
}

/// First position in the line where a version-macro definition starts, or
/// the length when there is none.
pub open spec fn find_macro_def(line: Seq<u8>, i: int) -> int
    decreases line.len() - i,
{
    if i < 0 || i >= line.len() {
        line.len() as int
    } else if macro_def_at(line, i) is Some {
        i
    } else {
        find_macro_def(line, i + 1)
    }
}

proof fn lemma_find_macro_def(line: Seq<u8>, i: int)
    requires
        0 <= i <= line.len(),
    ensures
        i <= find_macro_def(line, i) <= line.len(),
        find_macro_def(line, i) < line.len() ==> macro_def_at(line, find_macro_def(line, i))
            is Some,
        forall|j: int| i <= j < find_macro_def(line, i) ==> macro_def_at(line, j) is None,
    decreases line.len() - i,
{
    if i < line.len() && macro_def_at(line, i) is None {
        lemma_find_macro_def(line, i + 1);
    }
}

proof fn lemma_find_macro_def_inv(line: Seq<u8>, i: int, k: int)
    requires
        0 <= i <= k <= line.len(),
        forall|j: int| i <= j < k ==> macro_def_at(line, j) is None,
        k < line.len() ==> macro_def_at(line, k) is Some,
    ensures
        find_macro_def(line, i) == k,
    decreases k - i,
{
    if i < k {
        lemma_find_macro_def_inv(line, i + 1, k);
    }
}

/// The candidate prefix a line contributes: the prefix of its first
/// version-macro definition, if any.
pub open spec fn line_candidate(line: Seq<u8>) -> Option<Seq<u8>> {
    let h = find_macro_def(line, 0);
    if h == line.len() {
        None
    } else {
        let (ps, pe) = macro_def_at(line, h)->Some_0;
        Some(line.subrange(ps, pe))
    }
}

fn exec_line_candidate(line: &[u8]) -> (r: Option<Vec<u8>>)
    ensures
        match r {
            Some(p) => line_candidate(line@) == Some(p@),
            None => line_candidate(line@) is None,
        },
{
    let mut h: usize = 0;
    loop
        invariant
            0 <= h <= line@.len(),
            forall|j: int| 0 <= j < h ==> macro_def_at(line@, j) is None,
        decreases line.len() - h,
    {
        if h >= line.len() {
            proof {
                lemma_find_macro_def_inv(line@, 0, h as int);
            }
            return None;
        }
        match exec_macro_def_at(line, h) {
            Some((ps, pe)) => {
                proof {
                    lemma_find_macro_def_inv(line@, 0, h as int);
                }
                return Some(subvec(line, ps, pe));
            },
            None => {
                h += 1;
            },
        }
    }
}

/// A usable prefix: at least two bytes, upper-case letters and underscores
/// only, and not one of the generic platform or build tokens.
pub open spec fn spec_valid_prefix(p: Seq<u8>) -> bool {
    &&& p.len() >= 2
    &&& (forall|j: int| 0 <= j < p.len() ==> is_upper(p[j]) || p[j] == UNDERSCORE)
    &&& p != dunder_tok()
    &&& p != win32_tok()
    &&& p != linux_tok()
    &&& p != macos_tok()
    &&& p != debug_tok()
    &&& p != release_tok()
}

/// The candidate prefixes of the whole content, line by line, invalid ones
/// dropped; a prefix defined on several lines appears several times.
pub open spec fn candidates_from(s: Seq<u8>, i: int) -> Seq<Seq<u8>>
    decreases s.len() + 1 - i,
    via candidates_from_decreases
{
    if i < 0 || i > s.len() {
        Seq::empty()
    } else {
        let e = find_byte(s, i, NL);
        let line = s.subrange(i, e);
        let rest = candidates_from(s, e + 1);
        match line_candidate(line) {
            Some(p) => if spec_valid_prefix(p) {
                seq![p] + rest
            } else {
                rest
            },
            None => rest,
        }
    }
}

#[via_fn]
proof fn candidates_from_decreases(s: Seq<u8>, i: int) {
    if 0 <= i <= s.len() {
        lemma_find_byte(s, i, NL);
    }
}

/// A prefix's score: non-overlapping occurrences of the prefix anywhere in
/// the content, counted left to right, plus ten when the token
/// `<prefix>_VERSION` occurs.
pub open spec fn prefix_score(s: Seq<u8>, p: Seq<u8>) -> nat {
    count_matches(s, 0, p) + (if contains_sub(s, p + version_suffix_tok()) {
        10nat
    } else {
        0nat
    })
}

/// `p` beats `q`: a higher score, or an equal score and lexicographically
/// smaller text.  The tie-break makes the selection deterministic.
pub open spec fn prefix_better(s: Seq<u8>, p: Seq<u8>, q: Seq<u8>) -> bool {
    ||| prefix_score(s, p) > prefix_score(s, q)
    ||| (prefix_score(s, p) == prefix_score(s, q) && lex_lt(p, q))
}

/// The best candidate of a non-empty list: the leftmost one that no later
/// candidate beats.
pub open spec fn best_of(s: Seq<u8>, cs: Seq<Seq<u8>>) -> Seq<u8>
    decreases cs.len(),
{
    if cs.len() <= 1 {
        if cs.len() == 1 {
            cs[0]
        } else {
            Seq::empty()
        }
    } else {
        let b = best_of(s, cs.drop_first());
        if prefix_better(s, b, cs[0]) {
            b
        } else {
            cs[0]
        }
    }
}

/// The inferred prefix of the content: none when no line defines a valid
/// candidate, else the best-scoring candidate.
pub open spec fn spec_detect(s: Seq<u8>) -> Option<Seq<u8>> {
    let cs = candidates_from(s, 0);
    if cs.len() == 0 {
        None
    } else {
        Some(best_of(s, cs))
    }
}

/// The deep view of a vector of byte vectors is the sequence of the
/// elements' views.
pub proof fn lemma_vec_deep_view(c: &Vec<Vec<u8>>)
    ensures
        c.deep_view().len() == c@.len(),
        forall|i: int| 0 <= i < c@.len() ==> c.deep_view()[i] == c@[i]@,
{
    assert forall|i: int| 0 <= i < c@.len() implies c.deep_view()[i] == c@[i]@ by {
        assert(c.deep_view()[i] == c@[i].deep_view());
        assert(c@[i].deep_view() =~= c@[i]@);
    }
}

fn exec_prefix_score(s: &[u8], p: &[u8]) -> (r: usize)
    requires
        s@.len() + 10 < usize::MAX,
    ensures
        r == prefix_score(s@, p@),
{
    let c = exec_count_matches(s, p);
    proof {
        crate::text::lemma_count_matches_bound(s@, 0, p@);
    }
    let mut tok: Vec<u8> = Vec::new();
    tok.extend_from_slice(p);
    let suffix = lit_version_suffix_tok();
    tok.extend_from_slice(suffix.as_slice());
    proof {
        assert(tok@ =~= p@ + version_suffix_tok());
    }
    if exec_contains_sub(s, tok.as_slice()) {
        c + 10
    } else {
        c
    }
}

/// A definition of exactly the macro `name` starting at `h`: `#` spaces
/// `define`, whitespace, the name, whitespace, digits.  If it is one, the
/// span of the digits.
pub open spec fn def_at(line: Seq<u8>, h: int, name: Seq<u8>) -> Option<(int, int)> {
    if h < 0 || h >= line.len() || line[h] != HASH {
        None
    } else {
        let j = skip_spaces(line, h + 1);
        if !match_at(line, j, define_kw()) {
            None
        } else {
            let k = skip_spaces(line, j + 6);
            if k == j + 6 || !match_at(line, k, name) {
                None
            } else {
                let w = skip_spaces(line, k + name.len());
                if w == k + name.len() || w >= line.len() || !is_digit(line[w]) {
                    None
                } else {
                    Some((w, skip_digits(line, w)))
                }
            }
        }
    }
}

fn exec_def_at(line: &[u8], h: usize, name: &[u8]) -> (r: Option<(usize, usize)>)
    requires
        h <= line@.len(),
    ensures
        match r {
            Some((a, b)) => def_at(line@, h as int, name@) == Some((a as int, b as int)) && a <= b
                <= line@.len(),
            None => def_at(line@, h as int, name@) is None,
        },
{
    if h >= line.len() || line[h] != HASH {
        return None;
    }
    let j = exec_skip_spaces(line, h + 1);
    let dkw = lit_define_kw();
    if !exec_match_at(line, j, dkw.as_slice()) {
        return None;
    }
    let k = exec_skip_spaces(line, j + 6);
    if k == j + 6 || !exec_match_at(line, k, name) {
        return None;
    }
    let w = exec_skip_spaces(line, k + name.len());
    if w == k + name.len() || w >= line.len() || !byte_is_digit(line[w]) {
        return None;
    }
    Some((w, exec_skip_digits(line, w)))
}

/// First position in the line where a definition of `name` starts, or the
/// length when there is none.
pub open spec fn find_def(line: Seq<u8>, i: int, name: Seq<u8>) -> int
    decreases line.len() - i,
{
    if i < 0 || i >= line.len() {
        line.len() as int
    } else if def_at(line, i, name) is Some {
        i
    } else {
        find_def(line, i + 1, name)
    }
}

proof fn lemma_find_def_inv(line: Seq<u8>, i: int, name: Seq<u8>, k: int)
    requires
        0 <= i <= k <= line.len(),
        forall|j: int| i <= j < k ==> def_at(line, j, name) is None,
        k < line.len() ==> def_at(line, k, name) is Some,
    ensures
        find_def(line, i, name) == k,
    decreases k - i,
{
    if i < k {
        lemma_find_def_inv(line, i + 1, name, k);
    }
}

/// The digit span of the first definition of `name` in the line.
pub open spec fn line_def_span(line: Seq<u8>, name: Seq<u8>) -> Option<(int, int)> {
    let h = find_def(line, 0, name);
    if h == line.len() {
        None
    } else {
        Some(def_at(line, h, name)->Some_0)
    }
}

fn exec_line_def_span(line: &[u8], name: &[u8]) -> (r: Option<(usize, usize)>)
    ensures
        match r {
            Some((a, b)) => line_def_span(line@, name@) == Some((a as int, b as int)) && a <= b
                <= line@.len(),
            None => line_def_span(line@, name@) is None,
        },
{
    let mut h: usize = 0;
    loop
        invariant
            0 <= h <= line@.len(),
            forall|j: int| 0 <= j < h ==> def_at(line@, j, name@) is None,
        decreases line.len() - h,
    {
        if h >= line.len() {
            proof {
                lemma_find_def_inv(line@, 0, name@, h as int);
            }
            return None;
        }
        match exec_def_at(line, h, name) {
            Some((a, b)) => {
                proof {
                    lemma_find_def_inv(line@, 0, name@, h as int);
                }
                return Some((a, b));
            },
            None => {
                h += 1;
            },
        }
    }
}

/// The numeric value carried by the first definition of `name` in the line:
/// the lenient parse of its digit span, when there is one and it fits.
pub open spec fn line_def_value(line: Seq<u8>, name: Seq<u8>) -> Option<u64> {
    match line_def_span(line, name) {
        Some((a, b)) => spec_parse_dec_lenient(line.subrange(a, b)),
        None => None,
    }
}

fn exec_line_def_value(line: &[u8], name: &[u8]) -> (r: Option<u64>)
    ensures
        r == line_def_value(line@, name@),
{
    match exec_line_def_span(line, name) {
        Some((a, b)) => parse_dec(&line[a..b], false),
        None => None,
    }
}

/// The first value of `name` found scanning lines from `i` on: each line is
/// consulted for its first definition of the name; a line whose digits
/// overflow is passed over, like a line without the name.
pub open spec fn extract_part_from(s: Seq<u8>, i: int, name: Seq<u8>) -> Option<u64>
    decreases s.len() + 1 - i,
    via extract_part_from_decreases
{
    if i < 0 || i > s.len() {
        None
    } else {
        let e = find_byte(s, i, NL);
        let line = s.subrange(i, e);
        match line_def_value(line, name) {
            Some(v) => Some(v),
            None => extract_part_from(s, e + 1, name),
        }
    }
}

#[via_fn]
proof fn extract_part_from_decreases(s: Seq<u8>, i: int, name: Seq<u8>) {
    if 0 <= i <= s.len() {
        lemma_find_byte(s, i, NL);
    }
}

/// What extraction yields for a given prefix: the first value found for
/// each of the three macros, all three required.
pub open spec fn spec_extract(s: Seq<u8>, prefix: Seq<u8>) -> Option<SemVersion> {
    match (
        extract_part_from(s, 0, macro_name(prefix, VersionPart::Major)),
        extract_part_from(s, 0, macro_name(prefix, VersionPart::Minor)),
        extract_part_from(s, 0, macro_name(prefix, VersionPart::Patch)),
    ) {
        (Some(ma), Some(mi), Some(pa)) => Some(SemVersion { major: ma, minor: mi, patch: pa }),
        _ => None,
    }
}

/// The line with the digits of the first definition of `name` replaced by
/// the decimal rendering of `n`; a line without the name is unchanged.
pub open spec fn patch_part_line(line: Seq<u8>, name: Seq<u8>, n: u64) -> Seq<u8> {
    match line_def_span(line, name) {
        Some((a, b)) => line.subrange(0, a) + spec_dec(n as nat) + line.subrange(
            b,
            line.len() as int,
        ),
        None => line,
    }
}

/// All three macros of the prefix patched in one line, independently and in
/// a fixed order.
pub open spec fn patch_line_all(line: Seq<u8>, prefix: Seq<u8>, v: SemVersion) -> Seq<u8> {
    patch_part_line(
        patch_part_line(
            patch_part_line(line, macro_name(prefix, VersionPart::Major), v.major),
            macro_name(prefix, VersionPart::Minor),
            v.minor,
        ),
        macro_name(prefix, VersionPart::Patch),
        v.patch,
    )
}

/// The whole content patched line by line; the line structure, including
/// the presence or absence of a final newline, is kept exactly.
pub open spec fn patch_content_from(s: Seq<u8>, i: int, prefix: Seq<u8>, v: SemVersion) -> Seq<u8>
    decreases s.len() + 1 - i,
    via patch_content_from_decreases
{
    if i < 0 || i > s.len() {
        Seq::empty()
    } else {
        let e = find_byte(s, i, NL);
        let line = s.subrange(i, e);
        patch_line_all(line, prefix, v) + (if e < s.len() {
            seq![NL] + patch_content_from(s, e + 1, prefix, v)
        } else {
            Seq::empty()
        })
    }
}

#[via_fn]
proof fn patch_content_from_decreases(s: Seq<u8>, i: int, prefix: Seq<u8>, v: SemVersion) {
    if 0 <= i <= s.len() {
        lemma_find_byte(s, i, NL);
    }
}

/// A header-macro source bound to a resolved path; an explicitly supplied
/// macro prefix overrides inference.
pub struct ExportHeaderFile {
    pub path: String,
    pub macro_prefix: Option<Vec<u8>>,
}

impl ExportHeaderFile {
    pub fn new(path: String) -> (r: Self)
        ensures
            r.path@ == path@,
            r.macro_prefix is None,
    {
        ExportHeaderFile { path, macro_prefix: None }
    }

    /// Whether a candidate macro prefix is usable.
    pub fn is_valid_macro_prefix(&self, prefix: &[u8]) -> (r: bool)
        ensures
            r == spec_valid_prefix(prefix@),
    {
        if prefix.len() < 2 {
            return false;
        }
        let mut j: usize = 0;
        while j < prefix.len()
            invariant
                0 <= j <= prefix@.len(),
                forall|i: int| 0 <= i < j ==> is_upper(prefix@[i]) || prefix@[i] == UNDERSCORE,
            decreases prefix.len() - j,
        {
            let b = prefix[j];
            if !(65 <= b && b <= 90) && b != UNDERSCORE {
                return false;
            }
            j += 1;
        }
        let t1 = lit_dunder_tok();
        let t2 = lit_win32_tok();
        let t3 = lit_linux_tok();
        let t4 = lit_macos_tok();
        let t5 = lit_debug_tok();
        let t6 = lit_release_tok();
        !(bytes_eq(prefix, t1.as_slice()) || bytes_eq(prefix, t2.as_slice()) || bytes_eq(
            prefix,
            t3.as_slice(),
        ) || bytes_eq(prefix, t4.as_slice()) || bytes_eq(prefix, t5.as_slice()) || bytes_eq(
            prefix,
            t6.as_slice(),
        ))
    }

    /// Pick the best prefix among candidates: empty input is an error, else
    /// the highest-scoring candidate, ties broken toward the
    /// lexicographically smallest.
    pub fn select_best_prefix(&self, candidates: &Vec<Vec<u8>>, content: &[u8]) -> (r: Result<
        Vec<u8>,
        VersionError,
    >)
        requires
            content@.len() + 10 < usize::MAX,
        ensures
            candidates@.len() == 0 ==> r == Err::<Vec<u8>, VersionError>(VersionError::ParseError),
            candidates@.len() > 0 ==> (r matches Ok(p) && p@ == best_of(
                content@,
                candidates.deep_view(),
            )),
    {
        if candidates.len() == 0 {
            return Err(VersionError::ParseError);
        }
        let ghost cs = candidates.deep_view();
        proof {
            lemma_vec_deep_view(candidates);
        }
        let mut idx: usize = candidates.len() - 1;
        let mut best: Vec<u8> = subvec(candidates[candidates.len() - 1].as_slice(), 0, candidates[
            candidates.len() - 1].len());
        let mut best_score: usize = exec_prefix_score(content, best.as_slice());
        proof {
            assert(cs[idx as int] == candidates@[idx as int]@);
            assert(best@ =~= candidates@[idx as int]@);
            assert(cs.subrange(idx as int, cs.len() as int).len() == 1);
            assert(cs.subrange(idx as int, cs.len() as int)[0] == cs[idx as int]);
            assert(best@ == best_of(content@, cs.subrange(idx as int, cs.len() as int)));
        }
        while idx > 0
            invariant
                0 <= idx < cs.len(),
                cs.len() == candidates@.len(),
                forall|i: int| 0 <= i < cs.len() ==> cs[i] == candidates@[i]@,
                content@.len() + 10 < usize::MAX,
                best@ == best_of(content@, cs.subrange(idx as int, cs.len() as int)),
                best_score == prefix_score(content@, best@),
            decreases idx,
        {
            idx = idx - 1;
            let cand = candidates[idx].as_slice();
            let cand_score = exec_prefix_score(content, cand);
            let ghost tail = cs.subrange(idx as int, cs.len() as int);
            proof {
                assert(tail.drop_first() =~= cs.subrange(idx + 1, cs.len() as int));
                assert(tail[0] == cs[idx as int]);
                assert(cand@ == cs[idx as int]);
            }
            let take_old = if best_score > cand_score {
                true
            } else if best_score == cand_score {
                exec_lex_lt(best.as_slice(), cand)
            } else {
                false
            };
            proof {
                assert(take_old == prefix_better(content@, best@, tail[0]));
            }
            if !take_old {
                best = subvec(cand, 0, cand.len());
                best_score = cand_score;
                proof {
                    assert(best@ =~= tail[0]);
                }
            }
            proof {
                assert(best@ == best_of(content@, tail));
            }
        }
        proof {
            assert(cs.subrange(0, cs.len() as int) =~= cs);
        }
        Ok(best)
    }

    /// Infer the macro prefix of header content, or hand back the override.
    pub fn detect_macro_prefix(&self, content: &[u8]) -> (r: Result<Vec<u8>, VersionError>)
        requires
            content@.len() + 10 < usize::MAX,
        ensures
            match self.macro_prefix {
                Some(p) => r matches Ok(q) && q@ == p@,
                None => match spec_detect(content@) {
                    Some(p) => r matches Ok(q) && q@ == p,
                    None => r == Err::<Vec<u8>, VersionError>(VersionError::ParseError),
                },
            },
    {
        match &self.macro_prefix {
            Some(p) => {
                return Ok(subvec(p.as_slice(), 0, p.len()));
            },
            None => {},
        }
        let mut cands: Vec<Vec<u8>> = Vec::new();
        let ghost mut got: Seq<Seq<u8>> = Seq::empty();
        let mut i: usize = 0;
        proof {
            assert(Seq::<Seq<u8>>::empty() + candidates_from(content@, 0) =~= candidates_from(
                content@,
                0,
            ));
        }
        while i <= content.len()
            invariant
                0 <= i <= content@.len() + 1,
                content@.len() + 10 < usize::MAX,
                got.len() == cands@.len(),
                forall|k: int| 0 <= k < got.len() ==> got[k] == cands@[k]@,
                candidates_from(content@, 0) =~= got + candidates_from(content@, i as int),
            decreases content@.len() + 1 - i,
        {
            let e = exec_find_byte(content, i, NL);
            let line = subvec(content, i, e);
            match exec_line_candidate(line.as_slice()) {
                Some(p) => {
                    if self.is_valid_macro_prefix(p.as_slice()) {
                        let ghost pv = p@;
                        cands.push(p);
                        proof {
                            got = got + seq![pv];
                            assert((got.drop_last() + seq![pv]) + candidates_from(content@, e + 1)
                                =~= got.drop_last() + (seq![pv] + candidates_from(content@, e + 1)));
                            assert(got.drop_last() + seq![pv] =~= got);
                        }
                    }
                },
                None => {},
            }
            i = e + 1;
        }
        proof {
            assert(candidates_from(content@, i as int) =~= Seq::<Seq<u8>>::empty());
            assert(got + Seq::<Seq<u8>>::empty() =~= got);
            assert(got =~= candidates_from(content@, 0));
            lemma_vec_deep_view(&cands);
            assert(cands.deep_view() =~= got);
        }
        if cands.len() == 0 {
            proof {
                assert(candidates_from(content@, 0).len() == 0);
            }
            Err(VersionError::ParseError)
        } else {
            let r = self.select_best_prefix(&cands, content);
            r
        }
    }

    /// The value of one version macro on one line, if the line defines it.
    pub fn extract_define_value(&self, line: &[u8], prefix: &[u8], part: VersionPart) -> (r: Option<
        u64,
    >)
        ensures
            r == line_def_value(line@, macro_name(prefix@, part)),
    {
        let name = build_macro_name(prefix, part);
        exec_line_def_value(line, name.as_slice())
    }

    /// Extract the version for a chosen prefix: the first value seen for
    /// each of MAJOR, MINOR and PATCH, scanning the lines once and stopping
    /// early once all three are found; any component still missing is an
    /// error.
    pub fn extract_version_from_content(&self, content: &[u8], prefix: &[u8]) -> (r: Result<
        SemVersion,
        VersionError,
    >)
        requires
            content@.len() < usize::MAX,
        ensures
            match spec_extract(content@, prefix@) {
                Some(v) => r == Ok::<SemVersion, VersionError>(v),
                None => r == Err::<SemVersion, VersionError>(VersionError::ParseError),
            },
    {
        let name_ma = build_macro_name(prefix, VersionPart::Major);
        let name_mi = build_macro_name(prefix, VersionPart::Minor);
        let name_pa = build_macro_name(prefix, VersionPart::Patch);
        let mut got_ma: Option<u64> = None;
        let mut got_mi: Option<u64> = None;
        let mut got_pa: Option<u64> = None;
        let mut i: usize = 0;
        while i <= content.len()
            invariant
                0 <= i <= content@.len() + 1,
                content@.len() < usize::MAX,
                name_ma@ == macro_name(prefix@, VersionPart::Major),
                name_mi@ == macro_name(prefix@, VersionPart::Minor),
                name_pa@ == macro_name(prefix@, VersionPart::Patch),
                match got_ma {
                    Some(x) => extract_part_from(content@, 0, name_ma@) == Some(x),
                    None => extract_part_from(content@, 0, name_ma@) == extract_part_from(
                        content@,
                        i as int,
                        name_ma@,
                    ),
                },
                match got_mi {
                    Some(x) => extract_part_from(content@, 0, name_mi@) == Some(x),
                    None => extract_part_from(content@, 0, name_mi@) == extract_part_from(
                        content@,
                        i as int,
                        name_mi@,
                    ),
                },
                match got_pa {
                    Some(x) => extract_part_from(content@, 0, name_pa@) == Some(x),
                    None => extract_part_from(content@, 0, name_pa@) == extract_part_from(
                        content@,
                        i as int,
                        name_pa@,
                    ),
                },
            decreases content@.len() + 1 - i,
        {
            let e = exec_find_byte(content, i, NL);
            let line = subvec(content, i, e);
            if got_ma.is_none() {
                got_ma = exec_line_def_value(line.as_slice(), name_ma.as_slice());
            }
            if got_mi.is_none() {
                got_mi = exec_line_def_value(line.as_slice(), name_mi.as_slice());
            }
            if got_pa.is_none() {
                got_pa = exec_line_def_value(line.as_slice(), name_pa.as_slice());
            }
            match (got_ma, got_mi, got_pa) {
                (Some(ma), Some(mi), Some(pa)) => {
                    return Ok(SemVersion { major: ma, minor: mi, patch: pa });
                },
                _ => {},
            }
            i = e + 1;
        }
        match (got_ma, got_mi, got_pa) {
            (Some(ma), Some(mi), Some(pa)) => Ok(SemVersion { major: ma, minor: mi, patch: pa }),
            _ => {
                proof {
                    if got_ma is None {
                        assert(extract_part_from(content@, i as int, name_ma@) is None);
                    }
                    if got_mi is None {
                        assert(extract_part_from(content@, i as int, name_mi@) is None);
                    }
                    if got_pa is None {
                        assert(extract_part_from(content@, i as int, name_pa@) is None);
                    }
                }
                Err(VersionError::ParseError)
            },
        }
    }

    /// Patch the three macros of the prefix in a single line, each one an
    /// independent in-place replacement of its digits.
    pub fn patch_version_in_line(&self, line: &[u8], v: &SemVersion, prefix: &[u8]) -> (r: Vec<u8>)
        ensures
            r@ == patch_line_all(line@, prefix@, *v),
    {
        let name_ma = build_macro_name(prefix, VersionPart::Major);
        let name_mi = build_macro_name(prefix, VersionPart::Minor);
        let name_pa = build_macro_name(prefix, VersionPart::Patch);
        let step1 = exec_patch_part(line, name_ma.as_slice(), v.major);
        let step2 = exec_patch_part(step1.as_slice(), name_mi.as_slice(), v.minor);
        exec_patch_part(step2.as_slice(), name_pa.as_slice(), v.patch)
    }

    /// Patch the whole content line by line.  A macro that no line defines
    /// is silently left unpatched: the run is best effort per macro.
    pub fn patch_version_in_content(&self, content: &[u8], v: &SemVersion, prefix: &[u8]) -> (r:
        Vec<u8>)
        requires
            content@.len() < usize::MAX,
        ensures
            r@ == patch_content_from(content@, 0, prefix@, *v),
    {
        let mut out: Vec<u8> = Vec::new();
        let mut i: usize = 0;
        proof {
            assert(Seq::<u8>::empty() + patch_content_from(content@, 0, prefix@, *v)
                =~= patch_content_from(content@, 0, prefix@, *v));
        }
        while i <= content.len()
            invariant
                0 <= i <= content@.len() + 1,
                content@.len() < usize::MAX,
                patch_content_from(content@, 0, prefix@, *v) =~= out@ + patch_content_from(
                    content@,
                    i as int,
                    prefix@,
                    *v,
                ),
            decreases content@.len() + 1 - i,
        {
            let e = exec_find_byte(content, i, NL);
            let line = subvec(content, i, e);
            let patched = self.patch_version_in_line(line.as_slice(), v, prefix);
            let ghost out_before = out@;
            out.extend_from_slice(patched.as_slice());
            if e < content.len() {
                out.push(NL);
                proof {
                    assert(out@ =~= out_before + (patch_line_all(line@, prefix@, *v) + seq![NL]));
                    assert(out_before + (patch_line_all(line@, prefix@, *v) + seq![NL])
                        + patch_content_from(content@, e + 1, prefix@, *v) =~= out_before + (
                    patch_line_all(line@, prefix@, *v) + (seq![NL] + patch_content_from(
                        content@,
                        e + 1,
                        prefix@,
                        *v,
                    ))));
                }
            } else {
                proof {
                    assert(patch_content_from(content@, i as int, prefix@, *v) =~= patch_line_all(
                        line@,
                        prefix@,
                        *v,
                    ));
                    assert(patch_content_from(content@, e + 1, prefix@, *v) =~= Seq::<u8>::empty());
                    assert(out@ + Seq::<u8>::empty() =~= out@);
                }
            }
            i = e + 1;
        }
        out
    }

    /// Read: infer or take the prefix, then extract the three components.
    pub fn read(&self, content: &[u8]) -> (r: Result<SemVersion, VersionError>)
        requires
            content@.len() + 10 < usize::MAX,
        ensures
            match self.spec_read(content@) {
                Some(v) => r == Ok::<SemVersion, VersionError>(v),
                None => r == Err::<SemVersion, VersionError>(VersionError::ParseError),
            },
    {
        let prefix = match self.detect_macro_prefix(content) {
            Ok(p) => p,
            Err(e) => {
                return Err(VersionError::ParseError);
            },
        };
        self.extract_version_from_content(content, prefix.as_slice())
    }

    /// Write: infer or take the prefix, then patch every line.  Failure to
    /// find any version macro is the one error; patching itself is best
    /// effort per macro.
    pub fn write(&self, content: &[u8], v: &SemVersion) -> (r: Result<Vec<u8>, VersionError>)
        requires
            content@.len() + 10 < usize::MAX,
        ensures
            match self.spec_write(content@, *v) {
                Some(w) => r matches Ok(o) && o@ == w,
                None => r == Err::<Vec<u8>, VersionError>(VersionError::ParseError),
            },
    {
        let prefix = match self.detect_macro_prefix(content) {
            Ok(p) => p,
            Err(e) => {
                return Err(VersionError::ParseError);
            },
        };
        Ok(self.patch_version_in_content(content, v, prefix.as_slice()))
    }

    /// The prefix a read or write will use on this content.
    pub open spec fn spec_prefix(self, s: Seq<u8>) -> Option<Seq<u8>> {
        match self.macro_prefix {
            Some(p) => Some(p@),
            None => spec_detect(s),
        }
    }

    /// What `read` yields on this content.
    pub open spec fn spec_read(self, s: Seq<u8>) -> Option<SemVersion> {
        match self.spec_prefix(s) {
            Some(p) => spec_extract(s, p),
            None => None,
        }
    }

    /// What `write` produces on this content, when a prefix can be found.
    pub open spec fn spec_write(self, s: Seq<u8>, v: SemVersion) -> Option<Seq<u8>> {
        match self.spec_prefix(s) {
            Some(p) => Some(patch_content_from(s, 0, p, v)),
            None => None,
        }
    }
}

/// A non-empty run of decimal digits.
pub open spec fn digit_run(r: Seq<u8>) -> bool {
    r.len() > 0 && (forall|x: int| 0 <= x < r.len() ==> is_digit(#[trigger] r[x]))
}

/// A macro name made of upper-case letters and underscores, as every name
/// built from a usable prefix is.
pub open spec fn upper_name(name: Seq<u8>) -> bool {
    name.len() > 0 && (forall|x: int|
        0 <= x < name.len() ==> is_upper(#[trigger] name[x]) || name[x] == UNDERSCORE)
}

/// The name of any macro of a usable prefix is upper-case letters and
/// underscores only.
pub proof fn lemma_macro_name_upper(prefix: Seq<u8>, part: VersionPart)
    requires
        spec_valid_prefix(prefix),
    ensures
        upper_name(macro_name(prefix, part)),
{
    let n = macro_name(prefix, part);
    assert forall|x: int| 0 <= x < n.len() implies is_upper(n[x]) || n[x] == UNDERSCORE by {
        if x < prefix.len() {
            assert(n[x] == prefix[x]);
        } else if x < prefix.len() + 9 {
            assert(n[x] == version_infix()[x - prefix.len()]);
        } else {
            assert(n[x] == part_kw(part)[x - prefix.len() - 9]);
        }
    }
}

/// A definition found in one suffix is found, shifted, in an agreeing one.
proof fn lemma_def_at_shift(s1: Seq<u8>, d: int, s2: Seq<u8>, d2: int, h: int, name: Seq<u8>)
    requires
        suffix_agree(s1, d, s2, d2),
        d <= h,
    ensures
        match def_at(s1, h, name) {
            Some((a, b)) => def_at(s2, h + (d2 - d), name) == Some((a + (d2 - d), b + (d2 - d))),
            None => def_at(s2, h + (d2 - d), name) is None,
        },
{
    let dd = d2 - d;
    if h < s1.len() {
        assert(s2[d2 + (h - d)] == s1[d + (h - d)]);
        assert(s2[h + dd] == s1[h]);
        if s1[h] == HASH {
            lemma_skip_spaces_suffix(s1, d, s2, d2, h + 1);
            let j = skip_spaces(s1, h + 1);
            lemma_skip_spaces(s1, h + 1);
            lemma_match_at_suffix(s1, d, s2, d2, j, define_kw());
            if match_at(s1, j, define_kw()) {
                lemma_skip_spaces_suffix(s1, d, s2, d2, j + 6);
                let k = skip_spaces(s1, j + 6);
                lemma_skip_spaces(s1, j + 6);
                lemma_match_at_suffix(s1, d, s2, d2, k, name);
                if k != j + 6 && k < s1.len() && match_at(s1, k, name) {
                    lemma_skip_spaces_suffix(s1, d, s2, d2, k + name.len());
                    let w = skip_spaces(s1, k + name.len());
                    lemma_skip_spaces(s1, k + name.len());
                    if w < s1.len() {
                        assert(s2[d2 + (w - d)] == s1[d + (w - d)]);
                        assert(s2[w + dd] == s1[w]);
                    }
                    if w != k + name.len() && w < s1.len() && is_digit(s1[w]) {
                        lemma_skip_digits_suffix(s1, d, s2, d2, w);
                    }
                }
            }
        }
    }
}

/// Splicing new digits over a digit span cannot create a definition of a
/// macro name where the line had none: every byte class the definition
/// grammar tests is unchanged.
proof fn lemma_def_at_none_splice(line: Seq<u8>, a: int, b: int, r: Seq<u8>, name: Seq<u8>)
    requires
        0 <= a < b <= line.len(),
        forall|x: int| a <= x < b ==> is_digit(#[trigger] line[x]),
        digit_run(r),
        upper_name(name),
        forall|h: int| def_at(line, h, name) is None,
    ensures
        forall|h: int|
            def_at(line.subrange(0, a) + r + line.subrange(b, line.len() as int), h, name)
                is None,
{
    let l2 = line.subrange(0, a) + r + line.subrange(b, line.len() as int);
    let delta = r.len() - (b - a);
    assert(l2.len() == line.len() + delta);
    assert(forall|x: int| 0 <= x < a ==> l2[x] == line[x]);
    assert(forall|x: int| 0 <= x < r.len() ==> l2[a + x] == r[x]);
    assert(forall|x: int| b <= x < line.len() ==> l2[x + delta] == line[x]);
    assert(suffix_agree(line, b, l2, a + r.len() as int)) by {
        assert forall|x: int| 0 <= x < line.len() - b implies #[trigger] l2[a + r.len() + x]
            == line[b + x] by {
            assert(l2[(b + x) + delta] == line[b + x]);
        }
    }
    assert forall|h: int| def_at(l2, h, name) is None by {
        if 0 <= h < l2.len() {
            if a <= h < a + r.len() {
                assert(l2[h] == r[h - a]);
                assert(is_digit(l2[h]));
                assert(l2[h] != HASH);
            } else if h >= a + r.len() {
                let hl = h - delta;
                assert(hl >= b);
                lemma_def_at_shift(line, b, l2, a + r.len() as int, hl, name);
                assert(def_at(line, hl, name) is None);
                assert(hl + (a + r.len() - b) == h);
            } else {
                // h < a: the evaluation stays left of the span or fails on
                // a byte-class mismatch inside it, exactly as it did before
                assert(l2[h] == line[h]);
                if line[h] == HASH {
                    lemma_def_at_none_splice_low(line, a, b, r, name, h);
                }
            }
        }
    }
}

/// The case of the previous lemma for a position left of the span.
proof fn lemma_def_at_none_splice_low(
    line: Seq<u8>,
    a: int,
    b: int,
    r: Seq<u8>,
    name: Seq<u8>,
    h: int,
)
    requires
        0 <= a < b <= line.len(),
        forall|x: int| a <= x < b ==> is_digit(#[trigger] line[x]),
        digit_run(r),
        upper_name(name),
        def_at(line, h, name) is None,
        0 <= h < a,
        line[h] == HASH,
    ensures
        def_at(line.subrange(0, a) + r + line.subrange(b, line.len() as int), h, name) is None,
{
    let l2 = line.subrange(0, a) + r + line.subrange(b, line.len() as int);
    assert(forall|x: int| 0 <= x < a ==> l2[x] == line[x]);
    assert(forall|x: int| 0 <= x < r.len() ==> l2[a + x] == r[x]);
    assert(l2[h] == HASH);
    assert(is_digit(line[a]));
    let j = skip_spaces(line, h + 1);
    lemma_skip_spaces(line, h + 1);
    assert(j <= a) by {
        if j > a {
            assert(is_space(line[a]));
        }
    }
    assert(skip_spaces(l2, h + 1) == j) by {
        if j < a {
            lemma_skip_spaces_inv(l2, h + 1, j);
        } else {
            assert(l2[a] == r[0]);
            assert(!is_space(l2[a]));
            lemma_skip_spaces_inv(l2, h + 1, j);
        }
    }
    let md = match_at(line, j, define_kw());
    let md2 = match_at(l2, j, define_kw());
    assert(forall|t: int| 0 <= t < 6 ==> define_kw()[t] >= 100);
    if md {
        assert(j + 6 <= a) by {
            if a < j + 6 {
                assert(line[j + (a - j)] == define_kw()[a - j]);
                assert(is_digit(line[a]));
            }
        }
        assert(md2) by {
            assert(forall|t: int| 0 <= t < 6 ==> #[trigger] l2[j + t] == line[j + t]);
        }
    } else {
        assert(!md2) by {
            if md2 {
                if j + 6 <= a {
                    assert(forall|t: int| 0 <= t < 6 ==> #[trigger] line[j + t] == l2[j + t]);
                    assert(match_at(line, j, define_kw()));
                } else {
                    assert(l2[j + (a - j)] == define_kw()[a - j]);
                    assert(is_digit(l2[a]));
                }
            }
        }
    }
    if md {
        let k = skip_spaces(line, j + 6);
        lemma_skip_spaces(line, j + 6);
        assert(k <= a) by {
            if k > a {
                assert(is_space(line[a]));
            }
        }
        assert(skip_spaces(l2, j + 6) == k) by {
            if k < a {
                lemma_skip_spaces_inv(l2, j + 6, k);
            } else {
                assert(!is_space(l2[a]));
                lemma_skip_spaces_inv(l2, j + 6, k);
            }
        }
        let mn = match_at(line, k, name);
        let mn2 = match_at(l2, k, name);
        if mn {
            assert(k + name.len() <= a) by {
                if a < k + name.len() {
                    assert(line[k + (a - k)] == name[a - k]);
                    assert(is_upper(name[a - k]) || name[a - k] == UNDERSCORE);
                    assert(is_digit(line[a]));
                }
            }
            assert(mn2) by {
                assert(forall|t: int| 0 <= t < name.len() ==> #[trigger] l2[k + t] == line[k + t]);
            }
        } else {
            assert(!mn2) by {
                if mn2 {
                    if k + name.len() <= a {
                        assert(forall|t: int| 0 <= t < name.len() ==> #[trigger] line[k + t] == l2[k + t]);
                        assert(match_at(line, k, name));
                    } else {
                        assert(l2[k + (a - k)] == name[a - k]);
                        assert(is_upper(name[a - k]) || name[a - k] == UNDERSCORE);
                        assert(is_digit(l2[a]));
                    }
                }
            }
        }
        if k != j + 6 && mn {
            let w = skip_spaces(line, k + name.len());
            lemma_skip_spaces(line, k + name.len());
            assert(w <= a) by {
                if w > a {
                    assert(is_space(line[a]));
                }
            }
            assert(skip_spaces(l2, k + name.len()) == w) by {
                if w < a {
                    lemma_skip_spaces_inv(l2, k + name.len(), w);
                } else {
                    assert(!is_space(l2[a]));
                    lemma_skip_spaces_inv(l2, k + name.len(), w);
                }
            }
            if w == k + name.len() {
                // no whitespace before the digits: no definition either way
            } else if w == a {
                assert(is_digit(line[w]));
                assert(def_at(line, h, name) is Some);
                assert(false);
            } else {
                assert(w < a);
                assert(l2[w] == line[w]);
                if is_digit(line[w]) {
                    assert(def_at(line, h, name) is Some);
                    assert(false);
                }
            }
        }
    }
}

/// Structural facts about a recognized definition: the digit span sits
/// strictly after the definition's head and is a maximal digit run.
proof fn lemma_def_at_props(line: Seq<u8>, h: int, a: int, b: int, name: Seq<u8>)
    requires
        def_at(line, h, name) == Some((a, b)),
    ensures
        0 <= h < a < b <= line.len(),
        forall|x: int| a <= x < b ==> is_digit(#[trigger] line[x]),
        b < line.len() ==> !is_digit(line[b]),
        line[h] == HASH,
{
    let j = skip_spaces(line, h + 1);
    lemma_skip_spaces(line, h + 1);
    let k = skip_spaces(line, j + 6);
    lemma_skip_spaces(line, j + 6);
    let w = skip_spaces(line, k + name.len());
    lemma_skip_spaces(line, k + name.len());
    lemma_skip_digits(line, w);
}

/// Splicing new digits over the digit span of a line's first definition of
/// `name` leaves a line whose first definition of `name` carries exactly
/// the new digits.
proof fn lemma_line_def_span_splice(line: Seq<u8>, a: int, b: int, r: Seq<u8>, name: Seq<u8>)
    requires
        line_def_span(line, name) == Some((a, b)),
        digit_run(r),
        upper_name(name),
    ensures
        line_def_span(line.subrange(0, a) + r + line.subrange(b, line.len() as int), name)
            == Some((a, a + r.len())),
{
    let l2 = line.subrange(0, a) + r + line.subrange(b, line.len() as int);
    let h = find_def(line, 0, name);
    lemma_find_def(line, 0, name);
    lemma_def_at_props(line, h, a, b, name);
    assert(forall|x: int| 0 <= x < a ==> l2[x] == line[x]);
    assert(forall|x: int| 0 <= x < r.len() ==> l2[a + x] == r[x]);
    let delta = r.len() - (b - a);
    assert(forall|x: int| b <= x < line.len() ==> l2[x + delta] == line[x]);
    // the definition at h carries the new digits
    lemma_def_at_some_splice(line, h, a, b, r, name);
    // no earlier position defines the name in the patched line either
    assert forall|hh: int| 0 <= hh < h implies def_at(l2, hh, name) is None by {
        assert(def_at(line, hh, name) is None);
        assert(l2[hh] == line[hh]);
        if line[hh] == HASH {
            lemma_def_at_none_splice_low(line, a, b, r, name, hh);
        }
    }
    lemma_find_def_inv(l2, 0, name, h);
}

/// Forward counterpart of `lemma_find_def_inv`.
proof fn lemma_find_def(line: Seq<u8>, i: int, name: Seq<u8>)
    requires
        0 <= i <= line.len(),
    ensures
        i <= find_def(line, i, name) <= line.len(),
        find_def(line, i, name) < line.len() ==> def_at(line, find_def(line, i, name), name)
            is Some,
        forall|j: int| i <= j < find_def(line, i, name) ==> def_at(line, j, name) is None,
    decreases line.len() - i,
{
    if i < line.len() && def_at(line, i, name) is None {
        lemma_find_def(line, i + 1, name);
    }
}

/// The first definition of a name, spliced at its digit span, still starts
/// at the same position and now carries the new digits.
proof fn lemma_def_at_some_splice(line: Seq<u8>, h: int, a: int, b: int, r: Seq<u8>, name: Seq<u8>)
    requires
        def_at(line, h, name) == Some((a, b)),
        digit_run(r),
    ensures
        def_at(line.subrange(0, a) + r + line.subrange(b, line.len() as int), h, name)
            == Some((a, a + r.len())),
{
    let l2 = line.subrange(0, a) + r + line.subrange(b, line.len() as int);
    lemma_def_at_props(line, h, a, b, name);
    assert(forall|x: int| 0 <= x < a ==> l2[x] == line[x]);
    assert(forall|x: int| 0 <= x < r.len() ==> l2[a + x] == r[x]);
    let delta = r.len() - (b - a);
    assert(forall|x: int| b <= x < line.len() ==> l2[x + delta] == line[x]);
    let j = skip_spaces(line, h + 1);
    lemma_skip_spaces(line, h + 1);
    let k = skip_spaces(line, j + 6);
    lemma_skip_spaces(line, j + 6);
    let w = skip_spaces(line, k + name.len());
    lemma_skip_spaces(line, k + name.len());
    assert(w == a);
    assert(k + name.len() < a);
    assert(l2[h] == HASH);
    lemma_skip_spaces_inv(l2, h + 1, j);
    assert(match_at(l2, j, define_kw())) by {
        assert(forall|t: int| 0 <= t < 6 ==> #[trigger] l2[j + t] == line[j + t]);
    }
    lemma_skip_spaces_inv(l2, j + 6, k);
    assert(match_at(l2, k, name)) by {
        assert(forall|t: int| 0 <= t < name.len() ==> #[trigger] l2[k + t] == line[k + t]);
    }
    assert(skip_spaces(l2, k + name.len()) == a) by {
        assert(!is_space(l2[a]));
        lemma_skip_spaces_inv(l2, k + name.len(), a);
    }
    assert(is_digit(l2[a]));
    assert(skip_digits(l2, a) == a + r.len()) by {
        assert(forall|x: int| a <= x < a + r.len() ==> is_digit(#[trigger] l2[x]));
        if b < line.len() {
            assert(l2[b + delta] == line[b]);
            assert(!is_digit(l2[a + r.len()]));
        }
        lemma_skip_digits_inv(l2, a, a + r.len());
    }
}

/// A line with no definition of `name` anywhere still has none after a
/// digit splice.
proof fn lemma_line_def_none_splice(line: Seq<u8>, a: int, b: int, r: Seq<u8>, name: Seq<u8>)
    requires
        0 <= a < b <= line.len(),
        forall|x: int| a <= x < b ==> is_digit(#[trigger] line[x]),
        digit_run(r),
        upper_name(name),
        line_def_span(line, name) is None,
    ensures
        line_def_span(line.subrange(0, a) + r + line.subrange(b, line.len() as int), name)
            is None,
{
    let l2 = line.subrange(0, a) + r + line.subrange(b, line.len() as int);
    lemma_find_def(line, 0, name);
    assert(find_def(line, 0, name) == line.len());
    assert forall|hh: int| def_at(line, hh, name) is None by {
        if 0 <= hh < line.len() {
            assert(def_at(line, hh, name) is None);
        }
    }
    lemma_def_at_none_splice(line, a, b, r, name);
    assert forall|j: int| 0 <= j < l2.len() implies def_at(l2, j, name) is None by {
        assert(def_at(l2, j, name) is None);
    }
    lemma_find_def_inv(l2, 0, name, l2.len() as int);
}

/// At most one of the three version macros of the prefix is defined on
/// this line.
pub open spec fn line_single_def(line: Seq<u8>, prefix: Seq<u8>) -> bool {
    let ma = line_def_span(line, macro_name(prefix, VersionPart::Major)) is Some;
    let mi = line_def_span(line, macro_name(prefix, VersionPart::Minor)) is Some;
    let pa = line_def_span(line, macro_name(prefix, VersionPart::Patch)) is Some;
    &&& !(ma && mi)
    &&& !(ma && pa)
    &&& !(mi && pa)
}

/// Every line from `i` on defines at most one of the three macros.
pub open spec fn single_defs(s: Seq<u8>, i: int, prefix: Seq<u8>) -> bool
    decreases s.len() + 1 - i,
    via single_defs_decreases
{
    if i < 0 || i > s.len() {
        true
    } else {
        let e = find_byte(s, i, NL);
        line_single_def(s.subrange(i, e), prefix) && single_defs(s, e + 1, prefix)
    }
}

#[via_fn]
proof fn single_defs_decreases(s: Seq<u8>, i: int, prefix: Seq<u8>) {
    if 0 <= i <= s.len() {
        lemma_find_byte(s, i, NL);
    }
}

/// The rendered digits of any value parse back to it leniently.
proof fn lemma_lenient_parse_of_dec(n: u64)
    ensures
        digit_run(spec_dec(n as nat)),
        spec_parse_dec_lenient(spec_dec(n as nat)) == Some(n),
{
    crate::semver::lemma_dec_digits(n as nat);
    crate::semver::lemma_dec_value_of_dec(n as nat);
}

/// One patch step on a single-definition line: the patched name's first
/// definition now carries the new value; a name the line does not define
/// is still not defined; and a definition of a different name is untouched
/// because its line is returned unchanged when the patched name is absent.
proof fn lemma_patch_line_all_values(line: Seq<u8>, prefix: Seq<u8>, v: SemVersion, part: VersionPart)
    requires
        spec_valid_prefix(prefix),
        line_single_def(line, prefix),
    ensures
        line_def_value(patch_line_all(line, prefix, v), macro_name(prefix, part)) == (
        if line_def_span(line, macro_name(prefix, part)) is Some {
            Some(part_component(v, part))
        } else {
            None::<u64>
        }),
{
    let n_ma = macro_name(prefix, VersionPart::Major);
    let n_mi = macro_name(prefix, VersionPart::Minor);
    let n_pa = macro_name(prefix, VersionPart::Patch);
    lemma_macro_name_upper(prefix, VersionPart::Major);
    lemma_macro_name_upper(prefix, VersionPart::Minor);
    lemma_macro_name_upper(prefix, VersionPart::Patch);
    lemma_lenient_parse_of_dec(v.major);
    lemma_lenient_parse_of_dec(v.minor);
    lemma_lenient_parse_of_dec(v.patch);
    let l1 = patch_part_line(line, n_ma, v.major);
    let l2 = patch_part_line(l1, n_mi, v.minor);
    let l3 = patch_part_line(l2, n_pa, v.patch);
    if line_def_span(line, n_ma) is Some {
        let (a, b) = line_def_span(line, n_ma)->Some_0;
        let h = find_def(line, 0, n_ma);
        lemma_find_def(line, 0, n_ma);
        lemma_def_at_props(line, h, a, b, n_ma);
        lemma_line_def_span_splice(line, a, b, spec_dec(v.major as nat), n_ma);
        lemma_line_def_none_splice(line, a, b, spec_dec(v.major as nat), n_mi);
        lemma_line_def_none_splice(line, a, b, spec_dec(v.major as nat), n_pa);
        // minor and patch steps are the identity on the patched line
        assert(l2 == l1);
        assert(l3 == l2);
        let (a2, b2) = line_def_span(l1, n_ma)->Some_0;
        assert(l1.subrange(a2, b2) =~= spec_dec(v.major as nat));
    } else if line_def_span(line, n_mi) is Some {
        assert(l1 == line);
        let (a, b) = line_def_span(line, n_mi)->Some_0;
        let h = find_def(line, 0, n_mi);
        lemma_find_def(line, 0, n_mi);
        lemma_def_at_props(line, h, a, b, n_mi);
        lemma_line_def_span_splice(line, a, b, spec_dec(v.minor as nat), n_mi);
        lemma_line_def_none_splice(line, a, b, spec_dec(v.minor as nat), n_ma);
        lemma_line_def_none_splice(line, a, b, spec_dec(v.minor as nat), n_pa);
        assert(l3 == l2);
        let (a2, b2) = line_def_span(l2, n_mi)->Some_0;
        assert(l2.subrange(a2, b2) =~= spec_dec(v.minor as nat));
    } else if line_def_span(line, n_pa) is Some {
        assert(l1 == line);
        assert(l2 == line);
        let (a, b) = line_def_span(line, n_pa)->Some_0;
        let h = find_def(line, 0, n_pa);
        lemma_find_def(line, 0, n_pa);
        lemma_def_at_props(line, h, a, b, n_pa);
        lemma_line_def_span_splice(line, a, b, spec_dec(v.patch as nat), n_pa);
        lemma_line_def_none_splice(line, a, b, spec_dec(v.patch as nat), n_ma);
        lemma_line_def_none_splice(line, a, b, spec_dec(v.patch as nat), n_mi);
        let (a2, b2) = line_def_span(l3, n_pa)->Some_0;
        assert(l3.subrange(a2, b2) =~= spec_dec(v.patch as nat));
    } else {
        assert(l1 == line);
        assert(l2 == line);
        assert(l3 == line);
    }
}

/// Some line from `i` on defines the name.
pub open spec fn has_def_from(s: Seq<u8>, i: int, name: Seq<u8>) -> bool
    decreases s.len() + 1 - i,
    via has_def_from_decreases
{
    if i < 0 || i > s.len() {
        false
    } else {
        let e = find_byte(s, i, NL);
        line_def_span(s.subrange(i, e), name) is Some || has_def_from(s, e + 1, name)
    }
}

#[via_fn]
proof fn has_def_from_decreases(s: Seq<u8>, i: int, name: Seq<u8>) {
    if 0 <= i <= s.len() {
        lemma_find_byte(s, i, NL);
    }
}

/// A found value implies a found definition.
proof fn lemma_extract_has_def(s: Seq<u8>, i: int, name: Seq<u8>)
    requires
        extract_part_from(s, i, name) is Some,
    ensures
        has_def_from(s, i, name),
    decreases s.len() + 1 - i,
{
    if 0 <= i <= s.len() {
        let e = find_byte(s, i, NL);
        lemma_find_byte(s, i, NL);
        if line_def_value(s.subrange(i, e), name) is None {
            lemma_extract_has_def(s, e + 1, name);
        }
    }
}

/// Extraction reads nothing left of its start: agreeing suffixes extract
/// the same value.
proof fn lemma_extract_suffix(s1: Seq<u8>, d: int, s2: Seq<u8>, d2: int, name: Seq<u8>)
    requires
        suffix_agree(s1, d, s2, d2),
    ensures
        extract_part_from(s2, d2, name) == extract_part_from(s1, d, name),
    decreases s1.len() + 1 - d,
{
    let dd = d2 - d;
    let e1 = find_byte(s1, d, NL);
    lemma_find_byte(s1, d, NL);
    crate::text::lemma_find_byte_suffix(s1, d, s2, d2, d, NL);
    let e2 = e1 + dd;
    assert(s2.subrange(d2, e2) =~= s1.subrange(d, e1)) by {
        assert forall|x: int| 0 <= x < e1 - d implies s2.subrange(d2, e2)[x] == s1.subrange(
            d,
            e1,
        )[x] by {
            assert(s2[d2 + x] == s1[d + x]);
        }
    }
    if line_def_value(s1.subrange(d, e1), name) is None {
        if e1 < s1.len() {
            assert(suffix_agree(s1, e1 + 1, s2, e2 + 1)) by {
                assert forall|x: int| 0 <= x < s1.len() - (e1 + 1) implies #[trigger] s2[e2 + 1
                    + x] == s1[e1 + 1 + x] by {
                    assert(s2[d2 + (e1 + 1 - d + x)] == s1[d + (e1 + 1 - d + x)]);
                }
            }
            lemma_extract_suffix(s1, e1 + 1, s2, e2 + 1, name);
        }
    }
}

/// Definition search reads nothing left of its start either.
proof fn lemma_has_def_suffix(s1: Seq<u8>, d: int, s2: Seq<u8>, d2: int, name: Seq<u8>)
    requires
        suffix_agree(s1, d, s2, d2),
    ensures
        has_def_from(s2, d2, name) == has_def_from(s1, d, name),
    decreases s1.len() + 1 - d,
{
    let dd = d2 - d;
    let e1 = find_byte(s1, d, NL);
    lemma_find_byte(s1, d, NL);
    crate::text::lemma_find_byte_suffix(s1, d, s2, d2, d, NL);
    let e2 = e1 + dd;
    assert(s2.subrange(d2, e2) =~= s1.subrange(d, e1)) by {
        assert forall|x: int| 0 <= x < e1 - d implies s2.subrange(d2, e2)[x] == s1.subrange(
            d,
            e1,
        )[x] by {
            assert(s2[d2 + x] == s1[d + x]);
        }
    }
    assert(line_def_span(s2.subrange(d2, e2), name) == line_def_span(s1.subrange(d, e1), name));
    if e1 < s1.len() {
        assert(suffix_agree(s1, e1 + 1, s2, e2 + 1)) by {
            assert forall|x: int| 0 <= x < s1.len() - (e1 + 1) implies #[trigger] s2[e2 + 1 + x]
                == s1[e1 + 1 + x] by {
                assert(s2[d2 + (e1 + 1 - d + x)] == s1[d + (e1 + 1 - d + x)]);
            }
        }
        lemma_has_def_suffix(s1, e1 + 1, s2, e2 + 1, name);
    } else {
        assert(e2 == s2.len());
        assert(has_def_from(s1, e1 + 1, name) == false);
        assert(has_def_from(s2, e2 + 1, name) == false);
    }
}

/// One patch step cannot introduce a line break.
proof fn lemma_patch_part_no_nl(line: Seq<u8>, name: Seq<u8>, n: u64)
    requires
        forall|x: int| 0 <= x < line.len() ==> #[trigger] line[x] != NL,
    ensures
        forall|x: int|
            0 <= x < patch_part_line(line, name, n).len() ==> #[trigger] patch_part_line(
                line,
                name,
                n,
            )[x] != NL,
{
    match line_def_span(line, name) {
        Some((a, b)) => {
            let h = find_def(line, 0, name);
            lemma_find_def(line, 0, name);
            lemma_def_at_props(line, h, a, b, name);
            crate::semver::lemma_dec_digits(n as nat);
            let p = patch_part_line(line, name, n);
            assert forall|x: int| 0 <= x < p.len() implies p[x] != NL by {
                if x < a {
                    assert(p[x] == line[x]);
                } else if x < a + spec_dec(n as nat).len() {
                    assert(p[x] == spec_dec(n as nat)[x - a]);
                    assert(is_digit(p[x]));
                } else {
                    assert(p[x] == line[x - spec_dec(n as nat).len() + (b - a)]);
                }
            }
        },
        None => {},
    }
}

/// Patching a line introduces no line break.
proof fn lemma_patch_line_no_nl(line: Seq<u8>, prefix: Seq<u8>, v: SemVersion)
    requires
        forall|x: int| 0 <= x < line.len() ==> #[trigger] line[x] != NL,
    ensures
        forall|x: int|
            0 <= x < patch_line_all(line, prefix, v).len() ==> #[trigger] patch_line_all(
                line,
                prefix,
                v,
            )[x] != NL,
{
    let l1 = patch_part_line(line, macro_name(prefix, VersionPart::Major), v.major);
    lemma_patch_part_no_nl(line, macro_name(prefix, VersionPart::Major), v.major);
    let l2 = patch_part_line(l1, macro_name(prefix, VersionPart::Minor), v.minor);
    lemma_patch_part_no_nl(l1, macro_name(prefix, VersionPart::Minor), v.minor);
    lemma_patch_part_no_nl(l2, macro_name(prefix, VersionPart::Patch), v.patch);
}

/// The heart of the header round trip: extracting one macro's value from
/// patched content yields the patched component wherever the content
/// defines the macro at all.
proof fn lemma_extract_patched(
    s: Seq<u8>,
    i: int,
    prefix: Seq<u8>,
    v: SemVersion,
    part: VersionPart,
)
    requires
        spec_valid_prefix(prefix),
        single_defs(s, i, prefix),
    ensures
        extract_part_from(patch_content_from(s, i, prefix, v), 0, macro_name(prefix, part)) == (
        if has_def_from(s, i, macro_name(prefix, part)) {
            Some(part_component(v, part))
        } else {
            None::<u64>
        }),
    decreases s.len() + 1 - i,
{
    let name = macro_name(prefix, part);
    let p = patch_content_from(s, i, prefix, v);
    if i < 0 || i > s.len() {
        assert(p == Seq::<u8>::empty());
        assert(find_def(Seq::<u8>::empty().subrange(0, 0), 0, name) == 0);
    } else {
        let e = find_byte(s, i, NL);
        lemma_find_byte(s, i, NL);
        let line = s.subrange(i, e);
        let pl = patch_line_all(line, prefix, v);
        lemma_patch_line_all_values(line, prefix, v, part);
        assert(forall|x: int| 0 <= x < line.len() ==> #[trigger] line[x] != NL);
        lemma_patch_line_no_nl(line, prefix, v);
        if e < s.len() {
            let rest = patch_content_from(s, e + 1, prefix, v);
            assert(p == pl + (seq![NL] + rest));
            assert(forall|x: int| 0 <= x < pl.len() ==> p[x] == pl[x]);
            assert(p[pl.len() as int] == NL);
            assert(find_byte(p, 0, NL) == pl.len()) by {
                lemma_find_byte_inv(p, 0, NL, pl.len() as int);
            }
            assert(p.subrange(0, pl.len() as int) =~= pl);
            if line_def_span(line, name) is Some {
                assert(line_def_value(pl, name) == Some(part_component(v, part)));
                assert(extract_part_from(p, 0, name) == Some(part_component(v, part)));
            } else {
                assert(line_def_value(pl, name) is None);
                lemma_extract_patched(s, e + 1, prefix, v, part);
                assert(suffix_agree(rest, 0, p, pl.len() + 1 as int)) by {
                    assert forall|x: int| 0 <= x < rest.len() implies #[trigger] p[pl.len() + 1
                        + x] == rest[0 + x] by {
                        assert(p[pl.len() + 1 + x] == (seq![NL] + rest)[1 + x]);
                    }
                }
                lemma_extract_suffix(rest, 0, p, pl.len() + 1 as int, name);
            }
        } else {
            assert(p =~= pl);
            assert(find_byte(p, 0, NL) == p.len()) by {
                lemma_find_byte_inv(p, 0, NL, p.len() as int);
            }
            assert(p.subrange(0, p.len() as int) =~= pl);
            if line_def_span(line, name) is Some {
                assert(line_def_value(pl, name) == Some(part_component(v, part)));
            } else {
                assert(line_def_value(pl, name) is None);
                assert(extract_part_from(p, p.len() + 1 as int, name) is None);
                assert(has_def_from(s, e + 1, name) == false);
            }
        }
    }
}

/// A detected definition found in one suffix is found, shifted, in an
/// agreeing one, with the same prefix text at shifted positions.
proof fn lemma_macro_def_at_shift(s1: Seq<u8>, d: int, s2: Seq<u8>, d2: int, h: int)
    requires
        suffix_agree(s1, d, s2, d2),
        d <= h,
    ensures
        match macro_def_at(s1, h) {
            Some((ps, pe)) => macro_def_at(s2, h + (d2 - d)) == Some(
                (ps + (d2 - d), pe + (d2 - d)),
            ),
            None => macro_def_at(s2, h + (d2 - d)) is None,
        },
{
    let dd = d2 - d;
    if h < s1.len() {
        assert(s2[d2 + (h - d)] == s1[d + (h - d)]);
        assert(s2[h + dd] == s1[h]);
        if s1[h] == HASH {
            lemma_skip_spaces_suffix(s1, d, s2, d2, h + 1);
            let j = skip_spaces(s1, h + 1);
            lemma_skip_spaces(s1, h + 1);
            lemma_match_at_suffix(s1, d, s2, d2, j, define_kw());
            if match_at(s1, j, define_kw()) {
                lemma_skip_spaces_suffix(s1, d, s2, d2, j + 6);
                let k = skip_spaces(s1, j + 6);
                lemma_skip_spaces(s1, j + 6);
                if k < s1.len() {
                    assert(s2[d2 + (k - d)] == s1[d + (k - d)]);
                    assert(s2[k + dd] == s1[k]);
                }
                if k != j + 6 && k < s1.len() && is_word(s1[k]) {
                    lemma_skip_word_suffix(s1, d, s2, d2, k);
                    let m = skip_word(s1, k);
                    lemma_skip_word(s1, k);
                    if m - k >= 15 {
                        lemma_match_at_suffix(s1, d, s2, d2, m - 14, version_infix());
                        lemma_match_at_suffix(s1, d, s2, d2, m - 5, major_kw());
                        lemma_match_at_suffix(s1, d, s2, d2, m - 5, minor_kw());
                        lemma_match_at_suffix(s1, d, s2, d2, m - 5, patch_kw());
                        if match_at(s1, m - 14, version_infix()) && (match_at(s1, m - 5, major_kw())
                            || match_at(s1, m - 5, minor_kw()) || match_at(s1, m - 5, patch_kw())) {
                            lemma_skip_spaces_suffix(s1, d, s2, d2, m);
                            let w = skip_spaces(s1, m);
                            lemma_skip_spaces(s1, m);
                            if w < s1.len() {
                                assert(s2[d2 + (w - d)] == s1[d + (w - d)]);
                                assert(s2[w + dd] == s1[w]);
                            }
                        }
                    }
                }
            }
        }
    }
}

/// Left of a spliced definition-value span, the detection grammar sees the
/// same outcome byte for byte: the span's digits and the space just before
/// it stop every scan the grammar performs.  `nm_end` is where the space
/// run before the span begins; the byte before it is part of a macro name,
/// upper case or underscore.
#[verifier::rlimit(90)]
proof fn lemma_macro_def_at_splice_low(
    line: Seq<u8>,
    a: int,
    b: int,
    r: Seq<u8>,
    nm_end: int,
    h: int,
)
    requires
        0 <= a < b <= line.len(),
        forall|x: int| a <= x < b ==> is_digit(#[trigger] line[x]),
        digit_run(r),
        1 <= nm_end < a,
        forall|x: int| nm_end <= x < a ==> is_space(#[trigger] line[x]),
        is_upper(line[nm_end - 1]) || line[nm_end - 1] == UNDERSCORE,
        0 <= h < a,
    ensures
        macro_def_at(line.subrange(0, a) + r + line.subrange(b, line.len() as int), h)
            == macro_def_at(line, h),
        macro_def_at(line, h) matches Some((ps, pe)) ==> 0 <= ps < pe < a,
{
    let l2 = line.subrange(0, a) + r + line.subrange(b, line.len() as int);
    assert(forall|x: int| 0 <= x < a ==> l2[x] == line[x]);
    assert(forall|x: int| 0 <= x < r.len() ==> l2[a + x] == r[x]);
    assert(l2[a] == r[0] && is_digit(l2[a]));
    assert(is_digit(line[a]));
    assert(is_space(line[a - 1]));
    assert(l2[h] == line[h]);
    if line[h] == HASH {
        let j = skip_spaces(line, h + 1);
        lemma_skip_spaces(line, h + 1);
        assert(j <= a) by {
            if j > a {
                assert(is_space(line[a]));
            }
        }
        assert(skip_spaces(l2, h + 1) == j) by {
            if j == a {
                assert(!is_space(l2[a]));
            }
            lemma_skip_spaces_inv(l2, h + 1, j);
        }
        let md = match_at(line, j, define_kw());
        assert(forall|t: int| 0 <= t < 6 ==> define_kw()[t] >= 100);
        if md {
            assert(j + 6 <= a) by {
                if a < j + 6 {
                    assert(line[j + (a - j)] == define_kw()[a - j]);
                    assert(is_digit(line[a]));
                }
            }
            assert(match_at(l2, j, define_kw())) by {
                assert(forall|t: int| 0 <= t < 6 ==> #[trigger] l2[j + t] == line[j + t]);
            }
            let k = skip_spaces(line, j + 6);
            lemma_skip_spaces(line, j + 6);
            assert(k <= a) by {
                if k > a {
                    assert(is_space(line[a]));
                }
            }
            // the scan cannot reach the span start: between `define` and the
            // span sits the macro name's tail, which is neither space nor
            // any byte of `define`
            assert(k < a) by {
                if k == a {
                    if j + 6 < nm_end {
                        assert(is_space(line[nm_end - 1]));
                    } else if j + 6 == nm_end {
                        assert(line[j + 5] == define_kw()[5]);
                        assert(define_kw()[5] == 101);
                    } else {
                        let q = if j >= nm_end {
                            j
                        } else {
                            nm_end
                        };
                        assert(j <= q < j + 6);
                        assert(nm_end <= q < a);
                        assert(is_space(line[q]));
                        assert(line[j + (q - j)] == define_kw()[q - j]);
                        assert(define_kw()[q - j] >= 100);
                    }
                }
            }
            assert(skip_spaces(l2, j + 6) == k) by {
                lemma_skip_spaces_inv(l2, j + 6, k);
            }
            if k != j + 6 && is_word(line[k]) {
                let m = skip_word(line, k);
                lemma_skip_word(line, k);
                assert(m < a) by {
                    if m == a {
                        assert(!is_word(line[a]));
                        assert(is_digit(line[a]));
                    }
                    if m > a {
                        assert(is_word(line[a - 1]));
                        assert(is_space(line[a - 1]));
                    }
                }
                assert(skip_word(l2, k) == m) by {
                    lemma_skip_word_inv(l2, k, m);
                }
                assert(forall|t: int| m - 14 <= t < m && t >= 0 ==> #[trigger] l2[t] == line[t]);
                assert(match_at(l2, m - 14, version_infix()) == match_at(
                    line,
                    m - 14,
                    version_infix(),
                )) by {
                    lemma_match_at_window(line, l2, m - 14, version_infix(), a);
                }
                assert(match_at(l2, m - 5, major_kw()) == match_at(line, m - 5, major_kw())) by {
                    lemma_match_at_window(line, l2, m - 5, major_kw(), a);
                }
                assert(match_at(l2, m - 5, minor_kw()) == match_at(line, m - 5, minor_kw())) by {
                    lemma_match_at_window(line, l2, m - 5, minor_kw(), a);
                }
                assert(match_at(l2, m - 5, patch_kw()) == match_at(line, m - 5, patch_kw())) by {
                    lemma_match_at_window(line, l2, m - 5, patch_kw(), a);
                }
                if m - k >= 15 && match_at(line, m - 14, version_infix()) && (match_at(
                    line,
                    m - 5,
                    major_kw(),
                ) || match_at(line, m - 5, minor_kw()) || match_at(line, m - 5, patch_kw())) {
                    let w = skip_spaces(line, m);
                    lemma_skip_spaces(line, m);
                    assert(w <= a) by {
                        if w > a {
                            assert(is_space(line[a]));
                        }
                    }
                    assert(skip_spaces(l2, m) == w) by {
                        if w == a {
                            assert(!is_space(l2[a]));
                        }
                        lemma_skip_spaces_inv(l2, m, w);
                    }
                    if w < a {
                        assert(l2[w] == line[w]);
                    }
                }
            }
        } else {
            assert(!match_at(l2, j, define_kw())) by {
                if match_at(l2, j, define_kw()) {
                    if j + 6 <= a {
                        assert(forall|t: int| 0 <= t < 6 ==> #[trigger] line[j + t] == l2[j + t]);
                        assert(match_at(line, j, define_kw()));
                    } else {
                        assert(l2[j + (a - j)] == define_kw()[a - j]);
                        assert(is_digit(l2[a]));
                    }
                }
            }
        }
    }
}

/// Two sequences that agree on `[0, a)` agree on whether a pattern whose
/// window lies within `[0, a)` matches; a window that would cross `a` is
/// compared against digits on both sides and fails on both.
proof fn lemma_match_at_window(line: Seq<u8>, l2: Seq<u8>, i: int, pat: Seq<u8>, a: int)
    requires
        0 <= a <= line.len(),
        a <= l2.len(),
        forall|x: int| 0 <= x < a ==> l2[x] == line[x],
        i + pat.len() <= a,
    ensures
        match_at(l2, i, pat) == match_at(line, i, pat),
{
    if match_at(line, i, pat) {
        assert(forall|t: int| 0 <= t < pat.len() ==> #[trigger] l2[i + t] == line[i + t]);
    }
    if match_at(l2, i, pat) {
        assert(forall|t: int| 0 <= t < pat.len() ==> #[trigger] line[i + t] == l2[i + t]);
    }
}

/// The candidate a line contributes is unchanged by patching one macro's
/// digits: the splice sits in a value span that no detection scan can
/// enter, and later definitions only shift.
#[verifier::rlimit(100)]
proof fn lemma_line_candidate_patch_part(line: Seq<u8>, name: Seq<u8>, n: u64)
    requires
        upper_name(name),
    ensures
        line_candidate(patch_part_line(line, name, n)) == line_candidate(line),
{
    if line_def_span(line, name) is Some {
        let (a, b) = line_def_span(line, name)->Some_0;
        let l2 = patch_part_line(line, name, n);
        let r = spec_dec(n as nat);
        crate::semver::lemma_dec_digits(n as nat);
        let hd = find_def(line, 0, name);
        lemma_find_def(line, 0, name);
        lemma_def_at_props(line, hd, a, b, name);
        let jd = skip_spaces(line, hd + 1);
        lemma_skip_spaces(line, hd + 1);
        let kd = skip_spaces(line, jd + 6);
        lemma_skip_spaces(line, jd + 6);
        let nm_end = kd + name.len() as int;
        lemma_skip_spaces(line, nm_end);
        assert(skip_spaces(line, nm_end) == a);
        assert(nm_end < a);
        assert(line[nm_end - 1] == name[name.len() - 1]);
        assert(is_upper(line[nm_end - 1]) || line[nm_end - 1] == UNDERSCORE);
        assert(l2 == line.subrange(0, a) + r + line.subrange(b, line.len() as int));
        let delta = r.len() - (b - a);
        assert(forall|x: int| 0 <= x < a ==> l2[x] == line[x]);
        assert(forall|x: int| 0 <= x < r.len() ==> l2[a + x] == r[x]);
        assert(suffix_agree(line, b, l2, a + r.len() as int)) by {
            assert forall|x: int| 0 <= x < line.len() - b implies #[trigger] l2[a + r.len() + x]
                == line[b + x] by {
                assert(l2[(b + x) + delta] == line[b + x]);
            }
        }
        assert forall|h: int| 0 <= h < a implies macro_def_at(l2, h) == macro_def_at(line, h) by {
            lemma_macro_def_at_splice_low(line, a, b, r, nm_end, h);
        }
        assert forall|h: int| a <= h < b implies macro_def_at(line, h) is None by {
            assert(is_digit(line[h]));
            assert(line[h] != HASH);
        }
        assert forall|h: int| a <= h < a + r.len() implies macro_def_at(l2, h) is None by {
            assert(l2[h] == r[h - a]);
            assert(is_digit(l2[h]));
            assert(l2[h] != HASH);
        }
        let h0 = find_macro_def(line, 0);
        lemma_find_macro_def(line, 0);
        if h0 == line.len() {
            assert forall|h: int| 0 <= h < l2.len() implies macro_def_at(l2, h) is None by {
                if h >= a + r.len() {
                    lemma_macro_def_at_shift(line, b, l2, a + r.len() as int, h - delta);
                    assert(macro_def_at(line, h - delta) is None);
                    assert((h - delta) + (a + r.len() - b) == h);
                }
            }
            lemma_find_macro_def_inv(l2, 0, l2.len() as int);
        } else if h0 < a {
            lemma_find_macro_def_inv(l2, 0, h0);
            let (ps, pe) = macro_def_at(line, h0)->Some_0;
            lemma_macro_def_at_splice_low(line, a, b, r, nm_end, h0);
            assert(0 <= ps < pe < a);
            assert(l2.subrange(ps, pe) =~= line.subrange(ps, pe));
        } else {
            assert(h0 >= b);
            assert forall|h: int| 0 <= h < h0 + delta implies macro_def_at(l2, h) is None by {
                if h >= a + r.len() {
                    lemma_macro_def_at_shift(line, b, l2, a + r.len() as int, h - delta);
                    assert(macro_def_at(line, h - delta) is None);
                    assert((h - delta) + (a + r.len() - b) == h);
                }
            }
            lemma_macro_def_at_shift(line, b, l2, a + r.len() as int, h0);
            assert((a + r.len() - b) == delta);
            let (ps, pe) = macro_def_at(line, h0)->Some_0;
            assert(macro_def_at(l2, h0 + delta) == Some((ps + delta, pe + delta)));
            lemma_find_macro_def_inv(l2, 0, h0 + delta);
            // the shifted prefix text is the same bytes
            let j0 = skip_spaces(line, h0 + 1);
            lemma_skip_spaces(line, h0 + 1);
            let k0 = skip_spaces(line, j0 + 6);
            lemma_skip_spaces(line, j0 + 6);
            let m0 = skip_word(line, k0);
            lemma_skip_word(line, k0);
            assert(ps == k0 && pe == m0 - 14);
            assert(l2.subrange(ps + delta, pe + delta) =~= line.subrange(ps, pe)) by {
                assert forall|t: int| 0 <= t < pe - ps implies l2.subrange(ps + delta, pe + delta)[t]
                    == line.subrange(ps, pe)[t] by {
                    assert(l2[a + r.len() + (ps + t - b)] == line[b + (ps + t - b)]);
                }
            }
        }
    }
}

/// A pattern with no digit byte never matches while inside a digit run.
proof fn lemma_count_over_digits(s: Seq<u8>, i: int, t: int, q: Seq<u8>)
    requires
        q.len() > 0,
        forall|x: int| 0 <= x < q.len() ==> !is_digit(#[trigger] q[x]),
        0 <= i <= t <= s.len(),
        forall|x: int| i <= x < t ==> is_digit(#[trigger] s[x]),
    ensures
        count_matches(s, i, q) == count_matches(s, t, q),
    decreases t - i,
{
    if i < t {
        assert(!match_at(s, i, q)) by {
            if match_at(s, i, q) {
                assert(s[i + 0] == q[0]);
            }
        }
        lemma_count_over_digits(s, i + 1, t, q);
    }
}

/// Occurrence counts of a digit-free pattern are unchanged by a digit
/// splice: no occurrence can enter the replaced span from either side.
proof fn lemma_count_splice_low(
    line: Seq<u8>,
    a: int,
    b: int,
    r: Seq<u8>,
    q: Seq<u8>,
    i: int,
)
    requires
        0 <= a < b <= line.len(),
        forall|x: int| a <= x < b ==> is_digit(#[trigger] line[x]),
        digit_run(r),
        q.len() > 0,
        forall|x: int| 0 <= x < q.len() ==> !is_digit(#[trigger] q[x]),
        0 <= i <= a,
    ensures
        count_matches(line.subrange(0, a) + r + line.subrange(b, line.len() as int), i, q)
            == count_matches(line, i, q),
    decreases a - i,
{
    let l2 = line.subrange(0, a) + r + line.subrange(b, line.len() as int);
    assert(forall|x: int| 0 <= x < a ==> l2[x] == line[x]);
    assert(forall|x: int| 0 <= x < r.len() ==> l2[a + x] == r[x]);
    let delta = r.len() - (b - a);
    if i == a {
        lemma_count_over_digits(line, a, b, q);
        lemma_count_over_digits(l2, a, a + r.len() as int, q);
        assert(suffix_agree(line, b, l2, a + r.len() as int)) by {
            assert forall|x: int| 0 <= x < line.len() - b implies #[trigger] l2[a + r.len() + x]
                == line[b + x] by {
                assert(l2[(b + x) + delta] == line[b + x]);
            }
        }
        lemma_count_matches_suffix(line, b, l2, a + r.len() as int, b, q);
        assert(b + (a + r.len() - b) == a + r.len());
    } else {
        assert(match_at(l2, i, q) == match_at(line, i, q)) by {
            if match_at(line, i, q) && !match_at(l2, i, q) {
                if i + q.len() <= a {
                    assert(forall|t: int| 0 <= t < q.len() ==> #[trigger] l2[i + t] == line[i + t]);
                } else {
                    assert(line[i + (a - i)] == q[a - i]);
                    assert(is_digit(line[a]));
                }
            }
            if match_at(l2, i, q) && !match_at(line, i, q) {
                if i + q.len() <= a {
                    assert(forall|t: int| 0 <= t < q.len() ==> #[trigger] line[i + t] == l2[i + t]);
                } else {
                    assert(l2[i + (a - i)] == q[a - i]);
                    assert(is_digit(l2[a]));
                }
            }
        }
        if match_at(line, i, q) {
            assert(i + q.len() <= a) by {
                if a < i + q.len() {
                    assert(line[i + (a - i)] == q[a - i]);
                    assert(is_digit(line[a]));
                }
            }
            lemma_count_splice_low(line, a, b, r, q, i + q.len());
        } else {
            lemma_count_splice_low(line, a, b, r, q, i + 1);
        }
    }
}

/// One patch step keeps the occurrence count of any digit-free pattern.
proof fn lemma_count_patch_part(line: Seq<u8>, name: Seq<u8>, n: u64, q: Seq<u8>)
    requires
        q.len() > 0,
        forall|x: int| 0 <= x < q.len() ==> !is_digit(#[trigger] q[x]),
    ensures
        count_matches(patch_part_line(line, name, n), 0, q) == count_matches(line, 0, q),
{
    if line_def_span(line, name) is Some {
        let (a, b) = line_def_span(line, name)->Some_0;
        let hd = find_def(line, 0, name);
        lemma_find_def(line, 0, name);
        lemma_def_at_props(line, hd, a, b, name);
        crate::semver::lemma_dec_digits(n as nat);
        lemma_count_splice_low(line, a, b, spec_dec(n as nat), q, 0);
    }
}

/// A whole patch pass keeps the occurrence count of any digit-free
/// pattern.
proof fn lemma_count_patch_line(line: Seq<u8>, prefix: Seq<u8>, v: SemVersion, q: Seq<u8>)
    requires
        q.len() > 0,
        forall|x: int| 0 <= x < q.len() ==> !is_digit(#[trigger] q[x]),
    ensures
        count_matches(patch_line_all(line, prefix, v), 0, q) == count_matches(line, 0, q),
{
    let l1 = patch_part_line(line, macro_name(prefix, VersionPart::Major), v.major);
    lemma_count_patch_part(line, macro_name(prefix, VersionPart::Major), v.major, q);
    let l2 = patch_part_line(l1, macro_name(prefix, VersionPart::Minor), v.minor);
    lemma_count_patch_part(l1, macro_name(prefix, VersionPart::Minor), v.minor, q);
    lemma_count_patch_part(l2, macro_name(prefix, VersionPart::Patch), v.patch, q);
}

/// The candidate a line contributes is unchanged by a whole patch pass.
proof fn lemma_line_candidate_patch(line: Seq<u8>, prefix: Seq<u8>, v: SemVersion)
    requires
        spec_valid_prefix(prefix),
    ensures
        line_candidate(patch_line_all(line, prefix, v)) == line_candidate(line),
{
    lemma_macro_name_upper(prefix, VersionPart::Major);
    lemma_macro_name_upper(prefix, VersionPart::Minor);
    lemma_macro_name_upper(prefix, VersionPart::Patch);
    let l1 = patch_part_line(line, macro_name(prefix, VersionPart::Major), v.major);
    lemma_line_candidate_patch_part(line, macro_name(prefix, VersionPart::Major), v.major);
    let l2 = patch_part_line(l1, macro_name(prefix, VersionPart::Minor), v.minor);
    lemma_line_candidate_patch_part(l1, macro_name(prefix, VersionPart::Minor), v.minor);
    lemma_line_candidate_patch_part(l2, macro_name(prefix, VersionPart::Patch), v.patch);
}

/// A whole patched content keeps the occurrence count of any digit-free,
/// newline-free pattern: the pattern cannot straddle a line break, and
/// every line keeps its count.
proof fn lemma_count_patched(s: Seq<u8>, i: int, prefix: Seq<u8>, v: SemVersion, q: Seq<u8>)
    requires
        0 <= i <= s.len(),
        q.len() > 0,
        forall|x: int| 0 <= x < q.len() ==> !is_digit(#[trigger] q[x]),
        forall|x: int| 0 <= x < q.len() ==> #[trigger] q[x] != NL,
    ensures
        count_matches(patch_content_from(s, i, prefix, v), 0, q) == count_matches(
            s.subrange(i, s.len() as int),
            0,
            q,
        ),
    decreases s.len() + 1 - i,
{
    let e = find_byte(s, i, NL);
    lemma_find_byte(s, i, NL);
    let line = s.subrange(i, e);
    let pl = patch_line_all(line, prefix, v);
    assert(forall|x: int| 0 <= x < line.len() ==> #[trigger] line[x] != NL);
    lemma_patch_line_no_nl(line, prefix, v);
    lemma_count_patch_line(line, prefix, v, q);
    let p = patch_content_from(s, i, prefix, v);
    if e < s.len() {
        let rest = patch_content_from(s, e + 1, prefix, v);
        assert(p =~= pl + seq![NL] + rest);
        lemma_count_matches_split(pl, rest, NL, q);
        lemma_count_patched(s, e + 1, prefix, v, q);
        assert(s.subrange(i, s.len() as int) =~= line + seq![NL] + s.subrange(
            e + 1,
            s.len() as int,
        ));
        lemma_count_matches_split(line, s.subrange(e + 1, s.len() as int), NL, q);
    } else {
        assert(p =~= pl);
        assert(line =~= s.subrange(i, s.len() as int));
    }
}

/// Candidate collection reads nothing left of its start: agreeing suffixes
/// collect the same candidates.
proof fn lemma_candidates_suffix(s1: Seq<u8>, d: int, s2: Seq<u8>, d2: int)
    requires
        suffix_agree(s1, d, s2, d2),
    ensures
        candidates_from(s2, d2) == candidates_from(s1, d),
    decreases s1.len() + 1 - d,
{
    let dd = d2 - d;
    let e1 = find_byte(s1, d, NL);
    lemma_find_byte(s1, d, NL);
    crate::text::lemma_find_byte_suffix(s1, d, s2, d2, d, NL);
    let e2 = e1 + dd;
    assert(s2.subrange(d2, e2) =~= s1.subrange(d, e1)) by {
        assert forall|x: int| 0 <= x < e1 - d implies s2.subrange(d2, e2)[x] == s1.subrange(
            d,
            e1,
        )[x] by {
            assert(s2[d2 + x] == s1[d + x]);
        }
    }
    if e1 < s1.len() {
        assert(suffix_agree(s1, e1 + 1, s2, e2 + 1)) by {
            assert forall|x: int| 0 <= x < s1.len() - (e1 + 1) implies #[trigger] s2[e2 + 1 + x]
                == s1[e1 + 1 + x] by {
                assert(s2[d2 + (e1 + 1 - d + x)] == s1[d + (e1 + 1 - d + x)]);
            }
        }
        lemma_candidates_suffix(s1, e1 + 1, s2, e2 + 1);
    } else {
        assert(e2 == s2.len());
        assert(candidates_from(s1, e1 + 1) =~= Seq::<Seq<u8>>::empty());
        assert(candidates_from(s2, e2 + 1) =~= Seq::<Seq<u8>>::empty());
    }
    assert(line_candidate(s2.subrange(d2, e2)) == line_candidate(s1.subrange(d, e1)));
}

/// Patched content collects exactly the candidates of the original: every
/// line keeps its candidate and the line structure is kept.
proof fn lemma_candidates_patched(s: Seq<u8>, i: int, prefix: Seq<u8>, v: SemVersion)
    requires
        0 <= i <= s.len(),
        spec_valid_prefix(prefix),
    ensures
        candidates_from(patch_content_from(s, i, prefix, v), 0) == candidates_from(s, i),
    decreases s.len() + 1 - i,
{
    let e = find_byte(s, i, NL);
    lemma_find_byte(s, i, NL);
    let line = s.subrange(i, e);
    let pl = patch_line_all(line, prefix, v);
    assert(forall|x: int| 0 <= x < line.len() ==> #[trigger] line[x] != NL);
    lemma_patch_line_no_nl(line, prefix, v);
    lemma_line_candidate_patch(line, prefix, v);
    let p = patch_content_from(s, i, prefix, v);
    if e < s.len() {
        let rest = patch_content_from(s, e + 1, prefix, v);
        assert(p == pl + (seq![NL] + rest));
        assert(forall|x: int| 0 <= x < pl.len() ==> p[x] == pl[x]);
        assert(p[pl.len() as int] == NL);
        assert(find_byte(p, 0, NL) == pl.len()) by {
            lemma_find_byte_inv(p, 0, NL, pl.len() as int);
        }
        assert(p.subrange(0, pl.len() as int) =~= pl);
        lemma_candidates_patched(s, e + 1, prefix, v);
        assert(suffix_agree(rest, 0, p, pl.len() + 1 as int)) by {
            assert forall|x: int| 0 <= x < rest.len() implies #[trigger] p[pl.len() + 1 + x]
                == rest[0 + x] by {
                assert(p[pl.len() + 1 + x] == (seq![NL] + rest)[1 + x]);
            }
        }
        lemma_candidates_suffix(rest, 0, p, pl.len() + 1 as int);
    } else {
        assert(p =~= pl);
        assert(find_byte(p, 0, NL) == p.len()) by {
            lemma_find_byte_inv(p, 0, NL, p.len() as int);
        }
        assert(p.subrange(0, p.len() as int) =~= pl);
        assert(candidates_from(s, e + 1) =~= Seq::<Seq<u8>>::empty());
        assert(candidates_from(p, p.len() + 1 as int) =~= Seq::<Seq<u8>>::empty());
    }
}

/// A usable prefix holds no digit and no line break.
proof fn lemma_valid_prefix_classes(c: Seq<u8>)
    requires
        spec_valid_prefix(c),
    ensures
        c.len() > 0,
        forall|x: int| 0 <= x < c.len() ==> !is_digit(#[trigger] c[x]),
        forall|x: int| 0 <= x < c.len() ==> #[trigger] c[x] != NL,
{
    assert forall|x: int| 0 <= x < c.len() implies !is_digit(c[x]) && c[x] != NL by {
        assert(is_upper(c[x]) || c[x] == UNDERSCORE);
    }
}

/// Patching changes neither the occurrence count of a usable prefix nor
/// the presence of its bonus token, so its score is unchanged.
proof fn lemma_score_patched(s: Seq<u8>, prefix: Seq<u8>, v: SemVersion, c: Seq<u8>)
    requires
        spec_valid_prefix(c),
    ensures
        prefix_score(patch_content_from(s, 0, prefix, v), c) == prefix_score(s, c),
{
    let p2 = patch_content_from(s, 0, prefix, v);
    lemma_valid_prefix_classes(c);
    lemma_count_patched(s, 0, prefix, v, c);
    assert(s.subrange(0, s.len() as int) =~= s);
    let tok = c + version_suffix_tok();
    assert(forall|x: int| 0 <= x < 8 ==> version_suffix_tok()[x] >= 65);
    assert forall|x: int| 0 <= x < tok.len() implies !is_digit(#[trigger] tok[x]) && tok[x]
        != NL by {
        if x < c.len() {
            assert(tok[x] == c[x]);
            assert(is_upper(c[x]) || c[x] == UNDERSCORE);
        } else {
            assert(tok[x] == version_suffix_tok()[x - c.len()]);
        }
    }
    lemma_count_patched(s, 0, prefix, v, tok);
    lemma_contains_iff_count(p2, 0, tok);
    lemma_contains_iff_count(s, 0, tok);
}

/// The best candidate is one of the candidates.
proof fn lemma_best_of_member(s: Seq<u8>, cs: Seq<Seq<u8>>)
    requires
        cs.len() > 0,
    ensures
        cs.contains(best_of(s, cs)),
    decreases cs.len(),
{
    if cs.len() == 1 {
        assert(cs[0] == best_of(s, cs));
        assert(cs.contains(cs[0]));
    } else {
        let tail = cs.drop_first();
        lemma_best_of_member(s, tail);
        let b = best_of(s, tail);
        if prefix_better(s, b, cs[0]) {
            let j = choose|j: int| 0 <= j < tail.len() && tail[j] == b;
            assert(cs[j + 1] == b);
            assert(cs.contains(b));
        } else {
            assert(cs.contains(cs[0]));
        }
    }
}

/// Two contents that score every candidate alike pick the same best one.
proof fn lemma_best_of_equal_scores(s1: Seq<u8>, s2: Seq<u8>, cs: Seq<Seq<u8>>)
    requires
        cs.len() > 0,
        forall|c: Seq<u8>| cs.contains(c) ==> prefix_score(s2, c) == prefix_score(s1, c),
    ensures
        best_of(s2, cs) == best_of(s1, cs),
    decreases cs.len(),
{
    if cs.len() > 1 {
        let tail = cs.drop_first();
        assert forall|c: Seq<u8>| tail.contains(c) implies cs.contains(c) by {
            let j = choose|j: int| 0 <= j < tail.len() && tail[j] == c;
            assert(cs[j + 1] == c);
        }
        lemma_best_of_equal_scores(s1, s2, tail);
        let b = best_of(s1, tail);
        lemma_best_of_member(s1, tail);
        assert(cs.contains(b));
        assert(cs.contains(cs[0]));
        assert(prefix_better(s2, b, cs[0]) == prefix_better(s1, b, cs[0]));
    }
}

/// Every collected candidate is a usable prefix.
proof fn lemma_candidates_valid(s: Seq<u8>, i: int)
    ensures
        forall|j: int|
            0 <= j < candidates_from(s, i).len() ==> spec_valid_prefix(
                #[trigger] candidates_from(s, i)[j],
            ),
    decreases s.len() + 1 - i,
{
    if 0 <= i <= s.len() {
        let e = find_byte(s, i, NL);
        lemma_find_byte(s, i, NL);
        lemma_candidates_valid(s, e + 1);
        let line = s.subrange(i, e);
        let rest = candidates_from(s, e + 1);
        assert forall|j: int| 0 <= j < candidates_from(s, i).len() implies spec_valid_prefix(
            candidates_from(s, i)[j],
        ) by {
            match line_candidate(line) {
                Some(p) => {
                    if spec_valid_prefix(p) {
                        if j > 0 {
                            assert(candidates_from(s, i)[j] == rest[j - 1]);
                        } else {
                            assert(candidates_from(s, i)[0] == p);
                        }
                    } else {
                        assert(candidates_from(s, i)[j] == rest[j]);
                    }
                },
                None => {
                    assert(candidates_from(s, i)[j] == rest[j]);
                },
            }
        }
    }
}

/// Inference is stable under patching: the patched content collects the
/// same candidates with the same scores, so it infers the same prefix.
pub proof fn lemma_detect_patched(s: Seq<u8>, prefix: Seq<u8>, v: SemVersion)
    requires
        spec_valid_prefix(prefix),
    ensures
        spec_detect(patch_content_from(s, 0, prefix, v)) == spec_detect(s),
{
    let p2 = patch_content_from(s, 0, prefix, v);
    lemma_candidates_patched(s, 0, prefix, v);
    let cs = candidates_from(s, 0);
    if cs.len() > 0 {
        lemma_candidates_valid(s, 0);
        assert forall|c: Seq<u8>| cs.contains(c) implies prefix_score(p2, c) == prefix_score(
            s,
            c,
        ) by {
            let j = choose|j: int| 0 <= j < cs.len() && cs[j] == c;
            assert(spec_valid_prefix(cs[j]));
            lemma_score_patched(s, prefix, v, c);
        }
        lemma_best_of_equal_scores(s, p2, cs);
    }
}

/// ROUND TRIP with the inferred prefix — the original's only mode: on a
/// header whose inference picks `p`, whose extraction under `p` succeeds,
/// and whose macros sit one definition per line, whatever `write` produces
/// `read` yields the written version back; inference on the patched
/// content picks `p` again.
pub proof fn lemma_header_inferred_round_trip(
    f: ExportHeaderFile,
    s: Seq<u8>,
    p: Seq<u8>,
    v: SemVersion,
)
    requires
        f.macro_prefix is None,
        spec_detect(s) == Some(p),
        single_defs(s, 0, p),
        spec_extract(s, p) is Some,
    ensures
        f.spec_write(s, v) matches Some(w) && f.spec_read(w) == Some(v),
{
    lemma_candidates_valid(s, 0);
    let cs = candidates_from(s, 0);
    lemma_best_of_member(s, cs);
    let j = choose|j: int| 0 <= j < cs.len() && cs[j] == p;
    assert(spec_valid_prefix(cs[j]));
    lemma_detect_patched(s, p, v);
    lemma_header_round_trip(s, p, v);
}

/// Every definition of the three macros already carries the canonical
/// digits of the corresponding component of `v`.
pub open spec fn canonical_line(line: Seq<u8>, prefix: Seq<u8>, v: SemVersion) -> bool {
    &&& (line_def_span(line, macro_name(prefix, VersionPart::Major)) matches Some((a, b))
        ==> line.subrange(a, b) == spec_dec(v.major as nat))
    &&& (line_def_span(line, macro_name(prefix, VersionPart::Minor)) matches Some((a, b))
        ==> line.subrange(a, b) == spec_dec(v.minor as nat))
    &&& (line_def_span(line, macro_name(prefix, VersionPart::Patch)) matches Some((a, b))
        ==> line.subrange(a, b) == spec_dec(v.patch as nat))
}

/// `canonical_line` on every line from `i` on.
pub open spec fn canonical_values(s: Seq<u8>, i: int, prefix: Seq<u8>, v: SemVersion) -> bool
    decreases s.len() + 1 - i,
    via canonical_values_decreases
{
    if i < 0 || i > s.len() {
        true
    } else {
        let e = find_byte(s, i, NL);
        canonical_line(s.subrange(i, e), prefix, v) && canonical_values(s, e + 1, prefix, v)
    }
}

#[via_fn]
proof fn canonical_values_decreases(s: Seq<u8>, i: int, prefix: Seq<u8>, v: SemVersion) {
    if 0 <= i <= s.len() {
        lemma_find_byte(s, i, NL);
    }
}

/// Patching a definition that already holds the new digits is the
/// identity.
proof fn lemma_patch_part_canon(line: Seq<u8>, name: Seq<u8>, n: u64)
    requires
        line_def_span(line, name) matches Some((a, b)) ==> line.subrange(a, b) == spec_dec(
            n as nat,
        ),
    ensures
        patch_part_line(line, name, n) == line,
{
    match line_def_span(line, name) {
        Some((a, b)) => {
            let h = find_def(line, 0, name);
            lemma_find_def(line, 0, name);
            lemma_def_at_props(line, h, a, b, name);
            assert(patch_part_line(line, name, n) =~= line);
        },
        None => {},
    }
}

/// NO-OP WRITE for the header backend: when every macro definition already
/// carries the canonical digits of its component of `v`, patching returns
/// the content byte-identically.  A definition written with redundant
/// leading zeros reads back the same value but is normalized by a write,
/// so such content is left out of the statement.
pub proof fn lemma_header_write_noop(s: Seq<u8>, i: int, prefix: Seq<u8>, v: SemVersion)
    requires
        0 <= i <= s.len(),
        canonical_values(s, i, prefix, v),
    ensures
        patch_content_from(s, i, prefix, v) == s.subrange(i, s.len() as int),
    decreases s.len() + 1 - i,
{
    let e = find_byte(s, i, NL);
    lemma_find_byte(s, i, NL);
    let line = s.subrange(i, e);
    lemma_patch_part_canon(line, macro_name(prefix, VersionPart::Major), v.major);
    lemma_patch_part_canon(line, macro_name(prefix, VersionPart::Minor), v.minor);
    lemma_patch_part_canon(line, macro_name(prefix, VersionPart::Patch), v.patch);
    assert(patch_line_all(line, prefix, v) == line);
    if e < s.len() {
        lemma_header_write_noop(s, e + 1, prefix, v);
        assert(patch_content_from(s, i, prefix, v) =~= s.subrange(i, s.len() as int));
    } else {
        assert(patch_content_from(s, i, prefix, v) =~= s.subrange(i, s.len() as int));
    }
}

/// ROUND TRIP for the header backend: on a header laid out one macro
/// definition per line, as version headers are, patching every macro to
/// `v` and extracting with the same prefix yields exactly `v`.  The
/// hypothesis rules out a line that defines two of the three macros at
/// once; apart from it the law holds for every content and prefix.
pub proof fn lemma_header_round_trip(s: Seq<u8>, prefix: Seq<u8>, v: SemVersion)
    requires
        spec_valid_prefix(prefix),
        single_defs(s, 0, prefix),
        spec_extract(s, prefix) is Some,
    ensures
        spec_extract(patch_content_from(s, 0, prefix, v), prefix) == Some(v),
{
    lemma_extract_has_def(s, 0, macro_name(prefix, VersionPart::Major));
    lemma_extract_has_def(s, 0, macro_name(prefix, VersionPart::Minor));
    lemma_extract_has_def(s, 0, macro_name(prefix, VersionPart::Patch));
    lemma_extract_patched(s, 0, prefix, v, VersionPart::Major);
    lemma_extract_patched(s, 0, prefix, v, VersionPart::Minor);
    lemma_extract_patched(s, 0, prefix, v, VersionPart::Patch);
}

/// The round trip at the backend's own interface, for a source whose
/// macro prefix is set explicitly: whatever `write` produces, `read` on it
/// yields the written version.
pub proof fn lemma_header_source_round_trip(
    f: ExportHeaderFile,
    s: Seq<u8>,
    p: Seq<u8>,
    v: SemVersion,
)
    requires
        f.macro_prefix matches Some(q) && q@ == p,
        spec_valid_prefix(p),
        single_defs(s, 0, p),
        f.spec_read(s) is Some,
    ensures
        f.spec_write(s, v) matches Some(w) && f.spec_read(w) == Some(v),
{
    lemma_header_round_trip(s, p, v);
}

/// The directory names a recursive header search skips: build outputs,
/// version-control metadata and dependency caches.
pub open spec fn spec_skip_directory(name: Seq<u8>) -> bool {
    ||| name == seq![116u8, 97u8, 114u8, 103u8, 101u8, 116u8]  // target
    ||| name == seq![98u8, 117u8, 105u8, 108u8, 100u8]  // build
    ||| name == seq![111u8, 117u8, 116u8]  // out
    ||| name == seq![46u8, 103u8, 105u8, 116u8]  // .git
    ||| name == seq![
        110u8,
        111u8,
        100u8,
        101u8,
        95u8,
        109u8,
        111u8,
        100u8,
        117u8,
        108u8,
        101u8,
        115u8,
    ]  // node_modules
    ||| name == seq![95u8, 95u8, 112u8, 121u8, 99u8, 97u8, 99u8, 104u8, 101u8, 95u8, 95u8]  // __pycache__
    ||| name == seq![46u8, 99u8, 97u8, 99u8, 104u8, 101u8]  // .cache
}

/// Whether a directory is skipped while searching for the header file.
pub fn should_skip_directory(name: &[u8]) -> (r: bool)
    ensures
        r == spec_skip_directory(name@),
{
    let t1: Vec<u8> = vec![116u8, 97, 114, 103, 101, 116];
    let t2: Vec<u8> = vec![98u8, 117, 105, 108, 100];
    let t3: Vec<u8> = vec![111u8, 117, 116];
    let t4: Vec<u8> = vec![46u8, 103, 105, 116];
    let t5: Vec<u8> = vec![110u8, 111, 100, 101, 95, 109, 111, 100, 117, 108, 101, 115];
    let t6: Vec<u8> = vec![95u8, 95, 112, 121, 99, 97, 99, 104, 101, 95, 95];
    let t7: Vec<u8> = vec![46u8, 99, 97, 99, 104, 101];
    let r = bytes_eq(name, t1.as_slice()) || bytes_eq(name, t2.as_slice()) || bytes_eq(
        name,
        t3.as_slice(),
    ) || bytes_eq(name, t4.as_slice()) || bytes_eq(name, t5.as_slice()) || bytes_eq(
        name,
        t6.as_slice(),
    ) || bytes_eq(name, t7.as_slice());
    proof {
        assert(t1@ =~= seq![116u8, 97u8, 114u8, 103u8, 101u8, 116u8]);
        assert(t2@ =~= seq![98u8, 117u8, 105u8, 108u8, 100u8]);
        assert(t3@ =~= seq![111u8, 117u8, 116u8]);
        assert(t4@ =~= seq![46u8, 103u8, 105u8, 116u8]);
        assert(t5@ =~= seq![
            110u8,
            111u8,
            100u8,
            101u8,
            95u8,
            109u8,
            111u8,
            100u8,
            117u8,
            108u8,
            101u8,
            115u8,
        ]);
        assert(t6@ =~= seq![95u8, 95u8, 112u8, 121u8, 99u8, 97u8, 99u8, 104u8, 101u8, 95u8, 95u8]);
        assert(t7@ =~= seq![46u8, 99u8, 97u8, 99u8, 104u8, 101u8]);
    }
    r
}

/// One patch step: replace the digits of the first definition of `name`.
fn exec_patch_part(line: &[u8], name: &[u8], n: u64) -> (r: Vec<u8>)
    ensures
        r@ == patch_part_line(line@, name@, n),
{
    match exec_line_def_span(line, name) {
        Some((a, b)) => {
            let digits = render_dec(n);
            splice(line, a, b, digits.as_slice())
        },
        None => {
            let r = subvec(line, 0, line.len());
            proof {
                assert(line@.subrange(0, line@.len() as int) =~= line@);
            }
            r
        },
    }
}

} // verus!
