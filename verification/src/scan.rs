//! Section-scoped line scanning, the shared engine of the manifest and
//! registry backends.  The scanner walks the content line by line keeping a
//! current-section flag; inside the tracked section the first line of the
//! shape `version = "value"` is the target.  Reading parses the quoted value;
//! writing replaces exactly the value span and nothing else.
use vstd::prelude::*;

use crate::lit::{EQ, LBRACKET, NL, QUOTE};
use crate::lit::{class_kw, conanfile_kw, lit_class_kw, lit_conanfile_kw, lit_package_header,
    lit_version_key, package_header, version_key};
use crate::semver::{SemVersion, VersionError, spec_parse_version, spec_render, parse_version,
    render_version, spec_dec, lemma_dec_digits, lemma_parse_of_render, lemma_render_of_parse};
use crate::text::{contains_sub, exec_contains_sub, exec_find_byte, exec_match_at,
    exec_skip_spaces, find_byte, is_digit, is_space, lemma_find_byte, lemma_find_byte_inv,
    lemma_skip_spaces, lemma_skip_spaces_inv, match_at, skip_spaces, splice, subvec};

verus! {

/// Which section grammar a backend tracks: a bracketed `[package]` header,
/// or a class declaration that references the registry's base type.
#[derive(Clone, Copy, Debug, PartialEq, Eq, Structural)]
pub enum SectionStyle {
    ManifestPackage,
    RegistryClass,
}

/// Index just past the last non-space byte of `s` at or before `e`.
pub open spec fn rtrim_end(s: Seq<u8>, e: int) -> int
    decreases e,
{
    if e <= 0 {
        0
    } else if e > s.len() {
        s.len() as int
    } else if is_space(s[e - 1]) {
        rtrim_end(s, e - 1)
    } else {
        e
    }
}

pub proof fn lemma_rtrim_end_inv(s: Seq<u8>, e: int, k: int)
    requires
        0 <= k <= e <= s.len(),
        forall|j: int| k <= j < e ==> is_space(s[j]),
        k > 0 ==> !is_space(s[k - 1]),
    ensures
        rtrim_end(s, e) == k,
    decreases e - k,
{
    if k < e {
        assert(is_space(s[e - 1]));
        lemma_rtrim_end_inv(s, e - 1, k);
    }
}

pub fn exec_rtrim_end(s: &[u8], e: usize) -> (r: usize)
    requires
        e <= s.len(),
    ensures
        r == rtrim_end(s@, e as int),
        r <= e,
{
    let mut r: usize = e;
    while r > 0 && crate::text::byte_is_space(s[r - 1])
        invariant
            0 <= r <= e <= s.len(),
            forall|j: int| r <= j < e ==> is_space(s@[j]),
        decreases r,
    {
        r -= 1;
    }
    proof {
        lemma_rtrim_end_inv(s@, e as int, r as int);
    }
    r
}

/// A line that opens or closes a section: bracketed for the manifest
/// grammar, `class`-led for the registry grammar.
pub open spec fn is_header_line(style: SectionStyle, line: Seq<u8>) -> bool {
    let k = skip_spaces(line, 0);
    match style {
        SectionStyle::ManifestPackage => k < line.len() && line[k] == LBRACKET,
        SectionStyle::RegistryClass => match_at(line, k, class_kw()),
    }
}

/// Whether a header line enters the tracked section: the trimmed line is
/// exactly `[package]`, or the class declaration references `ConanFile`.
pub open spec fn header_enters(style: SectionStyle, line: Seq<u8>) -> bool {
    match style {
        SectionStyle::ManifestPackage => {
            let k = skip_spaces(line, 0);
            let e = rtrim_end(line, line.len() as int);
            k <= e && line.subrange(k, e) == package_header()
        },
        SectionStyle::RegistryClass => contains_sub(line, conanfile_kw()),
    }
}

pub fn exec_is_header_line(style: SectionStyle, line: &[u8]) -> (r: bool)
    ensures
        r == is_header_line(style, line@),
{
    let k = exec_skip_spaces(line, 0);
    match style {
        SectionStyle::ManifestPackage => k < line.len() && line[k] == LBRACKET,
        SectionStyle::RegistryClass => {
            let kw = lit_class_kw();
            exec_match_at(line, k, kw.as_slice())
        },
    }
}

pub fn exec_header_enters(style: SectionStyle, line: &[u8]) -> (r: bool)
    ensures
        r == header_enters(style, line@),
{
    match style {
        SectionStyle::ManifestPackage => {
            let k = exec_skip_spaces(line, 0);
            let e = exec_rtrim_end(line, line.len());
            if k <= e {
                let t = subvec(line, k, e);
                let hdr = lit_package_header();
                crate::text::bytes_eq(t.as_slice(), hdr.as_slice())
            } else {
                false
            }
        },
        SectionStyle::RegistryClass => {
            let kw = lit_conanfile_kw();
            exec_contains_sub(line, kw.as_slice())
        },
    }
}

/// The value span of a line of the shape
/// `<spaces> version <spaces> = <spaces> "<value>" <spaces>`
/// where the value is non-empty and holds no quote: the indices of the value
/// between the quotes, or `None` when the line has another shape.
pub open spec fn version_span_in_line(line: Seq<u8>) -> Option<(int, int)> {
    let k = skip_spaces(line, 0);
    if !match_at(line, k, version_key()) {
        None
    } else {
        let p = skip_spaces(line, k + 7);
        if p >= line.len() || line[p] != EQ {
            None
        } else {
            let q = skip_spaces(line, p + 1);
            if q >= line.len() || line[q] != QUOTE {
                None
            } else {
                let d = find_byte(line, q + 1, QUOTE);
                if d >= line.len() || d == q + 1 {
                    None
                } else if skip_spaces(line, d + 1) == line.len() {
                    Some((q + 1, d))
                } else {
                    None
                }
            }
        }
    }
}

pub fn exec_version_span_in_line(line: &[u8]) -> (r: Option<(usize, usize)>)
    requires
        line@.len() < usize::MAX,
    ensures
        match r {
            Some((a, b)) => version_span_in_line(line@) == Some((a as int, b as int)),
            None => version_span_in_line(line@) is None,
        },
{
    let k = exec_skip_spaces(line, 0);
    let key = lit_version_key();
    if !exec_match_at(line, k, key.as_slice()) {
        return None;
    }
    let p = exec_skip_spaces(line, k + 7);
    if p >= line.len() || line[p] != EQ {
        return None;
    }
    let q = exec_skip_spaces(line, p + 1);
    if q >= line.len() || line[q] != QUOTE {
        return None;
    }
    let d = exec_find_byte(line, q + 1, QUOTE);
    if d >= line.len() || d == q + 1 {
        return None;
    }
    if exec_skip_spaces(line, d + 1) == line.len() {
        Some((q + 1, d))
    } else {
        None
    }
}

/// Structural facts about a recognized value span.
pub proof fn lemma_version_span_props(line: Seq<u8>, a: int, b: int)
    requires
        version_span_in_line(line) == Some((a, b)),
    ensures
        0 < a < b < line.len(),
        line[a - 1] == QUOTE,
        line[b] == QUOTE,
        forall|j: int| a <= j < b ==> line[j] != QUOTE,
        skip_spaces(line, 0) + 7 <= a - 2,
{
    let k = skip_spaces(line, 0);
    lemma_skip_spaces(line, 0);
    let p = skip_spaces(line, k + 7);
    lemma_skip_spaces(line, k + 7);
    let q = skip_spaces(line, p + 1);
    lemma_skip_spaces(line, p + 1);
    let d = find_byte(line, q + 1, QUOTE);
    lemma_find_byte(line, q + 1, QUOTE);
}

/// The section scan itself: from line start `i` with the section flag
/// `active`, the absolute span of the value of the first matching line, or
/// `None` when no line matches.
pub open spec fn scan_section(s: Seq<u8>, style: SectionStyle, i: int, active: bool) -> Option<
    (int, int),
>
    decreases s.len() + 1 - i,
    via scan_section_decreases
{
    if i < 0 || i > s.len() {
        None
    } else {
        let e = find_byte(s, i, NL);
        let line = s.subrange(i, e);
        if is_header_line(style, line) {
            scan_section(s, style, e + 1, header_enters(style, line))
        } else if active && version_span_in_line(line) is Some {
            let (a, b) = version_span_in_line(line)->Some_0;
            Some((i + a, i + b))
        } else {
            scan_section(s, style, e + 1, active)
        }
    }
}

#[via_fn]
proof fn scan_section_decreases(s: Seq<u8>, style: SectionStyle, i: int, active: bool) {
    if 0 <= i <= s.len() {
        lemma_find_byte(s, i, NL);
    }
}

/// A found span lies between the start of the scan and the end of content.
pub proof fn lemma_scan_ge(s: Seq<u8>, style: SectionStyle, i: int, active: bool)
    requires
        scan_section(s, style, i, active) is Some,
    ensures
        i <= scan_section(s, style, i, active)->Some_0.0,
        scan_section(s, style, i, active)->Some_0.0 < scan_section(s, style, i, active)->Some_0.1,
        scan_section(s, style, i, active)->Some_0.1 < s.len(),
    decreases s.len() + 1 - i,
{
    let e = find_byte(s, i, NL);
    lemma_find_byte(s, i, NL);
    let line = s.subrange(i, e);
    if is_header_line(style, line) {
        lemma_scan_ge(s, style, e + 1, header_enters(style, line));
    } else if active && version_span_in_line(line) is Some {
        let (a, b) = version_span_in_line(line)->Some_0;
        lemma_version_span_props(line, a, b);
    } else {
        lemma_scan_ge(s, style, e + 1, active);
    }
}

/// Find the value span of the first matching line, scanning from the top
/// with the section flag initially clear.
pub fn find_version_span(style: SectionStyle, s: &[u8]) -> (r: Option<(usize, usize)>)
    requires
        s@.len() < usize::MAX,
    ensures
        match r {
            Some((a, b)) => scan_section(s@, style, 0, false) == Some((a as int, b as int)),
            None => scan_section(s@, style, 0, false) is None,
        },
{
    let mut i: usize = 0;
    let mut active: bool = false;
    loop
        invariant
            0 <= i <= s@.len() + 1,
            s@.len() < usize::MAX,
            scan_section(s@, style, 0, false) == scan_section(s@, style, i as int, active),
        decreases s@.len() + 1 - i,
    {
        if i > s.len() {
            return None;
        }
        let e = exec_find_byte(s, i, NL);
        let line = subvec(s, i, e);
        if exec_is_header_line(style, line.as_slice()) {
            active = exec_header_enters(style, line.as_slice());
        } else if active {
            match exec_version_span_in_line(line.as_slice()) {
                Some((a, b)) => {
                    return Some((i + a, i + b));
                },
                None => {},
            }
        }
        i = e + 1;
    }
}

/// What `read` yields on given content: the parse of the value of the first
/// matching line, or nothing when no line matches or the value is not a
/// canonical `X.Y.Z`.
pub open spec fn spec_source_read(style: SectionStyle, s: Seq<u8>) -> Option<SemVersion> {
    match scan_section(s, style, 0, false) {
        Some((a, b)) => spec_parse_version(s.subrange(a, b)),
        None => None,
    }
}

/// What `write` produces on given content: the value span of the first
/// matching line replaced by the rendering of `v`; content without a
/// matching line is returned unchanged.
pub open spec fn spec_source_write(style: SectionStyle, s: Seq<u8>, v: SemVersion) -> Seq<u8> {
    match scan_section(s, style, 0, false) {
        Some((a, b)) => s.subrange(0, a) + spec_render(v) + s.subrange(b, s.len() as int),
        None => s,
    }
}

/// Read the version embedded in section-scoped content.
pub fn source_read(style: SectionStyle, content: &[u8]) -> (r: Result<SemVersion, VersionError>)
    requires
        content@.len() < usize::MAX,
    ensures
        match spec_source_read(style, content@) {
            Some(v) => r == Ok::<SemVersion, VersionError>(v),
            None => r == Err::<SemVersion, VersionError>(VersionError::ParseError),
        },
{
    match find_version_span(style, content) {
        Some((a, b)) => {
            proof {
                lemma_scan_ge(content@, style, 0, false);
            }
            match parse_version(&content[a..b]) {
                Some(v) => Ok(v),
                None => Err(VersionError::ParseError),
            }
        },
        None => Err(VersionError::ParseError),
    }
}

/// Rewrite section-scoped content to hold version `v`, replacing only the
/// value span of the first matching line.
pub fn source_write(style: SectionStyle, content: &[u8], v: &SemVersion) -> (r: Vec<u8>)
    requires
        content@.len() < usize::MAX,
    ensures
        r@ == spec_source_write(style, content@, *v),
{
    match find_version_span(style, content) {
        Some((a, b)) => {
            proof {
                lemma_scan_ge(content@, style, 0, false);
            }
            let rv = render_version(v);
            splice(content, a, b, rv.as_slice())
        },
        None => {
            let r = subvec(content, 0, content.len());
            proof {
                assert(content@.subrange(0, content@.len() as int) =~= content@);
            }
            r
        },
    }
}

/// Every byte of a rendered version is a digit or a dot.
pub proof fn lemma_render_bytes(v: SemVersion)
    ensures
        spec_render(v).len() >= 5,
        forall|j: int|
            0 <= j < spec_render(v).len() ==> (is_digit(spec_render(v)[j]) || spec_render(v)[j]
                == crate::lit::DOT),
{
    lemma_dec_digits(v.major as nat);
    lemma_dec_digits(v.minor as nat);
    lemma_dec_digits(v.patch as nat);
    let a = spec_dec(v.major as nat);
    let b = spec_dec(v.minor as nat);
    let c = spec_dec(v.patch as nat);
    let s = spec_render(v);
    assert forall|j: int| 0 <= j < s.len() implies (is_digit(s[j]) || s[j] == crate::lit::DOT) by {
        let la = a.len() as int;
        let lb = b.len() as int;
        if j < la {
            assert(s[j] == a[j]);
        } else if j == la {
        } else if j < la + 1 + lb {
            assert(s[j] == b[j - la - 1]);
        } else if j == la + 1 + lb {
        } else {
            assert(s[j] == c[j - la - lb - 2]);
        }
    }
}

/// Splicing a new quote-free, non-empty value into a recognized line leaves
/// a line whose value span is the new value, and which is still no header.
pub proof fn lemma_version_span_splice(line: Seq<u8>, a: int, b: int, r: Seq<u8>)
    requires
        version_span_in_line(line) == Some((a, b)),
        r.len() > 0,
        forall|j: int| 0 <= j < r.len() ==> r[j] != QUOTE && !is_space(r[j]),
    ensures
        version_span_in_line(line.subrange(0, a) + r + line.subrange(b, line.len() as int))
            == Some((a, a + r.len())),
        !is_header_line(SectionStyle::ManifestPackage, line.subrange(0, a) + r + line.subrange(
            b,
            line.len() as int,
        )),
        !is_header_line(SectionStyle::RegistryClass, line.subrange(0, a) + r + line.subrange(
            b,
            line.len() as int,
        )),
        !is_header_line(SectionStyle::ManifestPackage, line),
        !is_header_line(SectionStyle::RegistryClass, line),
{
    let l2 = line.subrange(0, a) + r + line.subrange(b, line.len() as int);
    let k = skip_spaces(line, 0);
    lemma_skip_spaces(line, 0);
    let p = skip_spaces(line, k + 7);
    lemma_skip_spaces(line, k + 7);
    let q = skip_spaces(line, p + 1);
    lemma_skip_spaces(line, p + 1);
    let d = find_byte(line, q + 1, QUOTE);
    lemma_find_byte(line, q + 1, QUOTE);
    lemma_version_span_props(line, a, b);
    lemma_skip_spaces(line, d + 1);
    assert(a == q + 1 && b == d);
    let delta = r.len() - (b - a);
    assert(forall|j: int| 0 <= j < a ==> l2[j] == line[j]);
    assert(forall|j: int| 0 <= j < r.len() ==> l2[a + j] == r[j]);
    assert(l2.len() == line.len() + delta);
    assert(forall|j: int| a + r.len() <= j < l2.len() ==> l2[j] == line[j - delta]);
    // the prefix of the line is untouched, so the same positions are found
    lemma_skip_spaces_inv(l2, 0, k);
    assert(match_at(l2, k, version_key()));
    lemma_skip_spaces_inv(l2, k + 7, p);
    lemma_skip_spaces_inv(l2, p + 1, q);
    // the new value holds no quote, so the closing quote is right after it
    let d2 = a + r.len();
    assert(l2[d2] == line[b]);
    lemma_find_byte_inv(l2, q + 1, QUOTE, d2);
    // the tail after the closing quote is the old all-space tail, shifted
    assert forall|j: int| d2 + 1 <= j < l2.len() implies is_space(l2[j]) by {
        assert(l2[j] == line[j - delta]);
        assert(d + 1 <= j - delta < line.len());
    }
    lemma_skip_spaces_inv(l2, d2 + 1, l2.len() as int);
    assert(version_span_in_line(l2) == Some((a, d2)));
    // neither line is a section header: the first non-space byte starts
    // `version`, which neither begins a bracket nor spells `class`
    assert(line[k] == version_key()[0]);
    assert(l2[k] == version_key()[0]);
    assert(!match_at(line, k, class_kw())) by {
        assert(class_kw()[0] != version_key()[0]);
    }
    assert(!match_at(l2, k, class_kw())) by {
        assert(class_kw()[0] != version_key()[0]);
    }
}

/// The heart of the round trip: after splicing a rendered version into the
/// span the scan found, the scan finds exactly the spliced span again.
#[verifier::rlimit(60)]
pub proof fn lemma_scan_patched(
    s: Seq<u8>,
    style: SectionStyle,
    i: int,
    active: bool,
    a: int,
    b: int,
    r: Seq<u8>,
)
    requires
        scan_section(s, style, i, active) == Some((a, b)),
        r.len() > 0,
        forall|j: int| 0 <= j < r.len() ==> r[j] != QUOTE && !is_space(r[j]) && r[j] != NL,
    ensures
        scan_section(s.subrange(0, a) + r + s.subrange(b, s.len() as int), style, i, active)
            == Some((a, a + r.len())),
    decreases s.len() + 1 - i,
{
    let s2 = s.subrange(0, a) + r + s.subrange(b, s.len() as int);
    lemma_scan_ge(s, style, i, active);
    assert(0 <= i <= s.len());
    let e = find_byte(s, i, NL);
    lemma_find_byte(s, i, NL);
    let line = s.subrange(i, e);
    let delta = r.len() - (b - a);
    assert(forall|j: int| 0 <= j < a ==> s2[j] == s[j]);
    assert(forall|j: int| 0 <= j < r.len() ==> s2[a + j] == r[j]);
    assert(forall|j: int| b <= j < s.len() ==> s2[j + delta] == s[j]);
    if is_header_line(style, line) || !(active && version_span_in_line(line) is Some) {
        // the scan moves on; the matched line is further down
        lemma_scan_ge(s, style, e + 1, if is_header_line(style, line) {
            header_enters(style, line)
        } else {
            active
        });
        assert(e + 1 <= a);
        assert(e < s.len()) by {
            if e == s.len() {
                assert(scan_section(s, style, e + 1, header_enters(style, line)) is None);
                assert(scan_section(s, style, e + 1, active) is None);
            }
        }
        lemma_find_byte_inv(s2, i, NL, e);
        assert(s2.subrange(i, e) =~= line);
        if is_header_line(style, line) {
            lemma_scan_patched(s, style, e + 1, header_enters(style, line), a, b, r);
        } else {
            lemma_scan_patched(s, style, e + 1, active, a, b, r);
        }
    } else {
        // this is the matched line
        let (ra, rb) = version_span_in_line(line)->Some_0;
        lemma_version_span_props(line, ra, rb);
        assert(a == i + ra && b == i + rb);
        assert(b < e);
        let e2 = e + delta;
        // the patched line still ends at the first newline
        assert forall|j: int| i <= j < e2 implies s2[j] != NL by {
            if j < a {
                assert(s2[j] == s[j]);
            } else if j < a + r.len() {
                assert(s2[j] == r[j - a]);
            } else {
                assert(s2[j] == s[j - delta]);
            }
        }
        assert(e2 <= s2.len());
        if e < s.len() {
            assert(s2[e2] == s[e] && s[e] == NL);
        }
        lemma_find_byte_inv(s2, i, NL, e2);
        let line2 = s2.subrange(i, e2);
        assert(line2 =~= line.subrange(0, ra) + r + line.subrange(rb, line.len() as int));
        lemma_version_span_splice(line, ra, rb, r);
        assert(version_span_in_line(line2) == Some((ra, ra + r.len())));
        assert(!is_header_line(style, line2));
        assert(scan_section(s2, style, i, active) == Some((i + ra, i + ra + r.len())));
    }
}

/// ROUND TRIP: on content where the scan finds a version line, writing any
/// version `v` and reading the result yields exactly `v` back.
pub proof fn lemma_source_round_trip(style: SectionStyle, s: Seq<u8>, v: SemVersion)
    requires
        scan_section(s, style, 0, false) is Some,
    ensures
        spec_source_read(style, spec_source_write(style, s, v)) == Some(v),
{
    let (a, b) = scan_section(s, style, 0, false)->Some_0;
    lemma_scan_ge(s, style, 0, false);
    let r = spec_render(v);
    lemma_render_bytes(v);
    assert forall|j: int| 0 <= j < r.len() implies r[j] != QUOTE && !is_space(r[j]) && r[j]
        != NL by {
        assert(is_digit(r[j]) || r[j] == crate::lit::DOT);
    }
    lemma_scan_patched(s, style, 0, false, a, b, r);
    let s2 = spec_source_write(style, s, v);
    assert(s2 == s.subrange(0, a) + r + s.subrange(b, s.len() as int));
    assert(s2.subrange(a, a + r.len()) =~= r);
    lemma_parse_of_render(v);
}

/// NO-OP WRITE: writing the version the content already holds returns the
/// content byte-identically.
pub proof fn lemma_source_write_noop(style: SectionStyle, s: Seq<u8>, v: SemVersion)
    requires
        spec_source_read(style, s) == Some(v),
    ensures
        spec_source_write(style, s, v) == s,
{
    let (a, b) = scan_section(s, style, 0, false)->Some_0;
    lemma_scan_ge(s, style, 0, false);
    lemma_render_of_parse(s.subrange(a, b), v);
    assert(spec_source_write(style, s, v) =~= s);
}

/// CONTENT PRESERVATION: a write changes nothing before the value span and
/// nothing after it; every byte outside the span of the first matching line
/// inside the tracked section is kept.
pub proof fn lemma_source_write_preserves(style: SectionStyle, s: Seq<u8>, v: SemVersion)
    requires
        scan_section(s, style, 0, false) is Some,
    ensures
        ({
            let (a, b) = scan_section(s, style, 0, false)->Some_0;
            let w = spec_source_write(style, s, v);
            &&& w.len() == a + spec_render(v).len() + (s.len() - b)
            &&& w.subrange(0, a) == s.subrange(0, a)
            &&& w.subrange(a + spec_render(v).len() as int, w.len() as int) == s.subrange(
                b,
                s.len() as int,
            )
            &&& w.subrange(a, a + spec_render(v).len() as int) == spec_render(v)
        }),
{
    let (a, b) = scan_section(s, style, 0, false)->Some_0;
    lemma_scan_ge(s, style, 0, false);
    let w = spec_source_write(style, s, v);
    assert(w.subrange(0, a) =~= s.subrange(0, a));
    assert(w.subrange(a + spec_render(v).len() as int, w.len() as int) =~= s.subrange(
        b,
        s.len() as int,
    ));
    assert(w.subrange(a, a + spec_render(v).len() as int) =~= spec_render(v));
}

} // verus!
