//! The version value itself: a (major, minor, patch) triple, its canonical
//! decimal rendering `X.Y.Z`, the strict parser for that form, the
//! component-wise order, bumping, and target selection.
use vstd::prelude::*;

use crate::lit::DOT;
use crate::text::{digit_val, exec_find_byte, find_byte, is_digit};

verus! {

/// A semantic version: non-negative integers ordered lexicographically by
/// (major, minor, patch).  No pre-release or build metadata is modeled.
#[derive(Clone, Copy, Debug, PartialEq, Eq, Structural)]
pub struct SemVersion {
    pub major: u64,
    pub minor: u64,
    pub patch: u64,
}

/// The error taxonomy of the engine.  `NotFound`: no candidate file exists.
/// `ParseError`: a file exists but holds no well-formed version token.
/// `IoError`: reading or writing failed.  `InvalidExplicitVersion`: the one
/// fatal error, a malformed explicitly supplied version.
#[derive(Clone, Copy, Debug, PartialEq, Eq, Structural)]
pub enum VersionError {
    NotFound,
    ParseError,
    IoError,
    InvalidExplicitVersion,
}

/// Which component a reconciliation bumps, if any.
#[derive(Clone, Copy, Debug, PartialEq, Eq, Structural)]
pub enum BumpKind {
    Keep,
    Patch,
    Minor,
    Major,
}

impl SemVersion {
    pub fn new(major: u64, minor: u64, patch: u64) -> (r: Self)
        ensures
            r == (SemVersion { major, minor, patch }),
    {
        SemVersion { major, minor, patch }
    }

    /// Component-wise lexicographic order.
    pub open spec fn spec_le(self, o: SemVersion) -> bool {
        ||| self.major < o.major
        ||| (self.major == o.major && self.minor < o.minor)
        ||| (self.major == o.major && self.minor == o.minor && self.patch <= o.patch)
    }

    pub fn le(&self, o: &SemVersion) -> (r: bool)
        ensures
            r == self.spec_le(*o),
    {
        self.major < o.major || (self.major == o.major && (self.minor < o.minor || (self.minor
            == o.minor && self.patch <= o.patch)))
    }
}

/// Decimal digits of `n`, most significant first, no leading zero.
pub open spec fn spec_dec(n: nat) -> Seq<u8>
    decreases n,
{
    if n < 10 {
        seq![(48 + n) as u8]
    } else {
        spec_dec(n / 10).push((48 + n % 10) as u8)
    }
}

/// The numeric value of a digit string, read left to right.
pub open spec fn dec_value(s: Seq<u8>) -> nat
    decreases s.len(),
{
    if s.len() == 0 {
        0
    } else {
        dec_value(s.drop_last()) * 10 + digit_val(s.last())
    }
}

/// A canonical decimal: non-empty, all digits, no leading zero.
pub open spec fn is_canon_digits(s: Seq<u8>) -> bool {
    &&& s.len() >= 1
    &&& (forall|j: int| 0 <= j < s.len() ==> is_digit(s[j]))
    &&& (s.len() > 1 ==> s[0] != 48)
}

pub proof fn lemma_dec_digits(n: nat)
    ensures
        spec_dec(n).len() >= 1,
        forall|j: int| 0 <= j < spec_dec(n).len() ==> is_digit(spec_dec(n)[j]),
        spec_dec(n)[0] == 48 <==> n == 0,
        is_canon_digits(spec_dec(n)),
    decreases n,
{
    if n >= 10 {
        lemma_dec_digits(n / 10);
        assert(spec_dec(n)[0] == spec_dec(n / 10)[0]);
    }
}

pub proof fn lemma_dec_value_of_dec(n: nat)
    ensures
        dec_value(spec_dec(n)) == n,
    decreases n,
{
    reveal_with_fuel(dec_value, 3);
    if n < 10 {
        assert(spec_dec(n).drop_last() =~= Seq::<u8>::empty());
        assert(digit_val((48 + n) as u8) == n);
    } else {
        lemma_dec_value_of_dec(n / 10);
        lemma_dec_digits(n / 10);
        assert(spec_dec(n).drop_last() =~= spec_dec(n / 10));
        assert(spec_dec(n).last() == (48 + n % 10) as u8);
        assert(digit_val((48 + n % 10) as u8) == n % 10);
        assert(dec_value(spec_dec(n)) == (n / 10) * 10 + n % 10);
        vstd::arithmetic::div_mod::lemma_fundamental_div_mod(n as int, 10);
    }
}

/// A canonical digit string with a non-zero first digit has value at least 1.
proof fn lemma_dec_value_pos(s: Seq<u8>)
    requires
        s.len() >= 1,
        forall|j: int| 0 <= j < s.len() ==> is_digit(s[j]),
        s[0] != 48,
    ensures
        dec_value(s) >= 1,
    decreases s.len(),
{
    if s.len() == 1 {
        assert(is_digit(s[0]));
    } else {
        lemma_dec_value_pos(s.drop_last());
    }
}

/// Rendering the value of a canonical digit string gives the string back.
pub proof fn lemma_dec_of_dec_value(s: Seq<u8>)
    requires
        is_canon_digits(s),
    ensures
        spec_dec(dec_value(s)) == s,
    decreases s.len(),
{
    if s.len() == 1 {
        assert(is_digit(s[0]));
        assert(dec_value(s.drop_last()) == 0);
        assert(spec_dec(dec_value(s)) =~= s);
    } else {
        let p = s.drop_last();
        assert(p[0] == s[0]);
        assert(forall|j: int| 0 <= j < p.len() ==> is_digit(p[j]));
        lemma_dec_of_dec_value(p);
        lemma_dec_value_pos(p);
        let pv = dec_value(p);
        let d = digit_val(s.last());
        let v = dec_value(s);
        assert(v == pv * 10 + d);
        assert(v >= 10) by (nonlinear_arith)
            requires
                pv >= 1,
                d >= 0,
                v == pv * 10 + d,
        ;
        assert(v / 10 == pv && v % 10 == d) by (nonlinear_arith)
            requires
                v == pv * 10 + d,
                0 <= d < 10,
                pv >= 0,
        ;
        assert(is_digit(s.last()));
        assert((48 + v % 10) as u8 == s.last());
        assert(spec_dec(v) == spec_dec(pv).push(s.last()));
        assert(spec_dec(pv).push(s.last()) =~= s);
    }
}

/// The value of a digit string only grows as more digits are read.
pub proof fn lemma_dec_value_mono(s: Seq<u8>, i: int, j: int)
    requires
        0 <= i <= j <= s.len(),
    ensures
        dec_value(s.subrange(0, i)) <= dec_value(s.subrange(0, j)),
    decreases j - i,
{
    if i < j {
        lemma_dec_value_mono(s, i, j - 1);
        let a = s.subrange(0, j - 1);
        let b = s.subrange(0, j);
        assert(b.drop_last() =~= a);
        assert(dec_value(b) == dec_value(a) * 10 + digit_val(b.last()));
        assert(dec_value(a) * 10 >= dec_value(a)) by (nonlinear_arith)
            requires
                dec_value(a) >= 0,
        ;
    }
}

/// Strict parse of one canonical decimal component that fits in `u64`.
pub open spec fn spec_parse_dec(s: Seq<u8>) -> Option<u64> {
    if is_canon_digits(s) && dec_value(s) <= u64::MAX {
        Some(dec_value(s) as u64)
    } else {
        None
    }
}

/// Lenient parse: leading zeros allowed, as the C-header integer fields use.
pub open spec fn spec_parse_dec_lenient(s: Seq<u8>) -> Option<u64> {
    if s.len() >= 1 && (forall|j: int| 0 <= j < s.len() ==> is_digit(s[j])) && dec_value(s)
        <= u64::MAX {
        Some(dec_value(s) as u64)
    } else {
        None
    }
}

/// Parse a digit string; `canonical_only` additionally rejects leading zeros.
pub fn parse_dec(s: &[u8], canonical_only: bool) -> (r: Option<u64>)
    ensures
        canonical_only ==> r == spec_parse_dec(s@),
        !canonical_only ==> r == spec_parse_dec_lenient(s@),
{
    if s.len() == 0 {
        return None;
    }
    if canonical_only && s.len() > 1 && s[0] == 48 {
        return None;
    }
    let mut acc: u64 = 0;
    let mut i: usize = 0;
    while i < s.len()
        invariant
            0 <= i <= s.len(),
            s@.len() >= 1,
            forall|j: int| 0 <= j < i ==> is_digit(s@[j]),
            acc == dec_value(s@.subrange(0, i as int)),
        decreases s.len() - i,
    {
        let b = s[i];
        if !(48 <= b && b <= 57) {
            return None;
        }
        let d: u64 = (b - 48) as u64;
        let step = match acc.checked_mul(10) {
            Some(x) => x.checked_add(d),
            None => None,
        };
        match step {
            Some(x) => {
                proof {
                    assert(s@.subrange(0, i + 1).drop_last() =~= s@.subrange(0, i as int));
                }
                acc = x;
                i += 1;
            },
            None => {
                proof {
                    assert(s@.subrange(0, i + 1).drop_last() =~= s@.subrange(0, i as int));
                    assert(dec_value(s@.subrange(0, i + 1)) > u64::MAX);
                    lemma_dec_value_mono(s@, i + 1, s@.len() as int);
                    assert(s@.subrange(0, s@.len() as int) =~= s@);
                }
                return None;
            },
        }
    }
    proof {
        assert(s@.subrange(0, s@.len() as int) =~= s@);
    }
    Some(acc)
}

/// The canonical text of a version: `major.minor.patch` in decimal.
pub open spec fn spec_render(v: SemVersion) -> Seq<u8> {
    spec_dec(v.major as nat) + seq![DOT] + spec_dec(v.minor as nat) + seq![DOT] + spec_dec(
        v.patch as nat,
    )
}

/// Decimal digits of `n`, as executable bytes.
pub fn render_dec(n: u64) -> (r: Vec<u8>)
    ensures
        r@ == spec_dec(n as nat),
{
    let mut v: Vec<u8> = Vec::new();
    let mut cur: u64 = n;
    while cur >= 10
        invariant
            spec_dec(n as nat) == spec_dec(cur as nat) + v@,
        decreases cur,
    {
        let d: u8 = (48 + (cur % 10)) as u8;
        proof {
            assert(spec_dec(cur as nat) == spec_dec((cur as nat) / 10).push(d));
            assert(spec_dec((cur as nat) / 10).push(d) + v@ =~= spec_dec((cur as nat) / 10) + (
            seq![d] + v@));
        }
        v.insert(0, d);
        cur = cur / 10;
    }
    let d: u8 = (48 + cur) as u8;
    proof {
        assert(spec_dec(cur as nat) =~= seq![d]);
        assert(seq![d] + v@ =~= spec_dec(cur as nat) + v@);
    }
    v.insert(0, d);
    v
}

/// Render a version as its canonical `X.Y.Z` bytes.
pub fn render_version(v: &SemVersion) -> (r: Vec<u8>)
    ensures
        r@ == spec_render(*v),
{
    let mut r = render_dec(v.major);
    r.push(DOT);
    let mut mi = render_dec(v.minor);
    r.append(&mut mi);
    r.push(DOT);
    let mut pa = render_dec(v.patch);
    r.append(&mut pa);
    proof {
        assert(r@ =~= spec_render(*v));
    }
    r
}

/// Strict parse of `X.Y.Z`: exactly two dots, each component canonical
/// decimal fitting `u64`.  Returns the unique version whose rendering is `s`,
/// if any.
pub open spec fn spec_parse_version(s: Seq<u8>) -> Option<SemVersion> {
    let d1 = find_byte(s, 0, DOT);
    let d2 = find_byte(s, d1 + 1, DOT);
    let d3 = find_byte(s, d2 + 1, DOT);
    if d1 == s.len() || d2 == s.len() || d3 != s.len() {
        None
    } else {
        match (
            spec_parse_dec(s.subrange(0, d1)),
            spec_parse_dec(s.subrange(d1 + 1, d2)),
            spec_parse_dec(s.subrange(d2 + 1, s.len() as int)),
        ) {
            (Some(ma), Some(mi), Some(pa)) => Some(SemVersion { major: ma, minor: mi, patch: pa }),
            _ => None,
        }
    }
}

pub fn parse_version(s: &[u8]) -> (r: Option<SemVersion>)
    ensures
        r == spec_parse_version(s@),
{
    let d1 = exec_find_byte(s, 0, DOT);
    if d1 == s.len() {
        return None;
    }
    let d2 = exec_find_byte(s, d1 + 1, DOT);
    if d2 == s.len() {
        return None;
    }
    let d3 = exec_find_byte(s, d2 + 1, DOT);
    if d3 != s.len() {
        return None;
    }
    let ma = parse_dec(&s[0..d1], true);
    let mi = parse_dec(&s[d1 + 1..d2], true);
    let pa = parse_dec(&s[d2 + 1..s.len()], true);
    match (ma, mi, pa) {
        (Some(ma), Some(mi), Some(pa)) => Some(SemVersion { major: ma, minor: mi, patch: pa }),
        _ => None,
    }
}

/// Parsing the rendering of any version yields that version back.
pub proof fn lemma_parse_of_render(v: SemVersion)
    ensures
        spec_parse_version(spec_render(v)) == Some(v),
{
    let s = spec_render(v);
    let a = spec_dec(v.major as nat);
    let b = spec_dec(v.minor as nat);
    let c = spec_dec(v.patch as nat);
    lemma_dec_digits(v.major as nat);
    lemma_dec_digits(v.minor as nat);
    lemma_dec_digits(v.patch as nat);
    let la = a.len() as int;
    let lb = b.len() as int;
    let lc = c.len() as int;
    assert(s.len() == la + lb + lc + 2);
    assert(forall|j: int| 0 <= j < la ==> s[j] == a[j]);
    assert(s[la] == DOT);
    assert(forall|j: int| 0 <= j < lb ==> s[la + 1 + j] == b[j]);
    assert(s[la + 1 + lb] == DOT);
    assert(forall|j: int| 0 <= j < lc ==> s[la + lb + 2 + j] == c[j]);
    crate::text::lemma_find_byte_inv(s, 0, DOT, la);
    crate::text::lemma_find_byte_inv(s, la + 1, DOT, la + 1 + lb);
    crate::text::lemma_find_byte_inv(s, la + lb + 2, DOT, s.len() as int);
    assert(s.subrange(0, la) =~= a);
    assert(s.subrange(la + 1, la + 1 + lb) =~= b);
    assert(s.subrange(la + lb + 2, s.len() as int) =~= c);
    lemma_dec_value_of_dec(v.major as nat);
    lemma_dec_value_of_dec(v.minor as nat);
    lemma_dec_value_of_dec(v.patch as nat);
}

/// A successful strict parse means the input is exactly the canonical
/// rendering: the parser accepts nothing else.
pub proof fn lemma_render_of_parse(s: Seq<u8>, v: SemVersion)
    requires
        spec_parse_version(s) == Some(v),
    ensures
        s == spec_render(v),
{
    let d1 = find_byte(s, 0, DOT);
    let d2 = find_byte(s, d1 + 1, DOT);
    crate::text::lemma_find_byte(s, 0, DOT);
    crate::text::lemma_find_byte(s, d1 + 1, DOT);
    let a = s.subrange(0, d1);
    let b = s.subrange(d1 + 1, d2);
    let c = s.subrange(d2 + 1, s.len() as int);
    lemma_dec_of_dec_value(a);
    lemma_dec_of_dec_value(b);
    lemma_dec_of_dec_value(c);
    assert(spec_dec(v.major as nat) == a);
    assert(spec_dec(v.minor as nat) == b);
    assert(spec_dec(v.patch as nat) == c);
    assert(s =~= a + seq![DOT] + b + seq![DOT] + c);
}

/// Minimum of the present versions, `None` when none is present.
pub open spec fn spec_min(vs: Seq<Option<SemVersion>>) -> Option<SemVersion>
    decreases vs.len(),
{
    if vs.len() == 0 {
        None
    } else {
        let rest = spec_min(vs.drop_first());
        match vs[0] {
            None => rest,
            Some(v) => match rest {
                None => Some(v),
                Some(m) => if v.spec_le(m) {
                    Some(v)
                } else {
                    Some(m)
                },
            },
        }
    }
}

pub proof fn lemma_spec_min(vs: Seq<Option<SemVersion>>)
    ensures
        (spec_min(vs) is None) <==> (forall|i: int| 0 <= i < vs.len() ==> vs[i] is None),
        spec_min(vs) matches Some(m) ==> (exists|i: int| 0 <= i < vs.len() && vs[i] == Some(m)),
        spec_min(vs) matches Some(m) ==> (forall|i: int, v: SemVersion|
            0 <= i < vs.len() && vs[i] == Some(v) ==> m.spec_le(v)),
    decreases vs.len(),
{
    if vs.len() > 0 {
        let rest = vs.drop_first();
        lemma_spec_min(rest);
        assert(forall|i: int| 1 <= i < vs.len() ==> vs[i] == rest[i - 1]);
        if spec_min(vs) is None {
            assert forall|i: int| 0 <= i < vs.len() implies vs[i] is None by {
                if i > 0 {
                    assert(vs[i] == rest[i - 1]);
                }
            }
        }
        if forall|i: int| 0 <= i < vs.len() ==> vs[i] is None {
            assert(vs[0] is None);
            assert(forall|i: int| 0 <= i < rest.len() ==> rest[i] is None);
            assert(spec_min(rest) is None);
        }
        match spec_min(vs) {
            None => {},
            Some(m) => {
                if vs[0] == Some(m) {
                    assert(0 <= 0 < vs.len() && vs[0] == Some(m));
                } else {
                    assert(spec_min(rest) == Some(m));
                    let i = choose|i: int| 0 <= i < rest.len() && rest[i] == Some(m);
                    assert(vs[i + 1] == Some(m));
                }
                assert forall|i: int, v: SemVersion|
                    0 <= i < vs.len() && vs[i] == Some(v) implies m.spec_le(v) by {
                    if i == 0 {
                        match spec_min(rest) {
                            None => {},
                            Some(mr) => {},
                        }
                    } else {
                        assert(rest[i - 1] == Some(v));
                        match spec_min(rest) {
                            None => {
                                assert(rest[i - 1] is None);
                            },
                            Some(mr) => {
                                assert(mr.spec_le(v));
                            },
                        }
                    }
                }
            },
        }
    }
}

/// The minimum of the versions that were actually read, the baseline of a
/// reconciliation without an explicit assignment.
pub fn min_version_present(versions: &Vec<Option<SemVersion>>) -> (r: Option<SemVersion>)
    ensures
        r == spec_min(versions@),
        (r is None) <==> (forall|i: int| 0 <= i < versions@.len() ==> versions@[i] is None),
        r matches Some(m) ==> (exists|i: int| 0 <= i < versions@.len() && versions@[i] == Some(m)),
        r matches Some(m) ==> (forall|i: int, v: SemVersion|
            0 <= i < versions@.len() && versions@[i] == Some(v) ==> m.spec_le(v)),
{
    let mut best: Option<SemVersion> = None;
    let mut i: usize = versions.len();
    while i > 0
        invariant
            0 <= i <= versions@.len(),
            best == spec_min(versions@.subrange(i as int, versions@.len() as int)),
        decreases i,
    {
        i = i - 1;
        let ghost tail = versions@.subrange(i as int, versions@.len() as int);
        proof {
            assert(tail.drop_first() =~= versions@.subrange(i + 1, versions@.len() as int));
        }
        match versions[i] {
            None => {},
            Some(v) => {
                match best {
                    None => {
                        best = Some(v);
                    },
                    Some(m) => {
                        if v.le(&m) {
                            best = Some(v);
                        }
                    },
                }
            },
        }
    }
    proof {
        assert(versions@.subrange(0, versions@.len() as int) =~= versions@);
        lemma_spec_min(versions@);
    }
    best
}

/// Whether bumping `v` by `k` stays within `u64`.
pub open spec fn spec_bump_fits(v: SemVersion, k: BumpKind) -> bool {
    match k {
        BumpKind::Keep => true,
        BumpKind::Patch => v.patch < u64::MAX,
        BumpKind::Minor => v.minor < u64::MAX,
        BumpKind::Major => v.major < u64::MAX,
    }
}

/// Bump semantics: Major zeroes minor and patch, Minor zeroes patch,
/// Patch increments patch, Keep returns the version unchanged.
pub open spec fn spec_bump(v: SemVersion, k: BumpKind) -> SemVersion {
    match k {
        BumpKind::Keep => v,
        BumpKind::Patch => SemVersion { major: v.major, minor: v.minor, patch: (v.patch + 1) as u64 },
        BumpKind::Minor => SemVersion { major: v.major, minor: (v.minor + 1) as u64, patch: 0 },
        BumpKind::Major => SemVersion { major: (v.major + 1) as u64, minor: 0, patch: 0 },
    }
}

/// A fresh version is constructed on every bump; the input is never mutated.
pub fn bump(v: &SemVersion, k: BumpKind) -> (r: SemVersion)
    requires
        spec_bump_fits(*v, k),
    ensures
        r == spec_bump(*v, k),
{
    match k {
        BumpKind::Keep => *v,
        BumpKind::Patch => SemVersion { major: v.major, minor: v.minor, patch: v.patch + 1 },
        BumpKind::Minor => SemVersion { major: v.major, minor: v.minor + 1, patch: 0 },
        BumpKind::Major => SemVersion { major: v.major + 1, minor: 0, patch: 0 },
    }
}

/// The baseline before the bump: the explicit assignment if one was given,
/// else the minimum present version, else `0.1.0`.
pub open spec fn spec_base(vs: Seq<Option<SemVersion>>, assign: Option<SemVersion>) -> SemVersion {
    match assign {
        Some(v) => v,
        None => match spec_min(vs) {
            Some(m) => m,
            None => SemVersion { major: 0, minor: 1, patch: 0 },
        },
    }
}

/// The one target version of a reconciliation pass.  `None` exactly when the
/// requested bump would overflow a component.
pub fn compute_target(
    versions: &Vec<Option<SemVersion>>,
    assign: Option<SemVersion>,
    kind: BumpKind,
) -> (r: Option<SemVersion>)
    ensures
        spec_bump_fits(spec_base(versions@, assign), kind) ==> r == Some(
            spec_bump(spec_base(versions@, assign), kind),
        ),
        !spec_bump_fits(spec_base(versions@, assign), kind) ==> r is None,
{
    let base = match assign {
        Some(v) => v,
        None => match min_version_present(versions) {
            Some(m) => m,
            None => SemVersion { major: 0, minor: 1, patch: 0 },
        },
    };
    let fits = match kind {
        BumpKind::Keep => true,
        BumpKind::Patch => base.patch < u64::MAX,
        BumpKind::Minor => base.minor < u64::MAX,
        BumpKind::Major => base.major < u64::MAX,
    };
    if fits {
        Some(bump(&base, kind))
    } else {
        None
    }
}

/// The reconciliation law: without an explicit assignment, the target a
/// bump produces is the minimum present version with the chosen component
/// stepped — Major yields (major+1, 0, 0), Minor yields (major, minor+1,
/// 0), Patch yields (major, minor, patch+1), and Keep leaves the minimum
/// as it is.  This is the version every discovered source is then asked to
/// write.
pub proof fn lemma_reconciliation_target(
    vs: Seq<Option<SemVersion>>,
    kind: BumpKind,
    m: SemVersion,
)
    requires
        spec_min(vs) == Some(m),
        spec_bump_fits(m, kind),
    ensures
        kind == BumpKind::Major ==> spec_bump(spec_base(vs, None), kind) == (SemVersion {
            major: (m.major + 1) as u64,
            minor: 0,
            patch: 0,
        }),
        kind == BumpKind::Minor ==> spec_bump(spec_base(vs, None), kind) == (SemVersion {
            major: m.major,
            minor: (m.minor + 1) as u64,
            patch: 0,
        }),
        kind == BumpKind::Patch ==> spec_bump(spec_base(vs, None), kind) == (SemVersion {
            major: m.major,
            minor: m.minor,
            patch: (m.patch + 1) as u64,
        }),
        kind == BumpKind::Keep ==> spec_bump(spec_base(vs, None), kind) == m,
{
}

/// Parse an explicitly supplied version; failure is the engine's one fatal
/// error.
pub fn parse_explicit(s: &[u8]) -> (r: Result<SemVersion, VersionError>)
    ensures
        r matches Ok(v) ==> spec_parse_version(s@) == Some(v),
        r is Err ==> spec_parse_version(s@) is None && r == Err::<SemVersion, VersionError>(
            VersionError::InvalidExplicitVersion,
        ),
{
    match parse_version(s) {
        Some(v) => Ok(v),
        None => Err(VersionError::InvalidExplicitVersion),
    }
}

} // verus!
