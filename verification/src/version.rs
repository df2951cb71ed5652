//! Release version ordering: "major.minor.patch" with an optional
//! pre-release suffix after the first `-`, whose digits form a
//! pre-release number. A stable release ranks above every pre-release of
//! the same base version, numbered or not. A pre-release without a usable
//! number ranks above the numbered ones, and numbered ones compare by
//! number.

use vstd::prelude::*;
use crate::text::{
    all_ascii_digits, ascii_digits, chars_of, digits_value, find_char, find_char_in, is_ascii_digit, is_first_index,
    law_nth_piece, law_parse_u32_digits, lemma_find_char_absent, lemma_find_char_at, lemma_find_char_bounds, nth_piece,
    nth_piece_in, parse_digits_among_in, parse_u32, parse_u32_in,
};

verus! {

/// The pre-release part of a version.
#[derive(Clone, Copy, Debug, PartialEq, Eq, Structural)]
pub enum PreRelease {
    /// No `-` suffix: a stable release.
    Stable,
    /// A suffix whose digits form no `u32` (none, or too many).
    Unnumbered,
    /// A suffix whose digits form this number.
    Numbered(u32),
}

/// The parts of a version string that its ordering looks at.
#[derive(Clone, Copy, Debug, PartialEq, Eq, Structural)]
pub struct VersionKey {
    pub major: u32,
    pub minor: u32,
    pub patch: u32,
    pub pre: PreRelease,
}

/// A number field of the base version: the piece parsed as a `u32`, or 0
/// when it is missing or does not parse.
pub open spec fn number_or_zero(piece: Option<Seq<char>>) -> u32 {
    match piece {
        Some(p) => match parse_u32(p) {
            Some(n) => n,
            None => 0,
        },
        None => 0,
    }
}

/// The ordering key of a version string: the text before the first `-` is
/// the base, split at `.` into major, minor and patch; the text after it is
/// the pre-release suffix.
pub open spec fn version_key(s: Seq<char>) -> VersionKey {
    let base = match find_char(s, '-') {
        Some(i) => s.take(i),
        None => s,
    };
    VersionKey {
        major: number_or_zero(nth_piece(base, '.', 0)),
        minor: number_or_zero(nth_piece(base, '.', 1)),
        patch: number_or_zero(nth_piece(base, '.', 2)),
        pre: match find_char(s, '-') {
            Some(i) => match parse_u32(ascii_digits(s.skip(i + 1))) {
                Some(n) => PreRelease::Numbered(n),
                None => PreRelease::Unnumbered,
            },
            None => PreRelease::Stable,
        },
    }
}

/// Pre-release part `a` ranks strictly above `b`: stable above every
/// pre-release; an unnumbered pre-release above a numbered one; of two
/// numbered ones the higher number.
pub open spec fn pre_newer(a: PreRelease, b: PreRelease) -> bool {
    match (a, b) {
        (PreRelease::Stable, PreRelease::Stable) => false,
        (PreRelease::Stable, _) => true,
        (_, PreRelease::Stable) => false,
        (PreRelease::Numbered(x), PreRelease::Numbered(y)) => x > y,
        (PreRelease::Unnumbered, PreRelease::Numbered(_)) => true,
        (_, PreRelease::Unnumbered) => false,
    }
}

/// `a` ranks strictly above `b`: the base versions compare field by field;
/// on equal bases the pre-release parts decide.
pub open spec fn key_newer(a: VersionKey, b: VersionKey) -> bool {
    if a.major != b.major {
        a.major > b.major
    } else if a.minor != b.minor {
        a.minor > b.minor
    } else if a.patch != b.patch {
        a.patch > b.patch
    } else {
        pre_newer(a.pre, b.pre)
    }
}

/// Version `a` is strictly newer than version `b`.
pub open spec fn newer(a: Seq<char>, b: Seq<char>) -> bool {
    key_newer(version_key(a), version_key(b))
}

/// The ordering key of `s`.
pub fn version_key_of(s: &str) -> (k: VersionKey)
    ensures
        k == version_key(s@),
{
    let v = chars_of(s);
    let n = v.len();
    assert(v@.subrange(0, n as int) =~= s@);
    let dash = find_char_in(&v, 0, n, '-');
    let base_end = match dash {
        Some(i) => i,
        None => n,
    };
    let ghost base = match find_char(s@, '-') {
        Some(i) => s@.take(i),
        None => s@,
    };
    assert(v@.subrange(0, base_end as int) =~= base);
    let major = piece_number(&v, base_end, 0);
    let minor = piece_number(&v, base_end, 1);
    let patch = piece_number(&v, base_end, 2);
    let pre = match dash {
        Some(i) => {
            assert(s@.skip(i + 1) =~= v@.subrange(i + 1, n as int));
            match parse_digits_among_in(&v, i + 1, n) {
                Some(x) => PreRelease::Numbered(x),
                None => PreRelease::Unnumbered,
            }
        },
        None => PreRelease::Stable,
    };
    VersionKey { major, minor, patch, pre }
}

fn piece_number(v: &Vec<char>, hi: usize, k: usize) -> (r: u32)
    requires
        hi <= v.len(),
    ensures
        r == number_or_zero(nth_piece(v@.subrange(0, hi as int), '.', k as nat)),
{
    match nth_piece_in(v, 0, hi, '.', k) {
        Some((a, b)) => match parse_u32_in(v, a, b) {
            Some(x) => x,
            None => 0,
        },
        None => 0,
    }
}

/// Compares two version keys.
pub fn key_newer_exec(a: &VersionKey, b: &VersionKey) -> (r: bool)
    ensures
        r == key_newer(*a, *b),
{
    if a.major != b.major {
        return a.major > b.major;
    }
    if a.minor != b.minor {
        return a.minor > b.minor;
    }
    if a.patch != b.patch {
        return a.patch > b.patch;
    }
    match (a.pre, b.pre) {
        (PreRelease::Stable, PreRelease::Stable) => false,
        (PreRelease::Stable, _) => true,
        (_, PreRelease::Stable) => false,
        (PreRelease::Numbered(x), PreRelease::Numbered(y)) => x > y,
        (PreRelease::Unnumbered, PreRelease::Numbered(_)) => true,
        (_, PreRelease::Unnumbered) => false,
    }
}

/// Returns true if `a` is strictly newer than `b` (semver, with pre-release
/// support).
pub fn semver_gt(a: &str, b: &str) -> (r: bool)
    ensures
        r == newer(a@, b@),
{
    let ka = version_key_of(a);
    let kb = version_key_of(b);
    key_newer_exec(&ka, &kb)
}

// ---------------------------------------------------------------- laws

/// No version is newer than itself.
pub proof fn lemma_newer_irreflexive(a: Seq<char>)
    ensures
        !newer(a, a),
{
}

/// Of two versions, at most one is newer than the other.
pub proof fn lemma_newer_asymmetric(a: Seq<char>, b: Seq<char>)
    ensures
        newer(a, b) ==> !newer(b, a),
{
}

/// Newer-than is transitive.
pub proof fn lemma_newer_transitive(a: Seq<char>, b: Seq<char>, c: Seq<char>)
    requires
        newer(a, b),
        newer(b, c),
    ensures
        newer(a, c),
{
}

/// Versions that are not newer than one another rank alike: whatever is
/// newer than one is newer than the other.
pub proof fn lemma_not_newer_ranks_below(a: Seq<char>, b: Seq<char>, c: Seq<char>)
    requires
        newer(a, b),
        !newer(c, b),
    ensures
        newer(a, c),
{
}

/// A version is a pre-release exactly when it has a `-` suffix, whatever
/// the suffix holds.
pub proof fn lemma_prerelease_iff_suffix(s: Seq<char>)
    ensures
        (version_key(s).pre == PreRelease::Stable) <==> (find_char(s, '-') is None),
{
}

/// A stable version is newer than every pre-release of the same base,
/// whatever its suffix (with a number or without).
pub proof fn lemma_stable_above_prerelease(a: Seq<char>, b: Seq<char>)
    requires
        version_key(a).major == version_key(b).major,
        version_key(a).minor == version_key(b).minor,
        version_key(a).patch == version_key(b).patch,
        find_char(a, '-') is None,
        find_char(b, '-') is Some,
    ensures
        newer(a, b),
        !newer(b, a),
{
}

/// The text of a version before its pre-release suffix.
pub open spec fn base_of(s: Seq<char>) -> Seq<char> {
    match find_char(s, '-') {
        Some(i) => s.take(i),
        None => s,
    }
}

/// Major, minor and patch come from the text before the first `-` only:
/// a version and its text before the `-` agree on them, and that text is
/// a stable version.
pub proof fn law_base_before_suffix(s: Seq<char>, i: int)
    requires
        find_char(s, '-') == Some(i),
    ensures
        version_key(s).major == version_key(s.take(i)).major,
        version_key(s).minor == version_key(s.take(i)).minor,
        version_key(s).patch == version_key(s.take(i)).patch,
        version_key(s.take(i)).pre == PreRelease::Stable,
{
    lemma_find_char_bounds(s, '-');
    let t = s.take(i);
    assert forall|j: int| 0 <= j < t.len() implies t[j] != '-' by {
        assert(t[j] == s[j]);
    }
    lemma_find_char_absent(t, '-');
    assert(t.take(t.len() as int) =~= t);
}

/// Of two versions with different base versions (major, minor, patch),
/// the newer is the one whose base is newer, whatever their pre-release
/// suffixes: a pre-release of 2.0.1 is newer than 2.0.0.
pub proof fn law_different_bases_decide(a: Seq<char>, b: Seq<char>)
    requires
        (version_key(a).major, version_key(a).minor, version_key(a).patch) != (
            version_key(b).major,
            version_key(b).minor,
            version_key(b).patch,
        ),
    ensures
        newer(a, b) == newer(base_of(a), base_of(b)),
        version_key(base_of(a)).pre == PreRelease::Stable,
        version_key(base_of(b)).pre == PreRelease::Stable,
{
    lemma_base_of_key(a);
    lemma_base_of_key(b);
}

proof fn lemma_base_of_key(s: Seq<char>)
    ensures
        version_key(s).major == version_key(base_of(s)).major,
        version_key(s).minor == version_key(base_of(s)).minor,
        version_key(s).patch == version_key(base_of(s)).patch,
        version_key(base_of(s)).pre == PreRelease::Stable,
{
    lemma_find_char_bounds(s, '-');
    match find_char(s, '-') {
        Some(i) => law_base_before_suffix(s, i),
        None => {},
    }
}

/// A plain version `x.y.z` of decimal numbers that fit in a `u32` is the
/// stable release with major `x`, minor `y` and patch `z`.
pub proof fn law_plain_version_key(x: Seq<char>, y: Seq<char>, z: Seq<char>)
    requires
        x.len() > 0 && all_ascii_digits(x) && digits_value(x) <= u32::MAX,
        y.len() > 0 && all_ascii_digits(y) && digits_value(y) <= u32::MAX,
        z.len() > 0 && all_ascii_digits(z) && digits_value(z) <= u32::MAX,
    ensures
        version_key(x + seq!['.'] + y + seq!['.'] + z) == (VersionKey {
            major: digits_value(x) as u32,
            minor: digits_value(y) as u32,
            patch: digits_value(z) as u32,
            pre: PreRelease::Stable,
        }),
{
    let s = x + seq!['.'] + y + seq!['.'] + z;
    assert forall|j: int| 0 <= j < s.len() implies s[j] != '-' by {
        if j < x.len() {
            assert(s[j] == x[j] && is_ascii_digit(x[j]));
        } else if j == x.len() {
        } else if j < x.len() + 1 + y.len() {
            assert(s[j] == y[j - x.len() - 1] && is_ascii_digit(y[j - x.len() - 1]));
        } else if j == x.len() + 1 + y.len() {
        } else {
            assert(s[j] == z[j - x.len() - 2 - y.len()] && is_ascii_digit(z[j - x.len() - 2 - y.len()]));
        }
    }
    lemma_find_char_absent(s, '-');
    assert forall|j: int| 0 <= j < x.len() implies x[j] != '.' by {
        assert(is_ascii_digit(x[j]));
    }
    assert forall|j: int| 0 <= j < y.len() implies y[j] != '.' by {
        assert(is_ascii_digit(y[j]));
    }
    assert forall|j: int| 0 <= j < z.len() implies z[j] != '.' by {
        assert(is_ascii_digit(z[j]));
    }
    let yz = y + seq!['.'] + z;
    assert(s =~= x + seq!['.'] + yz);
    law_nth_piece(x, '.', yz, 0);
    law_nth_piece(x, '.', yz, 1);
    law_nth_piece(y, '.', z, 0);
    law_nth_piece(z, '.', Seq::empty(), 0);
    law_parse_u32_digits(x);
    law_parse_u32_digits(y);
    law_parse_u32_digits(z);
}

/// Two versions with the same pre-release suffix have the same pre-release
/// rank, whatever their base versions.
pub proof fn law_prerelease_from_suffix_only(a: Seq<char>, b: Seq<char>, i: int, j: int)
    requires
        find_char(a, '-') == Some(i),
        find_char(b, '-') == Some(j),
        a.skip(i + 1) == b.skip(j + 1),
    ensures
        version_key(a).pre == version_key(b).pre,
{
}

proof fn lemma_ascii_digits_concat(w: Seq<char>, d: Seq<char>)
    requires
        forall|k: int| 0 <= k < w.len() ==> !is_ascii_digit(#[trigger] w[k]),
        all_ascii_digits(d),
    ensures
        ascii_digits(w + d) == d,
    decreases w.len() + d.len(),
{
    if d.len() == 0 {
        if w.len() > 0 {
            lemma_ascii_digits_concat(w.drop_last(), d);
            assert((w + d).drop_last() =~= w.drop_last() + d);
            assert(w.drop_last() + d =~= w.drop_last());
            assert((w + d).last() == w.last());
        }
        assert(w + d =~= w);
    } else {
        lemma_ascii_digits_concat(w, d.drop_last());
        assert((w + d).drop_last() =~= w + d.drop_last());
        assert((w + d).last() == d.last());
        assert(d.drop_last().push(d.last()) =~= d);
    }
}

/// The pre-release number is formed by the digits of the suffix: a suffix
/// of non-digits followed by a number that fits in a `u32` has that
/// number; a suffix without digits has none.
pub proof fn law_prerelease_number(base: Seq<char>, w: Seq<char>, d: Seq<char>)
    requires
        forall|k: int| 0 <= k < base.len() ==> base[k] != '-',
        forall|k: int| 0 <= k < w.len() ==> !is_ascii_digit(#[trigger] w[k]),
        all_ascii_digits(d),
    ensures
        d.len() > 0 && digits_value(d) <= u32::MAX ==> version_key(base + seq!['-'] + w + d).pre
            == PreRelease::Numbered(digits_value(d) as u32),
        d.len() == 0 ==> version_key(base + seq!['-'] + w + d).pre == PreRelease::Unnumbered,
{
    let s = base + seq!['-'] + w + d;
    assert(is_first_index(s, '-', base.len() as int)) by {
        assert forall|k: int| 0 <= k < base.len() implies s[k] != '-' by {
            assert(s[k] == base[k]);
        }
    }
    lemma_find_char_at(s, '-', base.len() as int);
    assert(s.skip(base.len() as int + 1) =~= w + d);
    lemma_ascii_digits_concat(w, d);
    if d.len() > 0 && digits_value(d) <= u32::MAX {
        law_parse_u32_digits(d);
    }
}

/// The order of versions: a higher major is newer; on equal majors a
/// higher minor; then a higher patch. On equal bases a stable release is
/// newer than any pre-release, an unnumbered pre-release than a numbered
/// one, and of numbered ones the higher number.
pub proof fn law_newer_order(a: Seq<char>, b: Seq<char>)
    ensures
        version_key(a).major > version_key(b).major ==> newer(a, b),
        version_key(a).major == version_key(b).major && version_key(a).minor > version_key(b).minor
            ==> newer(a, b),
        version_key(a).major == version_key(b).major && version_key(a).minor == version_key(b).minor
            && version_key(a).patch > version_key(b).patch ==> newer(a, b),
        ({
            let (ka, kb) = (version_key(a), version_key(b));
            ka.major == kb.major && ka.minor == kb.minor && ka.patch == kb.patch ==> (newer(a, b) <==> (
            (ka.pre == PreRelease::Stable && kb.pre != PreRelease::Stable) || (ka.pre
                == PreRelease::Unnumbered && kb.pre is Numbered) || (ka.pre is Numbered && kb.pre is Numbered
                && ka.pre->0 > kb.pre->0)))
        }),
{
}

// ---------------------------------------------------------------- highest

/// `vs[i]` is the first element of `vs` that no element is newer than.
pub open spec fn is_first_highest(vs: Seq<Seq<char>>, i: int) -> bool {
    &&& 0 <= i < vs.len()
    &&& forall|j: int| 0 <= j < vs.len() ==> !newer(#[trigger] vs[j], vs[i])
    &&& forall|j: int| 0 <= j < i ==> newer(vs[i], #[trigger] vs[j])
}

/// At most one position is the first highest.
pub proof fn lemma_first_highest_unique(vs: Seq<Seq<char>>, i: int, k: int)
    requires
        is_first_highest(vs, i),
        is_first_highest(vs, k),
    ensures
        i == k,
{
    if i < k {
        assert(newer(vs[k], vs[i]));
        assert(!newer(vs[k], vs[i]));
    } else if k < i {
        assert(newer(vs[i], vs[k]));
        assert(!newer(vs[i], vs[k]));
    }
}

pub open spec fn string_views(vs: Seq<String>) -> Seq<Seq<char>> {
    vs.map_values(|s: String| s@)
}

/// Return the highest version by semver (pre-releases ranked below their
/// base version), or `None` for an empty list. Among versions that rank
/// alike, the first one wins.
pub fn highest_version(versions: &[String]) -> (r: Option<String>)
    ensures
        r is None <==> versions@.len() == 0,
        r matches Some(h) ==> exists|i: int|
            is_first_highest(string_views(versions@), i) && h@ == versions@[i]@,
{
    let ghost vs = string_views(versions@);
    if versions.len() == 0 {
        return None;
    }
    let mut best: usize = 0;
    let mut k: usize = 1;
    while k < versions.len()
        invariant
            vs == string_views(versions@),
            vs.len() == versions@.len(),
            0 <= best < k <= versions.len(),
            forall|j: int| 0 <= j < k ==> !newer(#[trigger] vs[j], vs[best as int]),
            forall|j: int| 0 <= j < best ==> newer(vs[best as int], #[trigger] vs[j]),
        decreases versions.len() - k,
    {
        if semver_gt(versions[k].as_str(), versions[best].as_str()) {
            assert forall|j: int| 0 <= j < k implies !newer(#[trigger] vs[j], vs[k as int]) by {
                if newer(vs[j], vs[k as int]) {
                    lemma_newer_transitive(vs[j], vs[k as int], vs[best as int]);
                }
            }
            assert forall|j: int| 0 <= j < k implies newer(vs[k as int], #[trigger] vs[j]) by {
                lemma_not_newer_ranks_below(vs[k as int], vs[best as int], vs[j]);
            }
            best = k;
        }
        k = k + 1;
    }
    let h = versions[best].clone();
    assert(is_first_highest(vs, best as int));
    Some(h)
}

} // verus!
