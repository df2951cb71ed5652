//! Self-upgrade logic: reading the latest release version from a release
//! page URL, from `git ls-remote --tags` output or from release tag names,
//! the platform's release triple, the release asset locations, and what an
//! upgrade run should do.

use vstd::prelude::*;
use crate::text::{
    after_last, after_last_in, chars_of, find_str, find_str_in, is_ascii_digit, is_whitespace,
    law_after_last, law_nth_piece, law_trim_unchanged, lemma_find_str_contains, lines, next_line_in,
    nth_piece, nth_piece_in, same_text, substring, trim, trim_in, ascii_digit,
};
use crate::version::{highest_version, is_first_highest, newer, semver_gt, string_views};

verus! {

broadcast use vstd::string::group_string_axioms;

/// The GitHub repository that publishes the releases.
pub const REPO: &'static str = "okx/onchainos-skills";

/// Why an upgrade step failed.
#[derive(Debug)]
pub enum UpgradeError {
    /// The release description names no tag.
    MissingTagName,
    /// No tag of the repository names a version.
    NoVersionFound,
    /// No release is built for this operating system and architecture.
    UnsupportedPlatform,
    /// The checksum list names no checksum for the release binary.
    ChecksumNotFound,
    /// The downloaded binary does not have the published checksum.
    ChecksumMismatch { expected: String, actual: String },
}

impl UpgradeError {
    /// The message the command reports for this error.
    pub fn message(&self) -> (r: String)
        ensures
            match self {
                UpgradeError::MissingTagName => r@ == "missing tag_name in GitHub release response"@,
                UpgradeError::NoVersionFound => r@ == "no valid versions found in GitHub tags"@,
                UpgradeError::UnsupportedPlatform => r@
                    == "unsupported platform — please install manually from https://github.com/"@
                    + REPO@,
                UpgradeError::ChecksumNotFound => r@
                    == "checksum not found for this platform in checksums.txt"@,
                UpgradeError::ChecksumMismatch { expected, actual } => r@
                    == "checksum mismatch — binary may have been tampered with\n  expected: "@
                    + expected@ + "\n  actual:   "@ + actual@,
            },
    {
        match self {
            UpgradeError::MissingTagName => "missing tag_name in GitHub release response".to_owned(),
            UpgradeError::NoVersionFound => "no valid versions found in GitHub tags".to_owned(),
            UpgradeError::UnsupportedPlatform => {
                let mut m = "unsupported platform — please install manually from https://github.com/"
                    .to_owned();
                m.append(REPO);
                m
            },
            UpgradeError::ChecksumNotFound => {
                "checksum not found for this platform in checksums.txt".to_owned()
            },
            UpgradeError::ChecksumMismatch { expected, actual } => {
                let mut m = "checksum mismatch — binary may have been tampered with\n  expected: "
                    .to_owned();
                m.append(expected.as_str());
                m.append("\n  actual:   ");
                m.append(actual.as_str());
                m
            },
        }
    }
}

/// Options of the upgrade command.
#[derive(Clone, Copy, Debug)]
pub struct UpgradeArgs {
    /// Include pre-release (beta) versions.
    pub beta: bool,
    /// Upgrade even if already on the latest version.
    pub force: bool,
    /// Only check for a newer version, do not install.
    pub check: bool,
}

// ---------------------------------------------------------------- release page URL

pub open spec fn is_tag_boundary(c: char) -> bool {
    c == '/' || c == '?' || c == '#'
}

/// The text of `s` up to its first `/`, `?` or `#`.
pub open spec fn before_boundary(s: Seq<char>) -> Seq<char>
    decreases s.len(),
{
    if s.len() == 0 {
        s
    } else if is_tag_boundary(s[0]) {
        Seq::empty()
    } else {
        seq![s[0]] + before_boundary(s.drop_first())
    }
}

/// The version named by a release tag `v<digit>…`: the tag without its `v`.
pub open spec fn version_of_tag(tag: Seq<char>) -> Option<Seq<char>> {
    if tag.len() >= 2 && tag[0] == 'v' && is_ascii_digit(tag[1]) {
        Some(tag.drop_first())
    } else {
        None
    }
}

/// The version of the release page `…/releases/tag/v<version>`: the text
/// after the first `/releases/tag/` up to the next `/`, `?` or `#`,
/// trimmed of whitespace, when it is a `v<digit>…` tag.
pub open spec fn release_tag_version(url: Seq<char>) -> Option<Seq<char>> {
    match find_str(url, "/releases/tag/"@) {
        None => None,
        Some(i) => version_of_tag(trim(before_boundary(url.skip(i + "/releases/tag/"@.len())))),
    }
}

pub open spec fn option_view(o: Option<String>) -> Option<Seq<char>> {
    match o {
        Some(s) => Some(s@),
        None => None,
    }
}

fn boundary_in(v: &Vec<char>, lo: usize, hi: usize) -> (r: usize)
    requires
        lo <= hi <= v.len(),
    ensures
        lo <= r <= hi,
        before_boundary(v@.subrange(lo as int, hi as int)) == v@.subrange(lo as int, r as int),
{
    let mut k = lo;
    while k < hi && !(v[k] == '/' || v[k] == '?' || v[k] == '#')
        invariant
            lo <= k <= hi <= v.len(),
            before_boundary(v@.subrange(lo as int, hi as int)) == v@.subrange(lo as int, k as int)
                + before_boundary(v@.subrange(k as int, hi as int)),
        decreases hi - k,
    {
        let ghost rest = v@.subrange(k as int, hi as int);
        assert(rest.drop_first() =~= v@.subrange(k + 1, hi as int));
        assert(v@.subrange(lo as int, k as int) + seq![rest[0]] =~= v@.subrange(lo as int, k + 1));
        k = k + 1;
    }
    assert(v@.subrange(lo as int, k as int) + before_boundary(v@.subrange(k as int, hi as int))
        =~= v@.subrange(lo as int, k as int));
    k
}

/// Parse a version (without the leading `v`) from the final URL of a
/// `/releases/latest` redirect. Returns `None` for any URL that is not a
/// `/releases/tag/v<digit>…` page.
pub fn parse_release_tag_url(url: &str) -> (r: Option<String>)
    ensures
        option_view(r) == release_tag_version(url@),
{
    let v = chars_of(url);
    let n = v.len();
    let marker = chars_of("/releases/tag/");
    assert(v@.subrange(0, n as int) =~= url@);
    proof {
        lemma_find_str_contains(url@, marker@);
    }
    match find_str_in(&v, 0, n, &marker) {
        None => None,
        Some(i) => {
            let start = i + marker.len();
            assert(url@.skip(i + marker@.len()) =~= v@.subrange(start as int, n as int));
            let end = boundary_in(&v, start, n);
            let (a, b) = trim_in(&v, start, end);
            if b - a >= 2 && v[a] == 'v' && ascii_digit(v[a + 1]) {
                assert(v@.subrange(a as int, b as int).drop_first() =~= v@.subrange(a + 1, b as int));
                Some(substring(url, a + 1, b))
            } else {
                None
            }
        },
    }
}

/// A version read from a release page URL starts with a digit, and the URL
/// is a `/releases/tag/` page.
pub proof fn lemma_release_tag_version_is_numbered(url: Seq<char>)
    ensures
        release_tag_version(url) matches Some(v) ==> v.len() >= 1 && is_ascii_digit(v[0])
            && find_str(url, "/releases/tag/"@) is Some,
{
}

proof fn lemma_before_boundary(a: Seq<char>, tail: Seq<char>)
    requires
        forall|j: int| 0 <= j < a.len() ==> !is_tag_boundary(a[j]),
        tail.len() == 0 || is_tag_boundary(tail[0]),
    ensures
        before_boundary(a + tail) == a,
    decreases a.len(),
{
    if a.len() == 0 {
        assert(a + tail =~= tail);
    } else {
        let r = a.drop_first();
        lemma_before_boundary(r, tail);
        assert((a + tail).drop_first() =~= r + tail);
        assert(seq![a[0]] + r =~= a);
    }
}

/// The release page `…/releases/tag/v<version>` names `<version>`: when
/// the URL's first `/releases/tag/` is followed by `v`, a version that
/// starts with a digit, holds no `/`, `?` or `#` and does not end with
/// whitespace, and then the URL's end or a `/`, `?` or `#`.
pub proof fn law_release_tag_url(p: Seq<char>, v: Seq<char>, tail: Seq<char>)
    requires
        find_str(p + "/releases/tag/"@ + seq!['v'] + v + tail, "/releases/tag/"@) == Some(p.len() as int),
        v.len() > 0,
        is_ascii_digit(v[0]),
        !is_whitespace(v[v.len() - 1]),
        forall|j: int| 0 <= j < v.len() ==> !is_tag_boundary(#[trigger] v[j]),
        tail.len() == 0 || is_tag_boundary(tail[0]),
    ensures
        release_tag_version(p + "/releases/tag/"@ + seq!['v'] + v + tail) == Some(v),
{
    reveal_strlit("/releases/tag/");
    let m = "/releases/tag/"@;
    let url = p + m + seq!['v'] + v + tail;
    let tag = seq!['v'] + v;
    assert(url.skip(p.len() + m.len() as int) =~= tag + tail);
    assert forall|j: int| 0 <= j < tag.len() implies !is_tag_boundary(tag[j]) by {
        if j > 0 {
            assert(tag[j] == v[j - 1]);
        }
    }
    lemma_before_boundary(tag, tail);
    assert(tag[tag.len() - 1] == v[v.len() - 1]);
    law_trim_unchanged(tag);
    assert(tag.drop_first() =~= v);
}

// ---------------------------------------------------------------- ls-remote

/// `s` without every `^{}` at its end (`str::trim_end_matches("^{}")`).
pub open spec fn strip_peeled(s: Seq<char>) -> Seq<char>
    decreases s.len(),
{
    if s.len() >= 3 && s[s.len() - 3] == '^' && s[s.len() - 2] == '{' && s[s.len() - 1] == '}' {
        strip_peeled(s.take(s.len() - 3))
    } else {
        s
    }
}

/// The version named by one line `<sha>\t<ref>` of `git ls-remote --tags`:
/// the ref's last `/`-separated part, without peeling marks `^{}`, when it
/// is a `v<digit>…` tag.
pub open spec fn ls_remote_version(line: Seq<char>) -> Option<Seq<char>> {
    match nth_piece(line, '\t', 1) {
        None => None,
        Some(refname) => version_of_tag(strip_peeled(after_last(refname, '/'))),
    }
}

/// The versions named by a list of lines, in order.
pub open spec fn line_versions(ls: Seq<Seq<char>>) -> Seq<Seq<char>>
    decreases ls.len(),
{
    if ls.len() == 0 {
        Seq::empty()
    } else {
        let rest = line_versions(ls.drop_last());
        match ls_remote_version(ls.last()) {
            Some(v) => rest.push(v),
            None => rest,
        }
    }
}

/// `vs` with every repeated element removed, keeping first occurrences.
pub open spec fn dedup(vs: Seq<Seq<char>>) -> Seq<Seq<char>>
    decreases vs.len(),
{
    if vs.len() == 0 {
        Seq::empty()
    } else {
        let d = dedup(vs.drop_last());
        if d.contains(vs.last()) {
            d
        } else {
            d.push(vs.last())
        }
    }
}

fn ls_remote_version_in(v: &Vec<char>, lo: usize, hi: usize) -> (r: Option<(usize, usize)>)
    requires
        lo <= hi <= v.len(),
    ensures
        match r {
            Some((a, b)) => lo <= a <= b <= hi && ls_remote_version(v@.subrange(lo as int, hi as int))
                == Some(v@.subrange(a as int, b as int)),
            None => ls_remote_version(v@.subrange(lo as int, hi as int)) is None,
        },
{
    match nth_piece_in(v, lo, hi, '\t', 1) {
        None => None,
        Some((a, b)) => {
            let c = after_last_in(v, a, b, '/');
            let mut e = b;
            while e - c >= 3 && v[e - 3] == '^' && v[e - 2] == '{' && v[e - 1] == '}'
                invariant
                    lo <= a <= c <= e <= b <= hi <= v.len(),
                    strip_peeled(v@.subrange(c as int, b as int)) == strip_peeled(
                        v@.subrange(c as int, e as int),
                    ),
                decreases e - c,
            {
                assert(v@.subrange(c as int, e as int).take(e - c - 3) =~= v@.subrange(
                    c as int,
                    e - 3,
                ));
                e = e - 3;
            }
            if e - c >= 2 && v[c] == 'v' && ascii_digit(v[c + 1]) {
                assert(v@.subrange(c as int, e as int).drop_first() =~= v@.subrange(c + 1, e as int));
                Some((c + 1, e))
            } else {
                None
            }
        },
    }
}

/// Parse the stdout of `git ls-remote --tags` into a deduped list of
/// versions (without the leading `v`). Peeled-tag refs (`^{}`) and
/// non-`v<digit>` refs (branches, lightweight non-semver tags) are dropped.
pub fn parse_ls_remote_versions(stdout: &str) -> (r: Vec<String>)
    ensures
        string_views(r@) == dedup(line_versions(lines(stdout@))),
{
    let v = chars_of(stdout);
    let n = v.len();
    let mut out: Vec<String> = Vec::new();
    let mut pos: usize = 0;
    let ghost mut done: Seq<Seq<char>> = Seq::empty();
    assert(v@.subrange(0, n as int) =~= stdout@);
    assert(done + lines(v@.subrange(0, n as int)) =~= lines(stdout@));
    while pos < n
        invariant
            pos <= n == v.len(),
            v@ == stdout@,
            lines(stdout@) == done + lines(v@.subrange(pos as int, n as int)),
            string_views(out@) == dedup(line_versions(done)),
        decreases n - pos,
    {
        let (lo, hi, next) = next_line_in(&v, pos, n);
        let ghost line = v@.subrange(lo as int, hi as int);
        assert(lines(stdout@) == done.push(line) + lines(v@.subrange(next as int, n as int))) by {
            assert(done + (seq![line] + lines(v@.subrange(next as int, n as int))) =~= done.push(
                line,
            ) + lines(v@.subrange(next as int, n as int)));
        }
        assert(done.push(line).drop_last() =~= done);
        let ghost lv = line_versions(done);
        match ls_remote_version_in(&v, lo, hi) {
            None => {
                assert(line_versions(done.push(line)) == lv);
            },
            Some((a, b)) => {
                let ver = substring(stdout, a, b);
                let mut seen = false;
                let mut j: usize = 0;
                while j < out.len()
                    invariant
                        j <= out.len(),
                        seen == (exists|k: int| 0 <= k < j && out@[k]@ == ver@),
                    decreases out.len() - j,
                {
                    if out[j] == ver {
                        seen = true;
                    }
                    j = j + 1;
                }
                let ghost d = string_views(out@);
                assert(d.contains(ver@) == seen) by {
                    if seen {
                        let k = choose|k: int| 0 <= k < out.len() && out@[k]@ == ver@;
                        assert(d[k] == ver@);
                    }
                }
                assert(line_versions(done.push(line)) == lv.push(ver@));
                assert(lv.push(ver@).drop_last() =~= lv);
                if !seen {
                    out.push(ver);
                    assert(string_views(out@) =~= d.push(ver@));
                }
            },
        }
        proof {
            done = done.push(line);
        }
        pos = next;
    }
    assert(v@.subrange(n as int, n as int).len() == 0);
    assert(done + lines(v@.subrange(n as int, n as int)) =~= done);
    out
}

// ---------------------------------------------------------------- ls-remote laws

proof fn lemma_dedup_members(vs: Seq<Seq<char>>)
    ensures
        dedup(vs).no_duplicates(),
        forall|x: Seq<char>| dedup(vs).contains(x) ==> vs.contains(x),
    decreases vs.len(),
{
    if vs.len() > 0 {
        let d = dedup(vs.drop_last());
        lemma_dedup_members(vs.drop_last());
        assert forall|x: Seq<char>| vs.drop_last().contains(x) implies vs.contains(x) by {
            let k = choose|k: int| 0 <= k < vs.drop_last().len() && vs.drop_last()[k] == x;
            assert(vs[k] == x);
        }
        if !d.contains(vs.last()) {
            let e = d.push(vs.last());
            assert forall|i: int, j: int| 0 <= i < e.len() && 0 <= j < e.len() && i != j implies e[i]
                != e[j] by {
                if i < d.len() && j < d.len() {
                } else if i == d.len() {
                    assert(d[j] == e[j]);
                } else {
                    assert(d[i] == e[i]);
                }
            }
            assert forall|x: Seq<char>| e.contains(x) implies vs.contains(x) by {
                let k = choose|k: int| 0 <= k < e.len() && e[k] == x;
                if k < d.len() {
                    assert(d[k] == x);
                } else {
                    assert(vs[vs.len() - 1] == x);
                }
            }
        }
    }
}

proof fn lemma_line_versions_are_versions(ls: Seq<Seq<char>>)
    ensures
        forall|x: Seq<char>|
            line_versions(ls).contains(x) ==> x.len() >= 1 && is_ascii_digit(x[0]),
    decreases ls.len(),
{
    if ls.len() > 0 {
        lemma_line_versions_are_versions(ls.drop_last());
        let rest = line_versions(ls.drop_last());
        if let Some(v) = ls_remote_version(ls.last()) {
            assert forall|x: Seq<char>| rest.push(v).contains(x) implies x.len() >= 1
                && is_ascii_digit(x[0]) by {
                let k = choose|k: int| 0 <= k < rest.push(v).len() && rest.push(v)[k] == x;
                if k < rest.len() {
                    assert(rest[k] == x);
                    assert(rest.contains(x));
                } else {
                    let refname = nth_piece(ls.last(), '\t', 1)->0;
                    let tag = strip_peeled(after_last(refname, '/'));
                    assert(v == tag.drop_first());
                    assert(x[0] == tag[1]);
                }
            }
        }
    }
}

proof fn lemma_strip_peeled_plain(t: Seq<char>)
    requires
        !(t.len() >= 3 && t[t.len() - 3] == '^' && t[t.len() - 2] == '{' && t[t.len() - 1] == '}'),
    ensures
        strip_peeled(t) == t,
{
}

/// A line `<sha>\t<ref>/v<version>` of `git ls-remote --tags`, possibly
/// with the peeling mark `^{}` after it, names `<version>` when that
/// starts with a digit and holds no `/` or tab (and does not itself end
/// with `^{}`).
pub proof fn law_ls_remote_tag_line(
    sha: Seq<char>,
    refpath: Seq<char>,
    v: Seq<char>,
    peeled: bool,
)
    requires
        forall|j: int| 0 <= j < sha.len() ==> sha[j] != '\t',
        forall|j: int| 0 <= j < refpath.len() ==> refpath[j] != '\t',
        v.len() > 0,
        is_ascii_digit(v[0]),
        forall|j: int| 0 <= j < v.len() ==> v[j] != '/' && v[j] != '\t',
        !(v.len() >= 3 && v[v.len() - 3] == '^' && v[v.len() - 2] == '{' && v[v.len() - 1] == '}'),
    ensures
        ls_remote_version(
            sha + seq!['\t'] + refpath + seq!['/', 'v'] + v + (if peeled {
                seq!['^', '{', '}']
            } else {
                Seq::empty()
            }),
        ) == Some(v),
{
    let mark: Seq<char> = if peeled {
        seq!['^', '{', '}']
    } else {
        Seq::empty()
    };
    let tag = seq!['v'] + v;
    let rest = refpath + seq!['/', 'v'] + v + mark;
    let line = sha + seq!['\t'] + refpath + seq!['/', 'v'] + v + mark;
    assert(line =~= sha + seq!['\t'] + rest);
    assert forall|j: int| 0 <= j < rest.len() implies rest[j] != '\t' by {
        if j < refpath.len() {
            assert(rest[j] == refpath[j]);
        } else if j >= refpath.len() + 2 && j < refpath.len() + 2 + v.len() {
            assert(rest[j] == v[j - refpath.len() - 2]);
        }
    }
    law_nth_piece(sha, '\t', rest, 0);
    law_nth_piece(rest, '\t', Seq::empty(), 0);
    let tm = tag + mark;
    assert(rest =~= refpath + seq!['/'] + tm);
    assert forall|j: int| 0 <= j < tm.len() implies tm[j] != '/' by {
        if 0 < j && j < tag.len() {
            assert(tm[j] == v[j - 1]);
        }
    }
    law_after_last(refpath, '/', tm);
    assert(!(tag.len() >= 3 && tag[tag.len() - 3] == '^' && tag[tag.len() - 2] == '{' && tag[tag.len()
        - 1] == '}')) by {
        if tag.len() >= 3 {
            if v.len() >= 3 {
                assert(tag[tag.len() - 3] == v[v.len() - 3]);
                assert(tag[tag.len() - 2] == v[v.len() - 2]);
                assert(tag[tag.len() - 1] == v[v.len() - 1]);
            } else {
                assert(tag[tag.len() - 3] == 'v');
            }
        }
    }
    lemma_strip_peeled_plain(tag);
    if peeled {
        assert(tm.take(tm.len() - 3) =~= tag);
    } else {
        assert(tm =~= tag);
    }
    assert(tag.drop_first() =~= v);
}

proof fn lemma_dedup_contains(vs: Seq<Seq<char>>, x: Seq<char>)
    ensures
        dedup(vs).contains(x) <==> vs.contains(x),
    decreases vs.len(),
{
    lemma_dedup_members(vs);
    if vs.len() > 0 {
        let r = vs.drop_last();
        lemma_dedup_contains(r, x);
        let d = dedup(r);
        if vs.contains(x) {
            let k = choose|k: int| 0 <= k < vs.len() && vs[k] == x;
            if k < r.len() {
                assert(r[k] == x);
                let m = choose|m: int| 0 <= m < d.len() && d[m] == x;
                if !d.contains(vs.last()) {
                    assert(d.push(vs.last())[m] == x);
                }
            } else if !d.contains(vs.last()) {
                assert(d.push(vs.last())[d.len() as int] == x);
            }
        }
    }
}

proof fn lemma_line_versions_contains(ls: Seq<Seq<char>>, x: Seq<char>)
    ensures
        line_versions(ls).contains(x) <==> exists|i: int|
            0 <= i < ls.len() && ls_remote_version(#[trigger] ls[i]) == Some(x),
    decreases ls.len(),
{
    if ls.len() > 0 {
        let r = ls.drop_last();
        lemma_line_versions_contains(r, x);
        let rest = line_versions(r);
        if exists|i: int| 0 <= i < r.len() && ls_remote_version(#[trigger] r[i]) == Some(x) {
            let i = choose|i: int| 0 <= i < r.len() && ls_remote_version(#[trigger] r[i]) == Some(x);
            assert(ls[i] == r[i]);
        }
        if exists|i: int| 0 <= i < ls.len() && ls_remote_version(#[trigger] ls[i]) == Some(x) {
            let i = choose|i: int| 0 <= i < ls.len() && ls_remote_version(#[trigger] ls[i]) == Some(x);
            if i < r.len() {
                assert(r[i] == ls[i]);
            }
        }
        if let Some(v) = ls_remote_version(ls.last()) {
            if rest.push(v).contains(x) {
                let k = choose|k: int| 0 <= k < rest.push(v).len() && rest.push(v)[k] == x;
                if k < rest.len() {
                    assert(rest[k] == x);
                }
            }
            if rest.contains(x) {
                let k = choose|k: int| 0 <= k < rest.len() && rest[k] == x;
                assert(rest.push(v)[k] == x);
            }
            if v == x {
                assert(rest.push(v)[rest.len() as int] == x);
            }
        }
    }
}

/// A version is read from `git ls-remote --tags` output exactly when some
/// line of the output names it.
pub proof fn law_ls_remote_versions_are_the_named_ones(stdout: Seq<char>, x: Seq<char>)
    ensures
        dedup(line_versions(lines(stdout))).contains(x) <==> exists|i: int|
            0 <= i < lines(stdout).len() && ls_remote_version(#[trigger] lines(stdout)[i]) == Some(x),
{
    lemma_dedup_contains(line_versions(lines(stdout)), x);
    lemma_line_versions_contains(lines(stdout), x);
}

/// The versions read from `git ls-remote --tags` output are distinct, and
/// each starts with a digit.
pub proof fn lemma_ls_remote_versions_distinct(stdout: Seq<char>)
    ensures
        dedup(line_versions(lines(stdout))).no_duplicates(),
        forall|x: Seq<char>|
            #[trigger] dedup(line_versions(lines(stdout))).contains(x) ==> x.len() >= 1
                && is_ascii_digit(x[0]),
{
    let vs = line_versions(lines(stdout));
    lemma_dedup_members(vs);
    lemma_line_versions_are_versions(lines(stdout));
    assert forall|x: Seq<char>| #[trigger] dedup(vs).contains(x) implies x.len() >= 1
        && is_ascii_digit(x[0]) by {
        assert(vs.contains(x));
    }
}

// ---------------------------------------------------------------- tag names

/// `s` without all of its leading `v`s (`str::trim_start_matches('v')`).
pub open spec fn trim_leading_v(s: Seq<char>) -> Seq<char>
    decreases s.len(),
{
    if s.len() > 0 && s[0] == 'v' {
        trim_leading_v(s.drop_first())
    } else {
        s
    }
}

/// `trim_leading_v(s)` is `s` after its leading `v`s, and does not start
/// with `v`.
pub proof fn law_trim_leading_v(s: Seq<char>)
    ensures
        trim_leading_v(s).len() <= s.len(),
        s.skip(s.len() - trim_leading_v(s).len()) == trim_leading_v(s),
        forall|j: int| 0 <= j < s.len() - trim_leading_v(s).len() ==> #[trigger] s[j] == 'v',
        trim_leading_v(s).len() > 0 ==> trim_leading_v(s)[0] != 'v',
    decreases s.len(),
{
    if s.len() > 0 && s[0] == 'v' {
        let r = s.drop_first();
        law_trim_leading_v(r);
        assert(s.skip(s.len() - trim_leading_v(s).len()) =~= r.skip(r.len() - trim_leading_v(r).len()));
        assert forall|j: int| 0 <= j < s.len() - trim_leading_v(s).len() implies #[trigger] s[j]
            == 'v' by {
            if j > 0 {
                assert(s[j] == r[j - 1]);
            }
        }
    } else {
        assert(s.skip(0) =~= s);
    }
}

/// The versions named by tag names are exactly the names, without their
/// leading `v`s, that are not empty once the `v`s are gone.
pub proof fn law_tag_versions(names: Seq<Seq<char>>, x: Seq<char>)
    ensures
        tag_versions(names).contains(x) <==> (x.len() > 0 && exists|i: int|
            0 <= i < names.len() && trim_leading_v(#[trigger] names[i]) == x),
        tag_versions(names).len() <= names.len(),
    decreases names.len(),
{
    if names.len() > 0 {
        let r = names.drop_last();
        law_tag_versions(r, x);
        let rest = tag_versions(r);
        let t = trim_leading_v(names.last());
        if exists|i: int| 0 <= i < r.len() && trim_leading_v(#[trigger] r[i]) == x {
            let i = choose|i: int| 0 <= i < r.len() && trim_leading_v(#[trigger] r[i]) == x;
            assert(names[i] == r[i]);
        }
        if exists|i: int| 0 <= i < names.len() && trim_leading_v(#[trigger] names[i]) == x {
            let i = choose|i: int| 0 <= i < names.len() && trim_leading_v(#[trigger] names[i]) == x;
            if i < r.len() {
                assert(r[i] == names[i]);
            } else {
                assert(names[i] == names.last());
            }
        }
        if t.len() > 0 {
            assert(rest.push(t).contains(x) <==> (rest.contains(x) || x == t)) by {
                if rest.push(t).contains(x) {
                    let k = choose|k: int| 0 <= k < rest.push(t).len() && rest.push(t)[k] == x;
                    if k < rest.len() {
                        assert(rest[k] == x);
                    }
                }
                if rest.contains(x) {
                    let k = choose|k: int| 0 <= k < rest.len() && rest[k] == x;
                    assert(rest.push(t)[k] == x);
                }
                if x == t {
                    assert(rest.push(t)[rest.len() as int] == x);
                }
            }
        }
    }
}

fn trim_leading_v_of(s: &str) -> (r: String)
    ensures
        r@ == trim_leading_v(s@),
{
    let v = chars_of(s);
    let n = v.len();
    let mut a: usize = 0;
    assert(v@.subrange(0, n as int) =~= s@);
    while a < n && v[a] == 'v'
        invariant
            a <= n == v.len(),
            v@ == s@,
            trim_leading_v(s@) == trim_leading_v(v@.subrange(a as int, n as int)),
        decreases n - a,
    {
        assert(v@.subrange(a as int, n as int).drop_first() =~= v@.subrange(a + 1, n as int));
        a = a + 1;
    }
    substring(s, a, n)
}

/// The latest stable version from the `tag_name` of a release description:
/// the tag without its leading `v`s.
pub fn version_from_release_tag(tag_name: Option<&str>) -> (r: Result<String, UpgradeError>)
    ensures
        match tag_name {
            Some(t) => r matches Ok(v) && v@ == trim_leading_v(t@),
            None => r matches Err(UpgradeError::MissingTagName),
        },
{
    match tag_name {
        Some(t) => Ok(trim_leading_v_of(t)),
        None => Err(UpgradeError::MissingTagName),
    }
}

/// The versions named by a list of tag names, in order: each name without
/// its leading `v`s, when something is left.
pub open spec fn tag_versions(names: Seq<Seq<char>>) -> Seq<Seq<char>>
    decreases names.len(),
{
    if names.len() == 0 {
        Seq::empty()
    } else {
        let rest = tag_versions(names.drop_last());
        let t = trim_leading_v(names.last());
        if t.len() > 0 {
            rest.push(t)
        } else {
            rest
        }
    }
}

/// The versions named by the tags of the repository, from their names
/// (an absent name counts as the empty name).
pub fn versions_from_tag_names(names: &[String]) -> (r: Vec<String>)
    ensures
        string_views(r@) == tag_versions(string_views(names@)),
{
    let ghost ns = string_views(names@);
    let mut out: Vec<String> = Vec::new();
    let mut i: usize = 0;
    while i < names.len()
        invariant
            i <= names.len(),
            ns == string_views(names@),
            string_views(out@) == tag_versions(ns.take(i as int)),
        decreases names.len() - i,
    {
        let t = trim_leading_v_of(names[i].as_str());
        assert(ns.take(i + 1).drop_last() =~= ns.take(i as int));
        assert(ns.take(i + 1).last() == names@[i as int]@);
        if !t.as_str().is_empty() {
            out.push(t);
            assert(string_views(out@) =~= tag_versions(ns.take(i as int)).push(t@));
        }
        i = i + 1;
    }
    assert(ns.take(names.len() as int) =~= ns);
    out
}

// ---------------------------------------------------------------- latest version lookup

/// The outcome of a lookup that avoids the rate-limited GitHub API.
pub enum LatestLookup {
    /// The latest version.
    Found(String),
    /// Nothing usable: ask the GitHub API instead.
    AskApi,
}

/// The first highest of `vs`, when there is one.
pub open spec fn is_highest_of(vs: Seq<Seq<char>>, v: Seq<char>) -> bool {
    exists|i: int| is_first_highest(vs, i) && vs[i] == v
}

/// The latest stable version from the `/releases/latest` redirect, whose
/// final URL is `final_url` (`None` when the request failed or its status
/// was not a success): the version of a `/releases/tag/v<digit>…` page;
/// any other outcome asks the API.
pub fn latest_stable_from_redirect(final_url: Option<&str>) -> (r: LatestLookup)
    ensures
        match final_url {
            Some(u) => match release_tag_version(u@) {
                Some(v) => r matches LatestLookup::Found(x) && x@ == v,
                None => r is AskApi,
            },
            None => r is AskApi,
        },
{
    match final_url {
        Some(u) => match parse_release_tag_url(u) {
            Some(v) => LatestLookup::Found(v),
            None => LatestLookup::AskApi,
        },
        None => LatestLookup::AskApi,
    }
}

/// The latest version, pre-releases included, from the output of
/// `git ls-remote --tags` (`None` when git failed): the highest version it
/// names; when it names none, the API is asked.
pub fn latest_beta_from_ls_remote(stdout: Option<&str>) -> (r: LatestLookup)
    ensures
        match stdout {
            Some(o) => if dedup(line_versions(lines(o@))).len() == 0 {
                r is AskApi
            } else {
                r matches LatestLookup::Found(x) && is_highest_of(dedup(line_versions(lines(o@))), x@)
            },
            None => r is AskApi,
        },
{
    match stdout {
        Some(o) => {
            let versions = parse_ls_remote_versions(o);
            let ghost vs = string_views(versions@);
            match highest_version(versions.as_slice()) {
                Some(h) => {
                    let ghost i = choose|i: int| is_first_highest(vs, i) && h@ == versions@[i]@;
                    assert(vs[i] == versions@[i]@);
                    LatestLookup::Found(h)
                },
                None => LatestLookup::AskApi,
            }
        },
        None => LatestLookup::AskApi,
    }
}

/// The latest version, pre-releases included, from the tag names the
/// GitHub API lists: the highest version they name; none is refused.
pub fn latest_beta_from_tags(names: &[String]) -> (r: Result<String, UpgradeError>)
    ensures
        tag_versions(string_views(names@)).len() == 0 ==> r matches Err(UpgradeError::NoVersionFound),
        tag_versions(string_views(names@)).len() > 0 ==> (r matches Ok(x) && is_highest_of(
            tag_versions(string_views(names@)),
            x@,
        )),
{
    let versions = versions_from_tag_names(names);
    let ghost vs = string_views(versions@);
    match highest_version(versions.as_slice()) {
        Some(h) => {
            let ghost i = choose|i: int| is_first_highest(vs, i) && h@ == versions@[i]@;
            assert(vs[i] == versions@[i]@);
            Ok(h)
        },
        None => Err(UpgradeError::NoVersionFound),
    }
}

// ---------------------------------------------------------------- platform

/// The release triple built for an operating system and architecture, as
/// named by `std::env::consts::OS` and `std::env::consts::ARCH`.
pub open spec fn platform_triple(os: Seq<char>, arch: Seq<char>) -> Option<Seq<char>> {
    if os == "macos"@ && arch == "x86_64"@ {
        Some("x86_64-apple-darwin"@)
    } else if os == "macos"@ && arch == "aarch64"@ {
        Some("aarch64-apple-darwin"@)
    } else if os == "linux"@ && arch == "x86_64"@ {
        Some("x86_64-unknown-linux-gnu"@)
    } else if os == "linux"@ && arch == "x86"@ {
        Some("i686-unknown-linux-gnu"@)
    } else if os == "linux"@ && arch == "aarch64"@ {
        Some("aarch64-unknown-linux-gnu"@)
    } else if os == "linux"@ && arch == "arm"@ {
        Some("armv7-unknown-linux-gnueabihf"@)
    } else if os == "windows"@ && arch == "x86_64"@ {
        Some("x86_64-pc-windows-msvc"@)
    } else {
        None
    }
}

/// The release triple for the platform `os`/`arch`; platforms without a
/// release build are refused.
pub fn target_triple(os: &str, arch: &str) -> (r: Result<&'static str, UpgradeError>)
    ensures
        match platform_triple(os@, arch@) {
            Some(t) => r matches Ok(x) && x@ == t,
            None => r matches Err(UpgradeError::UnsupportedPlatform),
        },
{
    let macos = same_text(os, "macos");
    let linux = same_text(os, "linux");
    let windows = same_text(os, "windows");
    let x86_64 = same_text(arch, "x86_64");
    let aarch64 = same_text(arch, "aarch64");
    if macos && x86_64 {
        Ok("x86_64-apple-darwin")
    } else if macos && aarch64 {
        Ok("aarch64-apple-darwin")
    } else if linux && x86_64 {
        Ok("x86_64-unknown-linux-gnu")
    } else if linux && same_text(arch, "x86") {
        Ok("i686-unknown-linux-gnu")
    } else if linux && aarch64 {
        Ok("aarch64-unknown-linux-gnu")
    } else if linux && same_text(arch, "arm") {
        Ok("armv7-unknown-linux-gnueabihf")
    } else if windows && x86_64 {
        Ok("x86_64-pc-windows-msvc")
    } else {
        Err(UpgradeError::UnsupportedPlatform)
    }
}

// ---------------------------------------------------------------- release assets

/// Where the files of one release live.
pub struct ReleaseAssets {
    /// `onchainos-<triple>`.
    pub binary_name: String,
    /// `v<version>`.
    pub tag: String,
    pub binary_url: String,
    pub checksums_url: String,
}

pub open spec fn release_download_prefix(tag: Seq<char>) -> Seq<char> {
    "https://github.com/"@ + REPO@ + "/releases/download/"@ + tag
}

/// The names and download URLs of the binary for `triple` and of the
/// checksum list of release `version`.
pub fn release_assets(version: &str, triple: &str) -> (r: ReleaseAssets)
    ensures
        r.binary_name@ == "onchainos-"@ + triple@,
        r.tag@ == "v"@ + version@,
        r.binary_url@ == release_download_prefix(r.tag@) + "/"@ + r.binary_name@,
        r.checksums_url@ == release_download_prefix(r.tag@) + "/checksums.txt"@,
{
    let mut binary_name = "onchainos-".to_owned();
    binary_name.append(triple);
    let mut tag = "v".to_owned();
    tag.append(version);
    let mut prefix = "https://github.com/".to_owned();
    prefix.append(REPO);
    prefix.append("/releases/download/");
    prefix.append(tag.as_str());
    let mut binary_url = prefix.clone();
    binary_url.append("/");
    binary_url.append(binary_name.as_str());
    let mut checksums_url = prefix;
    checksums_url.append("/checksums.txt");
    ReleaseAssets { binary_name, tag, binary_url, checksums_url }
}

// ---------------------------------------------------------------- upgrade run

/// What an upgrade run does once the latest version is known.
#[derive(Clone, Copy, Debug, PartialEq, Eq, Structural)]
pub enum UpgradePlan {
    /// Only report whether an update is available.
    Report { update_available: bool },
    /// Report that the installed version is already the latest.
    AlreadyLatest,
    /// Download and install the latest version.
    Install,
}

pub open spec fn upgrade_plan(args: UpgradeArgs, current: Seq<char>, latest: Seq<char>) -> UpgradePlan {
    if args.check {
        UpgradePlan::Report { update_available: newer(latest, current) }
    } else if args.force || newer(latest, current) {
        UpgradePlan::Install
    } else {
        UpgradePlan::AlreadyLatest
    }
}

/// An upgrade run with `--check` only reports, and reports an update
/// exactly when the latest version is newer. Without it, `--force` always
/// installs; otherwise the latest version is installed exactly when it is
/// newer than the installed one, so an equal or older latest version (a
/// downgrade) leaves the installed one in place.
pub proof fn law_plan_installs_only_newer(args: UpgradeArgs, current: Seq<char>, latest: Seq<char>)
    ensures
        args.check ==> upgrade_plan(args, current, latest) == (UpgradePlan::Report {
            update_available: newer(latest, current),
        }),
        !args.check && args.force ==> upgrade_plan(args, current, latest) == UpgradePlan::Install,
        !args.check && !args.force ==> ((upgrade_plan(args, current, latest) == UpgradePlan::Install)
            <==> newer(latest, current)),
        !args.check && !args.force && !newer(latest, current) ==> upgrade_plan(args, current, latest)
            == UpgradePlan::AlreadyLatest,
        !args.check && !args.force && newer(current, latest) ==> upgrade_plan(args, current, latest)
            == UpgradePlan::AlreadyLatest,
        !args.check && !args.force ==> upgrade_plan(args, current, current)
            == UpgradePlan::AlreadyLatest,
{
    crate::version::lemma_newer_asymmetric(current, latest);
    crate::version::lemma_newer_irreflexive(current);
}

/// Decides an upgrade run from its options, the installed version and the
/// latest version: `--check` only reports whether the latest is newer;
/// otherwise a newer latest version, or `--force`, installs it.
pub fn plan_upgrade(args: &UpgradeArgs, current: &str, latest: &str) -> (p: UpgradePlan)
    ensures
        p == upgrade_plan(*args, current@, latest@),
{
    if args.check {
        return UpgradePlan::Report { update_available: semver_gt(latest, current) };
    }
    if args.force || semver_gt(latest, current) {
        UpgradePlan::Install
    } else {
        UpgradePlan::AlreadyLatest
    }
}

} // verus!
