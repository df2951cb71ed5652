//! Verifying a downloaded release binary against the published checksum
//! list (`checksums.txt`: one `<sha256-hex>  <file name>` line per file).

use vstd::prelude::*;
use sha2::Digest;
use crate::release::UpgradeError;
use crate::text::{
    chars_of, contains_str, find_str_in, is_whitespace, law_lines_first_line, law_lines_last_line,
    lemma_find_str_contains, lemma_trim_start_skip, lines, next_line_in, same_text, strip_cr, substring, trim_start,
    whitespace,
};

verus! {

broadcast use vstd::string::group_string_axioms;

// ---------------------------------------------------------------- checksum list

/// The text of `t` up to its first whitespace.
pub open spec fn up_to_whitespace(t: Seq<char>) -> Seq<char>
    decreases t.len(),
{
    if t.len() == 0 {
        t
    } else if is_whitespace(t[0]) {
        Seq::empty()
    } else {
        seq![t[0]] + up_to_whitespace(t.drop_first())
    }
}

/// The first whitespace-separated word of `l` (`split_whitespace().next()`).
pub open spec fn first_word(l: Seq<char>) -> Option<Seq<char>> {
    let t = trim_start(l);
    if t.len() == 0 {
        None
    } else {
        Some(up_to_whitespace(t))
    }
}

/// The first word of the first line that contains `name`.
pub open spec fn checksum_in_lines(ls: Seq<Seq<char>>, name: Seq<char>) -> Option<Seq<char>>
    decreases ls.len(),
{
    if ls.len() == 0 {
        None
    } else if contains_str(ls[0], name) {
        first_word(ls[0])
    } else {
        checksum_in_lines(ls.drop_first(), name)
    }
}

/// The checksum that the list `text` gives for the file `name`: the first
/// word of the first line that contains `name`.
pub open spec fn checksum_for(text: Seq<char>, name: Seq<char>) -> Option<Seq<char>> {
    checksum_in_lines(lines(text), name)
}

/// The checksum list is searched from its first line: when the first
/// line names the file, its first word is the checksum; otherwise the
/// search goes on with the rest of the list.
pub proof fn law_checksum_first_matching_line(l: Seq<char>, rest: Seq<char>, name: Seq<char>)
    requires
        forall|j: int| 0 <= j < l.len() ==> l[j] != '\n',
    ensures
        contains_str(strip_cr(l), name) ==> checksum_for(l + seq!['\n'] + rest, name) == first_word(
            strip_cr(l),
        ),
        !contains_str(strip_cr(l), name) ==> checksum_for(l + seq!['\n'] + rest, name)
            == checksum_for(rest, name),
{
    law_lines_first_line(l, rest);
    let ls = seq![strip_cr(l)] + lines(rest);
    assert(ls[0] == strip_cr(l));
    assert(ls.drop_first() =~= lines(rest));
}

/// A list whose last line has no `\n` after it: that line is searched too.
/// An empty list names no checksum.
pub proof fn law_checksum_last_line(l: Seq<char>, name: Seq<char>)
    requires
        forall|j: int| 0 <= j < l.len() ==> l[j] != '\n',
    ensures
        l.len() > 0 && contains_str(l, name) ==> checksum_for(l, name) == first_word(l),
        l.len() > 0 && !contains_str(l, name) ==> checksum_for(l, name) is None,
        checksum_for(Seq::empty(), name) is None,
{
    if l.len() > 0 {
        law_lines_last_line(l);
        assert(seq![l][0] == l);
        assert(seq![l].drop_first() =~= Seq::<Seq<char>>::empty());
        assert(checksum_in_lines(Seq::<Seq<char>>::empty(), name) is None);
    }
}

/// The first word of a line: `None` exactly when the line is all
/// whitespace; otherwise a non-empty run of non-whitespace characters that
/// stands in the line after only whitespace, and ends at the line's end or
/// at a whitespace character.
pub proof fn law_first_word(l: Seq<char>)
    ensures
        first_word(l) is None <==> (forall|j: int| 0 <= j < l.len() ==> is_whitespace(#[trigger] l[j])),
        first_word(l) matches Some(w) ==> {
            &&& w.len() > 0
            &&& forall|j: int| 0 <= j < w.len() ==> !is_whitespace(#[trigger] w[j])
            &&& exists|k: int|
                0 <= k && k + w.len() <= l.len() && #[trigger] l.subrange(k, k + w.len()) == w
                    && (forall|j: int| 0 <= j < k ==> is_whitespace(#[trigger] l[j])) && (k + w.len()
                    == l.len() || is_whitespace(l[k + w.len()]))
        },
{
    let k = lemma_trim_start_skip(l);
    let t = trim_start(l);
    lemma_up_to_whitespace(t);
    if t.len() > 0 {
        let w = up_to_whitespace(t);
        assert(t[0] == l[k]);
        assert(w.len() > 0);
        assert forall|j: int| 0 <= j < w.len() implies !is_whitespace(#[trigger] w[j]) by {
            assert(w[j] == t[j]);
        }
        assert(l.subrange(k, k + w.len()) =~= w) by {
            assert forall|j: int| 0 <= j < w.len() implies l.subrange(k, k + w.len())[j] == w[j] by {
                assert(w[j] == t[j]);
                assert(t[j] == l[k + j]);
            }
        }
        if w.len() < t.len() {
            assert(l[k + w.len()] == t[w.len() as int]);
        }
        assert(first_word(l) == Some(w));
    } else {
        assert forall|j: int| 0 <= j < l.len() implies is_whitespace(#[trigger] l[j]) by {
            assert(j < k);
        }
    }
}

/// `up_to_whitespace(t)` is the prefix of `t` before its first whitespace.
proof fn lemma_up_to_whitespace(t: Seq<char>)
    ensures
        up_to_whitespace(t).len() <= t.len(),
        up_to_whitespace(t) == t.take(up_to_whitespace(t).len() as int),
        forall|j: int| 0 <= j < up_to_whitespace(t).len() ==> !is_whitespace(#[trigger] t[j]),
        up_to_whitespace(t).len() < t.len() ==> is_whitespace(t[up_to_whitespace(t).len() as int]),
        t.len() > 0 && !is_whitespace(t[0]) ==> up_to_whitespace(t).len() > 0,
    decreases t.len(),
{
    if t.len() > 0 && !is_whitespace(t[0]) {
        let r = t.drop_first();
        lemma_up_to_whitespace(r);
        let u = up_to_whitespace(r);
        assert(seq![t[0]] + u =~= t.take(u.len() as int + 1)) by {
            assert(u =~= r.take(u.len() as int));
        }
        assert forall|j: int| 0 <= j < u.len() + 1 implies !is_whitespace(#[trigger] t[j]) by {
            if j > 0 {
                assert(t[j] == r[j - 1]);
            }
        }
        if u.len() < r.len() {
            assert(t[u.len() as int + 1] == r[u.len() as int]);
        }
    } else {
        assert(t.take(0) =~= Seq::<char>::empty());
    }
}

fn first_word_in(v: &Vec<char>, lo: usize, hi: usize) -> (r: Option<(usize, usize)>)
    requires
        lo <= hi <= v.len(),
    ensures
        match r {
            Some((a, b)) => lo <= a <= b <= hi && first_word(v@.subrange(lo as int, hi as int))
                == Some(v@.subrange(a as int, b as int)),
            None => first_word(v@.subrange(lo as int, hi as int)) is None,
        },
{
    let mut a = lo;
    while a < hi && whitespace(v[a])
        invariant
            lo <= a <= hi <= v.len(),
            trim_start(v@.subrange(lo as int, hi as int)) == trim_start(
                v@.subrange(a as int, hi as int),
            ),
        decreases hi - a,
    {
        assert(v@.subrange(a as int, hi as int).drop_first() =~= v@.subrange(a + 1, hi as int));
        a = a + 1;
    }
    assert(trim_start(v@.subrange(a as int, hi as int)) == v@.subrange(a as int, hi as int));
    if a == hi {
        return None;
    }
    let mut b = a;
    while b < hi && !whitespace(v[b])
        invariant
            lo <= a <= b <= hi <= v.len(),
            up_to_whitespace(v@.subrange(a as int, hi as int)) == v@.subrange(a as int, b as int)
                + up_to_whitespace(v@.subrange(b as int, hi as int)),
        decreases hi - b,
    {
        let ghost rest = v@.subrange(b as int, hi as int);
        assert(rest.drop_first() =~= v@.subrange(b + 1, hi as int));
        assert(v@.subrange(a as int, b as int) + seq![rest[0]] =~= v@.subrange(a as int, b + 1));
        b = b + 1;
    }
    assert(v@.subrange(a as int, b as int) + up_to_whitespace(v@.subrange(b as int, hi as int))
        =~= v@.subrange(a as int, b as int));
    Some((a, b))
}

/// The checksum that the list `checksums` gives for `binary_name`: the
/// first word of the first line that names it; a list without one is
/// refused.
pub fn expected_checksum(checksums: &str, binary_name: &str) -> (r: Result<String, UpgradeError>)
    ensures
        match checksum_for(checksums@, binary_name@) {
            Some(c) => r matches Ok(x) && x@ == c,
            None => r matches Err(UpgradeError::ChecksumNotFound),
        },
{
    let v = chars_of(checksums);
    let name = chars_of(binary_name);
    let n = v.len();
    let mut pos: usize = 0;
    assert(v@.subrange(0, n as int) =~= checksums@);
    while pos < n
        invariant
            pos <= n == v.len(),
            v@ == checksums@,
            name@ == binary_name@,
            checksum_for(checksums@, binary_name@) == checksum_in_lines(
                lines(v@.subrange(pos as int, n as int)),
                name@,
            ),
        decreases n - pos,
    {
        let (lo, hi, next) = next_line_in(&v, pos, n);
        let ghost line = v@.subrange(lo as int, hi as int);
        let ghost rest = lines(v@.subrange(next as int, n as int));
        assert((seq![line] + rest)[0] == line);
        assert((seq![line] + rest).drop_first() =~= rest);
        proof {
            lemma_find_str_contains(line, name@);
        }
        if find_str_in(&v, lo, hi, &name).is_some() {
            return match first_word_in(&v, lo, hi) {
                Some((a, b)) => Ok(substring(checksums, a, b)),
                None => Err(UpgradeError::ChecksumNotFound),
            };
        }
        pos = next;
    }
    assert(lines(v@.subrange(n as int, n as int)).len() == 0);
    Err(UpgradeError::ChecksumNotFound)
}

// ---------------------------------------------------------------- digest

/// The SHA-256 digest of `data`.
pub uninterp spec fn sha256(data: Seq<u8>) -> Seq<u8>;

/// Calls `sha2::Sha256::digest` (through the `Digest` trait); the claim is
/// that the digest is a function of the data, named `sha256`, 32 bytes long.
#[verifier::external_body]
fn sha256_digest(data: &[u8]) -> (d: Vec<u8>)
    ensures
        d@ == sha256(data@),
        d@.len() == 32,
{
    sha2::Sha256::digest(data).to_vec()
}

pub open spec fn hex_char(n: int) -> char {
    seq!['0', '1', '2', '3', '4', '5', '6', '7', '8', '9', 'a', 'b', 'c', 'd', 'e', 'f'][n]
}

/// Lower-case hexadecimal text of `bytes`: two digits per byte, the high
/// nibble first.
pub open spec fn hex_lower(bytes: Seq<u8>) -> Seq<char>
    decreases bytes.len(),
{
    if bytes.len() == 0 {
        Seq::empty()
    } else {
        hex_lower(bytes.drop_last()) + seq![
            hex_char(bytes.last() as int / 16),
            hex_char(bytes.last() as int % 16),
        ]
    }
}

/// The value of a lower-case hexadecimal digit; -1 for any other
/// character.
pub open spec fn hex_digit_value(c: char) -> int {
    if '0' <= c && c <= '9' {
        c as int - '0' as int
    } else if 'a' <= c && c <= 'f' {
        c as int - 'a' as int + 10
    } else {
        -1
    }
}

proof fn lemma_hex_char(n: int)
    requires
        0 <= n < 16,
    ensures
        hex_digit_value(hex_char(n)) == n,
{
    let t = seq!['0', '1', '2', '3', '4', '5', '6', '7', '8', '9', 'a', 'b', 'c', 'd', 'e', 'f'];
    assert(t[0] == '0' && t[1] == '1' && t[2] == '2' && t[3] == '3' && t[4] == '4');
    assert(t[5] == '5' && t[6] == '6' && t[7] == '7' && t[8] == '8' && t[9] == '9');
    assert(t[10] == 'a' && t[11] == 'b' && t[12] == 'c' && t[13] == 'd' && t[14] == 'e'
        && t[15] == 'f');
}

/// The hexadecimal text of bytes has two lower-case digits per byte, high
/// nibble first: digit `2i` times 16 plus digit `2i + 1` is byte `i`.
pub proof fn law_hex_lower(bytes: Seq<u8>)
    ensures
        hex_lower(bytes).len() == 2 * bytes.len(),
        forall|i: int|
            0 <= i < bytes.len() ==> hex_digit_value(#[trigger] hex_lower(bytes)[2 * i]) * 16
                + hex_digit_value(hex_lower(bytes)[2 * i + 1]) == bytes[i] && 0 <= hex_digit_value(
                hex_lower(bytes)[2 * i],
            ) && 0 <= hex_digit_value(hex_lower(bytes)[2 * i + 1]),
    decreases bytes.len(),
{
    if bytes.len() > 0 {
        let r = bytes.drop_last();
        law_hex_lower(r);
        let h = hex_lower(bytes);
        let b = bytes.last() as int;
        lemma_hex_char(b / 16);
        lemma_hex_char(b % 16);
        assert forall|i: int| 0 <= i < bytes.len() implies hex_digit_value(#[trigger] h[2 * i]) * 16
            + hex_digit_value(h[2 * i + 1]) == bytes[i] && 0 <= hex_digit_value(h[2 * i]) && 0
            <= hex_digit_value(h[2 * i + 1]) by {
            if i < r.len() {
                assert(h[2 * i] == hex_lower(r)[2 * i]);
                assert(h[2 * i + 1] == hex_lower(r)[2 * i + 1]);
                assert(bytes[i] == r[i]);
            } else {
                assert(h[2 * i] == hex_char(b / 16));
                assert(h[2 * i + 1] == hex_char(b % 16));
            }
        }
    }
}

/// Calls `hex::encode`; the claim is that the text is the lower-case
/// hexadecimal form of the bytes, as `hex_lower` states it.
#[verifier::external_body]
fn hex_encode(data: &[u8]) -> (s: String)
    ensures
        s@ == hex_lower(data@),
{
    hex::encode(data)
}

/// Compares a binary's digest with the checksum published for it: the
/// lower-case hexadecimal text of `digest` must equal `expected`.
pub fn checksum_matches(digest: &[u8], expected: &str) -> (r: Result<(), UpgradeError>)
    ensures
        hex_lower(digest@) == expected@ ==> r is Ok,
        hex_lower(digest@) != expected@ ==> (r matches Err(
            UpgradeError::ChecksumMismatch { expected: e, actual: a },
        ) && e@ == expected@ && a@ == hex_lower(digest@)),
{
    let actual = hex_encode(digest);
    if same_text(actual.as_str(), expected) {
        Ok(())
    } else {
        Err(UpgradeError::ChecksumMismatch { expected: expected.to_owned(), actual })
    }
}

/// SHA-256 verification of a downloaded binary against its published
/// checksum.
pub fn verify_checksum(binary: &[u8], expected: &str) -> (r: Result<(), UpgradeError>)
    ensures
        hex_lower(sha256(binary@)) == expected@ ==> r is Ok,
        hex_lower(sha256(binary@)) != expected@ ==> (r matches Err(
            UpgradeError::ChecksumMismatch { expected: e, actual: a },
        ) && e@ == expected@ && a@ == hex_lower(sha256(binary@))),
{
    let digest = sha256_digest(binary);
    checksum_matches(digest.as_slice(), expected)
}

} // verus!
