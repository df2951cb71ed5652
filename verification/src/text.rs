//! Character-level text helpers shared by the parsers, with their models
//! over `Seq<char>`. Positions are character positions; the executable
//! helpers work on a `Vec<char>` holding the characters of the text.

use vstd::prelude::*;
use vstd::string::StrSliceExecFns;

verus! {

broadcast use vstd::string::group_string_axioms;

/// `'0'..='9'`, as `char::is_ascii_digit`.
pub open spec fn is_ascii_digit(c: char) -> bool {
    '0' <= c && c <= '9'
}

/// The Unicode `White_Space` property, as `char::is_whitespace`.
pub open spec fn is_whitespace(c: char) -> bool {
    let u = c as u32;
    ||| 0x09 <= u <= 0x0D
    ||| u == 0x20
    ||| u == 0x85
    ||| u == 0xA0
    ||| u == 0x1680
    ||| 0x2000 <= u <= 0x200A
    ||| u == 0x2028
    ||| u == 0x2029
    ||| u == 0x202F
    ||| u == 0x205F
    ||| u == 0x3000
}

pub fn ascii_digit(c: char) -> (b: bool)
    ensures
        b == is_ascii_digit(c),
{
    '0' <= c && c <= '9'
}

pub fn whitespace(c: char) -> (b: bool)
    ensures
        b == is_whitespace(c),
{
    let u = c as u32;
    (0x09 <= u && u <= 0x0D) || u == 0x20 || u == 0x85 || u == 0xA0 || u == 0x1680 || (0x2000
        <= u && u <= 0x200A) || u == 0x2028 || u == 0x2029 || u == 0x202F || u == 0x205F || u
        == 0x3000
}

// ---------------------------------------------------------------- searching

/// `i` is the position of the first `c` in `s`.
pub open spec fn is_first_index(s: Seq<char>, c: char, i: int) -> bool {
    &&& 0 <= i < s.len()
    &&& s[i] == c
    &&& forall|j: int| 0 <= j < i ==> s[j] != c
}

/// Position of the first `c` in `s` (`str::find` with a `char`).
pub open spec fn find_char(s: Seq<char>, c: char) -> Option<int> {
    if exists|i: int| is_first_index(s, c, i) {
        Some(choose|i: int| is_first_index(s, c, i))
    } else {
        None
    }
}

pub proof fn lemma_find_char_at(s: Seq<char>, c: char, i: int)
    requires
        is_first_index(s, c, i),
    ensures
        find_char(s, c) == Some(i),
{
    let k = choose|k: int| is_first_index(s, c, k);
    if k < i {
        assert(s[k] != c);
    } else if i < k {
        assert(s[i] != c);
    }
}

pub proof fn lemma_find_char_absent(s: Seq<char>, c: char)
    requires
        forall|j: int| 0 <= j < s.len() ==> s[j] != c,
    ensures
        find_char(s, c) is None,
{
}

pub proof fn lemma_find_char_bounds(s: Seq<char>, c: char)
    ensures
        find_char(s, c) matches Some(i) ==> is_first_index(s, c, i),
        find_char(s, c) is None ==> forall|j: int| 0 <= j < s.len() ==> s[j] != c,
{
    if find_char(s, c) is None {
        assert forall|j: int| 0 <= j < s.len() implies s[j] != c by {
            if s[j] == c {
                lemma_first_occurrence_exists(s, c, j);
            }
        }
    }
}

proof fn lemma_first_occurrence_exists(s: Seq<char>, c: char, j: int)
    requires
        0 <= j < s.len(),
        s[j] == c,
    ensures
        exists|i: int| is_first_index(s, c, i),
    decreases j,
{
    if exists|k: int| 0 <= k < j && s[k] == c {
        let k = choose|k: int| 0 <= k < j && s[k] == c;
        lemma_first_occurrence_exists(s, c, k);
    } else {
        assert(is_first_index(s, c, j));
    }
}

/// First `c` in the characters `lo..hi` of `v`, as a position in `v`.
pub fn find_char_in(v: &Vec<char>, lo: usize, hi: usize, c: char) -> (r: Option<usize>)
    requires
        lo <= hi <= v.len(),
    ensures
        match r {
            Some(k) => lo <= k < hi && find_char(v@.subrange(lo as int, hi as int), c) == Some(
                k - lo,
            ),
            None => find_char(v@.subrange(lo as int, hi as int), c) is None,
        },
{
    let ghost s = v@.subrange(lo as int, hi as int);
    let mut i = lo;
    while i < hi
        invariant
            lo <= i <= hi <= v.len(),
            s == v@.subrange(lo as int, hi as int),
            forall|j: int| 0 <= j < i - lo ==> s[j] != c,
        decreases hi - i,
    {
        if v[i] == c {
            proof {
                lemma_find_char_at(s, c, i - lo);
            }
            return Some(i);
        }
        i = i + 1;
    }
    proof {
        lemma_find_char_absent(s, c);
    }
    None
}

/// `i` is the position of the last `c` in `s`.
pub open spec fn is_last_index(s: Seq<char>, c: char, i: int) -> bool {
    &&& 0 <= i < s.len()
    &&& s[i] == c
    &&& forall|j: int| i < j < s.len() ==> s[j] != c
}

/// The text after the last `c` in `s`, or all of `s` when it holds no `c`
/// (`str::rsplit(c).next()`).
pub open spec fn after_last(s: Seq<char>, c: char) -> Seq<char> {
    if exists|i: int| is_last_index(s, c, i) {
        s.skip((choose|i: int| is_last_index(s, c, i)) + 1)
    } else {
        s
    }
}

/// The text after the last `c` of `a + c + b`, where `b` holds no `c`, is
/// `b`; a text without `c` is kept whole.
pub proof fn law_after_last(a: Seq<char>, c: char, b: Seq<char>)
    requires
        forall|j: int| 0 <= j < b.len() ==> b[j] != c,
    ensures
        after_last(a + seq![c] + b, c) == b,
        (forall|j: int| 0 <= j < a.len() ==> a[j] != c) ==> after_last(a, c) == a,
{
    let s = a + seq![c] + b;
    let i = a.len() as int;
    assert(is_last_index(s, c, i)) by {
        assert forall|j: int| i < j < s.len() implies s[j] != c by {
            assert(s[j] == b[j - i - 1]);
        }
    }
    let k = choose|k: int| is_last_index(s, c, k);
    if k < i {
        assert(s[i] == c);
    } else if k > i {
        assert(s[k] == b[k - i - 1]);
    }
    assert(s.skip(i + 1) =~= b);
}

/// Start of the text after the last `c` in the characters `lo..hi` of `v`.
pub fn after_last_in(v: &Vec<char>, lo: usize, hi: usize, c: char) -> (r: usize)
    requires
        lo <= hi <= v.len(),
    ensures
        lo <= r <= hi,
        after_last(v@.subrange(lo as int, hi as int), c) == v@.subrange(r as int, hi as int),
{
    let ghost s = v@.subrange(lo as int, hi as int);
    let mut i = hi;
    while i > lo
        invariant
            lo <= i <= hi <= v.len(),
            s == v@.subrange(lo as int, hi as int),
            forall|j: int| i - lo <= j < s.len() ==> s[j] != c,
        decreases i - lo,
    {
        if v[i - 1] == c {
            proof {
                let k = choose|k: int| is_last_index(s, c, k);
                assert(is_last_index(s, c, i - 1 - lo));
                if k < i - 1 - lo {
                    assert(s[i - 1 - lo] != c);
                } else if k > i - 1 - lo {
                    assert(s[k] != c);
                }
                assert(s.skip(i - lo) =~= v@.subrange(i as int, hi as int));
            }
            return i;
        }
        i = i - 1;
    }
    proof {
        assert(s =~= v@.subrange(lo as int, hi as int));
    }
    lo
}

// ---------------------------------------------------------------- splitting

/// The `k`-th piece of `s` split at every `c` (`str::split(c).nth(k)`).
pub open spec fn nth_piece(s: Seq<char>, c: char, k: nat) -> Option<Seq<char>>
    decreases k,
{
    match find_char(s, c) {
        None => if k == 0 {
            Some(s)
        } else {
            None
        },
        Some(i) => if k == 0 {
            Some(s.take(i))
        } else {
            nth_piece(s.skip(i + 1), c, (k - 1) as nat)
        },
    }
}

/// Bounds, in `v`, of the `k`-th piece of the characters `lo..hi` split at `c`.
pub fn nth_piece_in(v: &Vec<char>, lo: usize, hi: usize, c: char, k: usize) -> (r: Option<
    (usize, usize),
>)
    requires
        lo <= hi <= v.len(),
    ensures
        match r {
            Some((a, b)) => lo <= a <= b <= hi && nth_piece(
                v@.subrange(lo as int, hi as int),
                c,
                k as nat,
            ) == Some(v@.subrange(a as int, b as int)),
            None => nth_piece(v@.subrange(lo as int, hi as int), c, k as nat) is None,
        },
    decreases k,
{
    let ghost s = v@.subrange(lo as int, hi as int);
    match find_char_in(v, lo, hi, c) {
        None => {
            if k == 0 {
                Some((lo, hi))
            } else {
                None
            }
        },
        Some(i) => {
            if k == 0 {
                assert(s.take(i - lo) =~= v@.subrange(lo as int, i as int));
                Some((lo, i))
            } else {
                assert(s.skip(i - lo + 1) =~= v@.subrange(i + 1, hi as int));
                nth_piece_in(v, i + 1, hi, c, k - 1)
            }
        },
    }
}

/// Splitting at `c`: a text without `c` is one piece; a text `a + c +
/// rest` with no `c` in `a` has `a` as its first piece, followed by the
/// pieces of `rest`.
pub proof fn law_nth_piece(a: Seq<char>, c: char, rest: Seq<char>, k: nat)
    requires
        forall|j: int| 0 <= j < a.len() ==> a[j] != c,
    ensures
        nth_piece(a, c, 0) == Some(a),
        k > 0 ==> nth_piece(a, c, k) is None,
        nth_piece(a + seq![c] + rest, c, 0) == Some(a),
        nth_piece(a + seq![c] + rest, c, k + 1) == nth_piece(rest, c, k),
{
    lemma_find_char_absent(a, c);
    let s = a + seq![c] + rest;
    assert(is_first_index(s, c, a.len() as int)) by {
        assert forall|j: int| 0 <= j < a.len() implies s[j] != c by {
            assert(s[j] == a[j]);
        }
    }
    lemma_find_char_at(s, c, a.len() as int);
    assert(s.take(a.len() as int) =~= a);
    assert(s.skip(a.len() as int + 1) =~= rest);
}

/// A string of one or more ASCII digits whose value fits parses as that
/// value.
pub proof fn law_parse_u32_digits(d: Seq<char>)
    requires
        d.len() > 0,
        all_ascii_digits(d),
        digits_value(d) <= u32::MAX,
    ensures
        parse_u32(d) == Some(digits_value(d) as u32),
{
    assert(is_ascii_digit(d[0]));
}

// ---------------------------------------------------------------- trimming

/// `s` without its leading whitespace.
pub open spec fn trim_start(s: Seq<char>) -> Seq<char>
    decreases s.len(),
{
    if s.len() > 0 && is_whitespace(s[0]) {
        trim_start(s.drop_first())
    } else {
        s
    }
}

/// `s` without its trailing whitespace.
pub open spec fn trim_end(s: Seq<char>) -> Seq<char>
    decreases s.len(),
{
    if s.len() > 0 && is_whitespace(s.last()) {
        trim_end(s.drop_last())
    } else {
        s
    }
}

/// `s` without leading and trailing whitespace (`str::trim`).
pub open spec fn trim(s: Seq<char>) -> Seq<char> {
    trim_end(trim_start(s))
}

/// Bounds, in `v`, of the characters `lo..hi` trimmed of whitespace.
pub fn trim_in(v: &Vec<char>, lo: usize, hi: usize) -> (r: (usize, usize))
    requires
        lo <= hi <= v.len(),
    ensures
        lo <= r.0 <= r.1 <= hi,
        trim(v@.subrange(lo as int, hi as int)) == v@.subrange(r.0 as int, r.1 as int),
{
    let ghost s = v@.subrange(lo as int, hi as int);
    let mut a = lo;
    while a < hi && whitespace(v[a])
        invariant
            lo <= a <= hi <= v.len(),
            trim_start(s) == trim_start(v@.subrange(a as int, hi as int)),
        decreases hi - a,
    {
        assert(v@.subrange(a as int, hi as int).drop_first() =~= v@.subrange(a + 1, hi as int));
        a = a + 1;
    }
    assert(trim_start(v@.subrange(a as int, hi as int)) == v@.subrange(a as int, hi as int));
    let mut b = hi;
    while b > a && whitespace(v[b - 1])
        invariant
            lo <= a <= b <= hi <= v.len(),
            trim(s) == trim_end(v@.subrange(a as int, b as int)),
        decreases b - a,
    {
        assert(v@.subrange(a as int, b as int).drop_last() =~= v@.subrange(a as int, b - 1));
        b = b - 1;
    }
    (a, b)
}

/// `trim_start(l)` is `l` after its leading whitespace, `k` characters.
pub proof fn lemma_trim_start_skip(l: Seq<char>) -> (k: int)
    ensures
        0 <= k <= l.len(),
        trim_start(l) == l.skip(k),
        forall|j: int| 0 <= j < k ==> is_whitespace(#[trigger] l[j]),
        k < l.len() ==> !is_whitespace(l[k]),
    decreases l.len(),
{
    if l.len() > 0 && is_whitespace(l[0]) {
        let k1 = lemma_trim_start_skip(l.drop_first());
        assert(l.drop_first().skip(k1) =~= l.skip(k1 + 1));
        assert forall|j: int| 0 <= j < k1 + 1 implies is_whitespace(#[trigger] l[j]) by {
            if j > 0 {
                assert(l[j] == l.drop_first()[j - 1]);
            }
        }
        k1 + 1
    } else {
        assert(l.skip(0) =~= l);
        0
    }
}

/// `trim_end(l)` is the first `k` characters of `l`, before its trailing
/// whitespace.
pub proof fn lemma_trim_end_take(l: Seq<char>) -> (k: int)
    ensures
        0 <= k <= l.len(),
        trim_end(l) == l.take(k),
        forall|j: int| k <= j < l.len() ==> is_whitespace(#[trigger] l[j]),
        k > 0 ==> !is_whitespace(l[k - 1]),
    decreases l.len(),
{
    if l.len() > 0 && is_whitespace(l.last()) {
        let k1 = lemma_trim_end_take(l.drop_last());
        assert(l.drop_last().take(k1) =~= l.take(k1));
        assert forall|j: int| k1 <= j < l.len() implies is_whitespace(#[trigger] l[j]) by {
            if j < l.len() - 1 {
                assert(l[j] == l.drop_last()[j]);
            }
        }
        k1
    } else {
        assert(l.take(l.len() as int) =~= l);
        l.len() as int
    }
}

/// `trim(s)` is the part of `s` between its leading and its trailing
/// whitespace: everything cut off is whitespace, and the result neither
/// starts nor ends with whitespace.
pub proof fn law_trim(s: Seq<char>)
    ensures
        exists|a: int, b: int|
            0 <= a <= b <= s.len() && #[trigger] s.subrange(a, b) == trim(s) && (forall|j: int|
                0 <= j < a ==> is_whitespace(#[trigger] s[j])) && (forall|j: int|
                b <= j < s.len() ==> is_whitespace(#[trigger] s[j])),
        trim(s).len() > 0 ==> !is_whitespace(trim(s)[0]) && !is_whitespace(
            trim(s)[trim(s).len() - 1],
        ),
{
    let a = lemma_trim_start_skip(s);
    let t = trim_start(s);
    let k = lemma_trim_end_take(t);
    assert(s.subrange(a, a + k) =~= t.take(k));
    assert forall|j: int| a + k <= j < s.len() implies is_whitespace(#[trigger] s[j]) by {
        assert(s[j] == t[j - a]);
    }
    if k > 0 {
        assert(trim(s)[0] == s[a]);
    }
}

/// A text that neither starts nor ends with whitespace is its own trim.
pub proof fn law_trim_unchanged(x: Seq<char>)
    requires
        x.len() > 0,
        !is_whitespace(x[0]),
        !is_whitespace(x[x.len() - 1]),
    ensures
        trim(x) == x,
{
    let a = lemma_trim_start_skip(x);
    assert(a == 0);
    assert(x.skip(0) =~= x);
    let k = lemma_trim_end_take(x);
    if k < x.len() {
        assert(is_whitespace(x[x.len() - 1]));
    }
    assert(x.take(x.len() as int) =~= x);
}

// ---------------------------------------------------------------- numbers

/// Decimal value of a string of ASCII digits.
pub open spec fn digits_value(s: Seq<char>) -> int
    decreases s.len(),
{
    if s.len() == 0 {
        0
    } else {
        digits_value(s.drop_last()) * 10 + (s.last() as int - '0' as int)
    }
}

pub open spec fn all_ascii_digits(s: Seq<char>) -> bool {
    forall|i: int| 0 <= i < s.len() ==> is_ascii_digit(#[trigger] s[i])
}

/// `str::parse::<u32>`: an optional leading `+`, then one or more ASCII
/// digits whose value fits in a `u32`.
pub open spec fn parse_u32(s: Seq<char>) -> Option<u32> {
    let d = if s.len() > 0 && s[0] == '+' {
        s.drop_first()
    } else {
        s
    };
    if d.len() == 0 || !all_ascii_digits(d) || digits_value(d) > u32::MAX {
        None
    } else {
        Some(digits_value(d) as u32)
    }
}

pub proof fn lemma_digits_value_nonneg(s: Seq<char>)
    requires
        all_ascii_digits(s),
    ensures
        digits_value(s) >= 0,
    decreases s.len(),
{
    if s.len() > 0 {
        lemma_digits_value_nonneg(s.drop_last());
    }
}

/// Value of the digits `lo..hi` of `v`, capped at `u32::MAX + 1`; `None` if
/// one of them is not an ASCII digit.
fn capped_digits_in(v: &Vec<char>, lo: usize, hi: usize) -> (r: Option<u64>)
    requires
        lo <= hi <= v.len(),
    ensures
        match r {
            Some(n) => all_ascii_digits(v@.subrange(lo as int, hi as int)) && n == (if digits_value(
                v@.subrange(lo as int, hi as int),
            ) > u32::MAX {
                u32::MAX as int + 1
            } else {
                digits_value(v@.subrange(lo as int, hi as int))
            }),
            None => !all_ascii_digits(v@.subrange(lo as int, hi as int)),
        },
{
    let mut acc: u64 = 0;
    let mut i = lo;
    while i < hi
        invariant
            lo <= i <= hi <= v.len(),
            all_ascii_digits(v@.subrange(lo as int, i as int)),
            acc == (if digits_value(v@.subrange(lo as int, i as int)) > u32::MAX {
                u32::MAX as int + 1
            } else {
                digits_value(v@.subrange(lo as int, i as int))
            }),
        decreases hi - i,
    {
        let c = v[i];
        if !ascii_digit(c) {
            assert(v@.subrange(lo as int, hi as int)[i - lo] == c);
            return None;
        }
        let ghost prev = v@.subrange(lo as int, i as int);
        let ghost next = v@.subrange(lo as int, i + 1);
        assert(next.drop_last() =~= prev);
        proof {
            lemma_digits_value_nonneg(prev);
        }
        let d = (c as u32 - '0' as u32) as u64;
        if acc > u32::MAX as u64 {
            acc = u32::MAX as u64 + 1;
        } else {
            acc = acc * 10 + d;
            if acc > u32::MAX as u64 {
                acc = u32::MAX as u64 + 1;
            }
        }
        i = i + 1;
    }
    Some(acc)
}

/// `str::parse::<u32>` on the characters `lo..hi` of `v`.
pub fn parse_u32_in(v: &Vec<char>, lo: usize, hi: usize) -> (r: Option<u32>)
    requires
        lo <= hi <= v.len(),
    ensures
        r == parse_u32(v@.subrange(lo as int, hi as int)),
{
    let ghost s = v@.subrange(lo as int, hi as int);
    let start = if lo < hi && v[lo] == '+' {
        assert(s.drop_first() =~= v@.subrange(lo + 1, hi as int));
        lo + 1
    } else {
        lo
    };
    if start == hi {
        return None;
    }
    match capped_digits_in(v, start, hi) {
        None => None,
        Some(n) => {
            if n > u32::MAX as u64 {
                None
            } else {
                Some(n as u32)
            }
        },
    }
}

/// The ASCII digits of `s`, in order (`s.chars().filter(is_ascii_digit)`).
pub open spec fn ascii_digits(s: Seq<char>) -> Seq<char>
    decreases s.len(),
{
    if s.len() == 0 {
        s
    } else if is_ascii_digit(s.last()) {
        ascii_digits(s.drop_last()).push(s.last())
    } else {
        ascii_digits(s.drop_last())
    }
}

pub proof fn lemma_ascii_digits_all_digits(s: Seq<char>)
    ensures
        all_ascii_digits(ascii_digits(s)),
    decreases s.len(),
{
    if s.len() > 0 {
        lemma_ascii_digits_all_digits(s.drop_last());
    }
}

/// `parse::<u32>` of the ASCII digits among the characters `lo..hi` of `v`.
pub fn parse_digits_among_in(v: &Vec<char>, lo: usize, hi: usize) -> (r: Option<u32>)
    requires
        lo <= hi <= v.len(),
    ensures
        r == parse_u32(ascii_digits(v@.subrange(lo as int, hi as int))),
{
    let mut acc: u64 = 0;
    let mut seen = false;
    let mut i = lo;
    while i < hi
        invariant
            lo <= i <= hi <= v.len(),
            seen == (ascii_digits(v@.subrange(lo as int, i as int)).len() > 0),
            acc == (if digits_value(ascii_digits(v@.subrange(lo as int, i as int))) > u32::MAX {
                u32::MAX as int + 1
            } else {
                digits_value(ascii_digits(v@.subrange(lo as int, i as int)))
            }),
        decreases hi - i,
    {
        let c = v[i];
        let ghost prev = v@.subrange(lo as int, i as int);
        let ghost next = v@.subrange(lo as int, i + 1);
        assert(next.drop_last() =~= prev);
        proof {
            lemma_ascii_digits_all_digits(prev);
            lemma_digits_value_nonneg(ascii_digits(prev));
        }
        if ascii_digit(c) {
            assert(ascii_digits(next).drop_last() =~= ascii_digits(prev));
            let d = (c as u32 - '0' as u32) as u64;
            seen = true;
            if acc > u32::MAX as u64 {
                acc = u32::MAX as u64 + 1;
            } else {
                acc = acc * 10 + d;
                if acc > u32::MAX as u64 {
                    acc = u32::MAX as u64 + 1;
                }
            }
        }
        i = i + 1;
    }
    let ghost ds = ascii_digits(v@.subrange(lo as int, hi as int));
    proof {
        lemma_ascii_digits_all_digits(v@.subrange(lo as int, hi as int));
        if ds.len() > 0 {
            assert(ds[0] != '+');
        }
    }
    if !seen || acc > u32::MAX as u64 {
        None
    } else {
        Some(acc as u32)
    }
}


// ---------------------------------------------------------------- substrings

/// `p` occurs in `s` at position `i`.
pub open spec fn matches_at(s: Seq<char>, p: Seq<char>, i: int) -> bool {
    &&& 0 <= i
    &&& i + p.len() <= s.len()
    &&& forall|k: int| 0 <= k < p.len() ==> s[i + k] == p[k]
}

/// `i` is the position of the first occurrence of `p` in `s`.
pub open spec fn is_first_match(s: Seq<char>, p: Seq<char>, i: int) -> bool {
    &&& matches_at(s, p, i)
    &&& forall|j: int| 0 <= j < i ==> !matches_at(s, p, j)
}

/// Position of the first occurrence of `p` in `s` (`str::find` with a `&str`).
pub open spec fn find_str(s: Seq<char>, p: Seq<char>) -> Option<int> {
    if exists|i: int| is_first_match(s, p, i) {
        Some(choose|i: int| is_first_match(s, p, i))
    } else {
        None
    }
}

/// `s` contains `p` (`str::contains` with a `&str`).
pub open spec fn contains_str(s: Seq<char>, p: Seq<char>) -> bool {
    exists|i: int| matches_at(s, p, i)
}

proof fn lemma_first_match_exists(s: Seq<char>, p: Seq<char>, j: int)
    requires
        matches_at(s, p, j),
    ensures
        exists|i: int| is_first_match(s, p, i),
    decreases j,
{
    if exists|k: int| 0 <= k < j && matches_at(s, p, k) {
        let k = choose|k: int| 0 <= k < j && matches_at(s, p, k);
        lemma_first_match_exists(s, p, k);
    } else {
        assert(is_first_match(s, p, j));
    }
}

pub proof fn lemma_find_str_contains(s: Seq<char>, p: Seq<char>)
    ensures
        find_str(s, p) is Some <==> contains_str(s, p),
        find_str(s, p) matches Some(i) ==> is_first_match(s, p, i),
{
    if contains_str(s, p) {
        let j = choose|j: int| matches_at(s, p, j);
        lemma_first_match_exists(s, p, j);
    }
}

fn matches_at_in(v: &Vec<char>, lo: usize, hi: usize, p: &Vec<char>, i: usize) -> (r: bool)
    requires
        lo <= i <= hi <= v.len(),
    ensures
        r == matches_at(v@.subrange(lo as int, hi as int), p@, i - lo),
{
    if p.len() > hi - i {
        return false;
    }
    let mut k: usize = 0;
    while k < p.len()
        invariant
            lo <= i <= hi <= v.len(),
            i + p.len() <= hi,
            k <= p.len(),
            forall|m: int| 0 <= m < k ==> v@[i + m] == p@[m],
        decreases p.len() - k,
    {
        if v[i + k] != p[k] {
            return false;
        }
        k = k + 1;
    }
    true
}

/// First occurrence of `p` in the characters `lo..hi` of `v`, as a
/// position in `v`.
pub fn find_str_in(v: &Vec<char>, lo: usize, hi: usize, p: &Vec<char>) -> (r: Option<usize>)
    requires
        lo <= hi <= v.len(),
    ensures
        match r {
            Some(k) => lo <= k <= hi && find_str(v@.subrange(lo as int, hi as int), p@) == Some(
                k - lo,
            ),
            None => find_str(v@.subrange(lo as int, hi as int), p@) is None,
        },
{
    let ghost s = v@.subrange(lo as int, hi as int);
    if p.len() > hi - lo {
        assert forall|j: int| !is_first_match(s, p@, j) by {}
        return None;
    }
    let last = hi - p.len();
    let mut i = lo;
    while i <= last
        invariant
            lo <= i <= last + 1,
            last + p.len() == hi,
            hi <= v.len(),
            s == v@.subrange(lo as int, hi as int),
            forall|j: int| 0 <= j < i - lo ==> !matches_at(s, p@, j),
        decreases last + 1 - i,
    {
        if matches_at_in(v, lo, hi, p, i) {
            proof {
                assert(is_first_match(s, p@, i - lo));
                let k = choose|k: int| is_first_match(s, p@, k);
                if k < i - lo {
                    assert(!matches_at(s, p@, k));
                } else if k > i - lo {
                    assert(!matches_at(s, p@, i - lo));
                }
            }
            return Some(i);
        }
        i = i + 1;
    }
    proof {
        assert forall|j: int| !is_first_match(s, p@, j) by {
            if is_first_match(s, p@, j) {
                assert(!matches_at(s, p@, j));
            }
        }
    }
    None
}

// ---------------------------------------------------------------- lines

/// A line without the carriage return that ends it, if any.
pub open spec fn strip_cr(l: Seq<char>) -> Seq<char> {
    if l.len() > 0 && l.last() == '\r' {
        l.drop_last()
    } else {
        l
    }
}

/// The lines of `s` (`str::lines`): split after each `\n`, with the `\n`
/// (and a `\r` right before it) removed; no empty line after a final `\n`.
pub open spec fn lines(s: Seq<char>) -> Seq<Seq<char>>
    decreases s.len(),
{
    if s.len() == 0 {
        Seq::empty()
    } else {
        match find_char(s, '\n') {
            None => seq![s],
            // A found position is always within `s`; the test lets the
            // definition's termination be seen.
            Some(i) => if 0 <= i < s.len() {
                seq![strip_cr(s.take(i))] + lines(s.skip(i + 1))
            } else {
                Seq::empty()
            },
        }
    }
}

/// The lines of a text that starts with a line `l` ended by `\n` are `l`
/// (without a final `\r`) followed by the lines of the rest.
pub proof fn law_lines_first_line(l: Seq<char>, rest: Seq<char>)
    requires
        forall|j: int| 0 <= j < l.len() ==> l[j] != '\n',
    ensures
        lines(l + seq!['\n'] + rest) == seq![strip_cr(l)] + lines(rest),
{
    let s = l + seq!['\n'] + rest;
    assert(is_first_index(s, '\n', l.len() as int)) by {
        assert forall|j: int| 0 <= j < l.len() implies s[j] != '\n' by {
            assert(s[j] == l[j]);
        }
    }
    lemma_find_char_at(s, '\n', l.len() as int);
    assert(s.take(l.len() as int) =~= l);
    assert(s.skip(l.len() as int + 1) =~= rest);
}

/// A non-empty text without `\n` is a single line, kept whole.
pub proof fn law_lines_last_line(l: Seq<char>)
    requires
        l.len() > 0,
        forall|j: int| 0 <= j < l.len() ==> l[j] != '\n',
    ensures
        lines(l) == seq![l],
{
    lemma_find_char_absent(l, '\n');
}

/// The empty text has no lines.
pub proof fn law_lines_empty()
    ensures
        lines(Seq::<char>::empty()).len() == 0,
{
}

/// Splits the characters `lo..hi` of `v` at the first line end: returns
/// the bounds of the first line and the start of the rest.
pub fn next_line_in(v: &Vec<char>, lo: usize, hi: usize) -> (r: (usize, usize, usize))
    requires
        lo < hi <= v.len(),
    ensures
        lo <= r.1 <= r.2 <= hi,
        r.0 == lo,
        r.2 > lo,
        lines(v@.subrange(lo as int, hi as int)) == seq![v@.subrange(lo as int, r.1 as int)]
            + lines(v@.subrange(r.2 as int, hi as int)),
{
    let ghost s = v@.subrange(lo as int, hi as int);
    proof {
        lemma_find_char_bounds(s, '\n');
    }
    match find_char_in(v, lo, hi, '\n') {
        None => {
            assert(v@.subrange(hi as int, hi as int).len() == 0);
            assert(lines(v@.subrange(hi as int, hi as int)) =~= Seq::<Seq<char>>::empty());
            assert(s =~= v@.subrange(lo as int, hi as int));
            assert(seq![s] + Seq::<Seq<char>>::empty() =~= seq![s]);
            (lo, hi, hi)
        },
        Some(i) => {
            assert(s.skip(i - lo + 1) =~= v@.subrange(i + 1, hi as int));
            let end = if i > lo && v[i - 1] == '\r' {
                assert(s.take(i - lo).drop_last() =~= v@.subrange(lo as int, i - 1));
                i - 1
            } else {
                assert(s.take(i - lo) =~= v@.subrange(lo as int, i as int));
                i
            };
            (lo, end, i + 1)
        },
    }
}

// ---------------------------------------------------------------- strings

/// The characters `lo..hi` of `s`, as a new `String`.
pub fn substring(s: &str, lo: usize, hi: usize) -> (r: String)
    requires
        lo <= hi <= s@.len(),
    ensures
        r@ == s@.subrange(lo as int, hi as int),
{
    s.substring_char(lo, hi).to_owned()
}

/// `a` and `b` hold the same text.
pub fn same_text(a: &str, b: &str) -> (r: bool)
    ensures
        r == (a@ == b@),
{
    a.to_owned() == b.to_owned()
}

/// The characters of `s`, in order.
pub fn chars_of(s: &str) -> (v: Vec<char>)
    ensures
        v@ == s@,
{
    let mut v: Vec<char> = Vec::new();
    for c in it: s.chars()
        invariant
            v@ == it.seq().take(it.index()),
    {
        v.push(c);
    }
    v
}

} // verus!
