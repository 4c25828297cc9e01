//! Character-level helpers shared by the parsers and the serializer:
//! whitespace scanning, token extraction, trimming and decimal rendering.
//!
//! Text is modelled as `Seq<char>`; every executable function here is tied to a
//! spec function over that model.

use vstd::prelude::*;
use vstd::string::*;

verus! {

/// Whether `c` carries the Unicode `White_Space` property.
pub open spec fn is_space(c: char) -> bool {
    ||| c == ' '
    ||| ('\t' <= c && c <= '\r')
    ||| c == '\u{85}'
    ||| c == '\u{A0}'
    ||| c == '\u{1680}'
    ||| ('\u{2000}' <= c && c <= '\u{200A}')
    ||| c == '\u{2028}'
    ||| c == '\u{2029}'
    ||| c == '\u{202F}'
    ||| c == '\u{205F}'
    ||| c == '\u{3000}'
}

/// No character of `s` is whitespace.
pub open spec fn space_free(s: Seq<char>) -> bool {
    forall|i: int| 0 <= i < s.len() ==> !is_space(#[trigger] s[i])
}

/// Every character of `s` is whitespace.
pub open spec fn all_space(s: Seq<char>) -> bool {
    forall|i: int| 0 <= i < s.len() ==> is_space(#[trigger] s[i])
}

/// The first position at or after `from` that does not hold whitespace
/// (the length of `s` when only whitespace follows).
pub open spec fn skip_spaces(s: Seq<char>, from: int) -> int
    decreases s.len() - from,
{
    if 0 <= from < s.len() && is_space(s[from]) {
        skip_spaces(s, from + 1)
    } else {
        from
    }
}

/// The first position at or after `from` that holds whitespace
/// (the length of `s` when none follows).
pub open spec fn skip_token(s: Seq<char>, from: int) -> int
    decreases s.len() - from,
{
    if 0 <= from < s.len() && !is_space(s[from]) {
        skip_token(s, from + 1)
    } else {
        from
    }
}

/// Where the `k`-th whitespace-separated token of `s` starts, counting from zero.
/// Equals the length of `s` when `s` has no such token.
pub open spec fn token_start(s: Seq<char>, k: nat) -> int
    decreases k,
{
    if k == 0 {
        skip_spaces(s, 0)
    } else {
        skip_spaces(s, skip_token(s, token_start(s, (k - 1) as nat)))
    }
}

/// One past the last character of the `k`-th token of `s`.
pub open spec fn token_end(s: Seq<char>, k: nat) -> int {
    skip_token(s, token_start(s, k))
}

/// Whether `s` has more than `k` whitespace-separated tokens.
pub open spec fn has_token(s: Seq<char>, k: nat) -> bool {
    token_start(s, k) < s.len()
}

/// The `k`-th whitespace-separated token of `s`.
pub open spec fn token(s: Seq<char>, k: nat) -> Seq<char> {
    s.subrange(token_start(s, k), token_end(s, k))
}

/// The position of the first element equal to `c` in `s` at or after `from`
/// (the length of `s` when there is none).
pub open spec fn find_from<A>(s: Seq<A>, c: A, from: int) -> int
    decreases s.len() - from,
{
    if 0 <= from < s.len() && s[from] != c {
        find_from(s, c, from + 1)
    } else {
        from
    }
}

/// `s` without its leading whitespace.
pub open spec fn trim_left(s: Seq<char>) -> Seq<char> {
    s.subrange(skip_spaces(s, 0), s.len() as int)
}

/// `s` without its trailing whitespace.
pub open spec fn trim_right(s: Seq<char>) -> Seq<char>
    decreases s.len(),
{
    if s.len() > 0 && is_space(s.last()) {
        trim_right(s.drop_last())
    } else {
        s
    }
}

/// `s` without its leading and trailing whitespace.
pub open spec fn trim(s: Seq<char>) -> Seq<char> {
    trim_right(trim_left(s))
}

/// The character that writes the digit `d`.
pub open spec fn digit_char(d: nat) -> char {
    if d == 0 {
        '0'
    } else if d == 1 {
        '1'
    } else if d == 2 {
        '2'
    } else if d == 3 {
        '3'
    } else if d == 4 {
        '4'
    } else if d == 5 {
        '5'
    } else if d == 6 {
        '6'
    } else if d == 7 {
        '7'
    } else if d == 8 {
        '8'
    } else {
        '9'
    }
}

/// The decimal numeral of `n`, most significant digit first, without padding.
pub open spec fn decimal(n: nat) -> Seq<char>
    decreases n,
{
    if n < 10 {
        seq![digit_char(n)]
    } else {
        decimal(n / 10).push(digit_char(n % 10))
    }
}

/// `skip_spaces` stays inside the sequence and stops on a non-space.
pub proof fn lemma_skip_spaces(s: Seq<char>, from: int)
    requires
        0 <= from <= s.len(),
    ensures
        from <= skip_spaces(s, from) <= s.len(),
        forall|j: int| from <= j < skip_spaces(s, from) ==> is_space(#[trigger] s[j]),
        skip_spaces(s, from) < s.len() ==> !is_space(s[skip_spaces(s, from)]),
    decreases s.len() - from,
{
    if from < s.len() && is_space(s[from]) {
        lemma_skip_spaces(s, from + 1);
    }
}

/// `skip_token` stays inside the sequence and stops on a space.
pub proof fn lemma_skip_token(s: Seq<char>, from: int)
    requires
        0 <= from <= s.len(),
    ensures
        from <= skip_token(s, from) <= s.len(),
        forall|j: int| from <= j < skip_token(s, from) ==> !is_space(#[trigger] s[j]),
        skip_token(s, from) < s.len() ==> is_space(s[skip_token(s, from)]),
    decreases s.len() - from,
{
    if from < s.len() && !is_space(s[from]) {
        lemma_skip_token(s, from + 1);
    }
}

/// A run of spaces that ends at `to` is skipped exactly up to `to`.
pub proof fn lemma_skip_spaces_run(s: Seq<char>, from: int, to: int)
    requires
        0 <= from <= to <= s.len(),
        forall|j: int| from <= j < to ==> is_space(#[trigger] s[j]),
        to < s.len() ==> !is_space(s[to]),
    ensures
        skip_spaces(s, from) == to,
    decreases to - from,
{
    if from < to {
        lemma_skip_spaces_run(s, from + 1, to);
    }
}

/// A run of non-spaces that ends at `to` is skipped exactly up to `to`.
pub proof fn lemma_skip_token_run(s: Seq<char>, from: int, to: int)
    requires
        0 <= from <= to <= s.len(),
        forall|j: int| from <= j < to ==> !is_space(#[trigger] s[j]),
        to < s.len() ==> is_space(s[to]),
    ensures
        skip_token(s, from) == to,
    decreases to - from,
{
    if from < to {
        lemma_skip_token_run(s, from + 1, to);
    }
}

/// Token boundaries are ordered and lie inside the sequence; a token that
/// exists is non-empty and free of whitespace.
pub proof fn lemma_token_bounds(s: Seq<char>, k: nat)
    ensures
        0 <= token_start(s, k) <= token_end(s, k) <= s.len(),
        has_token(s, k) ==> token(s, k).len() > 0 && space_free(token(s, k)),
        k > 0 ==> token_end(s, (k - 1) as nat) <= token_start(s, k),
        k > 0 && has_token(s, k) ==> has_token(s, (k - 1) as nat),
    decreases k,
{
    if k == 0 {
        lemma_skip_spaces(s, 0);
    } else {
        let p = (k - 1) as nat;
        lemma_token_bounds(s, p);
        lemma_skip_spaces(s, token_end(s, p));
    }
    lemma_skip_token(s, token_start(s, k));
}

/// `find_from` stays inside the sequence, passes no occurrence and stops on one.
pub proof fn lemma_find_from<A>(s: Seq<A>, c: A, from: int)
    requires
        0 <= from <= s.len(),
    ensures
        from <= find_from(s, c, from) <= s.len(),
        forall|j: int| from <= j < find_from(s, c, from) ==> #[trigger] s[j] != c,
        find_from(s, c, from) < s.len() ==> s[find_from(s, c, from)] == c,
        find_from(s, c, from) < s.len() <==> s.subrange(from, s.len() as int).contains(c),
    decreases s.len() - from,
{
    let tail = s.subrange(from, s.len() as int);
    if from < s.len() && s[from] != c {
        lemma_find_from(s, c, from + 1);
        let rest = s.subrange(from + 1, s.len() as int);
        if rest.contains(c) {
            let j = choose|j: int| 0 <= j < rest.len() && rest[j] == c;
            assert(tail[j + 1] == c);
        }
        if tail.contains(c) {
            let j = choose|j: int| 0 <= j < tail.len() && tail[j] == c;
            assert(rest[j - 1] == c);
        }
    } else if from < s.len() {
        assert(tail[0] == c);
    }
}

/// Trimming on the right yields a prefix that does not end in whitespace.
pub proof fn lemma_trim_right(s: Seq<char>)
    ensures
        trim_right(s).len() <= s.len(),
        trim_right(s) == s.subrange(0, trim_right(s).len() as int),
        trim_right(s).len() > 0 ==> !is_space(trim_right(s).last()),
        forall|j: int| trim_right(s).len() <= j < s.len() ==> is_space(#[trigger] s[j]),
    decreases s.len(),
{
    if s.len() > 0 && is_space(s.last()) {
        lemma_trim_right(s.drop_last());
        let t = trim_right(s.drop_last());
        assert(t =~= s.subrange(0, t.len() as int));
        assert forall|j: int| trim_right(s).len() <= j < s.len() implies is_space(
            #[trigger] s[j],
        ) by {
            if j < s.len() - 1 {
                assert(s.drop_last()[j] == s[j]);
            }
        }
    } else {
        assert(s =~= s.subrange(0, s.len() as int));
    }
}

/// A trimmed text neither starts nor ends with whitespace.
pub proof fn lemma_trim_is_tight(s: Seq<char>)
    ensures
        trim(s).len() > 0 ==> !is_space(trim(s).first()) && !is_space(trim(s).last()),
        trim(s).len() <= s.len(),
{
    lemma_skip_spaces(s, 0);
    lemma_trim_right(trim_left(s));
}

/// A text that neither starts nor ends with whitespace is its own trimming.
pub proof fn lemma_trim_of_tight(s: Seq<char>)
    requires
        s.len() > 0 ==> !is_space(s.first()) && !is_space(s.last()),
    ensures
        trim(s) == s,
{
    assert(trim_left(s) =~= s);
}

/// Decides [`is_space`].
pub fn is_whitespace(c: char) -> (b: bool)
    ensures
        b == is_space(c),
{
    c == ' ' || ('\t' <= c && c <= '\r') || c == '\u{85}' || c == '\u{A0}' || c == '\u{1680}' || (
    '\u{2000}' <= c && c <= '\u{200A}') || c == '\u{2028}' || c == '\u{2029}' || c == '\u{202F}'
        || c == '\u{205F}' || c == '\u{3000}'
}

/// The characters of `s`, one by one.
pub fn to_chars(s: &str) -> (v: Vec<char>)
    ensures
        v@ == s@,
{
    broadcast use group_string_axioms;

    let mut v: Vec<char> = Vec::new();
    for c in it: s.chars()
        invariant
            it.seq() == s@,
            v@ == s@.take(it.index() as int),
    {
        v.push(c);
        assert(v@ =~= s@.take(it.index() + 1));
    }
    assert(v@ =~= s@);
    v
}

/// Computes [`skip_spaces`].
pub fn skip_spaces_in(s: &Vec<char>, from: usize) -> (r: usize)
    requires
        from <= s@.len(),
    ensures
        r == skip_spaces(s@, from as int),
        from <= r <= s@.len(),
{
    let n: usize = s.len();
    let mut i: usize = from;
    while i < n && is_whitespace(s[i])
        invariant
            from <= i <= n,
            n == s@.len(),
            skip_spaces(s@, i as int) == skip_spaces(s@, from as int),
        decreases n - i,
    {
        i += 1;
    }
    i
}

/// Computes [`skip_token`].
pub fn skip_token_in(s: &Vec<char>, from: usize) -> (r: usize)
    requires
        from <= s@.len(),
    ensures
        r == skip_token(s@, from as int),
        from <= r <= s@.len(),
{
    let n: usize = s.len();
    let mut i: usize = from;
    while i < n && !is_whitespace(s[i])
        invariant
            from <= i <= n,
            n == s@.len(),
            skip_token(s@, i as int) == skip_token(s@, from as int),
        decreases n - i,
    {
        i += 1;
    }
    i
}

/// Computes [`find_from`] from the start of `s`.
pub fn find_first(s: &Vec<char>, c: char) -> (r: usize)
    ensures
        r == find_from(s@, c, 0),
        r <= s@.len(),
{
    let n: usize = s.len();
    let mut i: usize = 0;
    while i < n && s[i] != c
        invariant
            i <= n,
            n == s@.len(),
            find_from(s@, c, i as int) == find_from(s@, c, 0),
        decreases n - i,
    {
        i += 1;
    }
    i
}

/// Where the [`trim`] of the part of `s` that starts at `from` lies in `s`.
pub fn trim_bounds(s: &Vec<char>, from: usize) -> (r: (usize, usize))
    requires
        from <= s@.len(),
    ensures
        from <= r.0 <= r.1 <= s@.len(),
        s@.subrange(r.0 as int, r.1 as int) == trim(s@.subrange(from as int, s@.len() as int)),
{
    let n: usize = s.len();
    let ghost tail = s@.subrange(from as int, n as int);
    let mut lo: usize = from;
    while lo < n && is_whitespace(s[lo])
        invariant
            from <= lo <= n,
            n == s@.len(),
            tail == s@.subrange(from as int, n as int),
            skip_spaces(tail, lo - from) == skip_spaces(tail, 0),
        decreases n - lo,
    {
        assert(tail[lo - from] == s@[lo as int]);
        lo += 1;
    }
    assert(skip_spaces(tail, 0) == lo - from) by {
        if lo < n {
            assert(tail[lo - from] == s@[lo as int]);
        }
    }
    let ghost left = trim_left(tail);
    assert(left =~= s@.subrange(lo as int, n as int));
    let mut hi: usize = n;
    while hi > lo && is_whitespace(s[hi - 1])
        invariant
            lo <= hi <= n,
            n == s@.len(),
            left == s@.subrange(lo as int, n as int),
            trim_right(s@.subrange(lo as int, hi as int)) == trim_right(left),
        decreases hi - lo,
    {
        let ghost cur = s@.subrange(lo as int, hi as int);
        assert(cur.last() == s@[hi - 1]);
        assert(cur.drop_last() =~= s@.subrange(lo as int, hi - 1));
        hi -= 1;
    }
    let ghost cur = s@.subrange(lo as int, hi as int);
    assert(trim_right(cur) == cur) by {
        if hi > lo {
            assert(cur.last() == s@[hi - 1]);
        }
    }
    (lo, hi)
}

/// The one-character text that writes the digit `d`.
fn digit_text(d: usize) -> (r: &'static str)
    requires
        d < 10,
    ensures
        r@ == seq![digit_char(d as nat)],
{
    proof {
        reveal_strlit("0");
        reveal_strlit("1");
        reveal_strlit("2");
        reveal_strlit("3");
        reveal_strlit("4");
        reveal_strlit("5");
        reveal_strlit("6");
        reveal_strlit("7");
        reveal_strlit("8");
        reveal_strlit("9");
    }
    let r = if d == 0 {
        "0"
    } else if d == 1 {
        "1"
    } else if d == 2 {
        "2"
    } else if d == 3 {
        "3"
    } else if d == 4 {
        "4"
    } else if d == 5 {
        "5"
    } else if d == 6 {
        "6"
    } else if d == 7 {
        "7"
    } else if d == 8 {
        "8"
    } else {
        "9"
    };
    assert(r@ =~= seq![digit_char(d as nat)]);
    r
}

/// Renders `n` as its decimal numeral.
pub fn decimal_string(n: usize) -> (r: String)
    ensures
        r@ == decimal(n as nat),
    decreases n,
{
    if n < 10 {
        digit_text(n).to_owned()
    } else {
        let mut r = decimal_string(n / 10);
        r.append(digit_text(n % 10));
        assert(r@ =~= decimal(n as nat));
        r
    }
}

} // verus!
