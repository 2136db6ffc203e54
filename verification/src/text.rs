//! Character-level text handling: the pieces of `str` that the monitor's
//! parsers rely on (lines, whitespace-separated words, trimming, prefixes,
//! unsigned decimal numbers), each stated over `Seq<char>` and implemented
//! on `Vec<char>`.
use vstd::prelude::*;
use vstd::std_specs::iter::IteratorSpec;

verus! {

// ───────────────────────────── specifications ─────────────────────────────

/// Whitespace in the sense of `char::is_whitespace`: the characters that have
/// the Unicode `White_Space` property.
pub open spec fn is_space(c: char) -> bool {
    let u = c as u32;
    ||| 0x09 <= u <= 0x0d
    ||| u == 0x20
    ||| u == 0x85
    ||| u == 0xa0
    ||| u == 0x1680
    ||| 0x2000 <= u <= 0x200a
    ||| u == 0x2028
    ||| u == 0x2029
    ||| u == 0x202f
    ||| u == 0x205f
    ||| u == 0x3000
}

/// An ASCII decimal digit.
pub open spec fn is_digit(c: char) -> bool {
    '0' <= c <= '9'
}

/// `s` with its leading whitespace removed.
pub open spec fn trim_start(s: Seq<char>) -> Seq<char>
    decreases s.len(),
{
    if s.len() > 0 && is_space(s[0]) {
        trim_start(s.drop_first())
    } else {
        s
    }
}

/// `s` with its trailing whitespace removed.
pub open spec fn trim_end(s: Seq<char>) -> Seq<char>
    decreases s.len(),
{
    if s.len() > 0 && is_space(s.last()) {
        trim_end(s.drop_last())
    } else {
        s
    }
}

/// `s` with leading and trailing whitespace removed (`str::trim`).
pub open spec fn trim(s: Seq<char>) -> Seq<char> {
    trim_end(trim_start(s))
}

/// The number of characters before the first `'\n'` of `s` (all of them if
/// there is none).
pub open spec fn line_end(s: Seq<char>) -> nat
    decreases s.len(),
{
    if s.len() == 0 || s[0] == '\n' {
        0
    } else {
        1 + line_end(s.drop_first())
    }
}

/// A line taken from before a `'\n'`, without the `'\r'` of a `"\r\n"` ending.
pub open spec fn strip_cr(l: Seq<char>) -> Seq<char> {
    if l.len() > 0 && l.last() == '\r' {
        l.drop_last()
    } else {
        l
    }
}

/// The lines of `s` as `str::lines` yields them: split at `"\n"` or
/// `"\r\n"`, the terminator removed, the final terminator optional.
pub open spec fn lines(s: Seq<char>) -> Seq<Seq<char>>
    decreases s.len(),
{
    if s.len() == 0 {
        Seq::empty()
    } else if line_end(s) >= s.len() {
        seq![s]
    } else {
        seq![strip_cr(s.subrange(0, line_end(s) as int))] + lines(
            s.subrange(line_end(s) as int + 1, s.len() as int),
        )
    }
}

/// The number of leading characters of `s` that are not whitespace.
pub open spec fn word_len(s: Seq<char>) -> nat
    decreases s.len(),
{
    if s.len() == 0 || is_space(s[0]) {
        0
    } else {
        1 + word_len(s.drop_first())
    }
}

/// The whitespace-separated words of `s`, as `str::split_whitespace`
/// yields them.
pub open spec fn words(s: Seq<char>) -> Seq<Seq<char>>
    decreases s.len(),
{
    if s.len() == 0 {
        Seq::empty()
    } else if is_space(s[0]) {
        words(s.drop_first())
    } else {
        proof {
            lemma_word_len_bound(s);
        }
        seq![s.subrange(0, word_len(s) as int)] + words(
            s.subrange(word_len(s) as int, s.len() as int),
        )
    }
}

/// Every character of `d` is an ASCII digit.
pub open spec fn all_digits(d: Seq<char>) -> bool {
    forall|i: int| 0 <= i < d.len() ==> is_digit(#[trigger] d[i])
}

/// The value of a digit.
pub open spec fn digit_value(c: char) -> int {
    c as int - '0' as int
}

/// The value of a string of decimal digits, most significant first.
pub open spec fn digits_value(d: Seq<char>) -> int
    decreases d.len(),
{
    if d.len() == 0 {
        0
    } else {
        digits_value(d.drop_last()) * 10 + digit_value(d.last())
    }
}

/// The digits of an unsigned number: `s` without one leading `'+'`.
pub open spec fn unsigned_digits(s: Seq<char>) -> Seq<char> {
    if s.len() > 0 && s[0] == '+' {
        s.drop_first()
    } else {
        s
    }
}

/// What `s.parse::<u64>()` gives, as an `Option`: an optional `'+'`, then
/// one or more ASCII digits whose value fits in a `u64`.
pub open spec fn parse_u64(s: Seq<char>) -> Option<u64> {
    let d = unsigned_digits(s);
    if d.len() > 0 && all_digits(d) && digits_value(d) <= u64::MAX {
        Some(digits_value(d) as u64)
    } else {
        None
    }
}

/// `s` begins with `p` (`str::starts_with`).
pub open spec fn starts_with(s: Seq<char>, p: Seq<char>) -> bool {
    p.len() <= s.len() && s.subrange(0, p.len() as int) == p
}

/// What `s.strip_prefix(p)` gives.
pub open spec fn strip_prefix(s: Seq<char>, p: Seq<char>) -> Option<Seq<char>> {
    if starts_with(s, p) {
        Some(s.subrange(p.len() as int, s.len() as int))
    } else {
        None
    }
}

// ───────────────────────────── lemmas ─────────────────────────────

pub proof fn lemma_word_len_bound(s: Seq<char>)
    ensures
        word_len(s) <= s.len(),
        s.len() > 0 && !is_space(s[0]) ==> word_len(s) >= 1,
    decreases s.len(),
{
    if s.len() > 0 && !is_space(s[0]) {
        lemma_word_len_bound(s.drop_first());
    }
}

pub proof fn lemma_digits_value_nonneg(d: Seq<char>)
    requires
        all_digits(d),
    ensures
        digits_value(d) >= 0,
    decreases d.len(),
{
    if d.len() > 0 {
        assert(is_digit(d[d.len() - 1]));
        lemma_digits_value_nonneg(d.drop_last());
    }
}

/// A prefix of a string of digits is worth no more than the whole string.
pub proof fn lemma_digits_prefix_le(d: Seq<char>, k: int)
    requires
        all_digits(d),
        0 <= k <= d.len(),
    ensures
        digits_value(d.subrange(0, k)) <= digits_value(d),
    decreases d.len(),
{
    if k == d.len() {
        assert(d.subrange(0, k) =~= d);
    } else {
        let p = d.drop_last();
        assert(is_digit(d[d.len() - 1]));
        assert(all_digits(p));
        lemma_digits_value_nonneg(p);
        lemma_digits_prefix_le(p, k);
        assert(p.subrange(0, k) =~= d.subrange(0, k));
    }
}

// ───────────────────────────── executable code ─────────────────────────────

/// Appends `c` to `s` (`String::push`).
#[verifier::external_body]
fn push_char(s: &mut String, c: char)
    ensures
        final(s)@ == old(s)@.push(c),
{
    s.push(c);
}

/// The characters of `s`, in order.
pub fn chars_of(s: &str) -> (r: Vec<char>)
    ensures
        r@ == s@,
{
    broadcast use vstd::string::group_string_axioms;

    let mut r: Vec<char> = Vec::new();
    for c in it: s.chars()
        invariant
            r@ == it.seq().take(it.index() as int),
            it.seq() == s@,
    {
        r.push(c);
    }
    r
}

/// The `String` made of the characters `cs[lo..hi]`.
pub fn string_of_range(cs: &Vec<char>, lo: usize, hi: usize) -> (r: String)
    requires
        lo <= hi <= cs.len(),
    ensures
        r@ == cs@.subrange(lo as int, hi as int),
{
    let mut r = String::new();
    let mut i = lo;
    while i < hi
        invariant
            lo <= i <= hi <= cs.len(),
            r@ == cs@.subrange(lo as int, i as int),
        decreases hi - i,
    {
        push_char(&mut r, cs[i]);
        assert(cs@.subrange(lo as int, i + 1) =~= cs@.subrange(lo as int, i as int).push(cs@[i as int]));
        i += 1;
    }
    r
}

/// The `String` made of the characters `cs`.
pub fn string_of(cs: &Vec<char>) -> (r: String)
    ensures
        r@ == cs@,
{
    let r = string_of_range(cs, 0, cs.len());
    assert(cs@.subrange(0, cs.len() as int) =~= cs@);
    r
}

/// The characters `cs[lo..hi]`.
pub fn copy_range(cs: &Vec<char>, lo: usize, hi: usize) -> (r: Vec<char>)
    requires
        lo <= hi <= cs.len(),
    ensures
        r@ == cs@.subrange(lo as int, hi as int),
{
    let mut r: Vec<char> = Vec::new();
    let mut i = lo;
    while i < hi
        invariant
            lo <= i <= hi <= cs.len(),
            r@ == cs@.subrange(lo as int, i as int),
        decreases hi - i,
    {
        r.push(cs[i]);
        assert(cs@.subrange(lo as int, i + 1) =~= cs@.subrange(lo as int, i as int).push(cs@[i as int]));
        i += 1;
    }
    r
}

/// Whether `c` is whitespace (`char::is_whitespace`).
pub fn is_space_char(c: char) -> (r: bool)
    ensures
        r == is_space(c),
{
    let u = c as u32;
    (0x09 <= u && u <= 0x0d) || u == 0x20 || u == 0x85 || u == 0xa0 || u == 0x1680 || (0x2000 <= u
        && u <= 0x200a) || u == 0x2028 || u == 0x2029 || u == 0x202f || u == 0x205f || u == 0x3000
}

/// Whether `c` is an ASCII decimal digit.
pub fn is_digit_char(c: char) -> (r: bool)
    ensures
        r == is_digit(c),
{
    '0' <= c && c <= '9'
}

/// `s` without leading and trailing whitespace (`str::trim`).
pub fn trim_chars(s: &Vec<char>) -> (r: Vec<char>)
    ensures
        r@ == trim(s@),
{
    let n = s.len();
    let mut lo: usize = 0;
    assert(s@.subrange(0, n as int) =~= s@);
    while lo < n && is_space_char(s[lo])
        invariant
            lo <= n,
            n == s.len(),
            trim_start(s@) == trim_start(s@.subrange(lo as int, n as int)),
        decreases n - lo,
    {
        assert(s@.subrange(lo as int, n as int).drop_first() =~= s@.subrange(lo + 1, n as int));
        lo += 1;
    }
    let mut hi: usize = n;
    while hi > lo && is_space_char(s[hi - 1])
        invariant
            lo <= hi <= n,
            n == s.len(),
            trim(s@) == trim_end(s@.subrange(lo as int, hi as int)),
        decreases hi,
    {
        assert(s@.subrange(lo as int, hi as int).drop_last() =~= s@.subrange(lo as int, hi - 1));
        hi -= 1;
    }
    copy_range(s, lo, hi)
}

/// The lines of `s` (`str::lines`).
pub fn split_lines(s: &Vec<char>) -> (r: Vec<Vec<char>>)
    ensures
        r.deep_view() == lines(s@),
{
    let n = s.len();
    let mut r: Vec<Vec<char>> = Vec::new();
    let mut start: usize = 0;
    assert(s@.subrange(0, n as int) =~= s@);
    while start < n
        invariant
            start <= n,
            n == s.len(),
            lines(s@) == r.deep_view() + lines(s@.subrange(start as int, n as int)),
        decreases n - start,
    {
        let ghost rest = s@.subrange(start as int, n as int);
        let mut end = start;
        while end < n && s[end] != '\n'
            invariant
                start <= end <= n,
                n == s.len(),
                rest == s@.subrange(start as int, n as int),
                line_end(rest) == (end - start) + line_end(s@.subrange(end as int, n as int)),
            decreases n - end,
        {
            assert(s@.subrange(end as int, n as int).drop_first() =~= s@.subrange(end + 1, n as int));
            end += 1;
        }
        assert(line_end(rest) == end - start);
        let ghost old_r = r.deep_view();
        if end == n {
            let line = copy_range(s, start, n);
            assert(line.deep_view() =~= line@);
            r.push(line);
            assert(rest.subrange(0, rest.len() as int) =~= rest);
            assert(lines(rest) == seq![rest]);
            assert(r.deep_view() =~= old_r + seq![rest]);
            assert(s@.subrange(n as int, n as int) =~= Seq::<char>::empty());
            start = n;
        } else {
            let mut e = end;
            if e > start && s[e - 1] == '\r' {
                e = e - 1;
            }
            let line = copy_range(s, start, e);
            assert(line.deep_view() =~= line@);
            r.push(line);
            assert(rest.subrange(0, (end - start) as int) =~= s@.subrange(start as int, end as int));
            assert(rest.subrange((end - start) + 1, rest.len() as int) =~= s@.subrange(
                end + 1,
                n as int,
            ));
            assert(strip_cr(s@.subrange(start as int, end as int)) =~= s@.subrange(
                start as int,
                e as int,
            ));
            assert(r.deep_view() =~= old_r + seq![s@.subrange(start as int, e as int)]);
            start = end + 1;
        }
    }
    assert(s@.subrange(n as int, n as int) =~= Seq::<char>::empty());
    assert(r.deep_view() + Seq::<Seq<char>>::empty() =~= r.deep_view());
    r
}

/// The whitespace-separated words of `s` (`str::split_whitespace`).
pub fn split_words(s: &Vec<char>) -> (r: Vec<Vec<char>>)
    ensures
        r.deep_view() == words(s@),
{
    let n = s.len();
    let mut r: Vec<Vec<char>> = Vec::new();
    let mut i: usize = 0;
    assert(s@.subrange(0, n as int) =~= s@);
    while i < n
        invariant
            i <= n,
            n == s.len(),
            words(s@) == r.deep_view() + words(s@.subrange(i as int, n as int)),
        decreases n - i,
    {
        let ghost rest = s@.subrange(i as int, n as int);
        if is_space_char(s[i]) {
            assert(rest.drop_first() =~= s@.subrange(i + 1, n as int));
            i += 1;
        } else {
            let mut j = i;
            while j < n && !is_space_char(s[j])
                invariant
                    i <= j <= n,
                    n == s.len(),
                    rest == s@.subrange(i as int, n as int),
                    word_len(rest) == (j - i) + word_len(s@.subrange(j as int, n as int)),
                decreases n - j,
            {
                assert(s@.subrange(j as int, n as int).drop_first() =~= s@.subrange(
                    j + 1,
                    n as int,
                ));
                j += 1;
            }
            assert(word_len(rest) == j - i);
            let ghost old_r = r.deep_view();
            let w = copy_range(s, i, j);
            assert(w.deep_view() =~= w@);
            r.push(w);
            assert(rest.subrange(0, (j - i) as int) =~= s@.subrange(i as int, j as int));
            assert(rest.subrange((j - i) as int, rest.len() as int) =~= s@.subrange(
                j as int,
                n as int,
            ));
            assert(r.deep_view() =~= old_r + seq![s@.subrange(i as int, j as int)]);
            i = j;
        }
    }
    assert(s@.subrange(n as int, n as int) =~= Seq::<char>::empty());
    assert(r.deep_view() + Seq::<Seq<char>>::empty() =~= r.deep_view());
    r
}

/// The number that `s` spells (`s.parse::<u64>().ok()`).
pub fn parse_u64_chars(s: &Vec<char>) -> (r: Option<u64>)
    ensures
        r == parse_u64(s@),
{
    let n = s.len();
    let mut i: usize = 0;
    if n > 0 && s[0] == '+' {
        i = 1;
    }
    let ghost d = unsigned_digits(s@);
    assert(d =~= s@.subrange(i as int, n as int));
    if i == n {
        return None;
    }
    let mut v: u64 = 0;
    let mut k = i;
    assert(s@.subrange(i as int, i as int) =~= Seq::<char>::empty());
    while k < n
        invariant
            i <= k <= n,
            n == s.len(),
            d == s@.subrange(i as int, n as int),
            d == unsigned_digits(s@),
            all_digits(s@.subrange(i as int, k as int)),
            v == digits_value(s@.subrange(i as int, k as int)),
        decreases n - k,
    {
        let c = s[k];
        let ghost pre = s@.subrange(i as int, k as int);
        let ghost next = s@.subrange(i as int, k + 1);
        assert(next.drop_last() =~= pre);
        assert(d[k - i] == c);
        if !is_digit_char(c) {
            assert(!all_digits(d));
            return None;
        }
        assert(all_digits(next));
        let dv = ((c as u32) - ('0' as u32)) as u64;
        assert(dv == digit_value(c));
        assert(next.last() == c);
        assert(digits_value(next) == v * 10 + dv);
        let m = v.checked_mul(10);
        if m.is_none() {
            proof {
                if all_digits(d) {
                    lemma_digits_prefix_le(d, k + 1 - i);
                    assert(d.subrange(0, k + 1 - i) =~= next);
                }
            }
            return None;
        }
        let m = m.unwrap();
        let a = m.checked_add(dv);
        if a.is_none() {
            proof {
                if all_digits(d) {
                    lemma_digits_prefix_le(d, k + 1 - i);
                    assert(d.subrange(0, k + 1 - i) =~= next);
                }
            }
            return None;
        }
        v = a.unwrap();
        k += 1;
    }
    Some(v)
}

/// Whether `s` begins with `p`.
pub fn starts_with_chars(s: &Vec<char>, p: &Vec<char>) -> (r: bool)
    ensures
        r == starts_with(s@, p@),
{
    if p.len() > s.len() {
        return false;
    }
    let mut i: usize = 0;
    while i < p.len()
        invariant
            i <= p.len() <= s.len(),
            s@.subrange(0, i as int) == p@.subrange(0, i as int),
        decreases p.len() - i,
    {
        if s[i] != p[i] {
            assert(s@.subrange(0, p.len() as int)[i as int] != p@[i as int]);
            return false;
        }
        assert(s@.subrange(0, i + 1) =~= s@.subrange(0, i as int).push(s@[i as int]));
        assert(p@.subrange(0, i + 1) =~= p@.subrange(0, i as int).push(p@[i as int]));
        i += 1;
    }
    assert(p@.subrange(0, p.len() as int) =~= p@);
    true
}

/// What `s.strip_prefix(p)` gives.
pub fn strip_prefix_chars(s: &Vec<char>, p: &Vec<char>) -> (r: Option<Vec<char>>)
    ensures
        r.deep_view() == strip_prefix(s@, p@),
{
    if starts_with_chars(s, p) {
        Some(copy_range(s, p.len(), s.len()))
    } else {
        None
    }
}

/// `s` without leading and trailing whitespace, as a `String`
/// (`s.trim().to_string()`).
pub fn trimmed(s: &str) -> (r: String)
    ensures
        r@ == trim(s@),
{
    let cs = chars_of(s);
    let t = trim_chars(&cs);
    string_of(&t)
}

/// The text `a`, then the characters `b`, then the text `c`.
pub fn concat3(a: &str, b: &Vec<char>, c: &str) -> (r: String)
    ensures
        r@ == a@ + b@ + c@,
{
    let mut cs = chars_of(a);
    let mut bs = copy_range(b, 0, b.len());
    assert(b@.subrange(0, b.len() as int) =~= b@);
    let mut tail = chars_of(c);
    cs.append(&mut bs);
    cs.append(&mut tail);
    string_of(&cs)
}

/// The position of the last `c` in `s`, or -1 when there is none.
pub open spec fn last_index_of(s: Seq<char>, c: char) -> int
    decreases s.len(),
{
    if s.len() == 0 {
        -1
    } else if s.last() == c {
        s.len() - 1
    } else {
        last_index_of(s.drop_last(), c)
    }
}

pub proof fn lemma_last_index_of(s: Seq<char>, c: char)
    ensures
        -1 <= last_index_of(s, c) < s.len(),
        last_index_of(s, c) >= 0 ==> s[last_index_of(s, c)] == c,
        forall|i: int| last_index_of(s, c) < i < s.len() ==> s[i] != c,
    decreases s.len(),
{
    if s.len() > 0 && s.last() != c {
        lemma_last_index_of(s.drop_last(), c);
        assert forall|i: int| last_index_of(s, c) < i < s.len() implies s[i] != c by {
            if i < s.len() - 1 {
                assert(s[i] == s.drop_last()[i]);
            }
        }
    }
}

/// The position of the last `c` in `s` (`str::rfind`, counted in characters).
pub fn rfind_char(s: &Vec<char>, c: char) -> (r: Option<usize>)
    ensures
        match r {
            Some(i) => i == last_index_of(s@, c),
            None => last_index_of(s@, c) == -1,
        },
{
    let mut k = s.len();
    assert(s@.subrange(0, k as int) =~= s@);
    while k > 0
        invariant
            k <= s.len(),
            last_index_of(s@, c) == last_index_of(s@.subrange(0, k as int), c),
        decreases k,
    {
        if s[k - 1] == c {
            return Some(k - 1);
        }
        assert(s@.subrange(0, k as int).drop_last() =~= s@.subrange(0, k - 1));
        k -= 1;
    }
    None
}

/// Whether every character of `s` is an ASCII digit.
pub fn all_digits_chars(s: &Vec<char>) -> (r: bool)
    ensures
        r == all_digits(s@),
{
    let mut i: usize = 0;
    while i < s.len()
        invariant
            i <= s.len(),
            forall|j: int| 0 <= j < i ==> is_digit(#[trigger] s@[j]),
        decreases s.len() - i,
    {
        if !is_digit_char(s[i]) {
            return false;
        }
        i += 1;
    }
    true
}

/// Lexicographic order on texts, character by character (the order of
/// `String`'s `Ord`, which compares the UTF-8 bytes).
pub open spec fn lex_le(a: Seq<char>, b: Seq<char>) -> bool
    decreases a.len(),
{
    if a.len() == 0 {
        true
    } else if b.len() == 0 {
        false
    } else if a[0] != b[0] {
        (a[0] as int) < (b[0] as int)
    } else {
        lex_le(a.drop_first(), b.drop_first())
    }
}

pub proof fn lemma_lex_total(a: Seq<char>, b: Seq<char>)
    ensures
        lex_le(a, b) || lex_le(b, a),
    decreases a.len(),
{
    if a.len() > 0 && b.len() > 0 {
        if a[0] == b[0] {
            lemma_lex_total(a.drop_first(), b.drop_first());
        } else {
            assert((a[0] as int) != (b[0] as int));
        }
    }
}

pub proof fn lemma_lex_trans(a: Seq<char>, b: Seq<char>, c: Seq<char>)
    requires
        lex_le(a, b),
        lex_le(b, c),
    ensures
        lex_le(a, c),
    decreases a.len(),
{
    if a.len() > 0 && b.len() > 0 && c.len() > 0 && a[0] == b[0] && b[0] == c[0] {
        lemma_lex_trans(a.drop_first(), b.drop_first(), c.drop_first());
    }
}

/// Whether `a` comes no later than `b` in lexicographic order.
pub fn lex_le_chars(a: &Vec<char>, b: &Vec<char>) -> (r: bool)
    ensures
        r == lex_le(a@, b@),
{
    let mut i: usize = 0;
    assert(a@.subrange(0, a.len() as int) =~= a@);
    assert(b@.subrange(0, b.len() as int) =~= b@);
    while i < a.len() && i < b.len() && a[i] == b[i]
        invariant
            i <= a.len(),
            i <= b.len(),
            lex_le(a@, b@) == lex_le(
                a@.subrange(i as int, a.len() as int),
                b@.subrange(i as int, b.len() as int),
            ),
        decreases a.len() - i,
    {
        assert(a@.subrange(i as int, a.len() as int).drop_first() =~= a@.subrange(
            i + 1,
            a.len() as int,
        ));
        assert(b@.subrange(i as int, b.len() as int).drop_first() =~= b@.subrange(
            i + 1,
            b.len() as int,
        ));
        i += 1;
    }
    if i == a.len() {
        true
    } else if i == b.len() {
        false
    } else {
        let ghost sa = a@.subrange(i as int, a.len() as int);
        let ghost sb = b@.subrange(i as int, b.len() as int);
        assert(sa[0] == a@[i as int] && sb[0] == b@[i as int]);
        assert(a@[i as int] != b@[i as int]);
        a[i] < b[i]
    }
}

/// Whether `a` and `b` hold the same characters.
pub fn same_chars(a: &Vec<char>, b: &Vec<char>) -> (r: bool)
    ensures
        r == (a@ == b@),
{
    if a.len() != b.len() {
        return false;
    }
    let mut i: usize = 0;
    while i < a.len()
        invariant
            i <= a.len() == b.len(),
            forall|j: int| 0 <= j < i ==> a@[j] == b@[j],
        decreases a.len() - i,
    {
        if a[i] != b[i] {
            return false;
        }
        i += 1;
    }
    assert(a@ =~= b@);
    true
}

/// The position of the first `c` in `s` (`s.len()` when there is none).
pub open spec fn first_index_of(s: Seq<char>, c: char) -> nat
    decreases s.len(),
{
    if s.len() == 0 || s[0] == c {
        0
    } else {
        1 + first_index_of(s.drop_first(), c)
    }
}

pub proof fn lemma_first_index_of(s: Seq<char>, c: char)
    ensures
        first_index_of(s, c) <= s.len(),
        first_index_of(s, c) < s.len() ==> s[first_index_of(s, c) as int] == c,
        forall|i: int| 0 <= i < first_index_of(s, c) ==> s[i] != c,
    decreases s.len(),
{
    if s.len() > 0 && s[0] != c {
        lemma_first_index_of(s.drop_first(), c);
        assert forall|i: int| 0 <= i < first_index_of(s, c) implies s[i] != c by {
            if i > 0 {
                assert(s[i] == s.drop_first()[i - 1]);
            }
        }
    }
}

/// The position of the first `c` in `s` (`s.len()` when there is none).
pub fn find_char(s: &Vec<char>, c: char) -> (r: usize)
    ensures
        r == first_index_of(s@, c),
{
    let mut i: usize = 0;
    assert(s@.subrange(0, s.len() as int) =~= s@);
    while i < s.len() && s[i] != c
        invariant
            i <= s.len(),
            first_index_of(s@, c) == i + first_index_of(s@.subrange(i as int, s.len() as int), c),
        decreases s.len() - i,
    {
        assert(s@.subrange(i as int, s.len() as int).drop_first() =~= s@.subrange(
            i + 1,
            s.len() as int,
        ));
        i += 1;
    }
    i
}

/// The character of decimal digit `d`.
pub open spec fn digit_char(d: int) -> char {
    (d + '0' as int) as char
}

/// The decimal digits of `n`, most significant first, without leading zeros
/// (`n.to_string()`).
pub open spec fn decimal(n: nat) -> Seq<char>
    decreases n,
{
    if n < 10 {
        seq![digit_char(n as int)]
    } else {
        decimal(n / 10).push(digit_char((n % 10) as int))
    }
}

/// The decimal digits of `n` (`n.to_string()`).
pub fn decimal_chars(n: u64) -> (r: Vec<char>)
    ensures
        r@ == decimal(n as nat),
    decreases n,
{
    let d = (n % 10) as u8;
    let c = (48u8 + d) as char;
    assert(c == digit_char((n % 10) as int));
    if n < 10 {
        let mut r: Vec<char> = Vec::new();
        r.push(c);
        assert(r@ =~= seq![c]);
        r
    } else {
        let mut r = decimal_chars(n / 10);
        r.push(c);
        r
    }
}

/// The decimal digits of any `u64` read back as that number: `parse_u64`
/// accepts every value up to `u64::MAX`, with no further bound.
pub proof fn lemma_parse_u64_decimal(n: u64)
    ensures
        parse_u64(decimal(n as nat)) == Some(n),
{
    lemma_decimal_digits(n as nat);
    let d = decimal(n as nat);
    assert(d[0] != '+');
    assert(unsigned_digits(d) == d);
}

/// `decimal(n)` is a non-empty string of digits worth `n`.
pub proof fn lemma_decimal_digits(n: nat)
    ensures
        decimal(n).len() > 0,
        all_digits(decimal(n)),
        digits_value(decimal(n)) == n,
    decreases n,
{
    if n >= 10 {
        lemma_decimal_digits(n / 10);
        let d = decimal(n);
        let p = decimal(n / 10);
        assert(d == p.push(digit_char((n % 10) as int)));
        assert(d.drop_last() =~= p);
        assert(all_digits(d)) by {
            assert forall|i: int| 0 <= i < d.len() implies is_digit(#[trigger] d[i]) by {
                if i < p.len() {
                    assert(d[i] == p[i]);
                }
            }
        }
        assert(digit_value(d.last()) == n % 10);
        assert((n / 10) * 10 + n % 10 == n) by (nonlinear_arith);
        assert(digits_value(d) == digits_value(p) * 10 + digit_value(d.last()));
    } else {
        let d = decimal(n);
        assert(d.drop_last() =~= Seq::<char>::empty());
        assert(d.last() == digit_char(n as int));
        assert(digit_value(d.last()) == n);
        assert(digits_value(d) == digits_value(d.drop_last()) * 10 + digit_value(d.last()));
        assert(is_digit(d[0]));
    }
}

} // verus!
