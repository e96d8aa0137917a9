use vstd::prelude::*;
use vstd::std_specs::iter::IteratorSpec;

verus! {

/// `String::push` appends one character to the end of the string.
pub assume_specification[ String::push ](s: &mut String, ch: char)
    ensures
        final(s)@ == old(s)@.push(ch),
;

/// The characters of `s`, in order.
pub fn chars_of(s: &str) -> (out: Vec<char>)
    ensures
        out@ == s@,
{
    let mut out: Vec<char> = Vec::new();
    for c in it: s.chars()
        invariant
            out@ == it.seq().take(it.index() as int),
    {
        out.push(c);
    }
    out
}

/// A `String` holding exactly the characters of `cs`.
pub fn string_of(cs: &[char]) -> (out: String)
    ensures
        out@ == cs@,
{
    let mut out = String::new();
    let mut i: usize = 0;
    while i < cs.len()
        invariant
            i <= cs@.len(),
            out@ == cs@.subrange(0, i as int),
        decreases cs@.len() - i,
    {
        out.push(cs[i]);
        i = i + 1;
    }
    out
}

} // verus!

verus! {

/// `char::is_whitespace`: the Unicode `White_Space` property.
pub open spec fn is_ws(c: char) -> bool {
    ||| ('\u{9}' <= c && c <= '\u{d}')
    ||| c == ' '
    ||| c == '\u{85}'
    ||| c == '\u{a0}'
    ||| c == '\u{1680}'
    ||| ('\u{2000}' <= c && c <= '\u{200a}')
    ||| c == '\u{2028}'
    ||| c == '\u{2029}'
    ||| c == '\u{202f}'
    ||| c == '\u{205f}'
    ||| c == '\u{3000}'
}

/// Executable `char::is_whitespace`.
pub fn char_is_ws(c: char) -> (b: bool)
    ensures
        b == is_ws(c),
{
    ('\u{9}' <= c && c <= '\u{d}') || c == ' ' || c == '\u{85}' || c == '\u{a0}' || c
        == '\u{1680}' || ('\u{2000}' <= c && c <= '\u{200a}') || c == '\u{2028}' || c
        == '\u{2029}' || c == '\u{202f}' || c == '\u{205f}' || c == '\u{3000}'
}

/// First index at or after `i` that holds a non-whitespace character (or the length).
pub open spec fn next_non_ws(s: Seq<char>, i: int) -> int
    decreases s.len() - i,
{
    if i < 0 || i >= s.len() {
        if i < 0 { 0 } else { s.len() as int }
    } else if is_ws(s[i]) {
        next_non_ws(s, i + 1)
    } else {
        i
    }
}

/// First index at or after `i` that holds a whitespace character (or the length).
pub open spec fn next_ws(s: Seq<char>, i: int) -> int
    decreases s.len() - i,
{
    if i < 0 || i >= s.len() {
        if i < 0 { 0 } else { s.len() as int }
    } else if is_ws(s[i]) {
        i
    } else {
        next_ws(s, i + 1)
    }
}

pub proof fn lemma_next_non_ws(s: Seq<char>, i: int)
    requires
        0 <= i <= s.len(),
    ensures
        i <= next_non_ws(s, i) <= s.len(),
        forall|k: int| i <= k < next_non_ws(s, i) ==> is_ws(#[trigger] s[k]),
        next_non_ws(s, i) < s.len() ==> !is_ws(s[next_non_ws(s, i)]),
    decreases s.len() - i,
{
    if i < s.len() && is_ws(s[i]) {
        lemma_next_non_ws(s, i + 1);
    }
}

pub proof fn lemma_next_ws(s: Seq<char>, i: int)
    requires
        0 <= i <= s.len(),
    ensures
        i <= next_ws(s, i) <= s.len(),
        forall|k: int| i <= k < next_ws(s, i) ==> !is_ws(#[trigger] s[k]),
        next_ws(s, i) < s.len() ==> is_ws(s[next_ws(s, i)]),
    decreases s.len() - i,
{
    if i < s.len() && !is_ws(s[i]) {
        lemma_next_ws(s, i + 1);
    }
}

/// The whitespace-separated tokens of `s` from index `i` on (`str::split_whitespace`).
pub open spec fn tokens_from(s: Seq<char>, i: int) -> Seq<Seq<char>>
    decreases s.len() - i,
{
    if i < 0 || i >= s.len() {
        Seq::empty()
    } else {
        let k = next_non_ws(s, i);
        if k >= s.len() {
            Seq::empty()
        } else {
            let e = next_ws(s, k);
            if e <= i || e > s.len() || k < i {
                Seq::empty()
            } else {
                seq![s.subrange(k, e)] + tokens_from(s, e)
            }
        }
    }
}

/// Every token is non-empty.
pub proof fn lemma_tokens_from_nonempty(s: Seq<char>, i: int)
    requires
        0 <= i,
    ensures
        forall|q: int| 0 <= q < tokens_from(s, i).len() ==> (#[trigger] tokens_from(s, i)[q]).len() > 0,
    decreases s.len() - i,
{
    if i < s.len() {
        lemma_next_non_ws(s, i);
        let k = next_non_ws(s, i);
        if k < s.len() {
            lemma_next_ws(s, k);
            let e = next_ws(s, k);
            if !(e <= i || e > s.len() || k < i) {
                lemma_tokens_from_nonempty(s, e);
                let t = tokens_from(s, i);
                let rest = tokens_from(s, e);
                assert(t == seq![s.subrange(k, e)] + rest);
                assert forall|q: int| 0 <= q < t.len() implies (#[trigger] t[q]).len() > 0 by {
                    if q > 0 {
                        assert(t[q] == rest[q - 1]);
                    }
                }
            }
        }
    }
}

/// Joining at least one part, the last of them non-empty, gives a non-empty text.
pub proof fn lemma_join_nonempty(parts: Seq<Seq<char>>, sep: Seq<char>)
    requires
        parts.len() > 0,
        parts.last().len() > 0,
    ensures
        join(parts, sep).len() > 0,
{
}

/// `str::split_whitespace`, collected.
pub open spec fn tokens(s: Seq<char>) -> Seq<Seq<char>> {
    tokens_from(s, 0)
}

/// A copy of `s[from..to]`.
pub fn sub_chars(s: &[char], from: usize, to: usize) -> (out: Vec<char>)
    requires
        from <= to <= s@.len(),
    ensures
        out@ == s@.subrange(from as int, to as int),
{
    let mut out: Vec<char> = Vec::new();
    let mut i = from;
    while i < to
        invariant
            from <= i <= to <= s@.len(),
            out@ == s@.subrange(from as int, i as int),
        decreases to - i,
    {
        out.push(s[i]);
        i = i + 1;
    }
    out
}

/// Index of the first non-whitespace character at or after `i`.
pub fn skip_ws(s: &[char], i: usize) -> (k: usize)
    requires
        i <= s@.len(),
    ensures
        k == next_non_ws(s@, i as int),
{
    let mut k = i;
    while k < s.len() && char_is_ws(s[k])
        invariant
            i <= k <= s@.len(),
            next_non_ws(s@, k as int) == next_non_ws(s@, i as int),
        decreases s@.len() - k,
    {
        k = k + 1;
    }
    k
}

/// Index of the first whitespace character at or after `i`.
pub fn skip_non_ws(s: &[char], i: usize) -> (k: usize)
    requires
        i <= s@.len(),
    ensures
        k == next_ws(s@, i as int),
{
    let mut k = i;
    while k < s.len() && !char_is_ws(s[k])
        invariant
            i <= k <= s@.len(),
            next_ws(s@, k as int) == next_ws(s@, i as int),
        decreases s@.len() - k,
    {
        k = k + 1;
    }
    k
}

/// `str::split_whitespace`, collected into owned character vectors.
pub fn split_ws(s: &[char]) -> (out: Vec<Vec<char>>)
    ensures
        out@.len() == tokens(s@).len(),
        forall|j: int| 0 <= j < out@.len() ==> (#[trigger] out@[j])@ == tokens(s@)[j],
{
    let mut out: Vec<Vec<char>> = Vec::new();
    let mut i: usize = 0;
    let ghost done: Seq<Seq<char>> = Seq::empty();
    while i < s.len()
        invariant
            i <= s@.len(),
            out@.len() == done.len(),
            forall|j: int| 0 <= j < out@.len() ==> (#[trigger] out@[j])@ == done[j],
            done + tokens_from(s@, i as int) == tokens(s@),
        decreases s@.len() - i,
    {
        let k = skip_ws(s, i);
        proof {
            lemma_next_non_ws(s@, i as int);
        }
        if k >= s.len() {
            assert(tokens_from(s@, i as int) == Seq::<Seq<char>>::empty());
            i = s.len();
            assert(tokens_from(s@, i as int) == Seq::<Seq<char>>::empty());
        } else {
            let e = skip_non_ws(s, k);
            proof {
                lemma_next_ws(s@, k as int);
            }
            let tok = sub_chars(s, k, e);
            proof {
                assert(tokens_from(s@, i as int) == seq![s@.subrange(k as int, e as int)]
                    + tokens_from(s@, e as int));
                done = done.push(s@.subrange(k as int, e as int));
                assert(done + tokens_from(s@, e as int) == tokens(s@));
            }
            out.push(tok);
            i = e;
        }
    }
    proof {
        assert(done + tokens_from(s@, i as int) == done);
    }
    out
}

} // verus!

verus! {

/// Index just past the last non-whitespace character before `j` (or 0).
pub open spec fn prev_non_ws(s: Seq<char>, j: int) -> int
    decreases j,
{
    if j <= 0 || j > s.len() {
        if j <= 0 { 0 } else { s.len() as int }
    } else if is_ws(s[j - 1]) {
        prev_non_ws(s, j - 1)
    } else {
        j
    }
}

pub proof fn lemma_prev_non_ws(s: Seq<char>, j: int)
    requires
        0 <= j <= s.len(),
    ensures
        0 <= prev_non_ws(s, j) <= j,
        forall|k: int| prev_non_ws(s, j) <= k < j ==> is_ws(#[trigger] s[k]),
        prev_non_ws(s, j) > 0 ==> !is_ws(s[prev_non_ws(s, j) - 1]),
    decreases j,
{
    if j > 0 && is_ws(s[j - 1]) {
        lemma_prev_non_ws(s, j - 1);
    }
}

/// `str::trim`: `s` without leading and trailing whitespace.
pub open spec fn trim(s: Seq<char>) -> Seq<char> {
    let a = next_non_ws(s, 0);
    let b = prev_non_ws(s, s.len() as int);
    if a >= b {
        Seq::empty()
    } else {
        s.subrange(a, b)
    }
}

/// `str::trim`.
pub fn trim_chars(s: &[char]) -> (out: Vec<char>)
    ensures
        out@ == trim(s@),
{
    let a = skip_ws(s, 0);
    let mut b = s.len();
    while b > 0 && char_is_ws(s[b - 1])
        invariant
            b <= s@.len(),
            prev_non_ws(s@, b as int) == prev_non_ws(s@, s@.len() as int),
        decreases b,
    {
        b = b - 1;
    }
    if a >= b {
        Vec::new()
    } else {
        sub_chars(s, a, b)
    }
}

/// `p` occurs in `s` at index `i`.
pub open spec fn matches_at(s: Seq<char>, p: Seq<char>, i: int) -> bool {
    0 <= i && i + p.len() <= s.len() && s.subrange(i, i + p.len()) == p
}

/// `str::starts_with`.
pub open spec fn starts_with(s: Seq<char>, p: Seq<char>) -> bool {
    matches_at(s, p, 0)
}

/// `str::ends_with`.
pub open spec fn ends_with(s: Seq<char>, p: Seq<char>) -> bool {
    p.len() <= s.len() && matches_at(s, p, s.len() - p.len())
}

/// `str::contains`.
pub open spec fn contains(s: Seq<char>, p: Seq<char>) -> bool {
    exists|i: int| matches_at(s, p, i)
}

/// The first index at or after `i` at which `p` occurs (`str::find` from `i`).
pub open spec fn find_from(s: Seq<char>, p: Seq<char>, i: int) -> Option<int>
    decreases s.len() + 1 - i,
{
    if i < 0 || i + p.len() > s.len() {
        None
    } else if matches_at(s, p, i) {
        Some(i)
    } else {
        find_from(s, p, i + 1)
    }
}

/// `str::find`.
pub open spec fn find(s: Seq<char>, p: Seq<char>) -> Option<int> {
    find_from(s, p, 0)
}

/// The last index at or before `i` at which `p` occurs.
pub open spec fn find_last_upto(s: Seq<char>, p: Seq<char>, i: int) -> Option<int>
    decreases i + 1,
{
    if i < 0 {
        None
    } else if matches_at(s, p, i) {
        Some(i)
    } else {
        find_last_upto(s, p, i - 1)
    }
}

/// `str::rfind`.
pub open spec fn rfind(s: Seq<char>, p: Seq<char>) -> Option<int> {
    find_last_upto(s, p, s.len() - p.len())
}

pub proof fn lemma_find_from(s: Seq<char>, p: Seq<char>, i: int)
    requires
        0 <= i,
    ensures
        find_from(s, p, i) matches Some(k) ==> i <= k && matches_at(s, p, k) && forall|j: int|
            i <= j < k ==> !matches_at(s, p, j),
        find_from(s, p, i) is None ==> forall|j: int| i <= j ==> !matches_at(s, p, j),
    decreases s.len() + 1 - i,
{
    if i + p.len() <= s.len() && !matches_at(s, p, i) {
        lemma_find_from(s, p, i + 1);
        assert forall|j: int| i <= j implies !matches_at(s, p, j) || (find_from(s, p, i) matches Some(k) && j >= k) by {
            if j == i {
            }
        }
    }
}

pub proof fn lemma_find_last(s: Seq<char>, p: Seq<char>, i: int)
    ensures
        find_last_upto(s, p, i) matches Some(k) ==> k <= i && matches_at(s, p, k) && forall|j: int|
            k < j <= i ==> !matches_at(s, p, j),
        find_last_upto(s, p, i) is None ==> forall|j: int| j <= i ==> !matches_at(s, p, j),
    decreases i + 1,
{
    if i >= 0 && !matches_at(s, p, i) {
        lemma_find_last(s, p, i - 1);
    }
}

/// Whether `p` occurs in `s` at index `i`.
pub fn matches_at_exec(s: &[char], p: &[char], i: usize) -> (b: bool)
    ensures
        b == matches_at(s@, p@, i as int),
{
    if p.len() > s.len() || i > s.len() - p.len() {
        return false;
    }
    let mut j: usize = 0;
    while j < p.len()
        invariant
            i + p.len() <= s.len(),
            j <= p@.len(),
            forall|t: int| 0 <= t < j ==> s@[i + t] == p@[t],
        decreases p@.len() - j,
    {
        if s[i + j] != p[j] {
            assert(s@.subrange(i as int, i + p@.len())[j as int] != p@[j as int]);
            return false;
        }
        j = j + 1;
    }
    assert(s@.subrange(i as int, i + p@.len()) =~= p@);
    true
}

/// `str::find` from index `from`.
pub fn find_from_exec(s: &[char], p: &[char], from: usize) -> (r: Option<usize>)
    ensures
        r matches Some(k) ==> find_from(s@, p@, from as int) == Some(k as int),
        r is None ==> find_from(s@, p@, from as int) is None,
{
    if from > s.len() || p.len() > s.len() - from {
        return None;
    }
    let mut i = from;
    loop
        invariant
            from <= i <= s.len(),
            p.len() <= s.len() - i,
            find_from(s@, p@, i as int) == find_from(s@, p@, from as int),
        decreases s@.len() - i,
    {
        if matches_at_exec(s, p, i) {
            return Some(i);
        }
        if i == s.len() || p.len() > s.len() - i - 1 {
            assert(find_from(s@, p@, i + 1) is None);
            return None;
        }
        i = i + 1;
    }
}

/// `str::find`.
pub fn find_exec(s: &[char], p: &[char]) -> (r: Option<usize>)
    ensures
        r matches Some(k) ==> find(s@, p@) == Some(k as int),
        r is None ==> find(s@, p@) is None,
{
    find_from_exec(s, p, 0)
}

/// `str::rfind`.
pub fn rfind_exec(s: &[char], p: &[char]) -> (r: Option<usize>)
    ensures
        r matches Some(k) ==> rfind(s@, p@) == Some(k as int),
        r is None ==> rfind(s@, p@) is None,
{
    if p.len() > s.len() {
        return None;
    }
    let mut i = s.len() - p.len();
    loop
        invariant
            i <= s@.len() - p@.len(),
            find_last_upto(s@, p@, i as int) == rfind(s@, p@),
        decreases i,
    {
        if matches_at_exec(s, p, i) {
            return Some(i);
        }
        if i == 0 {
            assert(find_last_upto(s@, p@, -1) is None);
            return None;
        }
        i = i - 1;
    }
}

/// `str::contains`.
pub fn contains_exec(s: &[char], p: &[char]) -> (b: bool)
    ensures
        b == contains(s@, p@),
{
    let r = find_exec(s, p);
    proof {
        lemma_find_from(s@, p@, 0);
    }
    match r {
        Some(_) => true,
        None => false,
    }
}

/// `str::contains` with a `&str` pattern.
pub fn contains_str(s: &[char], p: &str) -> (b: bool)
    ensures
        b == contains(s@, p@),
{
    let pc = chars_of(p);
    contains_exec(s, pc.as_slice())
}

/// `str::starts_with` with a `&str` pattern.
pub fn starts_with_str(s: &[char], p: &str) -> (b: bool)
    ensures
        b == starts_with(s@, p@),
{
    let pc = chars_of(p);
    matches_at_exec(s, pc.as_slice(), 0)
}

/// `str::ends_with` with a `&str` pattern.
pub fn ends_with_str(s: &[char], p: &str) -> (b: bool)
    ensures
        b == ends_with(s@, p@),
{
    let pc = chars_of(p);
    if pc.len() > s.len() {
        false
    } else {
        matches_at_exec(s, pc.as_slice(), s.len() - pc.len())
    }
}

} // verus!

verus! {

/// First index at or after `i` holding `c` (or the length).
pub open spec fn next_char(s: Seq<char>, c: char, i: int) -> int
    decreases s.len() - i,
{
    if i < 0 || i >= s.len() {
        if i < 0 { 0 } else { s.len() as int }
    } else if s[i] == c {
        i
    } else {
        next_char(s, c, i + 1)
    }
}

pub proof fn lemma_next_char(s: Seq<char>, c: char, i: int)
    requires
        0 <= i <= s.len(),
    ensures
        i <= next_char(s, c, i) <= s.len(),
        forall|k: int| i <= k < next_char(s, c, i) ==> #[trigger] s[k] != c,
        next_char(s, c, i) < s.len() ==> s[next_char(s, c, i)] == c,
    decreases s.len() - i,
{
    if i < s.len() && s[i] != c {
        lemma_next_char(s, c, i + 1);
    }
}

/// The pieces of `s[i..]` between occurrences of `c` (`str::split` with a char).
pub open spec fn split_from(s: Seq<char>, c: char, i: int) -> Seq<Seq<char>>
    decreases s.len() + 1 - i,
{
    if i < 0 || i > s.len() {
        Seq::empty()
    } else {
        let e = next_char(s, c, i);
        if e >= s.len() || e < i {
            seq![s.subrange(i, s.len() as int)]
        } else {
            seq![s.subrange(i, e)] + split_from(s, c, e + 1)
        }
    }
}

/// `str::split` with a char separator, collected.
pub open spec fn split_on(s: Seq<char>, c: char) -> Seq<Seq<char>> {
    split_from(s, c, 0)
}

/// A line terminated by `\n` loses a trailing `\r` as well.
pub open spec fn strip_cr(l: Seq<char>) -> Seq<char> {
    if l.len() > 0 && l.last() == '\r' {
        l.drop_last()
    } else {
        l
    }
}

/// `str::lines`: pieces between `\n`, a final empty piece dropped, and `\r` removed before
/// each `\n`.
pub open spec fn lines(s: Seq<char>) -> Seq<Seq<char>> {
    let parts = split_on(s, '\n');
    let n = parts.len() as int;
    let body = if n > 0 && parts[n - 1].len() == 0 {
        parts.drop_last()
    } else {
        parts
    };
    Seq::new(body.len(), |i: int| if i < n - 1 { strip_cr(body[i]) } else { body[i] })
}

pub proof fn lemma_split_from_len(s: Seq<char>, c: char, i: int)
    requires
        0 <= i <= s.len(),
    ensures
        split_from(s, c, i).len() >= 1,
    decreases s.len() + 1 - i,
{
    lemma_next_char(s, c, i);
    let e = next_char(s, c, i);
    if e < s.len() {
        lemma_split_from_len(s, c, e + 1);
    }
}

/// `str::split` with a char separator, collected into owned character vectors.
pub fn split_char(s: &[char], c: char) -> (out: Vec<Vec<char>>)
    ensures
        out@.len() == split_on(s@, c).len(),
        forall|j: int| 0 <= j < out@.len() ==> (#[trigger] out@[j])@ == split_on(s@, c)[j],
{
    let mut out: Vec<Vec<char>> = Vec::new();
    let mut i: usize = 0;
    let ghost done: Seq<Seq<char>> = Seq::empty();
    loop
        invariant
            i <= s@.len(),
            out@.len() == done.len(),
            forall|j: int| 0 <= j < out@.len() ==> (#[trigger] out@[j])@ == done[j],
            done + split_from(s@, c, i as int) == split_on(s@, c),
        decreases s@.len() - i,
    {
        let mut e = i;
        while e < s.len() && s[e] != c
            invariant
                i <= e <= s@.len(),
                next_char(s@, c, e as int) == next_char(s@, c, i as int),
            decreases s@.len() - e,
        {
            e = e + 1;
        }
        proof {
            lemma_next_char(s@, c, i as int);
        }
        let piece = sub_chars(s, i, e);
        if e >= s.len() {
            proof {
                assert(split_from(s@, c, i as int) == seq![s@.subrange(i as int, s@.len() as int)]);
                done = done.push(piece@);
            }
            out.push(piece);
            assert(done == split_on(s@, c));
            return out;
        }
        proof {
            assert(split_from(s@, c, i as int) == seq![s@.subrange(i as int, e as int)] + split_from(
                s@,
                c,
                e + 1,
            ));
            done = done.push(piece@);
            assert(done + split_from(s@, c, e + 1) == split_on(s@, c));
        }
        out.push(piece);
        i = e + 1;
    }
}

/// `str::lines`, collected into owned character vectors.
pub fn lines_of(s: &[char]) -> (out: Vec<Vec<char>>)
    ensures
        out@.len() == lines(s@).len(),
        forall|j: int| 0 <= j < out@.len() ==> (#[trigger] out@[j])@ == lines(s@)[j],
{
    let parts = split_char(s, '\n');
    proof {
        lemma_split_from_len(s@, '\n', 0);
    }
    let n = parts.len();
    let m = if parts[n - 1].len() == 0 { n - 1 } else { n };
    let mut out: Vec<Vec<char>> = Vec::new();
    let mut i: usize = 0;
    while i < m
        invariant
            n == parts@.len(),
            n == split_on(s@, '\n').len(),
            n >= 1,
            m == lines(s@).len(),
            m <= n,
            i <= m,
            forall|j: int| 0 <= j < n ==> (#[trigger] parts@[j])@ == split_on(s@, '\n')[j],
            out@.len() == i,
            forall|j: int| 0 <= j < i ==> (#[trigger] out@[j])@ == lines(s@)[j],
        decreases m - i,
    {
        let p = &parts[i];
        let l = if i + 1 < n && p.len() > 0 && p[p.len() - 1] == '\r' {
            sub_chars(p.as_slice(), 0, p.len() - 1)
        } else {
            sub_chars(p.as_slice(), 0, p.len())
        };
        proof {
            assert(p@.subrange(0, p@.len() as int) == p@);
            assert(p@.drop_last() == p@.subrange(0, p@.len() - 1));
        }
        out.push(l);
        i = i + 1;
    }
    out
}

/// The value of a character as a digit in `radix` (`char::to_digit`).
pub open spec fn digit_of(c: char, radix: nat) -> Option<nat> {
    let v: int = if '0' <= c && c <= '9' {
        c as int - '0' as int
    } else if 'a' <= c && c <= 'z' {
        c as int - 'a' as int + 10
    } else if 'A' <= c && c <= 'Z' {
        c as int - 'A' as int + 10
    } else {
        -1
    };
    if 0 <= v && v < radix {
        Some(v as nat)
    } else {
        None
    }
}

/// Every character of `s` is a digit in `radix`.
pub open spec fn all_digits(s: Seq<char>, radix: nat) -> bool {
    forall|i: int| 0 <= i < s.len() ==> (#[trigger] digit_of(s[i], radix)) is Some
}

/// The value of the digit string `s` in `radix`, most significant digit first.
pub open spec fn digits_value(s: Seq<char>, radix: nat) -> nat
    decreases s.len(),
{
    if s.len() == 0 {
        0
    } else {
        digits_value(s.drop_last(), radix) * radix + match digit_of(s.last(), radix) {
            Some(d) => d,
            None => 0,
        }
    }
}

/// `from_str_radix` for an unsigned type whose largest value is `max`: an optional `+`, then
/// at least one digit, and a value no larger than `max`.
pub open spec fn parse_unsigned(s: Seq<char>, radix: nat, max: nat) -> Option<nat> {
    let d = if s.len() > 0 && s[0] == '+' {
        s.skip(1)
    } else {
        s
    };
    if d.len() > 0 && all_digits(d, radix) && digits_value(d, radix) <= max {
        Some(digits_value(d, radix))
    } else {
        None
    }
}

pub proof fn lemma_digits_value_monotone(s: Seq<char>, radix: nat, j: int, k: int)
    requires
        0 <= j <= k <= s.len(),
        radix >= 1,
        all_digits(s, radix),
    ensures
        digits_value(s.take(j), radix) <= digits_value(s.take(k), radix),
    decreases k - j,
{
    if j < k {
        lemma_digits_value_monotone(s, radix, j, k - 1);
        assert(s.take(k).drop_last() == s.take(k - 1));
        let v = digits_value(s.take(k - 1), radix);
        assert(v <= v * radix) by (nonlinear_arith)
            requires
                radix >= 1,
        ;
    }
}

fn digit_of_exec(c: char, radix: u32) -> (r: Option<u32>)
    requires
        radix <= 36,
    ensures
        r matches Some(d) ==> digit_of(c, radix as nat) == Some(d as nat),
        r is None ==> digit_of(c, radix as nat) is None,
{
    let v: u32 = if '0' <= c && c <= '9' {
        (c as u32) - ('0' as u32)
    } else if 'a' <= c && c <= 'z' {
        (c as u32) - ('a' as u32) + 10
    } else if 'A' <= c && c <= 'Z' {
        (c as u32) - ('A' as u32) + 10
    } else {
        return None;
    };
    if v < radix {
        Some(v)
    } else {
        None
    }
}

/// `u64::from_str_radix(s, radix)`, as `Option`.
pub fn parse_u64_radix(s: &[char], radix: u32) -> (r: Option<u64>)
    requires
        2 <= radix <= 36,
    ensures
        r matches Some(v) ==> parse_unsigned(s@, radix as nat, u64::MAX as nat) == Some(v as nat),
        r is None ==> parse_unsigned(s@, radix as nat, u64::MAX as nat) is None,
{
    let start: usize = if s.len() > 0 && s[0] == '+' { 1 } else { 0 };
    let ghost d = if s@.len() > 0 && s@[0] == '+' { s@.skip(1) } else { s@ };
    assert(d == s@.skip(start as int));
    if start >= s.len() {
        return None;
    }
    let mut acc: u64 = 0;
    let mut i = start;
    while i < s.len()
        invariant
            start <= i <= s@.len(),
            d == s@.skip(start as int),
            d == (if s@.len() > 0 && s@[0] == '+' { s@.skip(1) } else { s@ }),
            2 <= radix <= 36,
            all_digits(d.take(i - start), radix as nat),
            acc as nat == digits_value(d.take(i - start), radix as nat),
        decreases s@.len() - i,
    {
        let dv = digit_of_exec(s[i], radix);
        assert(d[i - start] == s@[i as int]);
        match dv {
            None => {
                assert(digit_of(d[(i - start) as int], radix as nat) is None);
                return None;
            },
            Some(v) => {
                assert(d.take(i - start + 1).drop_last() == d.take(i - start));
                assert(d.take(i - start + 1).last() == s@[i as int]);
                assert(all_digits(d.take(i - start + 1), radix as nat)) by {
                    assert forall|t: int| 0 <= t < i - start + 1 implies (#[trigger] digit_of(
                        d.take(i - start + 1)[t],
                        radix as nat,
                    )) is Some by {
                        if t < i - start {
                            assert(d.take(i - start + 1)[t] == d.take(i - start)[t]);
                        }
                    }
                }
                if acc > (u64::MAX - v as u64) / (radix as u64) {
                    proof {
                        let nv = digits_value(d.take(i - start + 1), radix as nat);
                        assert(nv == acc * radix + v);
                        assert(acc * radix + v > u64::MAX) by (nonlinear_arith)
                            requires
                                acc > (u64::MAX - v) / (radix as int),
                                radix >= 2,
                                v < radix,
                        ;
                        if all_digits(d, radix as nat) {
                            lemma_digits_value_monotone(d, radix as nat, i - start + 1, d.len() as int);
                            assert(d.take(d.len() as int) == d);
                            assert(digits_value(d, radix as nat) > u64::MAX);
                        }
                        assert(parse_unsigned(s@, radix as nat, u64::MAX as nat) is None);
                    }
                    return None;
                }
                proof {
                    assert(acc * radix + v <= u64::MAX) by (nonlinear_arith)
                        requires
                            acc <= (u64::MAX - v) / (radix as int),
                            radix >= 2,
                            v < radix,
                    ;
                }
                acc = acc * (radix as u64) + (v as u64);
            },
        }
        i = i + 1;
    }
    assert(d.take(i - start) == d);
    Some(acc)
}

/// `u64::from_str`, as `Option`.
pub fn parse_u64(s: &[char]) -> (r: Option<u64>)
    ensures
        r matches Some(v) ==> parse_unsigned(s@, 10, u64::MAX as nat) == Some(v as nat),
        r is None ==> parse_unsigned(s@, 10, u64::MAX as nat) is None,
{
    parse_u64_radix(s, 10)
}

/// `u32::from_str`, as `Option`.
pub fn parse_u32(s: &[char]) -> (r: Option<u32>)
    ensures
        r matches Some(v) ==> parse_unsigned(s@, 10, u32::MAX as nat) == Some(v as nat),
        r is None ==> parse_unsigned(s@, 10, u32::MAX as nat) is None,
{
    match parse_u64(s) {
        Some(v) => if v <= u32::MAX as u64 {
            Some(v as u32)
        } else {
            None
        },
        None => None,
    }
}

/// `u16::from_str`, as `Option`.
pub fn parse_u16(s: &[char]) -> (r: Option<u16>)
    ensures
        r matches Some(v) ==> parse_unsigned(s@, 10, u16::MAX as nat) == Some(v as nat),
        r is None ==> parse_unsigned(s@, 10, u16::MAX as nat) is None,
{
    match parse_u64(s) {
        Some(v) => if v <= u16::MAX as u64 {
            Some(v as u16)
        } else {
            None
        },
        None => None,
    }
}

/// `usize::from_str`, as `Option`.
pub fn parse_usize(s: &[char]) -> (r: Option<usize>)
    ensures
        r matches Some(v) ==> parse_unsigned(s@, 10, usize::MAX as nat) == Some(v as nat),
        r is None ==> parse_unsigned(s@, 10, usize::MAX as nat) is None,
{
    match parse_u64(s) {
        Some(v) => if v <= usize::MAX as u64 {
            Some(v as usize)
        } else {
            None
        },
        None => None,
    }
}

} // verus!

verus! {

/// The character of a decimal digit.
pub open spec fn digit_char(d: nat) -> char {
    (('0' as nat) + d) as char
}

/// The decimal representation of `n` (`u64::to_string`).
pub open spec fn decimal(n: nat) -> Seq<char>
    decreases n,
{
    if n < 10 {
        seq![digit_char(n)]
    } else {
        decimal(n / 10).push(digit_char(n % 10))
    }
}

fn digit_char_exec(d: u64) -> (c: char)
    requires
        d < 10,
    ensures
        c == digit_char(d as nat),
{
    if d == 0 { '0' } else if d == 1 { '1' } else if d == 2 { '2' } else if d == 3 { '3' } else if d
        == 4 { '4' } else if d == 5 { '5' } else if d == 6 { '6' } else if d == 7 { '7' } else if d
        == 8 { '8' } else { '9' }
}

/// The decimal digits of `n`.
pub fn decimal_chars(n: u64) -> (out: Vec<char>)
    ensures
        out@ == decimal(n as nat),
{
    let mut q = n;
    let mut acc: Vec<char> = Vec::new();
    while q >= 10
        invariant
            decimal(n as nat) == decimal(q as nat) + acc@,
        decreases q,
    {
        let c = digit_char_exec(q % 10);
        proof {
            assert(decimal(q as nat) == decimal((q / 10) as nat).push(digit_char((q % 10) as nat)));
            assert(decimal((q / 10) as nat).push(c) + acc@ == decimal((q / 10) as nat) + (seq![c]
                + acc@));
        }
        acc.insert(0, c);
        q = q / 10;
    }
    let c = digit_char_exec(q);
    acc.insert(0, c);
    acc
}

/// `s` with every `a` replaced by `b` (`str::replace` with single characters).
pub open spec fn replace_char(s: Seq<char>, a: char, b: char) -> Seq<char> {
    Seq::new(s.len(), |i: int| if s[i] == a { b } else { s[i] })
}

/// `str::replace` with single characters.
pub fn replace_char_exec(s: &[char], a: char, b: char) -> (out: Vec<char>)
    ensures
        out@ == replace_char(s@, a, b),
{
    let mut out: Vec<char> = Vec::new();
    let mut i: usize = 0;
    while i < s.len()
        invariant
            i <= s@.len(),
            out@ == replace_char(s@, a, b).take(i as int),
        decreases s@.len() - i,
    {
        let c = if s[i] == a { b } else { s[i] };
        out.push(c);
        i = i + 1;
    }
    assert(replace_char(s@, a, b).take(s@.len() as int) == replace_char(s@, a, b));
    out
}

/// `str::trim_start_matches` with a string pattern: every leading copy of `p` removed.
pub open spec fn trim_start_str(s: Seq<char>, p: Seq<char>) -> Seq<char>
    decreases s.len(),
{
    if p.len() > 0 && starts_with(s, p) {
        trim_start_str(s.skip(p.len() as int), p)
    } else {
        s
    }
}

/// `str::trim_end_matches` with a char: every trailing copy of `c` removed.
pub open spec fn trim_end_char(s: Seq<char>, c: char) -> Seq<char>
    decreases s.len(),
{
    if s.len() > 0 && s.last() == c {
        trim_end_char(s.drop_last(), c)
    } else {
        s
    }
}

/// `str::trim_end_matches` with a string pattern: every trailing copy of `p` removed.
pub open spec fn trim_end_str(s: Seq<char>, p: Seq<char>) -> Seq<char>
    decreases s.len(),
{
    if p.len() > 0 && ends_with(s, p) {
        trim_end_str(s.take(s.len() - p.len()), p)
    } else {
        s
    }
}

/// `str::trim_end_matches` with a string pattern.
pub fn trim_end_str_exec(s: &[char], p: &[char]) -> (out: Vec<char>)
    ensures
        out@ == trim_end_str(s@, p@),
{
    if p.len() == 0 {
        return sub_chars(s, 0, s.len());
    }
    let mut j = s.len();
    assert(s@.take(s@.len() as int) =~= s@);
    loop
        invariant
            j <= s@.len(),
            p@.len() > 0,
            trim_end_str(s@.take(j as int), p@) == trim_end_str(s@, p@),
        decreases j,
    {
        let t = sub_chars(s, 0, j);
        assert(t@ =~= s@.take(j as int));
        if !ends_with_str_chars(t.as_slice(), p) {
            return t;
        }
        proof {
            let r = s@.take(j as int);
            assert(r.take(r.len() - p@.len()) =~= s@.take(j - p@.len()));
        }
        j = j - p.len();
    }
}

/// Whether `s` ends with `p`.
fn ends_with_str_chars(s: &[char], p: &[char]) -> (b: bool)
    ensures
        b == ends_with(s@, p@),
{
    if p.len() > s.len() {
        return false;
    }
    let k = s.len() - p.len();
    let r = matches_at_exec(s, p, k);
    r
}

/// `str::trim_start_matches` with a string pattern.
pub fn trim_start_str_exec(s: &[char], p: &[char]) -> (out: Vec<char>)
    ensures
        out@ == trim_start_str(s@, p@),
{
    if p.len() == 0 {
        return sub_chars(s, 0, s.len());
    }
    let n = s.len();
    let mut i: usize = 0;
    assert(s@.skip(0) == s@);
    while matches_at_exec(s, p, i)
        invariant
            n == s@.len(),
            i <= s@.len(),
            p@.len() > 0,
            trim_start_str(s@.skip(i as int), p@) == trim_start_str(s@, p@),
        decreases s@.len() - i,
    {
        proof {
            let r = s@.skip(i as int);
            assert(r.subrange(0, p@.len() as int) == s@.subrange(i as int, i + p@.len()));
            assert(r.skip(p@.len() as int) == s@.skip(i + p@.len()));
        }
        i = i + p.len();
    }
    proof {
        let r = s@.skip(i as int);
        if starts_with(r, p@) {
            assert(r.subrange(0, p@.len() as int) == s@.subrange(i as int, i + p@.len()));
        }
    }
    sub_chars(s, i, s.len())
}

/// `str::trim_end_matches` with a char.
pub fn trim_end_char_exec(s: &[char], c: char) -> (out: Vec<char>)
    ensures
        out@ == trim_end_char(s@, c),
{
    let mut j = s.len();
    assert(s@.take(s@.len() as int) == s@);
    while j > 0 && s[j - 1] == c
        invariant
            j <= s@.len(),
            trim_end_char(s@.take(j as int), c) == trim_end_char(s@, c),
        decreases j,
    {
        assert(s@.take(j as int).drop_last() == s@.take(j - 1));
        j = j - 1;
    }
    assert(s@.take(s@.len() as int) == s@);
    sub_chars(s, 0, j)
}

/// The pieces of `parts` with `sep` between consecutive pieces (`[&str]::join`).
pub open spec fn join(parts: Seq<Seq<char>>, sep: Seq<char>) -> Seq<char>
    decreases parts.len(),
{
    if parts.len() == 0 {
        Seq::empty()
    } else if parts.len() == 1 {
        parts[0]
    } else {
        join(parts.drop_last(), sep) + sep + parts.last()
    }
}

/// Append all of `b` to `a`.
pub fn push_all(a: &mut Vec<char>, b: &[char])
    ensures
        final(a)@ == old(a)@ + b@,
{
    let mut i: usize = 0;
    while i < b.len()
        invariant
            i <= b@.len(),
            a@ == old(a)@ + b@.take(i as int),
        decreases b@.len() - i,
    {
        a.push(b[i]);
        i = i + 1;
    }
    assert(b@.take(b@.len() as int) == b@);
}

/// Append the characters of a `&str` to `a`.
pub fn push_str(a: &mut Vec<char>, b: &str)
    ensures
        final(a)@ == old(a)@ + b@,
{
    let bc = chars_of(b);
    push_all(a, bc.as_slice());
}

/// `parts[from..].join(sep)`.
pub fn join_from(parts: &Vec<Vec<char>>, from: usize, sep: &str) -> (out: Vec<char>)
    requires
        from <= parts@.len(),
    ensures
        out@ == join(parts@.skip(from as int).map_values(|v: Vec<char>| v@), sep@),
{
    let ghost views = parts@.skip(from as int).map_values(|v: Vec<char>| v@);
    let mut out: Vec<char> = Vec::new();
    let mut i = from;
    while i < parts.len()
        invariant
            from <= i <= parts@.len(),
            views == parts@.skip(from as int).map_values(|v: Vec<char>| v@),
            out@ == join(views.take(i - from), sep@),
        decreases parts@.len() - i,
    {
        if i > from {
            push_str(&mut out, sep);
        }
        push_all(&mut out, parts[i].as_slice());
        proof {
            assert(views.take(i - from + 1).drop_last() == views.take(i - from));
            assert(views.take(i - from + 1).last() == parts@[i as int]@);
            if i == from {
                assert(join(views.take(1), sep@) == views.take(1)[0]);
            }
        }
        i = i + 1;
    }
    assert(views.take(i - from) == views);
    out
}

/// The lowercase form of a string (`str::to_lowercase`), as the Unicode tables define it.
pub uninterp spec fn lowercase(s: Seq<char>) -> Seq<char>;

/// Calls `str::to_lowercase`; its result is named `lowercase` of the argument. std maps each
/// character to one or more characters, so the result is empty exactly when the argument is.
#[verifier::external_body]
pub(crate) fn to_lowercase(s: &str) -> (r: String)
    ensures
        r@ == lowercase(s@),
        s@.len() == 0 <==> r@.len() == 0,
{
    s.to_lowercase()
}

} // verus!

verus! {

pub proof fn lemma_rfind(s: Seq<char>, p: Seq<char>)
    ensures
        rfind(s, p) matches Some(k) ==> matches_at(s, p, k) && forall|j: int|
            k < j ==> !matches_at(s, p, j),
        rfind(s, p) is None ==> forall|j: int| !matches_at(s, p, j),
{
    lemma_find_last(s, p, s.len() - p.len());
}

pub proof fn lemma_find(s: Seq<char>, p: Seq<char>)
    ensures
        find(s, p) matches Some(k) ==> matches_at(s, p, k) && forall|j: int|
            0 <= j < k ==> !matches_at(s, p, j),
        find(s, p) is None ==> forall|j: int| !matches_at(s, p, j),
{
    lemma_find_from(s, p, 0);
}

} // verus!
