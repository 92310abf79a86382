//! Character-level text utilities shared by the header parser: whitespace
//! classification, trimming, line splitting, and first-occurrence search.
use vstd::prelude::*;

verus! {

/// The whitespace characters that trimming removes.  Deliberately the ASCII
/// whitespace set: header text is ASCII in practice, and exotic Unicode
/// whitespace (a no-break space, say) is kept, not trimmed.
pub open spec fn is_ws(c: char) -> bool {
    c == ' ' || c == '\t' || c == '\n' || c == '\r' || c == '\x0b' || c == '\x0c'
}

/// Exec test matching `is_ws`.
pub fn ws_char(c: char) -> (r: bool)
    ensures
        r == is_ws(c),
{
    c == ' ' || c == '\t' || c == '\n' || c == '\r' || c == '\x0b' || c == '\x0c'
}

/// The sequence with leading whitespace removed.
pub open spec fn trim_start(s: Seq<char>) -> Seq<char>
    decreases s.len(),
{
    if s.len() > 0 && is_ws(s[0]) {
        trim_start(s.drop_first())
    } else {
        s
    }
}

/// The sequence with trailing whitespace removed.
pub open spec fn trim_end(s: Seq<char>) -> Seq<char>
    decreases s.len(),
{
    if s.len() > 0 && is_ws(s.last()) {
        trim_end(s.drop_last())
    } else {
        s
    }
}

/// The sequence with surrounding whitespace removed.
pub open spec fn trim(s: Seq<char>) -> Seq<char> {
    trim_end(trim_start(s))
}

/// A sequence neither starts nor ends with whitespace.
pub open spec fn is_trimmed(s: Seq<char>) -> bool {
    s.len() > 0 ==> !is_ws(s[0]) && !is_ws(s.last())
}

/// The index of the first occurrence of `c` in `s`, or `s.len()` if absent.
pub open spec fn find_ch(s: Seq<char>, c: char) -> int
    decreases s.len(),
{
    if s.len() == 0 {
        0
    } else if s[0] == c {
        0
    } else {
        1 + find_ch(s.drop_first(), c)
    }
}

pub proof fn lemma_find_ch(s: Seq<char>, c: char)
    ensures
        0 <= find_ch(s, c) <= s.len(),
        forall|k: int| 0 <= k < find_ch(s, c) ==> s[k] != c,
        find_ch(s, c) < s.len() ==> s[find_ch(s, c)] == c,
    decreases s.len(),
{
    if s.len() > 0 && s[0] != c {
        lemma_find_ch(s.drop_first(), c);
        assert forall|k: int| 0 <= k < find_ch(s, c) implies s[k] != c by {
            if k > 0 {
                assert(s.drop_first()[k - 1] != c);
            }
        }
    }
}

/// Any index with the first-occurrence properties is `find_ch`.
pub proof fn lemma_find_ch_unique(s: Seq<char>, c: char, i: int)
    requires
        0 <= i <= s.len(),
        forall|k: int| 0 <= k < i ==> s[k] != c,
        i < s.len() ==> s[i] == c,
    ensures
        i == find_ch(s, c),
{
    lemma_find_ch(s, c);
    if i < find_ch(s, c) {
        assert(s[i] != c);
    } else if find_ch(s, c) < i {
        assert(s[find_ch(s, c)] != c);
    }
}

/// A line with a final carriage return removed.
pub open spec fn strip_cr(s: Seq<char>) -> Seq<char> {
    if s.len() > 0 && s.last() == '\r' {
        s.drop_last()
    } else {
        s
    }
}

/// The lines of `s`: split at `'\n'`, each line stripped of one carriage
/// return standing just before the newline.  A final fragment without a
/// newline is kept as written, and a trailing newline adds no empty line.
pub open spec fn split_lines(s: Seq<char>) -> Seq<Seq<char>>
    decreases s.len(),
{
    if s.len() == 0 {
        Seq::empty()
    } else {
        let i = find_ch(s, '\n');
        if 0 <= i < s.len() {
            seq![strip_cr(s.take(i))] + split_lines(s.skip(i + 1))
        } else {
            seq![s]
        }
    }
}

/// Every line of `split_lines` is free of newlines.
pub proof fn lemma_split_lines_no_nl(s: Seq<char>)
    ensures
        forall|i: int|
            0 <= i < split_lines(s).len() ==> no_ch(#[trigger] split_lines(s)[i], '\n'),
    decreases s.len(),
{
    if s.len() > 0 {
        let f = find_ch(s, '\n');
        lemma_find_ch(s, '\n');
        if 0 <= f < s.len() {
            lemma_split_lines_no_nl(s.skip(f + 1));
            let line = strip_cr(s.take(f));
            assert(no_ch(s.take(f), '\n'));
            assert(no_ch(line, '\n'));
            assert forall|i: int| 0 <= i < split_lines(s).len() implies no_ch(
                #[trigger] split_lines(s)[i],
                '\n',
            ) by {
                if i > 0 {
                    assert(split_lines(s)[i] == split_lines(s.skip(f + 1))[i - 1]);
                }
            }
        } else {
            assert(no_ch(s, '\n'));
        }
    }
}

/// If every character in front of index `i` is whitespace, trimming from the
/// front passes `i`.
pub proof fn lemma_trim_start_skip(s: Seq<char>, i: int)
    requires
        0 <= i <= s.len(),
        forall|k: int| 0 <= k < i ==> is_ws(s[k]),
    ensures
        trim_start(s) == trim_start(s.skip(i)),
    decreases i,
{
    if i > 0 {
        assert(s.drop_first() =~= s.skip(1));
        assert(s.skip(1).skip(i - 1) =~= s.skip(i));
        lemma_trim_start_skip(s.skip(1), i - 1);
    } else {
        assert(s.skip(0) =~= s);
    }
}

/// If every character at index `j` or beyond is whitespace, trimming from the
/// back reaches `j`.
pub proof fn lemma_trim_end_take(s: Seq<char>, j: int)
    requires
        0 <= j <= s.len(),
        forall|k: int| j <= k < s.len() ==> is_ws(s[k]),
    ensures
        trim_end(s) == trim_end(s.take(j)),
    decreases s.len() - j,
{
    if j < s.len() {
        assert(s.drop_last() =~= s.take(s.len() - 1));
        lemma_trim_end_take(s.take(s.len() - 1), j);
        assert(s.take(s.len() - 1).take(j) =~= s.take(j));
    } else {
        assert(s.take(s.len() as int) =~= s);
    }
}

/// No character of `s` is `c`.
pub open spec fn no_ch(s: Seq<char>, c: char) -> bool {
    forall|i: int| 0 <= i < s.len() ==> s[i] != c
}

/// Trimming a sequence that neither starts nor ends with whitespace leaves it.
pub proof fn lemma_trimmed_id(s: Seq<char>)
    requires
        is_trimmed(s),
    ensures
        trim(s) == s,
{
    assert(trim_start(s) == s);
    assert(trim_end(s) == s);
}

pub proof fn lemma_trim_start_first(s: Seq<char>)
    ensures
        trim_start(s).len() > 0 ==> !is_ws(trim_start(s)[0]),
    decreases s.len(),
{
    if s.len() > 0 && is_ws(s[0]) {
        lemma_trim_start_first(s.drop_first());
    }
}

pub proof fn lemma_trim_end_last(s: Seq<char>)
    ensures
        trim_end(s).len() > 0 ==> !is_ws(trim_end(s).last()),
    decreases s.len(),
{
    if s.len() > 0 && is_ws(s.last()) {
        lemma_trim_end_last(s.drop_last());
    }
}

pub proof fn lemma_trim_end_first(s: Seq<char>)
    ensures
        trim_end(s).len() > 0 ==> trim_end(s)[0] == s[0],
    decreases s.len(),
{
    if s.len() > 0 && is_ws(s.last()) {
        lemma_trim_end_first(s.drop_last());
    }
}

/// Trimming yields a trimmed sequence.
pub proof fn lemma_trim_trimmed(s: Seq<char>)
    ensures
        is_trimmed(trim(s)),
{
    lemma_trim_start_first(s);
    lemma_trim_end_last(trim_start(s));
    lemma_trim_end_first(trim_start(s));
}

pub proof fn lemma_trim_start_avoids(s: Seq<char>, c: char)
    requires
        no_ch(s, c),
    ensures
        no_ch(trim_start(s), c),
    decreases s.len(),
{
    if s.len() > 0 && is_ws(s[0]) {
        assert(no_ch(s.drop_first(), c));
        lemma_trim_start_avoids(s.drop_first(), c);
    }
}

pub proof fn lemma_trim_end_avoids(s: Seq<char>, c: char)
    requires
        no_ch(s, c),
    ensures
        no_ch(trim_end(s), c),
    decreases s.len(),
{
    if s.len() > 0 && is_ws(s.last()) {
        assert(no_ch(s.drop_last(), c));
        lemma_trim_end_avoids(s.drop_last(), c);
    }
}

/// A character absent from a sequence is absent after trimming.
pub proof fn lemma_trim_avoids(s: Seq<char>, c: char)
    requires
        no_ch(s, c),
    ensures
        no_ch(trim(s), c),
{
    lemma_trim_start_avoids(s, c);
    lemma_trim_end_avoids(trim_start(s), c);
}

/// The first index at or past `from` where `c` stands, or the length if none.
pub fn find_char_from(s: &str, from: usize, c: char) -> (r: usize)
    requires
        from <= s@.len(),
    ensures
        from <= r <= s@.len(),
        forall|k: int| from <= k < r ==> s@[k] != c,
        r < s@.len() ==> s@[r as int] == c,
{
    let n = s.unicode_len();
    let mut i = from;
    while i < n
        invariant
            from <= i <= n,
            n == s@.len(),
            forall|k: int| from <= k < i ==> s@[k] != c,
        decreases n - i,
    {
        if s.get_char(i) == c {
            return i;
        }
        i = i + 1;
    }
    n
}

/// Whether two string slices hold the same characters.
pub fn str_eq(a: &str, b: &str) -> (r: bool)
    ensures
        r == (a@ == b@),
{
    let na = a.unicode_len();
    let nb = b.unicode_len();
    if na != nb {
        return false;
    }
    let mut i: usize = 0;
    while i < na
        invariant
            0 <= i <= na,
            na == a@.len(),
            na == b@.len(),
            forall|k: int| 0 <= k < i ==> a@[k] == b@[k],
        decreases na - i,
    {
        if a.get_char(i) != b.get_char(i) {
            return false;
        }
        i = i + 1;
    }
    proof {
        assert(a@ =~= b@);
    }
    true
}

/// The slice with leading whitespace removed.
pub fn trim_start_str<'a>(s: &'a str) -> (r: &'a str)
    ensures
        r@ == trim_start(s@),
{
    let n = s.unicode_len();
    let mut a: usize = 0;
    while a < n && ws_char(s.get_char(a))
        invariant
            0 <= a <= n,
            n == s@.len(),
            forall|k: int| 0 <= k < a ==> is_ws(s@[k]),
        decreases n - a,
    {
        a = a + 1;
    }
    proof {
        lemma_trim_start_skip(s@, a as int);
        let t = s@.skip(a as int);
        if a < n {
            assert(t[0] == s@[a as int]);
            assert(trim_start(t) == t);
        }
        assert(trim_start(s@) =~= s@.subrange(a as int, n as int));
    }
    s.substring_char(a, n)
}

/// The slice with surrounding whitespace removed.
pub fn trim_str<'a>(s: &'a str) -> (r: &'a str)
    ensures
        r@ == trim(s@),
{
    let n = s.unicode_len();
    let mut a: usize = 0;
    while a < n && ws_char(s.get_char(a))
        invariant
            0 <= a <= n,
            n == s@.len(),
            forall|k: int| 0 <= k < a ==> is_ws(s@[k]),
        decreases n - a,
    {
        a = a + 1;
    }
    let mut b: usize = n;
    while b > a && ws_char(s.get_char(b - 1))
        invariant
            a <= b <= n,
            n == s@.len(),
            forall|k: int| b <= k < n ==> is_ws(s@[k]),
        decreases b,
    {
        b = b - 1;
    }
    proof {
        lemma_trim_start_skip(s@, a as int);
        let t = s@.skip(a as int);
        if a < n {
            assert(t[0] == s@[a as int]);
            assert(trim_start(t) == t);
        } else {
            assert(t.len() == 0);
            assert(trim_start(t) == t);
            assert(trim_end(t) == t);
        }
        assert(forall|k: int| b - a <= k < t.len() ==> is_ws(#[trigger] t[k]));
        lemma_trim_end_take(t, b - a);
        let u = t.take(b - a);
        if b > a {
            assert(u.last() == s@[b - 1]);
            assert(trim_end(u) == u);
        } else {
            assert(u.len() == 0);
            assert(trim_end(u) == u);
        }
        assert(trim(s@) =~= s@.subrange(a as int, b as int));
    }
    s.substring_char(a, b)
}

} // verus!
