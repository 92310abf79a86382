//! The header block splitter: locates the first blank-line boundary (the line
//! terminator twice) and divides a message into header block and body.
use vstd::prelude::*;

use vstd::slice::{slice_subrange, slice_to_vec};

verus! {

/// The two line-terminator conventions the splitter accepts.
#[derive(Clone, Copy)]
pub enum LineEnding {
    CrLf,
    Lf,
}

/// The boundary marker bytes: the line terminator twice.
pub open spec fn delim_bytes(e: LineEnding) -> Seq<u8> {
    match e {
        LineEnding::CrLf => seq![13u8, 10u8, 13u8, 10u8],
        LineEnding::Lf => seq![10u8, 10u8],
    }
}

/// The boundary marker characters: the line terminator twice.
pub open spec fn delim_chars(e: LineEnding) -> Seq<char> {
    match e {
        LineEnding::CrLf => seq!['\r', '\n', '\r', '\n'],
        LineEnding::Lf => seq!['\n', '\n'],
    }
}

/// `d` stands in `h` at offset `i`.
pub open spec fn occurs_at<T>(h: Seq<T>, d: Seq<T>, i: int) -> bool {
    0 <= i && i + d.len() <= h.len() && h.subrange(i, i + d.len() as int) == d
}

/// The offset of the first occurrence of `d` in `h`, or -1 if there is none.
pub open spec fn find_sub<T>(h: Seq<T>, d: Seq<T>) -> int
    decreases h.len(),
{
    if d.len() == 0 {
        0
    } else if h.len() < d.len() {
        -1
    } else if h.take(d.len() as int) == d {
        0
    } else {
        let r = find_sub(h.drop_first(), d);
        if r < 0 {
            -1
        } else {
            r + 1
        }
    }
}

/// `find_sub` yields the least occurrence offset, or -1 exactly when `d` does
/// not occur in `h`.
pub proof fn lemma_find_sub<T>(h: Seq<T>, d: Seq<T>)
    ensures
        find_sub(h, d) == -1 ==> forall|i: int| !occurs_at(h, d, i),
        find_sub(h, d) >= 0 ==> occurs_at(h, d, find_sub(h, d)) && (forall|i: int|
            0 <= i < find_sub(h, d) ==> !occurs_at(h, d, i)),
    decreases h.len(),
{
    if d.len() == 0 {
        assert(h.subrange(0, 0) =~= d);
        assert(occurs_at(h, d, 0));
    } else if h.len() < d.len() {
        assert(forall|i: int| !occurs_at(h, d, i));
    } else if h.take(d.len() as int) == d {
        assert(h.subrange(0, d.len() as int) =~= h.take(d.len() as int));
        assert(occurs_at(h, d, 0));
    } else {
        let t = h.drop_first();
        lemma_find_sub(t, d);
        assert(h.subrange(0, d.len() as int) =~= h.take(d.len() as int));
        assert(!occurs_at(h, d, 0));
        assert forall|i: int| 1 <= i implies (occurs_at(h, d, i) <==> occurs_at(t, d, i - 1)) by {
            if i + d.len() <= h.len() {
                assert(t.subrange(i - 1, i - 1 + d.len() as int) =~= h.subrange(
                    i,
                    i + d.len() as int,
                ));
            } else {
                assert(!occurs_at(h, d, i));
                assert(!occurs_at(t, d, i - 1));
            }
        }
        if find_sub(t, d) == -1 {
            assert forall|i: int| true implies !occurs_at(h, d, i) by {
                if i >= 1 {
                    assert(!occurs_at(t, d, i - 1));
                }
            }
        } else {
            let r = find_sub(t, d);
            assert(occurs_at(t, d, r));
            assert(occurs_at(h, d, r + 1));
            assert forall|i: int| 0 <= i < r + 1 implies !occurs_at(h, d, i) by {
                if i >= 1 {
                    assert(!occurs_at(t, d, i - 1));
                }
            }
        }
    }
}

/// The least occurrence offset is `find_sub`.
pub proof fn lemma_find_sub_at<T>(h: Seq<T>, d: Seq<T>, i: int)
    requires
        occurs_at(h, d, i),
        forall|j: int| 0 <= j < i ==> !occurs_at(h, d, j),
    ensures
        find_sub(h, d) == i,
{
    lemma_find_sub(h, d);
    if find_sub(h, d) == -1 {
        assert(!occurs_at(h, d, i));
    } else if find_sub(h, d) < i {
        assert(!occurs_at(h, d, find_sub(h, d)));
    } else if i < find_sub(h, d) {
        assert(!occurs_at(h, d, i));
    }
}

/// Whether the bytes of `d` stand in `h` at offset `i`.
fn match_at(h: &[u8], d: &[u8], i: usize) -> (r: bool)
    requires
        i + d@.len() <= h@.len(),
    ensures
        r == occurs_at(h@, d@, i as int),
{
    let dn = d.len();
    let hn = h.len();
    let mut j: usize = 0;
    while j < dn
        invariant
            0 <= j <= dn,
            dn == d@.len(),
            hn == h@.len(),
            i + dn <= hn,
            forall|k: int| 0 <= k < j ==> h@[i + k] == d@[k],
        decreases dn - j,
    {
        if h[i + j] != d[j] {
            proof {
                assert(h@.subrange(i as int, i + dn as int)[j as int] == h@[i + j]);
            }
            return false;
        }
        j = j + 1;
    }
    proof {
        assert(h@.subrange(i as int, i + dn as int) =~= d@);
    }
    true
}

/// The offset of the first occurrence of `d` in `h`, if any.
fn find_delim(h: &[u8], d: &[u8]) -> (r: Option<usize>)
    requires
        d@.len() >= 1,
    ensures
        match r {
            Some(i) => i as int == find_sub(h@, d@),
            None => find_sub(h@, d@) == -1,
        },
{
    let hn = h.len();
    let dn = d.len();
    if hn < dn {
        proof {
            lemma_find_sub(h@, d@);
            if find_sub(h@, d@) >= 0 {
                assert(occurs_at(h@, d@, find_sub(h@, d@)));
            }
        }
        return None;
    }
    let mut i: usize = 0;
    while i <= hn - dn
        invariant
            1 <= dn <= hn,
            hn == h@.len(),
            dn == d@.len(),
            0 <= i <= hn - dn + 1,
            forall|j: int| 0 <= j < i ==> !occurs_at(h@, d@, j),
        decreases hn - dn + 1 - i,
    {
        if match_at(h, d, i) {
            proof {
                lemma_find_sub_at(h@, d@, i as int);
            }
            return Some(i);
        }
        i = i + 1;
    }
    proof {
        lemma_find_sub(h@, d@);
        if find_sub(h@, d@) >= 0 {
            assert(occurs_at(h@, d@, find_sub(h@, d@)));
        }
    }
    None
}

/// The boundary marker as a vector of bytes.
fn delim_bytes_vec(e: LineEnding) -> (r: Vec<u8>)
    ensures
        r@ == delim_bytes(e),
{
    let mut v: Vec<u8> = Vec::new();
    match e {
        LineEnding::CrLf => {
            v.push(13u8);
            v.push(10u8);
            v.push(13u8);
            v.push(10u8);
        },
        LineEnding::Lf => {
            v.push(10u8);
            v.push(10u8);
        },
    }
    proof {
        assert(v@ =~= delim_bytes(e));
    }
    v
}

/// What splitting yields: the bytes before the first boundary marker and the
/// bytes after it; with no marker, an empty header block and the whole input.
pub open spec fn spec_split_message(raw: Seq<u8>, e: LineEnding) -> (Seq<u8>, Seq<u8>) {
    let i = find_sub(raw, delim_bytes(e));
    if i >= 0 {
        (raw.take(i), raw.skip(i + delim_bytes(e).len()))
    } else {
        (Seq::empty(), raw)
    }
}

/// Splits raw message bytes at the first blank-line boundary into the header
/// block and the body.  Total: with no boundary, the header block is empty and
/// the body is the entire input, unchanged.
pub fn split_message(raw: &[u8], ending: LineEnding) -> (r: (Vec<u8>, Vec<u8>))
    ensures
        r.0@ == spec_split_message(raw@, ending).0,
        r.1@ == spec_split_message(raw@, ending).1,
{
    let d = delim_bytes_vec(ending);
    match find_delim(raw, d.as_slice()) {
        Some(i) => {
            proof {
                lemma_find_sub(raw@, d@);
                assert(occurs_at(raw@, d@, i as int));
            }
            let rl = raw.len();
            proof {
                assert(i + d@.len() <= rl);
            }
            let header = slice_to_vec(slice_subrange(raw, 0, i));
            let body = slice_to_vec(slice_subrange(raw, i + d.len(), rl));
            proof {
                assert(header@ =~= spec_split_message(raw@, ending).0);
                assert(body@ =~= spec_split_message(raw@, ending).1);
            }
            (header, body)
        },
        None => {
            let header: Vec<u8> = Vec::new();
            let body = slice_to_vec(raw);
            proof {
                assert(header@ =~= spec_split_message(raw@, ending).0);
            }
            (header, body)
        },
    }
}

/// The offset of the first blank-line boundary marker in raw message bytes,
/// if one occurs.
pub fn find_boundary(raw: &[u8], ending: LineEnding) -> (r: Option<usize>)
    ensures
        match r {
            Some(i) => i as int == find_sub(raw@, delim_bytes(ending)),
            None => find_sub(raw@, delim_bytes(ending)) == -1,
        },
{
    let d = delim_bytes_vec(ending);
    find_delim(raw, d.as_slice())
}

/// The boundary marker as a vector of characters.
fn delim_chars_vec(e: LineEnding) -> (r: Vec<char>)
    ensures
        r@ == delim_chars(e),
{
    let mut v: Vec<char> = Vec::new();
    match e {
        LineEnding::CrLf => {
            v.push('\r');
            v.push('\n');
            v.push('\r');
            v.push('\n');
        },
        LineEnding::Lf => {
            v.push('\n');
            v.push('\n');
        },
    }
    proof {
        assert(v@ =~= delim_chars(e));
    }
    v
}

/// Whether the characters of `d` stand in `s` at offset `i`.
fn match_at_str(s: &str, d: &Vec<char>, i: usize) -> (r: bool)
    requires
        i + d@.len() <= s@.len(),
        s@.len() <= usize::MAX,
    ensures
        r == occurs_at(s@, d@, i as int),
{
    let dn = d.len();
    let mut j: usize = 0;
    while j < dn
        invariant
            0 <= j <= dn,
            dn == d@.len(),
            i + dn <= s@.len() <= usize::MAX,
            forall|k: int| 0 <= k < j ==> s@[i + k] == d@[k],
        decreases dn - j,
    {
        if s.get_char(i + j) != d[j] {
            proof {
                assert(s@.subrange(i as int, i + dn as int)[j as int] == s@[i + j]);
            }
            return false;
        }
        j = j + 1;
    }
    proof {
        assert(s@.subrange(i as int, i + dn as int) =~= d@);
    }
    true
}

/// What splitting a text yields: the text before the first boundary marker
/// and the text after it, or nothing when no marker occurs.
pub open spec fn spec_split_text(s: Seq<char>, e: LineEnding) -> Option<(Seq<char>, Seq<char>)> {
    let i = find_sub(s, delim_chars(e));
    if i >= 0 {
        Some((s.take(i), s.skip(i + delim_chars(e).len())))
    } else {
        None
    }
}

/// Splits a text at the first blank-line boundary into the header block and
/// the body, or yields nothing when no boundary occurs.
pub fn split_text(content: &str, ending: LineEnding) -> (r: Option<(String, String)>)
    ensures
        match r {
            Some(p) => spec_split_text(content@, ending) == Some((p.0@, p.1@)),
            None => spec_split_text(content@, ending) is None,
        },
{
    let d = delim_chars_vec(ending);
    let n = content.unicode_len();
    let dn = d.len();
    if n < dn {
        proof {
            lemma_find_sub(content@, d@);
            if find_sub(content@, d@) >= 0 {
                assert(occurs_at(content@, d@, find_sub(content@, d@)));
            }
        }
        return None;
    }
    let mut i: usize = 0;
    while i <= n - dn
        invariant
            1 <= dn <= n,
            n == content@.len(),
            dn == d@.len(),
            d@ == delim_chars(ending),
            0 <= i <= n - dn + 1,
            forall|j: int| 0 <= j < i ==> !occurs_at(content@, d@, j),
        decreases n - dn + 1 - i,
    {
        if match_at_str(content, &d, i) {
            proof {
                lemma_find_sub_at(content@, d@, i as int);
            }
            let header = content.substring_char(0, i).to_owned();
            let body = content.substring_char(i + dn, n).to_owned();
            proof {
                assert(header@ =~= content@.take(i as int));
                assert(body@ =~= content@.skip(i + dn));
            }
            return Some((header, body));
        }
        i = i + 1;
    }
    proof {
        lemma_find_sub(content@, d@);
        if find_sub(content@, d@) >= 0 {
            assert(occurs_at(content@, d@, find_sub(content@, d@)));
        }
    }
    None
}

/// Re-splitting the body finds a boundary exactly when the input holds a
/// second boundary marker past the first one (or, with no boundary at all,
/// never: the body is the whole input and holds no marker).
pub proof fn lemma_split_body_boundary(raw: Seq<u8>, ending: LineEnding)
    ensures
        ({
            let d = delim_bytes(ending);
            let k = find_sub(raw, d);
            let body = spec_split_message(raw, ending).1;
            (find_sub(body, d) >= 0) <==> (exists|j: int|
                (if k >= 0 {
                    k + d.len()
                } else {
                    0
                }) <= j && occurs_at(raw, d, j))
        }),
{
    let d = delim_bytes(ending);
    let k = find_sub(raw, d);
    let body = spec_split_message(raw, ending).1;
    lemma_find_sub(raw, d);
    lemma_find_sub(body, d);
    if k >= 0 {
        let off = k + d.len() as int;
        assert(body =~= raw.skip(off));
        assert forall|i: int| 0 <= i implies (occurs_at(body, d, i) <==> occurs_at(
            raw,
            d,
            i + off,
        )) by {
            if i + d.len() <= body.len() {
                assert(body.subrange(i, i + d.len() as int) =~= raw.subrange(
                    i + off,
                    i + off + d.len() as int,
                ));
            }
        }
        if find_sub(body, d) >= 0 {
            assert(occurs_at(body, d, find_sub(body, d)));
            assert(occurs_at(raw, d, find_sub(body, d) + off));
        }
        if exists|j: int| off <= j && occurs_at(raw, d, j) {
            let j = choose|j: int| off <= j && occurs_at(raw, d, j);
            assert(occurs_at(body, d, j - off));
            if find_sub(body, d) == -1 {
                assert(!occurs_at(body, d, j - off));
            }
        }
    } else {
        assert(body == raw);
        if find_sub(body, d) >= 0 {
            assert(occurs_at(raw, d, find_sub(raw, d)));
        }
        if exists|j: int| 0 <= j && occurs_at(raw, d, j) {
            let j = choose|j: int| 0 <= j && occurs_at(raw, d, j);
            assert(!occurs_at(raw, d, j));
        }
    }
}

} // verus!
