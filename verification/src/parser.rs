//! The header field parser: a state machine over the lines of a header block
//! that reconstructs folded (continuation) lines into logical fields.
use vstd::prelude::*;

use crate::header_map::{
    lemma_lookup_at, lemma_put_all, map_of_entries, spec_render, spec_render_entry, HeaderMap,
};
use crate::text::{
    find_ch, find_char_from, is_trimmed, is_ws, lemma_find_ch, lemma_find_ch_unique,
    lemma_split_lines_no_nl, lemma_trim_avoids, lemma_trim_start_avoids, lemma_trim_trimmed,
    lemma_trimmed_id, no_ch, split_lines, strip_cr, trim, trim_start, trim_start_str, trim_str,
};

verus! {

/// Commits a pending field into the map, trimming name and value.
pub open spec fn commit_pending(
    m: Map<Seq<char>, Seq<char>>,
    pend: Option<(Seq<char>, Seq<char>)>,
) -> Map<Seq<char>, Seq<char>> {
    match pend {
        None => m,
        Some(p) => m.insert(trim(p.0), trim(p.1)),
    }
}

/// One pass of the parser over the remaining lines, carrying the result map
/// and the pending field.  A line starting with a space or tab continues the
/// pending field (and is dropped if none is pending); a line with a colon
/// commits the pending field and opens a new one; an empty line ends the
/// block; any other line is dropped.  The pending field is committed at the
/// end.
pub open spec fn parse_lines(
    m: Map<Seq<char>, Seq<char>>,
    pend: Option<(Seq<char>, Seq<char>)>,
    lines: Seq<Seq<char>>,
) -> Map<Seq<char>, Seq<char>>
    decreases lines.len(),
{
    if lines.len() == 0 {
        commit_pending(m, pend)
    } else {
        let line = lines[0];
        let rest = lines.drop_first();
        if line.len() == 0 {
            commit_pending(m, pend)
        } else if line[0] == ' ' || line[0] == '\t' {
            let pend2 = match pend {
                Some(p) => Some((p.0, p.1 + trim_start(line))),
                None => None,
            };
            parse_lines(m, pend2, rest)
        } else if find_ch(line, ':') < line.len() {
            let ci = find_ch(line, ':');
            parse_lines(
                commit_pending(m, pend),
                Some((line.take(ci), line.skip(ci + 1))),
                rest,
            )
        } else {
            parse_lines(m, pend, rest)
        }
    }
}

/// The header map that a header block denotes.
pub open spec fn spec_parse_headers(s: Seq<char>) -> Map<Seq<char>, Seq<char>> {
    parse_lines(Map::empty(), None, split_lines(s))
}

/// The pending field as the parser state machine sees it.
pub open spec fn pend_of(has: bool, k: Seq<char>, v: Seq<char>) -> Option<(Seq<char>, Seq<char>)> {
    if has {
        Some((k, v))
    } else {
        None
    }
}

/// Splitting the suffix of `s` at `pos` into lines yields the line up to the
/// first newline (one carriage return before it stripped), then the lines of
/// the rest.
proof fn lemma_line_step(s: Seq<char>, pos: int, nl: int, line_end: int)
    requires
        0 <= pos < s.len(),
        pos <= nl <= s.len(),
        forall|k: int| pos <= k < nl ==> s[k] != '\n',
        nl < s.len() ==> s[nl] == '\n',
        line_end == if nl < s.len() && nl > pos && s[nl - 1] == '\r' {
            nl - 1
        } else {
            nl as int
        },
    ensures
        split_lines(s.skip(pos)) == seq![s.subrange(pos, line_end)] + split_lines(
            s.skip(if nl < s.len() {
                nl + 1
            } else {
                nl as int
            }),
        ),
{
    let t = s.skip(pos);
    assert forall|k: int| 0 <= k < nl - pos implies t[k] != '\n' by {
        assert(t[k] == s[pos + k]);
    }
    if nl < s.len() {
        assert(t[nl - pos] == s[nl]);
    }
    lemma_find_ch_unique(t, '\n', nl - pos);
    if nl < s.len() {
        let i = nl - pos;
        assert(split_lines(t) == seq![strip_cr(t.take(i))] + split_lines(t.skip(i + 1)));
        assert(t.take(i) =~= s.subrange(pos, nl));
        if line_end < nl {
            assert(t.take(i)[i - 1] == s[nl - 1]);
            assert(strip_cr(t.take(i)) =~= s.subrange(pos, line_end));
        } else {
            if i > 0 {
                assert(t.take(i)[i - 1] == s[nl - 1]);
            }
            assert(strip_cr(t.take(i)) =~= s.subrange(pos, line_end));
        }
        assert(t.skip(i + 1) =~= s.skip(nl + 1));
        assert(s.subrange(pos, line_end) == strip_cr(t.take(i)));
    } else {
        assert(split_lines(t) == seq![t]);
        assert(t =~= s.subrange(pos, line_end));
        assert(s.skip(nl) =~= Seq::<char>::empty());
        assert(split_lines(s.skip(nl)) == Seq::<Seq<char>>::empty());
        assert(seq![s.subrange(pos, line_end)] + split_lines(s.skip(nl)) =~= seq![t]);
    }
}

/// Parses a header block into its logical fields, merging continuation lines
/// and letting the last occurrence of a name win.
pub fn parse_headers(raw: &str) -> (r: HeaderMap)
    ensures
        r@ == spec_parse_headers(raw@),
{
    let n = raw.unicode_len();
    let mut map = HeaderMap::new();
    let mut has_pending: bool = false;
    let mut cur_key = String::new();
    let mut cur_val = String::new();
    let mut pos: usize = 0;
    let mut done: bool = false;
    proof {
        assert(raw@.skip(0) =~= raw@);
    }
    while pos < n && !done
        invariant
            0 <= pos <= n,
            n == raw@.len(),
            parse_lines(
                map@,
                pend_of(has_pending, cur_key@, cur_val@),
                if done {
                    Seq::<Seq<char>>::empty()
                } else {
                    split_lines(raw@.skip(pos as int))
                },
            ) == spec_parse_headers(raw@),
        decreases n - pos, if done {
            0int
        } else {
            1int
        },
    {
        let nl = find_char_from(raw, pos, '\n');
        let line_end = if nl < n && nl > pos && raw.get_char(nl - 1) == '\r' {
            nl - 1
        } else {
            nl
        };
        let line = raw.substring_char(pos, line_end);
        let next_pos = if nl < n {
            nl + 1
        } else {
            nl
        };
        proof {
            lemma_line_step(raw@, pos as int, nl as int, line_end as int);
        }
        let ghost lines = split_lines(raw@.skip(pos as int));
        let ghost rest = split_lines(raw@.skip(next_pos as int));
        proof {
            assert(lines == seq![line@] + rest);
            assert(lines[0] == line@);
            assert(lines.drop_first() =~= rest);
        }
        let line_len = line.unicode_len();
        if line_len == 0 {
            done = true;
        } else {
            let c0 = line.get_char(0);
            if c0 == ' ' || c0 == '\t' {
                if has_pending {
                    let tr = trim_start_str(line);
                    cur_val.append(tr);
                }
                pos = next_pos;
            } else {
                let ci = find_char_from(line, 0, ':');
                proof {
                    lemma_find_ch_unique(line@, ':', ci as int);
                }
                if ci < line_len {
                    if has_pending {
                        let k2 = trim_str(cur_key.as_str()).to_owned();
                        let v2 = trim_str(cur_val.as_str()).to_owned();
                        map.insert(k2, v2);
                    }
                    cur_key = line.substring_char(0, ci).to_owned();
                    cur_val = line.substring_char(ci + 1, line_len).to_owned();
                    has_pending = true;
                    proof {
                        assert(cur_key@ =~= line@.take(ci as int));
                        assert(cur_val@ =~= line@.skip(ci + 1));
                    }
                }
                pos = next_pos;
            }
        }
    }
    if has_pending {
        let k2 = trim_str(cur_key.as_str()).to_owned();
        let v2 = trim_str(cur_val.as_str()).to_owned();
        map.insert(k2, v2);
    }
    proof {
        if !done && pos == n {
            assert(raw@.skip(n as int) =~= Seq::<char>::empty());
            assert(split_lines(raw@.skip(pos as int)) == Seq::<Seq<char>>::empty());
        }
    }
    map
}

/// A well-formed field name, as committing produces one: trimmed and free of
/// colons and newlines.
pub open spec fn wf_key(k: Seq<char>) -> bool {
    is_trimmed(k) && no_ch(k, ':') && no_ch(k, '\n')
}

/// A well-formed field value, as committing produces one: trimmed and free of
/// newlines.
pub open spec fn wf_val(v: Seq<char>) -> bool {
    is_trimmed(v) && no_ch(v, '\n')
}

/// Every field of the map is well-formed.
pub open spec fn wf_header_map(m: Map<Seq<char>, Seq<char>>) -> bool {
    forall|k: Seq<char>| #[trigger] m.contains_key(k) ==> wf_key(k) && wf_val(m[k])
}

proof fn lemma_commit_wf(m: Map<Seq<char>, Seq<char>>, pend: Option<(Seq<char>, Seq<char>)>)
    requires
        wf_header_map(m),
        match pend {
            Some(p) => no_ch(p.0, ':') && no_ch(p.0, '\n') && no_ch(p.1, '\n'),
            None => true,
        },
    ensures
        wf_header_map(commit_pending(m, pend)),
{
    match pend {
        None => {},
        Some(p) => {
            lemma_trim_avoids(p.0, ':');
            lemma_trim_avoids(p.0, '\n');
            lemma_trim_trimmed(p.0);
            lemma_trim_avoids(p.1, '\n');
            lemma_trim_trimmed(p.1);
        },
    }
}

proof fn lemma_parse_lines_wf(
    m: Map<Seq<char>, Seq<char>>,
    pend: Option<(Seq<char>, Seq<char>)>,
    lines: Seq<Seq<char>>,
)
    requires
        wf_header_map(m),
        forall|i: int| 0 <= i < lines.len() ==> no_ch(#[trigger] lines[i], '\n'),
        match pend {
            Some(p) => no_ch(p.0, ':') && no_ch(p.0, '\n') && no_ch(p.1, '\n'),
            None => true,
        },
    ensures
        wf_header_map(parse_lines(m, pend, lines)),
    decreases lines.len(),
{
    if lines.len() == 0 {
        lemma_commit_wf(m, pend);
    } else {
        let line = lines[0];
        let rest = lines.drop_first();
        assert(forall|i: int| 0 <= i < rest.len() ==> no_ch(#[trigger] rest[i], '\n'));
        if line.len() == 0 {
            lemma_commit_wf(m, pend);
        } else if line[0] == ' ' || line[0] == '\t' {
            match pend {
                Some(p) => {
                    lemma_trim_start_avoids(line, '\n');
                    assert(no_ch(p.1 + trim_start(line), '\n'));
                    lemma_parse_lines_wf(m, Some((p.0, p.1 + trim_start(line))), rest);
                },
                None => {
                    lemma_parse_lines_wf(m, pend, rest);
                },
            }
        } else if find_ch(line, ':') < line.len() {
            let ci = find_ch(line, ':');
            lemma_find_ch(line, ':');
            lemma_commit_wf(m, pend);
            assert(no_ch(line.take(ci), ':'));
            assert(no_ch(line.take(ci), '\n'));
            assert(no_ch(line.skip(ci + 1), '\n'));
            lemma_parse_lines_wf(
                commit_pending(m, pend),
                Some((line.take(ci), line.skip(ci + 1))),
                rest,
            );
        } else {
            lemma_parse_lines_wf(m, pend, rest);
        }
    }
}

/// Parsing any header block yields a well-formed map: every name is trimmed
/// and free of colons and newlines, every value trimmed and free of newlines.
pub proof fn lemma_parse_headers_wf(s: Seq<char>)
    ensures
        wf_header_map(spec_parse_headers(s)),
{
    lemma_split_lines_no_nl(s);
    lemma_parse_lines_wf(Map::empty(), None, split_lines(s));
}

proof fn lemma_parse_render_lines(
    m: Map<Seq<char>, Seq<char>>,
    pend: Option<(Seq<char>, Seq<char>)>,
    ents: Seq<(Seq<char>, Seq<char>)>,
)
    requires
        forall|i: int|
            0 <= i < ents.len() ==> wf_key((#[trigger] ents[i]).0) && wf_val(ents[i].1),
    ensures
        parse_lines(m, pend, split_lines(spec_render(ents))) == crate::header_map::put_all(
            commit_pending(m, pend),
            ents,
        ),
    decreases ents.len(),
{
    if ents.len() == 0 {
        assert(spec_render(ents) == Seq::<char>::empty());
        assert(split_lines(Seq::<char>::empty()) == Seq::<Seq<char>>::empty());
    } else {
        let e = ents[0];
        let k = e.0;
        let v = e.1;
        let s = spec_render(ents);
        let rest = spec_render(ents.drop_first());
        assert(s == spec_render_entry(e) + rest);
        let kl = k.len() as int;
        let nl = kl + 2 + v.len();
        assert forall|j: int| 0 <= j < nl implies s[j] != '\n' by {
            if j < kl {
                assert(s[j] == k[j]);
            } else if j == kl {
                assert(s[j] == ':');
            } else if j == kl + 1 {
                assert(s[j] == ' ');
            } else if j < kl + 2 + v.len() {
                assert(s[j] == v[j - kl - 2]);
            }
        }
        assert(s[nl as int] == '\r');
        assert(s[nl + 1] == '\n');
        assert forall|j: int| 0 <= j < nl + 1 implies s[j] != '\n' by {
            if j < nl {
            } else {
                assert(s[j] == '\r');
            }
        }
        lemma_find_ch_unique(s, '\n', nl + 1);
        let line = strip_cr(s.take(nl + 1));
        assert(s.take(nl + 1).last() == '\r');
        assert(line =~= k + seq![':', ' '] + v);
        assert(s.skip(nl + 2) =~= rest);
        assert(split_lines(s) == seq![line] + split_lines(rest));
        assert(split_lines(s)[0] == line);
        assert(split_lines(s).drop_first() =~= split_lines(rest));
        // the parser takes the colon branch on this line
        assert(line.len() > 0);
        if k.len() > 0 {
            assert(line[0] == k[0]);
            assert(!is_ws(k[0]));
            assert(line[0] != ' ' && line[0] != '\t');
        } else {
            assert(line[0] == ':');
        }
        assert forall|j: int| 0 <= j < kl implies line[j] != ':' by {
            assert(line[j] == k[j]);
        }
        assert(line[kl] == ':');
        lemma_find_ch_unique(line, ':', kl);
        assert(line.take(kl) =~= k);
        assert(line.skip(kl + 1) =~= seq![' '] + v);
        let m2 = commit_pending(m, pend);
        assert(parse_lines(m, pend, split_lines(s)) == parse_lines(
            m2,
            Some((k, seq![' '] + v)),
            split_lines(rest),
        ));
        assert(forall|i: int|
            0 <= i < ents.drop_first().len() ==> wf_key((#[trigger] ents.drop_first()[i]).0)
                && wf_val(ents.drop_first()[i].1));
        lemma_parse_render_lines(m2, Some((k, seq![' '] + v)), ents.drop_first());
        // the new pending field commits as (k, v)
        lemma_trimmed_id(k);
        assert((seq![' '] + v).drop_first() =~= v);
        assert(trim_start(seq![' '] + v) == trim_start(v));
        if v.len() > 0 {
            assert(!is_ws(v[0]));
        }
        assert(trim_start(v) == v);
        assert(trim(v) == v);
        assert(commit_pending(m2, Some((k, seq![' '] + v))) == m2.insert(k, v));
    }
}

/// Rendering well-formed fields (as `spec_render` joins them: name, colon and
/// space, value, line by line) and parsing the rendered block yields exactly
/// the map the fields denote.
pub proof fn lemma_render_then_parse(ents: Seq<(Seq<char>, Seq<char>)>)
    requires
        forall|i: int|
            0 <= i < ents.len() ==> wf_key((#[trigger] ents[i]).0) && wf_val(ents[i].1),
    ensures
        spec_parse_headers(spec_render(ents)) == map_of_entries(ents),
{
    lemma_parse_render_lines(Map::empty(), None, ents);
}

/// Re-parsing a rendered well-formed header map reconstructs the map: for any
/// duplicate-free entry sequence denoting a well-formed map, parsing the
/// rendered block yields that map.  Parsing always yields a well-formed map
/// (`lemma_parse_headers_wf`), so parse, render, parse comes back to the
/// first parse's result.
pub proof fn lemma_render_round_trip(
    ents: Seq<(Seq<char>, Seq<char>)>,
    m: Map<Seq<char>, Seq<char>>,
)
    requires
        crate::header_map::distinct_keys(ents),
        map_of_entries(ents) == m,
        wf_header_map(m),
    ensures
        spec_parse_headers(spec_render(ents)) == m,
{
    lemma_put_all(Map::empty(), ents);
    assert forall|i: int| 0 <= i < ents.len() implies wf_key((#[trigger] ents[i]).0) && wf_val(
        ents[i].1,
    ) by {
        lemma_lookup_at(ents, i);
        assert(m.contains_key(ents[i].0));
        assert(m[ents[i].0] == ents[i].1);
    }
    lemma_render_then_parse(ents);
}

} // verus!
