//! Full-message structure: splits raw message bytes at the CRLF-CRLF boundary
//! and parses the header block into logical fields.
use vstd::prelude::*;

use vstd::slice::{slice_subrange, slice_to_vec};

use crate::header_map::HeaderMap;
use crate::parser::{parse_headers, spec_parse_headers};
use crate::splitter::{
    delim_bytes, find_boundary, find_sub, lemma_find_sub, occurs_at, spec_split_message,
    LineEnding,
};

verus! {

/// What `String::from_utf8_lossy` yields on the given bytes.
pub uninterp spec fn lossy_of(b: Seq<u8>) -> Seq<char>;

/// Relies on `String::from_utf8_lossy`: decodes bytes leniently as UTF-8,
/// replacing invalid sequences and never failing; the result depends on the
/// bytes alone.
#[verifier::external_body]
fn decode_lossy(b: &[u8]) -> (r: String)
    ensures
        r@ == lossy_of(b@),
{
    String::from_utf8_lossy(b).into_owned()
}

/// Splits raw message bytes at the first CRLF-CRLF boundary, decodes the
/// header block leniently as text and parses it into logical fields; the body
/// bytes are handed back unmodified.  With no boundary, the header map is
/// empty and the body is the entire input.
pub fn parse_eml_structure(raw: &[u8]) -> (r: (HeaderMap, Vec<u8>))
    ensures
        r.1@ == spec_split_message(raw@, LineEnding::CrLf).1,
        find_sub(raw@, delim_bytes(LineEnding::CrLf)) >= 0 ==> r.0@ == spec_parse_headers(
            lossy_of(spec_split_message(raw@, LineEnding::CrLf).0),
        ),
        find_sub(raw@, delim_bytes(LineEnding::CrLf)) < 0 ==> r.0@ == Map::<
            Seq<char>,
            Seq<char>,
        >::empty(),
{
    match find_boundary(raw, LineEnding::CrLf) {
        Some(i) => {
            proof {
                lemma_find_sub(raw@, delim_bytes(LineEnding::CrLf));
                assert(occurs_at(raw@, delim_bytes(LineEnding::CrLf), i as int));
            }
            let rl = raw.len();
            let header_text = decode_lossy(slice_subrange(raw, 0, i));
            let headers = parse_headers(header_text.as_str());
            let body = slice_to_vec(slice_subrange(raw, i + 4, rl));
            proof {
                assert(raw@.subrange(0, i as int) =~= spec_split_message(
                    raw@,
                    LineEnding::CrLf,
                ).0);
                assert(body@ =~= spec_split_message(raw@, LineEnding::CrLf).1);
            }
            (headers, body)
        },
        None => {
            let headers = HeaderMap::new();
            let body = slice_to_vec(raw);
            (headers, body)
        },
    }
}

} // verus!
