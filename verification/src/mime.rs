//! The narrow interface to the external MIME decoder (mailparse): decoding a
//! message's body text and reading each subpart's content-disposition
//! metadata, and the verified selection of attachment file names from that
//! metadata.  The decoder's results are functions of the raw bytes alone, so
//! they are named at the specification level and every outcome of
//! `decode_message` is pinned to those names.
use vstd::prelude::*;

use crate::text::str_eq;

verus! {

/// The content-disposition classification of a message part.
#[derive(Clone)]
pub enum Disposition {
    Inline,
    Attachment,
    FormData,
    Extension(String),
}

/// A part's disposition classification at the specification level.
pub enum DispositionView {
    Inline,
    Attachment,
    FormData,
    Extension(Seq<char>),
}

impl View for Disposition {
    type V = DispositionView;

    open spec fn view(&self) -> DispositionView {
        match self {
            Disposition::Inline => DispositionView::Inline,
            Disposition::Attachment => DispositionView::Attachment,
            Disposition::FormData => DispositionView::FormData,
            Disposition::Extension(s) => DispositionView::Extension(s@),
        }
    }
}

/// What the library reads of a MIME part: its disposition classification and
/// the content-disposition parameters as name/value pairs.
#[derive(Clone)]
pub struct PartInfo {
    pub disposition: Disposition,
    pub params: Vec<(String, String)>,
}

/// A part's metadata at the specification level.
pub struct PartView {
    pub disposition: DispositionView,
    pub params: Seq<(Seq<char>, Seq<char>)>,
}

/// The name/value pairs that a parameter list denotes.
pub open spec fn params_view(params: Seq<(String, String)>) -> Seq<(Seq<char>, Seq<char>)> {
    params.map_values(|e: (String, String)| (e.0@, e.1@))
}

impl View for PartInfo {
    type V = PartView;

    open spec fn view(&self) -> PartView {
        PartView { disposition: self.disposition@, params: params_view(self.params@) }
    }
}

/// The metadata that a part list denotes.
pub open spec fn parts_view(parts: Seq<PartInfo>) -> Seq<PartView> {
    parts.map_values(|p: PartInfo| p@)
}

/// Why MIME decoding failed.
#[derive(Clone, Copy, PartialEq, Eq, Structural, Debug)]
pub enum MimeError {
    /// The message structure could not be parsed.
    Parse,
    /// The body's transfer encoding or charset could not be decoded.
    Decode,
}

/// What the external MIME decoder yields: the decoded body text and the
/// message parts' metadata.
pub struct MimeDecoded {
    pub body_text: String,
    pub parts: Vec<PartInfo>,
}

/// Whether `mailparse::parse_mail` succeeds on the given bytes.
pub uninterp spec fn mime_parse_ok(raw: Seq<u8>) -> bool;

/// Whether `ParsedMail::get_body` succeeds on the message that
/// `mailparse::parse_mail` yields on the given bytes.
pub uninterp spec fn mime_decode_ok(raw: Seq<u8>) -> bool;

/// The decoded body text of the message parsed from the given bytes.
pub uninterp spec fn mime_body_of(raw: Seq<u8>) -> Seq<char>;

/// The subparts' dispositions and parameters of the message parsed from the
/// given bytes, in subpart order.
pub uninterp spec fn mime_parts_of(raw: Seq<u8>) -> Seq<PartView>;

/// Relies on `mailparse::parse_mail`: it reads the bytes alone, so its
/// success is a function of them.
#[verifier::external_body]
fn mime_parse_check(raw: &[u8]) -> (r: bool)
    ensures
        r == mime_parse_ok(raw@),
{
    mailparse::parse_mail(raw).is_ok()
}

/// Relies on `mailparse::parse_mail` and `ParsedMail::get_body`: both depend
/// on the bytes alone.  Yields the decoded body text of the message parsed
/// from `raw`, or nothing where parsing or body decoding fails.
#[verifier::external_body]
fn mime_body(raw: &[u8]) -> (r: Option<String>)
    ensures
        match r {
            Some(s) => mime_parse_ok(raw@) && mime_decode_ok(raw@) && s@ == mime_body_of(raw@),
            None => !(mime_parse_ok(raw@) && mime_decode_ok(raw@)),
        },
{
    mailparse::parse_mail(raw).ok().and_then(|m| m.get_body().ok())
}

/// Relies on `mailparse::parse_mail`, the `subparts` field of its result, and
/// `ParsedMail::get_content_disposition` with its `disposition` and `params`
/// fields (a `BTreeMap`, walked in key order): all depend on the bytes alone.
/// Yields each subpart's metadata in order, or nothing where parsing fails.
#[verifier::external_body]
fn mime_parts(raw: &[u8]) -> (r: Option<Vec<PartInfo>>)
    ensures
        match r {
            Some(v) => mime_parse_ok(raw@) && parts_view(v@) == mime_parts_of(raw@),
            None => !mime_parse_ok(raw@),
        },
{
    let m = match mailparse::parse_mail(raw) {
        Ok(m) => m,
        Err(_) => return None,
    };
    Some(m.subparts.iter().map(|p| {
        let cd = p.get_content_disposition();
        let disposition = match cd.disposition {
            mailparse::DispositionType::Inline => Disposition::Inline,
            mailparse::DispositionType::Attachment => Disposition::Attachment,
            mailparse::DispositionType::FormData => Disposition::FormData,
            mailparse::DispositionType::Extension(s) => Disposition::Extension(s),
        };
        PartInfo { disposition, params: cd.params.into_iter().collect() }
    }).collect())
}

/// The value of the first parameter named `key`, if any.
pub open spec fn spec_param_value(
    params: Seq<(Seq<char>, Seq<char>)>,
    key: Seq<char>,
) -> Option<Seq<char>>
    decreases params.len(),
{
    if params.len() == 0 {
        None
    } else if params[0].0 == key {
        Some(params[0].1)
    } else {
        spec_param_value(params.drop_first(), key)
    }
}

/// Looks a parameter up by name, first occurrence winning.
pub fn param_value<'a>(params: &'a Vec<(String, String)>, key: &str) -> (r: Option<&'a String>)
    ensures
        match r {
            Some(v) => spec_param_value(params_view(params@), key@) == Some(v@),
            None => spec_param_value(params_view(params@), key@) is None,
        },
{
    let ghost pv = params_view(params@);
    let n = params.len();
    let mut i: usize = 0;
    proof {
        assert(pv.skip(0) =~= pv);
    }
    while i < n
        invariant
            0 <= i <= n,
            n == params@.len(),
            pv == params_view(params@),
            spec_param_value(pv, key@) == spec_param_value(pv.skip(i as int), key@),
        decreases n - i,
    {
        proof {
            assert(pv.skip(i as int)[0] == pv[i as int]);
            assert(pv[i as int] == (params@[i as int].0@, params@[i as int].1@));
            assert(pv.skip(i as int).drop_first() =~= pv.skip(i + 1));
        }
        if str_eq(params[i].0.as_str(), key) {
            return Some(&params[i].1);
        }
        i = i + 1;
    }
    proof {
        assert(pv.skip(n as int).len() == 0);
    }
    None
}

/// The file names of the attachment parts: the `filename` parameter of each
/// part whose disposition is `Attachment` and that carries one, in order.
pub open spec fn spec_attachment_names(parts: Seq<PartView>) -> Seq<Seq<char>>
    decreases parts.len(),
{
    if parts.len() == 0 {
        Seq::empty()
    } else {
        let rest = spec_attachment_names(parts.drop_first());
        if parts[0].disposition is Attachment {
            match spec_param_value(parts[0].params, "filename"@) {
                Some(v) => seq![v] + rest,
                None => rest,
            }
        } else {
            rest
        }
    }
}

/// Selects the attachment file names from the parts' metadata: exactly the
/// parts classified as attachments that carry a `filename` parameter, in
/// order.
pub fn attachment_filenames(parts: &Vec<PartInfo>) -> (r: Vec<String>)
    ensures
        r.deep_view() == spec_attachment_names(parts_view(parts@)),
{
    let ghost pv = parts_view(parts@);
    let n = parts.len();
    let mut out: Vec<String> = Vec::new();
    let mut i: usize = 0;
    proof {
        assert(pv.skip(0) =~= pv);
        assert(out.deep_view() + spec_attachment_names(pv) =~= spec_attachment_names(pv));
    }
    while i < n
        invariant
            0 <= i <= n,
            n == parts@.len(),
            pv == parts_view(parts@),
            spec_attachment_names(pv) == out.deep_view() + spec_attachment_names(
                pv.skip(i as int),
            ),
        decreases n - i,
    {
        proof {
            assert(pv.skip(i as int)[0] == pv[i as int]);
            assert(pv[i as int] == parts@[i as int]@);
            assert(pv.skip(i as int).drop_first() =~= pv.skip(i + 1));
        }
        let ghost old_out = out.deep_view();
        let p = &parts[i];
        let mut added: bool = false;
        if matches!(p.disposition, Disposition::Attachment) {
            match param_value(&p.params, "filename") {
                Some(name) => {
                    out.push(name.clone());
                    added = true;
                },
                None => {},
            }
        }
        proof {
            if added {
                assert(out.deep_view() =~= old_out.push(out@.last()@));
                assert(old_out.push(out@.last()@) + spec_attachment_names(pv.skip(i + 1))
                    =~= old_out + (seq![out@.last()@] + spec_attachment_names(pv.skip(i + 1))));
            } else {
                assert(out.deep_view() == old_out);
            }
        }
        i = i + 1;
    }
    proof {
        assert(pv.skip(n as int).len() == 0);
        assert(out.deep_view() + spec_attachment_names(pv.skip(n as int)) =~= out.deep_view());
    }
    out
}

/// Decodes a message through the external MIME decoder: the decoded body
/// text and, for each subpart, its disposition and parameters.  Fails with
/// `Parse` exactly when the decoder cannot parse the bytes, with `Decode`
/// exactly when it parses them but cannot decode the body; on success the
/// body text and the parts are exactly what the decoder yields on these
/// bytes.
pub fn decode_message(raw: &[u8]) -> (r: Result<MimeDecoded, MimeError>)
    ensures
        r == Err::<MimeDecoded, MimeError>(MimeError::Parse) <==> !mime_parse_ok(raw@),
        r == Err::<MimeDecoded, MimeError>(MimeError::Decode) <==> mime_parse_ok(raw@)
            && !mime_decode_ok(raw@),
        r is Ok <==> mime_parse_ok(raw@) && mime_decode_ok(raw@),
        r matches Ok(d) ==> d.body_text@ == mime_body_of(raw@) && parts_view(d.parts@)
            == mime_parts_of(raw@),
{
    let body_text = match mime_body(raw) {
        Some(b) => b,
        None => {
            if mime_parse_check(raw) {
                return Err(MimeError::Decode);
            } else {
                return Err(MimeError::Parse);
            }
        },
    };
    let parts = match mime_parts(raw) {
        Some(p) => p,
        None => {
            // parsing succeeded above, so this branch cannot be reached
            proof {
                assert(false);
            }
            return Err(MimeError::Parse);
        },
    };
    Ok(MimeDecoded { body_text, parts })
}

} // verus!
