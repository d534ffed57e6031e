//! The edges of a request: decoding the path that came over the wire,
//! telling an archive request from its prefix, and choosing the reply.

use crate::error::ResolutionError;
use crate::listing::Entry;
use crate::path::{
    is_normal_segment, is_separator_free, keep_normal, lemma_keep_normal_cons, names,
    normal_components, sanitize_path, segments, split_segments, SanitizedPath,
};
use crate::resolve::Static;
use vstd::prelude::*;
use vstd::utf8::{decode_utf8, encode_utf8, valid_utf8};

verus! {

/// `core::str::Utf8Error`, as the decoder hands it out; nothing is read from it.
#[verifier::external_type_specification]
#[verifier::external_body]
pub struct ExUtf8Error(core::str::Utf8Error);

/// The value of a hexadecimal digit, in either case.
pub open spec fn hex_digit(b: u8) -> Option<int> {
    if 0x30 <= b <= 0x39 {
        Some(b - 0x30)
    } else if 0x41 <= b <= 0x46 {
        Some(b - 0x41 + 10)
    } else if 0x61 <= b <= 0x66 {
        Some(b - 0x61 + 10)
    } else {
        None
    }
}

/// The bytes start with `%` and two hexadecimal digits.
pub open spec fn starts_with_escape(bytes: Seq<u8>) -> bool {
    bytes.len() >= 3 && bytes[0] == 0x25 && hex_digit(bytes[1]) is Some && hex_digit(
        bytes[2],
    ) is Some
}

/// Percent-decoding: each `%` with two hexadecimal digits behind it stands
/// for the byte that the digits write; every other byte stands for itself.
pub open spec fn percent_decoded(bytes: Seq<u8>) -> Seq<u8>
    decreases bytes.len(),
{
    if bytes.len() == 0 {
        Seq::empty()
    } else if starts_with_escape(bytes) {
        seq![(hex_digit(bytes[1])->0 * 16 + hex_digit(bytes[2])->0) as u8] + percent_decoded(
            bytes.skip(3),
        )
    } else {
        seq![bytes[0]] + percent_decoded(bytes.drop_first())
    }
}

/// Calls `percent_encoding::percent_decode` on the bytes of `input` and
/// `decode_utf8` on what it gives. Trusted: the bytes are decoded as
/// `percent_decoded` says, and the call succeeds exactly when they are UTF-8,
/// with the string that they encode.
#[verifier::external_body]
fn percent_decode_utf8(input: &str) -> (r: Result<String, core::str::Utf8Error>)
    ensures
        r is Ok <==> valid_utf8(percent_decoded(encode_utf8(input@))),
        r is Ok ==> r->Ok_0@ == decode_utf8(percent_decoded(encode_utf8(input@))),
{
    match percent_encoding::percent_decode(input.as_bytes()).decode_utf8() {
        Ok(text) => Ok(text.into_owned()),
        Err(error) => Err(error),
    }
}

/// The path that a percent-encoded request path stands for. Fails with
/// `DecodeError` exactly when the decoded bytes are not UTF-8.
pub fn decode_request_path(raw: &str) -> (r: Result<String, ResolutionError>)
    ensures
        match r {
            Ok(path) => valid_utf8(percent_decoded(encode_utf8(raw@))) && path@ == decode_utf8(
                percent_decoded(encode_utf8(raw@)),
            ),
            Err(error) => !valid_utf8(percent_decoded(encode_utf8(raw@))) && error
                == ResolutionError::DecodeError,
        },
{
    match percent_decode_utf8(raw) {
        Ok(path) => Ok(path),
        Err(_) => Err(ResolutionError::DecodeError),
    }
}

/// The sanitized path of a percent-encoded request path: decoded first, then
/// reduced to its normal components.
pub fn sanitize_request(raw: &str) -> (r: Result<SanitizedPath, ResolutionError>)
    ensures
        match r {
            Ok(path) => valid_utf8(percent_decoded(encode_utf8(raw@))) && path@
                == normal_components(decode_utf8(percent_decoded(encode_utf8(raw@)))),
            Err(error) => !valid_utf8(percent_decoded(encode_utf8(raw@))) && error
                == ResolutionError::DecodeError,
        },
{
    match decode_request_path(raw) {
        Ok(path) => Ok(sanitize_path(path.as_str())),
        Err(error) => Err(error),
    }
}

/// The first segment that is neither empty nor `.`.
pub open spec fn first_named(segs: Seq<Seq<char>>) -> Option<Seq<char>>
    decreases segs.len(),
{
    if segs.len() == 0 {
        None
    } else if segs[0].len() == 0 || segs[0] == seq!['.'] {
        first_named(segs.drop_first())
    } else {
        Some(segs[0])
    }
}

/// The name under which archives are requested.
pub open spec fn archive_name() -> Seq<char> {
    seq!['a', 'r', 'c', 'h', 'i', 'v', 'e']
}

/// The path is absolute and its first component is `archive`.
pub open spec fn has_archive_prefix(p: Seq<char>) -> bool {
    p.len() > 0 && p[0] == '/' && first_named(segments(p)) == Some(archive_name())
}

/// The directory that an archive request asks for: the request path without
/// its `/archive` prefix, sanitized. `None` where the path has no such prefix.
pub fn archive_target(path: &str) -> (r: Option<SanitizedPath>)
    ensures
        r is Some <==> has_archive_prefix(path@),
        r is Some ==> normal_components(path@).len() > 0 && normal_components(path@)[0]
            == archive_name() && r->0@ == normal_components(path@).drop_first(),
{
    if path.unicode_len() == 0 || path.get_char(0) != '/' {
        return None;
    }
    proof {
        reveal_strlit("archive");
    }
    let wanted = String::from_str("archive");
    assert(wanted@ =~= archive_name());
    let pieces = split_segments(path);
    let ghost all = names(pieces@);
    let n: usize = pieces.len();
    let mut i: usize = 0;
    assert(all.skip(0) =~= all);
    while i < n
        invariant
            i <= n,
            n == pieces@.len(),
            all == names(pieces@),
            all == segments(path@),
            wanted@ == archive_name(),
            path@.len() > 0 && path@[0] == '/',
            forall|k: int| 0 <= k < pieces@.len() ==> is_separator_free(#[trigger] pieces@[k]@),
            first_named(all) == first_named(all.skip(i as int)),
            keep_normal(all) == keep_normal(all.skip(i as int)),
        decreases n - i,
    {
        let piece = pieces[i].as_str();
        let len: usize = piece.unicode_len();
        let ghost rest = all.skip(i + 1);
        proof {
            assert(all.skip(i as int) =~= seq![all[i as int]] + rest);
            assert(all.skip(i as int).drop_first() =~= rest);
            lemma_keep_normal_cons(all[i as int], rest);
            assert(seq!['.'].len() == 1 && seq!['.'][0] == '.');
            assert(seq!['.', '.'].len() == 2);
        }
        if len == 0 {
        } else if len == 1 && piece.get_char(0) == '.' {
            assert(piece@ =~= seq!['.']);
        } else {
            assert(first_named(all) == Some(all[i as int]));
            if pieces[i] == wanted {
                assert(is_normal_segment(all[i as int]));
                let sanitized = sanitize_path(path);
                return match sanitized.split_first() {
                    Some((_, rest)) => Some(rest),
                    None => None,
                };
            } else {
                return None;
            }
        }
        i += 1;
    }
    assert(all.skip(n as int) =~= Seq::<Seq<char>>::empty());
    None
}

/// What to send back for a request.
#[derive(Debug)]
pub enum Reply {
    /// The contents of a file, with their media type.
    Content { mime_type: String, body: Vec<u8> },
    /// A directory, to be rendered as a page.
    Listing { current_path: String, breadcrumbs: Vec<(String, String)>, entries: Vec<Entry> },
    /// A page that says the request failed, and what to write to the error
    /// log, if anything.
    Failure { body: Vec<u8>, report: Option<String> },
}

/// The reply to a request for `request_path` that resolved to `outcome`. A
/// file is sent as it is and a directory as a page. A failure is answered
/// with the body `bad` and reported, unless it is a `/favicon.ico` that was
/// not found.
pub fn static_reply(request_path: &str, outcome: Result<Static, ResolutionError>) -> (reply: Reply)
    ensures
        match outcome {
            Ok(Static::File { mime_type, buffer }) => reply == (Reply::Content {
                mime_type,
                body: buffer,
            }),
            Ok(Static::Directory { current_path, breadcrumbs, entries }) => reply
                == (Reply::Listing { current_path, breadcrumbs, entries }),
            Err(error) => {
                &&& reply matches Reply::Failure { body, report }
                &&& body@ == encode_utf8("bad"@)
                &&& report is None <==> request_path@ == "/favicon.ico"@ && error is NotFound
                &&& report is Some ==> report->0@ == error.message_text()
            },
        },
{
    match outcome {
        Ok(Static::File { mime_type, buffer }) => Reply::Content { mime_type, body: buffer },
        Ok(Static::Directory { current_path, breadcrumbs, entries }) => Reply::Listing {
            current_path,
            breadcrumbs,
            entries,
        },
        Err(error) => {
            let body = "bad".as_bytes_vec();
            let favicon = String::from_str(request_path) == String::from_str("/favicon.ico");
            let not_found = match &error {
                ResolutionError::NotFound => true,
                _ => false,
            };
            if favicon && not_found {
                Reply::Failure { body, report: None }
            } else {
                Reply::Failure { body, report: Some(error.message()) }
            }
        },
    }
}

} // verus!
