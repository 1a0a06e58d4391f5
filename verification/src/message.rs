use vstd::prelude::*;
use vstd::string::StringSliceAdditionalSpecFns;
use vstd::utf8::encode_utf8;

use crate::err::ListError;
use crate::text::lower_byte;
use crate::text::lower_byte_exec;
use crate::text::lower_bytes;

verus! {

/// One message header as parsed: raw key bytes and raw value bytes,
/// exactly as they stood between the colon and the line end.
pub struct RawHeader {
    pub key: Vec<u8>,
    pub value: Vec<u8>,
}

pub open spec fn header_rep(h: RawHeader) -> (Seq<u8>, Seq<u8>) {
    (h.key@, h.value@)
}

pub open spec fn headers_rep(v: Seq<RawHeader>) -> Seq<(Seq<u8>, Seq<u8>)> {
    v.map_values(|h: RawHeader| header_rep(h))
}

/// Whether the message grammar accepts `m`; a function of `m` alone.
pub uninterp spec fn mail_parses(m: Seq<u8>) -> bool;

/// The raw (key, value) header pairs of `m`, in order, where `m`
/// parses; a function of `m` alone.
pub uninterp spec fn mail_headers_of(m: Seq<u8>) -> Seq<(Seq<u8>, Seq<u8>)>;

/// The body bytes of `m` with its transfer encoding unapplied, where
/// `m` parses and the body decodes; a function of `m` alone.
pub uninterp spec fn mail_body_of(m: Seq<u8>) -> Option<Seq<u8>>;

/// The decoded value of the first header of `m` whose name matches
/// `name` case-insensitively; a function of `m` and `name` alone.
pub uninterp spec fn first_value_of(m: Seq<u8>, name: Seq<char>) -> Option<Seq<char>>;

/// Relies on mailparse::parse_mail for the header grammar, and on
/// MailHeader::get_key_raw / get_value_raw, which hand back the
/// unchanged key and value bytes of each parsed header.
#[verifier::external_body]
pub fn parse_headers(m: &[u8]) -> (r: Result<Vec<RawHeader>, ListError>)
    ensures
        r matches Ok(v) ==> mail_parses(m@) && headers_rep(v@) == mail_headers_of(m@),
        r is Err ==> !mail_parses(m@),
{
    match mailparse::parse_mail(m) {
        Ok(parsed) => Ok(
            parsed.headers.iter().map(
                |h| RawHeader { key: h.get_key_raw().to_vec(), value: h.get_value_raw().to_vec() },
            ).collect(),
        ),
        Err(e) => Err(ListError { message: e.to_string() }),
    }
}

/// Relies on mailparse::parse_mail and ParsedMail::get_body_raw: the
/// body bytes with the transfer encoding unapplied, a function of the
/// message alone; a body that cannot be decoded is an error.
#[verifier::external_body]
pub fn parse_body(m: &[u8]) -> (r: Result<Vec<u8>, ListError>)
    ensures
        r matches Ok(v) ==> mail_parses(m@) && mail_body_of(m@) == Some(v@),
        r is Err ==> !(mail_parses(m@) && mail_body_of(m@) is Some),
{
    match mailparse::parse_mail(m) {
        Ok(parsed) => match parsed.get_body_raw() {
            Ok(b) => Ok(b),
            Err(e) => Err(ListError { message: e.to_string() }),
        },
        Err(e) => Err(ListError { message: e.to_string() }),
    }
}

/// Relies on mailparse::parse_mail and MailHeaderMap::get_first_value:
/// the decoded value of the first header named `name`, matched
/// case-insensitively; a function of the message and the name alone.
#[verifier::external_body]
pub fn first_header_value(m: &[u8], name: &str) -> (r: Result<Option<String>, ListError>)
    ensures
        r matches Ok(o) ==> mail_parses(m@) && (match first_value_of(m@, name@) {
            Some(v) => o matches Some(s) && s@ == v,
            None => o is None,
        }),
        r is Err ==> !mail_parses(m@),
{
    match mailparse::parse_mail(m) {
        Ok(parsed) => Ok(mailparse::MailHeaderMap::get_first_value(parsed.headers.as_slice(), name)),
        Err(e) => Err(ListError { message: e.to_string() }),
    }
}

/// Whether a raw header key spells `Subject`, ASCII case aside.
pub open spec fn subject_key(k: Seq<u8>) -> bool {
    lower_bytes(k) == seq![115u8, 117u8, 98u8, 106u8, 101u8, 99u8, 116u8]
}

/// Decide `subject_key` on raw key bytes.
pub fn is_subject_key(k: &[u8]) -> (r: bool)
    ensures
        r == subject_key(k@),
{
    proof {
        assert(lower_bytes(k@).len() == k@.len());
    }
    if k.len() != 7 {
        return false;
    }
    let r = lower_byte_exec(k[0]) == 115 && lower_byte_exec(k[1]) == 117 && lower_byte_exec(k[2])
        == 98 && lower_byte_exec(k[3]) == 106 && lower_byte_exec(k[4]) == 101 && lower_byte_exec(
        k[5],
    ) == 99 && lower_byte_exec(k[6]) == 116;
    proof {
        let lit = seq![115u8, 117u8, 98u8, 106u8, 101u8, 99u8, 116u8];
        if r {
            assert(lower_bytes(k@) =~= lit);
        } else {
            assert(lower_bytes(k@) != lit) by {
                if lower_bytes(k@) == lit {
                    assert(lower_bytes(k@)[0] == lower_byte(k@[0]));
                    assert(lower_bytes(k@)[1] == lower_byte(k@[1]));
                    assert(lower_bytes(k@)[2] == lower_byte(k@[2]));
                    assert(lower_bytes(k@)[3] == lower_byte(k@[3]));
                    assert(lower_bytes(k@)[4] == lower_byte(k@[4]));
                    assert(lower_bytes(k@)[5] == lower_byte(k@[5]));
                    assert(lower_bytes(k@)[6] == lower_byte(k@[6]));
                }
            }
        }
    }
    r
}

/// A raw header value with the carriage return that closed its
/// source line dropped: that byte belongs to the line ending, and
/// re-emission supplies its own CRLF.
pub open spec fn chomp_cr(v: Seq<u8>) -> Seq<u8> {
    if v.len() > 0 && v.last() == 13 {
        v.drop_last()
    } else {
        v
    }
}

/// One re-emitted header line: the raw key, a colon and space, the
/// subject tag where it applies, the value with its line-ending
/// carriage return dropped, and CRLF.
pub open spec fn header_line(h: (Seq<u8>, Seq<u8>), tag: bool, slug: Seq<char>) -> Seq<u8> {
    h.0 + seq![58u8, 32u8] + (if tag && subject_key(h.0) {
        seq![91u8] + encode_utf8(slug) + seq![93u8, 32u8]
    } else {
        Seq::empty()
    }) + chomp_cr(h.1) + seq![13u8, 10u8]
}

/// The whole re-emitted header block.
pub open spec fn render_headers(hs: Seq<(Seq<u8>, Seq<u8>)>, tag: bool, slug: Seq<char>) -> Seq<
    u8,
>
    decreases hs.len(),
{
    if hs.len() == 0 {
        Seq::empty()
    } else {
        header_line(hs[0], tag, slug) + render_headers(hs.drop_first(), tag, slug)
    }
}

/// The rebuilt message: header block, blank line, body.
pub open spec fn render_spec(
    hs: Seq<(Seq<u8>, Seq<u8>)>,
    body: Seq<u8>,
    tag: bool,
    slug: Seq<char>,
) -> Seq<u8> {
    render_headers(hs, tag, slug) + seq![13u8, 10u8] + body
}

/// Law: tagging rewrites only the subject line. A header whose key is
/// not `Subject` re-emits byte-identically whether tagging is on or
/// off; a subject header gains exactly the bracketed slug and a
/// space, between the separator and the untouched value. The body
/// never takes part in a header line at all.
pub proof fn lemma_tagging_touches_only_subject(h: (Seq<u8>, Seq<u8>), slug: Seq<char>)
    ensures
        !subject_key(h.0) ==> header_line(h, true, slug) == header_line(h, false, slug),
        header_line(h, false, slug) =~= h.0 + seq![58u8, 32u8] + chomp_cr(h.1) + seq![
            13u8,
            10u8,
        ],
        subject_key(h.0) ==> header_line(h, true, slug) =~= h.0 + seq![58u8, 32u8] + seq![91u8]
            + encode_utf8(slug) + seq![93u8, 32u8] + chomp_cr(h.1) + seq![13u8, 10u8],
{
}

/// Append the first `n` bytes of a slice.
fn push_byte_prefix(out: &mut Vec<u8>, b: &[u8], n: usize)
    requires
        n <= b@.len(),
    ensures
        final(out)@ == old(out)@ + b@.subrange(0, n as int),
{
    let mut i: usize = 0;
    while i < n
        invariant
            i <= n <= b@.len(),
            out@ == old(out)@ + b@.subrange(0, i as int),
        decreases n - i,
    {
        out.push(b[i]);
        proof {
            assert(old(out)@ + b@.subrange(0, i as int) + seq![b@[i as int]] =~= old(out)@
                + b@.subrange(0, i as int + 1));
        }
        i = i + 1;
    }
}

/// Append a byte slice.
fn push_bytes(out: &mut Vec<u8>, b: &[u8])
    ensures
        final(out)@ == old(out)@ + b@,
{
    push_byte_prefix(out, b, b.len());
    proof {
        assert(b@.subrange(0, b@.len() as int) =~= b@);
    }
}

/// Re-emit the parsed headers and body, prefixing the subject with
/// `[slug] ` where tagging is on; everything else passes through
/// byte-for-byte, with CRLF line ends.
pub fn render_message(headers: &Vec<RawHeader>, body: &[u8], tag: bool, slug: &str) -> (r: Vec<
    u8,
>)
    ensures
        r@ == render_spec(headers_rep(headers@), body@, tag, slug@),
{
    let ghost rep = headers_rep(headers@);
    let mut out: Vec<u8> = Vec::new();
    proof {
        assert(rep.skip(0) =~= rep);
        assert(out@ + render_headers(rep, tag, slug@) =~= render_headers(rep, tag, slug@));
    }
    let mut i: usize = 0;
    while i < headers.len()
        invariant
            i <= headers.len(),
            rep == headers_rep(headers@),
            rep.len() == headers@.len(),
            out@ + render_headers(rep.skip(i as int), tag, slug@) == render_headers(
                rep,
                tag,
                slug@,
            ),
        decreases headers.len() - i,
    {
        proof {
            assert(rep.skip(i as int)[0] == rep[i as int]);
            assert(rep[i as int] == header_rep(headers@[i as int]));
            assert(rep.skip(i as int).drop_first() =~= rep.skip(i as int + 1));
        }
        let ghost out0 = out@;
        push_bytes(&mut out, headers[i].key.as_slice());
        out.push(58);
        out.push(32);
        if tag && is_subject_key(headers[i].key.as_slice()) {
            out.push(91);
            push_bytes(&mut out, slug.as_bytes());
            out.push(93);
            out.push(32);
        }
        let value = headers[i].value.as_slice();
        let vn = if value.len() > 0 && value[value.len() - 1] == 13 {
            value.len() - 1
        } else {
            value.len()
        };
        push_byte_prefix(&mut out, value, vn);
        out.push(13);
        out.push(10);
        proof {
            assert(value@.subrange(0, vn as int) =~= chomp_cr(value@));
            assert(out@ =~= out0 + header_line(rep[i as int], tag, slug@));
            assert(out0 + (header_line(rep[i as int], tag, slug@) + render_headers(
                rep.skip(i as int + 1),
                tag,
                slug@,
            )) =~= (out0 + header_line(rep[i as int], tag, slug@)) + render_headers(
                rep.skip(i as int + 1),
                tag,
                slug@,
            ));
        }
        i = i + 1;
    }
    proof {
        assert(rep.skip(i as int) =~= Seq::<(Seq<u8>, Seq<u8>)>::empty());
        assert(out@ =~= render_headers(rep, tag, slug@));
    }
    out.push(13);
    out.push(10);
    push_bytes(&mut out, body);
    proof {
        assert(out@ =~= render_spec(rep, body@, tag, slug@));
    }
    out
}

/// The whole intake transform: parse the raw message, re-emit its
/// headers with the subject tagged where configured, and carry the
/// body over unchanged. A message the grammar rejects, or whose body
/// cannot be decoded, is an error and nothing is produced.
pub fn prepare_message(m: &[u8], tag_subject: bool, slug: &str) -> (r: Result<Vec<u8>, ListError>)
    ensures
        (mail_parses(m@) && mail_body_of(m@) is Some) ==> (r matches Ok(v) && v@ == render_spec(
            mail_headers_of(m@),
            mail_body_of(m@).unwrap(),
            tag_subject,
            slug@,
        )),
        !(mail_parses(m@) && mail_body_of(m@) is Some) ==> r is Err,
{
    let headers = match parse_headers(m) {
        Ok(h) => h,
        Err(e) => {
            return Err(e);
        },
    };
    let body = match parse_body(m) {
        Ok(b) => b,
        Err(e) => {
            return Err(e);
        },
    };
    Ok(render_message(&headers, body.as_slice(), tag_subject, slug))
}

} // verus!
