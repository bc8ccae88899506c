//! What a server says of a file before it is downloaded.
use vstd::prelude::*;

use crate::chunks::success;
use crate::number::{
    decimal, law_decimal_value, law_padded_reads_back, parse_u64, push_decimal, read_u64,
    zero_padded,
};
use crate::paths::{after_last_slash, last_segment, lemma_last_slash_is};
use crate::text::{
    all_digits, ascii_digit, blank, contains_text, find, is_text, lemma_end_run, lemma_run, str_of,
    text_of, to_chars, trim, trim_chars,
};

verus! {

/// What is known of a file before it is downloaded.
#[derive(Debug, Clone, PartialEq, Eq)]
pub struct Metadata {
    pub content_length: u64,
    /// Whether the server sends parts of the file.
    pub accept_ranges: bool,
    pub content_disposition: Option<String>,
    pub etag: Option<String>,
}

impl Metadata {
    /// Whether these are the values of the fields.
    pub open spec fn holds(
        &self,
        content_length: u64,
        accept_ranges: bool,
        content_disposition: Option<&str>,
        etag: Option<&str>,
    ) -> bool {
        &&& self.content_length == content_length
        &&& self.accept_ranges == accept_ranges
        &&& text_of(self.content_disposition) == str_of(content_disposition)
        &&& text_of(self.etag) == str_of(etag)
    }
}

/// Why a file cannot be downloaded.
#[derive(Debug, Clone, Copy, PartialEq, Eq, Structural)]
pub enum ProbeError {
    /// Its length is not known.
    NoLength,
    /// The server refuses.
    Refused,
    /// The server sends a part without the length of the whole.
    NoTotal,
}

impl ProbeError {
    /// The message of the error; `status` and `body` are what the server answered.
    pub open spec fn spec_message(&self, status: Seq<char>, body: Seq<char>) -> Seq<char> {
        match self {
            ProbeError::NoLength => "No Content-Length → cannot use multi-connection"@,
            ProbeError::Refused => "Probe failed: "@ + status + " "@ + body,
            ProbeError::NoTotal => "Probe returned 206 without parseable Content-Range total"@,
        }
    }

    /// The message of the error; `status` and `body` are what the server answered.
    pub fn message(&self, status: &str, body: &str) -> (r: String)
        ensures
            r@ == self.spec_message(status@, body@),
    {
        match self {
            ProbeError::NoLength => "No Content-Length → cannot use multi-connection".to_string(),
            ProbeError::Refused => {
                let mut out: String = "Probe failed: ".to_string();
                out.append(status);
                out.append(" ");
                out.append(body);
                out
            },
            ProbeError::NoTotal => {
                "Probe returned 206 without parseable Content-Range total".to_string()
            },
        }
    }
}

/// The number that a header holds.
pub open spec fn header_number(value: Option<Seq<char>>) -> Option<u64> {
    match value {
        Some(s) => read_u64(s),
        None => None,
    }
}

/// Whether an `Accept-Ranges` header offers parts in bytes.
pub open spec fn offers_bytes(value: Option<Seq<char>>) -> bool {
    value is Some && find(value->0, "bytes"@) is Some
}

/// The length of the whole file, from a `Content-Range` header: what follows the
/// last slash.
pub open spec fn range_total(value: Option<Seq<char>>) -> Option<u64> {
    match value {
        Some(s) => {
            let total = trim(last_segment(s));
            if total == "*"@ {
                None
            } else {
                read_u64(total)
            }
        },
        None => None,
    }
}

fn number_in(value: Option<&str>) -> (r: Option<u64>)
    ensures
        r == header_number(str_of(value)),
{
    match value {
        Some(s) => parse_u64(&to_chars(s)),
        None => None,
    }
}

fn total_in(value: Option<&str>) -> (r: Option<u64>)
    ensures
        r == range_total(str_of(value)),
{
    match value {
        Some(s) => {
            let total: Vec<char> = trim_chars(&after_last_slash(&to_chars(s)));
            if is_text(&total, "*") {
                None
            } else {
                parse_u64(&total)
            }
        },
        None => None,
    }
}

fn owned(value: Option<&str>) -> (r: Option<String>)
    ensures
        text_of(r) == str_of(value),
{
    match value {
        Some(s) => Some(s.to_string()),
        None => None,
    }
}

/// Whether the answer to a HEAD request comes to this result: nothing where the server
/// refuses, an error without a length, else what the headers say.
pub open spec fn head_says(
    status: u16,
    content_length: Option<&str>,
    accept_ranges: Option<&str>,
    content_disposition: Option<&str>,
    etag: Option<&str>,
    r: Result<Option<Metadata>, ProbeError>,
) -> bool {
    let length = header_number(str_of(content_length));
    match r {
        Ok(None) => !success(status),
        Ok(Some(m)) => success(status) && length is Some && m.holds(
            length->0,
            offers_bytes(str_of(accept_ranges)),
            content_disposition,
            etag,
        ),
        Err(e) => success(status) && length is None && e == ProbeError::NoLength,
    }
}

/// Whether the answer to a GET request for one byte comes to this result.
pub open spec fn probe_says(
    status: u16,
    content_length: Option<&str>,
    content_range: Option<&str>,
    content_disposition: Option<&str>,
    etag: Option<&str>,
    r: Result<Metadata, ProbeError>,
) -> bool {
    let length = if status == 206 {
        range_total(str_of(content_range))
    } else {
        header_number(str_of(content_length))
    };
    match r {
        Ok(m) => success(status) && length is Some && m.holds(
            length->0,
            status == 206,
            content_disposition,
            etag,
        ),
        Err(ProbeError::Refused) => !success(status),
        Err(ProbeError::NoTotal) => status == 206 && length is None,
        Err(ProbeError::NoLength) => success(status) && status != 206 && length is None,
    }
}

/// What the answer to a HEAD request says of the file. Where the server refuses
/// the request there is no answer: then a GET request for one byte is to be made.
pub fn read_head(
    status: u16,
    content_length: Option<&str>,
    accept_ranges: Option<&str>,
    content_disposition: Option<&str>,
    etag: Option<&str>,
) -> (r: Result<Option<Metadata>, ProbeError>)
    ensures
        head_says(status, content_length, accept_ranges, content_disposition, etag, r),
        ({
            let length = header_number(str_of(content_length));
            if !success(status) {
                r == Ok::<Option<Metadata>, ProbeError>(None)
            } else if length is None {
                r == Err::<Option<Metadata>, ProbeError>(ProbeError::NoLength)
            } else {
                &&& r is Ok
                &&& r->Ok_0 is Some
                &&& (r->Ok_0->0).holds(
                    length->0,
                    offers_bytes(str_of(accept_ranges)),
                    content_disposition,
                    etag,
                )
            }
        }),
{
    if !(200 <= status && status < 300) {
        return Ok(None);
    }
    match number_in(content_length) {
        None => Err(ProbeError::NoLength),
        Some(n) => {
            let ranges: bool = match accept_ranges {
                Some(s) => contains_text(&to_chars(s), "bytes"),
                None => false,
            };
            Ok(
                Some(
                    Metadata {
                        content_length: n,
                        accept_ranges: ranges,
                        content_disposition: owned(content_disposition),
                        etag: owned(etag),
                    },
                ),
            )
        },
    }
}

/// What the answer to a GET request for one byte says of the file. A server that
/// sends a part (status 206) supports ranges, and gives the length of the whole
/// behind the range; one that sends the whole file does not.
pub fn read_probe(
    status: u16,
    content_length: Option<&str>,
    content_range: Option<&str>,
    content_disposition: Option<&str>,
    etag: Option<&str>,
) -> (r: Result<Metadata, ProbeError>)
    ensures
        probe_says(status, content_length, content_range, content_disposition, etag, r),
        ({
            let length = header_number(str_of(content_length));
            let total = range_total(str_of(content_range));
            if !success(status) {
                r == Err::<Metadata, ProbeError>(ProbeError::Refused)
            } else if status == 206 {
                if total is None {
                    r == Err::<Metadata, ProbeError>(ProbeError::NoTotal)
                } else {
                    r is Ok && r->Ok_0.holds(total->0, true, content_disposition, etag)
                }
            } else if length is None {
                r == Err::<Metadata, ProbeError>(ProbeError::NoLength)
            } else {
                r is Ok && r->Ok_0.holds(length->0, false, content_disposition, etag)
            }
        }),
{
    if !(200 <= status && status < 300) {
        return Err(ProbeError::Refused);
    }
    let partial: bool = status == 206;
    let length: Option<u64> = if partial {
        total_in(content_range)
    } else {
        number_in(content_length)
    };
    match length {
        Some(n) => Ok(
            Metadata {
                content_length: n,
                accept_ranges: partial,
                content_disposition: owned(content_disposition),
                etag: owned(etag),
            },
        ),
        None => if partial {
            Err(ProbeError::NoTotal)
        } else {
            Err(ProbeError::NoLength)
        },
    }
}

/// A file that is larger than the user allows.
#[derive(Debug, Clone, Copy, PartialEq, Eq, Structural)]
pub struct TooLarge {
    pub content_length: u64,
    pub max_size: u64,
}

impl TooLarge {
    /// The message of the error.
    pub open spec fn spec_message(&self) -> Seq<char> {
        "File size "@ + decimal(self.content_length as nat) + " exceeds --max-size "@ + decimal(
            self.max_size as nat,
        )
    }

    /// The message of the error.
    pub fn message(&self) -> (r: String)
        ensures
            r@ == self.spec_message(),
    {
        let mut out: String = "File size ".to_string();
        push_decimal(&mut out, self.content_length);
        out.append(" exceeds --max-size ");
        push_decimal(&mut out, self.max_size);
        out
    }
}

/// Whether a file is larger than the user allows.
pub open spec fn too_large(content_length: u64, max_size: u64) -> bool {
    content_length > max_size
}

/// Refuses a file that is larger than the user allows.
pub fn check_size(content_length: u64, max_size: u64) -> (r: Result<(), TooLarge>)
    ensures
        r is Err <==> too_large(content_length, max_size),
        r == (if content_length > max_size {
            Err::<(), TooLarge>(TooLarge { content_length, max_size })
        } else {
            Ok(())
        }),
{
    if content_length > max_size {
        Err(TooLarge { content_length, max_size })
    } else {
        Ok(())
    }
}

/// The last part of a range is the length of the whole: a header that ends in a
/// slash and the digits of a number gives that number.
pub proof fn law_total_reads_back(range: Seq<char>, n: u64)
    ensures
        range_total(Some(range + "/"@ + decimal(n as nat))) == Some(n),
{
    reveal_strlit("/");
    reveal_strlit("*");
    let d = decimal(n as nat);
    let s = range + "/"@ + d;
    law_padded_reads_back(n, 0);
    law_decimal_value(n as nat);
    lemma_last_slash_is(s, range.len() as int);
    assert(s.skip(range.len() as int + 1) =~= d);
    lemma_trim_of_no_blank(d);
    assert(d[0] != '*') by {
        assert(ascii_digit(d[0]));
    }
    assert(zero_padded(n as nat, 0) =~= d);
}

/// A text of digits has nothing to trim.
proof fn lemma_trim_of_no_blank(s: Seq<char>)
    requires
        s.len() > 0,
        all_digits(s),
    ensures
        trim(s) == s,
{
    lemma_run(s, blank(), 0);
    lemma_end_run(s, blank(), s.len() as int);
    assert(s.skip(0) =~= s);
    assert(s.take(s.len() as int) =~= s);
}

} // verus!
