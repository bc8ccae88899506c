//! What a server says of a file.
use vstd::prelude::*;

use crate::laws::texts::{
    all_blank, law_the_first_place_is_found, law_trimming_takes_the_ends, stands, tight,
};
use crate::number::read_u64;
use crate::paths::{last_segment, last_slash, lemma_last_slash, lemma_last_slash_is};
use crate::probe::{
    head_says, header_number, offers_bytes, probe_says, range_total, too_large, Metadata,
    ProbeError,
};
use crate::text::{find, trim};

verus! {

/// A header gives the number that its text is; without a header there is none.
pub proof fn law_a_header_gives_its_number(s: Seq<char>)
    ensures
        header_number(None) is None,
        header_number(Some(s)) == read_u64(s),
{
}

/// The word `bytes`.
pub open spec fn bytes_word() -> Seq<char> {
    seq!['b', 'y', 't', 'e', 's']
}

/// Ranges are offered if and only if the word `bytes` stands in the header.
pub proof fn law_bytes_are_offered(s: Seq<char>)
    ensures
        !offers_bytes(None),
        offers_bytes(Some(s)) <==> exists|i: int| #[trigger]
            stands(s, bytes_word(), i),
{
    reveal_strlit("bytes");
    assert("bytes"@ =~= bytes_word());
    law_the_first_place_is_found(s, "bytes"@);
    if let Some(i) = find(s, "bytes"@) {
        assert(stands(s, bytes_word(), i));
    }
}

/// The length of the whole file is the number behind the last slash, without the
/// white space around it; a star there is none, nor is any other text.
pub proof fn law_the_total_stands_behind_the_slash(
    front: Seq<char>,
    p: Seq<char>,
    core: Seq<char>,
    q: Seq<char>,
)
    requires
        all_blank(p),
        all_blank(q),
        tight(core),
        !core.contains('/'),
    ensures
        range_total(None) is None,
        range_total(Some(front + seq!['/'] + p + core + q)) == if core == seq!['*'] {
            None
        } else {
            read_u64(core)
        },
        range_total(Some(p + core + q)) == if core == seq!['*'] {
            None
        } else {
            read_u64(core)
        },
{
    reveal_strlit("*");
    assert("*"@ =~= seq!['*']);
    law_trimming_takes_the_ends(p, core, q);
    let tail = p + core + q;
    assert forall|j: int| 0 <= j < tail.len() implies tail[j] != '/' by {
        if j < p.len() {
            assert(tail[j] == p[j]);
        } else if j < p.len() + core.len() {
            assert(tail[j] == core[j - p.len()]);
            assert(core.contains(core[j - p.len()]));
        } else {
            assert(tail[j] == q[j - p.len() - core.len()]);
        }
    }
    lemma_last_slash(tail);
    assert(last_segment(tail) == tail);
    let s = front + seq!['/'] + p + core + q;
    let i = front.len() as int;
    assert(s =~= front + seq!['/'] + tail);
    assert forall|j: int| i < j < s.len() implies s[j] != '/' by {
        assert(s[j] == tail[j - i - 1]);
    }
    lemma_last_slash_is(s, i);
    assert(s.skip(i + 1) =~= tail);
    assert(trim(last_segment(s)) == core);
    assert(last_slash(s) == Some(i));
}

/// What is known of a file is what its four fields hold.
pub proof fn law_metadata_is_its_fields(
    m: Metadata,
    content_length: u64,
    accept_ranges: bool,
    content_disposition: Option<&str>,
    etag: Option<&str>,
)
    ensures
        m.holds(content_length, accept_ranges, content_disposition, etag) <==> {
            &&& m.content_length == content_length
            &&& m.accept_ranges == accept_ranges
            &&& match (m.content_disposition, content_disposition) {
                (Some(a), Some(b)) => a@ == b@,
                (None, None) => true,
                _ => false,
            }
            &&& match (m.etag, etag) {
                (Some(a), Some(b)) => a@ == b@,
                (None, None) => true,
                _ => false,
            }
        },
{
}

/// A HEAD request that the server does not answer with success says nothing, and only
/// such a one; one that it does says what its headers hold, or fails for want of a
/// length.
pub proof fn law_what_head_says(
    status: u16,
    content_length: Option<&str>,
    accept_ranges: Option<&str>,
    content_disposition: Option<&str>,
    etag: Option<&str>,
    r: Result<Option<Metadata>, ProbeError>,
)
    requires
        head_says(status, content_length, accept_ranges, content_disposition, etag, r),
    ensures
        ({
            let length = match content_length {
                Some(s) => read_u64(s@),
                None => None,
            };
            let ranges = match accept_ranges {
                Some(s) => offers_bytes(Some(s@)),
                None => false,
            };
            if !(200 <= status <= 299) {
                r == Ok::<Option<Metadata>, ProbeError>(None)
            } else if length is None {
                r == Err::<Option<Metadata>, ProbeError>(ProbeError::NoLength)
            } else {
                &&& r is Ok && r->Ok_0 is Some
                &&& (r->Ok_0->0).content_length == length->0
                &&& (r->Ok_0->0).accept_ranges == ranges
                &&& (r->Ok_0->0).holds(length->0, ranges, content_disposition, etag)
            }
        }),
{
}

/// A GET request for one byte that is answered with 206 says that ranges are served,
/// and how long the whole is; one that is answered with another success says how long
/// the file is, and that they are not.
pub proof fn law_what_a_probe_says(
    status: u16,
    content_length: Option<&str>,
    content_range: Option<&str>,
    content_disposition: Option<&str>,
    etag: Option<&str>,
    r: Result<Metadata, ProbeError>,
)
    requires
        probe_says(status, content_length, content_range, content_disposition, etag, r),
    ensures
        ({
            let length = match content_length {
                Some(s) => read_u64(s@),
                None => None,
            };
            let total = match content_range {
                Some(s) => range_total(Some(s@)),
                None => None,
            };
            if !(200 <= status <= 299) {
                r == Err::<Metadata, ProbeError>(ProbeError::Refused)
            } else if status == 206 && total is None {
                r == Err::<Metadata, ProbeError>(ProbeError::NoTotal)
            } else if status == 206 {
                r is Ok && r->Ok_0.content_length == total->0 && r->Ok_0.accept_ranges
                    && r->Ok_0.holds(total->0, true, content_disposition, etag)
            } else if length is None {
                r == Err::<Metadata, ProbeError>(ProbeError::NoLength)
            } else {
                r is Ok && r->Ok_0.content_length == length->0 && !r->Ok_0.accept_ranges
                    && r->Ok_0.holds(length->0, false, content_disposition, etag)
            }
        }),
{
}

/// A file is too large if and only if it has more bytes than are allowed.
pub proof fn law_which_files_are_too_large(content_length: u64, max_size: u64)
    ensures
        !too_large(content_length, max_size) <==> content_length <= max_size,
{
}

} // verus!
