//! What the user is told: each message names the values that it is about.
use vstd::prelude::*;

use crate::chunks::ResponseError;
use crate::hash::{verdict_text, HashAlgorithm, HashLengthError};
use crate::number::decimal;
use crate::paths::ends_with;
use crate::probe::{ProbeError, TooLarge};
use crate::session::{AddressError, IpMode};
use crate::speed::SizeError;

verus! {

/// Whether a message is these parts, one after the other.
pub open spec fn made_of(message: Seq<char>, parts: Seq<Seq<char>>) -> bool
    decreases parts.len(),
{
    if parts.len() == 0 {
        message.len() == 0
    } else {
        ends_with(message, parts.last()) && made_of(
            message.take(message.len() - parts.last().len()),
            parts.drop_last(),
        )
    }
}

proof fn lemma_made_of(message: Seq<char>, parts: Seq<Seq<char>>, part: Seq<char>)
    requires
        made_of(message, parts),
    ensures
        made_of(message + part, parts.push(part)),
{
    let m = message + part;
    assert(m.skip(m.len() - part.len()) =~= part);
    assert(m.take(m.len() - part.len()) =~= message);
    assert(parts.push(part).drop_last() =~= parts);
}

proof fn lemma_one_part(part: Seq<char>)
    ensures
        made_of(part, seq![part]),
{
    let e = Seq::<char>::empty();
    lemma_made_of(e, Seq::empty(), part);
    assert(e + part =~= part);
    assert(Seq::<Seq<char>>::empty().push(part) =~= seq![part]);
}

proof fn lemma_three_parts(a: Seq<char>, b: Seq<char>, c: Seq<char>)
    ensures
        made_of(a + b + c, seq![a, b, c]),
{
    lemma_one_part(a);
    lemma_made_of(a, seq![a], b);
    lemma_made_of(a + b, seq![a].push(b), c);
    assert(seq![a].push(b).push(c) =~= seq![a, b, c]);
}

proof fn lemma_five_parts(
    a: Seq<char>,
    b: Seq<char>,
    c: Seq<char>,
    d: Seq<char>,
    e: Seq<char>,
)
    ensures
        made_of(a + b + c + d + e, seq![a, b, c, d, e]),
        made_of(a + b + c + d, seq![a, b, c, d]),
{
    lemma_three_parts(a, b, c);
    lemma_made_of(a + b + c, seq![a, b, c], d);
    lemma_made_of(a + b + c + d, seq![a, b, c].push(d), e);
    assert(seq![a, b, c].push(d) =~= seq![a, b, c, d]);
    assert(seq![a, b, c, d].push(e) =~= seq![a, b, c, d, e]);
}

/// An unknown unit is named.
pub proof fn law_an_unknown_unit_is_named(unit: String)
    ensures
        made_of(
            SizeError::UnknownUnit(unit).spec_message(),
            seq![
                "Unknown unit '"@,
                unit@,
                "' in size. Supported units: K, M, G, T (case insensitive)"@,
            ],
        ),
{
    lemma_three_parts(
        "Unknown unit '"@,
        unit@,
        "' in size. Supported units: K, M, G, T (case insensitive)"@,
    );
}

/// A file that is too large is told with both sizes.
pub proof fn law_both_sizes_are_told(e: TooLarge)
    ensures
        made_of(
            e.spec_message(),
            seq![
                "File size "@,
                decimal(e.content_length as nat),
                " exceeds --max-size "@,
                decimal(e.max_size as nat),
            ],
        ),
{
    lemma_five_parts(
        "File size "@,
        decimal(e.content_length as nat),
        " exceeds --max-size "@,
        decimal(e.max_size as nat),
        Seq::empty(),
    );
}

/// A hash of the wrong length is told with its algorithm, the length that is expected
/// and the one that it has.
pub proof fn law_both_lengths_are_told(found: usize)
    ensures
        made_of(
            (HashLengthError { algorithm: HashAlgorithm::Sha256, found }).spec_message(),
            seq![
                "Invalid "@,
                "SHA-256"@,
                " hash length: expected "@,
                decimal(64),
                " hex characters, got "@,
                decimal(found as nat),
            ],
        ),
        made_of(
            (HashLengthError { algorithm: HashAlgorithm::Sha512, found }).spec_message(),
            seq![
                "Invalid "@,
                "SHA-512"@,
                " hash length: expected "@,
                decimal(128),
                " hex characters, got "@,
                decimal(found as nat),
            ],
        ),
{
    let last = decimal(found as nat);
    lemma_five_parts(
        "Invalid "@,
        "SHA-256"@,
        " hash length: expected "@,
        decimal(64),
        " hex characters, got "@,
    );
    let short = seq![
        "Invalid "@,
        "SHA-256"@,
        " hash length: expected "@,
        decimal(64),
        " hex characters, got "@,
    ];
    lemma_made_of(
        "Invalid "@ + "SHA-256"@ + " hash length: expected "@ + decimal(64)
            + " hex characters, got "@,
        short,
        last,
    );
    assert(short.push(last) =~= seq![
        "Invalid "@,
        "SHA-256"@,
        " hash length: expected "@,
        decimal(64),
        " hex characters, got "@,
        last,
    ]);
    lemma_five_parts(
        "Invalid "@,
        "SHA-512"@,
        " hash length: expected "@,
        decimal(128),
        " hex characters, got "@,
    );
    let long = seq![
        "Invalid "@,
        "SHA-512"@,
        " hash length: expected "@,
        decimal(128),
        " hex characters, got "@,
    ];
    lemma_made_of(
        "Invalid "@ + "SHA-512"@ + " hash length: expected "@ + decimal(128)
            + " hex characters, got "@,
        long,
        last,
    );
    assert(long.push(last) =~= seq![
        "Invalid "@,
        "SHA-512"@,
        " hash length: expected "@,
        decimal(128),
        " hex characters, got "@,
        last,
    ]);
}

/// A verified digest is shown; one that differs is shown with the one expected.
pub proof fn law_digests_are_shown(actual: Seq<char>, expected: Seq<char>)
    ensures
        made_of(
            verdict_text(HashAlgorithm::Sha256, actual, actual),
            seq!["SHA-256"@, ": "@, actual, "  ✓"@],
        ),
        actual != expected ==> made_of(
            verdict_text(HashAlgorithm::Sha256, actual, expected),
            seq!["SHA-256"@, " mismatch!\n  Expected: "@, expected, "\n  Actual:   "@, actual],
        ),
        made_of(
            verdict_text(HashAlgorithm::Sha512, actual, actual),
            seq!["SHA-512"@, ": "@, actual, "  ✓"@],
        ),
        actual != expected ==> made_of(
            verdict_text(HashAlgorithm::Sha512, actual, expected),
            seq!["SHA-512"@, " mismatch!\n  Expected: "@, expected, "\n  Actual:   "@, actual],
        ),
{
    let e = Seq::<char>::empty();
    lemma_five_parts("SHA-256"@, ": "@, actual, "  ✓"@, e);
    lemma_five_parts("SHA-512"@, ": "@, actual, "  ✓"@, e);
    lemma_five_parts(
        "SHA-256"@,
        " mismatch!\n  Expected: "@,
        expected,
        "\n  Actual:   "@,
        actual,
    );
    lemma_five_parts(
        "SHA-512"@,
        " mismatch!\n  Expected: "@,
        expected,
        "\n  Actual:   "@,
        actual,
    );
}

/// A refused response is told with its status, and with the bytes that were asked for
/// where something else was sent.
pub proof fn law_the_status_is_told(
    status: u16,
    from: u64,
    to: u64,
    text: Seq<char>,
    body: Seq<char>,
)
    ensures
        made_of(
            (ResponseError::Failed { status }).spec_message(text),
            seq!["Range request failed: "@, text],
        ),
        made_of(
            (ResponseError::IgnoredRange { status, from, to }).spec_message(text),
            seq![
                "Server ignored Range header (got "@,
                text,
                " instead of 206 Partial Content) for bytes="@,
                decimal(from as nat),
                "-"@,
                decimal(to as nat),
                ". Refusing to write to avoid corrupting the output file."@,
            ],
        ),
        made_of(
            ProbeError::Refused.spec_message(text, body),
            seq!["Probe failed: "@, text, " "@, body],
        ),
{
    lemma_one_part("Range request failed: "@);
    lemma_made_of("Range request failed: "@, seq!["Range request failed: "@], text);
    assert(seq!["Range request failed: "@].push(text) =~= seq!["Range request failed: "@, text]);
    let a = "Server ignored Range header (got "@;
    let c = " instead of 206 Partial Content) for bytes="@;
    let z = ". Refusing to write to avoid corrupting the output file."@;
    let d = decimal(from as nat);
    let f = decimal(to as nat);
    lemma_five_parts(a, text, c, d, "-"@);
    let five = seq![a, text, c, d, "-"@];
    lemma_made_of(a + text + c + d + "-"@, five, f);
    lemma_made_of(a + text + c + d + "-"@ + f, five.push(f), z);
    assert(five.push(f).push(z) =~= seq![a, text, c, d, "-"@, f, z]);
    lemma_five_parts("Probe failed: "@, text, " "@, body, Seq::empty());
}

/// A host without a usable address is named, with the family that was asked for.
pub proof fn law_the_host_is_named(host: Seq<char>)
    ensures
        made_of(
            AddressError::Nothing.spec_message(host),
            seq!["No addresses returned for "@, host],
        ),
        made_of(
            AddressError::WrongFamily(IpMode::V4).spec_message(host),
            seq!["No "@, "IPv4"@, " address found for "@, host],
        ),
        made_of(
            AddressError::WrongFamily(IpMode::V6).spec_message(host),
            seq!["No "@, "IPv6"@, " address found for "@, host],
        ),
{
    let a = "No addresses returned for "@;
    lemma_one_part(a);
    lemma_made_of(a, seq![a], host);
    assert(seq![a].push(host) =~= seq![a, host]);
    lemma_five_parts("No "@, "IPv4"@, " address found for "@, host, Seq::empty());
    lemma_five_parts("No "@, "IPv6"@, " address found for "@, host, Seq::empty());
}

} // verus!
