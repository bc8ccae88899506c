//! How a run begins and ends.
use vstd::prelude::*;

use crate::laws::texts::{all_blank, law_trimming_takes_the_ends, tight};
use crate::session::{means_yes, removed_at_end, start_of, Batch, Family, IpMode, Policy, Start};
use crate::text::lower;

verus! {

/// Where the file does not exist the download always begins, and afresh, whatever
/// the flags and whatever a control file holds. A control file that is left over is
/// removed, unless this run has no business with it.
pub proof fn law_a_missing_file_is_downloaded(policy: Policy, valid_state: bool)
    ensures
        start_of(policy, valid_state, false) matches Start::Begin { resuming, remove_control }
            && !resuming && remove_control == (!policy.no_continue && (valid_state
            || policy.overwrite)),
{
}

/// With `--overwrite` a download always begins afresh: it is neither aborted nor
/// asked about, and any control file is deleted.
pub proof fn law_overwrite_begins_afresh(policy: Policy, valid_state: bool, exists_already: bool)
    requires
        policy.overwrite,
        !policy.no_overwrite,
    ensures
        start_of(policy, valid_state, exists_already) matches Start::Begin {
            resuming,
            remove_control,
        } && !resuming && remove_control == !policy.no_continue,
{
}

/// With `--no-overwrite` a file that exists is left as it is.
pub proof fn law_no_overwrite_keeps_the_file(policy: Policy, valid_state: bool)
    requires
        policy.no_overwrite,
        !policy.overwrite,
    ensures
        start_of(policy, valid_state, true) == Start::Abort,
{
}

/// Without flags a file that exists is gone on with where a control file fits it,
/// and asked about where none does or where control files are not to be used.
pub proof fn law_a_partial_file_is_gone_on_with(policy: Policy, valid_state: bool)
    requires
        !policy.overwrite,
        !policy.no_overwrite,
    ensures
        valid_state && !policy.no_continue ==> start_of(policy, valid_state, true)
            == (Start::Begin { resuming: true, remove_control: false }),
        !valid_state || policy.no_continue ==> start_of(policy, valid_state, true) == Start::Ask,
{
}

/// Where both flags are given, the one that keeps the file goes before where the
/// file could be gone on with, else the one that overwrites it.
pub proof fn law_both_flags(policy: Policy, valid_state: bool)
    requires
        policy.overwrite,
        policy.no_overwrite,
    ensures
        valid_state && !policy.no_continue ==> start_of(policy, valid_state, true) == Start::Abort,
        !valid_state || policy.no_continue ==> start_of(policy, valid_state, true)
            == (Start::Begin { resuming: false, remove_control: !policy.no_continue }),
{
}

/// The control file is removed at the end, unless control files are not to be used.
pub proof fn law_control_file_ends_with_the_download(no_continue: bool)
    ensures
        removed_at_end(no_continue) != no_continue,
{
}

/// Which addresses a mode admits: any, or those of its family.
pub proof fn law_modes_admit_their_family(family: Family)
    ensures
        IpMode::Auto.spec_admits(family),
        IpMode::V4.spec_admits(family) <==> family == Family::V4,
        IpMode::V6.spec_admits(family) <==> family == Family::V6,
{
}

/// The downloads of a batch are taken in order, up to the last, unless it was
/// stopped.
pub proof fn law_downloads_are_taken_in_order(batch: Batch)
    requires
        batch.succeeded + batch.failed <= batch.total,
        batch.stopped ==> batch.failed > 0,
    ensures
        batch.valid(),
        batch.spec_next() is Some <==> !batch.stopped && batch.succeeded + batch.failed
            < batch.total,
        batch.spec_next() matches Some(i) ==> i == batch.succeeded + batch.failed,
{
}

/// An answer is a yes if and only if, without the white space around it, it is empty,
/// `y` or `yes`, in upper or lower case.
pub proof fn law_which_answers_are_yes(p: Seq<char>, core: Seq<char>, q: Seq<char>)
    requires
        all_blank(p),
        all_blank(q),
        tight(core),
    ensures
        means_yes(p + core + q) <==> {
            ||| core.len() == 0
            ||| core.len() == 1 && (core[0] == 'y' || core[0] == 'Y')
            ||| core.len() == 3 && (core[0] == 'y' || core[0] == 'Y') && (core[1] == 'e' || core[1]
                == 'E') && (core[2] == 's' || core[2] == 'S')
        },
{
    law_trimming_takes_the_ends(p, core, q);
    reveal_strlit("");
    reveal_strlit("y");
    reveal_strlit("yes");
    assert(""@.len() == 0);
    assert("y"@.len() == 1 && "y"@[0] == 'y');
    assert("yes"@.len() == 3 && "yes"@[0] == 'y' && "yes"@[1] == 'e' && "yes"@[2] == 's');
    let a = lower(core);
    assert(a == ""@ <==> core.len() == 0) by {
        assert(core.len() == 0 ==> a =~= ""@);
    }
    assert(a == "y"@ <==> core.len() == 1 && a[0] == 'y') by {
        if core.len() == 1 && a[0] == 'y' {
            assert(a =~= "y"@);
        }
    }
    assert(a == "yes"@ <==> core.len() == 3 && a[0] == 'y' && a[1] == 'e' && a[2] == 's') by {
        if core.len() == 3 && a[0] == 'y' && a[1] == 'e' && a[2] == 's' {
            assert(a =~= "yes"@);
        }
    }
}

/// A download is counted once, as one that succeeded or failed; only a failure stops
/// the batch, and only where the user asks for it. A stopped batch stays stopped.
pub proof fn law_a_download_is_counted_once(batch: Batch, ok: bool, fail_fast: bool)
    requires
        batch.succeeded + batch.failed < batch.total,
    ensures
        ({
            let after = batch.counted(ok, fail_fast);
            &&& after.succeeded + after.failed == batch.succeeded + batch.failed + 1
            &&& ok ==> after.failed == batch.failed
            &&& !ok ==> after.succeeded == batch.succeeded
            &&& after.total == batch.total
            &&& after.stopped <==> batch.stopped || (fail_fast && !ok)
        }),
{
}

/// A flag for one family asks for it; none, or both, ask for any.
pub proof fn law_flags_ask_for_a_family()
    ensures
        IpMode::of_flags(true, false) == IpMode::V4,
        IpMode::of_flags(false, true) == IpMode::V6,
        IpMode::of_flags(false, false) == IpMode::Auto,
        IpMode::of_flags(true, true) == IpMode::Auto,
{
}

} // verus!
