//! Trickplay bookkeeping: pairing videos with their thumbnail sidecars.
//!
//! A trickplay sidecar directory carries its video's name plus a marker
//! suffix, so a video is covered when some sidecar name starts with the
//! video's stem, and a sidecar is orphaned when no video stem starts it.
//! The classification of names and the two difference lists are computed
//! here; walking the disk for the names is the caller's business.

use vstd::prelude::*;

verus! {

use crate::text::{has_prefix, has_suffix, str_has_suffix, str_has_prefix};
use crate::tree::trickplay_marker;

/// The suffix that marks a trickplay sidecar directory.
pub open spec fn trickplay_suffix() -> Seq<char> {
    trickplay_marker()
}

/// Whether a directory name marks a trickplay sidecar.
pub fn is_trickplay_name(name: &str) -> (r: bool)
    ensures
        r == has_suffix(name@, trickplay_suffix()),
{
    let r = str_has_suffix(name, ".trickplay");
    proof {
        reveal_strlit(".trickplay");
        assert(".trickplay"@ =~= trickplay_suffix());
    }
    r
}

/// Whether a file name carries one of the video extensions the audit
/// looks for.
pub open spec fn spec_is_video_name(name: Seq<char>) -> bool {
    ||| has_suffix(name, seq!['.', 'm', 'k', 'v'])
    ||| has_suffix(name, seq!['.', 'm', 'p', '4'])
}

/// Whether a file name carries one of the audited video extensions.
pub fn is_video_name(name: &str) -> (r: bool)
    ensures
        r == spec_is_video_name(name@),
{
    let mkv = str_has_suffix(name, ".mkv");
    let mp4 = str_has_suffix(name, ".mp4");
    proof {
        reveal_strlit(".mkv");
        reveal_strlit(".mp4");
        assert(".mkv"@ =~= seq!['.', 'm', 'k', 'v']);
        assert(".mp4"@ =~= seq!['.', 'm', 'p', '4']);
    }
    mkv || mp4
}

/// Some name of the list starts with the given stem.
pub open spec fn any_starts_with(list: Seq<String>, stem: Seq<char>) -> bool {
    exists|i: int| 0 <= i < list.len() && has_prefix((#[trigger] list[i])@, stem)
}

/// The name starts with some stem of the list.
pub open spec fn starts_with_any(name: Seq<char>, list: Seq<String>) -> bool {
    exists|i: int| 0 <= i < list.len() && has_prefix(name, (#[trigger] list[i])@)
}

/// The video stems not covered by any sidecar, in order.
pub open spec fn missing_rel(out: Seq<String>, stems: Seq<String>, tps: Seq<String>) -> bool
    decreases stems.len(),
{
    if stems.len() == 0 {
        out.len() == 0
    } else if !any_starts_with(tps, stems.last()@) {
        &&& out.len() > 0
        &&& out.last()@ == stems.last()@
        &&& missing_rel(out.drop_last(), stems.drop_last(), tps)
    } else {
        missing_rel(out, stems.drop_last(), tps)
    }
}

/// The sidecar names not backed by any video stem, in order.
pub open spec fn orphan_rel(out: Seq<String>, tps: Seq<String>, stems: Seq<String>) -> bool
    decreases tps.len(),
{
    if tps.len() == 0 {
        out.len() == 0
    } else if !starts_with_any(tps.last()@, stems) {
        &&& out.len() > 0
        &&& out.last()@ == tps.last()@
        &&& orphan_rel(out.drop_last(), tps.drop_last(), stems)
    } else {
        orphan_rel(out, tps.drop_last(), stems)
    }
}

/// Whether some name of the list starts with `stem`.
fn any_starts_with_exec(list: &Vec<String>, stem: &str) -> (r: bool)
    ensures
        r == any_starts_with(list@, stem@),
{
    let n = list.len();
    let mut i: usize = 0;
    while i < n
        invariant
            n == list@.len(),
            i <= n,
            forall|j: int| 0 <= j < i ==> !has_prefix((#[trigger] list@[j])@, stem@),
        decreases n - i,
    {
        if str_has_prefix(list[i].as_str(), stem) {
            return true;
        }
        i = i + 1;
    }
    false
}

/// Whether `name` starts with some stem of the list.
fn starts_with_any_exec(name: &str, list: &Vec<String>) -> (r: bool)
    ensures
        r == starts_with_any(name@, list@),
{
    let n = list.len();
    let mut i: usize = 0;
    while i < n
        invariant
            n == list@.len(),
            i <= n,
            forall|j: int| 0 <= j < i ==> !has_prefix(name@, (#[trigger] list@[j])@),
        decreases n - i,
    {
        if str_has_prefix(name, list[i].as_str()) {
            return true;
        }
        i = i + 1;
    }
    false
}

/// The video stems that no sidecar name covers, in input order.
pub fn missing_trickplay(stems: &Vec<String>, tps: &Vec<String>) -> (r: Vec<String>)
    ensures
        missing_rel(r@, stems@, tps@),
{
    let n = stems.len();
    let mut out: Vec<String> = Vec::new();
    let mut i: usize = 0;
    while i < n
        invariant
            n == stems@.len(),
            i <= n,
            missing_rel(out@, stems@.take(i as int), tps@),
        decreases n - i,
    {
        proof {
            assert(stems@.take(i + 1).drop_last() =~= stems@.take(i as int));
            assert(stems@.take(i + 1).last() == stems@[i as int]);
        }
        if !any_starts_with_exec(tps, stems[i].as_str()) {
            let ghost prev = out@;
            out.push(stems[i].clone());
            proof {
                assert(out@.drop_last() =~= prev);
            }
        }
        i = i + 1;
    }
    proof {
        assert(stems@.take(n as int) =~= stems@);
    }
    out
}

/// The sidecar names that no video stem backs, in input order.
pub fn orphan_trickplay(tps: &Vec<String>, stems: &Vec<String>) -> (r: Vec<String>)
    ensures
        orphan_rel(r@, tps@, stems@),
{
    let n = tps.len();
    let mut out: Vec<String> = Vec::new();
    let mut i: usize = 0;
    while i < n
        invariant
            n == tps@.len(),
            i <= n,
            orphan_rel(out@, tps@.take(i as int), stems@),
        decreases n - i,
    {
        proof {
            assert(tps@.take(i + 1).drop_last() =~= tps@.take(i as int));
            assert(tps@.take(i + 1).last() == tps@[i as int]);
        }
        if !starts_with_any_exec(tps[i].as_str(), stems) {
            let ghost prev = out@;
            out.push(tps[i].clone());
            proof {
                assert(out@.drop_last() =~= prev);
            }
        }
        i = i + 1;
    }
    proof {
        assert(tps@.take(n as int) =~= tps@);
    }
    out
}

} // verus!
