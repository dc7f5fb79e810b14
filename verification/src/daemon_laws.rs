//! What the background daemon promises about paths, changes and waits.
use vstd::prelude::*;

use crate::daemon;
use crate::daemon::{FsChange, LoopView};
use crate::text;
use crate::text_laws;

verus! {

// ---- paths ----

/// The socket of a root is named after the sixteen hexadecimal digits of its
/// hash, and roots with different hashes have different sockets.
pub proof fn sockets_tell_roots_apart(h: u64, other: u64, extension: Seq<char>)
    ensures
        daemon::runtime_name(h, extension) == "gitpixel-"@ + text::hex(h as nat, 16) + extension,
        daemon::runtime_name(h, extension) == daemon::runtime_name(other, extension) ==> h == other,
{
    let a = daemon::runtime_name(h, extension);
    let b = daemon::runtime_name(other, extension);
    let p = "gitpixel-"@.len() as int;
    text_laws::hexadecimals_count_their_number(h as nat, 16);
    text_laws::hexadecimals_count_their_number(other as nat, 16);
    assert(a.subrange(p, p + 16) =~= text::hex(h as nat, 16));
    assert(b.subrange(p, p + 16) =~= text::hex(other as nat, 16));
    reveal_with_fuel(text_laws::power, 17);
    assert(text_laws::power(16, 16) == 0x1_0000_0000_0000_0000);
    if a == b {
        assert(h as int % 0x1_0000_0000_0000_0000 == other as int % 0x1_0000_0000_0000_0000);
    }
}

// ---- changes ----

/// A path is ignored exactly when one of its names is that of the index, of the
/// repository's own directory, of build output or of installed modules.
pub proof fn ignored_names(rel: Seq<char>)
    ensures
        daemon::ignored(rel) <==> exists|i: int|
            0 <= i < text::parts(rel, '/', rel.len()).len() && {
                let name = #[trigger] text::parts(rel, '/', rel.len())[i];
                name == ".gitpixel"@ || name == ".git"@ || name == "target"@ || name
                    == "node_modules"@
            },
{
    let names = text::parts(rel, '/', rel.len());
    if daemon::ignored(rel) {
        let i = choose|i: int| 0 <= i < names.len() && daemon::ignored_dir(#[trigger] names[i]);
        assert(daemon::ignored_dir(names[i]));
    }
    if exists|i: int|
        0 <= i < names.len() && {
            let name = #[trigger] names[i];
            name == ".gitpixel"@ || name == ".git"@ || name == "target"@ || name
                == "node_modules"@
        } {
        let i = choose|i: int|
            0 <= i < names.len() && {
                let name = #[trigger] names[i];
                name == ".gitpixel"@ || name == ".git"@ || name == "target"@ || name
                    == "node_modules"@
            };
        assert(daemon::ignored_dir(names[i]));
    }
}

/// A path below a directory is ignored exactly when the directory's path is or
/// the path below it is.
pub proof fn ignored_directories_hide_what_is_below(dir: Seq<char>, below: Seq<char>)
    ensures
        daemon::ignored(dir.push('/') + below) <==> daemon::ignored(dir) || daemon::ignored(below),
{
    let a = text::parts(dir, '/', dir.len());
    let b = text::parts(below, '/', below.len());
    let rel = dir.push('/') + below;
    text_laws::separators_cut(dir, below, '/');
    let all = text::parts(rel, '/', rel.len());
    assert(all == a + b);
    if daemon::ignored(rel) {
        let i = choose|i: int| 0 <= i < all.len() && daemon::ignored_dir(#[trigger] all[i]);
        if i < a.len() {
            assert(daemon::ignored_dir(a[i]));
        } else {
            assert(daemon::ignored_dir(b[i - a.len()]));
        }
    }
    if daemon::ignored(dir) {
        let i = choose|i: int| 0 <= i < a.len() && daemon::ignored_dir(#[trigger] a[i]);
        assert(daemon::ignored_dir(all[i]));
    }
    if daemon::ignored(below) {
        let i = choose|i: int| 0 <= i < b.len() && daemon::ignored_dir(#[trigger] b[i]);
        assert(all[a.len() + i] == b[i]);
        assert(daemon::ignored_dir(all[a.len() + i]));
    }
}

/// Whether change `i` counts, and none behind it is about the same path.
pub open spec fn counts_last(changes: Seq<FsChange>, i: int) -> bool {
    &&& 0 <= i < changes.len()
    &&& !daemon::ignored(changes[i].rel@)
    &&& !changes[i].is_dir
    &&& changes[i].rel@.len() > 0
    &&& forall|j: int|
        i < j < changes.len() && !(#[trigger] changes[j]).is_dir ==> changes[j].rel@
            != changes[i].rel@
}

/// What no change that counts is about stays as it was: directories, the root
/// itself and ignored paths among it.
pub proof fn other_paths_stay_as_they_were(
    pending: Map<Seq<char>, bool>,
    changes: Seq<FsChange>,
    path: Seq<char>,
)
    requires
        path.len() == 0 || daemon::ignored(path) || forall|j: int|
            0 <= j < changes.len() ==> (#[trigger] changes[j]).rel@ != path || changes[j].is_dir,
    ensures
        daemon::all_noted(pending, changes).contains_key(path) <==> pending.contains_key(path),
        pending.contains_key(path) ==> daemon::all_noted(pending, changes)[path] == pending[path],
    decreases changes.len(),
{
    if changes.len() > 0 {
        let rest = changes.drop_last();
        if !(path.len() == 0 || daemon::ignored(path)) {
            assert(changes[changes.len() - 1].rel@ != path || changes[changes.len() - 1].is_dir);
            assert forall|j: int| 0 <= j < rest.len() implies (#[trigger] rest[j]).rel@ != path
                || rest[j].is_dir by {
                assert(rest[j] == changes[j]);
            }
        }
        other_paths_stay_as_they_were(pending, rest, path);
    }
}

// ---- waiting ----

/// The daemon waits until the pending changes are due or it has been idle for
/// half an hour, whichever comes first, but ten milliseconds at least.
pub proof fn waits_end_at_the_next_deadline(state: LoopView, now: u64)
    ensures
        ({
            let idle_end = state.last_activity + 1_800_000_000_000;
            let idle_left: int = if now <= state.last_activity {
                1_800_000_000_000
            } else if now < idle_end {
                idle_end - now
            } else {
                0
            };
            let end: int = match state.flush_at {
                Some(at) => if at <= now {
                    0
                } else if at - now < idle_left {
                    at - now
                } else {
                    idle_left
                },
                None => idle_left,
            };
            &&& end >= 10_000_000 ==> state.wait(now) == end
            &&& end < 10_000_000 ==> state.wait(now) == 10_000_000
        }),
{
}

/// A daemon that was started has ten seconds to answer, in a hundred tries.
pub proof fn starting_takes_ten_seconds()
    ensures
        daemon::START_TRIES == 100,
        daemon::START_TRIES * daemon::START_PAUSE == 10_000_000_000,
{
}

/// Pending changes are due exactly from the moment that was set for them.
pub proof fn changes_are_due_at_their_moment(state: LoopView, now: u64)
    ensures
        state.is_due(now) <==> state.flush_at is Some && state.flush_at->0 <= now,
{
}

} // verus!
