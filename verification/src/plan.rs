//! Move planning: which files to sort into extension-named subfolders.
//!
//! A plan holds one source/destination pair per eligible file, in entry
//! order. A file is eligible unless it is a directory or is literally named
//! `organized` — the destination root itself. Destinations are relative to
//! the scanned directory: `organized/<extension-or-no_ext>/<original name>`.

use vstd::prelude::*;
use crate::ext::{ext_of, lower_seq, lowered_ext};
use crate::scan::Entry;
use vstd::string::StringExecFns;

verus! {

/// The folder token a file is organized under: its normalized extension, or
/// the path sentinel when it has none.
pub open spec fn plan_key(name: Seq<char>) -> Seq<char> {
    match ext_of(name) {
        Some(e) => lower_seq(e),
        None => "no_ext"@,
    }
}

/// An entry the planner will move: a file not named after the destination
/// root.
pub open spec fn eligible(e: Entry) -> bool {
    e.name@ != "organized"@ && e.is_file
}

/// The names of the eligible entries, in entry order.
pub open spec fn planned(es: Seq<Entry>) -> Seq<Seq<char>>
    decreases es.len(),
{
    if es.len() == 0 {
        Seq::empty()
    } else if eligible(es.last()) {
        planned(es.drop_last()).push(es.last().name@)
    } else {
        planned(es.drop_last())
    }
}

/// The destination a file is moved to, relative to the scanned directory.
pub open spec fn dest_of(name: Seq<char>) -> Seq<char> {
    "organized/"@ + plan_key(name) + "/"@ + name
}

/// One planned move: the source file name and its destination path relative
/// to the scanned directory.
pub struct MoveStep {
    pub source: String,
    pub dest: String,
}

/// Compute the move plan for a directory's entries: one step per eligible
/// file, in entry order, each sending the file to
/// `organized/<extension-or-no_ext>/<original name>`.
pub fn plan_moves(entries: &Vec<Entry>) -> (r: Vec<MoveStep>)
    ensures
        r@.len() == planned(entries@).len(),
        forall|i: int|
            0 <= i < r@.len() ==> #[trigger] r@[i].source@ == planned(entries@)[i]
                && r@[i].dest@ == dest_of(planned(entries@)[i]),
{
    let n = entries.len();
    let reserved: String = String::from_str("organized");
    let mut r: Vec<MoveStep> = Vec::new();
    let mut i: usize = 0;
    while i < n
        invariant
            i <= n,
            n == entries@.len(),
            reserved@ == "organized"@,
            r@.len() == planned(entries@.take(i as int)).len(),
            forall|p: int|
                0 <= p < r@.len() ==> #[trigger] r@[p].source@ == planned(entries@.take(i as int))[p]
                    && r@[p].dest@ == dest_of(planned(entries@.take(i as int))[p]),
        decreases n - i,
    {
        proof {
            assert(entries@.take(i + 1).drop_last() =~= entries@.take(i as int));
            assert(entries@.take(i + 1).last() == entries@[i as int]);
        }
        let e = &entries[i];
        if !(e.name == reserved) && e.is_file {
            let key: String = match lowered_ext(e.name.as_str()) {
                Some(k) => k,
                None => String::from_str("no_ext"),
            };
            proof {
                assert(key@ == plan_key(e.name@));
            }
            let mut dest: String = String::from_str("organized/");
            dest.append(key.as_str());
            dest.append("/");
            dest.append(e.name.as_str());
            proof {
                assert(dest@ == dest_of(e.name@));
            }
            let source = e.name.clone();
            let step = MoveStep { source, dest };
            let ghost v = step;
            let ghost r0 = r@;
            r.push(step);
            proof {
                let ghost pl = planned(entries@.take(i + 1));
                assert(eligible(entries@[i as int]));
                assert(pl == planned(entries@.take(i as int)).push(entries@[i as int].name@));
                assert forall|p: int| 0 <= p < r@.len() implies #[trigger] r@[p].source@ == pl[p]
                    && r@[p].dest@ == dest_of(pl[p]) by {
                    if p < r0.len() {
                        assert(r@[p] == r0[p]);
                        assert(pl[p] == planned(entries@.take(i as int))[p]);
                    } else {
                        assert(r@[p] == v);
                        assert(pl[p] == entries@[i as int].name@);
                    }
                }
            }
        } else {
            proof {
                assert(!eligible(entries@[i as int]));
            }
        }
        i += 1;
    }
    proof {
        assert(entries@.take(n as int) =~= entries@);
    }
    r
}

} // verus!
