//! Laws of the scan-and-plan engine, each stated over the spec functions
//! that the executable functions' contracts use.

use vstd::prelude::*;
use crate::ext::{ext_of, last_dot, lemma_last_dot_bounds, lower_char, lower_seq};
use crate::plan::{eligible, planned};
use crate::scan::{count_dirs, count_files, count_with_key, counted_file, report_key, Entry};

verus! {

/// ASCII lower-casing maps no character onto the dot, and keeps the dot.
proof fn lemma_lower_char_dot(c: char)
    ensures
        (lower_char(c) == '.') == (c == '.'),
{
    if 65 <= c as u32 && c as u32 <= 90 {
        assert(lower_char(c) as u32 == c as u32 + 32);
        assert(lower_char(c) != '.');
        assert(c != '.');
    }
}

/// Lower-casing a name moves no dot, so the split point of its extension is
/// unchanged.
proof fn lemma_last_dot_lower(s: Seq<char>)
    ensures
        last_dot(lower_seq(s)) == last_dot(s),
    decreases s.len(),
{
    if s.len() > 0 {
        lemma_lower_char_dot(s.last());
        assert(lower_seq(s).last() == lower_char(s.last()));
        assert(lower_seq(s).drop_last() =~= lower_seq(s.drop_last()));
        lemma_last_dot_lower(s.drop_last());
    }
}

proof fn lemma_lower_subrange(s: Seq<char>, p: int, q: int)
    requires
        0 <= p <= q <= s.len(),
    ensures
        lower_seq(s.subrange(p, q)) == lower_seq(s).subrange(p, q),
{
    assert(lower_seq(s.subrange(p, q)) =~= lower_seq(s).subrange(p, q));
}

/// When every entry is exactly one of file or directory, the two counts
/// partition the total: `files + dirs == total_entries`.
pub proof fn lemma_scan_partition(es: Seq<Entry>)
    requires
        forall|i: int| 0 <= i < es.len() ==> (#[trigger] es[i].is_file <==> !es[i].is_dir),
    ensures
        count_files(es) + count_dirs(es) == es.len(),
    decreases es.len(),
{
    if es.len() > 0 {
        assert(forall|i: int| 0 <= i < es.len() - 1 ==> es.drop_last()[i] == es[i]);
        lemma_scan_partition(es.drop_last());
    }
}

/// Extension normalization is case-insensitive: two names equal up to ASCII
/// case are reported, and organized, under the same key.
pub proof fn lemma_key_case_insensitive(a: Seq<char>, b: Seq<char>)
    requires
        lower_seq(a) == lower_seq(b),
    ensures
        report_key(a) == report_key(b),
        crate::plan::plan_key(a) == crate::plan::plan_key(b),
{
    lemma_last_dot_lower(a);
    lemma_last_dot_lower(b);
    assert(a.len() == lower_seq(a).len());
    assert(last_dot(a) == last_dot(b));
    lemma_last_dot_bounds(a);
    lemma_last_dot_bounds(b);
    if last_dot(a) >= 1 {
        let ld = last_dot(a);
        lemma_lower_subrange(a, ld + 1, a.len() as int);
        lemma_lower_subrange(b, ld + 1, b.len() as int);
        assert(lower_seq(a).subrange(ld + 1, a.len() as int) == lower_seq(b).subrange(
            ld + 1,
            b.len() as int,
        ));
    }
}

/// A file is always counted under its key — in particular a file with no
/// extension is counted under the no-extension sentinel, never omitted.
pub proof fn lemma_file_always_counted(es: Seq<Entry>, i: int)
    requires
        0 <= i < es.len(),
        counted_file(es[i]),
    ensures
        count_with_key(es, report_key(es[i].name@)) >= 1,
    decreases es.len(),
{
    if i < es.len() - 1 {
        assert(es.drop_last()[i] == es[i]);
        lemma_file_always_counted(es.drop_last(), i);
    }
}

/// A file with no extension is counted under the display sentinel.
pub proof fn lemma_no_ext_counted(es: Seq<Entry>, i: int)
    requires
        0 <= i < es.len(),
        counted_file(es[i]),
        ext_of(es[i].name@) is None,
    ensures
        count_with_key(es, "(no_ext)"@) >= 1,
{
    lemma_file_always_counted(es, i);
    assert(report_key(es[i].name@) == "(no_ext)"@);
}

/// An entry named `organized` never appears in a move plan.
pub proof fn lemma_reserved_never_planned(es: Seq<Entry>)
    ensures
        forall|p: int| 0 <= p < planned(es).len() ==> #[trigger] planned(es)[p] != "organized"@,
    decreases es.len(),
{
    if es.len() > 0 {
        lemma_reserved_never_planned(es.drop_last());
        let pre = planned(es.drop_last());
        if eligible(es.last()) {
            assert forall|p: int| 0 <= p < planned(es).len() implies #[trigger] planned(es)[p]
                != "organized"@ by {
                if p < pre.len() {
                    assert(planned(es)[p] == pre[p]);
                } else {
                    assert(planned(es)[p] == es.last().name@);
                }
            }
        }
    }
}

/// The entries still at the directory's top level after the plan is
/// executed: every eligible file has been moved below `organized`, the rest
/// stay.
pub open spec fn retained(es: Seq<Entry>) -> Seq<Entry>
    decreases es.len(),
{
    if es.len() == 0 {
        Seq::empty()
    } else if eligible(es.last()) {
        retained(es.drop_last())
    } else {
        retained(es.drop_last()).push(es.last())
    }
}

proof fn lemma_retained_ineligible(es: Seq<Entry>)
    ensures
        forall|p: int| 0 <= p < retained(es).len() ==> !eligible(#[trigger] retained(es)[p]),
    decreases es.len(),
{
    if es.len() > 0 {
        lemma_retained_ineligible(es.drop_last());
        let pre = retained(es.drop_last());
        if !eligible(es.last()) {
            assert forall|p: int| 0 <= p < retained(es).len() implies !eligible(
                #[trigger] retained(es)[p],
            ) by {
                if p < pre.len() {
                    assert(retained(es)[p] == pre[p]);
                } else {
                    assert(retained(es)[p] == es.last());
                }
            }
        }
    }
}

/// A directory without eligible entries gets an empty plan.
pub proof fn lemma_no_eligible_no_plan(es: Seq<Entry>)
    requires
        forall|p: int| 0 <= p < es.len() ==> !eligible(#[trigger] es[p]),
    ensures
        planned(es) == Seq::<Seq<char>>::empty(),
    decreases es.len(),
{
    if es.len() > 0 {
        assert(forall|p: int| 0 <= p < es.len() - 1 ==> es.drop_last()[p] == es[p]);
        lemma_no_eligible_no_plan(es.drop_last());
    }
}

/// Organizing is idempotent in effect: after a run moves every eligible file
/// away, the top level holds only ineligible entries plus the `organized`
/// directory itself, so a second run plans no moves at all.
pub proof fn lemma_second_run_plans_nothing(es: Seq<Entry>, org: Entry)
    requires
        org.name@ == "organized"@,
    ensures
        planned(retained(es).push(org)) == Seq::<Seq<char>>::empty(),
{
    lemma_retained_ineligible(es);
    assert(forall|p: int|
        0 <= p < retained(es).len() ==> retained(es).push(org)[p] == retained(es)[p]);
    assert(retained(es).push(org)[retained(es).len() as int] == org);
    assert(!eligible(org));
    lemma_no_eligible_no_plan(retained(es).push(org));
}

} // verus!
