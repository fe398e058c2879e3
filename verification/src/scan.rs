//! Scan reporting: fold a directory's entries into aggregate counts.
//!
//! A report counts every entry, the directories, the files, and the files per
//! normalized extension. The per-extension table is kept strictly sorted by
//! key so that rendering it is reproducible.

use vstd::prelude::*;
use crate::ext::{ext_of, lower_seq, lowered_ext};
use crate::order::{lex_lt, lemma_lex_lt_connected, lemma_lex_lt_trans, str_lt};
use vstd::string::StringExecFns;

verus! {

/// One immediate child of the scanned directory, as plain values: its name
/// and its classification.
pub struct Entry {
    pub name: String,
    pub is_file: bool,
    pub is_dir: bool,
}

/// An entry counted as a directory.
pub open spec fn counted_dir(e: Entry) -> bool {
    e.is_dir
}

/// An entry counted as a file: directories win when both flags are set, and
/// an entry that is neither is counted only in the total.
pub open spec fn counted_file(e: Entry) -> bool {
    !e.is_dir && e.is_file
}

/// The key a file is reported under: its normalized extension, or the
/// display sentinel when it has none.
pub open spec fn report_key(name: Seq<char>) -> Seq<char> {
    match ext_of(name) {
        Some(e) => lower_seq(e),
        None => "(no_ext)"@,
    }
}

pub open spec fn count_dirs(es: Seq<Entry>) -> nat
    decreases es.len(),
{
    if es.len() == 0 {
        0
    } else {
        count_dirs(es.drop_last()) + (if counted_dir(es.last()) {
            1nat
        } else {
            0nat
        })
    }
}

pub open spec fn count_files(es: Seq<Entry>) -> nat
    decreases es.len(),
{
    if es.len() == 0 {
        0
    } else {
        count_files(es.drop_last()) + (if counted_file(es.last()) {
            1nat
        } else {
            0nat
        })
    }
}

/// How many files among `es` are reported under key `k`.
pub open spec fn count_with_key(es: Seq<Entry>, k: Seq<char>) -> nat
    decreases es.len(),
{
    if es.len() == 0 {
        0
    } else {
        count_with_key(es.drop_last(), k) + (if counted_file(es.last()) && report_key(
            es.last().name@,
        ) == k {
            1nat
        } else {
            0nat
        })
    }
}

/// The count stored in the table under key `k` (summed, so that the
/// definition needs no uniqueness assumption; the table keeps keys unique).
pub open spec fn lookup(t: Seq<(String, usize)>, k: Seq<char>) -> nat
    decreases t.len(),
{
    if t.len() == 0 {
        0
    } else {
        (if t[0].0@ == k {
            t[0].1 as nat
        } else {
            0nat
        }) + lookup(t.skip(1), k)
    }
}

/// The sum of all counts in the table.
pub open spec fn sum_counts(t: Seq<(String, usize)>) -> nat
    decreases t.len(),
{
    if t.len() == 0 {
        0
    } else {
        t[0].1 as nat + sum_counts(t.skip(1))
    }
}

/// The table's keys are strictly sorted (hence unique).
pub open spec fn sorted_keys(t: Seq<(String, usize)>) -> bool {
    forall|i: int, j: int| 0 <= i < j < t.len() ==> lex_lt(t[i].0@, t[j].0@)
}

/// Every count in the table is at least one: a key is present only because
/// some file was counted under it.
pub open spec fn counts_positive(t: Seq<(String, usize)>) -> bool {
    forall|i: int| 0 <= i < t.len() ==> #[trigger] t[i].1 >= 1
}

proof fn lemma_lookup_insert(t: Seq<(String, usize)>, p: int, x: (String, usize), k: Seq<char>)
    requires
        0 <= p <= t.len(),
    ensures
        lookup(t.insert(p, x), k) == lookup(t, k) + (if x.0@ == k {
            x.1 as nat
        } else {
            0nat
        }),
    decreases p,
{
    if p == 0 {
        assert(t.insert(0, x)[0] == x);
        assert(t.insert(0, x).skip(1) =~= t);
    } else {
        assert(t.insert(p, x)[0] == t[0]);
        assert(t.insert(p, x).skip(1) =~= t.skip(1).insert(p - 1, x));
        lemma_lookup_insert(t.skip(1), p - 1, x, k);
    }
}

proof fn lemma_sum_insert(t: Seq<(String, usize)>, p: int, x: (String, usize))
    requires
        0 <= p <= t.len(),
    ensures
        sum_counts(t.insert(p, x)) == sum_counts(t) + x.1,
    decreases p,
{
    if p == 0 {
        assert(t.insert(0, x)[0] == x);
        assert(t.insert(0, x).skip(1) =~= t);
    } else {
        assert(t.insert(p, x)[0] == t[0]);
        assert(t.insert(p, x).skip(1) =~= t.skip(1).insert(p - 1, x));
        lemma_sum_insert(t.skip(1), p - 1, x);
    }
}

proof fn lemma_lookup_remove(t: Seq<(String, usize)>, p: int, k: Seq<char>)
    requires
        0 <= p < t.len(),
    ensures
        lookup(t, k) == lookup(t.remove(p), k) + (if t[p].0@ == k {
            t[p].1 as nat
        } else {
            0nat
        }),
    decreases p,
{
    if p == 0 {
        assert(t.remove(0) =~= t.skip(1));
    } else {
        assert(t.remove(p)[0] == t[0]);
        assert(t.remove(p).skip(1) =~= t.skip(1).remove(p - 1));
        lemma_lookup_remove(t.skip(1), p - 1, k);
    }
}

proof fn lemma_sum_remove(t: Seq<(String, usize)>, p: int)
    requires
        0 <= p < t.len(),
    ensures
        sum_counts(t) == sum_counts(t.remove(p)) + t[p].1,
    decreases p,
{
    if p == 0 {
        assert(t.remove(0) =~= t.skip(1));
    } else {
        assert(t.remove(p)[0] == t[0]);
        assert(t.remove(p).skip(1) =~= t.skip(1).remove(p - 1));
        lemma_sum_remove(t.skip(1), p - 1);
    }
}

proof fn lemma_elem_le_sum(t: Seq<(String, usize)>, p: int)
    requires
        0 <= p < t.len(),
    ensures
        t[p].1 <= sum_counts(t),
    decreases p,
{
    if p == 0 {
    } else {
        assert(t.skip(1)[p - 1] == t[p]);
        lemma_elem_le_sum(t.skip(1), p - 1);
    }
}

/// Add one to the count under `key`, inserting the key with count one when it
/// is new, and keeping the table sorted.
fn bump(table: &mut Vec<(String, usize)>, key: String)
    requires
        sorted_keys(old(table)@),
        counts_positive(old(table)@),
        sum_counts(old(table)@) < usize::MAX,
    ensures
        sorted_keys(final(table)@),
        counts_positive(final(table)@),
        lookup(final(table)@, key@) == lookup(old(table)@, key@) + 1,
        forall|k: Seq<char>| k != key@ ==> lookup(final(table)@, k) == lookup(old(table)@, k),
        sum_counts(final(table)@) == sum_counts(old(table)@) + 1,
{
    let n = table.len();
    let mut j: usize = 0;
    while j < n
        invariant
            j <= n,
            n == table@.len(),
            table@ == old(table)@,
            sorted_keys(table@),
            counts_positive(table@),
            sum_counts(table@) < usize::MAX,
            forall|i: int| 0 <= i < j ==> lex_lt(#[trigger] table@[i].0@, key@),
        decreases n - j,
    {
        let cur_before = str_lt(table[j].0.as_str(), key.as_str());
        if !cur_before {
            if table[j].0 == key {
                let ghost before = table@;
                let pair = table.remove(j);
                proof {
                    lemma_elem_le_sum(before, j as int);
                }
                let c = pair.1;
                table.insert(j, (pair.0, c + 1));
                proof {
                    let ghost mid = before.remove(j as int);
                    let ghost after = table@;
                    let ghost x = after[j as int];
                    assert(x.0@ == key@);
                    assert(x.1 == c + 1);
                    lemma_sum_remove(before, j as int);
                    lemma_sum_insert(mid, j as int, x);
                    assert forall|k: Seq<char>| true implies #[trigger] lookup(after, k) == lookup(
                        before,
                        k,
                    ) + (if k == key@ {
                        1nat
                    } else {
                        0nat
                    }) by {
                        lemma_lookup_remove(before, j as int, k);
                        lemma_lookup_insert(mid, j as int, x, k);
                    }
                    assert forall|i: int| 0 <= i < after.len() implies #[trigger] after[i].0@
                        == before[i].0@ && after[i].1 >= 1 by {
                        if i < j as int {
                            assert(after[i] == before[i]);
                        } else if i > j as int {
                            assert(mid[i - 1] == before[i]);
                            assert(after[i] == mid[i - 1]);
                        }
                    }
                    assert forall|p: int, q: int| 0 <= p < q < after.len() implies lex_lt(
                        after[p].0@,
                        after[q].0@,
                    ) by {
                        assert(lex_lt(before[p].0@, before[q].0@));
                    }
                }
                return ;
            } else {
                proof {
                    if !lex_lt(key@, table@[j as int].0@) {
                        lemma_lex_lt_connected(table@[j as int].0@, key@);
                        assert(false);
                    }
                }
                let ghost before = table@;
                table.insert(j, (key, 1));
                proof {
                    let ghost after = table@;
                    assert forall|k: Seq<char>| true implies lookup(after, k) == lookup(before, k)
                        + (if after[j as int].0@ == k {
                        1nat
                    } else {
                        0nat
                    }) by {
                        lemma_lookup_insert(before, j as int, after[j as int], k);
                    }
                    lemma_sum_insert(before, j as int, after[j as int]);
                    assert(sorted_keys(after)) by {
                        assert forall|p: int, q: int| 0 <= p < q < after.len() implies lex_lt(
                            after[p].0@,
                            after[q].0@,
                        ) by {
                            if q == j as int {
                                assert(after[p] == before[p]);
                            } else if p == j as int {
                                assert(after[q] == before[q - 1]);
                                if q - 1 > j as int {
                                    lemma_lex_lt_trans(
                                        after[p].0@,
                                        before[j as int].0@,
                                        before[q - 1].0@,
                                    );
                                } else {
                                }
                            } else if p < j as int && q > j as int {
                                assert(after[p] == before[p]);
                                assert(after[q] == before[q - 1]);
                                if q - 1 == p {
                                    lemma_lex_lt_trans(before[p].0@, key@, before[j as int].0@);
                                    assert(false);
                                }
                            } else if q < j as int {
                                assert(after[p] == before[p]);
                                assert(after[q] == before[q]);
                            } else {
                                assert(after[p] == before[p - 1]);
                                assert(after[q] == before[q - 1]);
                            }
                        }
                    }
                }
                return ;
            }
        }
        j += 1;
    }
    let ghost before = table@;
    table.push((key, 1));
    proof {
        let ghost after = table@;
        assert(after =~= before.insert(before.len() as int, after[before.len() as int]));
        assert forall|k: Seq<char>| true implies lookup(after, k) == lookup(before, k) + (
        if after[before.len() as int].0@ == k {
            1nat
        } else {
            0nat
        }) by {
            lemma_lookup_insert(before, before.len() as int, after[before.len() as int], k);
        }
        lemma_sum_insert(before, before.len() as int, after[before.len() as int]);
    }
}

/// The aggregate produced by a scan.
pub struct ScanReport {
    pub total_entries: usize,
    pub files: usize,
    pub dirs: usize,
    pub by_extension: Vec<(String, usize)>,
}

/// Fold a directory's entries into a `ScanReport`.
///
/// The report counts every entry in `total_entries`, splits directories and
/// files, and counts files per normalized extension key, with the table
/// sorted by key and the sum of its counts equal to the file count.
pub fn scan_entries(entries: &Vec<Entry>) -> (r: ScanReport)
    ensures
        r.total_entries == entries@.len(),
        r.files as nat == count_files(entries@),
        r.dirs as nat == count_dirs(entries@),
        sorted_keys(r.by_extension@),
        counts_positive(r.by_extension@),
        forall|k: Seq<char>| #[trigger] lookup(r.by_extension@, k) == count_with_key(entries@, k),
        sum_counts(r.by_extension@) == r.files as nat,
{
    let n = entries.len();
    let mut total: usize = 0;
    let mut files: usize = 0;
    let mut dirs: usize = 0;
    let mut bex: Vec<(String, usize)> = Vec::new();
    let mut i: usize = 0;
    while i < n
        invariant
            i <= n,
            n == entries@.len(),
            total == i,
            files <= i,
            dirs <= i,
            files as nat == count_files(entries@.take(i as int)),
            dirs as nat == count_dirs(entries@.take(i as int)),
            sorted_keys(bex@),
            counts_positive(bex@),
            forall|k: Seq<char>| #[trigger] lookup(bex@, k) == count_with_key(
                entries@.take(i as int),
                k,
            ),
            sum_counts(bex@) == files as nat,
        decreases n - i,
    {
        proof {
            assert(entries@.take(i + 1).drop_last() =~= entries@.take(i as int));
            assert(entries@.take(i + 1).last() == entries@[i as int]);
        }
        let e = &entries[i];
        total = total + 1;
        if e.is_dir {
            dirs = dirs + 1;
        } else if e.is_file {
            files = files + 1;
            let key: String = match lowered_ext(e.name.as_str()) {
                Some(k) => k,
                None => String::from_str("(no_ext)"),
            };
            proof {
                assert(key@ == report_key(e.name@));
            }
            bump(&mut bex, key);
            proof {
                assert forall|k: Seq<char>| true implies #[trigger] lookup(bex@, k)
                    == count_with_key(entries@.take(i + 1), k) by {
                    if k == report_key(e.name@) {
                    } else {
                    }
                }
            }
        }
        i += 1;
    }
    proof {
        assert(entries@.take(n as int) =~= entries@);
    }
    ScanReport { total_entries: total, files, dirs, by_extension: bex }
}

} // verus!
