//! Extension extraction and normalization.
//!
//! A file name's extension is the text after the last `.`, except that a name
//! with no `.`, or whose only `.` is its leading character (a dotfile such as
//! `.gitignore`), has no extension. Extensions are normalized by ASCII
//! lower-casing.

use vstd::prelude::*;
use vstd::string::StrSliceExecFns;

verus! {

/// ASCII lower-casing of one character: `A`..`Z` map to `a`..`z`,
/// everything else is unchanged.
pub open spec fn lower_char(c: char) -> char {
    if 65 <= c as u32 && c as u32 <= 90 {
        ((c as u8 + 32) as u8) as char
    } else {
        c
    }
}

/// Pointwise ASCII lower-casing of a character sequence.
pub open spec fn lower_seq(s: Seq<char>) -> Seq<char> {
    Seq::new(s.len(), |i: int| lower_char(s[i]))
}

/// Index of the last `.` in `s`, or -1 when `s` holds none.
pub open spec fn last_dot(s: Seq<char>) -> int
    decreases s.len(),
{
    if s.len() == 0 {
        -1
    } else if s[s.len() - 1] == '.' {
        s.len() - 1
    } else {
        last_dot(s.drop_last())
    }
}

pub proof fn lemma_last_dot_bounds(s: Seq<char>)
    ensures
        -1 <= last_dot(s) < s.len(),
        last_dot(s) >= 0 ==> s[last_dot(s)] == '.',
        forall|i: int| last_dot(s) < i < s.len() ==> s[i] != '.',
    decreases s.len(),
{
    if s.len() > 0 && s[s.len() - 1] != '.' {
        lemma_last_dot_bounds(s.drop_last());
        assert(forall|i: int| 0 <= i < s.len() - 1 ==> s[i] == s.drop_last()[i]);
    }
}

/// The raw (un-normalized) extension of a file name, if it has one: the text
/// after the last `.`, unless the name's only `.` is its first character or
/// the name holds no `.` at all.
pub open spec fn ext_of(name: Seq<char>) -> Option<Seq<char>> {
    if last_dot(name) >= 1 {
        Some(name.subrange(last_dot(name) + 1, name.len() as int))
    } else {
        None
    }
}

/// Executable ASCII lower-casing of one character.
pub fn lower_char_exec(c: char) -> (r: char)
    ensures
        r == lower_char(c),
{
    let u = c as u32;
    if 65 <= u && u <= 90 {
        ((c as u8) + 32) as char
    } else {
        c
    }
}

/// Relies on String::push: appends exactly one character at the end.
#[verifier::external_body]
pub fn push_char(s: &mut String, c: char)
    ensures
        final(s)@ == old(s)@.push(c),
{
    s.push(c)
}

/// The normalized (lower-cased) extension of a file name, or `None` when the
/// name has no extension.
pub fn lowered_ext(name: &str) -> (r: Option<String>)
    ensures
        match ext_of(name@) {
            Some(e) => r is Some && r->Some_0@ == lower_seq(e),
            None => r is None,
        },
{
    let n = name.unicode_len();
    let mut i: usize = 0;
    // One past the index of the last `.` seen so far; 0 while none was seen.
    let mut ld: usize = 0;
    while i < n
        invariant
            i <= n,
            n == name@.len(),
            ld <= i,
            last_dot(name@.take(i as int)) == ld - 1,
        decreases n - i,
    {
        let c = name.get_char(i);
        proof {
            assert(name@.take(i + 1).drop_last() =~= name@.take(i as int));
            assert(name@.take(i + 1).last() == name@[i as int]);
        }
        if c == '.' {
            ld = i + 1;
        }
        i += 1;
    }
    proof {
        assert(name@.take(n as int) =~= name@);
    }
    if ld >= 2 {
        let mut out = String::new();
        let mut j: usize = ld;
        while j < n
            invariant
                ld <= j <= n,
                n == name@.len(),
                out@ == lower_seq(name@.subrange(ld as int, j as int)),
            decreases n - j,
        {
            let c = lower_char_exec(name.get_char(j));
            push_char(&mut out, c);
            proof {
                assert(lower_seq(name@.subrange(ld as int, j + 1)) =~= lower_seq(
                    name@.subrange(ld as int, j as int),
                ).push(lower_char(name@[j as int])));
            }
            j += 1;
        }
        Some(out)
    } else {
        None
    }
}

} // verus!
