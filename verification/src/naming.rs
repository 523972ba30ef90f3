//! Derivation of the output filename from the input path.
//!
//! Absent an explicit choice, the name is the input path cut at its last
//! `.`, or the whole path when it has none, with `_deduplicated.fastq`
//! appended.

use vstd::prelude::*;
use vstd::string::StrSliceExecFns;
use vstd::string::StringExecFns;

verus! {

/// The suffix appended to the input's base name.
pub open spec fn dedup_suffix() -> Seq<char> {
    "_deduplicated.fastq"@
}

/// The position of the last `.` in the name; -1 when there is none.
pub open spec fn last_dot(s: Seq<char>) -> int
    decreases s.len(),
{
    if s.len() == 0 {
        -1
    } else if s.last() == '.' {
        s.len() - 1
    } else {
        last_dot(s.drop_last())
    }
}

/// Whether the name holds a `.` at all.
pub open spec fn has_dot(s: Seq<char>) -> bool {
    exists|i: int| 0 <= i < s.len() && s[i] == '.'
}

/// What the derived name is: an explicit choice wins; otherwise the input,
/// cut at its last `.` when it has one, with the suffix appended.
pub open spec fn output_name_spec(input: Seq<char>, opt: Option<Seq<char>>) -> Seq<char> {
    match opt {
        Option::Some(name) => name,
        Option::None => if has_dot(input) {
            input.take(last_dot(input)) + dedup_suffix()
        } else {
            input + dedup_suffix()
        },
    }
}

/// `last_dot` is the greatest position holding a `.`.
proof fn lemma_last_dot_at(s: Seq<char>, d: int)
    requires
        0 <= d < s.len(),
        s[d] == '.',
        forall|k: int| d < k < s.len() ==> s[k] != '.',
    ensures
        last_dot(s) == d,
    decreases s.len(),
{
    if d < s.len() - 1 {
        assert(s.last() != '.');
        assert(s.drop_last()[d] == s[d]);
        assert(forall|k: int| d < k < s.drop_last().len() ==> s.drop_last()[k] == s[k]);
        lemma_last_dot_at(s.drop_last(), d);
    }
}

/// Derives the output filename: an explicit name is kept as given;
/// otherwise the suffix replaces the input's extension, or closes the whole
/// input when it has no extension.
pub fn output_filename(input: &str, opt: Option<String>) -> (r: String)
    ensures
        opt is Some ==> r@ == opt->0@,
        opt is None ==> r@ == output_name_spec(input@, None),
{
    match opt {
        Option::Some(name) => name,
        Option::None => {
            let n = input.unicode_len();
            let mut j: usize = 0;
            let mut found: bool = false;
            let mut dot: usize = 0;
            while j < n
                invariant
                    n == input@.len(),
                    j <= n,
                    found ==> dot < j && input@[dot as int] == '.' && (forall|k: int|
                        dot < k < j ==> input@[k] != '.'),
                    !found ==> forall|k: int| 0 <= k < j ==> input@[k] != '.',
                decreases n - j,
            {
                if input.get_char(j) == '.' {
                    found = true;
                    dot = j;
                }
                j = j + 1;
            }
            if found {
                proof {
                    lemma_last_dot_at(input@, dot as int);
                    assert(has_dot(input@));
                }
                let base = input.substring_char(0, dot);
                let r = String::from_str(base).concat("_deduplicated.fastq");
                proof {
                    assert(input@.take(last_dot(input@)) =~= base@);
                }
                r
            } else {
                proof {
                    assert(!has_dot(input@));
                }
                String::from_str(input).concat("_deduplicated.fastq")
            }
        },
    }
}

} // verus!
