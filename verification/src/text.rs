//! Searching inside strings, stated over their sequences of characters.

use vstd::prelude::*;
use vstd::std_specs::iter::IteratorSpec;

verus! {

/// The first index at or after `from` at which `s` holds `ch`.
pub open spec fn first_occurrence(s: Seq<char>, from: int, ch: char) -> Option<int>
    decreases s.len() - from,
{
    if from < 0 || from >= s.len() {
        None
    } else if s[from] == ch {
        Some(from)
    } else {
        first_occurrence(s, from + 1, ch)
    }
}

/// `first_occurrence` finds `ch`, skips nothing, and fails only where there is no `ch`.
pub proof fn lemma_first_occurrence(s: Seq<char>, from: int, ch: char)
    requires
        0 <= from,
    ensures
        match first_occurrence(s, from, ch) {
            Some(p) => {
                &&& from <= p < s.len()
                &&& s[p] == ch
                &&& forall|j: int| from <= j < p ==> s[j] != ch
            },
            None => forall|j: int| from <= j < s.len() ==> s[j] != ch,
        },
    decreases s.len() - from,
{
    if from < s.len() && s[from] != ch {
        lemma_first_occurrence(s, from + 1, ch);
    }
}

/// The result of a search as a mathematical position.
pub open spec fn position(r: Option<usize>) -> Option<int> {
    match r {
        Some(p) => Some(p as int),
        None => None,
    }
}

/// Scans `s` for the first `ch` at or after the character index `from`.
/// `len` is the number of characters of `s`.
pub fn find_char(s: &str, len: usize, from: usize, ch: char) -> (r: Option<usize>)
    requires
        len == s@.len(),
    ensures
        position(r) == first_occurrence(s@, from as int, ch),
{
    if from >= len {
        return None;
    }
    let mut it = s.chars();
    let mut pos: usize = 0;
    loop
        invariant
            len == s@.len(),
            it.obeys_prophetic_iter_laws(),
            pos <= len,
            it.remaining() == s@.subrange(pos as int, s@.len() as int),
            first_occurrence(s@, from as int, ch) == first_occurrence(
                s@,
                if pos < from {
                    from as int
                } else {
                    pos as int
                },
                ch,
            ),
        decreases len - pos,
    {
        match it.next() {
            None => {
                return None;
            },
            Some(c) => {
                if pos >= from && c == ch {
                    return Some(pos);
                }
                pos = pos + 1;
            },
        }
    }
}

/// The characters of `s` as a vector.
pub fn chars_of(s: &str) -> (v: Vec<char>)
    ensures
        v@ == s@,
{
    let mut v: Vec<char> = Vec::new();
    let mut it = s.chars();
    loop
        invariant
            it.obeys_prophetic_iter_laws(),
            it.decrease() is Some,
            v@ + it.remaining() == s@,
        decreases it.decrease()->0,
    {
        match it.next() {
            None => {
                return v;
            },
            Some(c) => {
                v.push(c);
            },
        }
    }
}

/// `String::push` appends one character.
pub assume_specification[ String::push ](s: &mut String, ch: char)
    ensures
        final(s)@ == old(s)@.push(ch),
;

/// `String::pop` removes the last character and returns it, or returns `None`
/// and leaves the string as it is where it is empty.
pub assume_specification[ String::pop ](s: &mut String) -> (r: Option<char>)
    ensures
        old(s)@.len() == 0 ==> r is None && final(s)@ == old(s)@,
        old(s)@.len() > 0 ==> r == Some(old(s)@.last()) && final(s)@ == old(s)@.drop_last(),
;

/// `pat` stands in `line` at index `at`.
pub open spec fn matches_at(line: Seq<char>, pat: Seq<char>, at: int) -> bool {
    &&& 0 <= at
    &&& at + pat.len() <= line.len()
    &&& line.subrange(at, at + pat.len()) == pat
}

/// The positions at which `pat` occurs in `line`, read from `from` to the
/// right without overlap: after an occurrence the next one is looked for
/// behind it. The empty pattern occurs nowhere.
pub open spec fn occurrences(line: Seq<char>, pat: Seq<char>, from: int) -> Seq<int>
    decreases line.len() - from,
{
    if pat.len() == 0 || from < 0 || from + pat.len() > line.len() {
        Seq::empty()
    } else if matches_at(line, pat, from) {
        seq![from] + occurrences(line, pat, from + pat.len())
    } else {
        occurrences(line, pat, from + 1)
    }
}

/// Each reported position is a place where `pat` stands, the positions
/// ascend, and no two of the occurrences overlap.
pub proof fn lemma_occurrences(line: Seq<char>, pat: Seq<char>, from: int)
    requires
        0 <= from,
    ensures
        forall|k: int|
            0 <= k < occurrences(line, pat, from).len() ==> {
                &&& from <= #[trigger] occurrences(line, pat, from)[k]
                &&& matches_at(line, pat, occurrences(line, pat, from)[k])
            },
        forall|k: int, m: int|
            0 <= k < m < occurrences(line, pat, from).len() ==> #[trigger] occurrences(
                line,
                pat,
                from,
            )[k] + pat.len() <= #[trigger] occurrences(line, pat, from)[m],
    decreases line.len() - from,
{
    let all = occurrences(line, pat, from);
    if pat.len() == 0 || from + pat.len() > line.len() {
        assert(all.len() == 0);
    } else if matches_at(line, pat, from) {
        let rest = occurrences(line, pat, from + pat.len());
        lemma_occurrences(line, pat, from + pat.len());
        assert(all == seq![from] + rest);
        assert forall|k: int| 0 <= k < all.len() implies {
            &&& from <= #[trigger] all[k]
            &&& matches_at(line, pat, all[k])
        } by {
            if k > 0 {
                assert(all[k] == rest[k - 1]);
            }
        }
        assert forall|k: int, m: int| 0 <= k < m < all.len() implies #[trigger] all[k] + pat.len()
            <= #[trigger] all[m] by {
            assert(all[m] == rest[m - 1]);
            if k > 0 {
                assert(all[k] == rest[k - 1]);
            }
        }
    } else {
        lemma_occurrences(line, pat, from + 1);
        assert(all == occurrences(line, pat, from + 1));
    }
}

/// The index behind the last `.` of `name`; 0 where it has none.
pub open spec fn after_last_dot(name: Seq<char>) -> int
    decreases name.len(),
{
    if name.len() == 0 {
        0
    } else if name.last() == '.' {
        name.len() as int
    } else {
        after_last_dot(name.drop_last())
    }
}

/// The index behind the last `.` lies inside `name` or at its end.
pub proof fn lemma_after_last_dot(name: Seq<char>)
    ensures
        0 <= after_last_dot(name) <= name.len(),
        after_last_dot(name) > 0 ==> name[after_last_dot(name) - 1] == '.',
        forall|j: int| after_last_dot(name) <= j < name.len() ==> name[j] != '.',
    decreases name.len(),
{
    if name.len() > 0 && name.last() != '.' {
        let front = name.drop_last();
        lemma_after_last_dot(front);
        assert forall|j: int| after_last_dot(name) <= j < name.len() implies name[j] != '.' by {
            if j < front.len() {
                assert(front[j] == name[j]);
            }
        }
    }
}

/// What follows the last `.` of `name`; all of `name` where it has none.
pub open spec fn extension_of(name: Seq<char>) -> Seq<char> {
    name.subrange(after_last_dot(name), name.len() as int)
}

/// Whether `pattern` stands in `line` at `at`.
pub fn occurs_at(line: &Vec<char>, pattern: &Vec<char>, at: usize) -> (r: bool)
    requires
        at + pattern@.len() <= line@.len(),
    ensures
        r == matches_at(line@, pattern@, at as int),
{
    let mut k: usize = 0;
    while k < pattern.len()
        invariant
            at + pattern.len() <= line.len(),
            k <= pattern.len(),
            forall|j: int| 0 <= j < k ==> line@[at + j] == pattern@[j],
        decreases pattern@.len() - k,
    {
        if line[at + k] != pattern[k] {
            proof {
                let window = line@.subrange(at as int, at + pattern@.len());
                assert(window[k as int] == line@[at + k]);
            }
            return false;
        }
        k = k + 1;
    }
    proof {
        assert(line@.subrange(at as int, at + pattern@.len()) =~= pattern@);
    }
    true
}

/// The positions at which `pattern` occurs in `line`, left to right without
/// overlap.
pub fn find_occurrences(line: &Vec<char>, pattern: &Vec<char>) -> (found: Vec<usize>)
    ensures
        found@.map_values(|p: usize| p as int) == occurrences(line@, pattern@, 0),
{
    let mut found: Vec<usize> = Vec::new();
    if pattern.len() == 0 || pattern.len() > line.len() {
        return found;
    }
    let last = line.len() - pattern.len();
    let mut at: usize = 0;
    while at <= last
        invariant
            0 < pattern.len() <= line.len(),
            last == line.len() - pattern.len(),
            at <= line.len(),
            found@.map_values(|p: usize| p as int) + occurrences(line@, pattern@, at as int)
                == occurrences(line@, pattern@, 0),
        decreases line@.len() - at,
    {
        let ghost before = found@.map_values(|p: usize| p as int);
        if occurs_at(line, pattern, at) {
            found.push(at);
            proof {
                assert(found@.map_values(|p: usize| p as int) =~= before.push(at as int));
                assert(before.push(at as int) + occurrences(line@, pattern@, at + pattern@.len())
                    =~= before + occurrences(line@, pattern@, at as int));
            }
            at = at + pattern.len();
        } else {
            at = at + 1;
        }
    }
    found
}

/// What follows the last `.` of `name`; all of `name` where it has none.
pub fn file_extension(name: &str) -> (extension: String)
    ensures
        extension@ == extension_of(name@),
{
    let mut extension = String::new();
    let mut it = name.chars();
    let ghost mut seen = Seq::<char>::empty();
    loop
        invariant
            it.obeys_prophetic_iter_laws(),
            it.decrease() is Some,
            seen + it.remaining() == name@,
            extension@ == extension_of(seen),
        decreases it.decrease()->0,
    {
        match it.next() {
            None => {
                proof {
                    assert(seen =~= name@);
                }
                return extension;
            },
            Some(c) => {
                let ghost longer = seen.push(c);
                proof {
                    assert(longer.drop_last() =~= seen);
                    assert(longer + it.remaining() =~= name@);
                }
                if c == '.' {
                    extension = String::new();
                    proof {
                        assert(extension_of(longer) =~= Seq::<char>::empty());
                    }
                } else {
                    extension.push(c);
                    proof {
                        lemma_after_last_dot(seen);
                        assert(extension_of(longer) =~= extension_of(seen).push(c));
                    }
                }
                proof {
                    seen = longer;
                }
            },
        }
    }
}

} // verus!
