//! What holds of match sets and of stepping through them.

use crate::text::{lemma_occurrences, matches_at, occurrences};
use crate::viewer::model::{match_set, matches_in, ViewerView};
use vstd::arithmetic::div_mod::{
    lemma_add_mod_noop, lemma_fundamental_div_mod_converse, lemma_small_mod,
};
use vstd::prelude::*;

verus! {

/// The matches in the lines `lo..hi` are those in `lo..mid` followed by those
/// in `mid..hi`.
pub proof fn lemma_matches_split(lines: Seq<Seq<char>>, pat: Seq<char>, lo: int, mid: int, hi: int)
    requires
        lo <= mid <= hi,
    ensures
        matches_in(lines, pat, lo, hi) == matches_in(lines, pat, lo, mid) + matches_in(
            lines,
            pat,
            mid,
            hi,
        ),
    decreases hi - mid,
{
    if mid < hi {
        lemma_matches_split(lines, pat, lo, mid, hi - 1);
        let here = occurrences(lines[hi - 1], pat, 0).map_values(|p: int| (hi - 1, p));
        assert(matches_in(lines, pat, lo, mid) + (matches_in(lines, pat, mid, hi - 1) + here)
            =~= (matches_in(lines, pat, lo, mid) + matches_in(lines, pat, mid, hi - 1)) + here);
    } else {
        assert(matches_in(lines, pat, lo, mid) + matches_in(lines, pat, mid, hi) =~= matches_in(
            lines,
            pat,
            lo,
            hi,
        ));
    }
}

/// The match set seen from a line is the match set seen from the top, turned
/// round so that it begins with the first match at or below that line.
pub proof fn lemma_match_set_is_rotation(lines: Seq<Seq<char>>, pat: Seq<char>, offset: int)
    requires
        0 <= offset <= lines.len(),
    ensures
        ({
            let all = match_set(lines, pat, 0);
            let above = matches_in(lines, pat, 0, offset).len() as int;
            &&& above <= all.len()
            &&& match_set(lines, pat, offset) == all.subrange(above, all.len() as int) + all.subrange(
                0,
                above,
            )
        }),
{
    let all = match_set(lines, pat, 0);
    let upper = matches_in(lines, pat, 0, offset);
    let lower = matches_in(lines, pat, offset, lines.len() as int);
    lemma_matches_split(lines, pat, 0, offset, lines.len() as int);
    assert(all =~= upper + lower);
    assert(all.subrange(upper.len() as int, all.len() as int) =~= lower);
    assert(all.subrange(0, upper.len() as int) =~= upper);
}

proof fn lemma_matches_in_sound(lines: Seq<Seq<char>>, pat: Seq<char>, lo: int, hi: int)
    requires
        0 <= lo,
    ensures
        forall|k: int|
            0 <= k < matches_in(lines, pat, lo, hi).len() ==> {
                let m = #[trigger] matches_in(lines, pat, lo, hi)[k];
                &&& lo <= m.0 < hi
                &&& matches_at(lines[m.0], pat, m.1)
            },
    decreases hi - lo,
{
    if hi > lo {
        lemma_matches_in_sound(lines, pat, lo, hi - 1);
        lemma_occurrences(lines[hi - 1], pat, 0);
        let front = matches_in(lines, pat, lo, hi - 1);
        let all = matches_in(lines, pat, lo, hi);
        let here = occurrences(lines[hi - 1], pat, 0);
        assert forall|k: int| 0 <= k < all.len() implies {
            let m = #[trigger] all[k];
            &&& lo <= m.0 < hi
            &&& matches_at(lines[m.0], pat, m.1)
        } by {
            if k < front.len() {
                assert(all[k] == front[k]);
            } else {
                assert(all[k] == (hi - 1, here[k - front.len()]));
            }
        }
    }
}

/// Every match of a match set is a place in the file where the query stands.
pub proof fn lemma_match_set_sound(lines: Seq<Seq<char>>, pat: Seq<char>, offset: int)
    requires
        0 <= offset <= lines.len(),
    ensures
        forall|k: int|
            0 <= k < match_set(lines, pat, offset).len() ==> {
                let m = #[trigger] match_set(lines, pat, offset)[k];
                &&& 0 <= m.0 < lines.len()
                &&& matches_at(lines[m.0], pat, m.1)
            },
{
    let lower = matches_in(lines, pat, offset, lines.len() as int);
    let upper = matches_in(lines, pat, 0, offset);
    lemma_matches_in_sound(lines, pat, offset, lines.len() as int);
    lemma_matches_in_sound(lines, pat, 0, offset);
    assert forall|k: int| 0 <= k < match_set(lines, pat, offset).len() implies {
        let m = #[trigger] match_set(lines, pat, offset)[k];
        &&& 0 <= m.0 < lines.len()
        &&& matches_at(lines[m.0], pat, m.1)
    } by {
        if k < lower.len() {
            assert(match_set(lines, pat, offset)[k] == lower[k]);
        } else {
            assert(match_set(lines, pat, offset)[k] == upper[k - lower.len()]);
        }
    }
}

/// After `n` steps forward the cursor is `n` matches further on, counted
/// round the cycle.
pub proof fn lemma_advance_times(v: ViewerView, n: nat)
    requires
        v.wf(),
    ensures
        v.advance_times(n).matches == v.matches,
        v.advance_times(n).wf(),
        v.matches.len() > 0 ==> v.advance_times(n).cursor == (v.cursor + n) % (v.matches.len() as int),
    decreases n,
{
    if n > 0 {
        lemma_advance_times(v, (n - 1) as nat);
        if v.matches.len() > 0 {
            let m = v.matches.len() as int;
            let prev = v.advance_times((n - 1) as nat);
            assert((prev.cursor + 1) % m == (v.cursor + n) % m) by {
                lemma_add_mod_noop(v.cursor + n - 1, 1, m);
                if m == 1 {
                    assert(1int % 1 == 0);
                    assert(prev.cursor == 0);
                } else {
                    lemma_small_mod(1, m as nat);
                }
            }
        } else {
        }
    } else {
        if v.matches.len() > 0 {
            lemma_small_mod(v.cursor as nat, v.matches.len());
        }
    }
}

/// Stepping forward as many times as there are matches leads back to the
/// match where the stepping began.
pub proof fn lemma_advance_cycle(v: ViewerView)
    requires
        v.wf(),
    ensures
        v.advance_times(v.matches.len()).cursor == v.cursor,
        v.advance_times(v.matches.len()).matches == v.matches,
{
    lemma_advance_times(v, v.matches.len());
    if v.matches.len() > 0 {
        let m = v.matches.len() as int;
        lemma_add_mod_noop(v.cursor, m, m);
        lemma_small_mod(v.cursor as nat, m as nat);
        assert(m % m == 0) by {
            lemma_fundamental_div_mod_converse(m, m, 1, 0);
        }
    }
}

/// A step backward from the first match leads to the last one.
pub proof fn lemma_retreat_from_first(v: ViewerView)
    requires
        v.wf(),
        v.matches.len() > 0,
        v.cursor == 0,
    ensures
        v.retreat().cursor == v.matches.len() - 1,
{
    let m = v.matches.len() as int;
    lemma_fundamental_div_mod_converse(-1, m, -1, m - 1);
}

/// A step forward and a step backward cancel, as far as the cursor goes.
pub proof fn lemma_advance_retreat(v: ViewerView)
    requires
        v.wf(),
    ensures
        v.advance().retreat().cursor == v.cursor,
        v.retreat().advance().cursor == v.cursor,
{
    if v.matches.len() > 0 {
        let m = v.matches.len() as int;
        let c = v.cursor;
        if c + 1 < m {
            lemma_small_mod((c + 1) as nat, m as nat);
            lemma_small_mod(c as nat, m as nat);
        } else {
            lemma_fundamental_div_mod_converse(c + 1, m, 1, 0);
            lemma_fundamental_div_mod_converse(-1, m, -1, m - 1);
        }
        if c > 0 {
            lemma_small_mod((c - 1) as nat, m as nat);
            lemma_small_mod(c as nat, m as nat);
        } else {
            lemma_fundamental_div_mod_converse(-1, m, -1, m - 1);
            lemma_fundamental_div_mod_converse(m, m, 1, 0);
        }
    }
}

} // verus!
