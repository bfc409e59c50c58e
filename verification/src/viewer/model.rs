//! What the text searcher computes, stated over the lines as sequences of
//! characters: the match set of a query, the window of lines to show, and
//! the steps of the cursor.

use crate::text::occurrences;
use crate::viewer::Match;
use vstd::prelude::*;

verus! {

/// Stored matches as pairs of line index and offset in the line.
pub open spec fn match_view(matches: Seq<Match>) -> Seq<(int, int)> {
    matches.map_values(|m: Match| m@)
}

/// The occurrences of `pat` in the lines `lo..hi`, ascending by line and,
/// within a line, by offset.
pub open spec fn matches_in(lines: Seq<Seq<char>>, pat: Seq<char>, lo: int, hi: int) -> Seq<
    (int, int),
>
    decreases hi - lo,
{
    if hi <= lo {
        Seq::empty()
    } else {
        matches_in(lines, pat, lo, hi - 1) + occurrences(lines[hi - 1], pat, 0).map_values(
            |p: int| (hi - 1, p),
        )
    }
}

/// The match set of `pat` seen from the line `offset`: the occurrences at or
/// below that line first, then those above it, each part ascending.
pub open spec fn match_set(lines: Seq<Seq<char>>, pat: Seq<char>, offset: int) -> Seq<(int, int)> {
    matches_in(lines, pat, offset, lines.len() as int) + matches_in(lines, pat, 0, offset)
}

/// The lines `start .. min(start + count, line count - 1)`; none where that
/// range is empty.
pub open spec fn window(lines: Seq<Seq<char>>, start: int, count: int) -> Seq<Seq<char>> {
    let end = if start + count <= lines.len() - 1 {
        start + count
    } else {
        lines.len() - 1
    };
    if start < end {
        lines.subrange(start, end)
    } else {
        Seq::empty()
    }
}

/// The state of a viewer.
pub struct ViewerView {
    /// The lines of the file.
    pub lines: Seq<Seq<char>>,
    /// The file's extension.
    pub extension: Seq<char>,
    /// The query as typed so far.
    pub query: Seq<char>,
    /// The match set of the last search, as pairs of line and offset.
    pub matches: Seq<(int, int)>,
    /// Index of the current match in `matches`; 0 where there is none.
    pub cursor: int,
    /// Index of the first visible line.
    pub offset: int,
}

impl ViewerView {
    /// The scroll offset points at a line, the cursor at a match, and every
    /// match at a line.
    pub open spec fn wf(self) -> bool {
        &&& 0 <= self.offset
        &&& self.offset < self.lines.len() || self.offset == 0
        &&& 0 <= self.cursor
        &&& self.cursor < self.matches.len() || self.cursor == 0
        &&& forall|k: int| 0 <= k < self.matches.len() ==> 0 <= (#[trigger] self.matches[k]).0 < self.lines.len()
    }

    /// One step forward in the cycle of matches, and a scroll to the line of
    /// the match reached. Nothing changes where there is no match.
    pub open spec fn advance(self) -> ViewerView {
        if self.matches.len() == 0 {
            self
        } else {
            let cursor = (self.cursor + 1) % (self.matches.len() as int);
            ViewerView { cursor, offset: self.matches[cursor].0, ..self }
        }
    }

    /// One step backward in the cycle of matches, and a scroll to the line of
    /// the match reached. Nothing changes where there is no match.
    pub open spec fn retreat(self) -> ViewerView {
        if self.matches.len() == 0 {
            self
        } else {
            let cursor = (self.cursor - 1) % (self.matches.len() as int);
            ViewerView { cursor, offset: self.matches[cursor].0, ..self }
        }
    }

    /// The state after a search for the query: the match set seen from the
    /// scroll offset, the cursor on its first match.
    pub open spec fn commit(self) -> ViewerView {
        ViewerView { matches: match_set(self.lines, self.query, self.offset), cursor: 0, ..self }
    }

    /// One line up, unless the first line is on top already.
    pub open spec fn scroll_up(self) -> ViewerView {
        if self.offset > 0 {
            ViewerView { offset: self.offset - 1, ..self }
        } else {
            self
        }
    }

    /// One line down, unless the last line is on top already.
    pub open spec fn scroll_down(self) -> ViewerView {
        if self.offset + 1 < self.lines.len() {
            ViewerView { offset: self.offset + 1, ..self }
        } else {
            self
        }
    }

    /// `n` steps forward.
    pub open spec fn advance_times(self, n: nat) -> ViewerView
        decreases n,
    {
        if n == 0 {
            self
        } else {
            self.advance_times((n - 1) as nat).advance()
        }
    }
}

} // verus!
