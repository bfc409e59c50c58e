//! The text searcher: the lines of one file, a query edited character by
//! character, the places where the query occurs, and a cursor that steps
//! through them in a cycle.

pub mod laws;
pub mod model;

use crate::highlight::Highlighter;
use crate::text::{chars_of, extension_of, file_extension, find_occurrences, occurrences};
use crate::viewer::laws::lemma_match_set_sound;
use crate::viewer::model::{match_set, match_view, matches_in, window, ViewerView};
use vstd::arithmetic::div_mod::{lemma_fundamental_div_mod_converse, lemma_small_mod};
use vstd::prelude::*;

verus! {

/// A place where the query occurs.
#[derive(Clone, Copy, Debug, PartialEq, Eq)]
pub struct Match {
    /// Index of the line in the file.
    pub line_no: usize,
    /// Index of the first matching character in that line.
    pub pos_in_line: usize,
}

impl View for Match {
    type V = (int, int);

    open spec fn view(&self) -> (int, int) {
        (self.line_no as int, self.pos_in_line as int)
    }
}

/// The text searcher of one file.
pub struct Viewer {
    search_string: String,
    display_start: usize,
    search_results: Vec<Match>,
    file_content: Vec<String>,
    file_extension: String,
    curr_search_idx: usize,
}

impl View for Viewer {
    type V = ViewerView;

    closed spec fn view(&self) -> ViewerView {
        ViewerView {
            lines: self.file_content.deep_view(),
            extension: self.file_extension@,
            query: self.search_string@,
            matches: match_view(self.search_results@),
            cursor: self.curr_search_idx as int,
            offset: self.display_start as int,
        }
    }
}

/// Appends to `results` the occurrences of `pattern` in the lines `lo..hi`.
fn collect_matches(
    lines: &Vec<String>,
    pattern: &Vec<char>,
    lo: usize,
    hi: usize,
    results: &mut Vec<Match>,
)
    requires
        lo <= hi <= lines.len(),
    ensures
        match_view(final(results)@) == match_view(old(results)@) + matches_in(
            lines.deep_view(),
            pattern@,
            lo as int,
            hi as int,
        ),
{
    let ghost text = lines.deep_view();
    let ghost base = match_view(results@);
    let mut line_idx: usize = lo;
    while line_idx < hi
        invariant
            lo <= line_idx <= hi <= lines.len(),
            text == lines.deep_view(),
            match_view(results@) == base + matches_in(text, pattern@, lo as int, line_idx as int),
        decreases hi - line_idx,
    {
        let line = chars_of(lines[line_idx].as_str());
        let found = find_occurrences(&line, pattern);
        let ghost here = occurrences(text[line_idx as int], pattern@, 0);
        let ghost before = match_view(results@);
        let mut k: usize = 0;
        while k < found.len()
            invariant
                k <= found@.len(),
                found@.map_values(|p: usize| p as int) == here,
                match_view(results@) == before + here.take(k as int).map_values(
                    |p: int| (line_idx as int, p),
                ),
            decreases found@.len() - k,
        {
            let ghost earlier = match_view(results@);
            results.push(Match { line_no: line_idx, pos_in_line: found[k] });
            proof {
                assert(found@.map_values(|p: usize| p as int)[k as int] == found@[k as int] as int);
                assert(match_view(results@) =~= earlier.push((line_idx as int, here[k as int])));
                assert(here.take(k as int + 1).map_values(|p: int| (line_idx as int, p))
                    =~= here.take(k as int).map_values(|p: int| (line_idx as int, p)).push(
                    (line_idx as int, here[k as int]),
                ));
            }
            k = k + 1;
        }
        proof {
            assert(here.take(k as int) =~= here);
            assert(match_view(results@) =~= base + matches_in(
                text,
                pattern@,
                lo as int,
                line_idx as int + 1,
            ));
        }
        line_idx = line_idx + 1;
    }
}

impl Viewer {
    /// The state is consistent: see `ViewerView::wf`.
    pub open spec fn wf(&self) -> bool {
        self@.wf()
    }

    /// A viewer of the file named `file_name`, whose lines are `content`:
    /// empty query, no match, the first line on top.
    pub fn new(file_name: &str, content: Vec<String>) -> (viewer: Viewer)
        ensures
            viewer.wf(),
            viewer@ == (ViewerView {
                lines: content.deep_view(),
                extension: extension_of(file_name@),
                query: Seq::empty(),
                matches: Seq::empty(),
                cursor: 0,
                offset: 0,
            }),
    {
        let viewer = Viewer {
            search_string: String::new(),
            search_results: Vec::new(),
            file_content: content,
            file_extension: file_extension(file_name),
            display_start: 0,
            curr_search_idx: 0,
        };
        proof {
            assert(viewer@.matches =~= Seq::empty());
        }
        viewer
    }

    /// The query as typed so far.
    pub fn search_string(&self) -> (query: &String)
        ensures
            query@ == self@.query,
    {
        &self.search_string
    }

    /// Index of the first visible line.
    pub fn display_start(&self) -> (offset: usize)
        ensures
            offset == self@.offset,
    {
        self.display_start
    }

    /// The match set of the last search.
    pub fn matches(&self) -> (matches: &Vec<Match>)
        ensures
            match_view(matches@) == self@.matches,
    {
        &self.search_results
    }

    /// The match that the cursor is on, if there is any match.
    pub fn current_match(&self) -> (current: Option<Match>)
        requires
            self.wf(),
        ensures
            match current {
                Some(m) => self@.matches.len() > 0 && m@ == self@.matches[self@.cursor],
                None => self@.matches.len() == 0,
            },
    {
        if self.search_results.len() == 0 {
            None
        } else {
            Some(self.search_results[self.curr_search_idx])
        }
    }

    /// Steps back to the previous match, from the first one to the last, and
    /// scrolls to its line.
    pub fn go_to_prev_search(&mut self)
        requires
            old(self).wf(),
        ensures
            final(self).wf(),
            final(self)@ == old(self)@.retreat(),
    {
        let m = self.search_results.len();
        if m == 0 {
            return ;
        }
        proof {
            if self.curr_search_idx == 0 {
                lemma_fundamental_div_mod_converse(-1, m as int, -1, m as int - 1);
            } else {
                lemma_small_mod((self.curr_search_idx - 1) as nat, m as nat);
            }
        }
        self.curr_search_idx = if self.curr_search_idx == 0 {
            m - 1
        } else {
            self.curr_search_idx - 1
        };
        self.display_start = self.search_results[self.curr_search_idx].line_no;
        proof {
            assert(self@.matches[self@.cursor] == self.search_results@[self.curr_search_idx as int]@);
        }
    }

    /// Steps on to the next match, from the last one to the first, and
    /// scrolls to its line.
    pub fn go_to_next_search(&mut self)
        requires
            old(self).wf(),
        ensures
            final(self).wf(),
            final(self)@ == old(self)@.advance(),
    {
        if self.search_results.len() == 0 {
            return ;
        }
        self.curr_search_idx = (self.curr_search_idx + 1) % self.search_results.len();
        self.display_start = self.search_results[self.curr_search_idx].line_no;
        proof {
            assert(self@.matches[self@.cursor] == self.search_results@[self.curr_search_idx as int]@);
        }
    }

    /// Appends `chr` to the query. The match set stays as it is.
    pub fn add_char(&mut self, chr: char)
        ensures
            final(self)@ == (ViewerView { query: old(self)@.query.push(chr), ..old(self)@ }),
            old(self).wf() ==> final(self).wf(),
    {
        self.search_string.push(chr);
    }

    /// Removes the last character of the query, if it has one. The match set
    /// stays as it is.
    pub fn pop_char(&mut self)
        ensures
            final(self)@ == (ViewerView {
                query: if old(self)@.query.len() > 0 {
                    old(self)@.query.drop_last()
                } else {
                    old(self)@.query
                },
                ..old(self)@
            }),
            old(self).wf() ==> final(self).wf(),
    {
        self.search_string.pop();
    }

    /// Scrolls one line up, unless the first line is on top.
    pub fn up_char(&mut self)
        requires
            old(self).wf(),
        ensures
            final(self).wf(),
            final(self)@ == old(self)@.scroll_up(),
    {
        if self.display_start > 0 {
            self.display_start -= 1;
        }
    }

    /// Scrolls one line down, unless the last line is on top.
    pub fn down_char(&mut self)
        requires
            old(self).wf(),
        ensures
            final(self).wf(),
            final(self)@ == old(self)@.scroll_down(),
    {
        let n = self.file_content.len();
        if n > 0 && self.display_start < n - 1 {
            self.display_start += 1;
        }
    }

    /// Searches the file for the query: the occurrences from the first visible
    /// line to the end, then those above it. The cursor goes to the first of
    /// them.
    pub fn search(&mut self)
        requires
            old(self).wf(),
        ensures
            final(self).wf(),
            final(self)@ == old(self)@.commit(),
    {
        let pattern = chars_of(self.search_string.as_str());
        let mut results: Vec<Match> = Vec::new();
        let n = self.file_content.len();
        collect_matches(&self.file_content, &pattern, self.display_start, n, &mut results);
        collect_matches(&self.file_content, &pattern, 0, self.display_start, &mut results);
        proof {
            let lines = self@.lines;
            assert(match_view(results@) =~= match_set(lines, self@.query, self@.offset));
            lemma_match_set_sound(lines, self@.query, self@.offset);
        }
        self.search_results = results;
        self.curr_search_idx = 0;
    }

    /// The bounds of the lines to show from `start`: `start` and
    /// `min(start + ammount, line count - 1)`, or `start` twice where that is
    /// not behind `start`.
    fn window_bounds(&self, start: usize, ammount: usize) -> (bounds: (usize, usize))
        ensures
            bounds.0 == start,
            bounds.0 <= bounds.1,
            bounds.0 < bounds.1 ==> bounds.1 <= self@.lines.len(),
            window(self@.lines, start as int, ammount as int) == if bounds.0 < bounds.1 {
                self@.lines.subrange(bounds.0 as int, bounds.1 as int)
            } else {
                Seq::empty()
            },
    {
        let n = self.file_content.len();
        let last = if n == 0 {
            0
        } else {
            n - 1
        };
        let end = match start.checked_add(ammount) {
            Some(sum) => if sum <= last {
                sum
            } else {
                last
            },
            None => last,
        };
        if start < end {
            (start, end)
        } else {
            (start, start)
        }
    }

    /// The lines `start..end` as they are.
    fn plain_lines(&self, start: usize, end: usize) -> (lines: Vec<String>)
        requires
            start == end || start <= end <= self@.lines.len(),
        ensures
            lines.deep_view() == if start < end {
                self@.lines.subrange(start as int, end as int)
            } else {
                Seq::empty()
            },
    {
        let mut lines: Vec<String> = Vec::new();
        let mut i: usize = start;
        while i < end
            invariant
                start <= i <= end,
                start < end ==> end <= self.file_content@.len(),
                lines@.len() == i - start,
                forall|k: int| 0 <= k < i - start ==> (#[trigger] lines@[k])@ == self.file_content@[start + k]@,
            decreases end - i,
        {
            lines.push(self.file_content[i].clone());
            i = i + 1;
        }
        proof {
            if start < end {
                assert(lines.deep_view() =~= self@.lines.subrange(start as int, end as int));
            } else {
                assert(lines.deep_view() =~= Seq::empty());
            }
        }
        lines
    }

    /// The lines `start..end` with terminal colour codes, each highlighted in
    /// turn: one styled line for each line of the range. `None` where
    /// `highlighter` knows no syntax for the file's extension, or fails on one
    /// of the lines.
    fn styled_lines(&self, highlighter: &Highlighter, start: usize, end: usize) -> (styled: Option<
        Vec<String>,
    >)
        requires
            start == end || start <= end <= self@.lines.len(),
        ensures
            match styled {
                Some(lines) => lines@.len() == end - start,
                None => true,
            },
    {
        let mut lines: Vec<String> = Vec::new();
        match highlighter.start(self.file_extension.as_str(), "base16-ocean.dark") {
            None => None,
            Some(mut at_work) => {
                let mut i: usize = start;
                while i < end
                    invariant
                        start <= i <= end,
                        start < end ==> end <= self.file_content@.len(),
                        lines@.len() == i - start,
                    decreases end - i,
                {
                    match at_work.next_line(self.file_content[i].as_str()) {
                        Some(line) => lines.push(line),
                        None => {
                            return None;
                        },
                    }
                    i = i + 1;
                }
                Some(lines)
            },
        }
    }

    /// What to show of the lines `start .. min(start + ammount, line count - 1)`,
    /// given what the highlighter made of them: `styled` and `true` where it
    /// holds one line for each of them, else the lines as they are and
    /// `false`.
    pub fn present(&self, styled: Option<Vec<String>>, start: usize, ammount: usize) -> (shown: (
        Vec<String>,
        bool,
    ))
        ensures
            match styled {
                Some(lines) if lines@.len() == window(
                    self@.lines,
                    start as int,
                    ammount as int,
                ).len() => shown == (lines, true),
                _ => !shown.1 && shown.0.deep_view() == window(
                    self@.lines,
                    start as int,
                    ammount as int,
                ),
            },
    {
        let (from, to) = self.window_bounds(start, ammount);
        match styled {
            Some(lines) if lines.len() == to - from => (lines, true),
            _ => (self.plain_lines(from, to), false),
        }
    }

    /// The lines `start .. min(start + ammount, line count - 1)` for display,
    /// and whether they carry terminal colour codes. They do where
    /// `highlighter` knows a syntax for the file's extension and highlights
    /// every one of the lines; otherwise the lines come as they are.
    pub fn get_lines(&self, highlighter: &Highlighter, start: usize, ammount: usize) -> (shown: (
        Vec<String>,
        bool,
    ))
        ensures
            shown.0@.len() == window(self@.lines, start as int, ammount as int).len(),
            !shown.1 ==> shown.0.deep_view() == window(self@.lines, start as int, ammount as int),
    {
        let (from, to) = self.window_bounds(start, ammount);
        let styled = self.styled_lines(highlighter, from, to);
        self.present(styled, start, ammount)
    }
}

} // verus!
