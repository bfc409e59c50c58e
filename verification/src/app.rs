//! The controller: which pane has the keyboard, what a key does there, and
//! what the two panes show.

use crate::engine::model::EngineView;
use crate::engine::Engine;
use crate::highlight::Highlighter;
use crate::text::extension_of;
use crate::viewer::model::{window, ViewerView};
use crate::viewer::Viewer;
use vstd::prelude::*;

verus! {

/// What the keys do in the file pane.
#[derive(Clone, Copy, Debug, PartialEq, Eq)]
pub enum ViewerMode {
    /// They scroll and step through the matches.
    Normal,
    /// They edit the query of the search inside the file.
    Search,
}

/// The pane that has the keyboard.
#[derive(Clone, Copy, Debug, PartialEq, Eq)]
pub enum AppMode {
    /// The list of candidates.
    Left,
    /// The file pane.
    Right(ViewerMode),
}

/// A key press.
#[derive(Clone, Copy, Debug, PartialEq, Eq)]
pub enum Key {
    Backspace,
    Char(char),
    Up,
    Down,
    Enter,
    Esc,
    Tab,
    /// Any other key.
    Other,
}

/// The rows of the candidate list as they are drawn.
pub struct ListArea {
    /// The rows from top to bottom: the best candidate is the last row, and
    /// empty rows fill the top.
    pub rows: Vec<String>,
    /// Index of the row that shows the selected candidate.
    pub selected_row: usize,
}

/// The rows that show `items` in a list of `height` rows: the first item in
/// the last row, the second above it, and so on; empty rows above them.
pub open spec fn list_rows(items: Seq<Seq<char>>, height: int) -> Seq<Seq<char>> {
    Seq::new(
        height as nat,
        |i: int|
            if height - 1 - i < items.len() {
                items[height - 1 - i]
            } else {
                Seq::empty()
            },
    )
}

/// The state of the controller.
pub struct AppView {
    /// The query of the filter, as shown.
    pub search_string: Seq<char>,
    /// The filter engine.
    pub engine: EngineView,
    /// Whether the program is to end.
    pub exit: bool,
    /// Rank of the selected candidate: 0 is the best.
    pub selected_item_number: int,
    /// The selected candidate, as of the last time the list was drawn.
    pub selected_item_name: Seq<char>,
    /// The pane that has the keyboard.
    pub app_mode: AppMode,
    /// The viewer of the selected file, if one was made.
    pub viewer: Option<ViewerView>,
    /// Whether the selection changed since the viewer was made.
    pub update_viewer: bool,
}

impl AppView {
    /// The selection is a rank, and the viewer is consistent.
    pub open spec fn wf(self) -> bool {
        &&& 0 <= self.selected_item_number
        &&& match self.viewer {
            Some(viewer) => viewer.wf(),
            None => true,
        }
    }

    /// The state with `f` applied to the viewer, if there is one.
    pub open spec fn with_viewer(self, f: spec_fn(ViewerView) -> ViewerView) -> AppView {
        match self.viewer {
            Some(viewer) => AppView { viewer: Some(f(viewer)), ..self },
            None => self,
        }
    }

    /// `chr` is typed into the filter.
    pub open spec fn add_char(self, chr: char) -> AppView {
        AppView { search_string: self.search_string.push(chr), engine: self.engine.push(chr), ..self }
    }

    /// The last character of the filter's query is removed.
    pub open spec fn pop_char(self) -> AppView {
        AppView {
            search_string: if self.search_string.len() > 0 {
                self.search_string.drop_last()
            } else {
                self.search_string
            },
            engine: self.engine.pop(),
            ..self
        }
    }

    /// The selection moves up the list, to the next worse candidate, if there
    /// is one.
    pub open spec fn up_char(self) -> AppView {
        if self.selected_item_number + 1 < self.engine.results().len() {
            AppView { selected_item_number: self.selected_item_number + 1, update_viewer: true, ..self }
        } else {
            self
        }
    }

    /// The selection moves down the list, to the next better candidate, if
    /// there is one.
    pub open spec fn down_char(self) -> AppView {
        if self.selected_item_number > 0 {
            AppView { selected_item_number: self.selected_item_number - 1, update_viewer: true, ..self }
        } else {
            self
        }
    }

    /// The keyboard goes to the other pane.
    pub open spec fn switch_app_mode(self) -> AppMode {
        match self.app_mode {
            AppMode::Left => AppMode::Right(ViewerMode::Normal),
            AppMode::Right(_) => AppMode::Left,
        }
    }

    /// The file pane goes from editing its query to normal, and from anything
    /// else to editing its query.
    pub open spec fn switch_viewer_mode(self) -> AppMode {
        match self.app_mode {
            AppMode::Right(ViewerMode::Search) => AppMode::Right(ViewerMode::Normal),
            _ => AppMode::Right(ViewerMode::Search),
        }
    }

    /// The query of the file pane is committed: the pane changes its mode and
    /// the viewer searches.
    pub open spec fn enter_char(self) -> AppView {
        (AppView { app_mode: self.switch_viewer_mode(), ..self }).with_viewer(
            |v: ViewerView| v.commit(),
        )
    }

    /// What `key` does in the pane that has the keyboard.
    pub open spec fn dispatch(self, key: Key) -> AppView {
        match self.app_mode {
            AppMode::Left => match key {
                Key::Backspace => self.pop_char(),
                Key::Char(chr) => self.add_char(chr),
                Key::Up => self.up_char(),
                Key::Down => self.down_char(),
                _ => self,
            },
            AppMode::Right(ViewerMode::Normal) => match key {
                Key::Up => self.with_viewer(|v: ViewerView| v.scroll_up()),
                Key::Down => self.with_viewer(|v: ViewerView| v.scroll_down()),
                Key::Char(chr) => if chr == '/' {
                    AppView { app_mode: self.switch_viewer_mode(), ..self }
                } else if chr == 'n' {
                    self.with_viewer(|v: ViewerView| v.advance())
                } else if chr == 'N' {
                    self.with_viewer(|v: ViewerView| v.retreat())
                } else {
                    self
                },
                _ => self,
            },
            AppMode::Right(ViewerMode::Search) => match key {
                Key::Backspace => self.with_viewer(
                    |v: ViewerView|
                        ViewerView {
                            query: if v.query.len() > 0 {
                                v.query.drop_last()
                            } else {
                                v.query
                            },
                            ..v
                        },
                ),
                Key::Char(chr) => self.with_viewer(
                    |v: ViewerView| ViewerView { query: v.query.push(chr), ..v },
                ),
                Key::Enter => self.enter_char(),
                _ => self,
            },
        }
    }

    /// What `key` does: first in the pane that has the keyboard, then, for
    /// `Esc` and `Tab`, to the program as a whole.
    pub open spec fn handle_key_event(self, key: Key) -> AppView {
        let after = self.dispatch(key);
        match key {
            Key::Esc => AppView { exit: true, ..after },
            Key::Tab => AppView { app_mode: after.switch_app_mode(), ..after },
            _ => after,
        }
    }

    /// The text of the input line: the query of the file pane while that is
    /// edited, else the query of the filter.
    pub open spec fn input_text(self) -> Seq<char> {
        match self.app_mode {
            AppMode::Right(ViewerMode::Search) => match self.viewer {
                Some(viewer) => viewer.query,
                None => Seq::empty(),
            },
            _ => self.search_string,
        }
    }

    /// The state after the list was drawn with `items` in it: the selection
    /// is moved onto the last of them if it was beyond, and its name noted.
    pub open spec fn select_among(self, items: Seq<Seq<char>>) -> AppView {
        if items.len() == 0 {
            self
        } else {
            let selected = if self.selected_item_number < items.len() {
                self.selected_item_number
            } else {
                items.len() - 1
            };
            AppView { selected_item_number: selected, selected_item_name: items[selected], ..self }
        }
    }
}

/// The number of candidates that fit a list area of `height` rows, two of
/// which are its border.
pub open spec fn list_capacity(height: u16) -> nat {
    if height >= 2 {
        (height - 2) as nat
    } else {
        0
    }
}

/// The controller.
pub struct App {
    search_string: String,
    engine: Engine,
    exit: bool,
    selected_item_number: usize,
    selected_item_name: String,
    app_mode: AppMode,
    viewer: Option<Viewer>,
    update_viewer: bool,
}

impl View for App {
    type V = AppView;

    closed spec fn view(&self) -> AppView {
        AppView {
            search_string: self.search_string@,
            engine: self.engine@,
            exit: self.exit,
            selected_item_number: self.selected_item_number as int,
            selected_item_name: self.selected_item_name@,
            app_mode: self.app_mode,
            viewer: match self.viewer {
                Some(viewer) => Some(viewer@),
                None => None,
            },
            update_viewer: self.update_viewer,
        }
    }
}

impl App {
    /// The state is consistent: see `AppView::wf`.
    pub closed spec fn wf(&self) -> bool {
        &&& self@.wf()
        &&& self.engine.wf()
    }

    /// A controller of `engine`: the list has the keyboard, its best candidate
    /// is selected, and there is no viewer yet.
    pub fn new(engine: Engine) -> (app: App)
        requires
            engine.wf(),
        ensures
            app.wf(),
            app@ == (AppView {
                search_string: Seq::empty(),
                engine: engine@,
                exit: false,
                selected_item_number: 0,
                selected_item_name: Seq::empty(),
                app_mode: AppMode::Left,
                viewer: None,
                update_viewer: false,
            }),
    {
        App {
            search_string: String::new(),
            engine,
            exit: false,
            selected_item_number: 0,
            selected_item_name: String::new(),
            app_mode: AppMode::Left,
            viewer: None,
            update_viewer: false,
        }
    }

    /// Handles one key press.
    pub fn handle_key_event(&mut self, key: Key)
        requires
            old(self).wf(),
        ensures
            final(self).wf(),
            final(self)@ == old(self)@.handle_key_event(key),
    {
        match self.app_mode {
            AppMode::Left => match key {
                Key::Backspace => self.pop_char(),
                Key::Char(chr) => self.add_char(chr),
                Key::Up => self.up_char(),
                Key::Down => self.down_char(),
                _ => {},
            },
            AppMode::Right(ViewerMode::Normal) => match key {
                Key::Up => {
                    match &mut self.viewer {
                        Some(viewer) => viewer.up_char(),
                        None => {},
                    }
                },
                Key::Down => {
                    match &mut self.viewer {
                        Some(viewer) => viewer.down_char(),
                        None => {},
                    }
                },
                Key::Char(chr) => {
                    if chr == '/' {
                        self.switch_viewer_mode();
                    } else if chr == 'n' {
                        match &mut self.viewer {
                            Some(viewer) => viewer.go_to_next_search(),
                            None => {},
                        }
                    } else if chr == 'N' {
                        match &mut self.viewer {
                            Some(viewer) => viewer.go_to_prev_search(),
                            None => {},
                        }
                    }
                },
                _ => {},
            },
            AppMode::Right(ViewerMode::Search) => match key {
                Key::Backspace => {
                    match &mut self.viewer {
                        Some(viewer) => viewer.pop_char(),
                        None => {},
                    }
                },
                Key::Char(chr) => {
                    match &mut self.viewer {
                        Some(viewer) => viewer.add_char(chr),
                        None => {},
                    }
                },
                Key::Enter => self.enter_char(),
                _ => {},
            },
        }
        match key {
            Key::Esc => self.exit(),
            Key::Tab => self.switch_app_mode(),
            _ => {},
        }
    }

    /// Commits the query of the file pane: the pane changes its mode and the
    /// viewer, if there is one, searches.
    pub fn enter_char(&mut self)
        requires
            old(self).wf(),
        ensures
            final(self).wf(),
            final(self)@ == old(self)@.enter_char(),
    {
        self.switch_viewer_mode();
        match &mut self.viewer {
            Some(viewer) => viewer.search(),
            None => {},
        }
    }

    /// Hands the keyboard to the other pane.
    pub fn switch_app_mode(&mut self)
        ensures
            final(self)@ == (AppView { app_mode: old(self)@.switch_app_mode(), ..old(self)@ }),
            old(self).wf() ==> final(self).wf(),
    {
        self.app_mode = match self.app_mode {
            AppMode::Left => AppMode::Right(ViewerMode::Normal),
            AppMode::Right(_) => AppMode::Left,
        };
    }

    /// Switches the file pane between editing its query and normal.
    pub fn switch_viewer_mode(&mut self)
        ensures
            final(self)@ == (AppView { app_mode: old(self)@.switch_viewer_mode(), ..old(self)@ }),
            old(self).wf() ==> final(self).wf(),
    {
        self.app_mode = match self.app_mode {
            AppMode::Right(ViewerMode::Search) => AppMode::Right(ViewerMode::Normal),
            _ => AppMode::Right(ViewerMode::Search),
        };
    }

    /// Moves the selection up the list.
    pub fn up_char(&mut self)
        requires
            old(self).wf(),
        ensures
            final(self).wf(),
            final(self)@ == old(self)@.up_char(),
    {
        let size = self.engine.results_size();
        if size > 0 && self.selected_item_number < size - 1 {
            self.selected_item_number += 1;
            self.update_viewer = true;
        }
    }

    /// Moves the selection down the list.
    pub fn down_char(&mut self)
        requires
            old(self).wf(),
        ensures
            final(self).wf(),
            final(self)@ == old(self)@.down_char(),
    {
        if self.selected_item_number > 0 {
            self.selected_item_number -= 1;
            self.update_viewer = true;
        }
    }

    /// Removes the last character of the filter's query.
    pub fn pop_char(&mut self)
        requires
            old(self).wf(),
        ensures
            final(self).wf(),
            final(self)@ == old(self)@.pop_char(),
    {
        self.search_string.pop();
        self.engine.pop_char();
    }

    /// Types `chr` into the filter.
    pub fn add_char(&mut self, chr: char)
        requires
            old(self).wf(),
        ensures
            final(self).wf(),
            final(self)@ == old(self)@.add_char(chr),
    {
        self.search_string.push(chr);
        self.engine.push_char(chr);
    }

    /// Asks the program to end.
    pub fn exit(&mut self)
        ensures
            final(self)@ == (AppView { exit: true, ..old(self)@ }),
            old(self).wf() ==> final(self).wf(),
    {
        self.exit = true;
    }

    /// Whether the program is to end.
    pub fn should_exit(&self) -> (exit: bool)
        ensures
            exit == self@.exit,
    {
        self.exit
    }

    /// The pane that has the keyboard.
    pub fn app_mode(&self) -> (mode: AppMode)
        ensures
            mode == self@.app_mode,
    {
        self.app_mode
    }

    /// The selected candidate, as of the last time the list was drawn.
    pub fn selected_item_name(&self) -> (name: &String)
        ensures
            name@ == self@.selected_item_name,
    {
        &self.selected_item_name
    }

    /// Whether the selection changed since the viewer was made.
    pub fn update_viewer(&self) -> (update: bool)
        ensures
            update == self@.update_viewer,
    {
        self.update_viewer
    }

    /// The text of the input line.
    pub fn input_text(&self) -> (text: &str)
        ensures
            text@ == self@.input_text(),
    {
        proof {
            reveal_strlit("");
            assert(""@ =~= Seq::<char>::empty());
        }
        match self.app_mode {
            AppMode::Right(ViewerMode::Search) => match &self.viewer {
                Some(viewer) => viewer.search_string().as_str(),
                None => "",
            },
            _ => self.search_string.as_str(),
        }
    }

    /// Makes the viewer of the selected file from its lines, `content`, where
    /// the selection changed since the last one was made; otherwise the viewer
    /// stays.
    pub fn set_viewer(&mut self, content: Vec<String>)
        requires
            old(self).wf(),
        ensures
            final(self).wf(),
            final(self)@ == if old(self)@.update_viewer {
                AppView {
                    viewer: Some(
                        ViewerView {
                            lines: content.deep_view(),
                            extension: extension_of(old(self)@.selected_item_name),
                            query: Seq::empty(),
                            matches: Seq::empty(),
                            cursor: 0,
                            offset: 0,
                        },
                    ),
                    update_viewer: false,
                    ..old(self)@
                }
            } else {
                old(self)@
            },
    {
        if self.update_viewer {
            self.viewer = Some(Viewer::new(self.selected_item_name.as_str(), content));
            self.update_viewer = false;
        }
    }

    /// The candidate list for an area of `height` rows, border included, and
    /// the selection brought in line with it. `None`, and nothing changed,
    /// where no candidate is to be shown.
    pub fn handle_list_area(&mut self, height: u16) -> (area: Option<ListArea>)
        requires
            old(self).wf(),
        ensures
            final(self).wf(),
            final(self)@ == old(self)@.select_among(old(self)@.engine.top(list_capacity(height))),
            match area {
                Some(list) => {
                    &&& old(self)@.engine.top(list_capacity(height)).len() > 0
                    &&& list.rows.deep_view() == list_rows(
                        old(self)@.engine.top(list_capacity(height)),
                        list_capacity(height) as int,
                    )
                    &&& list.selected_row == list_capacity(height) - 1
                        - final(self)@.selected_item_number
                },
                None => old(self)@.engine.top(list_capacity(height)).len() == 0,
            },
    {
        let h: usize = if height >= 2 {
            (height - 2) as usize
        } else {
            0
        };
        let mut items = self.engine.get_items(h);
        let ghost shown = items.deep_view();
        if items.len() == 0 {
            return None;
        }
        if self.selected_item_number >= items.len() {
            self.selected_item_number = items.len() - 1;
        }
        self.selected_item_name = items[self.selected_item_number].clone();
        let mut rows: Vec<String> = Vec::new();
        let mut blank: usize = items.len();
        while blank < h
            invariant
                items@.len() <= blank <= h,
                rows@.len() == blank - items@.len(),
                forall|i: int| 0 <= i < rows@.len() ==> (#[trigger] rows@[i])@ == Seq::<char>::empty(),
            decreases h - blank,
        {
            rows.push(String::new());
            blank = blank + 1;
        }
        while items.len() > 0
            invariant
                items@.len() <= shown.len() <= h,
                items.deep_view() == shown.take(items@.len() as int),
                rows@.len() == h - items@.len(),
                forall|i: int|
                    0 <= i < rows@.len() ==> (#[trigger] rows@[i])@ == list_rows(shown, h as int)[i],
            decreases items@.len(),
        {
            let ghost before = items.deep_view();
            let ghost count = items@.len();
            let item = items.pop().unwrap();
            proof {
                assert(before[count - 1] == item@);
                assert(items.deep_view() =~= shown.take(items@.len() as int));
            }
            rows.push(item);
        }
        proof {
            assert(rows.deep_view() =~= list_rows(shown, h as int));
        }
        Some(ListArea { rows, selected_row: h - 1 - self.selected_item_number })
    }

    /// The lines of the file pane for an area of `height` rows, and whether
    /// they carry terminal colour codes. Where there is no viewer, `None`, and
    /// one is asked for.
    pub fn handle_right_area(&mut self, highlighter: &Highlighter, height: usize) -> (area: Option<
        (Vec<String>, bool),
    >)
        requires
            old(self).wf(),
        ensures
            final(self).wf(),
            match old(self)@.viewer {
                Some(viewer) => {
                    &&& final(self)@ == old(self)@
                    &&& area matches Some(shown)
                    &&& shown.0@.len() == window(viewer.lines, viewer.offset, height as int).len()
                    &&& !shown.1 ==> shown.0.deep_view() == window(
                        viewer.lines,
                        viewer.offset,
                        height as int,
                    )
                },
                None => {
                    &&& final(self)@ == (AppView { update_viewer: true, ..old(self)@ })
                    &&& area is None
                },
            },
    {
        match &self.viewer {
            None => {
                self.update_viewer = true;
                None
            },
            Some(viewer) => {
                let start = viewer.display_start();
                Some(viewer.get_lines(highlighter, start, height))
            },
        }
    }
}

} // verus!
