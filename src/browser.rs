use vstd::prelude::*;
use crate::search::{lines_of, split_lines, texts};
use crate::tree::{lossy_text_of, Node, TreeEntry, build_tree, entries_view, height, walk};

verus! {

/// Where key presses go: to tree navigation, or to the search overlay.
#[derive(Debug, Clone, Copy, PartialEq, Eq, Structural)]
pub enum Mode {
    Navigation,
    SearchOverlay,
}

/// A move of the selection by one entry.
#[derive(Debug, Clone, Copy, PartialEq, Eq, Structural)]
pub enum Step {
    Next,
    Previous,
}

/// A key press, reduced to what the browser reacts to.
#[derive(Debug, Clone, Copy, PartialEq, Eq, Structural)]
pub enum Key {
    Char(char),
    Up,
    Down,
    Backspace,
    Enter,
    Esc,
    Other,
}

/// What the caller must do after a key press: the browser itself does no I/O.
#[derive(Debug, Clone, Copy, PartialEq, Eq, Structural)]
pub enum Action {
    Nothing,
    Quit,
    /// Read the selected file and hand the outcome to `load_selected_contents`.
    LoadSelected,
    /// Read the tree again and hand it to `toggle_hidden`.
    ToggleHidden,
}

/// Lines `offset .. offset + height` of `lines`, cut at its end.
pub open spec fn window(lines: Seq<Seq<char>>, offset: int, height: int) -> Seq<Seq<char>> {
    let lo = if offset < lines.len() { offset } else { lines.len() as int };
    let hi = if offset + height < lines.len() { offset + height } else { lines.len() as int };
    lines.subrange(lo, hi)
}

/// The search text after one key press in the overlay: a character is
/// appended, erase drops the last character, other keys leave it as it is.
pub open spec fn buffer_after(buf: Seq<char>, key: Key) -> Seq<char> {
    match key {
        Key::Char(c) => buf.push(c),
        Key::Backspace => if buf.len() > 0 {
            buf.drop_last()
        } else {
            buf
        },
        _ => buf,
    }
}

/// What is shown in place of a file that could not be read as text.
pub open spec fn placeholder() -> Seq<char> {
    "Unable to read file contents"@
}

/// The state of one browsing session.
pub struct App {
    pub entries: Vec<TreeEntry>,
    pub selected_index: usize,
    pub show_hidden: bool,
    pub loaded_contents: Option<String>,
    pub scroll_offset: u16,
    pub mode: Mode,
    pub search_buffer: String,
}

/// Two spaces for each level of depth.
pub open spec fn indent(depth: nat) -> Seq<char>
    decreases depth,
{
    if depth == 0 {
        seq![]
    } else {
        indent((depth - 1) as nat) + seq![' ', ' ']
    }
}

/// Relies on String::from_utf8_lossy: the result depends on the bytes alone.
#[verifier::external_body]
fn text_of_name(bytes: &Vec<u8>) -> (r: String)
    ensures
        r@ == lossy_text_of(bytes@),
{
    String::from_utf8_lossy(bytes).into_owned()
}

/// Relies on String::push_str: appends the whole of `t`.
#[verifier::external_body]
fn push_text(s: &mut String, t: &str)
    ensures
        final(s)@ == old(s)@ + t@,
{
    s.push_str(t)
}

/// Relies on String::push: appends the character at the end.
#[verifier::external_body]
fn push_char(s: &mut String, c: char)
    ensures
        final(s)@ == old(s)@.push(c),
{
    s.push(c)
}

/// Relies on String::pop: removes and returns the last character, and returns
/// `None` on an empty string.
#[verifier::external_body]
fn pop_char(s: &mut String) -> (r: Option<char>)
    ensures
        old(s)@.len() == 0 ==> r is None && final(s)@ == old(s)@,
        old(s)@.len() > 0 ==> r == Some(old(s)@.last()) && final(s)@ == old(s)@.drop_last(),
{
    s.pop()
}

impl App {
    /// The selection lies inside the entries (and is 0 when there are none).
    pub open spec fn wf(&self) -> bool {
        if self.entries@.len() == 0 {
            self.selected_index == 0
        } else {
            self.selected_index < self.entries@.len()
        }
    }

    /// A session on the given tree, hidden entries left out, first entry selected.
    pub fn new(tree: &Vec<Node>) -> (r: App)
        requires
            height(tree@) <= usize::MAX,
        ensures
            r.wf(),
            entries_view(r.entries@) == walk(tree@, 0, false),
            r.selected_index == 0,
            !r.show_hidden,
            r.loaded_contents is None,
            r.scroll_offset == 0,
            r.mode == Mode::Navigation,
            r.search_buffer@.len() == 0,
    {
        App {
            entries: build_tree(tree, false),
            selected_index: 0,
            show_hidden: false,
            loaded_contents: None,
            scroll_offset: 0,
            mode: Mode::Navigation,
            search_buffer: String::new(),
        }
    }

    /// Moves the selection one entry down or up. At either end, and on an
    /// empty tree, nothing changes; after a move the scroll offset is 0 and
    /// the caller loads the new selection's contents.
    pub fn move_selection(&mut self, step: Step) -> (moved: bool)
        requires
            old(self).wf(),
        ensures
            final(self).wf(),
            moved == match step {
                Step::Next => old(self).selected_index + 1 < old(self).entries@.len(),
                Step::Previous => old(self).selected_index > 0,
            },
            !moved ==> *final(self) == *old(self),
            moved ==> final(self).selected_index == match step {
                Step::Next => old(self).selected_index + 1,
                Step::Previous => old(self).selected_index - 1,
            },
            moved ==> final(self).scroll_offset == 0,
            final(self).entries == old(self).entries,
            final(self).show_hidden == old(self).show_hidden,
            final(self).loaded_contents == old(self).loaded_contents,
            final(self).mode == old(self).mode,
            final(self).search_buffer == old(self).search_buffer,
    {
        match step {
            Step::Next => {
                if self.entries.len() > 0 && self.selected_index < self.entries.len() - 1 {
                    self.selected_index = self.selected_index + 1;
                    self.scroll_offset = 0;
                    true
                } else {
                    false
                }
            },
            Step::Previous => {
                if self.selected_index > 0 {
                    self.selected_index = self.selected_index - 1;
                    self.scroll_offset = 0;
                    true
                } else {
                    false
                }
            },
        }
    }

    /// The path to read for the selected entry: `None` for a directory or an
    /// empty tree.
    pub fn selected_file(&self) -> (r: Option<String>)
        requires
            self.wf(),
        ensures
            self.selected_index < self.entries@.len() && !self.entries@[self.selected_index as int].is_directory
                ==> r == Some(self.entries@[self.selected_index as int].path),
            !(self.selected_index < self.entries@.len() && !self.entries@[self.selected_index as int].is_directory)
                ==> r is None,
    {
        if self.selected_index < self.entries.len() && !self.entries[self.selected_index].is_directory {
            Some(self.entries[self.selected_index].path.clone())
        } else {
            None
        }
    }

    /// Stores the contents for the selected entry, given the outcome of
    /// reading it as text: none for a directory, the text on success, and a
    /// fixed placeholder when the read failed. Does nothing on an empty tree.
    pub fn load_selected_contents(&mut self, read: Option<String>)
        requires
            old(self).wf(),
        ensures
            final(self).wf(),
            old(self).entries@.len() == 0 ==> *final(self) == *old(self),
            old(self).selected_index < old(self).entries@.len() ==> {
                let e = old(self).entries@[old(self).selected_index as int];
                if e.is_directory {
                    final(self).loaded_contents is None
                } else {
                    match read {
                        Some(text) => final(self).loaded_contents == Some(text),
                        None => final(self).loaded_contents matches Some(t) && t@ == placeholder(),
                    }
                }
            },
            final(self).entries == old(self).entries,
            final(self).selected_index == old(self).selected_index,
            final(self).show_hidden == old(self).show_hidden,
            final(self).scroll_offset == old(self).scroll_offset,
            final(self).mode == old(self).mode,
            final(self).search_buffer == old(self).search_buffer,
    {
        if self.selected_index < self.entries.len() {
            if self.entries[self.selected_index].is_directory {
                self.loaded_contents = None;
            } else {
                match read {
                    Some(text) => {
                        self.loaded_contents = Some(text);
                    },
                    None => {
                        self.loaded_contents = Some("Unable to read file contents".to_owned());
                    },
                }
            }
        }
    }

    /// Flips whether hidden entries are shown, rebuilds the entries from the
    /// tree as read again, and selects the first entry.
    pub fn toggle_hidden(&mut self, tree: &Vec<Node>)
        requires
            height(tree@) <= usize::MAX,
        ensures
            final(self).wf(),
            final(self).show_hidden == !old(self).show_hidden,
            entries_view(final(self).entries@) == walk(tree@, 0, final(self).show_hidden),
            final(self).selected_index == 0,
            final(self).loaded_contents == old(self).loaded_contents,
            final(self).scroll_offset == old(self).scroll_offset,
            final(self).mode == old(self).mode,
            final(self).search_buffer == old(self).search_buffer,
    {
        self.show_hidden = !self.show_hidden;
        self.entries = build_tree(tree, self.show_hidden);
        self.selected_index = 0;
    }

    pub fn open_overlay(&mut self)
        ensures
            *final(self) == (App { mode: Mode::SearchOverlay, ..*old(self) }),
    {
        self.mode = Mode::SearchOverlay;
    }

    pub fn close_overlay(&mut self)
        ensures
            *final(self) == (App { mode: Mode::Navigation, ..*old(self) }),
    {
        self.mode = Mode::Navigation;
    }

    /// Edits the search text: a character is appended, erase removes the last
    /// one, cancel closes the overlay; confirm is accepted and does nothing.
    pub fn overlay_input(&mut self, key: Key)
        ensures
            final(self).entries == old(self).entries,
            final(self).selected_index == old(self).selected_index,
            final(self).show_hidden == old(self).show_hidden,
            final(self).loaded_contents == old(self).loaded_contents,
            final(self).scroll_offset == old(self).scroll_offset,
            final(self).search_buffer@ == buffer_after(old(self).search_buffer@, key),
            final(self).mode == match key {
                Key::Esc => Mode::Navigation,
                _ => old(self).mode,
            },
    {
        match key {
            Key::Char(c) => push_char(&mut self.search_buffer, c),
            Key::Backspace => {
                let _ = pop_char(&mut self.search_buffer);
            },
            Key::Esc => self.close_overlay(),
            _ => {},
        }
    }

    /// Handles one key press. In navigation mode: `q` quits, down or `j`
    /// and up or `k` move the selection, `h` asks for the hidden-entry
    /// toggle, confirm opens the overlay. In the overlay, keys edit the search.
    pub fn dispatch(&mut self, key: Key) -> (a: Action)
        requires
            old(self).wf(),
        ensures
            final(self).wf(),
            old(self).mode == Mode::SearchOverlay ==> {
                &&& a == Action::Nothing
                &&& final(self).search_buffer@ == buffer_after(old(self).search_buffer@, key)
                &&& final(self).mode == match key {
                    Key::Esc => Mode::Navigation,
                    _ => Mode::SearchOverlay,
                }
                &&& final(self).selected_index == old(self).selected_index
                &&& final(self).loaded_contents == old(self).loaded_contents
                &&& final(self).scroll_offset == old(self).scroll_offset
            },
            old(self).mode == Mode::Navigation ==> match key {
                Key::Char('q') => a == Action::Quit && *final(self) == *old(self),
                Key::Char('h') => a == Action::ToggleHidden && *final(self) == *old(self),
                Key::Enter => a == Action::Nothing && *final(self) == (App { mode: Mode::SearchOverlay, ..*old(self) }),
                Key::Down | Key::Char('j') => if old(self).selected_index + 1 < old(self).entries@.len() {
                    &&& a == Action::LoadSelected
                    &&& final(self).selected_index == old(self).selected_index + 1
                    &&& final(self).scroll_offset == 0
                    &&& final(self).mode == Mode::Navigation
                    &&& final(self).search_buffer == old(self).search_buffer
                    &&& final(self).loaded_contents == old(self).loaded_contents
                } else {
                    a == Action::Nothing && *final(self) == *old(self)
                },
                Key::Up | Key::Char('k') => if old(self).selected_index > 0 {
                    &&& a == Action::LoadSelected
                    &&& final(self).selected_index == old(self).selected_index - 1
                    &&& final(self).scroll_offset == 0
                    &&& final(self).mode == Mode::Navigation
                    &&& final(self).search_buffer == old(self).search_buffer
                    &&& final(self).loaded_contents == old(self).loaded_contents
                } else {
                    a == Action::Nothing && *final(self) == *old(self)
                },
                _ => a == Action::Nothing && *final(self) == *old(self),
            },
            final(self).entries == old(self).entries,
            final(self).show_hidden == old(self).show_hidden,
    {
        match self.mode {
            Mode::SearchOverlay => {
                self.overlay_input(key);
                Action::Nothing
            },
            Mode::Navigation => {
                match key {
                    Key::Char('q') => Action::Quit,
                    Key::Char('h') => Action::ToggleHidden,
                    Key::Enter => {
                        self.open_overlay();
                        Action::Nothing
                    },
                    Key::Down | Key::Char('j') => {
                        if self.move_selection(Step::Next) { Action::LoadSelected } else { Action::Nothing }
                    },
                    Key::Up | Key::Char('k') => {
                        if self.move_selection(Step::Previous) { Action::LoadSelected } else { Action::Nothing }
                    },
                    _ => Action::Nothing,
                }
            },
        }
    }

    /// Width of each pane in percent of the screen: tree and contents 40:60,
    /// or tree, contents and search overlay 33:33:34.
    pub fn pane_percentages(&self) -> (r: Vec<u16>)
        ensures
            r@ == match self.mode {
                Mode::Navigation => seq![40u16, 60u16],
                Mode::SearchOverlay => seq![33u16, 33u16, 34u16],
            },
    {
        match self.mode {
            Mode::Navigation => {
                let r: Vec<u16> = vec![40, 60];
                assert(r@ =~= seq![40u16, 60u16]);
                r
            },
            Mode::SearchOverlay => {
                let r: Vec<u16> = vec![33, 33, 34];
                assert(r@ =~= seq![33u16, 33u16, 34u16]);
                r
            },
        }
    }

    /// The lines of the loaded contents that a pane of `height` lines shows,
    /// starting at the scroll offset; none when nothing is loaded.
    pub fn visible_lines(&self, height: usize) -> (r: Vec<String>)
        ensures
            match self.loaded_contents {
                Some(text) => texts(r@) == window(lines_of(text@), self.scroll_offset as int, height as int),
                None => r@.len() == 0,
            },
    {
        let mut r: Vec<String> = Vec::new();
        match &self.loaded_contents {
            None => r,
            Some(text) => {
                let lines = split_lines(text.as_str());
                let offset = self.scroll_offset as usize;
                let lo: usize = if offset < lines.len() { offset } else { lines.len() };
                let hi: usize = if height < lines.len() - lo { lo + height } else { lines.len() };
                let ghost all = texts(lines@);
                let mut i: usize = lo;
                while i < hi
                    invariant
                        lo <= i <= hi <= lines@.len(),
                        all == texts(lines@),
                        texts(r@) == all.subrange(lo as int, i as int),
                    decreases hi - i,
                {
                    let ghost before = texts(r@);
                    assert(all[i as int] == lines@[i as int]@);
                    let line = lines[i].clone();
                    assert(line@ == all[i as int]);
                    r.push(line);
                    assert(texts(r@) =~= before.push(all[i as int]));
                    assert(texts(r@) =~= all.subrange(lo as int, i + 1));
                    i = i + 1;
                }
                assert(window(all, offset as int, height as int) =~= all.subrange(lo as int, hi as int));
                r
            },
        }
    }

    /// The text of row `i` of the tree pane: two spaces per level of depth,
    /// then the entry's name.
    pub fn tree_row(&self, i: usize) -> (r: String)
        requires
            i < self.entries@.len(),
        ensures
            r@ == indent(self.entries@[i as int].depth as nat) + lossy_text_of(self.entries@[i as int].name@),
    {
        let depth = self.entries[i].depth;
        let mut r = String::new();
        let mut k: usize = 0;
        while k < depth
            invariant
                0 <= k <= depth,
                r@ == indent(k as nat),
            decreases depth - k,
        {
            push_char(&mut r, ' ');
            push_char(&mut r, ' ');
            k = k + 1;
            assert(r@ =~= indent(k as nat));
        }
        let name = text_of_name(&self.entries[i].name);
        push_text(&mut r, name.as_str());
        r
    }

    /// Whether row `i` of the tree pane is the selected one.
    pub fn is_highlighted(&self, i: usize) -> (r: bool)
        ensures
            r == (i == self.selected_index),
    {
        i == self.selected_index
    }
}

} // verus!
