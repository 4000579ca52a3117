//! The interactive viewer's control logic.
//!
//! The terminal loop itself (drawing, raw mode, reading key events) lives
//! outside the library; what is verified here is the state machine it drives:
//! browsing, lexical search and semantic search as explicit state, and one
//! transition function from a key event to the next state and the action the
//! host must perform. The host owns the filtered list; it reports the list's
//! length back after every refilter so the selection can be kept in range.

use vstd::prelude::*;

verus! {

/// A key event the viewer reacts to.
pub enum Key {
    /// A printable character.
    Char(char),
    /// Cursor up.
    Up,
    /// Cursor down.
    Down,
    /// Delete one character of the search term.
    Backspace,
    /// Leave search mode.
    Esc,
}

/// What the host must do after a transition.
#[derive(Clone, Copy, Debug, PartialEq, Eq)]
pub enum Action {
    /// Redraw only.
    Redraw,
    /// Leave the viewer.
    Quit,
    /// Recompute the filtered list from the current term and mode, then
    /// report its length back through `filtered_changed`.
    Refilter,
    /// Show all notes again (the term is empty), then report the length
    /// back through `filtered_changed`.
    ResetFilter,
    /// Delete the note at this position of the filtered list, reload, then
    /// report the new length back through `filtered_changed`.
    Delete(usize),
}

/// The viewer's own state: search mode, term, and selection.
pub struct ViewerState {
    /// Whether a search term is being edited.
    pub searching: bool,
    /// Whether the search is semantic rather than lexical.
    pub semantic: bool,
    /// The search term typed so far.
    pub term: Vec<char>,
    /// Position selected in the filtered list, when one is selected.
    pub selected: usize,
    /// Whether any position is selected; false exactly on an empty list.
    pub has_selection: bool,
    /// Length of the filtered list the host last reported.
    pub filtered_len: usize,
}

/// The selection is in range whenever one exists.
pub open spec fn viewer_wf(s: ViewerState) -> bool {
    &&& s.has_selection ==> s.selected < s.filtered_len
    &&& !s.has_selection ==> s.filtered_len == 0
}

impl ViewerState {
    /// The state the viewer starts in: browsing an unfiltered list of
    /// `len` notes, the first one selected when there is one.
    pub fn start(len: usize) -> (s: ViewerState)
        ensures
            viewer_wf(s),
            !s.searching,
            !s.semantic,
            s.term@ == Seq::<char>::empty(),
            s.filtered_len == len,
            s.has_selection == (len > 0),
            len > 0 ==> s.selected == 0,
    {
        ViewerState {
            searching: false,
            semantic: false,
            term: Vec::new(),
            selected: 0,
            has_selection: len > 0,
            filtered_len: len,
        }
    }

    /// The host reports the filtered list's new length; the selection is
    /// reset to the top, as after every refilter.
    pub fn filtered_changed(&mut self, len: usize)
        ensures
            viewer_wf(*final(self)),
            final(self).filtered_len == len,
            final(self).has_selection == (len > 0),
            len > 0 ==> final(self).selected == 0,
            final(self).searching == old(self).searching,
            final(self).semantic == old(self).semantic,
            final(self).term@ == old(self).term@,
    {
        self.filtered_len = len;
        self.has_selection = len > 0;
        self.selected = 0;
    }

    /// After a deletion the host reports the new length; the selection
    /// stays where it was, clamped to the shorter list.
    pub fn deleted(&mut self, len: usize)
        requires
            viewer_wf(*old(self)),
        ensures
            viewer_wf(*final(self)),
            final(self).filtered_len == len,
            final(self).has_selection == (len > 0),
            len > 0 ==> final(self).selected == (if old(self).selected < len {
                old(self).selected
            } else {
                (len - 1) as usize
            }),
            final(self).searching == old(self).searching,
            final(self).semantic == old(self).semantic,
            final(self).term@ == old(self).term@,
    {
        self.filtered_len = len;
        self.has_selection = len > 0;
        if self.selected >= len && len > 0 {
            self.selected = len - 1;
        }
    }

    /// One step of the viewer: the next state and the host's action.
    ///
    /// Browsing: `q` quits, `s` toggles between lexical and semantic
    /// search, `/` starts editing a term, `d` asks for the selected note's
    /// deletion, the arrows move the selection within the filtered list.
    /// Searching: characters extend the term, backspace shortens it, each
    /// asking for a refilter; escape clears the term and shows everything.
    pub fn step(&mut self, key: Key) -> (a: Action)
        requires
            viewer_wf(*old(self)),
        ensures
            viewer_wf(*final(self)),
            final(self).filtered_len == old(self).filtered_len,
            final(self).has_selection == old(self).has_selection,
            (match key {
                Key::Char(c) => {
                    if c == 'q' {
                        a == Action::Quit && *final(self) == *old(self)
                    } else if c == '/' {
                        &&& final(self).searching
                        &&& final(self).term@ == Seq::<char>::empty()
                        &&& a == Action::ResetFilter
                    } else if c == 's' && !old(self).searching {
                        &&& final(self).semantic == !old(self).semantic
                        &&& final(self).term@ == old(self).term@
                        &&& a == Action::Redraw
                    } else if old(self).searching {
                        &&& final(self).term@ == old(self).term@.push(c)
                        &&& final(self).searching
                        &&& a == Action::Refilter
                    } else if c == 'd' {
                        if old(self).has_selection {
                            a == Action::Delete(old(self).selected) && *final(self) == *old(self)
                        } else {
                            a == Action::Redraw && *final(self) == *old(self)
                        }
                    } else {
                        a == Action::Redraw && *final(self) == *old(self)
                    }
                },
                Key::Up => {
                    &&& a == Action::Redraw
                    &&& final(self).term@ == old(self).term@
                    &&& final(self).selected == (if old(self).has_selection && old(self).selected
                        > 0 {
                        (old(self).selected - 1) as usize
                    } else {
                        old(self).selected
                    })
                },
                Key::Down => {
                    &&& a == Action::Redraw
                    &&& final(self).term@ == old(self).term@
                    &&& final(self).selected == (if old(self).has_selection && old(self).selected
                        + 1 < old(self).filtered_len {
                        (old(self).selected + 1) as usize
                    } else {
                        old(self).selected
                    })
                },
                Key::Backspace => {
                    if old(self).searching {
                        &&& final(self).term@ == (if old(self).term@.len() > 0 {
                            old(self).term@.drop_last()
                        } else {
                            old(self).term@
                        })
                        &&& a == Action::Refilter
                    } else {
                        a == Action::Redraw && *final(self) == *old(self)
                    }
                },
                Key::Esc => {
                    &&& !final(self).searching
                    &&& final(self).term@ == Seq::<char>::empty()
                    &&& a == Action::ResetFilter
                },
            }),
    {
        match key {
            Key::Char(c) => {
                if c == 'q' {
                    Action::Quit
                } else if c == '/' {
                    self.searching = true;
                    self.term = Vec::new();
                    Action::ResetFilter
                } else if c == 's' && !self.searching {
                    self.semantic = !self.semantic;
                    Action::Redraw
                } else if self.searching {
                    self.term.push(c);
                    Action::Refilter
                } else if c == 'd' {
                    if self.has_selection {
                        Action::Delete(self.selected)
                    } else {
                        Action::Redraw
                    }
                } else {
                    Action::Redraw
                }
            },
            Key::Up => {
                if self.has_selection && self.selected > 0 {
                    self.selected = self.selected - 1;
                }
                Action::Redraw
            },
            Key::Down => {
                if self.has_selection && self.selected + 1 < self.filtered_len {
                    self.selected = self.selected + 1;
                }
                Action::Redraw
            },
            Key::Backspace => {
                if self.searching {
                    if self.term.len() > 0 {
                        self.term.pop();
                    }
                    Action::Refilter
                } else {
                    Action::Redraw
                }
            },
            Key::Esc => {
                self.searching = false;
                self.term = Vec::new();
                Action::ResetFilter
            },
        }
    }
}

} // verus!
