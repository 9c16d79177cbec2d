//! Session controller: owns the corpus, the ranked view, the query text and
//! edit cursor, and the interaction mode, and steps them by one input event
//! or one timer tick at a time.

use vstd::prelude::*;

verus! {

use crate::rank::rank;
use crate::rank::ranked_view;
use crate::select::StatefulList;
use crate::select::advance;
use crate::select::retreat;

/// The two interaction modes: browsing the list, or editing the query.
#[derive(Clone, Copy, PartialEq, Eq, Structural, Debug)]
pub enum InputMode {
    Normal,
    Editing,
}

/// A decoded input event, by its logical meaning; how keys and mouse
/// regions map to these is the input source's concern.
#[derive(Clone, Copy, PartialEq, Eq, Structural, Debug)]
pub enum AppEvent {
    Char(char),
    Enter,
    Backspace,
    Esc,
    Up,
    Down,
    Left,
    Right,
    ClickInput,
    ClickList,
    ScrollUp,
    ScrollDown,
}

/// What the control loop must do after one event.
pub enum Step {
    Continue,
    Quit,
    Confirmed(String),
}

/// Mathematical image of a `Step`.
pub enum StepSpec {
    Continue,
    Quit,
    Confirmed(Seq<char>),
}

impl View for Step {
    type V = StepSpec;

    open spec fn view(&self) -> StepSpec {
        match self {
            Step::Continue => StepSpec::Continue,
            Step::Quit => StepSpec::Quit,
            Step::Confirmed(s) => StepSpec::Confirmed(s@),
        }
    }
}

/// Mathematical image of the whole session state.
#[verifier::ext_equal]
pub struct AppView {
    pub full_history: Seq<Seq<char>>,
    pub items: Seq<Seq<char>>,
    pub cursor: int,
    pub input: Seq<char>,
    pub input_pos: int,
    pub input_prev: Seq<char>,
    pub input_mode: InputMode,
}

/// The state a fresh session starts in: the full corpus shown unfiltered,
/// the first entry selected, an empty query, browsing mode.
pub open spec fn init_view(h: Seq<Seq<char>>) -> AppView {
    AppView {
        full_history: h,
        items: h,
        cursor: 0,
        input: Seq::empty(),
        input_pos: 0,
        input_prev: Seq::empty(),
        input_mode: InputMode::Normal,
    }
}

/// Entering editing mode clears the query and its cursor.
pub open spec fn start_editing(v: AppView) -> AppView {
    AppView { input: Seq::empty(), input_pos: 0, input_mode: InputMode::Editing, ..v }
}

/// Cancelling the filter clears the query, resets the view to the full
/// corpus and returns to browsing.
pub open spec fn cancel_editing(v: AppView) -> AppView {
    AppView {
        input: Seq::empty(),
        input_pos: 0,
        items: v.full_history,
        cursor: 0,
        input_mode: InputMode::Normal,
        ..v
    }
}

/// The entry under the cursor; the empty string when the view is empty.
pub open spec fn selected_text(v: AppView) -> Seq<char> {
    if v.items.len() > 0 && 0 <= v.cursor < v.items.len() {
        v.items[v.cursor]
    } else {
        Seq::empty()
    }
}

/// The session state after one event. Ranking is never done here: a query
/// change only takes effect on the next tick.
pub open spec fn step_state(v: AppView, ev: AppEvent) -> AppView {
    match v.input_mode {
        InputMode::Normal => match ev {
            AppEvent::Char(c) => if c == '/' {
                start_editing(v)
            } else {
                v
            },
            AppEvent::ClickInput => start_editing(v),
            AppEvent::Down | AppEvent::ScrollDown => AppView {
                cursor: advance(v.cursor, v.items.len() as int),
                ..v
            },
            AppEvent::Up | AppEvent::ScrollUp => AppView {
                cursor: retreat(v.cursor, v.items.len() as int),
                ..v
            },
            _ => v,
        },
        InputMode::Editing => match ev {
            AppEvent::Enter | AppEvent::ClickList => AppView {
                input_mode: InputMode::Normal,
                ..v
            },
            AppEvent::Down => AppView {
                input_mode: InputMode::Normal,
                cursor: advance(v.cursor, v.items.len() as int),
                ..v
            },
            AppEvent::Up => AppView {
                input_mode: InputMode::Normal,
                cursor: retreat(v.cursor, v.items.len() as int),
                ..v
            },
            AppEvent::Left => AppView {
                input_pos: if v.input_pos > 0 {
                    v.input_pos - 1
                } else {
                    0
                },
                ..v
            },
            AppEvent::Right => AppView {
                input_pos: if v.input_pos + 1 <= v.input.len() {
                    v.input_pos + 1
                } else {
                    v.input.len() as int
                },
                ..v
            },
            AppEvent::Char(c) => if 0 <= v.input_pos <= v.input.len() {
                AppView { input: v.input.insert(v.input_pos, c), input_pos: v.input_pos + 1, ..v }
            } else {
                v
            },
            AppEvent::Backspace => if 0 < v.input_pos <= v.input.len() {
                AppView { input: v.input.remove(v.input_pos - 1), input_pos: v.input_pos - 1, ..v }
            } else {
                v
            },
            AppEvent::Esc => cancel_editing(v),
            _ => v,
        },
    }
}

/// What the control loop is told after one event: quit without a selection,
/// confirm the selected entry, or carry on.
pub open spec fn step_out(v: AppView, ev: AppEvent) -> StepSpec {
    match v.input_mode {
        InputMode::Normal => match ev {
            AppEvent::Char(c) => if c == 'q' {
                StepSpec::Quit
            } else {
                StepSpec::Continue
            },
            AppEvent::Enter => StepSpec::Confirmed(selected_text(v)),
            _ => StepSpec::Continue,
        },
        InputMode::Editing => StepSpec::Continue,
    }
}

/// The session state after one timer tick: while editing, if the query text
/// changed since the last tick the corpus is re-ranked against it and the
/// cursor reset; the observed text is remembered either way.
pub open spec fn tick_view(v: AppView) -> AppView {
    match v.input_mode {
        InputMode::Editing => {
            let nv = if v.input != v.input_prev {
                AppView { items: ranked_view(v.full_history, v.input), cursor: 0, ..v }
            } else {
                v
            };
            AppView { input_prev: v.input, ..nv }
        },
        InputMode::Normal => v,
    }
}

/// Cancelling while editing resets the filter: browsing mode, an empty
/// query, and the full corpus as the view, whatever was typed before.
pub proof fn lemma_cancel_resets(v: AppView)
    requires
        v.input_mode is Editing,
    ensures
        step_state(v, AppEvent::Esc).input_mode is Normal,
        step_state(v, AppEvent::Esc).input =~= Seq::<char>::empty(),
        step_state(v, AppEvent::Esc).items == v.full_history,
        step_state(v, AppEvent::Esc).cursor == 0,
{
}

/// The session state: the immutable corpus, the current ranked view with
/// its selection cursor, the query with its edit cursor, the query text as
/// of the last tick, and the interaction mode.
pub struct App {
    full_history: Vec<String>,
    items: StatefulList<String>,
    input: Vec<char>,
    input_pos: usize,
    input_prev: Vec<char>,
    input_mode: InputMode,
}

impl View for App {
    type V = AppView;

    closed spec fn view(&self) -> AppView {
        AppView {
            full_history: self.full_history.deep_view(),
            items: self.items@.0.map_values(|s: String| s@),
            cursor: self.items@.1,
            input: self.input@,
            input_pos: self.input_pos as int,
            input_prev: self.input_prev@,
            input_mode: self.input_mode,
        }
    }
}

/// True when the two character vectors hold the same characters.
fn chars_eq(a: &Vec<char>, b: &Vec<char>) -> (r: bool)
    ensures
        r == (a@ == b@),
{
    if a.len() != b.len() {
        return false;
    }
    let mut i: usize = 0;
    while i < a.len()
        invariant
            i <= a@.len(),
            a@.len() == b@.len(),
            forall|k: int| 0 <= k < i ==> a@[k] == b@[k],
        decreases a@.len() - i,
    {
        if a[i] != b[i] {
            return false;
        }
        i += 1;
    }
    assert(a@ =~= b@);
    true
}

/// Relies on `String: FromIterator<char>`: collecting characters yields the
/// string of exactly those characters.
#[verifier::external_body]
fn chars_to_string(chars: &Vec<char>) -> (r: String)
    ensures
        r@ == chars@,
{
    chars.iter().collect()
}

impl App {
    /// The edit cursor never leaves the query text.
    #[verifier::type_invariant]
    spec fn wf(self) -> bool {
        self.input_pos <= self.input@.len()
    }

    /// A fresh session over a corpus: the corpus shown unfiltered, the first
    /// entry selected, an empty query, browsing mode.
    pub fn new(history: Vec<String>) -> (r: App)
        ensures
            r@ == init_view(history.deep_view()),
    {
        let full = history.clone();
        proof {
            assert forall|k: int| 0 <= k < history@.len() implies full.deep_view()[k]
                == history.deep_view()[k] by {
                assert(cloned::<String>(history@[k], full@[k]));
            }
            assert(full.deep_view() =~= history.deep_view());
        }
        let items = StatefulList::with_items(history);
        let r = App {
            full_history: full,
            items,
            input: Vec::new(),
            input_pos: 0,
            input_prev: Vec::new(),
            input_mode: InputMode::Normal,
        };
        proof {
            assert(r@.items =~= r@.full_history);
            assert(r@ =~= init_view(history.deep_view()));
        }
        r
    }

    /// Steps the session by one input event.
    pub fn handle_event(&mut self, ev: AppEvent) -> (r: Step)
        ensures
            final(self)@ == step_state(old(self)@, ev),
            r@ == step_out(old(self)@, ev),
    {
        proof {
            use_type_invariant(&*self);
        }
        let ghost v = self@;
        match self.input_mode {
            InputMode::Normal => {
                match ev {
                    AppEvent::Char(c) => {
                        if c == '/' {
                            self.input_pos = 0;
                            self.input = Vec::new();
                            self.input_mode = InputMode::Editing;
                            assert(self@ =~= step_state(v, ev));
                            Step::Continue
                        } else if c == 'q' {
                            assert(self@ =~= step_state(v, ev));
                            Step::Quit
                        } else {
                            assert(self@ =~= step_state(v, ev));
                            Step::Continue
                        }
                    },
                    AppEvent::ClickInput => {
                        self.input_pos = 0;
                        self.input = Vec::new();
                        self.input_mode = InputMode::Editing;
                        assert(self@ =~= step_state(v, ev));
                        Step::Continue
                    },
                    AppEvent::Down | AppEvent::ScrollDown => {
                        self.items.next();
                        assert(self@ =~= step_state(v, ev));
                        Step::Continue
                    },
                    AppEvent::Up | AppEvent::ScrollUp => {
                        self.items.previous();
                        assert(self@ =~= step_state(v, ev));
                        Step::Continue
                    },
                    AppEvent::Enter => {
                        assert(self@ =~= step_state(v, ev));
                        let val = match self.items.selected() {
                            Some(s) => s.clone(),
                            None => String::new(),
                        };
                        assert(val@ == selected_text(v));
                        Step::Confirmed(val)
                    },
                    _ => {
                        assert(self@ =~= step_state(v, ev));
                        Step::Continue
                    },
                }
            },
            InputMode::Editing => {
                match ev {
                    AppEvent::Enter | AppEvent::ClickList => {
                        self.input_mode = InputMode::Normal;
                        assert(self@ =~= step_state(v, ev));
                    },
                    AppEvent::Down => {
                        self.input_mode = InputMode::Normal;
                        self.items.next();
                        assert(self@ =~= step_state(v, ev));
                    },
                    AppEvent::Up => {
                        self.input_mode = InputMode::Normal;
                        self.items.previous();
                        assert(self@ =~= step_state(v, ev));
                    },
                    AppEvent::Left => {
                        if self.input_pos > 0 {
                            self.input_pos = self.input_pos - 1;
                        }
                        assert(self@ =~= step_state(v, ev));
                    },
                    AppEvent::Right => {
                        if self.input_pos < self.input.len() {
                            self.input_pos = self.input_pos + 1;
                        }
                        assert(self@ =~= step_state(v, ev));
                    },
                    AppEvent::Char(c) => {
                        let p = self.input_pos;
                        self.input_pos = 0;
                        let mut text: Vec<char> = Vec::new();
                        core::mem::swap(&mut text, &mut self.input);
                        text.insert(p, c);
                        core::mem::swap(&mut text, &mut self.input);
                        let n = self.input.len();
                        assert(p < n);
                        self.input_pos = p + 1;
                        assert(self@ =~= step_state(v, ev));
                    },
                    AppEvent::Backspace => {
                        if self.input_pos > 0 {
                            let p = self.input_pos - 1;
                            self.input_pos = 0;
                            let mut text: Vec<char> = Vec::new();
                            core::mem::swap(&mut text, &mut self.input);
                            text.remove(p);
                            core::mem::swap(&mut text, &mut self.input);
                            self.input_pos = p;
                            assert(self@ =~= step_state(v, ev));
                        } else {
                            assert(self@ =~= step_state(v, ev));
                        }
                    },
                    AppEvent::Esc => {
                        self.input_pos = 0;
                        self.input = Vec::new();
                        let full = self.full_history.clone();
                        proof {
                            assert forall|k: int| 0 <= k < self.full_history@.len() implies full@[k]@
                                == self.full_history.deep_view()[k] by {
                                assert(cloned::<String>(self.full_history@[k], full@[k]));
                            }
                        }
                        self.items = StatefulList::with_items(full);
                        self.input_mode = InputMode::Normal;
                        assert(self@.items =~= v.full_history);
                        assert(self@ =~= step_state(v, ev));
                    },
                    _ => {
                        assert(self@ =~= step_state(v, ev));
                    },
                }
                Step::Continue
            },
        }
    }

    /// Steps the session by one timer tick: re-ranks when and only when the
    /// query text changed since the last tick.
    pub fn on_tick(&mut self)
        ensures
            final(self)@ == tick_view(old(self)@),
    {
        proof {
            use_type_invariant(&*self);
        }
        let ghost v = self@;
        match self.input_mode {
            InputMode::Editing => {
                if !chars_eq(&self.input_prev, &self.input) {
                    let query = chars_to_string(&self.input);
                    let ranked = rank(&self.full_history, &query);
                    proof {
                        assert(ranked.deep_view() == ranked_view(v.full_history, v.input));
                    }
                    self.items = StatefulList::with_items(ranked);
                    proof {
                        assert(self@.items =~= ranked_view(v.full_history, v.input));
                    }
                }
                let prev = self.input.clone();
                proof {
                    assert forall|k: int| 0 <= k < self.input@.len() implies prev@[k]
                        == self.input@[k] by {
                        assert(cloned::<char>(self.input@[k], prev@[k]));
                    }
                    assert(prev@ =~= self.input@);
                }
                self.input_prev = prev;
                assert(self@ =~= tick_view(v));
            },
            InputMode::Normal => {
                assert(self@ =~= tick_view(v));
            },
        }
    }

    /// The current interaction mode.
    pub fn mode(&self) -> (m: InputMode)
        ensures
            m == self@.input_mode,
    {
        self.input_mode
    }

    /// The query text being edited.
    pub fn query(&self) -> (r: &Vec<char>)
        ensures
            r@ == self@.input,
    {
        &self.input
    }

    /// The edit cursor, a character offset into the query.
    pub fn query_pos(&self) -> (r: usize)
        ensures
            r as int == self@.input_pos,
            r as int <= self@.input.len(),
    {
        proof {
            use_type_invariant(&*self);
        }
        self.input_pos
    }

    /// The entries of the current ranked view, in display order.
    pub fn results(&self) -> (r: &Vec<String>)
        ensures
            r.deep_view() == self@.items,
    {
        let r = self.items.items();
        proof {
            assert(r.deep_view() =~= self@.items);
        }
        r
    }

    /// The selection cursor into the ranked view.
    pub fn cursor(&self) -> (r: usize)
        ensures
            r as int == self@.cursor,
            self@.items.len() == 0 ==> r == 0,
            self@.items.len() > 0 ==> (r as int) < self@.items.len(),
    {
        self.items.selected_index()
    }
}

} // verus!
