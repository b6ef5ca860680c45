//! The input loop as a state machine. A session starts, takes the terminal's
//! events one at a time, and says after each what is to be done: draw a
//! frame, or write out the buffer and stop. Whoever owns the terminal reads
//! the events and carries the actions out.

use vstd::prelude::*;
use vstd::slice::slice_to_vec;
use crate::fragment::{views, Fragment, FragmentView};
use crate::layout::{laid_out, layout, Frame, FrameView};
use crate::overlap::shared_len;
use crate::rank::{lemma_ranked_keeps_fragments, lemma_ranked_overlaps, rank, ranked, unscored};

verus! {

/// Where a session stands.
#[derive(Clone, Copy, Debug, PartialEq, Eq, Structural)]
pub enum Phase {
    /// Not started yet: no terminal, no fragments.
    Init,
    /// Taking events.
    Running,
    /// Interrupted: the buffer has been handed out, nothing more happens.
    Terminated,
}

/// A key of the keyboard, as far as a session tells keys apart.
#[derive(Clone, Copy, Debug, PartialEq, Eq, Structural)]
pub enum Key {
    /// A key that stands for a character.
    Char(char),
    /// The key that takes the last character back.
    Backspace,
    /// Any other key.
    Other,
}

/// The modifier keys held down with a key.
#[derive(Clone, Copy, Debug, PartialEq, Eq, Structural)]
pub struct Modifiers {
    pub shift: bool,
    pub control: bool,
    pub alt: bool,
}

/// What the terminal reports.
#[derive(Clone, Copy, Debug, PartialEq, Eq, Structural)]
pub enum Event {
    /// A key was pressed.
    Key { key: Key, modifiers: Modifiers },
    /// The terminal now has this many columns and rows.
    Resize { cols: u16, rows: u16 },
    /// The pointer did something.
    Pointer,
}

/// What is to be done after an event.
#[derive(Debug)]
pub enum Action {
    /// Clear the screen and draw this frame.
    Redraw(Frame),
    /// Give the terminal back, then write these characters out.
    Emit(Vec<char>),
    /// Nothing: the session is not running.
    Nothing,
}

/// What an action stands for.
pub ghost enum ActionView {
    Redraw(FrameView),
    Emit(Seq<char>),
    Nothing,
}

impl View for Action {
    type V = ActionView;

    open spec fn view(&self) -> ActionView {
        match *self {
            Action::Redraw(frame) => ActionView::Redraw(frame@),
            Action::Emit(text) => ActionView::Emit(text@),
            Action::Nothing => ActionView::Nothing,
        }
    }
}

/// What a session stands for.
pub ghost struct SessionView {
    pub phase: Phase,
    pub buffer: Seq<char>,
    pub cols: int,
    pub rows: int,
    pub fragments: Seq<FragmentView>,
}

/// A session: the edit buffer, the terminal's size and the fragments, which
/// are ranked anew after every event.
#[derive(Debug)]
pub struct Session {
    phase: Phase,
    buffer: Vec<char>,
    cols: u16,
    rows: u16,
    fragments: Vec<Fragment>,
}

impl View for Session {
    type V = SessionView;

    closed spec fn view(&self) -> SessionView {
        SessionView {
            phase: self.phase,
            buffer: self.buffer@,
            cols: self.cols as int,
            rows: self.rows as int,
            fragments: views(self.fragments@),
        }
    }
}

/// The event is the interrupt: the character key `c` with the control key,
/// and no other modifier, held down.
pub open spec fn interrupts(event: Event) -> bool {
    event matches Event::Key { key: Key::Char(c), modifiers } && c == 'c' && modifiers.control
        && !modifiers.shift && !modifiers.alt
}

/// The buffer after an event: a character key adds its character at the
/// end, backspace takes the last character away if there is one, and
/// nothing else changes the buffer.
pub open spec fn edited(buffer: Seq<char>, event: Event) -> Seq<char> {
    match event {
        Event::Key { key: Key::Char(c), .. } => buffer.push(c),
        Event::Key { key: Key::Backspace, .. } => if buffer.len() > 0 {
            buffer.drop_last()
        } else {
            buffer
        },
        _ => buffer,
    }
}

/// The session that has just started.
pub open spec fn started(fragments: Seq<FragmentView>, cols: int, rows: int) -> SessionView {
    SessionView { phase: Phase::Running, buffer: Seq::empty(), cols, rows, fragments }
}

/// The session after an event. Only a running session changes. The
/// interrupt ends it and changes nothing else. Any other event edits the
/// buffer or sets the size, and the fragments are ranked for the buffer.
pub open spec fn after(state: SessionView, event: Event) -> SessionView {
    if state.phase != Phase::Running {
        state
    } else if interrupts(event) {
        SessionView { phase: Phase::Terminated, ..state }
    } else {
        let buffer = edited(state.buffer, event);
        SessionView {
            phase: Phase::Running,
            buffer,
            cols: if let Event::Resize { cols, rows } = event {
                cols as int
            } else {
                state.cols
            },
            rows: if let Event::Resize { cols, rows } = event {
                rows as int
            } else {
                state.rows
            },
            fragments: ranked(state.fragments, buffer),
        }
    }
}

/// What is to be done after an event: nothing unless the session runs; on
/// the interrupt, the buffer is written out; else the new state is drawn.
pub open spec fn action_for(state: SessionView, event: Event) -> ActionView {
    if state.phase != Phase::Running {
        ActionView::Nothing
    } else if interrupts(event) {
        ActionView::Emit(state.buffer)
    } else {
        let next = after(state, event);
        ActionView::Redraw(laid_out(next.cols, next.rows, next.buffer, next.fragments))
    }
}

/// Backspace leaves an empty buffer empty.
pub proof fn lemma_backspace_on_empty(modifiers: Modifiers)
    ensures
        edited(Seq::empty(), Event::Key { key: Key::Backspace, modifiers }) == Seq::<char>::empty(),
{
}

/// An event changes the buffer's length by one at most.
pub proof fn lemma_edited_by_one(buffer: Seq<char>, event: Event)
    ensures
        buffer.len() - 1 <= edited(buffer, event).len() <= buffer.len() + 1,
{
}

/// Backspace takes back what a character key added.
pub proof fn lemma_backspace_takes_back(
    buffer: Seq<char>,
    c: char,
    typed_with: Modifiers,
    back_with: Modifiers,
)
    ensures
        edited(
            edited(buffer, Event::Key { key: Key::Char(c), modifiers: typed_with }),
            Event::Key { key: Key::Backspace, modifiers: back_with },
        ) == buffer,
{
    assert(buffer.push(c).drop_last() == buffer);
}

/// A session that does not run stays as it is, whatever the event: once
/// terminated, it hands out nothing more.
pub proof fn lemma_only_running_moves(state: SessionView, event: Event)
    requires
        state.phase != Phase::Running,
    ensures
        after(state, event) == state,
        action_for(state, event) == ActionView::Nothing,
{
}

/// A running session ends on the interrupt and on nothing else; the
/// interrupt leaves the buffer, the size and the fragments as they are, and
/// the buffer is what is written out.
pub proof fn lemma_interrupt_ends(state: SessionView, event: Event)
    requires
        state.phase == Phase::Running,
    ensures
        after(state, event).phase == Phase::Terminated <==> interrupts(event),
        after(state, event).phase == Phase::Running <==> !interrupts(event),
        interrupts(event) ==> after(state, event) == (SessionView {
            phase: Phase::Terminated,
            ..state
        }) && action_for(state, event) == ActionView::Emit(state.buffer),
{
}

/// A new size is taken over, and the buffer stays; events that are no
/// resize leave the size.
pub proof fn lemma_resize(state: SessionView, event: Event)
    requires
        state.phase == Phase::Running,
    ensures
        event matches Event::Resize { cols, rows } ==> after(state, event).cols == cols && after(
            state,
            event,
        ).rows == rows && after(state, event).buffer == state.buffer,
        !(event is Resize) ==> after(state, event).cols == state.cols && after(state, event).rows
            == state.rows,
{
}

/// After an event that is not the interrupt, a running session holds as many
/// fragments as before, and each carries its overlap with the buffer as it
/// now is: no longer than the buffer, and no longer than the fragment.
pub proof fn lemma_after_scores(state: SessionView, event: Event, i: int)
    requires
        state.phase == Phase::Running,
        !interrupts(event),
        0 <= i < state.fragments.len(),
    ensures
        after(state, event).phase == Phase::Running,
        after(state, event).fragments.len() == state.fragments.len(),
        after(state, event).fragments[i].overlap == shared_len(
            after(state, event).buffer,
            after(state, event).fragments[i].data,
        ),
        after(state, event).fragments[i].overlap <= after(state, event).buffer.len(),
        after(state, event).fragments[i].overlap <= after(state, event).fragments[i].data.len(),
{
    lemma_ranked_overlaps(state.fragments, edited(state.buffer, event), i);
}

/// No event adds or drops a fragment: texts and counts stay, each as often
/// as before.
pub proof fn lemma_after_keeps_fragments(state: SessionView, event: Event)
    ensures
        after(state, event).fragments.len() == state.fragments.len(),
        unscored(after(state, event).fragments).to_multiset() == unscored(
            state.fragments,
        ).to_multiset(),
{
    lemma_ranked_keeps_fragments(state.fragments, edited(state.buffer, event));
}

impl Event {
    /// Tells whether the event is the interrupt.
    pub fn is_interrupt(&self) -> (interrupt: bool)
        ensures
            interrupt == interrupts(*self),
    {
        match self {
            Event::Key { key: Key::Char(c), modifiers } => *c == 'c' && modifiers.control
                && !modifiers.shift && !modifiers.alt,
            _ => false,
        }
    }
}

impl Session {
    /// A session that has not started.
    pub fn new() -> (session: Session)
        ensures
            session@ == (SessionView {
                phase: Phase::Init,
                buffer: Seq::empty(),
                cols: 0,
                rows: 0,
                fragments: Seq::empty(),
            }),
    {
        let session = Session {
            phase: Phase::Init,
            buffer: Vec::new(),
            cols: 0,
            rows: 0,
            fragments: Vec::new(),
        };
        assert(views(session.fragments@) == Seq::<FragmentView>::empty());
        session
    }

    /// Starts the session with the fragments and the terminal's size, and an
    /// empty buffer. A session starts once: later calls change nothing.
    pub fn start(&mut self, fragments: Vec<Fragment>, cols: u16, rows: u16) -> (now: bool)
        ensures
            now == (old(self)@.phase == Phase::Init),
            now ==> final(self)@ == started(views(fragments@), cols as int, rows as int),
            !now ==> final(self)@ == old(self)@,
    {
        match self.phase {
            Phase::Init => {
                self.phase = Phase::Running;
                self.buffer = Vec::new();
                self.cols = cols;
                self.rows = rows;
                self.fragments = fragments;
                true
            },
            _ => false,
        }
    }

    /// Takes one event and says what is to be done.
    pub fn handle(&mut self, event: Event) -> (action: Action)
        ensures
            final(self)@ == after(old(self)@, event),
            action@ == action_for(old(self)@, event),
    {
        match self.phase {
            Phase::Running => {},
            _ => {
                return Action::Nothing;
            },
        }
        if event.is_interrupt() {
            self.phase = Phase::Terminated;
            return Action::Emit(slice_to_vec(self.buffer.as_slice()));
        }
        match event {
            Event::Key { key, modifiers: _ } => match key {
                Key::Char(c) => {
                    self.buffer.push(c);
                },
                Key::Backspace => {
                    self.buffer.pop();
                },
                Key::Other => {},
            },
            Event::Resize { cols, rows } => {
                self.cols = cols;
                self.rows = rows;
            },
            Event::Pointer => {},
        }
        rank(&mut self.fragments, self.buffer.as_slice());
        Action::Redraw(layout(self.cols, self.rows, self.buffer.as_slice(), &self.fragments))
    }

    /// Where the session stands.
    pub fn phase(&self) -> (phase: Phase)
        ensures
            phase == self@.phase,
    {
        self.phase
    }

    /// What has been typed.
    pub fn buffer(&self) -> (buffer: &Vec<char>)
        ensures
            buffer@ == self@.buffer,
    {
        &self.buffer
    }

    /// The terminal's columns.
    pub fn cols(&self) -> (cols: u16)
        ensures
            cols == self@.cols,
    {
        self.cols
    }

    /// The terminal's rows.
    pub fn rows(&self) -> (rows: u16)
        ensures
            rows == self@.rows,
    {
        self.rows
    }

    /// The fragments, in ascending order once an event has been handled:
    /// the best suggestion stands last.
    pub fn fragments(&self) -> (fragments: &Vec<Fragment>)
        ensures
            views(fragments@) == self@.fragments,
    {
        &self.fragments
    }
}

} // verus!
