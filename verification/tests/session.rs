use typeahead::layout::Frame;
use typeahead::session::{Action, Event, Key, Modifiers, Phase, Session};
use typeahead::store::load;

const PLAIN: Modifiers = Modifiers { shift: false, control: false, alt: false };
const CONTROL: Modifiers = Modifiers { shift: false, control: true, alt: false };

fn typed(c: char) -> Event {
    Event::Key { key: Key::Char(c), modifiers: PLAIN }
}

fn running(source: &str, cols: u16, rows: u16) -> Session {
    let mut session = Session::new();
    assert!(session.start(load(source), cols, rows));
    session
}

fn frame_of(action: Action) -> Frame {
    match action {
        Action::Redraw(frame) => frame,
        other => panic!("no frame: {:?}", other),
    }
}

fn shown(frame: &Frame) -> Vec<String> {
    frame.suggestions.iter().map(|p| p.text.iter().collect()).collect()
}

fn buffer_of(session: &Session) -> String {
    session.buffer().iter().collect()
}

#[test]
fn new_session_has_not_started() {
    let mut session = Session::new();
    assert_eq!(session.phase(), Phase::Init);
    assert!(session.buffer().is_empty());
    assert!(session.fragments().is_empty());
    assert!(matches!(session.handle(typed('a')), Action::Nothing));
    assert_eq!(session.phase(), Phase::Init);
    assert!(session.buffer().is_empty());
}

#[test]
fn session_starts_once() {
    let mut session = Session::new();
    assert!(session.start(load("a\nb\n"), 80, 24));
    assert_eq!(session.phase(), Phase::Running);
    assert_eq!((session.cols(), session.rows()), (80, 24));
    assert_eq!(session.fragments().len(), 2);
    session.handle(typed('x'));
    assert!(!session.start(load("c\n"), 10, 10));
    assert_eq!((session.cols(), session.rows()), (80, 24));
    assert_eq!(session.fragments().len(), 2);
    assert_eq!(buffer_of(&session), "x");
}

#[test]
fn character_keys_fill_the_buffer() {
    let mut session = running("", 80, 24);
    session.handle(typed('h'));
    session.handle(typed('i'));
    session.handle(Event::Key {
        key: Key::Char('!'),
        modifiers: Modifiers { shift: true, control: false, alt: false },
    });
    assert_eq!(buffer_of(&session), "hi!");
}

#[test]
fn backspace_takes_the_last_character() {
    let mut session = running("", 80, 24);
    session.handle(typed('a'));
    session.handle(typed('b'));
    session.handle(Event::Key { key: Key::Backspace, modifiers: PLAIN });
    assert_eq!(buffer_of(&session), "a");
}

#[test]
fn backspace_on_empty_buffer_leaves_it_empty() {
    let mut session = running("ab\n", 80, 24);
    let action = session.handle(Event::Key { key: Key::Backspace, modifiers: PLAIN });
    assert!(session.buffer().is_empty());
    assert_eq!(session.phase(), Phase::Running);
    assert!(frame_of(action).line.is_empty());
    session.handle(typed('a'));
    session.handle(Event::Key { key: Key::Backspace, modifiers: PLAIN });
    session.handle(Event::Key { key: Key::Backspace, modifiers: PLAIN });
    assert!(session.buffer().is_empty());
}

#[test]
fn other_keys_and_the_pointer_change_nothing_but_redraw() {
    let mut session = running("ab\n", 80, 24);
    session.handle(typed('a'));
    let action = session.handle(Event::Key { key: Key::Other, modifiers: PLAIN });
    assert_eq!(shown(&frame_of(action)), vec!["ab (01)"]);
    let action = session.handle(Event::Pointer);
    assert_eq!(shown(&frame_of(action)), vec!["ab (01)"]);
    assert_eq!(buffer_of(&session), "a");
    assert_eq!((session.cols(), session.rows()), (80, 24));
    assert_eq!(session.phase(), Phase::Running);
}

#[test]
fn resize_sets_the_size_and_keeps_the_buffer() {
    let mut session = running("ab\n", 80, 24);
    session.handle(typed('a'));
    let action = session.handle(Event::Resize { cols: 12, rows: 2 });
    assert_eq!((session.cols(), session.rows()), (12, 2));
    assert_eq!(buffer_of(&session), "a");
    let frame = frame_of(action);
    assert_eq!(frame.cursor, 1);
    assert_eq!(shown(&frame), vec!["ab (01)"]);
}

#[test]
fn resize_to_nothing_shows_nothing() {
    let mut session = running("hello\nhelp\n", 80, 24);
    session.handle(typed('h'));
    let frame = frame_of(session.handle(Event::Resize { cols: 0, rows: 0 }));
    assert!(frame.line.is_empty());
    assert_eq!(frame.cursor, 0);
    assert!(frame.suggestions.is_empty());
    assert_eq!(buffer_of(&session), "h");
    let frame = frame_of(session.handle(typed('e')));
    assert!(frame.line.is_empty());
    assert!(frame.suggestions.is_empty());
    assert_eq!(buffer_of(&session), "he");
}

#[test]
fn interrupt_ends_the_session_and_hands_out_the_buffer() {
    let mut session = running("ab\n", 80, 24);
    session.handle(typed('o'));
    session.handle(typed('k'));
    let action = session.handle(Event::Key { key: Key::Char('c'), modifiers: CONTROL });
    match action {
        Action::Emit(text) => assert_eq!(text, vec!['o', 'k']),
        other => panic!("no buffer: {:?}", other),
    }
    assert_eq!(session.phase(), Phase::Terminated);
    assert_eq!(buffer_of(&session), "ok");
}

#[test]
fn terminated_session_hands_out_nothing_more() {
    let mut session = running("ab\n", 80, 24);
    session.handle(Event::Key { key: Key::Char('c'), modifiers: CONTROL });
    assert!(matches!(session.handle(typed('a')), Action::Nothing));
    assert!(matches!(
        session.handle(Event::Key { key: Key::Char('c'), modifiers: CONTROL }),
        Action::Nothing
    ));
    assert!(matches!(session.handle(Event::Resize { cols: 1, rows: 1 }), Action::Nothing));
    assert_eq!(session.phase(), Phase::Terminated);
    assert!(session.buffer().is_empty());
    assert_eq!((session.cols(), session.rows()), (80, 24));
}

#[test]
fn only_control_and_c_alone_interrupt() {
    assert!(Event::Key { key: Key::Char('c'), modifiers: CONTROL }.is_interrupt());
    assert!(!typed('c').is_interrupt());
    assert!(!Event::Key { key: Key::Char('d'), modifiers: CONTROL }.is_interrupt());
    assert!(!Event::Key { key: Key::Char('C'), modifiers: CONTROL }.is_interrupt());
    assert!(!Event::Key { key: Key::Backspace, modifiers: CONTROL }.is_interrupt());
    assert!(!Event::Key {
        key: Key::Char('c'),
        modifiers: Modifiers { shift: true, control: true, alt: false },
    }
    .is_interrupt());
    assert!(!Event::Key {
        key: Key::Char('c'),
        modifiers: Modifiers { shift: false, control: true, alt: true },
    }
    .is_interrupt());
    assert!(!Event::Pointer.is_interrupt());
    assert!(!Event::Resize { cols: 3, rows: 3 }.is_interrupt());
}

#[test]
fn character_with_other_modifiers_is_typed() {
    let mut session = running("", 80, 24);
    session.handle(Event::Key { key: Key::Char('x'), modifiers: CONTROL });
    session.handle(Event::Key {
        key: Key::Char('c'),
        modifiers: Modifiers { shift: false, control: true, alt: true },
    });
    assert_eq!(buffer_of(&session), "xc");
    assert_eq!(session.phase(), Phase::Running);
}

#[test]
fn typing_ranks_the_fragments() {
    let mut session = running("wonderful\nwonderful\nwood\n", 80, 24);
    session.handle(typed('w'));
    let frame = frame_of(session.handle(typed('o')));
    assert_eq!(buffer_of(&session), "wo");
    let fragments = session.fragments();
    assert!(fragments.iter().all(|f| f.overlap() == 2));
    assert_eq!(shown(&frame), vec!["wonderful (02)", "wood (01)"]);
    assert_eq!(frame.suggestions[0].col, 0);
    assert_eq!(frame.suggestions[1].col, 0);
    assert_eq!(frame.cursor, 2);
}

#[test]
fn handling_the_same_state_twice_shows_the_same() {
    let mut session = running("wood\nword\nwonder\nabc\nabd\n", 80, 24);
    session.handle(typed('w'));
    let first = shown(&frame_of(session.handle(typed('o'))));
    let again = shown(&frame_of(session.handle(Event::Pointer)));
    let third = shown(&frame_of(session.handle(Event::Key { key: Key::Other, modifiers: PLAIN })));
    assert_eq!(first, again);
    assert_eq!(first, third);
}

#[test]
fn every_fragment_stays_through_the_session() {
    let mut session = running("a\nb\nc\na\n", 80, 24);
    for c in "abcab".chars() {
        session.handle(typed(c));
        let mut texts: Vec<String> =
            session.fragments().iter().map(|f| f.data().iter().collect()).collect();
        texts.sort();
        assert_eq!(texts, vec!["a", "b", "c"]);
        let buffer_len = session.buffer().len();
        assert!(session.fragments().iter().all(|f| f.overlap() <= buffer_len.min(1)));
    }
}
