use collascii::canvas::Canvas;
use collascii::network::{Frame, Message};
use collascii::session::{Action, Event, Reason, Session, SessionState};

fn received(line: &[u8]) -> Event {
    Event::Received(Message::parse_line(line).unwrap())
}

fn active(uid: u8, canvas: &mut Canvas) -> Session {
    let mut session = Session::new(uid);
    session.step(canvas, Event::Connected);
    session
}

#[test]
fn session_starts_in_greeting() {
    let session = Session::new(7);
    assert_eq!(7, session.uid());
    assert_eq!(SessionState::Greeting, session.state());
}

#[test]
fn greeting_sends_a_copy_of_the_canvas() {
    let mut canvas = Canvas::new(3, 3);
    canvas.insert("foobar");
    let mut session = Session::new(1);
    let action = session.step(&mut canvas, Event::Connected);
    assert_eq!(SessionState::Active, session.state());
    match action {
        Action::Greet(message) => {
            assert_eq!(b"cs 3 3\nfoobar   ".to_vec(), message.encode());
            match message {
                Message::CanvasUpdate { c } => assert_eq!(canvas, c),
                other => panic!("no canvas update: {:?}", other),
            }
        }
        other => panic!("no greeting: {:?}", other),
    }
    assert_eq!("foobar   ", canvas.serialize());
}

#[test]
fn edit_inside_the_canvas_is_applied_and_forwarded() {
    let mut canvas = Canvas::new(3, 3);
    let mut session = active(1, &mut canvas);
    let action = session.step(&mut canvas, received(b"s 1 2 x\n"));
    assert_eq!(SessionState::Active, session.state());
    assert_eq!('x', canvas.get(2, 1));
    assert_eq!("     x   ", canvas.serialize());
    match action {
        Action::Forward(message) => {
            assert_eq!(Message::SetChar { x: 2, y: 1, c: 'x' }, message);
            assert_eq!(b"s 1 2 x\n".to_vec(), message.encode());
        }
        other => panic!("not forwarded: {:?}", other),
    }
}

#[test]
fn edit_outside_the_canvas_is_dropped() {
    let mut canvas = Canvas::new(3, 2);
    let mut session = active(1, &mut canvas);
    for line in [&b"s 2 0 x\n"[..], b"s 0 3 x\n", b"s 9 9 x\n"] {
        let action = session.step(&mut canvas, received(line));
        assert_eq!(SessionState::Active, session.state());
        assert_eq!("      ", canvas.serialize());
        assert!(matches!(action, Action::Discard { .. }));
    }
    match session.step(&mut canvas, received(b"s 2 0 x\n")) {
        Action::Discard { x, y } => assert_eq!((0, 2), (x, y)),
        other => panic!("not dropped: {:?}", other),
    }
    // the session goes on
    assert!(matches!(session.step(&mut canvas, received(b"s 1 2 y\n")), Action::Forward(_)));
    assert_eq!("     y", canvas.serialize());
}

#[test]
fn quit_ends_the_session() {
    let mut canvas = Canvas::new(2, 2);
    let mut session = active(4, &mut canvas);
    let action = session.step(&mut canvas, received(b"q\n"));
    assert!(matches!(action, Action::Close(Reason::Left)));
    assert_eq!(SessionState::Terminated, session.state());
    assert_eq!(4, session.uid());
}

#[test]
fn end_of_input_ends_the_session() {
    let mut canvas = Canvas::new(2, 2);
    let mut session = active(4, &mut canvas);
    let action = session.step(&mut canvas, received(b""));
    assert!(matches!(action, Action::Close(Reason::Left)));
    assert_eq!(SessionState::Terminated, session.state());
}

#[test]
fn failure_ends_the_session() {
    let mut canvas = Canvas::new(2, 2);
    let mut session = active(1, &mut canvas);
    assert!(Message::parse_line(b"s 3 2\n").is_err());
    let action = session.step(&mut canvas, Event::Failed);
    assert!(matches!(action, Action::Close(Reason::Failed)));
    assert_eq!(SessionState::Terminated, session.state());

    let mut greeting = Session::new(2);
    let action = greeting.step(&mut canvas, Event::Failed);
    assert!(matches!(action, Action::Close(Reason::Failed)));
    assert_eq!(SessionState::Terminated, greeting.state());
}

#[test]
fn canvas_update_from_a_client_is_rejected() {
    let mut canvas = Canvas::new(2, 2);
    canvas.insert("abcd");
    // rejected on its line, before any payload is read
    let mut session = active(1, &mut canvas);
    let action = session.step(&mut canvas, received(b"cs 2 2\n"));
    assert!(matches!(action, Action::Close(Reason::Rejected)));
    assert_eq!(SessionState::Terminated, session.state());
    assert_eq!("abcd", canvas.serialize());
    // and rejected when it comes whole
    let mut session = active(2, &mut canvas);
    let update = Message::CanvasUpdate { c: Canvas::new(2, 2) };
    let action = session.step(&mut canvas, Event::Received(Frame::Complete(update)));
    assert!(matches!(action, Action::Close(Reason::Rejected)));
    assert_eq!(SessionState::Terminated, session.state());
    assert_eq!("abcd", canvas.serialize());
}

#[test]
fn events_out_of_turn_end_the_session() {
    let mut canvas = Canvas::new(2, 2);
    let mut session = Session::new(1);
    let action = session.step(&mut canvas, received(b"s 0 0 x\n"));
    assert!(matches!(action, Action::Close(Reason::OutOfTurn)));
    assert_eq!(SessionState::Terminated, session.state());
    assert_eq!("    ", canvas.serialize());

    let mut session = active(2, &mut canvas);
    let action = session.step(&mut canvas, Event::Connected);
    assert!(matches!(action, Action::Close(Reason::OutOfTurn)));
    assert_eq!(SessionState::Terminated, session.state());
}

#[test]
fn terminated_session_does_nothing() {
    let mut canvas = Canvas::new(2, 2);
    let mut session = active(1, &mut canvas);
    session.step(&mut canvas, received(b"q\n"));
    for event in [Event::Connected, received(b"s 0 0 x\n"), received(b"q\n"), Event::Failed] {
        let action = session.step(&mut canvas, event);
        assert!(matches!(action, Action::Nothing));
        assert_eq!(SessionState::Terminated, session.state());
        assert_eq!("    ", canvas.serialize());
    }
}

/// All orders in which `n` things can come.
fn orders(n: usize) -> Vec<Vec<usize>> {
    if n == 0 {
        return vec![vec![]];
    }
    let mut all = Vec::new();
    for shorter in orders(n - 1) {
        for at in 0..=shorter.len() {
            let mut order = shorter.clone();
            order.insert(at, n - 1);
            all.push(order);
        }
    }
    all
}

#[test]
fn edits_of_many_clients_are_all_in_the_canvas() {
    // five clients, each with one edit for a cell of its own
    let edits = [(0, 0, 'a'), (2, 0, 'b'), (1, 1, 'c'), (0, 2, 'd'), (2, 2, 'e')];
    let all = orders(edits.len());
    assert_eq!(120, all.len());
    for order in all {
        let mut canvas = Canvas::new(3, 3);
        let mut sessions: Vec<Session> = Vec::new();
        for uid in 1..=5u8 {
            sessions.push(active(uid, &mut canvas));
        }
        for &client in order.iter() {
            let (x, y, c) = edits[client];
            let event = Event::Received(Frame::Complete(Message::SetChar { x, y, c }));
            let action = sessions[client].step(&mut canvas, event);
            assert!(matches!(action, Action::Forward(_)));
        }
        assert_eq!("a b c d e", canvas.serialize());
    }
}
