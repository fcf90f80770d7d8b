use protohackers::chat::{
    is_alphanumeric, is_valid_name, member_list_message, Action, Delivery, Room, Session, SessionEvent,
    UserEvent, UserJoinedResult,
};

fn s(x: &str) -> String {
    x.to_owned()
}

#[test]
fn names_are_nonempty_ascii_alphanumerics() {
    assert!(is_valid_name("alice42"));
    assert!(is_valid_name("Z"));
    assert!(!is_valid_name(""));
    assert!(!is_valid_name("bob smith"));
    assert!(!is_valid_name("élan"));
    assert!(is_alphanumeric(""));
    assert!(!is_alphanumeric("a_b"));
}

#[test]
fn join_tells_members_and_lists_them() {
    let mut room = Room::new();
    let (r, ds) = room.join(s("alice"));
    assert_eq!(r, UserJoinedResult::Joined { members: vec![] });
    assert!(ds.is_empty());
    let (r, ds) = room.join(s("bob"));
    assert_eq!(r, UserJoinedResult::Joined { members: vec![s("alice")] });
    assert_eq!(
        ds,
        vec![Delivery { to: s("alice"), event: UserEvent::UserJoined { name: s("bob") } }]
    );
}

#[test]
fn duplicate_join_is_refused() {
    let mut room = Room::new();
    room.join(s("alice"));
    let (r, ds) = room.join(s("alice"));
    assert_eq!(r, UserJoinedResult::Duplicate);
    assert!(ds.is_empty());
    let (r, _) = room.join(s("carol"));
    assert_eq!(r, UserJoinedResult::Joined { members: vec![s("alice")] });
}

#[test]
fn messages_reach_everyone_but_the_sender() {
    let mut room = Room::new();
    room.join(s("alice"));
    room.join(s("bob"));
    room.join(s("carol"));
    let ds = room.new_message(&s("bob"), &s("hi"));
    let ev = UserEvent::NewChatMessage { name: s("bob"), message: s("hi") };
    assert_eq!(
        ds,
        vec![
            Delivery { to: s("alice"), event: ev.clone() },
            Delivery { to: s("carol"), event: ev },
        ]
    );
}

#[test]
fn leave_removes_and_tells_the_rest() {
    let mut room = Room::new();
    room.join(s("alice"));
    room.join(s("bob"));
    let ds = room.leave(&s("alice"));
    assert_eq!(ds, vec![Delivery { to: s("bob"), event: UserEvent::UserLeft { name: s("alice") } }]);
    let (r, _) = room.join(s("alice"));
    assert_eq!(r, UserJoinedResult::Joined { members: vec![s("bob")] });
}

#[test]
fn join_then_leave_restores_the_room() {
    let mut room = Room::new();
    room.join(s("alice"));
    room.join(s("bob"));
    room.leave(&s("bob"));
    let (r, _) = room.join(s("dave"));
    assert_eq!(r, UserJoinedResult::Joined { members: vec![s("alice")] });
}

#[test]
fn event_texts() {
    assert_eq!(UserEvent::NewChatMessage { name: s("bob"), message: s("hi there") }.render(), "[bob] hi there");
    assert_eq!(UserEvent::UserJoined { name: s("bob") }.render(), "* bob has entered the room");
    assert_eq!(UserEvent::UserLeft { name: s("bob") }.render(), "* bob has left the room");
}

#[test]
fn member_list_texts() {
    assert_eq!(member_list_message(&vec![]), "* The room contains: ");
    assert_eq!(member_list_message(&vec![s("alice")]), "* The room contains: alice");
    assert_eq!(
        member_list_message(&vec![s("alice"), s("bob"), s("carol")]),
        "* The room contains: alice, bob, carol"
    );
}

#[test]
fn session_happy_path() {
    let (sess, acts) = Session::start();
    assert_eq!(acts, vec![Action::Send(s("Welcome to budgetchat! What shall I call you?"))]);
    let (sess, acts) = sess.step(SessionEvent::Line(s("bob")));
    assert_eq!(acts, vec![Action::Join(s("bob"))]);
    let (sess, acts) = sess.step(SessionEvent::JoinAnswer(UserJoinedResult::Joined { members: vec![s("alice")] }));
    assert_eq!(acts, vec![Action::Send(s("* The room contains: alice"))]);
    let (sess, acts) = sess.step(SessionEvent::Line(s("hello")));
    assert_eq!(acts, vec![Action::Post { name: s("bob"), message: s("hello") }]);
    let (sess, acts) = sess.step(SessionEvent::Room(UserEvent::UserJoined { name: s("carol") }));
    assert_eq!(acts, vec![Action::Send(s("* carol has entered the room"))]);
    let (sess, acts) = sess.step(SessionEvent::Disconnected);
    assert_eq!(acts, vec![Action::Leave(s("bob")), Action::Close]);
    assert!(matches!(sess, Session::Closed));
    let (_, acts) = sess.step(SessionEvent::Line(s("late")));
    assert!(acts.is_empty());
}

#[test]
fn session_refuses_bad_and_duplicate_names() {
    let (sess, _) = Session::start();
    let (sess, acts) = sess.step(SessionEvent::Line(s("no spaces")));
    assert_eq!(acts, vec![Action::Send(s("invalid name")), Action::Close]);
    assert!(matches!(sess, Session::Closed));

    let (sess, _) = Session::start();
    let (sess, _) = sess.step(SessionEvent::Line(s("bob")));
    let (sess, acts) = sess.step(SessionEvent::JoinAnswer(UserJoinedResult::Duplicate));
    assert_eq!(acts, vec![Action::Send(s("duplicate name")), Action::Close]);
    assert!(matches!(sess, Session::Closed));
}

#[test]
fn session_disconnect_before_joining_does_not_leave() {
    let (sess, _) = Session::start();
    let (_, acts) = sess.step(SessionEvent::Disconnected);
    assert_eq!(acts, vec![Action::Close]);
}
