use nunitius::protocol::Nicknames;
use nunitius::{Color, ConnectionKind, Event, LoginResponse, Message, User};

#[test]
fn colors_have_lower_case_names() {
    assert!(matches!(Color::from_name("red"), Some(Color::Red)));
    assert!(matches!(Color::from_name("green"), Some(Color::Green)));
    assert!(matches!(Color::from_name("yellow"), Some(Color::Yellow)));
    assert!(matches!(Color::from_name("blue"), Some(Color::Blue)));
    assert!(matches!(Color::from_name("magenta"), Some(Color::Purple)));
    assert!(matches!(Color::from_name("cyan"), Some(Color::Cyan)));
}

#[test]
fn other_words_name_no_color() {
    assert!(Color::from_name("").is_none());
    assert!(Color::from_name("Red").is_none());
    assert!(Color::from_name("red ").is_none());
    assert!(Color::from_name("purple").is_none());
    assert!(Color::from_name("orange").is_none());
}

#[test]
fn a_nickname_is_taken_once_claimed() {
    let mut names = Nicknames::new();
    assert!(!names.is_taken("ann"));
    assert!(!names.claim("ann".to_string()));
    assert!(names.is_taken("ann"));
    assert!(!names.is_taken("Ann"));
    assert!(names.claim("ann".to_string()));
    assert!(!names.claim("bob".to_string()));
    assert!(names.claim("bob".to_string()));
    assert!(names.is_taken("ann"));
    assert!(!names.is_taken(""));
}

#[test]
fn events_carry_their_user() {
    let user = User { nickname: "ann".to_string(), color: Some(Color::Cyan) };
    let message = Message { body: "hello".to_string(), author: user.clone() };
    let event = Event::Message(message.clone());
    match event {
        Event::Message(m) => {
            assert_eq!(m.body, "hello");
            assert_eq!(m.author.nickname, "ann");
            assert!(matches!(m.author.color, Some(Color::Cyan)));
        }
        _ => panic!("not a message"),
    }
    assert!(matches!(Event::Login(user.clone()), Event::Login(_)));
    assert!(matches!(Event::Logout(user), Event::Logout(_)));
    assert!(LoginResponse { nickname_taken: true }.nickname_taken);
    assert!(matches!(ConnectionKind::Sender, ConnectionKind::Sender));
    assert!(matches!(ConnectionKind::Viewer, ConnectionKind::Viewer));
}
