//! What senders, the relay and viewers tell each other, as plain data, and
//! the two rules that go with it: which colours a user may name, and which
//! nicknames are still free.

use vstd::prelude::*;

verus! {

/// Something that happened in the chat.
#[derive(Debug, Clone)]
pub enum Event {
    Message(Message),
    Login(User),
    Logout(User),
}

/// A message and who wrote it.
#[derive(Debug, Clone)]
pub struct Message {
    pub body: String,
    pub author: User,
}

/// A user: a nickname and, if one was chosen, a colour.
#[derive(Debug, Clone)]
pub struct User {
    pub nickname: String,
    pub color: Option<Color>,
}

/// The colours a nickname can be shown in.
#[derive(Debug, Clone)]
pub enum Color {
    Red,
    Green,
    Yellow,
    Blue,
    Purple,
    Cyan,
}

/// The relay's answer to a login.
#[derive(Debug)]
pub struct LoginResponse {
    pub nickname_taken: bool,
}

/// What a connection is for: sending messages, or viewing them.
#[derive(Debug)]
pub enum ConnectionKind {
    Sender,
    Viewer,
}

/// The colour that `name` names, if it names one. The names are lower case;
/// `magenta` is the name of [`Color::Purple`].
pub open spec fn color_named(name: Seq<char>) -> Option<Color> {
    if name == "red"@ {
        Some(Color::Red)
    } else if name == "green"@ {
        Some(Color::Green)
    } else if name == "yellow"@ {
        Some(Color::Yellow)
    } else if name == "blue"@ {
        Some(Color::Blue)
    } else if name == "magenta"@ {
        Some(Color::Purple)
    } else if name == "cyan"@ {
        Some(Color::Cyan)
    } else {
        None
    }
}

/// `str::eq` tells whether two strings hold the same characters.
#[verifier::external_body]
fn same_text(a: &str, b: &str) -> (same: bool)
    ensures
        same == (a@ == b@),
{
    a.eq(b)
}

impl Color {
    /// The colour that `name` names, or `None` if it names none.
    pub fn from_name(name: &str) -> (color: Option<Color>)
        ensures
            color == color_named(name@),
    {
        if same_text(name, "red") {
            Some(Color::Red)
        } else if same_text(name, "green") {
            Some(Color::Green)
        } else if same_text(name, "yellow") {
            Some(Color::Yellow)
        } else if same_text(name, "blue") {
            Some(Color::Blue)
        } else if same_text(name, "magenta") {
            Some(Color::Purple)
        } else if same_text(name, "cyan") {
            Some(Color::Cyan)
        } else {
            None
        }
    }
}

/// The nicknames that are taken.
pub struct Nicknames {
    taken: Vec<String>,
}

impl View for Nicknames {
    type V = Set<Seq<char>>;

    closed spec fn view(&self) -> Set<Seq<char>> {
        Set::new(|name: Seq<char>| exists|i: int| 0 <= i < self.taken@.len() && self.taken@[i]@ == name)
    }
}

impl Nicknames {
    /// No nickname is taken.
    pub fn new() -> (names: Nicknames)
        ensures
            names@ == Set::<Seq<char>>::empty(),
    {
        let names = Nicknames { taken: Vec::new() };
        assert(names@ =~= Set::<Seq<char>>::empty());
        names
    }

    /// Whether `nickname` is taken.
    pub fn is_taken(&self, nickname: &str) -> (taken: bool)
        ensures
            taken == self@.contains(nickname@),
    {
        let mut i: usize = 0;
        while i < self.taken.len()
            invariant
                i <= self.taken.len(),
                forall|j: int| 0 <= j < i ==> self.taken@[j]@ != nickname@,
            decreases self.taken.len() - i,
        {
            if same_text(self.taken[i].as_str(), nickname) {
                return true;
            }
            i += 1;
        }
        false
    }

    /// Takes `nickname` for a user who asks for it, and tells whether it was
    /// taken already: then the user has to choose another.
    pub fn claim(&mut self, nickname: String) -> (taken: bool)
        ensures
            taken == old(self)@.contains(nickname@),
            final(self)@ == old(self)@.insert(nickname@),
    {
        let taken = self.is_taken(nickname.as_str());
        if !taken {
            self.taken.push(nickname);
            assert(self.taken@[self.taken@.len() - 1]@ == nickname@);
            assert forall|name: Seq<char>| #[trigger]
                self@.contains(name) <==> old(self)@.insert(nickname@).contains(name) by {
                if old(self)@.contains(name) {
                    let i = choose|i: int|
                        0 <= i < old(self).taken@.len() && old(self).taken@[i]@ == name;
                    assert(self.taken@[i]@ == name);
                }
            }
        }
        assert(self@ =~= old(self)@.insert(nickname@));
        taken
    }
}

} // verus!
