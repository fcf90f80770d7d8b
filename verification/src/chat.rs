//! The chat room: names, the room's membership and who hears what, the
//! texts that users are sent, and each user's session.

use vstd::prelude::*;

verus! {

broadcast use vstd::string::group_string_axioms;

/// `c` is an ASCII letter or digit.
pub open spec fn spec_is_alnum_char(c: char) -> bool {
    ('a' <= c && c <= 'z') || ('A' <= c && c <= 'Z') || ('0' <= c && c <= '9')
}

/// Every character of `s` is an ASCII letter or digit.
pub open spec fn spec_is_alphanumeric(s: Seq<char>) -> bool {
    forall|i: int| 0 <= i < s.len() ==> spec_is_alnum_char(#[trigger] s[i])
}

/// `name` may be used in the room: it is not empty and holds only ASCII
/// letters and digits.
pub open spec fn spec_is_valid_name(name: Seq<char>) -> bool {
    name.len() > 0 && spec_is_alphanumeric(name)
}

/// Returns whether every character of `s` is an ASCII letter or digit.
pub fn is_alphanumeric(s: &str) -> (r: bool)
    ensures
        r == spec_is_alphanumeric(s@),
{
    for c in it: s.chars()
        invariant
            it.seq() == s@,
            forall|j: int| 0 <= j < it.index() ==> spec_is_alnum_char(#[trigger] s@[j]),
    {
        let good = match c {
            'a'..='z' => true,
            'A'..='Z' => true,
            '0'..='9' => true,
            _ => false,
        };
        if !good {
            return false;
        }
    }
    true
}

/// Returns whether `name` may be used in the room.
pub fn is_valid_name(name: &str) -> (r: bool)
    ensures
        r == spec_is_valid_name(name@),
{
    !name.is_empty() && is_alphanumeric(name)
}


/// What the room tells one user about.
#[derive(Clone, Debug, PartialEq, Eq)]
pub enum UserEvent {
    NewChatMessage { name: String, message: String },
    UserJoined { name: String },
    UserLeft { name: String },
}

/// A `UserEvent` with its strings taken as character sequences.
pub enum UserEventView {
    NewChatMessage { name: Seq<char>, message: Seq<char> },
    UserJoined { name: Seq<char> },
    UserLeft { name: Seq<char> },
}

impl View for UserEvent {
    type V = UserEventView;

    open spec fn view(&self) -> UserEventView {
        match self {
            UserEvent::NewChatMessage { name, message } => UserEventView::NewChatMessage {
                name: name@,
                message: message@,
            },
            UserEvent::UserJoined { name } => UserEventView::UserJoined { name: name@ },
            UserEvent::UserLeft { name } => UserEventView::UserLeft { name: name@ },
        }
    }
}

/// One event for one member of the room.
#[derive(Clone, Debug, PartialEq, Eq)]
pub struct Delivery {
    pub to: String,
    pub event: UserEvent,
}

/// The answer to a request to join.
#[derive(Clone, Debug, PartialEq, Eq)]
pub enum UserJoinedResult {
    /// Joined; `members` are the users who were in the room before.
    Joined { members: Vec<String> },
    /// Someone in the room already has that name.
    Duplicate,
}

/// A copy of `ev`.
fn copy_event(ev: &UserEvent) -> (r: UserEvent)
    ensures
        r@ == ev@,
{
    match ev {
        UserEvent::NewChatMessage { name, message } => UserEvent::NewChatMessage {
            name: name.clone(),
            message: message.clone(),
        },
        UserEvent::UserJoined { name } => UserEvent::UserJoined { name: name.clone() },
        UserEvent::UserLeft { name } => UserEvent::UserLeft { name: name.clone() },
    }
}

/// The views of a list of strings.
pub open spec fn names(v: Seq<String>) -> Seq<Seq<char>> {
    v.map_values(|s: String| s@)
}

/// No name occurs twice.
pub open spec fn distinct_names(s: Seq<Seq<char>>) -> bool {
    forall|i: int, j: int| 0 <= i < s.len() && 0 <= j < s.len() && i != j ==> s[i] != s[j]
}

/// The members of `s` other than `name`, in order.
pub open spec fn others(s: Seq<Seq<char>>, name: Seq<char>) -> Seq<Seq<char>>
    decreases s.len(),
{
    if s.len() == 0 {
        s
    } else if s.last() == name {
        others(s.drop_last(), name)
    } else {
        others(s.drop_last(), name).push(s.last())
    }
}

/// `ds` sends `ev` to each of `to`, in that order, and to nobody else.
pub open spec fn delivers(ds: Seq<Delivery>, to: Seq<Seq<char>>, ev: UserEventView) -> bool {
    &&& ds.len() == to.len()
    &&& forall|i: int| 0 <= i < ds.len() ==> (#[trigger] ds[i]).to@ == to[i] && ds[i].event@ == ev
}

/// A pushed sequence holds what it held and the pushed element.
proof fn lemma_contains_push(q: Seq<Seq<char>>, a: Seq<char>, x: Seq<char>)
    ensures
        q.push(a).contains(x) <==> (q.contains(x) || x == a),
{
    if q.contains(x) {
        let j = choose|j: int| 0 <= j < q.len() && q[j] == x;
        assert(q.push(a)[j] == x);
    }
    if x == a {
        assert(q.push(a)[q.len() as int] == x);
    }
    if q.push(a).contains(x) {
        let j = choose|j: int| 0 <= j < q.push(a).len() && q.push(a)[j] == x;
        if j < q.len() {
            assert(q[j] == x);
        }
    }
}

/// Those who hear a member's message (and those who stay after a member
/// leaves) are exactly the other members, each once: dropping a name drops
/// nothing else, keeps distinct names distinct, and changes nothing when no
/// member has the name.
pub proof fn lemma_others(s: Seq<Seq<char>>, name: Seq<char>)
    ensures
        forall|x: Seq<char>| #[trigger] others(s, name).contains(x) <==> (s.contains(x) && x != name),
        distinct_names(s) ==> distinct_names(others(s, name)),
        !s.contains(name) ==> others(s, name) == s,
    decreases s.len(),
{
    if s.len() > 0 {
        let t = s.drop_last();
        let a = s.last();
        let ot = others(t, name);
        lemma_others(t, name);
        assert(s =~= t.push(a));
        assert forall|x: Seq<char>| #[trigger] others(s, name).contains(x) <==> (s.contains(x) && x
            != name) by {
            lemma_contains_push(t, a, x);
            lemma_contains_push(ot, a, x);
        }
        if distinct_names(s) {
            assert(distinct_names(t)) by {
                assert forall|i: int, j: int| 0 <= i < t.len() && 0 <= j < t.len() && i != j implies t[i]
                    != t[j] by {
                    assert(t[i] == s[i] && t[j] == s[j]);
                }
            }
            if a != name {
                let o = others(s, name);
                assert(!t.contains(a)) by {
                    if t.contains(a) {
                        let j = choose|j: int| 0 <= j < t.len() && t[j] == a;
                        assert(s[j] == s[s.len() - 1]);
                    }
                }
                assert(!ot.contains(a));
                assert forall|i: int, j: int| 0 <= i < o.len() && 0 <= j < o.len() && i != j implies o[i]
                    != o[j] by {
                    if i < ot.len() && j < ot.len() {
                        assert(o[i] == ot[i] && o[j] == ot[j]);
                    } else if i < ot.len() {
                        assert(o[i] == ot[i]);
                        assert(ot.contains(o[i]));
                    } else {
                        assert(o[j] == ot[j]);
                        assert(ot.contains(o[j]));
                    }
                }
            }
        }
        if !s.contains(name) {
            lemma_contains_push(t, a, name);
            assert(others(s, name) =~= s);
        }
    }
}

/// Joining with a new name and then leaving under it gives back the room as
/// it was, and so does leaving under a name nobody has.
pub proof fn lemma_join_then_leave(members: Seq<Seq<char>>, name: Seq<char>)
    requires
        !members.contains(name),
    ensures
        others(members.push(name), name) == members,
        others(members, name) == members,
{
    lemma_others(members, name);
    assert(members.push(name).drop_last() =~= members);
}

/// The users in the chat room, in the order they joined.  No two have the
/// same name.
pub struct Room {
    members: Vec<String>,
}

impl View for Room {
    type V = Seq<Seq<char>>;

    open spec fn view(&self) -> Seq<Seq<char>> {
        self.spec_members()
    }
}

/// Makes one delivery of `ev` to each of `to`, in order.
fn deliver_to_all(to: &Vec<String>, except: Option<&String>, ev: &UserEvent) -> (ds: Vec<Delivery>)
    ensures
        delivers(
            ds@,
            match except {
                Some(n) => others(names(to@), n@),
                None => names(to@),
            },
            ev@,
        ),
{
    let mut ds: Vec<Delivery> = Vec::new();
    let mut i: usize = 0;
    while i < to.len()
        invariant
            i <= to@.len(),
            delivers(
                ds@,
                match except {
                    Some(n) => others(names(to@.take(i as int)), n@),
                    None => names(to@.take(i as int)),
                },
                ev@,
            ),
        decreases to@.len() - i,
    {
        let ghost before = ds@;
        let skip = match except {
            Some(n) => to[i] == *n,
            None => false,
        };
        if !skip {
            ds.push(Delivery { to: to[i].clone(), event: copy_event(ev) });
        }
        i = i + 1;
        proof {
            assert(names(to@.take(i as int)).drop_last() =~= names(to@.take(i - 1)));
            assert(names(to@.take(i as int)).last() == to@[i - 1]@);
            match except {
                Some(n) => {},
                None => {
                    assert(names(to@.take(i as int)) =~= names(to@.take(i - 1)).push(to@[i - 1]@));
                },
            }
            assert forall|j: int| 0 <= j < ds@.len() implies (#[trigger] ds@[j]).event@ == ev@ by {
                if j < before.len() {
                    assert(ds@[j] == before[j]);
                }
            }
        }
    }
    assert(to@.take(to@.len() as int) =~= to@);
    ds
}

impl Room {
    /// The names of the members, in the order they joined.
    pub closed spec fn spec_members(&self) -> Seq<Seq<char>> {
        names(self.members@)
    }

    #[verifier::type_invariant]
    spec fn wf(&self) -> bool {
        distinct_names(names(self.members@))
    }

    /// An empty room.
    pub fn new() -> (r: Room)
        ensures
            r@ == Seq::<Seq<char>>::empty(),
    {
        let r = Room { members: Vec::new() };
        assert(names(r.members@) =~= Seq::<Seq<char>>::empty());
        r
    }

    /// Lets a user join under `name`.  When a member already has that name
    /// the room is unchanged and the answer is `Duplicate`; otherwise every
    /// member hears that the user joined, the user is told who was there,
    /// and the user becomes the last member.
    pub fn join(&mut self, name: String) -> (r: (UserJoinedResult, Vec<Delivery>))
        ensures
            distinct_names(final(self)@),
            old(self)@.contains(name@) ==> r.0 is Duplicate && r.1@.len() == 0 && final(self)@ == old(
                self,
            )@,
            !old(self)@.contains(name@) ==> {
                &&& r.0 matches UserJoinedResult::Joined { members } && names(members@) == old(self)@
                &&& delivers(r.1@, old(self)@, UserEventView::UserJoined { name: name@ })
                &&& final(self)@ == old(self)@.push(name@)
            },
    {
        proof {
            use_type_invariant(&*self);
        }
        let mut i: usize = 0;
        while i < self.members.len()
            invariant
                i <= self.members@.len(),
                distinct_names(names(self.members@)),
                forall|j: int| 0 <= j < i ==> self.members@[j]@ != name@,
            decreases self.members@.len() - i,
        {
            if self.members[i] == name {
                assert(names(self.members@)[i as int] == name@);
                return (UserJoinedResult::Duplicate, Vec::new());
            }
            i = i + 1;
        }
        assert(!names(self.members@).contains(name@)) by {
            if names(self.members@).contains(name@) {
                let j = choose|j: int| 0 <= j < names(self.members@).len() && names(self.members@)[j] == name@;
                assert(self.members@[j]@ == name@);
            }
        }
        let event = UserEvent::UserJoined { name: name.clone() };
        let deliveries = deliver_to_all(&self.members, None, &event);
        let members = self.members.clone();
        assert(names(members@) =~= names(self.members@));
        let mut taken = Room::new();
        std::mem::swap(&mut taken, self);
        let Room { members: mut list } = taken;
        let ghost before = names(list@);
        list.push(name);
        proof {
            assert(names(list@) =~= before.push(name@));
            assert(distinct_names(names(list@))) by {
                let nl = names(list@);
                assert forall|a: int, b: int| 0 <= a < nl.len() && 0 <= b < nl.len() && a != b implies nl[a]
                    != nl[b] by {
                    if a < before.len() && b < before.len() {
                        assert(nl[a] == before[a] && nl[b] == before[b]);
                    } else if a < before.len() {
                        assert(nl[a] == before[a]);
                        assert(before.contains(nl[a]));
                    } else {
                        assert(nl[b] == before[b]);
                        assert(before.contains(nl[b]));
                    }
                }
            }
        }
        *self = Room { members: list };
        (UserJoinedResult::Joined { members }, deliveries)
    }

    /// Lets the user named `name` leave: it is no longer a member, and every
    /// remaining member hears that it left.
    pub fn leave(&mut self, name: &String) -> (ds: Vec<Delivery>)
        ensures
            final(self)@ == others(old(self)@, name@),
            distinct_names(final(self)@),
            delivers(ds@, final(self)@, UserEventView::UserLeft { name: name@ }),
    {
        proof {
            use_type_invariant(&*self);
            lemma_others(names(self.members@), name@);
        }
        let mut kept: Vec<String> = Vec::new();
        let mut i: usize = 0;
        while i < self.members.len()
            invariant
                i <= self.members@.len(),
                names(kept@) == others(names(self.members@.take(i as int)), name@),
            decreases self.members@.len() - i,
        {
            if self.members[i] != *name {
                kept.push(self.members[i].clone());
            }
            i = i + 1;
            proof {
                assert(names(self.members@.take(i as int)).drop_last() =~= names(
                    self.members@.take(i - 1),
                ));
                assert(names(kept@) =~= others(names(self.members@.take(i as int)), name@));
            }
        }
        assert(self.members@.take(i as int) =~= self.members@);
        *self = Room { members: kept };
        let event = UserEvent::UserLeft { name: name.clone() };
        let ds = deliver_to_all(&self.members, None, &event);
        ds
    }

    /// Passes a chat message from `name` to every member but `name`.
    pub fn new_message(&self, name: &String, message: &String) -> (ds: Vec<Delivery>)
        ensures
            delivers(
                ds@,
                others(self@, name@),
                UserEventView::NewChatMessage { name: name@, message: message@ },
            ),
    {
        let event = UserEvent::NewChatMessage { name: name.clone(), message: message.clone() };
        deliver_to_all(&self.members, Some(name), &event)
    }
}


/// The text a user is sent about an event.
pub open spec fn spec_render(ev: UserEventView) -> Seq<char> {
    match ev {
        UserEventView::NewChatMessage { name, message } => "["@ + name + "] "@ + message,
        UserEventView::UserJoined { name } => "* "@ + name + " has entered the room"@,
        UserEventView::UserLeft { name } => "* "@ + name + " has left the room"@,
    }
}

impl UserEvent {
    /// The text a user is sent about this event.
    pub fn render(&self) -> (r: String)
        ensures
            r@ == spec_render(self@),
    {
        match self {
            UserEvent::NewChatMessage { name, message } => {
                let mut r = String::from_str("[");
                r.append(name.as_str());
                r.append("] ");
                r.append(message.as_str());
                r
            },
            UserEvent::UserJoined { name } => {
                let mut r = String::from_str("* ");
                r.append(name.as_str());
                r.append(" has entered the room");
                r
            },
            UserEvent::UserLeft { name } => {
                let mut r = String::from_str("* ");
                r.append(name.as_str());
                r.append(" has left the room");
                r
            },
        }
    }
}

/// The names in `list` with `sep` between each two.
pub open spec fn join_names(list: Seq<Seq<char>>, sep: Seq<char>) -> Seq<char>
    decreases list.len(),
{
    if list.len() == 0 {
        Seq::empty()
    } else if list.len() == 1 {
        list[0]
    } else {
        join_names(list.drop_last(), sep) + sep + list.last()
    }
}

/// The text that tells a user who joined who was in the room before.
pub open spec fn spec_member_list(members: Seq<Seq<char>>) -> Seq<char> {
    "* The room contains: "@ + join_names(members, ", "@)
}

/// Tells a user who joined who was in the room before.
pub fn member_list_message(members: &Vec<String>) -> (r: String)
    ensures
        r@ == spec_member_list(names(members@)),
{
    let mut r = String::from_str("* The room contains: ");
    let ghost prefix = r@;
    let mut i: usize = 0;
    while i < members.len()
        invariant
            i <= members@.len(),
            prefix == "* The room contains: "@,
            r@ == prefix + join_names(names(members@.take(i as int)), ", "@),
        decreases members@.len() - i,
    {
        let ghost before = r@;
        if i == 0 {
            r.append(members[i].as_str());
            proof {
                assert(names(members@.take(1)) =~= seq![members@[0]@]);
                assert(names(members@.take(0)) =~= Seq::<Seq<char>>::empty());
                assert(r@ =~= prefix + join_names(names(members@.take(1)), ", "@));
            }
        } else {
            r.append(", ");
            r.append(members[i].as_str());
            proof {
                let t = names(members@.take(i + 1));
                assert(t.drop_last() =~= names(members@.take(i as int)));
                assert(t.last() == members@[i as int]@);
                assert(r@ =~= prefix + join_names(t, ", "@));
            }
        }
        i = i + 1;
    }
    assert(members@.take(i as int) =~= members@);
    r
}

/// Where one user's session stands.
#[derive(Debug)]
pub enum Session {
    /// Welcomed; the next line is the user's name.
    AwaitingName,
    /// Asked the room to let `name` join.
    Joining { name: String },
    /// In the room as `name`.
    Chatting { name: String },
    /// Over.
    Closed,
}

/// Something that happens to a session.
#[derive(Debug)]
pub enum SessionEvent {
    /// The user sent a line.
    Line(String),
    /// The room answered the request to join.
    JoinAnswer(UserJoinedResult),
    /// The room has an event for the user.
    Room(UserEvent),
    /// The user's connection closed.
    Disconnected,
}

/// What a session asks its runner to do.
#[derive(Debug, PartialEq, Eq)]
pub enum Action {
    /// Send the user this text, as one line.
    Send(String),
    /// Ask the room to let the user join under this name.
    Join(String),
    /// Pass a chat message from `name` to the room.
    Post { name: String, message: String },
    /// Tell the room that the user under this name left.
    Leave(String),
    /// Close the connection.
    Close,
}

/// A `Session` with its strings taken as character sequences.
pub enum SessionView {
    AwaitingName,
    Joining { name: Seq<char> },
    Chatting { name: Seq<char> },
    Closed,
}

/// A `SessionEvent` with its strings taken as character sequences; a join
/// answer is the earlier members, or `None` for a duplicate name.
pub enum SessionEventView {
    Line(Seq<char>),
    JoinAnswer(Option<Seq<Seq<char>>>),
    Room(UserEventView),
    Disconnected,
}

/// An `Action` with its strings taken as character sequences.
pub enum ActionView {
    Send(Seq<char>),
    Join(Seq<char>),
    Post { name: Seq<char>, message: Seq<char> },
    Leave(Seq<char>),
    Close,
}

impl View for Session {
    type V = SessionView;

    open spec fn view(&self) -> SessionView {
        match self {
            Session::AwaitingName => SessionView::AwaitingName,
            Session::Joining { name } => SessionView::Joining { name: name@ },
            Session::Chatting { name } => SessionView::Chatting { name: name@ },
            Session::Closed => SessionView::Closed,
        }
    }
}

impl View for SessionEvent {
    type V = SessionEventView;

    open spec fn view(&self) -> SessionEventView {
        match self {
            SessionEvent::Line(l) => SessionEventView::Line(l@),
            SessionEvent::JoinAnswer(UserJoinedResult::Joined { members }) => SessionEventView::JoinAnswer(
                Some(names(members@)),
            ),
            SessionEvent::JoinAnswer(UserJoinedResult::Duplicate) => SessionEventView::JoinAnswer(None),
            SessionEvent::Room(ev) => SessionEventView::Room(ev@),
            SessionEvent::Disconnected => SessionEventView::Disconnected,
        }
    }
}

impl View for Action {
    type V = ActionView;

    open spec fn view(&self) -> ActionView {
        match self {
            Action::Send(t) => ActionView::Send(t@),
            Action::Join(n) => ActionView::Join(n@),
            Action::Post { name, message } => ActionView::Post { name: name@, message: message@ },
            Action::Leave(n) => ActionView::Leave(n@),
            Action::Close => ActionView::Close,
        }
    }
}

/// The views of a list of actions.
pub open spec fn action_views(v: Seq<Action>) -> Seq<ActionView> {
    v.map_values(|a: Action| a@)
}

/// The greeting a user gets on connecting.
pub open spec fn welcome_text() -> Seq<char> {
    "Welcome to budgetchat! What shall I call you?"@
}

/// The text a user gets for a name that may not be used.
pub open spec fn invalid_name_text() -> Seq<char> {
    "invalid name"@
}

/// The text a user gets for a name that someone in the room has.
pub open spec fn duplicate_name_text() -> Seq<char> {
    "duplicate name"@
}

/// How a session moves on an event, and what it asks for.
pub open spec fn spec_step(s: SessionView, e: SessionEventView) -> (SessionView, Seq<ActionView>) {
    match (s, e) {
        (SessionView::AwaitingName, SessionEventView::Line(name)) => if spec_is_valid_name(name) {
            (SessionView::Joining { name }, seq![ActionView::Join(name)])
        } else {
            (SessionView::Closed, seq![ActionView::Send(invalid_name_text()), ActionView::Close])
        },
        (SessionView::Joining { name }, SessionEventView::JoinAnswer(Some(members))) => (
            SessionView::Chatting { name },
            seq![ActionView::Send(spec_member_list(members))],
        ),
        (SessionView::Joining { .. }, SessionEventView::JoinAnswer(None)) => (
            SessionView::Closed,
            seq![ActionView::Send(duplicate_name_text()), ActionView::Close],
        ),
        (SessionView::Chatting { name }, SessionEventView::Line(message)) => (
            SessionView::Chatting { name },
            seq![ActionView::Post { name, message }],
        ),
        (SessionView::Chatting { name }, SessionEventView::Room(ev)) => (
            SessionView::Chatting { name },
            seq![ActionView::Send(spec_render(ev))],
        ),
        (SessionView::Chatting { name }, SessionEventView::Disconnected) => (
            SessionView::Closed,
            seq![ActionView::Leave(name), ActionView::Close],
        ),
        (SessionView::Closed, _) => (SessionView::Closed, seq![]),
        (_, SessionEventView::Disconnected) => (SessionView::Closed, seq![ActionView::Close]),
        (s, _) => (s, seq![]),
    }
}

impl Session {
    /// A new session: the user is welcomed and asked for a name.
    pub fn start() -> (r: (Session, Vec<Action>))
        ensures
            r.0@ == SessionView::AwaitingName,
            action_views(r.1@) == seq![ActionView::Send(welcome_text())],
    {
        let mut actions: Vec<Action> = Vec::new();
        actions.push(Action::Send(String::from_str("Welcome to budgetchat! What shall I call you?")));
        assert(action_views(actions@) =~= seq![ActionView::Send(welcome_text())]);
        (Session::AwaitingName, actions)
    }

    /// Moves the session on an event, and returns what is to be done.
    pub fn step(self, event: SessionEvent) -> (r: (Session, Vec<Action>))
        ensures
            (r.0@, action_views(r.1@)) == spec_step(self@, event@),
    {
        let mut actions: Vec<Action> = Vec::new();
        let ghost s = self@;
        let ghost e = event@;
        let next = match self {
            Session::Closed => Session::Closed,
            Session::AwaitingName => match event {
                SessionEvent::Line(name) => {
                    if is_valid_name(name.as_str()) {
                        actions.push(Action::Join(name.clone()));
                        Session::Joining { name }
                    } else {
                        actions.push(Action::Send(String::from_str("invalid name")));
                        actions.push(Action::Close);
                        Session::Closed
                    }
                },
                SessionEvent::Disconnected => {
                    actions.push(Action::Close);
                    Session::Closed
                },
                _ => Session::AwaitingName,
            },
            Session::Joining { name } => match event {
                SessionEvent::JoinAnswer(UserJoinedResult::Joined { members }) => {
                    actions.push(Action::Send(member_list_message(&members)));
                    Session::Chatting { name }
                },
                SessionEvent::JoinAnswer(UserJoinedResult::Duplicate) => {
                    actions.push(Action::Send(String::from_str("duplicate name")));
                    actions.push(Action::Close);
                    Session::Closed
                },
                SessionEvent::Disconnected => {
                    actions.push(Action::Close);
                    Session::Closed
                },
                _ => Session::Joining { name },
            },
            Session::Chatting { name } => match event {
                SessionEvent::Line(message) => {
                    actions.push(Action::Post { name: name.clone(), message });
                    Session::Chatting { name }
                },
                SessionEvent::Room(ev) => {
                    actions.push(Action::Send(ev.render()));
                    Session::Chatting { name }
                },
                SessionEvent::Disconnected => {
                    actions.push(Action::Leave(name));
                    actions.push(Action::Close);
                    Session::Closed
                },
                _ => Session::Chatting { name },
            },
        };
        assert(action_views(actions@) =~= spec_step(s, e).1);
        (next, actions)
    }
}


/// A member's session relays every room event, of whatever kind, as exactly
/// one line of text: a chat message from `from` reads `[from] message`, a
/// join `* who has entered the room`, a leave `* who has left the room`.
/// The session stays in the room, and each line the member sends is posted
/// to the room under the member's name.
pub proof fn lemma_chatting_relays(name: Seq<char>, ev: UserEventView, line: Seq<char>)
    ensures
        spec_step(SessionView::Chatting { name }, SessionEventView::Room(ev)).0 == (SessionView::Chatting {
            name,
        }),
        spec_step(SessionView::Chatting { name }, SessionEventView::Room(ev)).1.len() == 1,
        spec_step(SessionView::Chatting { name }, SessionEventView::Room(ev)).1[0] == ActionView::Send(
            match ev {
                UserEventView::NewChatMessage { name: from, message } => "["@ + from + "] "@
                    + message,
                UserEventView::UserJoined { name: who } => "* "@ + who + " has entered the room"@,
                UserEventView::UserLeft { name: who } => "* "@ + who + " has left the room"@,
            },
        ),
        spec_step(SessionView::Chatting { name }, SessionEventView::Line(line)) == (
            SessionView::Chatting { name },
            seq![ActionView::Post { name, message: line }],
        ),
{
}

/// A name is valid exactly when it is not empty and each of its characters
/// is a digit `0`-`9` (codes 48 to 57), an upper-case letter `A`-`Z` (65 to
/// 90) or a lower-case letter `a`-`z` (97 to 122); so any other character,
/// such as `-`, `_` or a space, makes a name invalid.
pub proof fn lemma_valid_name_chars(s: Seq<char>)
    ensures
        spec_is_alphanumeric(s) <==> forall|i: int|
            0 <= i < s.len() ==> {
                let c = #[trigger] s[i] as int;
                (48 <= c <= 57) || (65 <= c <= 90) || (97 <= c <= 122)
            },
        spec_is_valid_name(s) <==> s.len() > 0 && spec_is_alphanumeric(s),
        s.contains('-') || s.contains('_') || s.contains(' ') ==> !spec_is_alphanumeric(s),
{
    if s.contains('-') || s.contains('_') || s.contains(' ') {
        let j = choose|j: int| 0 <= j < s.len() && (s[j] == '-' || s[j] == '_' || s[j] == ' ');
        assert(!spec_is_alnum_char(s[j]));
    }
}

/// The total length of the names in `list`.
pub open spec fn total_len(list: Seq<Seq<char>>) -> int
    decreases list.len(),
{
    if list.len() == 0 {
        0
    } else {
        total_len(list.drop_last()) + list.last().len()
    }
}

/// Lengths of names add up over longer prefixes.
proof fn lemma_total_len_take(list: Seq<Seq<char>>, j: int, k: int)
    requires
        0 <= j <= k <= list.len(),
    ensures
        0 <= total_len(list.take(j)) <= total_len(list.take(k)),
    decreases k,
{
    if j < k {
        lemma_total_len_take(list, j, k - 1);
        assert(list.take(k).drop_last() =~= list.take(k - 1));
    } else if k > 0 {
        lemma_total_len_take(list, 0, k - 1);
        assert(list.take(k).drop_last() =~= list.take(k - 1));
        assert(list.take(0) =~= Seq::<Seq<char>>::empty());
    } else {
        assert(list.take(0) =~= Seq::<Seq<char>>::empty());
    }
}

/// The joined text is as long as the names and the separators between them.
proof fn lemma_join_len(list: Seq<Seq<char>>, sep: Seq<char>)
    ensures
        list.len() == 0 ==> join_names(list, sep).len() == 0,
        list.len() > 0 ==> join_names(list, sep).len() == total_len(list) + sep.len() * (list.len()
            - 1),
    decreases list.len(),
{
    if list.len() == 1 {
        assert(list.drop_last() =~= Seq::<Seq<char>>::empty());
        assert(total_len(list.drop_last()) == 0);
        assert(sep.len() * 0 == 0);
    } else if list.len() > 1 {
        lemma_join_len(list.drop_last(), sep);
        let n = list.len();
        assert(sep.len() * (n - 2) + sep.len() == sep.len() * (n - 1)) by (nonlinear_arith);
    }
}

/// Each name stands in the joined text after the names and separators
/// before it.
proof fn lemma_join_contains(list: Seq<Seq<char>>, sep: Seq<char>, i: int)
    requires
        0 <= i < list.len(),
    ensures
        0 <= total_len(list.take(i)) + sep.len() * i,
        total_len(list.take(i)) + sep.len() * i + list[i].len() <= join_names(list, sep).len(),
        join_names(list, sep).subrange(
            total_len(list.take(i)) + sep.len() * i,
            total_len(list.take(i)) + sep.len() * i + list[i].len(),
        ) == list[i],
    decreases list.len(),
{
    let n = list.len();
    lemma_total_len_take(list, 0, i);
    assert(0 <= sep.len() * i) by (nonlinear_arith)
        requires
            i >= 0,
    ;
    if n == 1 {
        assert(list.take(0) =~= Seq::<Seq<char>>::empty());
        assert(total_len(list.take(0)) == 0);
        assert(i == 0);
        assert(sep.len() * 0 == 0);
        assert(join_names(list, sep) == list[0]);
        assert(list[0].subrange(0, list[0].len() as int) =~= list[0]);
    } else {
        let t = list.drop_last();
        let jt = join_names(t, sep);
        lemma_join_len(t, sep);
        assert(join_names(list, sep) == jt + sep + list.last());
        if i == n - 1 {
            assert(list.take(i) =~= t);
            let off: int = jt.len() as int + sep.len() as int;
            assert(total_len(list.take(i)) + sep.len() * i == off) by {
                assert(sep.len() * (n - 2) + sep.len() == sep.len() * (n - 1)) by (nonlinear_arith);
            }
            assert((jt + sep + list.last()).subrange(off, off + list[i].len()) =~= list[i]);
        } else {
            lemma_join_contains(t, sep, i);
            assert(t.take(i) =~= list.take(i));
            assert(t[i] == list[i]);
            let off = total_len(list.take(i)) + sep.len() * i;
            assert((jt + sep + list.last()).subrange(off, off + list[i].len()) =~= jt.subrange(
                off,
                off + list[i].len(),
            ));
        }
    }
}

/// The text telling a new user who is in the room begins with
/// `* The room contains: ` and then names every member given, in order,
/// with `, ` between each two: each member's name stands at its place, and
/// the text is exactly as long as the prefix, all the names and the
/// separators.
pub proof fn lemma_member_list(members: Seq<Seq<char>>)
    ensures
        spec_member_list(members).take(21) == "* The room contains: "@,
        spec_member_list(members).len() == 21 + total_len(members) + if members.len() > 0 {
            2 * (members.len() - 1)
        } else {
            0
        },
        forall|i: int|
            0 <= i < members.len() ==> spec_member_list(members).subrange(
                21 + total_len(members.take(i)) + 2 * i,
                21 + total_len(members.take(i)) + 2 * i + members[i].len(),
            ) == #[trigger] members[i],
{
    reveal_strlit("* The room contains: ");
    reveal_strlit(", ");
    let prefix = "* The room contains: "@;
    let sep = ", "@;
    assert(prefix.len() == 21);
    assert(sep.len() == 2);
    let j = join_names(members, sep);
    lemma_join_len(members, sep);
    assert((prefix + j).take(21) =~= prefix);
    assert forall|i: int| 0 <= i < members.len() implies (prefix + j).subrange(
        21 + total_len(members.take(i)) + 2 * i,
        21 + total_len(members.take(i)) + 2 * i + members[i].len(),
    ) == #[trigger] members[i] by {
        lemma_join_contains(members, sep, i);
        let off = total_len(members.take(i)) + 2 * i;
        assert((prefix + j).subrange(21 + off, 21 + off + members[i].len()) =~= j.subrange(
            off,
            off + members[i].len(),
        ));
    }
}

} // verus!
