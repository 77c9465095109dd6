//! The session registry: per session, the game state and the channels of the
//! subscribed clients, with broadcasting to those channels.
use vstd::prelude::*;

use tokio::sync::mpsc::UnboundedSender;

use crate::game::{
    fresh_game, found, scored, stored, GameNumber, GameState, GameView, GuessScore,
};
use crate::keyed::{
    keyed, keys_unique, lemma_keyed_contains, lemma_keyed_index, lemma_keyed_push,
    lemma_keyed_remove, lemma_keyed_update,
};
use crate::channel::{send_message, Delivery, SendLog, Sent};
use crate::message::{announces, Message};

verus! {

/// A client's network endpoint: the address's 128 bits (an IPv4 address in
/// its low 32 bits), whether it is IPv4, the IPv6 scope id (zero for IPv4),
/// and the port.
#[derive(Clone, Copy, Debug, PartialEq, Eq, Structural, Hash)]
pub struct Endpoint {
    pub ip: u128,
    pub is_v4: bool,
    pub scope_id: u32,
    pub port: u16,
}

struct Client {
    endpoint: Endpoint,
    tx: UnboundedSender<Message>,
}

struct Session {
    id: String,
    clients: Vec<Client>,
    game_state: GameState,
}

/// The abstract content of a session: its game and the channel of each
/// subscribed client, by endpoint.
pub struct SessionView {
    pub game: GameView,
    pub channels: Map<Endpoint, UnboundedSender<Message>>,
}

spec fn client_entries(c: Seq<Client>) -> Seq<(Endpoint, UnboundedSender<Message>)> {
    c.map_values(|x: Client| (x.endpoint, x.tx))
}

impl Session {
    spec fn view(&self) -> SessionView {
        SessionView { game: self.game_state@, channels: keyed(client_entries(self.clients@)) }
    }

    spec fn wf(&self) -> bool {
        &&& self.game_state.wf()
        &&& keys_unique(client_entries(self.clients@))
    }

    /// Registers `tx` for `endpoint`, replacing an earlier channel of it.
    fn add_channel(&mut self, endpoint: Endpoint, tx: UnboundedSender<Message>)
        requires
            old(self).wf(),
        ensures
            final(self).wf(),
            final(self).id == old(self).id,
            final(self).view() == (SessionView {
                game: old(self).view().game,
                channels: old(self).view().channels.insert(endpoint, tx),
            }),
    {
        let ghost e = client_entries(self.clients@);
        let n = self.clients.len();
        let mut k: usize = 0;
        while k < n
            invariant
                n == self.clients.len(),
                0 <= k <= n,
                e == client_entries(self.clients@),
                e == client_entries(old(self).clients@),
                keys_unique(e),
                forall|j: int| 0 <= j < k ==> e[j].0 != endpoint,
                self.id == old(self).id,
                self.game_state == old(self).game_state,
                self.game_state.wf(),
            decreases n - k,
        {
            if self.clients[k].endpoint == endpoint {
                let _ = self.clients.remove(k);
                self.clients.insert(k, Client { endpoint, tx });
                proof {
                    lemma_keyed_update(e, k as int, tx);
                    assert(client_entries(self.clients@) =~= e.update(k as int, (e[k as int].0, tx)));
                }
                return;
            }
            k = k + 1;
        }
        self.clients.push(Client { endpoint, tx });
        proof {
            lemma_keyed_push(e, (endpoint, tx));
            assert(client_entries(self.clients@) =~= e.push((endpoint, tx)));
            assert(keys_unique(e.push((endpoint, tx))));
        }
    }

    /// Removes the channel of `endpoint`, if there is one.
    fn remove_channel(&mut self, endpoint: Endpoint)
        requires
            old(self).wf(),
        ensures
            final(self).wf(),
            final(self).id == old(self).id,
            final(self).view() == (SessionView {
                game: old(self).view().game,
                channels: old(self).view().channels.remove(endpoint),
            }),
    {
        let ghost e = client_entries(self.clients@);
        let n = self.clients.len();
        let mut k: usize = 0;
        while k < n
            invariant
                n == self.clients.len(),
                0 <= k <= n,
                e == client_entries(self.clients@),
                e == client_entries(old(self).clients@),
                keys_unique(e),
                forall|j: int| 0 <= j < k ==> e[j].0 != endpoint,
                self.id == old(self).id,
                self.game_state == old(self).game_state,
                self.game_state.wf(),
            decreases n - k,
        {
            if self.clients[k].endpoint == endpoint {
                let _ = self.clients.remove(k);
                proof {
                    lemma_keyed_remove(e, k as int);
                    assert(client_entries(self.clients@) =~= e.remove(k as int));
                }
                return;
            }
            k = k + 1;
        }
        proof {
            lemma_keyed_contains(e, endpoint);
            assert(keyed(e).remove(endpoint) =~= keyed(e));
        }
    }

    /// Sends a copy of `message` to every channel of this session, in order,
    /// going on past channels whose receiving side is gone; one record per
    /// channel, and one entry per channel appended to `log`.
    fn deliver(&self, message: &Message, log: &mut SendLog) -> (r: Vec<Delivery>)
        requires
            self.wf(),
        ensures
            reports_to(r@, self.view().channels.dom(), *message),
            extends(old(log)@, final(log)@),
            sends_to(added(old(log)@, final(log)@), self.id@, self.view().channels, *message),
    {
        let ghost l0 = log@;
        let mut out: Vec<Delivery> = Vec::new();
        let mut k: usize = 0;
        while k < self.clients.len()
            invariant
                0 <= k <= self.clients.len(),
                out.len() == k,
                forall|j: int| 0 <= j < k ==> (#[trigger] out@[j]).spec_endpoint() == self.clients@[j].endpoint
                    && out@[j].spec_sent().same_content(*message),
                log@.len() == l0.len() + k,
                log@.subrange(0, l0.len() as int) == l0,
                forall|j: int| 0 <= j < k ==> {
                    let s = #[trigger] log@[l0.len() + j];
                    &&& s.0 == self.id@
                    &&& s.1 == self.clients@[j].endpoint
                    &&& s.2 == self.clients@[j].tx
                    &&& s.3.same_content(*message)
                },
            decreases self.clients.len() - k,
        {
            let ghost before = log@;
            let d = send_message(log, &self.id, self.clients[k].endpoint, &self.clients[k].tx, message.duplicate());
            out.push(d);
            proof {
                assert(log@.subrange(0, l0.len() as int) =~= before.subrange(0, l0.len() as int));
                assert forall|j: int| 0 <= j < k + 1 implies {
                    let s = #[trigger] log@[l0.len() + j];
                    &&& s.0 == self.id@
                    &&& s.1 == self.clients@[j].endpoint
                    &&& s.2 == self.clients@[j].tx
                    &&& s.3.same_content(*message)
                } by {
                    if j < k {
                        assert(log@[l0.len() + j] == before[l0.len() + j]);
                    }
                }
            }
            k = k + 1;
        }
        proof {
            let e = client_entries(self.clients@);
            let a = added(l0, log@);
            assert(extends(l0, log@));
            assert forall|j: int| 0 <= j < a.len() implies a[j] == log@[l0.len() + j] by {}
            assert forall|x: Endpoint| self.view().channels.dom().contains(x) implies
                reported(out@).contains(x) by {
                lemma_keyed_contains(e, x);
                let j = choose|j: int| 0 <= j < e.len() && e[j].0 == x;
                assert(out@[j].spec_endpoint() == x);
            }
            assert forall|x: Endpoint| reported(out@).contains(x) implies
                self.view().channels.dom().contains(x) by {
                let k = choose|k: int| 0 <= k < out.len() && out@[k].spec_endpoint() == x;
                assert(out@[k].spec_endpoint() == self.clients@[k].endpoint);
                lemma_keyed_contains(e, x);
                assert(e[k].0 == x);
            }
            assert(reported(out@) =~= self.view().channels.dom());
            assert forall|j: int, k: int| 0 <= j < k < out.len() implies
                out@[j].spec_endpoint() != out@[k].spec_endpoint() by {
                assert(out@[j].spec_endpoint() == e[j].0);
                assert(out@[k].spec_endpoint() == e[k].0);
            }
            assert forall|j: int| 0 <= j < a.len() implies {
                &&& (#[trigger] a[j]).0 == self.id@
                &&& self.view().channels.contains_key(a[j].1)
                &&& self.view().channels[a[j].1] == a[j].2
                &&& a[j].3.same_content(*message)
            } by {
                assert(a[j] == log@[l0.len() + j]);
                lemma_keyed_index(e, j);
            }
            assert forall|j: int, k: int| 0 <= j < k < a.len() implies a[j].1 != a[k].1 by {
                assert(a[j] == log@[l0.len() + j]);
                assert(a[k] == log@[l0.len() + k]);
                assert(e[j].0 == a[j].1);
                assert(e[k].0 == a[k].1);
            }
            assert forall|x: Endpoint| #[trigger] self.view().channels.contains_key(x) implies
                exists|k: int| 0 <= k < a.len() && a[k].1 == x by {
                lemma_keyed_contains(e, x);
                let j = choose|j: int| 0 <= j < e.len() && e[j].0 == x;
                assert(a[j] == log@[l0.len() + j]);
                assert(a[j].1 == x);
            }
        }
        out
    }
}

spec fn session_entries(s: Seq<Session>) -> Seq<(Seq<char>, SessionView)> {
    s.map_values(|x: Session| (x.id@, x.view()))
}

/// `after` is `before` with entries appended.
pub open spec fn extends(before: Seq<Sent>, after: Seq<Sent>) -> bool {
    before.len() <= after.len() && after.subrange(0, before.len() as int) == before
}

/// The entries appended to `before` to give `after`.
pub open spec fn added(before: Seq<Sent>, after: Seq<Sent>) -> Seq<Sent> {
    after.subrange(before.len() as int, after.len() as int)
}

/// The sends `s` hand `m` to the registered channel of each endpoint of
/// session `id`, once each, and to no other channel.
pub open spec fn sends_to(
    s: Seq<Sent>,
    id: Seq<char>,
    channels: Map<Endpoint, UnboundedSender<Message>>,
    m: Message,
) -> bool {
    &&& forall|k: int| 0 <= k < s.len() ==> {
        &&& (#[trigger] s[k]).0 == id
        &&& channels.contains_key(s[k].1)
        &&& channels[s[k].1] == s[k].2
        &&& s[k].3.same_content(m)
    }
    &&& forall|j: int, k: int| 0 <= j < k < s.len() ==> s[j].1 != s[k].1
    &&& forall|x: Endpoint| #[trigger] channels.contains_key(x) ==> exists|k: int| 0 <= k < s.len() && s[k].1 == x
}

/// The sends `s` hand the sentinel to the registered channel of each
/// endpoint of each session of `v`, once each, and to no other channel.
pub open spec fn sends_shutdown(s: Seq<Sent>, v: Map<Seq<char>, SessionView>) -> bool {
    &&& forall|k: int| 0 <= k < s.len() ==> {
        &&& v.contains_key((#[trigger] s[k]).0)
        &&& v[s[k].0].channels.contains_key(s[k].1)
        &&& v[s[k].0].channels[s[k].1] == s[k].2
        &&& s[k].3 is Shutdown
    }
    &&& forall|j: int, k: int| 0 <= j < k < s.len() ==> !(s[j].0 == s[k].0 && s[j].1 == s[k].1)
    &&& forall|id: Seq<char>, x: Endpoint| v.contains_key(id) && #[trigger] v[id].channels.contains_key(x)
        ==> exists|k: int| 0 <= k < s.len() && s[k].0 == id && s[k].1 == x
}

/// The channels of session `id`, none when it does not exist.
pub open spec fn channels_of(v: Map<Seq<char>, SessionView>, id: Seq<char>) -> Map<Endpoint, UnboundedSender<Message>> {
    if v.contains_key(id) {
        v[id].channels
    } else {
        Map::empty()
    }
}

/// The endpoints that a list of send records speaks of.
pub open spec fn reported(r: Seq<Delivery>) -> Set<Endpoint> {
    Set::new(|e: Endpoint| exists|k: int| 0 <= k < r.len() && r[k].spec_endpoint() == e)
}

/// The records hold one send of `m` to each endpoint of `endpoints`, and no
/// other send.
pub open spec fn reports_to(r: Seq<Delivery>, endpoints: Set<Endpoint>, m: Message) -> bool {
    &&& reported(r) == endpoints
    &&& forall|j: int, k: int| 0 <= j < k < r.len() ==> r[j].spec_endpoint() != r[k].spec_endpoint()
    &&& forall|k: int| 0 <= k < r.len() ==> (#[trigger] r[k]).spec_sent().same_content(m)
}

/// Every session of `before` is in `after` with the same game number, every
/// word stored in `before` still stored, and a target word, once set, unchanged.
pub open spec fn keeps_games(before: Map<Seq<char>, SessionView>, after: Map<Seq<char>, SessionView>) -> bool {
    forall|id: Seq<char>| #[trigger] before.contains_key(id) ==> {
        &&& after.contains_key(id)
        &&& after[id].game.game_number == before[id].game.game_number
        &&& before[id].game.guesses.dom().subset_of(after[id].game.guesses.dom())
        &&& (before[id].game.target is Some ==> after[id].game.target == before[id].game.target)
    }
}

/// The registry after `id` is joined: unchanged if the session exists, else
/// with a fresh session for `game_number`.
pub open spec fn joined(v: Map<Seq<char>, SessionView>, id: Seq<char>, game_number: GameNumber) -> Map<
    Seq<char>,
    SessionView,
> {
    if v.contains_key(id) {
        v
    } else {
        v.insert(id, SessionView { game: fresh_game(game_number), channels: Map::empty() })
    }
}

/// The registry with the game of session `id`, if it exists, replaced by `g`.
pub open spec fn with_game(v: Map<Seq<char>, SessionView>, id: Seq<char>, g: GameView) -> Map<
    Seq<char>,
    SessionView,
> {
    if v.contains_key(id) {
        v.insert(id, SessionView { game: g, channels: v[id].channels })
    } else {
        v
    }
}

/// The registry after `endpoint` subscribes to `id` with channel `tx`,
/// creating the session if needed and replacing an earlier channel of `endpoint`.
pub open spec fn with_client(
    v: Map<Seq<char>, SessionView>,
    id: Seq<char>,
    game_number: GameNumber,
    endpoint: Endpoint,
    tx: UnboundedSender<Message>,
) -> Map<Seq<char>, SessionView> {
    let s = joined(v, id, game_number)[id];
    v.insert(id, SessionView { game: s.game, channels: s.channels.insert(endpoint, tx) })
}

/// The registry after `endpoint` leaves session `id`; the session stays,
/// even when it has no client left.
pub open spec fn without_client(v: Map<Seq<char>, SessionView>, id: Seq<char>, endpoint: Endpoint) -> Map<
    Seq<char>,
    SessionView,
> {
    if v.contains_key(id) {
        v.insert(id, SessionView { game: v[id].game, channels: v[id].channels.remove(endpoint) })
    } else {
        v
    }
}

/// All sessions, with their game states and client channels.
pub struct Connections {
    sessions: Vec<Session>,
    log: SendLog,
}

impl View for Connections {
    type V = Map<Seq<char>, SessionView>;

    closed spec fn view(&self) -> Map<Seq<char>, SessionView> {
        keyed(session_entries(self.sessions@))
    }
}

spec fn sent_from(s: Session, x: Sent) -> bool {
    &&& x.0 == s.id@
    &&& s.view().channels.contains_key(x.1)
    &&& s.view().channels[x.1] == x.2
    &&& x.3 is Shutdown
}

spec fn sent_by_first(s: Seq<Session>, n: int, x: Sent) -> bool {
    exists|j: int| 0 <= j < n && sent_from(#[trigger] s[j], x)
}

spec fn covered(a: Seq<Sent>, id: Seq<char>, x: Endpoint) -> bool {
    exists|k: int| 0 <= k < a.len() && a[k].0 == id && a[k].1 == x
}

spec fn final_view(c: &Connections) -> Map<Seq<char>, SessionView> {
    keyed(session_entries(c.sessions@))
}

impl Connections {
    /// Every send made through this registry, in order.
    pub closed spec fn sent_log(&self) -> Seq<Sent> {
        self.log@
    }

    pub closed spec fn wf(&self) -> bool {
        &&& keys_unique(session_entries(self.sessions@))
        &&& forall|i: int| 0 <= i < self.sessions.len() ==> (#[trigger] self.sessions@[i]).wf()
    }

    /// An empty registry.
    pub fn new() -> (r: Connections)
        ensures
            r.wf(),
            r@ == Map::<Seq<char>, SessionView>::empty(),
            r.sent_log() == Seq::<Sent>::empty(),
    {
        let r = Connections { sessions: Vec::new(), log: SendLog::new() };
        assert(session_entries(r.sessions@) =~= Seq::empty());
        r
    }

    fn find_session(&self, session_id: &String) -> (r: Option<usize>)
        requires
            self.wf(),
        ensures
            r matches Some(i) ==> i < self.sessions.len() && self.sessions@[i as int].id@ == session_id@
                && self@.contains_key(session_id@) && self@[session_id@] == self.sessions@[i as int].view(),
            r is None ==> !self@.contains_key(session_id@),
    {
        let ghost e = session_entries(self.sessions@);
        let mut i: usize = 0;
        while i < self.sessions.len()
            invariant
                0 <= i <= self.sessions.len(),
                e == session_entries(self.sessions@),
                keys_unique(e),
                forall|j: int| 0 <= j < i ==> e[j].0 != session_id@,
            decreases self.sessions.len() - i,
        {
            if self.sessions[i].id == *session_id {
                proof {
                    lemma_keyed_index(e, i as int);
                }
                return Some(i);
            }
            i = i + 1;
        }
        proof {
            lemma_keyed_contains(e, session_id@);
        }
        None
    }

    /// Puts `s`, whose id is that of the session at `i`, in its place.
    fn replace_session(&mut self, i: usize, s: Session)
        requires
            old(self).wf(),
            i < old(self).sessions.len(),
            s.id@ == old(self).sessions@[i as int].id@,
            s.wf(),
        ensures
            final(self).wf(),
            final(self).log == old(self).log,
            final(self)@ == old(self)@.insert(s.id@, s.view()),
    {
        let ghost e = session_entries(self.sessions@);
        let ghost sv = s.view();
        let _ = self.sessions.remove(i);
        self.sessions.insert(i, s);
        proof {
            lemma_keyed_update(e, i as int, sv);
            assert(session_entries(self.sessions@) =~= e.update(i as int, (e[i as int].0, sv)));
            assert forall|j: int| 0 <= j < self.sessions.len() implies (#[trigger] self.sessions@[j]).wf() by {
                if j != i {
                    assert(self.sessions@[j] == old(self).sessions@[j]);
                }
            }
        }
    }

    /// Takes out the session at `i`, leaving a placeholder with the same id.
    fn take_session(&mut self, i: usize) -> (r: Session)
        requires
            old(self).wf(),
            i < old(self).sessions.len(),
        ensures
            r == old(self).sessions@[i as int],
            r.wf(),
            final(self).sessions.len() == old(self).sessions.len(),
            forall|j: int| 0 <= j < old(self).sessions.len() && j != i ==> final(self).sessions@[j] == old(self).sessions@[j],
            final(self).sessions@[i as int].id@ == r.id@,
            final(self).wf(),
            final(self).log == old(self).log,
            final(self)@ == old(self)@.insert(r.id@, final(self).sessions@[i as int].view()),
    {
        proof {
            assert(old(self).sessions@[i as int].wf());
        }
        let r = self.sessions.remove(i);
        let placeholder = Session {
            id: r.id.clone(),
            clients: Vec::new(),
            game_state: GameState::new(0),
        };
        self.sessions.insert(i, placeholder);
        proof {
            let e = session_entries(old(self).sessions@);
            assert(session_entries(self.sessions@) =~= e.update(
                i as int,
                (e[i as int].0, self.sessions@[i as int].view()),
            ));
            lemma_keyed_update(e, i as int, self.sessions@[i as int].view());
            assert(client_entries(self.sessions@[i as int].clients@) =~= Seq::empty());
            assert forall|j: int| 0 <= j < self.sessions.len() implies (#[trigger] self.sessions@[j]).wf() by {
                if j != i {
                    assert(self.sessions@[j] == old(self).sessions@[j]);
                }
            }
        }
        r
    }

    /// Stores `guess_score` in the session's game, replacing an earlier score
    /// of the same word; an unknown session is left as it is. Tells whether
    /// the session exists.
    pub fn add_guess(&mut self, session_id: &String, guess_score: GuessScore) -> (known: bool)
        requires
            old(self).wf(),
        ensures
            known == old(self)@.contains_key(session_id@),
            final(self).wf(),
            final(self).sent_log() == old(self).sent_log(),
            final(self)@ == with_game(
                old(self)@,
                session_id@,
                stored(old(self)@[session_id@].game, guess_score.guess@, guess_score.score),
            ),
            keeps_games(old(self)@, final(self)@),
    {
        match self.find_session(session_id) {
            Some(i) => {
                let mut s = self.take_session(i);
                s.game_state.record_guess(guess_score);
                self.replace_session(i, s);
                true
            },
            None => false,
        }
    }

    /// Sets the session's target word unless one is set; an unknown session
    /// is left as it is. Tells whether the session exists.
    pub fn word_guessed(&mut self, session_id: &String, word: String) -> (known: bool)
        requires
            old(self).wf(),
        ensures
            known == old(self)@.contains_key(session_id@),
            final(self).wf(),
            final(self).sent_log() == old(self).sent_log(),
            final(self)@ == with_game(old(self)@, session_id@, found(old(self)@[session_id@].game, word@)),
            keeps_games(old(self)@, final(self)@),
    {
        match self.find_session(session_id) {
            Some(i) => {
                let mut s = self.take_session(i);
                s.game_state.record_target(word);
                self.replace_session(i, s);
                true
            },
            None => false,
        }
    }

    fn position_or_create(&mut self, session_id: &String, game_number: GameNumber) -> (r: usize)
        requires
            old(self).wf(),
        ensures
            final(self).wf(),
            final(self).log == old(self).log,
            final(self)@ == joined(old(self)@, session_id@, game_number),
            r < final(self).sessions.len(),
            final(self).sessions@[r as int].id@ == session_id@,
            final(self)@[session_id@] == final(self).sessions@[r as int].view(),
    {
        match self.find_session(session_id) {
            Some(i) => i,
            None => {
                let ghost e = session_entries(self.sessions@);
                let s = Session {
                    id: session_id.clone(),
                    clients: Vec::new(),
                    game_state: GameState::new(game_number),
                };
                proof {
                    assert(client_entries(s.clients@) =~= Seq::empty());
                    assert(keyed(client_entries(s.clients@)).dom() =~= Set::empty());
                    lemma_keyed_contains(e, session_id@);
                    lemma_keyed_push(e, (s.id@, s.view()));
                }
                self.sessions.push(s);
                proof {
                    assert(session_entries(self.sessions@) =~= e.push((s.id@, s.view())));
                    assert(keys_unique(e.push((s.id@, s.view()))));
                    assert forall|j: int| 0 <= j < self.sessions.len() implies (#[trigger] self.sessions@[j]).wf() by {
                        if j < self.sessions.len() - 1 {
                            assert(self.sessions@[j] == old(self).sessions@[j]);
                        }
                    }
                }
                self.sessions.len() - 1
            },
        }
    }

    /// Joins a session: creates it with a fresh game for `game_number` if it
    /// does not exist, and returns a copy of its game state.
    pub fn join_game(&mut self, session_id: &String, game_number: GameNumber) -> (r: GameState)
        requires
            old(self).wf(),
        ensures
            final(self).wf(),
            final(self).sent_log() == old(self).sent_log(),
            final(self)@ == joined(old(self)@, session_id@, game_number),
            keeps_games(old(self)@, final(self)@),
            r.wf(),
            r@ == final(self)@[session_id@].game,
    {
        let i = self.position_or_create(session_id, game_number);
        self.sessions[i].game_state.snapshot()
    }

    /// Registers the channel of `endpoint` under the session, creating the
    /// session with a fresh game for `game_number` if needed; a channel
    /// already registered for `endpoint` is replaced.
    pub fn add_client(
        &mut self,
        session_id: String,
        game_number: GameNumber,
        endpoint: Endpoint,
        tx: UnboundedSender<Message>,
    )
        requires
            old(self).wf(),
        ensures
            final(self).wf(),
            final(self).sent_log() == old(self).sent_log(),
            final(self)@ == with_client(old(self)@, session_id@, game_number, endpoint, tx),
            keeps_games(old(self)@, final(self)@),
    {
        let ghost t = tx;
        let i = self.position_or_create(&session_id, game_number);
        let mut s = self.take_session(i);
        s.add_channel(endpoint, tx);
        self.replace_session(i, s);
        assert(final_view(self) =~= with_client(old(self)@, session_id@, game_number, endpoint, t));
    }

    /// Removes the channel of `endpoint` from the session; the session stays
    /// even when no client is left. Unknown sessions and endpoints change nothing.
    pub fn remove_client(&mut self, session_id: &String, endpoint: Endpoint)
        requires
            old(self).wf(),
        ensures
            final(self).wf(),
            final(self).sent_log() == old(self).sent_log(),
            final(self)@ == without_client(old(self)@, session_id@, endpoint),
            keeps_games(old(self)@, final(self)@),
    {
        match self.find_session(session_id) {
            Some(i) => {
                let mut s = self.take_session(i);
                s.remove_channel(endpoint);
                self.replace_session(i, s);
                assert(final_view(self) =~= without_client(old(self)@, session_id@, endpoint));
            },
            None => {},
        }
    }

    /// Sends a copy of `message` to the registered channel of every client of
    /// the session, going on past channels whose receiving side is gone; one
    /// record per channel. Nothing else is sent, and nothing at all for an
    /// unknown session.
    pub fn broadcast(&mut self, session_id: &String, message: &Message) -> (r: Vec<Delivery>)
        requires
            old(self).wf(),
        ensures
            final(self).wf(),
            final(self)@ == old(self)@,
            reports_to(r@, channels_of(old(self)@, session_id@).dom(), *message),
            extends(old(self).sent_log(), final(self).sent_log()),
            sends_to(
                added(old(self).sent_log(), final(self).sent_log()),
                session_id@,
                channels_of(old(self)@, session_id@),
                *message,
            ),
    {
        match self.find_session(session_id) {
            Some(i) => {
                assert(self.sessions@[i as int].wf());
                let r = self.sessions[i].deliver(message, &mut self.log);
                r
            },
            None => {
                let out: Vec<Delivery> = Vec::new();
                assert(reported(out@) =~= Set::<Endpoint>::empty());
                assert(added(self.log@, self.log@) =~= Seq::<Sent>::empty());
                assert(self.log@.subrange(0, self.log@.len() as int) =~= self.log@);
                out
            },
        }
    }

    /// Sends the `Shutdown` sentinel to the registered channel of every
    /// client of every session, going on past channels whose receiving side
    /// is gone, and sends nothing else: one entry per session, with its id
    /// and one record per channel.
    pub fn shutdown(&mut self) -> (r: Vec<(String, Vec<Delivery>)>)
        requires
            old(self).wf(),
        ensures
            final(self).wf(),
            final(self)@ == old(self)@,
            forall|id: Seq<char>| #[trigger] old(self)@.contains_key(id) ==> exists|k: int|
                0 <= k < r.len() && r@[k].0@ == id,
            forall|j: int, k: int| 0 <= j < k < r.len() ==> r@[j].0@ != r@[k].0@,
            forall|k: int| 0 <= k < r.len() ==> old(self)@.contains_key(#[trigger] r@[k].0@) && reports_to(
                r@[k].1@,
                old(self)@[r@[k].0@].channels.dom(),
                Message::Shutdown,
            ),
            extends(old(self).sent_log(), final(self).sent_log()),
            sends_shutdown(added(old(self).sent_log(), final(self).sent_log()), old(self)@),
    {
        let shutdown_message = Message::Shutdown;
        let mut out: Vec<(String, Vec<Delivery>)> = Vec::new();
        let ghost e = session_entries(self.sessions@);
        let ghost l0 = self.log@;
        assert(l0.subrange(0, l0.len() as int) =~= l0);
        assert(added(l0, l0) =~= Seq::<Sent>::empty());
        let mut i: usize = 0;
        while i < self.sessions.len()
            invariant
                0 <= i <= self.sessions.len(),
                self.wf(),
                self.sessions == old(self).sessions,
                shutdown_message == Message::Shutdown,
                e == session_entries(self.sessions@),
                out.len() == i,
                forall|j: int| 0 <= j < i ==> (#[trigger] out@[j]).0@ == self.sessions@[j].id@ && reports_to(
                    out@[j].1@,
                    self.sessions@[j].view().channels.dom(),
                    Message::Shutdown,
                ),
                extends(l0, self.log@),
                forall|k: int| 0 <= k < added(l0, self.log@).len() ==> sent_by_first(
                    self.sessions@,
                    i as int,
                    #[trigger] added(l0, self.log@)[k],
                ),
                forall|j: int, k: int| 0 <= j < k < added(l0, self.log@).len() ==> !(added(l0, self.log@)[j].0
                    == added(l0, self.log@)[k].0 && added(l0, self.log@)[j].1 == added(l0, self.log@)[k].1),
                forall|j: int, x: Endpoint| 0 <= j < i && #[trigger] self.sessions@[j].view().channels.contains_key(x)
                    ==> covered(added(l0, self.log@), self.sessions@[j].id@, x),
            decreases self.sessions.len() - i,
        {
            assert(self.sessions@[i as int].wf());
            let ghost lb = self.log@;
            let records = self.sessions[i].deliver(&shutdown_message, &mut self.log);
            let ghost rv = records@;
            let ghost before = out@;
            let id = self.sessions[i].id.clone();
            out.push((id, records));
            proof {
                let a0 = added(l0, lb);
                let seg = added(lb, self.log@);
                let a1 = added(l0, self.log@);
                assert(a1 =~= a0 + seg);
                assert(self.log@.subrange(0, l0.len() as int) =~= lb.subrange(0, l0.len() as int));
                let si = self.sessions@[i as int];
                assert forall|j: int| 0 <= j < i + 1 implies (#[trigger] out@[j]).0@ == self.sessions@[j].id@
                    && reports_to(out@[j].1@, self.sessions@[j].view().channels.dom(), Message::Shutdown) by {
                    if j < i {
                        assert(out@[j] == before[j]);
                    } else {
                        assert(out@[j].1@ == rv);
                    }
                }
                assert forall|k: int| 0 <= k < a1.len() implies sent_by_first(self.sessions@, i + 1, #[trigger] a1[k]) by {
                    if k < a0.len() {
                        assert(a1[k] == a0[k]);
                        assert(sent_by_first(self.sessions@, i as int, a0[k]));
                        let j = choose|j: int| 0 <= j < i && sent_from(#[trigger] self.sessions@[j], a0[k]);
                        assert(sent_from(self.sessions@[j], a1[k]));
                    } else {
                        assert(a1[k] == seg[k - a0.len()]);
                        assert(sent_from(self.sessions@[i as int], a1[k]));
                    }
                }
                assert forall|j: int, k: int| 0 <= j < k < a1.len() implies !(a1[j].0 == a1[k].0 && a1[j].1 == a1[k].1) by {
                    if k >= a0.len() && j < a0.len() {
                        assert(a1[j] == a0[j]);
                        assert(sent_by_first(self.sessions@, i as int, a0[j]));
                        let jj = choose|jj: int| 0 <= jj < i && sent_from(#[trigger] self.sessions@[jj], a0[j]);
                        assert(a1[k] == seg[k - a0.len()]);
                        assert(e[jj].0 != e[i as int].0);
                    } else if j >= a0.len() {
                        assert(a1[j] == seg[j - a0.len()]);
                        assert(a1[k] == seg[k - a0.len()]);
                    } else {
                        assert(a1[j] == a0[j]);
                        assert(a1[k] == a0[k]);
                    }
                }
                assert forall|j: int, x: Endpoint| 0 <= j < i + 1 && #[trigger] self.sessions@[j].view().channels.contains_key(x)
                    implies covered(a1, self.sessions@[j].id@, x) by {
                    if j < i {
                        assert(covered(a0, self.sessions@[j].id@, x));
                        let k = choose|k: int| 0 <= k < a0.len() && a0[k].0 == self.sessions@[j].id@ && a0[k].1 == x;
                        assert(a1[k] == a0[k]);
                    } else {
                        assert(si.view().channels.contains_key(x));
                        let k = choose|k: int| 0 <= k < seg.len() && seg[k].1 == x;
                        assert(a1[a0.len() + k] == seg[k]);
                    }
                }
            }
            i = i + 1;
        }
        proof {
            let a = added(l0, self.log@);
            assert forall|id: Seq<char>| #[trigger] old(self)@.contains_key(id) implies exists|k: int|
                0 <= k < out.len() && out@[k].0@ == id by {
                lemma_keyed_contains(e, id);
                let j = choose|j: int| 0 <= j < e.len() && e[j].0 == id;
                assert(out@[j].0@ == id);
            }
            assert forall|j: int, k: int| 0 <= j < k < out.len() implies out@[j].0@ != out@[k].0@ by {
                assert(out@[j].0@ == e[j].0);
                assert(out@[k].0@ == e[k].0);
            }
            assert forall|k: int| 0 <= k < out.len() implies old(self)@.contains_key(#[trigger] out@[k].0@)
                && reports_to(out@[k].1@, old(self)@[out@[k].0@].channels.dom(), Message::Shutdown) by {
                lemma_keyed_index(e, k);
                assert(out@[k].0@ == e[k].0);
            }
            assert forall|k: int| 0 <= k < a.len() implies {
                &&& old(self)@.contains_key((#[trigger] a[k]).0)
                &&& old(self)@[a[k].0].channels.contains_key(a[k].1)
                &&& old(self)@[a[k].0].channels[a[k].1] == a[k].2
                &&& a[k].3 is Shutdown
            } by {
                assert(sent_by_first(self.sessions@, self.sessions.len() as int, a[k]));
                let j = choose|j: int| 0 <= j < self.sessions.len() && sent_from(#[trigger] self.sessions@[j], a[k]);
                lemma_keyed_index(e, j);
            }
            assert forall|id: Seq<char>, x: Endpoint| old(self)@.contains_key(id) && #[trigger] old(self)@[id].channels.contains_key(x)
                implies exists|k: int| 0 <= k < a.len() && a[k].0 == id && a[k].1 == x by {
                lemma_keyed_contains(e, id);
                let j = choose|j: int| 0 <= j < e.len() && e[j].0 == id;
                lemma_keyed_index(e, j);
                assert(self.sessions@[j].view().channels.contains_key(x));
                assert(covered(a, self.sessions@[j].id@, x));
            }
        }
        out
    }

    /// Applies what the scoring oracle answered for a guess in a session. A
    /// scored guess is stored; a correct one also sets the target word (if
    /// none is set). The guess is then announced to the session's channels
    /// with the message of `Message::announcement`, which is handed back with
    /// the send records. A failure changes nothing and sends nothing.
    pub fn apply_guess_outcome(
        &mut self,
        session_id: &String,
        outcome: Result<GuessScore, String>,
    ) -> (r: (Result<GuessScore, String>, Option<Message>, Vec<Delivery>))
        requires
            old(self).wf(),
        ensures
            final(self).wf(),
            r.0 == outcome,
            keeps_games(old(self)@, final(self)@),
            outcome is Err ==> final(self)@ == old(self)@ && r.1 is None && r.2.len() == 0
                && final(self).sent_log() == old(self).sent_log(),
            outcome matches Ok(g) ==> {
                &&& final(self)@ == with_game(
                    old(self)@,
                    session_id@,
                    scored(old(self)@[session_id@].game, g.guess@, g.score),
                )
                &&& r.1 matches Some(m) && announces(m, g) && reports_to(
                    r.2@,
                    channels_of(old(self)@, session_id@).dom(),
                    m,
                ) && sends_to(
                    added(old(self).sent_log(), final(self).sent_log()),
                    session_id@,
                    channels_of(old(self)@, session_id@),
                    m,
                )
                &&& extends(old(self).sent_log(), final(self).sent_log())
            },
    {
        match outcome {
            Err(e) => (Err(e), None, Vec::new()),
            Ok(guess_score) => {
                let correct = guess_score.is_correct();
                let ghost v0 = self@;
                let _ = self.add_guess(session_id, guess_score.duplicate());
                if correct {
                    let _ = self.word_guessed(session_id, guess_score.guess.clone());
                }
                assert(channels_of(self@, session_id@) == channels_of(v0, session_id@));
                let message = Message::announcement(&guess_score);
                let deliveries = self.broadcast(session_id, &message);
                proof {
                    let g = v0[session_id@].game;
                    let w = guess_score.guess@;
                    if v0.contains_key(session_id@) {
                        if correct {
                            assert(found(stored(g, w, guess_score.score), w) == scored(g, w, guess_score.score));
                        } else {
                            assert(stored(g, w, guess_score.score) == scored(g, w, guess_score.score));
                        }
                        assert(self@ =~= with_game(v0, session_id@, scored(g, w, guess_score.score)));
                    }
                }
                (Ok(guess_score), Some(message), deliveries)
            },
        }
    }

    /// The game number of a session, `None` when the session is unknown.
    pub fn game_number(&self, session_id: &String) -> (r: Option<GameNumber>)
        requires
            self.wf(),
        ensures
            r == (if self@.contains_key(session_id@) {
                Some(self@[session_id@].game.game_number)
            } else {
                None::<GameNumber>
            }),
    {
        match self.find_session(session_id) {
            Some(i) => Some(self.sessions[i].game_state.game_number),
            None => None,
        }
    }
}

/// Joining a session again returns the same game number and keeps every
/// recorded guess and the target word: the second join changes nothing.
pub proof fn law_rejoin_keeps_game(
    v: Map<Seq<char>, SessionView>,
    id: Seq<char>,
    first_number: GameNumber,
    second_number: GameNumber,
)
    ensures
        joined(joined(v, id, first_number), id, second_number) == joined(v, id, first_number),
        joined(joined(v, id, first_number), id, second_number)[id].game == joined(v, id, first_number)[id].game,
        v.contains_key(id) ==> joined(v, id, first_number)[id] == v[id],
{
}

/// Removing an endpoint that is not subscribed to the session, or from a
/// session that does not exist, leaves the registry as it was.
pub proof fn law_unsubscribe_unknown_is_noop(v: Map<Seq<char>, SessionView>, id: Seq<char>, endpoint: Endpoint)
    requires
        !(v.contains_key(id) && v[id].channels.contains_key(endpoint)),
    ensures
        without_client(v, id, endpoint) == v,
{
    if v.contains_key(id) {
        assert(v[id].channels.remove(endpoint) =~= v[id].channels);
        assert(without_client(v, id, endpoint) =~= v);
    }
}

/// Operations that keep games compose: what the first keeps and the second
/// keeps, the two together keep; and doing nothing keeps everything.
pub proof fn law_keeping_games_composes(
    a: Map<Seq<char>, SessionView>,
    b: Map<Seq<char>, SessionView>,
    c: Map<Seq<char>, SessionView>,
)
    ensures
        keeps_games(a, a),
        keeps_games(a, b) && keeps_games(b, c) ==> keeps_games(a, c),
{
    if keeps_games(a, b) && keeps_games(b, c) {
        assert forall|id: Seq<char>| #[trigger] a.contains_key(id) implies {
            &&& c.contains_key(id)
            &&& c[id].game.game_number == a[id].game.game_number
            &&& a[id].game.guesses.dom().subset_of(c[id].game.guesses.dom())
            &&& (a[id].game.target is Some ==> c[id].game.target == a[id].game.target)
        } by {
            assert(b.contains_key(id));
        }
    }
}

/// A session joined once and then changed by any operations that keep games
/// (every mutating operation of `Connections` does) is joined again with the
/// first join's game number, every word stored by then, and its target word
/// once set, whatever game number the second join is given.
pub proof fn law_rejoin_after_any_operations(
    first: Map<Seq<char>, SessionView>,
    now: Map<Seq<char>, SessionView>,
    id: Seq<char>,
    first_number: GameNumber,
    second_number: GameNumber,
)
    requires
        keeps_games(joined(first, id, first_number), now),
    ensures
        joined(now, id, second_number) == now,
        now[id].game.game_number == joined(first, id, first_number)[id].game.game_number,
        joined(first, id, first_number)[id].game.guesses.dom().subset_of(now[id].game.guesses.dom()),
        joined(first, id, first_number)[id].game.target is Some ==> now[id].game.target == joined(
            first,
            id,
            first_number,
        )[id].game.target,
{
    assert(joined(first, id, first_number).contains_key(id));
}

} // verus!
