//! Scored guesses and the per-session game state.
use vstd::prelude::*;

use crate::keyed::{keyed, keys_unique, lemma_keyed_push, lemma_keyed_update};

verus! {

/// Which puzzle instance a session plays.
pub type GameNumber = u32;

/// A guessed word and its score; a score of one is the winning word.
#[derive(Clone, Debug)]
pub struct GuessScore {
    pub score: usize,
    pub guess: String,
}

impl GuessScore {
    /// The scored guess for an oracle distance: the score is one more than
    /// the zero-based distance.
    pub fn from_distance(distance: usize, lemma: String) -> (r: GuessScore)
        requires
            distance < usize::MAX,
        ensures
            r.score == distance + 1,
            r.guess@ == lemma@,
    {
        GuessScore { score: distance + 1, guess: lemma }
    }

    pub fn is_correct(&self) -> (r: bool)
        ensures
            r == (self.score == 1),
    {
        self.score == 1
    }

    pub fn duplicate(&self) -> (r: GuessScore)
        ensures
            r.score == self.score,
            r.guess@ == self.guess@,
    {
        GuessScore { score: self.score, guess: self.guess.clone() }
    }
}

/// The abstract content of a game state.
pub struct GameView {
    pub target: Option<Seq<char>>,
    pub game_number: GameNumber,
    pub guesses: Map<Seq<char>, usize>,
}

/// A fresh game: no target, no guesses.
pub open spec fn fresh_game(game_number: GameNumber) -> GameView {
    GameView { target: None, game_number, guesses: Map::empty() }
}

/// The game after `guess` is scored `score`: the score is stored (the last
/// score of a word wins), and a correct score sets the target unless one is
/// already set.
pub open spec fn scored(g: GameView, guess: Seq<char>, score: usize) -> GameView {
    GameView {
        target: if score == 1 && g.target is None { Some(guess) } else { g.target },
        game_number: g.game_number,
        guesses: g.guesses.insert(guess, score),
    }
}

/// The game after `word` is found: the target is set unless one already is.
pub open spec fn found(g: GameView, word: Seq<char>) -> GameView {
    GameView {
        target: if g.target is None { Some(word) } else { g.target },
        ..g
    }
}

/// The game after `guess` is stored with `score`, target untouched.
pub open spec fn stored(g: GameView, guess: Seq<char>, score: usize) -> GameView {
    GameView { guesses: g.guesses.insert(guess, score), ..g }
}

/// The target is set exactly when some stored score is one, and the target
/// itself is stored with score one.
pub open spec fn target_consistent(g: GameView) -> bool {
    &&& (g.target is None <==> !exists|w: Seq<char>|
        #[trigger] g.guesses.contains_key(w) && g.guesses[w] == 1)
    &&& (g.target matches Some(t) ==> g.guesses.contains_key(t) && g.guesses[t] == 1)
}

/// A session's game: target word once found, the scored guesses, and the
/// puzzle number.
#[derive(Debug)]
pub struct GameState {
    pub target_word: Option<String>,
    pub game_number: GameNumber,
    pub guesses: Vec<GuessScore>,
}

pub open spec fn guess_entries(s: Seq<GuessScore>) -> Seq<(Seq<char>, usize)> {
    s.map_values(|g: GuessScore| (g.guess@, g.score))
}

pub open spec fn target_view(t: Option<String>) -> Option<Seq<char>> {
    match t {
        Some(w) => Some(w@),
        None => None,
    }
}

impl View for GameState {
    type V = GameView;

    open spec fn view(&self) -> GameView {
        GameView {
            target: target_view(self.target_word),
            game_number: self.game_number,
            guesses: keyed(guess_entries(self.guesses@)),
        }
    }
}

pub open spec fn final_guesses_view(g: &GameState) -> Map<Seq<char>, usize> {
    keyed(guess_entries(g.guesses@))
}

impl GameState {
    /// Each word is stored at most once.
    pub open spec fn wf(&self) -> bool {
        keys_unique(guess_entries(self.guesses@))
    }

    pub fn new(game_number: GameNumber) -> (r: GameState)
        ensures
            r.wf(),
            r@ == fresh_game(game_number),
    {
        let r = GameState { target_word: None, game_number, guesses: Vec::new() };
        assert(guess_entries(r.guesses@) =~= Seq::empty());
        r
    }

    /// Stores `guess_score`, replacing an earlier score of the same word.
    pub fn record_guess(&mut self, guess_score: GuessScore)
        requires
            old(self).wf(),
        ensures
            final(self).wf(),
            final(self)@ == stored(old(self)@, guess_score.guess@, guess_score.score),
    {
        let ghost pre = guess_entries(self.guesses@);
        let n = self.guesses.len();
        let mut i: usize = 0;
        while i < n
            invariant
                n == self.guesses.len(),
                guess_entries(self.guesses@) == pre,
                pre == guess_entries(old(self).guesses@),
                self.target_word == old(self).target_word,
                self.game_number == old(self).game_number,
                keys_unique(pre),
                0 <= i <= n,
                forall|j: int| 0 <= j < i ==> pre[j].0 != guess_score.guess@,
            decreases n - i,
        {
            if self.guesses[i].guess == guess_score.guess {
                let ghost e = (guess_score.guess@, guess_score.score);
                proof {
                    lemma_keyed_update(pre, i as int, guess_score.score);
                }
                self.guesses.set(i, guess_score);
                assert(guess_entries(self.guesses@) =~= pre.update(i as int, e));
                assert(final_guesses_view(self) =~= keyed(pre).insert(e.0, e.1));
                return;
            }
            i = i + 1;
        }
        let ghost e = (guess_score.guess@, guess_score.score);
        self.guesses.push(guess_score);
        proof {
            lemma_keyed_push(pre, e);
            assert(guess_entries(self.guesses@) =~= pre.push(e));
            assert(keys_unique(pre.push(e)));
        }
    }

    /// Sets the target word unless one is already set.
    pub fn record_target(&mut self, word: String)
        ensures
            final(self).guesses@ == old(self).guesses@,
            final(self)@ == found(old(self)@, word@),
    {
        if self.target_word.is_none() {
            self.target_word = Some(word);
        }
    }

    /// A copy of this state.
    pub fn snapshot(&self) -> (r: GameState)
        requires
            self.wf(),
        ensures
            r.wf(),
            r@ == self@,
    {
        let mut guesses: Vec<GuessScore> = Vec::new();
        let mut i: usize = 0;
        while i < self.guesses.len()
            invariant
                0 <= i <= self.guesses.len(),
                guess_entries(guesses@) == guess_entries(self.guesses@).subrange(0, i as int),
            decreases self.guesses.len() - i,
        {
            let ghost prev = guesses@;
            let g = self.guesses[i].duplicate();
            guesses.push(g);
            assert(guesses@ =~= prev.push(g));
            assert(guess_entries(prev.push(g)) =~= guess_entries(prev).push((g.guess@, g.score)));
            assert(guess_entries(guesses@) =~= guess_entries(self.guesses@).subrange(0, i + 1));
            i = i + 1;
        }
        assert(guess_entries(self.guesses@).subrange(0, i as int) =~= guess_entries(self.guesses@));
        let target_word = match &self.target_word {
            Some(w) => Some(w.clone()),
            None => None,
        };
        GameState { target_word, game_number: self.game_number, guesses }
    }
}

/// A guess scored from an oracle distance is stored with the distance plus
/// one, and scoring keeps the target consistent with the stored scores: the
/// target is set exactly when some stored score is one. Scoring the current
/// target again with a score other than one is left out, since it would
/// unset the target's winning score.
pub proof fn law_stored_score_and_target(g: GameView, guess: Seq<char>, distance: usize)
    requires
        distance < usize::MAX,
        target_consistent(g),
        !(g.target == Some(guess) && distance != 0),
    ensures
        scored(g, guess, (distance + 1) as usize).guesses[guess] == distance + 1,
        target_consistent(scored(g, guess, (distance + 1) as usize)),
{
    let s = scored(g, guess, (distance + 1) as usize);
    if distance == 0 {
        assert(s.guesses.contains_key(guess) && s.guesses[guess] == 1);
    } else if g.target is None {
        assert forall|w: Seq<char>| #[trigger] s.guesses.contains_key(w) implies s.guesses[w] != 1 by {
            if w != guess {
                assert(g.guesses.contains_key(w));
            }
        }
    } else {
        let t = g.target->Some_0;
        assert(s.guesses.contains_key(t) && s.guesses[t] == 1);
    }
}

} // verus!
