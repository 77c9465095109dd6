use tokio::sync::mpsc::{unbounded_channel, UnboundedReceiver};

use wordplay_server::game::{GameState, GuessScore};
use wordplay_server::message::Message;
use wordplay_server::registry::{Connections, Endpoint};

fn endpoint(port: u16) -> Endpoint {
    Endpoint { ip: 0x7f00_0001, is_v4: true, scope_id: 0, port }
}

fn score_of(state: &GameState, word: &str) -> Option<usize> {
    state.guesses.iter().find(|g| g.guess == word).map(|g| g.score)
}

fn subscribe(c: &mut Connections, id: &str, port: u16) -> UnboundedReceiver<Message> {
    let (tx, rx) = unbounded_channel();
    c.add_client(id.to_string(), 7, endpoint(port), tx);
    rx
}

#[test]
fn guess_flow_scores_and_broadcasts() {
    let mut c = Connections::new();
    let id = "abc".to_string();
    let state = c.join_game(&id, 42);
    assert_eq!(state.game_number, 42);
    let mut rx = subscribe(&mut c, "abc", 1);

    let apple = GuessScore::from_distance(5, "apple".to_string());
    let (result, announced, deliveries) = c.apply_guess_outcome(&id, Ok(apple));
    let apple = result.unwrap();
    assert_eq!(apple.score, 6);
    assert_eq!(deliveries.len(), 1);
    assert!(deliveries[0].delivered());
    assert!(matches!(announced, Some(Message::NewGuess { .. })));
    assert!(matches!(deliveries[0].sent(), Message::NewGuess { guess_score } if guess_score.score == 6));
    let state = c.join_game(&id, 0);
    assert_eq!(score_of(&state, "apple"), Some(6));
    assert_eq!(state.target_word, None);
    match rx.try_recv().unwrap() {
        Message::NewGuess { guess_score } => {
            assert_eq!(guess_score.score, 6);
            assert_eq!(guess_score.guess, "apple");
        }
        other => panic!("unexpected message {other:?}"),
    }

    let banana = GuessScore::from_distance(0, "banana".to_string());
    assert!(banana.is_correct());
    let (result, announced, _) = c.apply_guess_outcome(&id, Ok(banana));
    match announced {
        Some(Message::CorrectGuess { word }) => assert_eq!(word, "banana"),
        other => panic!("unexpected announcement {other:?}"),
    }
    assert_eq!(result.unwrap().score, 1);
    let state = c.join_game(&id, 0);
    assert_eq!(score_of(&state, "banana"), Some(1));
    assert_eq!(state.target_word, Some("banana".to_string()));
    match rx.try_recv().unwrap() {
        Message::CorrectGuess { word } => assert_eq!(word, "banana"),
        other => panic!("unexpected message {other:?}"),
    }
    assert!(rx.try_recv().is_err());
}

#[test]
fn oracle_failure_changes_nothing() {
    let mut c = Connections::new();
    let id = "abc".to_string();
    c.join_game(&id, 3);
    let mut rx = subscribe(&mut c, "abc", 1);
    let (result, announced, deliveries) = c.apply_guess_outcome(&id, Err("unknown word".to_string()));
    assert!(announced.is_none());
    assert_eq!(result.unwrap_err(), "unknown word");
    assert!(deliveries.is_empty());
    let state = c.join_game(&id, 3);
    assert!(state.guesses.is_empty());
    assert_eq!(state.target_word, None);
    assert!(rx.try_recv().is_err());
}

#[test]
fn joining_twice_keeps_game() {
    let mut c = Connections::new();
    let id = "s".to_string();
    let first = c.join_game(&id, 10);
    c.add_guess(&id, GuessScore::from_distance(8, "tree".to_string()));
    let second = c.join_game(&id, 11);
    assert_eq!(first.game_number, 10);
    assert_eq!(second.game_number, 10);
    assert_eq!(score_of(&second, "tree"), Some(9));
    assert_eq!(c.game_number(&id), Some(10));
    assert_eq!(c.game_number(&"other".to_string()), None);
}

#[test]
fn repeated_guess_keeps_last_score() {
    let mut c = Connections::new();
    let id = "s".to_string();
    c.join_game(&id, 1);
    c.add_guess(&id, GuessScore { score: 40, guess: "tree".to_string() });
    c.add_guess(&id, GuessScore { score: 30, guess: "tree".to_string() });
    let state = c.join_game(&id, 1);
    assert_eq!(state.guesses.len(), 1);
    assert_eq!(score_of(&state, "tree"), Some(30));
}

#[test]
fn target_word_is_set_once() {
    let mut c = Connections::new();
    let id = "s".to_string();
    c.join_game(&id, 1);
    assert!(c.word_guessed(&id, "first".to_string()));
    c.word_guessed(&id, "second".to_string());
    assert_eq!(c.join_game(&id, 1).target_word, Some("first".to_string()));
}

#[test]
fn guess_for_unknown_session_is_ignored() {
    let mut c = Connections::new();
    let id = "ghost".to_string();
    assert!(!c.add_guess(&id, GuessScore { score: 2, guess: "a".to_string() }));
    assert!(!c.word_guessed(&id, "a".to_string()));
    assert_eq!(c.game_number(&id), None);
    assert!(c.broadcast(&id, &Message::Shutdown).is_empty());
}

#[test]
fn broadcast_reaches_every_open_channel() {
    let mut c = Connections::new();
    let id = "room".to_string();
    let mut rx1 = subscribe(&mut c, "room", 1);
    let rx2 = subscribe(&mut c, "room", 2);
    let mut rx3 = subscribe(&mut c, "room", 3);
    let mut other = subscribe(&mut c, "elsewhere", 4);
    drop(rx2);
    let message = Message::CorrectGuess { word: "w".to_string() };
    let deliveries = c.broadcast(&id, &message);
    assert_eq!(deliveries.len(), 3);
    for d in &deliveries {
        assert_eq!(d.delivered(), d.endpoint().port != 2);
        assert!(matches!(d.sent(), Message::CorrectGuess { word } if word == "w"));
    }
    assert!(matches!(rx1.try_recv(), Ok(Message::CorrectGuess { .. })));
    assert!(matches!(rx3.try_recv(), Ok(Message::CorrectGuess { .. })));
    assert!(other.try_recv().is_err());
}

#[test]
fn subscribe_creates_session_and_replaces_channel() {
    let mut c = Connections::new();
    let id = "new".to_string();
    let mut old_rx = subscribe(&mut c, "new", 5);
    assert_eq!(c.game_number(&id), Some(7));
    let mut new_rx = subscribe(&mut c, "new", 5);
    let deliveries = c.broadcast(&id, &Message::Shutdown);
    assert_eq!(deliveries.len(), 1);
    assert!(matches!(new_rx.try_recv(), Ok(Message::Shutdown)));
    assert!(old_rx.try_recv().is_err());
}

#[test]
fn unsubscribing_unknown_endpoint_is_noop() {
    let mut c = Connections::new();
    let id = "room".to_string();
    let mut rx = subscribe(&mut c, "room", 1);
    c.remove_client(&id, endpoint(9));
    c.remove_client(&"nowhere".to_string(), endpoint(1));
    assert_eq!(c.game_number(&"nowhere".to_string()), None);
    assert_eq!(c.broadcast(&id, &Message::Shutdown).len(), 1);
    assert!(rx.try_recv().is_ok());
}

#[test]
fn unsubscribed_session_keeps_its_game() {
    let mut c = Connections::new();
    let id = "room".to_string();
    let _rx = subscribe(&mut c, "room", 1);
    c.add_guess(&id, GuessScore { score: 4, guess: "cat".to_string() });
    c.remove_client(&id, endpoint(1));
    assert!(c.broadcast(&id, &Message::Shutdown).is_empty());
    assert_eq!(c.game_number(&id), Some(7));
    assert_eq!(score_of(&c.join_game(&id, 0), "cat"), Some(4));
}

#[test]
fn announcement_follows_score() {
    match Message::announcement(&GuessScore { score: 1, guess: "w".to_string() }) {
        Message::CorrectGuess { word } => assert_eq!(word, "w"),
        other => panic!("unexpected message {other:?}"),
    }
    match Message::announcement(&GuessScore { score: 7, guess: "v".to_string() }) {
        Message::NewGuess { guess_score } => {
            assert_eq!(guess_score.score, 7);
            assert_eq!(guess_score.guess, "v");
        }
        other => panic!("unexpected message {other:?}"),
    }
}

#[test]
fn shutdown_reaches_every_session() {
    let mut c = Connections::new();
    let mut a = subscribe(&mut c, "a", 1);
    let mut b = subscribe(&mut c, "b", 2);
    let mut b2 = subscribe(&mut c, "b", 3);
    let per_session = c.shutdown();
    assert_eq!(per_session.len(), 2);
    let total: usize = per_session.iter().map(|(_, records)| records.len()).sum();
    assert_eq!(total, 3);
    for (id, records) in &per_session {
        assert_eq!(records.len(), if id == "a" { 1 } else { 2 });
        assert!(records.iter().all(|d| d.delivered() && matches!(d.sent(), Message::Shutdown)));
    }
    for rx in [&mut a, &mut b, &mut b2] {
        assert!(matches!(rx.try_recv(), Ok(Message::Shutdown)));
    }
}
