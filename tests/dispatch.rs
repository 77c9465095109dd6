use tokio::sync::mpsc::unbounded_channel;

use wordplay_server::calendar::{game_number_between, game_number_on, CalendarDate};
use wordplay_server::game::GuessScore;
use wordplay_server::message::{dispatch_step, DispatchAction, Message, WireEvent};

fn new_guess(word: &str, score: usize) -> Message {
    Message::NewGuess { guess_score: GuessScore { score, guess: word.to_string() } }
}

#[test]
fn dispatch_forwards_then_drains_after_shutdown() {
    let (tx, mut rx) = unbounded_channel();
    tx.send(new_guess("one", 3)).unwrap();
    tx.send(Message::Shutdown).unwrap();
    tx.send(new_guess("two", 4)).unwrap();
    let mut forwarded = Vec::new();
    loop {
        match dispatch_step(rx.blocking_recv()) {
            DispatchAction::Forward(event) => forwarded.push(event),
            DispatchAction::CloseQueue => {
                rx.close();
                assert!(tx.send(new_guess("late", 5)).is_err());
            }
            DispatchAction::Finish => break,
        }
    }
    assert_eq!(forwarded.len(), 2);
    match &forwarded[0] {
        WireEvent::NewGuess { guess_score } => assert_eq!(guess_score.guess, "one"),
        other => panic!("unexpected event {other:?}"),
    }
    match &forwarded[1] {
        WireEvent::NewGuess { guess_score } => assert_eq!(guess_score.guess, "two"),
        other => panic!("unexpected event {other:?}"),
    }
}

#[test]
fn dispatch_step_decisions() {
    assert!(matches!(dispatch_step(None), DispatchAction::Finish));
    assert!(matches!(dispatch_step(Some(Message::Shutdown)), DispatchAction::CloseQueue));
    match dispatch_step(Some(Message::CorrectGuess { word: "w".to_string() })) {
        DispatchAction::Forward(WireEvent::CorrectGuess { word }) => assert_eq!(word, "w"),
        other => panic!("unexpected action {other:?}"),
    }
}

#[test]
fn wire_forms_and_event_types() {
    assert!(Message::Shutdown.to_wire().is_none());
    assert!(Message::Shutdown.is_shutdown());
    let e = new_guess("a", 2).to_wire().unwrap();
    assert_eq!(e.event_type(), "newGuess");
    let e = Message::CorrectGuess { word: "a".to_string() }.to_wire().unwrap();
    assert_eq!(e.event_type(), "correctGuess");
}

#[test]
fn message_copy_keeps_content() {
    match new_guess("x", 9).duplicate() {
        Message::NewGuess { guess_score } => {
            assert_eq!(guess_score.score, 9);
            assert_eq!(guess_score.guess, "x");
        }
        other => panic!("unexpected message {other:?}"),
    }
}

#[test]
fn score_is_distance_plus_one() {
    let g = GuessScore::from_distance(0, "w".to_string());
    assert_eq!(g.score, 1);
    assert!(g.is_correct());
    let g = GuessScore::from_distance(41, "w".to_string());
    assert_eq!(g.score, 42);
    assert!(!g.is_correct());
}

#[test]
fn game_number_arithmetic() {
    assert_eq!(game_number_between(100, 40), Some(60));
    assert_eq!(game_number_between(40, 40), Some(0));
    assert_eq!(game_number_between(39, 40), None);
    assert_eq!(game_number_between(i32::MAX, i32::MIN), Some(u32::MAX));
}

#[test]
fn game_number_from_dates() {
    let d = |year, month, day| CalendarDate { year, month, day };
    assert_eq!(game_number_on(d(2022, 9, 18)), Some(0));
    assert_eq!(game_number_on(d(2022, 9, 28)), Some(10));
    assert_eq!(game_number_on(d(2023, 9, 18)), Some(365));
    assert_eq!(game_number_on(d(2024, 9, 18)), Some(731));
    assert_eq!(game_number_on(d(2022, 9, 17)), None);
    assert_eq!(game_number_on(d(2023, 2, 30)), None);
    assert_eq!(game_number_on(d(2023, 13, 1)), None);
    assert_eq!(game_number_on(d(2024, 2, 29)), Some(529));
    assert_eq!(game_number_on(d(2100, 2, 29)), None);
    assert_eq!(game_number_on(d(262143, 1, 1)), None);
    assert!(game_number_on(d(262142, 12, 31)).is_some());
}
