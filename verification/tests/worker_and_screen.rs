use rankfide::rating::{AppState, GameResult, OnePlayerGame};
use rankfide::screen::{split_bar_pieces, Notice, Screen, ScreenCommand};
use rankfide::worker::{loading_message, startup, Reply, Request, StartupError};

fn probabilities_csv() -> Vec<u8> {
    b"0,3,0.50,0.50\n4,10,0.51,0.49\n11,5000,0.60,0.40\n".to_vec()
}

fn initial_csv() -> Vec<u8> {
    let mut s = String::new();
    for p in 0..100 {
        s.push_str(&format!("{}.{:02},{},0,0\n", p / 100, p % 100, (p - 50) * 8));
    }
    s.into_bytes()
}

#[test]
fn startup_reads_both_tables() {
    let p = probabilities_csv();
    let i = initial_csv();
    let c = startup(Some(&p), Some(&i)).ok().unwrap();
    let mut state = AppState::new();
    state.my_rating = 1500;
    state.k_factor = 20;
    state.games.push(OnePlayerGame { opponent_rating: 1500, result: GameResult::Win });
    match c.handle(&Request::Calc { data: state.clone() }) {
        Reply::Calc(text) => assert_eq!(text, "The rating will be 1510 (+10 points)."),
        _ => panic!("expected a calculation"),
    }
    match c.handle(&Request::KFactor { data: state.clone(), manual: false }) {
        Reply::KFactor(k) => assert_eq!(k, 40),
        _ => panic!("expected a K-factor"),
    }
    match c.handle(&Request::KFactor { data: state, manual: true }) {
        Reply::KFactor(k) => assert_eq!(k, 20),
        _ => panic!("expected a K-factor"),
    }
    assert!(matches!(c.handle(&Request::Close), Reply::Stop));
    assert!(matches!(c.handle(&Request::Unknown), Reply::Nothing));
}

#[test]
fn startup_errors_in_order() {
    let p = probabilities_csv();
    let i = initial_csv();
    let gap = b"0,3,0.50,0.50\n5,5000,0.51,0.49\n".to_vec();
    let bad = b"0,3,0.50\n".to_vec();
    assert_eq!(startup(None, Some(&i)).err(), Some(StartupError::ProbabilitiesMissing));
    assert_eq!(startup(Some(&bad), Some(&i)).err(), Some(StartupError::ProbabilitiesMissing));
    assert_eq!(startup(Some(&gap), None).err(), Some(StartupError::ProbabilitiesInvalid));
    let fine_grained = b"0,3,0.50,0.505\n".to_vec();
    assert_eq!(startup(Some(&fine_grained), Some(&i)).err(), Some(StartupError::ProbabilitiesUnrepresentable));
    assert_eq!(startup(Some(&p), Some(&fine_grained)).err(), Some(StartupError::InitialUnrepresentable));
    assert_eq!(startup(Some(&p), None).err(), Some(StartupError::InitialMissing));
    assert_eq!(startup(Some(&p), Some(&p)).err(), Some(StartupError::InitialInvalid));
    assert_eq!(
        StartupError::ProbabilitiesMissing.message(),
        "Error!|The `probabilities.csv` file is missing or inaccessible.|OK"
    );
    assert_eq!(StartupError::ProbabilitiesInvalid.message(), "Error!|The `probabilities.csv` file is invalid.|OK");
    assert_eq!(StartupError::InitialMissing.message(), "Error!|The `initial.csv` file is missing or inaccessible.|OK");
    assert_eq!(StartupError::InitialInvalid.message(), "Error!|The `initial.csv` file is invalid.|OK");
    assert_eq!(
        StartupError::ProbabilitiesUnrepresentable.message(),
        "Error!|The `probabilities.csv` file holds a number that cannot be held in whole hundredths.|OK"
    );
    assert_eq!(
        StartupError::InitialUnrepresentable.message(),
        "Error!|The `initial.csv` file holds a number that cannot be held in whole hundredths.|OK"
    );
    assert_eq!(loading_message(), "Wait, files are loading...|by N");
}

#[test]
fn splash_text_is_cut_at_bars() {
    assert_eq!(split_bar_pieces("a|bc||d"), vec!["a", "bc", "", "d"]);
    assert_eq!(split_bar_pieces(""), vec![""]);
    assert_eq!(split_bar_pieces("|"), vec!["", ""]);
}

fn splash_of(msg: &str) -> (String, Option<String>, bool) {
    let mut screen = Screen::new();
    screen.receive(Some(Notice::Upsplash(msg.to_string())));
    let view = screen.splash_view();
    (view.label, view.button, screen.wait)
}

#[test]
fn splash_view_joins_two_pieces_and_waits_for_a_third() {
    let (label, button, wait) = splash_of("Error!|The `initial.csv` file is invalid.|OK");
    assert_eq!(label, "Error!The `initial.csv` file is invalid.");
    assert_eq!(button, Some("OK".to_string()));
    assert!(wait);
    let (label, button, wait) = splash_of("Wait, files are loading...|by N");
    assert_eq!(label, "Wait, files are loading...by N");
    assert_eq!(button, None);
    assert!(!wait);
    let (label, button, wait) = splash_of("Hello");
    assert_eq!(label, "Hello");
    assert_eq!(button, None);
    assert!(!wait);
    let mut fresh = Screen::new();
    let view = fresh.splash_view();
    assert_eq!(view.label, "");
    assert_eq!(view.button, None);
    assert!(!fresh.wait);
    assert_eq!(fresh.record.my_rating, 0);
    assert_eq!(fresh.record.k_factor, 0);
}

#[test]
fn screen_follows_notices() {
    let mut screen = Screen::new();
    assert!(screen.splash);
    assert_eq!(screen.receive(Some(Notice::Upsplash("A|B|C".to_string()))), ScreenCommand::Keep);
    assert_eq!(screen.splash_msg, "A|B|C");
    assert_eq!(screen.text, vec!["A", "B", "C"]);
    assert_eq!(screen.receive(Some(Notice::Downsplash)), ScreenCommand::Enlarge);
    assert!(!screen.splash);
    assert_eq!(screen.splash_msg, "");
    assert_eq!(screen.receive(Some(Notice::KFactor(20))), ScreenCommand::Keep);
    assert_eq!(screen.record.k_factor, 20);
    assert_eq!(screen.receive(Some(Notice::Calc("x".to_string()))), ScreenCommand::Keep);
    assert_eq!(screen.rating, "x");
    assert_eq!(screen.receive(None), ScreenCommand::Close);
    screen.wait = true;
    assert_eq!(screen.receive(Some(Notice::KFactor(10))), ScreenCommand::Close);
    assert_eq!(screen.record.k_factor, 20);
}

#[test]
fn games_are_added_and_removed() {
    let mut s = AppState::new();
    s.add_game();
    s.add_game();
    assert_eq!(s.games, vec![OnePlayerGame { opponent_rating: 1400, result: GameResult::Unset }; 2]);
    s.games[1].opponent_rating = 1700;
    s.remove_game(0);
    assert_eq!(s.games, vec![OnePlayerGame { opponent_rating: 1700, result: GameResult::Unset }]);
    s.had_2400 = true;
    s.settle_rating_history();
    assert!(!s.had_2400);
    s.had_2300 = true;
    s.had_2400 = true;
    s.settle_rating_history();
    assert!(s.had_2400);
}
