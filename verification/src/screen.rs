//! What the window keeps and how it reacts to what the background work sends.
use vstd::prelude::*;
use crate::rating::{AppState, GameResult, OnePlayerGame};

verus! {

/// The rating a newly added game's opponent starts with.
pub const NEW_OPPONENT_RATING: u16 = 1400;

/// `s` cut at every `|`; there is always at least one piece.
pub open spec fn split_bar(s: Seq<char>) -> Seq<Seq<char>>
    decreases s.len(),
{
    if s.len() == 0 {
        seq![Seq::empty()]
    } else {
        let prev = split_bar(s.drop_last());
        if s.last() == '|' {
            prev.push(Seq::empty())
        } else {
            prev.update(prev.len() - 1, prev.last().push(s.last()))
        }
    }
}

pub proof fn lemma_split_bar_nonempty(s: Seq<char>)
    ensures
        split_bar(s).len() >= 1,
    decreases s.len(),
{
    if s.len() > 0 {
        lemma_split_bar_nonempty(s.drop_last());
    }
}

/// The pieces put back together with `|` between them.
pub open spec fn join_bar(pieces: Seq<Seq<char>>) -> Seq<char>
    decreases pieces.len(),
{
    if pieces.len() == 0 {
        Seq::empty()
    } else if pieces.len() == 1 {
        pieces[0]
    } else {
        join_bar(pieces.drop_last()) + seq!['|'] + pieces.last()
    }
}

/// Cutting a text at its `|` separators loses nothing: no piece holds a
/// `|`, and putting the pieces back together with `|` gives the text.
pub proof fn lemma_split_bar_rejoins(s: Seq<char>)
    ensures
        join_bar(split_bar(s)) == s,
        forall|i: int, k: int|
            0 <= i < split_bar(s).len() && 0 <= k < split_bar(s)[i].len() ==> #[trigger] split_bar(s)[i][k] != '|',
    decreases s.len(),
{
    if s.len() == 0 {
        assert(join_bar(split_bar(s)) =~= s);
    } else {
        let prev = split_bar(s.drop_last());
        lemma_split_bar_rejoins(s.drop_last());
        lemma_split_bar_nonempty(s.drop_last());
        let c = s.last();
        if c == '|' {
            let now = prev.push(Seq::<char>::empty());
            assert(now.drop_last() =~= prev);
            assert(join_bar(now) =~= s);
            assert forall|i: int, k: int| 0 <= i < now.len() && 0 <= k < now[i].len() implies #[trigger] now[i][k]
                != '|' by {
                assert(i < prev.len());
                assert(now[i] == prev[i]);
            }
        } else {
            let l = prev.len() - 1;
            let now = prev.update(l, prev.last().push(c));
            if prev.len() == 1 {
                assert(join_bar(now) =~= s);
            } else {
                assert(now.drop_last() =~= prev.drop_last());
                assert(now.last() == prev.last().push(c));
                assert(join_bar(now) == join_bar(prev.drop_last()) + seq!['|'] + prev.last().push(c));
                assert(join_bar(prev) == join_bar(prev.drop_last()) + seq!['|'] + prev.last());
                assert(s =~= s.drop_last().push(c));
                assert(join_bar(now) =~= s);
            }
            assert forall|i: int, k: int| 0 <= i < now.len() && 0 <= k < now[i].len() implies #[trigger] now[i][k]
                != '|' by {
                if i == l {
                    if k < prev.last().len() {
                        assert(now[i][k] == prev[l][k]);
                    }
                } else {
                    assert(now[i] == prev[i]);
                }
            }
        }
    }
}

/// The pieces of `msg` between the `|` separators.
pub fn split_bar_pieces(msg: &str) -> (pieces: Vec<String>)
    ensures
        pieces.deep_view() == split_bar(msg@),
{
    let n = msg.unicode_len();
    let mut pieces: Vec<String> = Vec::new();
    let mut start: usize = 0;
    let mut i: usize = 0;
    assert(msg@.take(0) =~= Seq::<char>::empty());
    assert(split_bar(msg@.take(0)) =~= pieces.deep_view().push(msg@.subrange(0, 0)));
    while i < n
        invariant
            n == msg@.len(),
            start <= i <= n,
            split_bar(msg@.take(i as int)) == pieces.deep_view().push(msg@.subrange(start as int, i as int)),
        decreases n - i,
    {
        let c = msg.get_char(i);
        let ghost before = pieces.deep_view();
        proof {
            lemma_split_bar_nonempty(msg@.take(i as int));
        }
        assert(msg@.take(i + 1).drop_last() =~= msg@.take(i as int));
        assert(msg@.take(i + 1).last() == c);
        if c == '|' {
            let piece = String::from_str(msg.substring_char(start, i));
            let ghost piece_view = piece@;
            assert(piece_view == msg@.subrange(start as int, i as int));
            pieces.push(piece);
            assert(pieces.deep_view() =~= before.push(piece_view));
            start = i + 1;
            assert(msg@.subrange(start as int, i + 1) =~= Seq::<char>::empty());
            assert(split_bar(msg@.take(i + 1)) =~= pieces.deep_view().push(msg@.subrange(start as int, i + 1)));
        } else {
            assert(msg@.subrange(start as int, i + 1) =~= msg@.subrange(start as int, i as int).push(c));
            assert(split_bar(msg@.take(i + 1)) =~= pieces.deep_view().push(msg@.subrange(start as int, i + 1)));
        }
        i = i + 1;
    }
    let last = String::from_str(msg.substring_char(start, n));
    let ghost before = pieces.deep_view();
    pieces.push(last);
    assert(msg@.take(n as int) =~= msg@);
    assert(pieces.deep_view() =~= before.push(msg@.subrange(start as int, n as int)));
    pieces
}


/// The splash label: the first piece, followed by the second when there is
/// one.
pub open spec fn splash_label(pieces: Seq<Seq<char>>) -> Seq<char> {
    (if pieces.len() > 0 {
        pieces[0]
    } else {
        Seq::empty()
    }) + (if pieces.len() > 1 {
        pieces[1]
    } else {
        Seq::empty()
    })
}

/// What the splash screen shows: a label, and a button when the splash text
/// has a third piece.
pub struct SplashText {
    pub label: String,
    pub button: Option<String>,
}

impl AppState {
    /// What the window starts with: a rated player, no games, every box
    /// unticked.
    pub fn new() -> (s: Self)
        ensures
            s.has_rating,
            s.my_rating == 0,
            s.k_factor == 0,
            s.games@ == Seq::<OnePlayerGame>::empty(),
            !s.is_eighteen,
            !s.played_in_tour_30_games,
            !s.had_2300,
            !s.had_2400,
    {
        AppState {
            has_rating: true,
            my_rating: 0,
            k_factor: 0,
            games: Vec::new(),
            is_eighteen: false,
            played_in_tour_30_games: false,
            had_2300: false,
            had_2400: false,
        }
    }

    /// Adds a game against a player rated `NEW_OPPONENT_RATING`, without a
    /// result yet.
    pub fn add_game(&mut self)
        ensures
            final(self).games@ == old(self).games@.push(
                OnePlayerGame { opponent_rating: NEW_OPPONENT_RATING, result: GameResult::Unset },
            ),
            final(self).has_rating == old(self).has_rating,
            final(self).my_rating == old(self).my_rating,
            final(self).k_factor == old(self).k_factor,
            final(self).is_eighteen == old(self).is_eighteen,
            final(self).played_in_tour_30_games == old(self).played_in_tour_30_games,
            final(self).had_2300 == old(self).had_2300,
            final(self).had_2400 == old(self).had_2400,
    {
        self.games.push(OnePlayerGame { opponent_rating: NEW_OPPONENT_RATING, result: GameResult::Unset });
    }

    /// Removes the game at `index`.
    pub fn remove_game(&mut self, index: usize)
        requires
            index < old(self).games@.len(),
        ensures
            final(self).games@ == old(self).games@.remove(index as int),
            final(self).has_rating == old(self).has_rating,
            final(self).my_rating == old(self).my_rating,
            final(self).k_factor == old(self).k_factor,
            final(self).is_eighteen == old(self).is_eighteen,
            final(self).played_in_tour_30_games == old(self).played_in_tour_30_games,
            final(self).had_2300 == old(self).had_2300,
            final(self).had_2400 == old(self).had_2400,
    {
        self.games.remove(index);
    }

    /// A player who never reached 2300 never reached 2400 either: the second
    /// box is cleared when the first is.
    pub fn settle_rating_history(&mut self)
        ensures
            final(self).had_2400 == (old(self).had_2400 && old(self).had_2300),
            final(self).had_2300 == old(self).had_2300,
            final(self).games@ == old(self).games@,
            final(self).has_rating == old(self).has_rating,
            final(self).my_rating == old(self).my_rating,
            final(self).k_factor == old(self).k_factor,
            final(self).is_eighteen == old(self).is_eighteen,
            final(self).played_in_tour_30_games == old(self).played_in_tour_30_games,
    {
        if !self.had_2300 {
            self.had_2400 = false;
        }
    }
}

/// What the background work sends to the window.
pub enum Notice {
    /// Show the splash screen with this text.
    Upsplash(String),
    /// Leave the splash screen.
    Downsplash,
    /// The K-factor to show.
    KFactor(u16),
    /// The text of a calculation.
    Calc(String),
}

/// What the window is to do with itself after a notice.
#[derive(Debug, Clone, Copy, PartialEq, Eq, Structural)]
pub enum ScreenCommand {
    Keep,
    Close,
    /// Grow from the splash size to the calculator's size.
    Enlarge,
}

/// `b` is `a` with at most the K-factor changed.
pub open spec fn same_but_k_factor(a: AppState, b: AppState) -> bool {
    &&& a.has_rating == b.has_rating
    &&& a.my_rating == b.my_rating
    &&& a.games@ == b.games@
    &&& a.is_eighteen == b.is_eighteen
    &&& a.played_in_tour_30_games == b.played_in_tour_30_games
    &&& a.had_2300 == b.had_2300
    &&& a.had_2400 == b.had_2400
}

/// What the window keeps between frames.
pub struct Screen {
    pub record: AppState,
    pub manually: bool,
    pub splash: bool,
    pub splash_msg: String,
    pub rating: String,
    pub wait: bool,
    pub text: Vec<String>,
}

impl Screen {
    pub fn new() -> (s: Self)
        ensures
            s.record.has_rating,
            s.record.my_rating == 0,
            s.record.k_factor == 0,
            s.record.games@.len() == 0,
            !s.record.is_eighteen,
            !s.record.played_in_tour_30_games,
            !s.record.had_2300,
            !s.record.had_2400,
            !s.manually,
            s.splash,
            s.splash_msg@ == Seq::<char>::empty(),
            s.rating@ == Seq::<char>::empty(),
            !s.wait,
            s.text@.len() == 0,
    {
        Screen {
            record: AppState::new(),
            manually: false,
            splash: true,
            splash_msg: String::new(),
            rating: String::new(),
            wait: false,
            text: Vec::new(),
        }
    }

    /// What the splash screen shows for the pieces of the splash text. While
    /// a button is shown, the window waits for it.
    pub fn splash_view(&mut self) -> (view: SplashText)
        ensures
            final(self).wait == (old(self).wait || old(self).text@.len() > 2),
            view.label@ == splash_label(old(self).text.deep_view()),
            match view.button {
                Some(b) => old(self).text@.len() > 2 && b@ == old(self).text.deep_view()[2],
                None => old(self).text@.len() <= 2,
            },
            final(self).text.deep_view() == old(self).text.deep_view(),
            final(self).record.k_factor == old(self).record.k_factor,
            same_but_k_factor(old(self).record, final(self).record),
            final(self).manually == old(self).manually,
            final(self).splash == old(self).splash,
            final(self).splash_msg@ == old(self).splash_msg@,
            final(self).rating@ == old(self).rating@,
    {
        let ghost pieces = self.text.deep_view();
        let mut label = String::new();
        if self.text.len() > 0 {
            assert(self.text@[0]@ == pieces[0]);
            label.append(self.text[0].as_str());
        }
        if self.text.len() > 1 {
            assert(self.text@[1]@ == pieces[1]);
            label.append(self.text[1].as_str());
        }
        assert(label@ =~= splash_label(pieces));
        let button = if self.text.len() > 2 {
            assert(self.text@[2]@ == pieces[2]);
            self.wait = true;
            Some(String::from_str(self.text[2].as_str()))
        } else {
            None
        };
        SplashText { label, button }
    }

    /// Takes in what arrived since the last frame, if anything. The window
    /// closes when nothing arrived or when it waits for its button.
    pub fn receive(&mut self, notice: Option<Notice>) -> (command: ScreenCommand)
        ensures
            final(self).wait == old(self).wait,
            final(self).manually == old(self).manually,
            same_but_k_factor(old(self).record, final(self).record),
            !(!old(self).wait && notice matches Some(Notice::KFactor(_))) ==> final(self).record.k_factor
                == old(self).record.k_factor,
            !(!old(self).wait && notice matches Some(Notice::Calc(_))) ==> final(self).rating@ == old(self).rating@,
            !(!old(self).wait && (notice matches Some(Notice::Upsplash(_)) || notice matches Some(Notice::Downsplash)))
                ==> final(self).splash == old(self).splash && final(self).splash_msg@ == old(self).splash_msg@,
            !(!old(self).wait && notice matches Some(Notice::Upsplash(_))) ==> final(self).text.deep_view()
                == old(self).text.deep_view(),
            (notice is None || old(self).wait) ==> command == ScreenCommand::Close,
            !old(self).wait ==> match notice {
                None => true,
                Some(Notice::Upsplash(m)) => command == ScreenCommand::Keep && final(self).splash
                    && final(self).splash_msg@ == m@ && final(self).text.deep_view() == split_bar(m@),
                Some(Notice::Downsplash) => command == ScreenCommand::Enlarge && !final(self).splash
                    && final(self).splash_msg@ == Seq::<char>::empty(),
                Some(Notice::KFactor(k)) => command == ScreenCommand::Keep && final(self).record.k_factor == k,
                Some(Notice::Calc(t)) => command == ScreenCommand::Keep && final(self).rating@ == t@,
            },
    {
        if self.wait {
            return ScreenCommand::Close;
        }
        match notice {
            None => ScreenCommand::Close,
            Some(Notice::Upsplash(m)) => {
                self.splash = true;
                self.text = split_bar_pieces(m.as_str());
                self.splash_msg = m;
                ScreenCommand::Keep
            },
            Some(Notice::Downsplash) => {
                self.splash = false;
                self.splash_msg = String::new();
                ScreenCommand::Enlarge
            },
            Some(Notice::KFactor(k)) => {
                self.record.k_factor = k;
                ScreenCommand::Keep
            },
            Some(Notice::Calc(t)) => {
                self.rating = t;
                ScreenCommand::Keep
            },
        }
    }
}

} // verus!
