//! The game engine: a scoreboard that owns the starting letter pool, the
//! log of accepted submissions, and per-player cumulative state.
//!
//! A submission is accepted when the word is ASCII lowercase, can be formed
//! from the letters of the starting string (each letter used no more often
//! than the starting string contains it), and has not been accepted before
//! in this session. An accepted word scores its length; a rejected one
//! scores zero and changes nothing.

use crate::letters::all_lower_chars;
use crate::letters::all_lower_str;
use crate::letters::can_form;
use crate::letters::can_form_str;
use vstd::prelude::*;

verus! {

/// The view of one accepted submission: who submitted, what word, and the
/// score awarded.
#[verifier::ext_equal]
pub ghost struct Rec {
    pub player: Seq<char>,
    pub word: Seq<char>,
    pub score: int,
}

/// One accepted submission, as stored in the scoreboard's log.
pub struct Entry {
    pub player_name: String,
    pub word: String,
    pub score: i32,
}

impl Entry {
    /// The view of this entry.
    pub open spec fn rec(self) -> Rec {
        Rec { player: self.player_name@, word: self.word@, score: self.score as int }
    }
}

/// The views of a stored log, in order.
pub open spec fn log_of(entries: Seq<Entry>) -> Seq<Rec> {
    entries.map_values(|e: Entry| e.rec())
}

/// The words of a log, in order of acceptance.
pub open spec fn words_of(log: Seq<Rec>) -> Seq<Seq<char>> {
    log.map_values(|r: Rec| r.word)
}

/// The cumulative score of the player `name` over a log: the sum of the
/// scores of that player's entries.
pub open spec fn score_in(log: Seq<Rec>, name: Seq<char>) -> int
    decreases log.len(),
{
    if log.len() == 0 {
        0
    } else {
        score_in(log.drop_last(), name) + (if log.last().player == name {
            log.last().score
        } else {
            0
        })
    }
}

/// The word history of the player `name` over a log: that player's words,
/// in order of acceptance.
pub open spec fn history_in(log: Seq<Rec>, name: Seq<char>) -> Seq<Seq<char>>
    decreases log.len(),
{
    if log.len() == 0 {
        Seq::empty()
    } else {
        let prior = history_in(log.drop_last(), name);
        if log.last().player == name {
            prior.push(log.last().word)
        } else {
            prior
        }
    }
}

/// Whether a submission of the word `w` is accepted against a starting
/// string and a log: `w` is ASCII lowercase, can be formed from the
/// starting letters, and has not been used before. Who submits plays no
/// role.
pub open spec fn submission_accepted(starting: Seq<char>, log: Seq<Rec>, w: Seq<char>) -> bool {
    all_lower_chars(w) && can_form(w, starting) && !words_of(log).contains(w)
}

/// A word with any character outside `a`..=`z` is never accepted.
pub proof fn lemma_nonlower_never_accepted(starting: Seq<char>, log: Seq<Rec>, w: Seq<char>)
    requires
        !all_lower_chars(w),
    ensures
        !submission_accepted(starting, log, w),
{
}

/// A word whose letter tally exceeds the starting string's is never
/// accepted.
pub proof fn lemma_unformable_never_accepted(starting: Seq<char>, log: Seq<Rec>, w: Seq<char>)
    requires
        !can_form(w, starting),
    ensures
        !submission_accepted(starting, log, w),
{
}

/// A word that already stands in the log is never accepted again, whoever
/// submits it: acceptance does not depend on the submitting player.
pub proof fn lemma_used_word_never_accepted(starting: Seq<char>, log: Seq<Rec>, w: Seq<char>)
    requires
        words_of(log).contains(w),
    ensures
        !submission_accepted(starting, log, w),
{
}

/// Once a record for `r.word` is appended, that word is among the used
/// words of the log.
pub proof fn lemma_appended_word_used(log: Seq<Rec>, r: Rec)
    ensures
        words_of(log.push(r)).contains(r.word),
{
    assert(words_of(log.push(r))[log.len() as int] == r.word);
}

/// Appending a record adds its score to its player's cumulative score and
/// its word to its player's history, and leaves every other player's
/// untouched.
pub proof fn lemma_log_push(log: Seq<Rec>, r: Rec)
    ensures
        forall|name: Seq<char>| #[trigger]
            score_in(log.push(r), name) == score_in(log, name) + (if r.player == name {
                r.score
            } else {
                0
            }),
        forall|name: Seq<char>| #[trigger]
            history_in(log.push(r), name) == (if r.player == name {
                history_in(log, name).push(r.word)
            } else {
                history_in(log, name)
            }),
{
    assert(log.push(r).drop_last() =~= log);
    assert(log.push(r).last() == r);
}

/// A player with no entry in the log has score zero and an empty history.
pub proof fn lemma_absent_player_zero(log: Seq<Rec>, name: Seq<char>)
    requires
        forall|k: int| 0 <= k < log.len() ==> (#[trigger] log[k]).player != name,
    ensures
        score_in(log, name) == 0,
        history_in(log, name) == Seq::<Seq<char>>::empty(),
    decreases log.len(),
{
    if log.len() > 0 {
        assert(log[log.len() - 1].player != name);
        assert(forall|k: int|
            0 <= k < log.drop_last().len() ==> (#[trigger] log.drop_last()[k]).player != name);
        lemma_absent_player_zero(log.drop_last(), name);
    }
}

/// Cumulative scores over a log of nonnegative scores are nonnegative.
pub proof fn lemma_score_in_nonneg(log: Seq<Rec>, name: Seq<char>)
    requires
        forall|k: int| 0 <= k < log.len() ==> (#[trigger] log[k]).score >= 0,
    ensures
        score_in(log, name) >= 0,
    decreases log.len(),
{
    if log.len() > 0 {
        assert(forall|k: int|
            0 <= k < log.drop_last().len() ==> (#[trigger] log.drop_last()[k]).score >= 0);
        lemma_score_in_nonneg(log.drop_last(), name);
    }
}

/// The one recoverable error: a submission named a player that was never
/// registered.
#[derive(Clone, Copy, Debug, PartialEq, Eq, Structural)]
pub enum GameError {
    PlayerNotFound,
}

/// A registered player: name, word history, and cumulative score.
pub struct Player {
    pub player_name: String,
    pub words: Vec<String>,
    pub score: i32,
}

/// The scoreboard: the fixed starting string, the registered players, and
/// the append-only log of accepted submissions.
pub struct ScoreBoard {
    pub starting_string: String,
    pub players: Vec<Player>,
    pub entries: Vec<Entry>,
}

/// The operations of a word game engine.
pub trait WordGame {
    /// The well-formedness invariant: scores equal word lengths, accepted
    /// words are lowercase, formable and pairwise distinct, every entry
    /// belongs to a registered player, player names are unique, and each
    /// player's stored score and history agree with the log.
    spec fn wf(&self) -> bool;

    /// The starting string: the fixed pool of letters.
    spec fn starting(&self) -> Seq<char>;

    /// The log of accepted submissions, in order of acceptance.
    spec fn log(&self) -> Seq<Rec>;

    /// Whether a player of this name is registered.
    spec fn registered(&self, name: Seq<char>) -> bool;

    /// Submits `word` on behalf of `player_name`. A rejected word scores
    /// zero and changes nothing; a submission on behalf of an unregistered
    /// player is a recoverable error and changes nothing; an accepted word
    /// scores its length, enters the log and the used words, and raises the
    /// player's cumulative score by exactly its score.
    fn submit_word(&mut self, player_name: String, word: String) -> (res: Result<i32, GameError>)
        requires
            old(self).wf(),
            score_in(old(self).log(), player_name@) + word@.len() <= i32::MAX as int,
        ensures
            final(self).wf(),
            final(self).starting() == old(self).starting(),
            forall|n: Seq<char>| final(self).registered(n) == old(self).registered(n),
            !submission_accepted(old(self).starting(), old(self).log(), word@) ==> {
                &&& res == Ok::<i32, GameError>(0)
                &&& final(self).log() == old(self).log()
            },
            submission_accepted(old(self).starting(), old(self).log(), word@) && !old(self).registered(player_name@) ==> {
                &&& res == Err::<i32, GameError>(GameError::PlayerNotFound)
                &&& final(self).log() == old(self).log()
            },
            submission_accepted(old(self).starting(), old(self).log(), word@) && old(self).registered(player_name@) ==> {
                &&& res == Ok::<i32, GameError>(word@.len() as i32)
                &&& final(self).log() == old(self).log().push(
                    (Rec { player: player_name@, word: word@, score: word@.len() as int }),
                )
                &&& score_in(final(self).log(), player_name@) == score_in(old(self).log(), player_name@) + word@.len()
                &&& history_in(final(self).log(), player_name@) == history_in(old(self).log(), player_name@).push(word@)
            },
    ;

    /// The player name recorded at a submission position, or the empty
    /// string if nothing was ever recorded there.
    fn get_player_name_at_position(&self, position: i32) -> (r: String)
        ensures
            0 <= position < self.log().len() ==> r@ == self.log()[position as int].player,
            !(0 <= position < self.log().len()) ==> r@ == Seq::<char>::empty(),
    ;

    /// The word recorded at a submission position, or the empty string if
    /// nothing was ever recorded there.
    fn get_word_entry_at_position(&self, position: i32) -> (r: String)
        ensures
            0 <= position < self.log().len() ==> r@ == self.log()[position as int].word,
            !(0 <= position < self.log().len()) ==> r@ == Seq::<char>::empty(),
    ;

    /// The score recorded at a submission position, or zero if nothing was
    /// ever recorded there.
    fn get_score_at_position(&self, position: i32) -> (r: i32)
        ensures
            0 <= position < self.log().len() ==> r as int == self.log()[position as int].score,
            !(0 <= position < self.log().len()) ==> r == 0,
    ;
}

/// Finds the index of the player named `name`.
fn find_player(players: &Vec<Player>, name: &String) -> (r: Option<usize>)
    ensures
        match r {
            Some(i) => i < players@.len() && players@[i as int].player_name@ == name@,
            None => forall|i: int|
                0 <= i < players@.len() ==> (#[trigger] players@[i]).player_name@ != name@,
        },
{
    let mut i: usize = 0;
    while i < players.len()
        invariant
            0 <= i <= players@.len(),
            forall|j: int| 0 <= j < i ==> (#[trigger] players@[j]).player_name@ != name@,
        decreases players@.len() - i,
    {
        if players[i].player_name == *name {
            return Some(i);
        }
        i += 1;
    }
    None
}

/// Whether `word` already stands in the stored log.
fn word_used(entries: &Vec<Entry>, word: &String) -> (r: bool)
    ensures
        r == words_of(log_of(entries@)).contains(word@),
{
    let ghost ws = words_of(log_of(entries@));
    assert(forall|k: int| 0 <= k < entries@.len() ==> #[trigger] ws[k] == entries@[k].word@);
    let mut i: usize = 0;
    while i < entries.len()
        invariant
            0 <= i <= entries@.len(),
            ws == words_of(log_of(entries@)),
            forall|j: int| 0 <= j < i ==> #[trigger] ws[j] != word@,
        decreases entries@.len() - i,
    {
        if entries[i].word == *word {
            assert(ws[i as int] == word@);
            return true;
        }
        i += 1;
    }
    false
}

impl ScoreBoard {
    /// A scoreboard with an empty starting string, no players, and an
    /// empty log.
    pub fn new() -> (r: Self)
        ensures
            r.wf(),
            r.starting() == Seq::<char>::empty(),
            r.log() == Seq::<Rec>::empty(),
            forall|n: Seq<char>| !r.registered(n),
    {
        let r = ScoreBoard { starting_string: String::new(), players: Vec::new(), entries: Vec::new() };
        proof {
            assert(r.log() =~= Seq::<Rec>::empty());
        }
        r
    }

    /// A scoreboard over the given starting string, with no players and an
    /// empty log.
    pub fn with_starting_string(starting_string: String) -> (r: Self)
        ensures
            r.wf(),
            r.starting() == starting_string@,
            r.log() == Seq::<Rec>::empty(),
            forall|n: Seq<char>| !r.registered(n),
    {
        let r = ScoreBoard { starting_string, players: Vec::new(), entries: Vec::new() };
        proof {
            assert(r.log() =~= Seq::<Rec>::empty());
        }
        r
    }

    /// Registers a player. A name already registered is left as it is: the
    /// existing player keeps its history and score.
    pub fn register_player(&mut self, player_name: String)
        requires
            old(self).wf(),
        ensures
            final(self).wf(),
            final(self).starting() == old(self).starting(),
            final(self).log() == old(self).log(),
            final(self).registered(player_name@),
            forall|n: Seq<char>|
                final(self).registered(n) == (old(self).registered(n) || n == player_name@),
    {
        match find_player(&self.players, &player_name) {
            Some(i) => {
                proof {
                    assert(self.players@[i as int].player_name@ == player_name@);
                    assert(old(self).registered(player_name@));
                }
            },
            None => {
                proof {
                    // No log entry can belong to the new name: every entry's
                    // player is registered, and the new name is not.
                    assert forall|k: int|
                        0 <= k < old(self).log().len() implies (#[trigger] old(self).log()[
                        k]).player != player_name@ by {
                        let nm = old(self).log()[k].player;
                        assert(old(self).registered(nm));
                        let i = choose|i: int|
                            0 <= i < old(self).players@.len() && (#[trigger] old(
                                self,
                            ).players@[i]).player_name@ == nm;
                        assert(old(self).players@[i].player_name@ != player_name@);
                    }
                    lemma_absent_player_zero(old(self).log(), player_name@);
                }
                let ghost prior_players = self.players@;
                self.players.push(Player { player_name, words: Vec::new(), score: 0 });
                proof {
                    let ps = self.players@;
                    let last = ps.len() - 1;
                    assert(ps[last].words@.map_values(|w: String| w@) =~= history_in(
                        self.log(),
                        ps[last].player_name@,
                    ));
                    assert forall|n: Seq<char>|
                        self.registered(n) == (old(self).registered(n) || n == player_name@) by {
                        if old(self).registered(n) {
                            let i = choose|i: int|
                                0 <= i < prior_players.len() && (#[trigger] prior_players[
                                i]).player_name@ == n;
                            assert(ps[i].player_name@ == n);
                        }
                        if n == player_name@ {
                            assert(ps[last].player_name@ == n);
                        }
                        if self.registered(n) {
                            let i = choose|i: int|
                                0 <= i < ps.len() && (#[trigger] ps[i]).player_name@ == n;
                            if i < last {
                                assert(prior_players[i].player_name@ == n);
                            }
                        }
                    }
                    // Old entries stay registered to old players.
                    assert forall|k: int| 0 <= k < self.log().len() implies {
                        let r = #[trigger] self.log()[k];
                        &&& r.score == r.word.len()
                        &&& all_lower_chars(r.word)
                        &&& can_form(r.word, self.starting())
                        &&& self.registered(r.player)
                    } by {
                        assert(old(self).registered(self.log()[k].player));
                    }
                }
            },
        }
    }
}

impl WordGame for ScoreBoard {
    open spec fn starting(&self) -> Seq<char> {
        self.starting_string@
    }

    open spec fn log(&self) -> Seq<Rec> {
        log_of(self.entries@)
    }

    open spec fn registered(&self, name: Seq<char>) -> bool {
        exists|i: int| 0 <= i < self.players@.len() && (#[trigger] self.players@[i]).player_name@
            == name
    }

    open spec fn wf(&self) -> bool {
        &&& forall|i: int, j: int|
            0 <= i < j < self.players@.len() ==> (#[trigger] self.players@[i]).player_name@ != (
            #[trigger] self.players@[j]).player_name@
        &&& forall|k: int|
            0 <= k < self.log().len() ==> {
                let r = #[trigger] self.log()[k];
                &&& r.score == r.word.len()
                &&& all_lower_chars(r.word)
                &&& can_form(r.word, self.starting())
                &&& self.registered(r.player)
            }
        &&& forall|k: int, l: int|
            0 <= k < l < self.log().len() ==> (#[trigger] self.log()[k]).word != (
            #[trigger] self.log()[l]).word
        &&& forall|i: int|
            0 <= i < self.players@.len() ==> {
                let p = #[trigger] self.players@[i];
                &&& p.score as int == score_in(self.log(), p.player_name@)
                &&& p.words@.map_values(|w: String| w@) == history_in(self.log(), p.player_name@)
            }
    }

    fn submit_word(&mut self, player_name: String, word: String) -> (res: Result<i32, GameError>) {
        if !all_lower_str(word.as_str()) {
            return Ok(0);
        }
        if !can_form_str(word.as_str(), self.starting_string.as_str()) {
            return Ok(0);
        }
        if word_used(&self.entries, &word) {
            return Ok(0);
        }
        let idx = match find_player(&self.players, &player_name) {
            Some(i) => i,
            None => {
                return Err(GameError::PlayerNotFound);
            },
        };
        proof {
            assert(forall|k: int|
                0 <= k < old(self).log().len() ==> (#[trigger] old(self).log()[k]).score >= 0);
            lemma_score_in_nonneg(old(self).log(), player_name@);
        }
        let score_len = word.as_str().unicode_len();
        let score = score_len as i32;

        let ghost prior_players = self.players@;
        let ghost prior_log = self.log();
        let ghost rec = Rec { player: player_name@, word: word@, score: word@.len() as int };
        proof {
            assert(prior_players[idx as int].score as int == score_in(prior_log, player_name@));
        }

        let mut p = Player { player_name: String::new(), words: Vec::new(), score: 0 };
        self.players.set_and_swap(idx, &mut p);
        p.score = p.score + score;
        p.words.push(word.clone());
        let ghost updated = p;
        self.players.set_and_swap(idx, &mut p);
        self.entries.push(Entry { player_name, word, score });

        proof {
            lemma_log_push(prior_log, rec);
            assert(self.players@ =~= prior_players.update(idx as int, updated));
            assert(self.log() =~= prior_log.push(rec));
            assert(updated.words@.map_values(|w: String| w@) =~= prior_players[
                idx as int
            ].words@.map_values(|w: String| w@).push(word@));

            // Player names are untouched, so registration is untouched.
            assert(forall|i: int|
                0 <= i < self.players@.len() ==> (#[trigger] self.players@[i]).player_name@
                    == prior_players[i].player_name@);
            assert forall|nm: Seq<char>|
                self.registered(nm) == old(self).registered(nm) by {
                if old(self).registered(nm) {
                    let i = choose|i: int|
                        0 <= i < prior_players.len() && (#[trigger] prior_players[i]).player_name@
                            == nm;
                    assert(self.players@[i].player_name@ == nm);
                }
                if self.registered(nm) {
                    let i = choose|i: int|
                        0 <= i < self.players@.len() && (#[trigger] self.players@[i]).player_name@
                            == nm;
                    assert(prior_players[i].player_name@ == nm);
                }
            }

            // The log stays well formed: the old entries carry over, and the
            // new record passed every check.
            assert forall|k: int| 0 <= k < self.log().len() implies {
                let r = #[trigger] self.log()[k];
                &&& r.score == r.word.len()
                &&& all_lower_chars(r.word)
                &&& can_form(r.word, self.starting())
                &&& self.registered(r.player)
            } by {
                if k < prior_log.len() {
                    assert(old(self).log()[k] == self.log()[k]);
                    assert(old(self).registered(self.log()[k].player));
                } else {
                    assert(self.log()[k] == rec);
                    assert(self.registered(player_name@));
                }
            }

            // Words in the log stay pairwise distinct: the new one was not
            // used before.
            assert(forall|j: int|
                0 <= j < prior_log.len() ==> #[trigger] words_of(prior_log)[j] != word@);
            assert forall|k: int, l: int|
                0 <= k < l < self.log().len() implies (#[trigger] self.log()[k]).word != (
            #[trigger] self.log()[l]).word by {
                if l < prior_log.len() {
                    assert(prior_log[k].word != prior_log[l].word);
                } else {
                    assert(words_of(prior_log)[k] == prior_log[k].word);
                    assert(self.log()[l].word == word@);
                }
            }

            // Each player's stored score and history still agree with the
            // log: only the submitting player's entry moved, by exactly the
            // new record.
            assert forall|i: int| 0 <= i < self.players@.len() implies {
                let pl = #[trigger] self.players@[i];
                &&& pl.score as int == score_in(self.log(), pl.player_name@)
                &&& pl.words@.map_values(|w: String| w@) == history_in(self.log(), pl.player_name@)
            } by {
                let pl = self.players@[i];
                if i == idx as int {
                    assert(pl == updated);
                } else {
                    assert(pl == prior_players[i]);
                    assert(pl.player_name@ != player_name@);
                }
            }
        }
        Ok(score)
    }

    fn get_player_name_at_position(&self, position: i32) -> (r: String) {
        if position < 0 {
            return String::new();
        }
        let idx = position as usize;
        if idx >= self.entries.len() {
            return String::new();
        }
        self.entries[idx].player_name.clone()
    }

    fn get_word_entry_at_position(&self, position: i32) -> (r: String) {
        if position < 0 {
            return String::new();
        }
        let idx = position as usize;
        if idx >= self.entries.len() {
            return String::new();
        }
        self.entries[idx].word.clone()
    }

    fn get_score_at_position(&self, position: i32) -> (r: i32) {
        if position < 0 {
            return 0;
        }
        let idx = position as usize;
        if idx >= self.entries.len() {
            return 0;
        }
        self.entries[idx].score
    }
}

} // verus!
