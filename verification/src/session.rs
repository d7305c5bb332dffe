//! What the window decides: which game a trainer is launched against, which
//! game is associated with an imported trainer, and when something is looked up.

use crate::gamedata;
use crate::gamedata::SearchResult;
use crate::launcher::RunningGame;
use crate::library;
use crate::text;
use std::collections::HashSet;
use vstd::prelude::*;

verus! {

// ---------------------------------------------------------------------------
// Which game
// ---------------------------------------------------------------------------

/// What is said when no game runs.
pub const START_GAME: &'static str =
    "Start the game first, load past the menus, then launch the trainer.";

/// What is done for the games that run.
#[derive(Clone, Copy, Debug, PartialEq, Eq, Structural)]
pub enum GameChoice {
    /// No game runs: say that one has to be started.
    NoGame,
    /// Take this game.
    Take(u32),
    /// Several games run: ask for which one the trainer is.
    Ask,
}

/// Which game a trainer is launched against. A trainer is made for one game, and
/// a wrong guess would attach it to the prefix of another: so where several
/// games run, the user is asked.
pub fn choose_game(games: &[RunningGame]) -> (choice: GameChoice)
    ensures
        choice == if games@.len() == 0 {
            GameChoice::NoGame
        } else if games@.len() == 1 {
            GameChoice::Take(games@[0].appid)
        } else {
            GameChoice::Ask
        },
{
    if games.len() == 0 {
        GameChoice::NoGame
    } else if games.len() == 1 {
        GameChoice::Take(games[0].appid)
    } else {
        GameChoice::Ask
    }
}

/// The answer of the dialog that picks none of the games.
pub const CANCEL: &'static str = "cancel";

/// The answer that stands for the game at this place of the list.
pub fn game_answer(at: usize) -> (answer: String)
    ensures
        answer@ == text::decimal(at as int),
{
    text::decimal_text(at as u64)
}

/// The game that an answer of the dialog picks: the one at the place that it
/// names, when it names one.
pub open spec fn picks(answer: Seq<char>, games: Seq<RunningGame>) -> Option<u32> {
    match text::number_in(answer, 10, usize::MAX as int) {
        Some(at) => if at < games.len() {
            Some(games[at].appid)
        } else {
            None
        },
        None => None,
    }
}

/// The game that an answer of the dialog picks.
pub fn picked_game(answer: &str, games: &[RunningGame]) -> (appid: Option<u32>)
    ensures
        appid == picks(answer@, games@),
{
    let chars = text::chars_of(answer);
    match text::parse_number(&chars, 10, usize::MAX as u64) {
        Some(at) => if at < games.len() as u64 {
            Some(games[at as usize].appid)
        } else {
            None
        },
        None => None,
    }
}

/// The answer of each game picks that game, and the answer that cancels picks
/// none.
pub proof fn law_each_answer_picks_its_game(games: Seq<RunningGame>, at: int)
    requires
        0 <= at < games.len() <= usize::MAX,
    ensures
        picks(text::decimal(at), games) == Some(games[at].appid),
        picks(CANCEL@, games) is None,
{
    text::lemma_decimal_reads_back(at);
    assert(text::decimal(at)[0] != '+');
    reveal_strlit("cancel");
    let s = CANCEL@;
    assert(s.drop_last().drop_last().last() == 'c');
    assert(text::digit_value('l', 10) is None);
    assert(text::digits_value(s, 10) is None);
}

// ---------------------------------------------------------------------------
// Associating a game with an imported trainer
// ---------------------------------------------------------------------------

/// What is asked for an imported trainer.
pub struct Prompt {
    /// The name of the trainer's file.
    pub file_name: String,
    /// What is searched for at first.
    pub term: String,
}

/// The number of names up to the last file that has one.
pub open spec fn named(queue: Seq<Option<String>>) -> int
    decreases queue.len(),
{
    if queue.len() == 0 {
        0
    } else if queue.last() is Some {
        queue.len() as int
    } else {
        named(queue.drop_last())
    }
}

/// Takes the next file to ask about from the queue of imported files, of which
/// each is given by its name: the last one. A file without a name is passed
/// over. `None` when there is none left.
pub fn next_prompt(queue: &mut Vec<Option<String>>) -> (prompt: Option<Prompt>)
    ensures
        ({
            let count = named(old(queue)@);
            match prompt {
                Some(asked) => {
                    &&& 0 < count <= old(queue)@.len()
                    &&& old(queue)@[count - 1] == Some(asked.file_name)
                    &&& final(queue)@ == old(queue)@.take(count - 1)
                    &&& asked.term@ == gamedata::search_term(
                        library::stem_of(asked.file_name@),
                    )
                },
                None => count == 0 && final(queue)@.len() == 0,
            }
        }),
        prompt is None ==> final(queue)@.len() == 0 && forall|i: int|
            0 <= i < old(queue)@.len() ==> (#[trigger] old(queue)@[i]) is None,
        prompt matches Some(asked) ==> {
            let left = final(queue)@.len() as int;
            &&& left < old(queue)@.len()
            &&& final(queue)@ == old(queue)@.take(left)
            &&& old(queue)@[left] == Some(asked.file_name)
            &&& forall|i: int| left < i < old(queue)@.len() ==> (#[trigger] old(queue)@[i]) is None
        },
{
    let ghost all = queue@;
    assert(all.take(all.len() as int) == all);
    while queue.len() > 0
        invariant
            all == old(queue)@,
            queue@.len() <= all.len(),
            queue@ == all.take(queue@.len() as int),
            named(all) == named(queue@),
            forall|i: int| queue@.len() <= i < all.len() ==> (#[trigger] all[i]) is None,
        decreases queue@.len(),
    {
        let ghost here = queue@;
        let last = queue.pop();
        assert(queue@ == here.drop_last());
        assert(here.drop_last() == all.take(here.len() - 1));
        assert(here.last() == all[here.len() - 1]);
        if let Some(Some(file_name)) = last {
            let stem = library::file_stem(&file_name);
            let term = gamedata::guess_search_term(&stem);
            return Some(Prompt { file_name, term });
        }
    }
    None
}

/// The names of the files that have one, in the order of the queue.
pub open spec fn names_of(queue: Seq<Option<String>>) -> Seq<String>
    decreases queue.len(),
{
    if queue.len() == 0 {
        Seq::empty()
    } else {
        match queue.last() {
            Some(name) => names_of(queue.drop_last()).push(name),
            None => names_of(queue.drop_last()),
        }
    }
}

/// The names of the files that are asked about, one after the other, until the
/// queue is empty.
pub open spec fn asked_about(queue: Seq<Option<String>>) -> Seq<String>
    decreases queue.len(),
{
    let count = named(queue);
    if 0 < count <= queue.len() {
        seq![queue[count - 1]->0] + asked_about(queue.take(count - 1))
    } else {
        Seq::empty()
    }
}

/// Each file of the queue that has a name is asked about once, the last one first.
pub proof fn law_each_file_is_asked_about(queue: Seq<Option<String>>)
    ensures
        asked_about(queue) == names_of(queue).reverse(),
    decreases queue.len(),
{
    if queue.len() == 0 {
        assert(asked_about(queue) == names_of(queue).reverse());
    } else {
        let most = queue.drop_last();
        law_each_file_is_asked_about(most);
        lemma_named(most);
        match queue.last() {
            Some(name) => {
                assert(queue.take(queue.len() - 1) == most);
                assert(seq![name] + names_of(most).reverse() == names_of(most).push(
                    name,
                ).reverse());
            },
            None => {
                let count = named(most);
                if count > 0 {
                    assert(queue[count - 1] == most[count - 1]);
                    assert(queue.take(count - 1) == most.take(count - 1));
                }
            },
        }
    }
}

/// A queue has no more names than files.
proof fn lemma_named(queue: Seq<Option<String>>)
    ensures
        0 <= named(queue) <= queue.len(),
    decreases queue.len(),
{
    if queue.len() > 0 && !(queue.last() is Some) {
        lemma_named(queue.drop_last());
    }
}

/// What the user does at the prompt.
pub enum PromptEvent {
    /// Pick a game from the results.
    Pick(u32),
    /// Press the button that adds what the entry holds.
    Add(String),
    /// Press Enter in the entry that holds this.
    Enter(String),
    /// Press the button that skips.
    Skip,
}

/// What follows.
#[derive(Clone, Copy, Debug, PartialEq, Eq, Structural)]
pub enum PromptStep {
    /// Close the prompt, associate this game, and go on with the next file.
    Associate(u32),
    /// Close the prompt, and go on with the next file.
    SkipFile,
    /// The same, and say that the entry holds no AppID.
    SkipNoNumber,
    /// Leave the prompt open.
    Stay,
}

/// What follows on what the user does: an AppID that was typed in goes before
/// the results, and Enter picks the first result, if there is any.
pub open spec fn prompt_follows(event: PromptEvent, top: Option<u32>) -> PromptStep {
    match event {
        PromptEvent::Pick(appid) => PromptStep::Associate(appid),
        PromptEvent::Add(entry) => {
            let typed = text::trimmed(entry@);
            if typed.len() == 0 {
                PromptStep::SkipFile
            } else {
                match text::decimal_u32(typed) {
                    Some(appid) => PromptStep::Associate(appid),
                    None => PromptStep::SkipNoNumber,
                }
            }
        },
        PromptEvent::Enter(entry) => match text::decimal_u32(text::trimmed(entry@)) {
            Some(appid) => PromptStep::Associate(appid),
            None => match top {
                Some(appid) => PromptStep::Associate(appid),
                None => PromptStep::Stay,
            },
        },
        PromptEvent::Skip => PromptStep::SkipFile,
    }
}

/// What is said when the entry holds no AppID.
pub const NO_NUMBER: &'static str =
    "That doesn't look like a numeric AppID \u{2014} skipped";

/// The AppID that an entry holds.
fn typed_appid(entry: &str) -> (appid: Option<u32>)
    ensures
        appid == text::decimal_u32(text::trimmed(entry@)),
{
    let chars = text::chars_of(entry);
    text::parse_u32(text::trim(&chars))
}

/// What follows on what the user does at the prompt. `top` is the first of the
/// results that are shown.
pub fn prompt_step(event: &PromptEvent, top: Option<u32>) -> (step: PromptStep)
    ensures
        step == prompt_follows(*event, top),
        *event matches PromptEvent::Pick(appid) ==> step == PromptStep::Associate(appid),
        *event is Skip ==> step is SkipFile,
        *event is Add ==> !(step is Stay),
        *event is Enter ==> (step is Stay ==> top is None),
        *event is Enter ==> !(step is SkipFile || step is SkipNoNumber),
{
    match event {
        PromptEvent::Pick(appid) => PromptStep::Associate(*appid),
        PromptEvent::Add(entry) => {
            let chars = text::chars_of(entry);
            if text::trim(&chars).len() == 0 {
                return PromptStep::SkipFile;
            }
            match typed_appid(entry) {
                Some(appid) => PromptStep::Associate(appid),
                None => PromptStep::SkipNoNumber,
            }
        },
        PromptEvent::Enter(entry) => match typed_appid(entry) {
            Some(appid) => PromptStep::Associate(appid),
            None => match top {
                Some(appid) => PromptStep::Associate(appid),
                None => PromptStep::Stay,
            },
        },
        PromptEvent::Skip => PromptStep::SkipFile,
    }
}

/// What is done with the answer to a search.
#[derive(Clone, Copy, Debug, PartialEq, Eq, Structural)]
pub enum SearchReply {
    /// It is late: the entry holds something else by now.
    Ignore,
    /// Show the results, or nothing where the search failed. The AppID is that
    /// of the first result.
    Show(Option<u32>),
}

/// What is done with the answer to a search for `term`, when the entry holds
/// `entry` by now. `results` is `None` where the search failed.
pub fn search_reply(entry: &str, term: &str, results: Option<&[SearchResult]>) -> (reply: SearchReply)
    ensures
        reply == if entry@ != term@ {
            SearchReply::Ignore
        } else {
            SearchReply::Show(
                match results {
                    Some(found) => if found@.len() > 0 {
                        Some(found@[0].appid)
                    } else {
                        None
                    },
                    None => None,
                },
            )
        },
{
    if !text::same_text(entry, term) {
        return SearchReply::Ignore;
    }
    match results {
        Some(found) => if found.len() > 0 {
            SearchReply::Show(Some(found[0].appid))
        } else {
            SearchReply::Show(None)
        },
        None => SearchReply::Show(None),
    }
}

// ---------------------------------------------------------------------------
// When something is looked up
// ---------------------------------------------------------------------------

/// How long the typing has to pause before a search, in milliseconds.
pub const SEARCH_PAUSE_MS: u64 = 250;

/// How often the running trainers are looked at, in milliseconds.
pub const POLL_MS: u64 = 1000;

/// Whether to look for the groups of the running trainers: there are some, and
/// an earlier look is not still going on.
pub fn should_poll(in_flight: bool, groups: usize) -> (polls: bool)
    ensures
        polls == (!in_flight && groups > 0),
{
    !in_flight && groups > 0
}

/// The games whose name and cover art were fetched once more in this session.
pub struct Retried {
    appids: HashSet<u32>,
}

impl View for Retried {
    type V = Set<u32>;

    closed spec fn view(&self) -> Set<u32> {
        self.appids@
    }
}

/// Whether something is missing of a game that a trainer is associated with.
pub open spec fn is_missing(appid: Option<u32>, has_name: bool, has_cover: bool) -> bool {
    appid is Some && !(has_name && has_cover)
}

/// The game to fetch once more, after those in `retried`.
pub open spec fn to_fetch(
    retried: Set<u32>,
    appid: Option<u32>,
    has_name: bool,
    has_cover: bool,
) -> Option<u32> {
    if is_missing(appid, has_name, has_cover) && !retried.contains(appid->0) {
        appid
    } else {
        None
    }
}

/// The games that were fetched once more then.
pub open spec fn fetched(
    retried: Set<u32>,
    appid: Option<u32>,
    has_name: bool,
    has_cover: bool,
) -> Set<u32> {
    match to_fetch(retried, appid, has_name, has_cover) {
        Some(id) => retried.insert(id),
        None => retried,
    }
}

/// What is found of a trainer's game when the list is shown: the game, if there
/// is one, and whether its name and its cover art are there.
pub type Finding = (Option<u32>, bool, bool);

/// The games that were fetched once more, after these findings in a session.
pub open spec fn retried_after(findings: Seq<Finding>) -> Set<u32>
    decreases findings.len(),
{
    if findings.len() == 0 {
        Set::empty()
    } else {
        let last = findings.last();
        fetched(retried_after(findings.drop_last()), last.0, last.1, last.2)
    }
}

/// The games that are fetched once more at these findings in a session, one
/// after the other.
pub open spec fn fetches(findings: Seq<Finding>) -> Seq<u32>
    decreases findings.len(),
{
    if findings.len() == 0 {
        Seq::empty()
    } else {
        let before = fetches(findings.drop_last());
        let last = findings.last();
        match to_fetch(retried_after(findings.drop_last()), last.0, last.1, last.2) {
            Some(appid) => before.push(appid),
            None => before,
        }
    }
}

/// Whether a finding is that something of this game is missing.
pub open spec fn misses(finding: Finding, appid: u32) -> bool {
    finding.0 == Some(appid) && is_missing(finding.0, finding.1, finding.2)
}

/// In a session, from its start, a game is fetched once more at most once, and
/// it is exactly where something of it is ever found missing; what was fetched
/// is what is remembered.
pub proof fn law_fetched_once(findings: Seq<Finding>)
    ensures
        fetches(findings).no_duplicates(),
        forall|appid: u32| #[trigger] fetches(findings).contains(appid) <==> exists|i: int|
            0 <= i < findings.len() && misses(#[trigger] findings[i], appid),
        forall|appid: u32| #[trigger] retried_after(findings).contains(appid) <==> fetches(
            findings,
        ).contains(appid),
    decreases findings.len(),
{
    if findings.len() > 0 {
        let most = findings.drop_last();
        let last = findings.last();
        let before = fetches(most);
        let after = fetches(findings);
        law_fetched_once(most);
        let fetch = to_fetch(retried_after(most), last.0, last.1, last.2);
        assert forall|appid: u32|
            #![trigger after.contains(appid)]
            after.contains(appid) <==> before.contains(appid) || fetch == Some(appid) by {
            if before.contains(appid) {
                let k = choose|k: int| 0 <= k < before.len() && before[k] == appid;
                assert(after[k] == appid);
            }
            if fetch == Some(appid) {
                assert(after[before.len() as int] == appid);
            }
            if after.contains(appid) {
                let k = choose|k: int| 0 <= k < after.len() && after[k] == appid;
                if k < before.len() {
                    assert(before[k] == appid);
                }
            }
        }
        assert forall|i: int, j: int|
            0 <= i < after.len() && 0 <= j < after.len() && i != j implies after[i] != after[j] by {
            if i < before.len() {
                assert(before.contains(before[i]));
            }
            if j < before.len() {
                assert(before.contains(before[j]));
            }
        }
        assert forall|appid: u32| #[trigger] after.contains(appid) <==> exists|i: int|
            0 <= i < findings.len() && misses(#[trigger] findings[i], appid) by {
            if before.contains(appid) {
                let i = choose|i: int| 0 <= i < most.len() && misses(#[trigger] most[i], appid);
                assert(misses(findings[i], appid));
            }
            if fetch == Some(appid) {
                assert(misses(findings[findings.len() - 1], appid));
            }
            if exists|i: int| 0 <= i < findings.len() && misses(#[trigger] findings[i], appid) {
                let i = choose|i: int|
                    0 <= i < findings.len() && misses(#[trigger] findings[i], appid);
                if i < most.len() {
                    assert(misses(most[i], appid));
                    assert(before.contains(appid));
                }
            }
        }
    }
}

impl Retried {
    /// No game yet.
    pub fn new() -> (retried: Retried)
        ensures
            retried@ == Set::<u32>::empty(),
    {
        Retried { appids: HashSet::new() }
    }

    /// Whether to fetch the name and the cover art of a game once more: one of
    /// them is missing, and it was not tried before in this session.
    pub fn should_fetch(&mut self, appid: Option<u32>, has_name: bool, has_cover: bool) -> (fetch: Option<
        u32,
    >)
        ensures
            fetch == to_fetch(old(self)@, appid, has_name, has_cover),
            final(self)@ == fetched(old(self)@, appid, has_name, has_cover),
            fetch is Some <==> appid is Some && !(has_name && has_cover) && !old(self)@.contains(
                appid->0,
            ),
            fetch is Some ==> fetch == appid,
            final(self)@ == if fetch is Some {
                old(self)@.insert(appid->0)
            } else {
                old(self)@
            },
    {
        broadcast use vstd::std_specs::hash::group_hash_axioms;

        let id = match appid {
            Some(id) => id,
            None => {
                return None;
            },
        };
        if has_name && has_cover {
            return None;
        }
        if self.appids.insert(id) {
            Some(id)
        } else {
            assert(self@.insert(id) =~= self@);
            None
        }
    }
}

// ---------------------------------------------------------------------------
// Laws of what is typed
// ---------------------------------------------------------------------------

/// An answer that names a place behind the list picks none of the games, and so
/// does one with a character that is no digit.
pub proof fn law_other_answers_pick_none(games: Seq<RunningGame>, answer: Seq<char>, at: int)
    ensures
        games.len() <= at ==> picks(text::decimal(at), games) is None,
        0 <= at < answer.len() && !('0' <= answer[at] <= '9') && answer[0] != '+' ==> picks(
            answer,
            games,
        ) is None,
        picks(Seq::<char>::empty(), games) is None,
{
    if games.len() <= at {
        text::lemma_decimal_reads_back(at);
        assert(text::decimal(at)[0] != '+');
    }
    if 0 <= at < answer.len() && !('0' <= answer[at] <= '9') && answer[0] != '+' {
        text::lemma_bad_digit(answer, at);
    }
}

/// An AppID that was typed in, with any white space around it, is associated,
/// by the button and by Enter alike, whatever the results are.
pub proof fn law_typed_appid_is_taken(
    event: PromptEvent,
    top: Option<u32>,
    entry: String,
    before: Seq<char>,
    appid: u32,
    after: Seq<char>,
)
    requires
        event == PromptEvent::Add(entry) || event == PromptEvent::Enter(entry),
        entry@ == before + text::decimal(appid as int) + after,
        forall|i: int| 0 <= i < before.len() ==> text::is_space(#[trigger] before[i]),
        forall|i: int| 0 <= i < after.len() ==> text::is_space(#[trigger] after[i]),
    ensures
        prompt_follows(event, top) == PromptStep::Associate(appid),
{
    let core = text::decimal(appid as int);
    text::lemma_decimal_reads_back(appid as int);
    text::law_decimal_numbers(appid as int, Seq::empty(), 0);
    assert('0' <= core[0] <= '9');
    assert('0' <= core[core.len() - 1] <= '9');
    text::law_trimmed(before, core, after);
}

/// An entry of white space alone is skipped by the button; one that is something
/// else than a number is skipped and said to be none. Enter takes the first
/// result then, and leaves the prompt open where there is none.
pub proof fn law_entry_without_a_number(
    top: Option<u32>,
    entry: String,
    before: Seq<char>,
    core: Seq<char>,
    after: Seq<char>,
)
    requires
        entry@ == before + core + after,
        forall|i: int| 0 <= i < before.len() ==> text::is_space(#[trigger] before[i]),
        forall|i: int| 0 <= i < after.len() ==> text::is_space(#[trigger] after[i]),
        core.len() > 0 ==> !text::is_space(core[0]) && !text::is_space(core.last()),
        text::decimal_u32(core) is None,
    ensures
        core.len() == 0 ==> prompt_follows(PromptEvent::Add(entry), top) == PromptStep::SkipFile,
        core.len() > 0 ==> prompt_follows(PromptEvent::Add(entry), top) == PromptStep::SkipNoNumber,
        top matches Some(first) ==> prompt_follows(PromptEvent::Enter(entry), top)
            == PromptStep::Associate(first),
        top is None ==> prompt_follows(PromptEvent::Enter(entry), top) == PromptStep::Stay,
{
    text::law_trimmed(before, core, after);
}

} // verus!
