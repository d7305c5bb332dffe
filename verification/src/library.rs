//! The library of imported trainers: where it lies, what is known of each
//! trainer, and how the trainers are listed.

use crate::paths;
use crate::table;
use crate::text;
use vstd::prelude::*;
use vstd::utf8;

verus! {

// ---------------------------------------------------------------------------
// Where things lie
// ---------------------------------------------------------------------------

/// The data directory, below the home directory.
pub const DATA_DIR: &'static str = ".local/share/steampunk";

/// The data directory that earlier releases used, below the home directory.
pub const LEGACY_DATA_DIR: &'static str = ".local/share/proton-trainer";

/// Where the log goes for a user without a home directory.
pub const NO_HOME: &'static str = "/tmp";

/// The imported trainers, below the data directory.
pub const TRAINERS_DIR: &'static str = "trainers";

/// What is known of the trainers, below the data directory.
pub const META_NAME: &'static str = "trainers.json";

/// Nothing is known of a home directory.
#[derive(Clone, Copy, Debug, PartialEq, Eq, Structural)]
pub struct HomeError;

pub const HOME_NOT_SET: &'static str = "HOME not set";

impl HomeError {
    /// What is said of it.
    pub fn message(&self) -> (text: &'static str)
        ensures
            text@ == HOME_NOT_SET@,
            text@ == "HOME not set"@,
    {
        HOME_NOT_SET
    }
}

/// The path of something in the data directory, when the home directory is known.
pub open spec fn data_path(home: Option<&str>) -> Option<Seq<char>> {
    match home {
        Some(dir) => Some(paths::joined_path(dir@, DATA_DIR@)),
        None => None,
    }
}

/// The path `name` in `base`, when that is known.
pub open spec fn path_in(base: Option<Seq<char>>, name: Seq<char>) -> Option<Seq<char>> {
    match base {
        Some(dir) => Some(paths::joined_path(dir, name)),
        None => None,
    }
}

/// What a path holds, when it is known.
pub open spec fn known(path: Result<String, HomeError>) -> Option<Seq<char>> {
    match path {
        Ok(found) => Some(found@),
        Err(_) => None,
    }
}

/// The data directory: the trainers, what is known of them, the log and the
/// cached cover art.
pub fn data_dir(home: Option<&str>) -> (dir: Result<String, HomeError>)
    ensures
        known(dir) == data_path(home),
        home is None ==> dir is Err,
        home matches Some(base) ==> known(dir) == Some(
            paths::joined_path(base@, ".local/share/steampunk"@),
        ),
{
    match home {
        Some(dir) => Ok(paths::join_path(dir, DATA_DIR)),
        None => Err(HomeError),
    }
}

/// The directory of the imported trainers: all in one, not one for each game.
pub fn trainers_dir(home: Option<&str>) -> (dir: Result<String, HomeError>)
    ensures
        known(dir) == path_in(data_path(home), TRAINERS_DIR@),
        home is None ==> dir is Err,
        home matches Some(base) ==> known(dir) == Some(
            paths::joined_path(paths::joined_path(base@, ".local/share/steampunk"@), "trainers"@),
        ),
{
    match data_dir(home) {
        Ok(dir) => Ok(paths::join_path(&dir, TRAINERS_DIR)),
        Err(e) => Err(e),
    }
}

/// The file that holds what is known of the trainers.
pub fn meta_path(home: Option<&str>) -> (path: Result<String, HomeError>)
    ensures
        known(path) == path_in(data_path(home), META_NAME@),
        home is None ==> path is Err,
        home matches Some(base) ==> known(path) == Some(
            paths::joined_path(
                paths::joined_path(base@, ".local/share/steampunk"@),
                "trainers.json"@,
            ),
        ),
{
    match data_dir(home) {
        Ok(dir) => Ok(paths::join_path(&dir, META_NAME)),
        Err(e) => Err(e),
    }
}

/// The data directory of earlier releases.
pub fn legacy_data_dir(home: Option<&str>) -> (dir: Result<String, HomeError>)
    ensures
        known(dir) == path_in(
            match home {
                Some(base) => Some(base@),
                None => None,
            },
            LEGACY_DATA_DIR@,
        ),
        home is None ==> dir is Err,
        home matches Some(base) ==> known(dir) == Some(
            paths::joined_path(base@, ".local/share/proton-trainer"@),
        ),
{
    match home {
        Some(dir) => Ok(paths::join_path(dir, LEGACY_DATA_DIR)),
        None => Err(HomeError),
    }
}

/// Whether the data directory of earlier releases is to be moved to where it
/// lies now: there is one, and nothing is at the new place yet. What is there
/// already is never replaced.
pub fn migrate_legacy_data_dir(old_is_dir: bool, new_exists: bool) -> (moves: bool)
    ensures
        moves == (old_is_dir && !new_exists),
{
    old_is_dir && !new_exists
}

// ---------------------------------------------------------------------------
// What is known of the trainers
// ---------------------------------------------------------------------------

/// What is known of a trainer: the game that it was associated with.
#[derive(Clone, Copy, Debug, PartialEq, Eq, Structural)]
pub struct TrainerMeta {
    pub appid: Option<u32>,
}

/// What is known of the trainers, by their file names.
pub struct MetaTable {
    entries: Vec<(String, TrainerMeta)>,
}

impl View for MetaTable {
    type V = Map<Seq<char>, TrainerMeta>;

    closed spec fn view(&self) -> Map<Seq<char>, TrainerMeta> {
        table::table_of(self.listed())
    }
}

impl MetaTable {
    /// The entries, in the order in which they are handed out.
    pub closed spec fn listed(self) -> Seq<(Seq<char>, TrainerMeta)> {
        Seq::new(self.entries@.len(), |i: int| (self.entries@[i].0@, self.entries@[i].1))
    }

    /// No name has two entries.
    pub closed spec fn wf(self) -> bool {
        table::keys_differ(self.listed())
    }

    /// A table without entries.
    pub fn new() -> (table: MetaTable)
        ensures
            table.wf(),
            table@ == Map::<Seq<char>, TrainerMeta>::empty(),
    {
        MetaTable { entries: Vec::new() }
    }

    /// Where the entry of a name stands.
    fn position(&self, filename: &str) -> (found: Option<usize>)
        ensures
            match found {
                Some(at) => at < self.listed().len() && self.listed()[at as int].0 == filename@,
                None => forall|i: int|
                    0 <= i < self.listed().len() ==> (#[trigger] self.listed()[i]).0 != filename@,
            },
    {
        for i in 0..self.entries.len()
            invariant
                forall|j: int| 0 <= j < i ==> (#[trigger] self.listed()[j]).0 != filename@,
        {
            assert(self.listed()[i as int].0 == self.entries@[i as int].0@);
            if text::same_text(&self.entries[i].0, filename) {
                return Some(i);
            }
        }
        None
    }

    /// What is known under a name.
    pub fn get(&self, filename: &str) -> (found: Option<TrainerMeta>)
        requires
            self.wf(),
        ensures
            found == if self@.contains_key(filename@) {
                Some(self@[filename@])
            } else {
                None
            },
    {
        proof {
            table::lemma_table(self.listed());
        }
        match self.position(filename) {
            Some(at) => Some(self.entries[at].1),
            None => None,
        }
    }

    /// Sets what is known under a name, in place of what was known.
    pub fn insert(&mut self, filename: &str, meta: TrainerMeta)
        requires
            old(self).wf(),
        ensures
            final(self).wf(),
            final(self)@ == old(self)@.insert(filename@, meta),
    {
        let ghost before = self.listed();
        let name = filename.to_owned();
        match self.position(filename) {
            Some(at) => {
                proof {
                    table::lemma_table_update(before, at as int, meta);
                }
                self.entries.set(at, (name, meta));
                assert(self.listed() == before.update(at as int, (filename@, meta)));
            },
            None => {
                proof {
                    table::lemma_table_push(before, filename@, meta);
                }
                self.entries.push((name, meta));
                assert(self.listed() == before.push((filename@, meta)));
            },
        }
    }

    /// Forgets what is known under a name; says whether anything was.
    pub fn remove(&mut self, filename: &str) -> (known: bool)
        requires
            old(self).wf(),
        ensures
            final(self).wf(),
            known == old(self)@.contains_key(filename@),
            final(self)@ == old(self)@.remove(filename@),
    {
        let ghost before = self.listed();
        proof {
            table::lemma_table(before);
        }
        match self.position(filename) {
            Some(at) => {
                proof {
                    table::lemma_table_remove(before, at as int);
                }
                self.entries.remove(at);
                assert(self.listed() == before.remove(at as int));
                true
            },
            None => {
                assert(self@.remove(filename@) =~= self@);
                false
            },
        }
    }

    /// How many names have an entry.
    pub fn len(&self) -> (count: usize)
        requires
            self.wf(),
        ensures
            count == self.listed().len(),
            table::keys_differ(self.listed()),
            self@ == table::table_of(self.listed()),
    {
        self.entries.len()
    }

    /// The entry at this place of the order.
    pub fn entry(&self, at: usize) -> (entry: (&str, TrainerMeta))
        requires
            at < self.listed().len(),
        ensures
            (entry.0@, entry.1) == self.listed()[at as int],
    {
        let entry = &self.entries[at];
        (&entry.0, entry.1)
    }
}

/// Associates a game with an imported trainer, in place of any other game.
pub fn set_trainer_appid(meta: &mut MetaTable, filename: &str, appid: u32)
    requires
        old(meta).wf(),
    ensures
        final(meta).wf(),
        final(meta)@ == old(meta)@.insert(filename@, (TrainerMeta { appid: Some(appid) })),
{
    meta.insert(filename, TrainerMeta { appid: Some(appid) });
}

/// Forgets the game of a trainer that is removed, so that a trainer of the same
/// name that is added later does not inherit it; says whether there is anything
/// to save.
pub fn remove_trainer(meta: &mut MetaTable, filename: &str) -> (changed: bool)
    requires
        old(meta).wf(),
    ensures
        final(meta).wf(),
        final(meta)@ == old(meta)@.remove(filename@),
        changed == old(meta)@.contains_key(filename@),
{
    meta.remove(filename)
}

/// A game that was associated with a trainer is found again under the name of
/// the trainer, a second association takes the place of the first, and neither
/// touches another trainer.
pub proof fn law_association_is_kept(
    meta: Map<Seq<char>, TrainerMeta>,
    name: Seq<char>,
    other: Seq<char>,
    first: u32,
    second: u32,
)
    requires
        name != other,
    ensures
        ({
            let once = meta.insert(name, (TrainerMeta { appid: Some(first) }));
            let twice = once.insert(name, (TrainerMeta { appid: Some(second) }));
            &&& once.contains_key(name)
            &&& once[name].appid == Some(first)
            &&& twice == meta.insert(name, (TrainerMeta { appid: Some(second) }))
            &&& once.contains_key(other) == meta.contains_key(other)
            &&& meta.contains_key(other) ==> once[other] == meta[other]
        }),
{
    let once = meta.insert(name, (TrainerMeta { appid: Some(first) }));
    assert(once.insert(name, (TrainerMeta { appid: Some(second) })) =~= meta.insert(
        name,
        (TrainerMeta { appid: Some(second) }),
    ));
}

// ---------------------------------------------------------------------------
// Listing the trainers
// ---------------------------------------------------------------------------

/// An imported trainer.
#[derive(Clone, Debug)]
pub struct Trainer {
    /// The stem of the file name, which is shown where no game is known.
    pub name: String,
    /// The path, as the bytes that the system knows it by.
    pub path: Vec<u8>,
    /// The game that the trainer was associated with.
    pub appid: Option<u32>,
    /// The name of that game, once it is known.
    pub game_name: Option<String>,
    /// The cover art of that game, once there is any.
    pub cover_path: Option<String>,
}

impl Trainer {
    /// What is shown: the name of the game where it is known, and otherwise the
    /// name of the file.
    pub open spec fn shown(self) -> Seq<char> {
        match self.game_name {
            Some(name) => name@,
            None => self.name@,
        }
    }

    /// What is shown: the name of the game where it is known, and otherwise the
    /// name of the file.
    pub fn display_name(&self) -> (name: &str)
        ensures
            name@ == self.shown(),
            self.game_name matches Some(known) ==> name@ == known@,
            self.game_name is None ==> name@ == self.name@,
    {
        match &self.game_name {
            Some(name) => name,
            None => &self.name,
        }
    }
}

/// A file in the directory of the trainers: its name as text, its path, and
/// whether it is a regular file.
pub struct TrainerFile {
    pub file_name: String,
    pub path: Vec<u8>,
    pub is_file: bool,
}

/// What the cache holds of a game.
pub struct CachedGame {
    pub appid: u32,
    pub name: Option<String>,
    pub cover: Option<String>,
}

/// The extension of a trainer.
pub const EXE: &'static str = "exe";

/// Where the extension of a file name begins: behind its last dot, unless the
/// name has no other or begins with it.
pub open spec fn extension_start(file_name: Seq<char>) -> Option<int> {
    let dot = text::last_index(file_name, '.');
    if dot <= 0 || file_name == seq!['.', '.'] {
        None
    } else {
        Some(dot + 1)
    }
}

/// A file name without its extension.
pub open spec fn stem_of(file_name: Seq<char>) -> Seq<char> {
    match extension_start(file_name) {
        Some(start) => file_name.take(start - 1),
        None => file_name,
    }
}

/// Whether a file name is that of a trainer.
pub open spec fn is_exe(file_name: Seq<char>) -> bool {
    extension_start(file_name) matches Some(start) && text::same_but_case(
        file_name.skip(start),
        EXE@,
    )
}

/// Where the extension of a file name begins.
fn find_extension(file_name: &[char]) -> (start: Option<usize>)
    ensures
        match start {
            Some(at) => extension_start(file_name@) == Some(at as int) && 0 < at
                <= file_name@.len(),
            None => extension_start(file_name@) is None,
        },
{
    if file_name.len() == 2 && file_name[0] == '.' && file_name[1] == '.' {
        assert(file_name@ == seq!['.', '.']);
        return None;
    }
    match text::find_last_char(file_name, '.') {
        Some(dot) => if dot == 0 {
            None
        } else {
            Some(dot + 1)
        },
        None => None,
    }
}

/// A file name without its extension.
pub fn file_stem(file_name: &str) -> (stem: String)
    ensures
        stem@ == stem_of(file_name@),
{
    let chars = text::chars_of(file_name);
    match find_extension(&chars) {
        Some(start) => {
            let stem = vstd::slice::slice_subrange(&chars, 0, start - 1);
            assert(stem@ == file_name@.take(start - 1));
            text::string_of(stem)
        },
        None => file_name.to_owned(),
    }
}

/// Whether a file name is that of a trainer: its extension is `exe`, in
/// whichever case it is written.
pub fn is_trainer_name(file_name: &str) -> (exe: bool)
    ensures
        exe == is_exe(file_name@),
{
    let chars = text::chars_of(file_name);
    match find_extension(&chars) {
        Some(start) => {
            let extension = vstd::slice::slice_subrange(&chars, start, chars.len());
            assert(extension@ == file_name@.skip(start as int));
            let wanted = text::chars_of(EXE);
            text::eq_ignore_ascii_case(extension, &wanted)
        },
        None => false,
    }
}

/// What a trainer is: its name, its path, its game, and what is known of that.
pub struct TrainerView {
    pub name: Seq<char>,
    pub path: Seq<u8>,
    pub appid: Option<u32>,
    pub game_name: Option<Seq<char>>,
    pub cover_path: Option<Seq<char>>,
}

impl TrainerView {
    /// What is shown of the trainer.
    pub open spec fn shown(self) -> Seq<char> {
        match self.game_name {
            Some(name) => name,
            None => self.name,
        }
    }
}

impl View for Trainer {
    type V = TrainerView;

    open spec fn view(&self) -> TrainerView {
        TrainerView {
            name: self.name@,
            path: self.path@,
            appid: self.appid,
            game_name: text::opt_view(self.game_name),
            cover_path: text::opt_view(self.cover_path),
        }
    }
}

/// What the cache holds of a game: its name and its cover art.
pub open spec fn cached(cache: Seq<CachedGame>, appid: u32) -> (Option<Seq<char>>, Option<Seq<char>>)
    decreases cache.len(),
{
    if cache.len() == 0 {
        (None, None)
    } else if cache[0].appid == appid {
        (text::opt_view(cache[0].name), text::opt_view(cache[0].cover))
    } else {
        cached(cache.skip(1), appid)
    }
}

/// The trainer that a file is: its game is the one that was associated with its
/// name, and the name and cover art of the game are those in the cache.
pub open spec fn trainer_of(
    file: TrainerFile,
    meta: Map<Seq<char>, TrainerMeta>,
    cache: Seq<CachedGame>,
) -> TrainerView {
    let appid = if meta.contains_key(file.file_name@) {
        meta[file.file_name@].appid
    } else {
        None
    };
    let known = match appid {
        Some(id) => cached(cache, id),
        None => (None, None),
    };
    TrainerView {
        name: stem_of(file.file_name@),
        path: file.path@,
        appid,
        game_name: known.0,
        cover_path: known.1,
    }
}

/// Whether a file is a trainer.
pub open spec fn is_trainer(file: TrainerFile) -> bool {
    file.is_file && is_exe(file.file_name@)
}

/// The trainers among the files, in the order of the files.
pub open spec fn trainers_in(
    files: Seq<TrainerFile>,
    meta: Map<Seq<char>, TrainerMeta>,
    cache: Seq<CachedGame>,
) -> Seq<TrainerView>
    decreases files.len(),
{
    if files.len() == 0 {
        Seq::empty()
    } else {
        let before = trainers_in(files.drop_last(), meta, cache);
        if is_trainer(files.last()) {
            before.push(trainer_of(files.last(), meta, cache))
        } else {
            before
        }
    }
}

/// Whether `order` names each of the first `count` numbers once.
pub open spec fn is_order(order: Seq<int>, count: int) -> bool {
    &&& order.len() == count
    &&& order.no_duplicates()
    &&& forall|i: int| 0 <= i < order.len() ==> 0 <= #[trigger] order[i] < count
}

/// Whether `sorted` holds what `all` holds, in the given order: by what is
/// shown, and where that is the same as before.
pub open spec fn is_sorted(sorted: Seq<TrainerView>, all: Seq<TrainerView>, order: Seq<int>) -> bool {
    &&& is_order(order, all.len() as int)
    &&& sorted.len() == all.len()
    &&& forall|i: int| 0 <= i < sorted.len() ==> #[trigger] sorted[i] == all[order[i]]
    &&& forall|i: int, j: int|
        0 <= i < j < sorted.len() ==> text::precedes(
            (#[trigger] sorted[i]).shown(),
            (#[trigger] sorted[j]).shown(),
        ) || (sorted[i].shown() == sorted[j].shown() && order[i] < order[j])
}

/// What trainers are.
pub open spec fn trainer_views(trainers: Seq<Trainer>) -> Seq<TrainerView> {
    Seq::new(trainers.len(), |i: int| trainers[i]@)
}

/// Looks a game up in the cache.
fn lookup(cache: &[CachedGame], appid: u32) -> (known: (Option<String>, Option<String>))
    ensures
        (text::opt_view(known.0), text::opt_view(known.1)) == cached(cache@, appid),
{
    assert(cache@.skip(0) == cache@);
    for i in 0..cache.len()
        invariant
            cached(cache@, appid) == cached(cache@.skip(i as int), appid),
    {
        assert(cache@.skip(i as int)[0] == cache@[i as int]);
        assert(cache@.skip(i as int).skip(1) == cache@.skip(i + 1));
        if cache[i].appid == appid {
            let name = match &cache[i].name {
                Some(name) => Some(name.clone()),
                None => None,
            };
            let cover = match &cache[i].cover {
                Some(cover) => Some(cover.clone()),
                None => None,
            };
            return (name, cover);
        }
    }
    (None, None)
}

/// The trainer that a file is.
fn read_trainer(file: &TrainerFile, meta: &MetaTable, cache: &[CachedGame]) -> (trainer: Trainer)
    requires
        meta.wf(),
    ensures
        trainer@ == trainer_of(*file, meta@, cache@),
{
    let appid = match meta.get(&file.file_name) {
        Some(known) => known.appid,
        None => None,
    };
    let (game_name, cover_path) = match appid {
        Some(id) => lookup(cache, id),
        None => (None, None),
    };
    Trainer {
        name: file_stem(&file.file_name),
        path: vstd::slice::slice_to_vec(&file.path),
        appid,
        game_name,
        cover_path,
    }
}

/// Puts one more trainer to its place among sorted ones: behind those that are
/// shown under the same name.
fn insert_sorted(sorted: &mut Vec<Trainer>, trainer: Trainer, Ghost(all): Ghost<Seq<TrainerView>>, Ghost(order): Ghost<Seq<int>>) -> (next: Ghost<Seq<int>>)
    requires
        is_sorted(trainer_views(old(sorted)@), all, order),
    ensures
        is_sorted(trainer_views(final(sorted)@), all.push(trainer@), next@),
{
    let ghost before = trainer_views(sorted@);
    let new_name = text::chars_of(trainer.display_name());
    let mut at: usize = sorted.len();
    while at > 0 && text::is_before(&new_name, &text::chars_of(sorted[at - 1].display_name()))
        invariant
            at <= sorted@.len(),
            before == trainer_views(sorted@),
            new_name@ == trainer@.shown(),
            forall|i: int|
                at <= i < before.len() ==> text::precedes(
                    trainer@.shown(),
                    (#[trigger] before[i]).shown(),
                ),
        decreases at,
    {
        at -= 1;
    }
    let ghost next = order.insert(at as int, all.len() as int);
    let ghost added = trainer@;
    proof {
        if at > 0 {
            let last = before[at - 1].shown();
            assert(!text::precedes(added.shown(), last));
            assert forall|i: int| 0 <= i < at implies text::precedes(
                (#[trigger] before[i]).shown(),
                added.shown(),
            ) || before[i].shown() == added.shown() by {
                text::lemma_precedes_total(last, added.shown());
                if i < at - 1 {
                    assert(before[at - 1].shown() == last);
                    if text::precedes(before[i].shown(), last) && text::precedes(
                        last,
                        added.shown(),
                    ) {
                        text::lemma_precedes_transitive(before[i].shown(), last, added.shown());
                    }
                }
            }
        }
    }
    sorted.insert(at, trainer);
    proof {
        let after = trainer_views(sorted@);
        assert(after == before.insert(at as int, added));
        let more = all.push(added);
        assert forall|i: int| 0 <= i < next.len() implies 0 <= #[trigger] next[i] < more.len() by {
            if i < at {
                assert(next[i] == order[i]);
            } else if i > at {
                assert(next[i] == order[i - 1]);
            }
        }
        assert forall|i: int, j: int|
            0 <= i < next.len() && 0 <= j < next.len() && i != j implies next[i] != next[j] by {
            let k = if i < at { i } else { i - 1 };
            let l = if j < at { j } else { j - 1 };
            if i != at && j != at {
                assert(next[i] == order[k] && next[j] == order[l]);
            } else if i != at {
                assert(next[i] == order[k]);
            } else {
                assert(next[j] == order[l]);
            }
        }
        assert forall|i: int| 0 <= i < after.len() implies #[trigger] after[i] == more[next[i]] by {
            if i < at {
                assert(after[i] == before[i] && next[i] == order[i]);
            } else if i > at {
                assert(after[i] == before[i - 1] && next[i] == order[i - 1]);
            }
        }
        assert forall|i: int, j: int| 0 <= i < j < after.len() implies text::precedes(
            (#[trigger] after[i]).shown(),
            (#[trigger] after[j]).shown(),
        ) || (after[i].shown() == after[j].shown() && next[i] < next[j]) by {
            let k = if i < at { i } else { i - 1 };
            let l = if j < at { j } else { j - 1 };
            if i != at {
                assert(after[i] == before[k] && next[i] == order[k]);
            }
            if j != at {
                assert(after[j] == before[l] && next[j] == order[l]);
            }
        }
    }
    Ghost(next)
}

/// Lists the trainers among the files of their directory, by what is shown of
/// them. The cache is only read: where it knows nothing of a game, the name of
/// the file is shown.
pub fn list_trainers(files: &[TrainerFile], meta: &MetaTable, cache: &[CachedGame]) -> (trainers: Vec<
    Trainer,
>)
    requires
        meta.wf(),
    ensures
        exists|order: Seq<int>|
            #[trigger] is_sorted(
                trainer_views(trainers@),
                trainers_in(files@, meta@, cache@),
                order,
            ),
{
    let mut trainers: Vec<Trainer> = Vec::new();
    let mut order: Ghost<Seq<int>> = Ghost(Seq::empty());
    for i in 0..files.len()
        invariant
            meta.wf(),
            is_sorted(
                trainer_views(trainers@),
                trainers_in(files@.take(i as int), meta@, cache@),
                order@,
            ),
    {
        let ghost upto = files@.take(i + 1);
        assert(upto.drop_last() == files@.take(i as int));
        assert(upto.last() == files@[i as int]);
        let file = &files[i];
        if file.is_file && is_trainer_name(&file.file_name) {
            let trainer = read_trainer(file, meta, cache);
            order = insert_sorted(
                &mut trainers,
                trainer,
                Ghost(trainers_in(files@.take(i as int), meta@, cache@)),
                order,
            );
        }
    }
    assert(files@.take(files@.len() as int) == files@);
    assert(is_sorted(trainer_views(trainers@), trainers_in(files@, meta@, cache@), order@));
    trainers
}

/// An order names every number.
proof fn lemma_order_is_full(order: Seq<int>, count: int, n: int)
    requires
        is_order(order, count),
        0 <= n < count,
    ensures
        order.contains(n),
{
    let named = order.to_set();
    let range = vstd::set_lib::set_int_range(0, count);
    order.unique_seq_to_set();
    vstd::set_lib::lemma_int_range(0, count);
    assert forall|x: int| named.contains(x) implies range.contains(x) by {
        let i = choose|i: int| 0 <= i < order.len() && order[i] == x;
        assert(0 <= order[i] < count);
    }
    vstd::set_lib::lemma_subset_equality(named, range);
    assert(named.contains(n));
}

/// What comes first in one sorted list comes first in any other.
proof fn lemma_same_order(
    all: Seq<TrainerView>,
    one: Seq<TrainerView>,
    one_order: Seq<int>,
    other: Seq<TrainerView>,
    other_order: Seq<int>,
    upto: int,
)
    requires
        is_sorted(one, all, one_order),
        is_sorted(other, all, other_order),
        0 <= upto <= all.len(),
    ensures
        forall|i: int| 0 <= i < upto ==> #[trigger] one_order[i] == other_order[i],
    decreases upto,
{
    if upto > 0 {
        let at = upto - 1;
        lemma_same_order(all, one, one_order, other, other_order, at);
        let a = one_order[at];
        let b = other_order[at];
        if a != b {
            lemma_order_is_full(other_order, all.len() as int, a);
            lemma_order_is_full(one_order, all.len() as int, b);
            let j = choose|j: int| 0 <= j < other_order.len() && other_order[j] == a;
            let k = choose|k: int| 0 <= k < one_order.len() && one_order[k] == b;
            if j < at {
                assert(one_order[j] == other_order[j]);
                assert(one_order[j] == one_order[at]);
            }
            if k < at {
                assert(one_order[k] == other_order[k]);
                assert(other_order[k] == other_order[at]);
            }
            assert(other[at] == all[b] && other[j] == all[a]);
            assert(one[at] == all[a] && one[k] == all[b]);
            text::lemma_precedes_total(all[a].shown(), all[b].shown());
            text::lemma_precedes_total(all[a].shown(), all[a].shown());
        }
    }
}

/// The list of the trainers is determined by the files, what is known of the
/// trainers and the cache: two lists that are sorted alike are the same.
pub proof fn law_list_is_determined(
    all: Seq<TrainerView>,
    one: Seq<TrainerView>,
    one_order: Seq<int>,
    other: Seq<TrainerView>,
    other_order: Seq<int>,
)
    requires
        is_sorted(one, all, one_order),
        is_sorted(other, all, other_order),
    ensures
        one == other,
{
    lemma_same_order(all, one, one_order, other, other_order, all.len() as int);
    assert forall|i: int| 0 <= i < one.len() implies one[i] == other[i] by {
        assert(one_order[i] == other_order[i]);
    }
    assert(one =~= other);
}

/// Every trainer among the files is listed once: the list is as long as there
/// are trainers, and each of them is in it.
pub proof fn law_no_trainer_is_lost(
    all: Seq<TrainerView>,
    sorted: Seq<TrainerView>,
    order: Seq<int>,
    at: int,
)
    requires
        is_sorted(sorted, all, order),
        0 <= at < all.len(),
    ensures
        sorted.len() == all.len(),
        sorted.contains(all[at]),
{
    lemma_order_is_full(order, all.len() as int, at);
    let i = choose|i: int| 0 <= i < order.len() && order[i] == at;
    assert(sorted[i] == all[at]);
}

/// Trainers of the same game show the same name and the same cover art.
pub proof fn law_one_game_one_name(
    one: TrainerFile,
    other: TrainerFile,
    meta: Map<Seq<char>, TrainerMeta>,
    cache: Seq<CachedGame>,
)
    requires
        trainer_of(one, meta, cache).appid is Some,
        trainer_of(one, meta, cache).appid == trainer_of(other, meta, cache).appid,
    ensures
        trainer_of(one, meta, cache).game_name == trainer_of(other, meta, cache).game_name,
        trainer_of(one, meta, cache).cover_path == trainer_of(other, meta, cache).cover_path,
{
}

/// A trainer that no game was associated with is shown by the name of its file,
/// without cover art, whatever the cache holds.
pub proof fn law_unassociated_trainer_shows_its_file(
    file: TrainerFile,
    meta: Map<Seq<char>, TrainerMeta>,
    cache: Seq<CachedGame>,
)
    requires
        !meta.contains_key(file.file_name@) || meta[file.file_name@].appid is None,
    ensures
        trainer_of(file, meta, cache).shown() == stem_of(file.file_name@),
        trainer_of(file, meta, cache).cover_path is None,
{
}

// ---------------------------------------------------------------------------
// Importing a trainer
// ---------------------------------------------------------------------------

/// What is put behind the name of a trainer while it is being copied.
pub const TEMPORARY_SUFFIX: &'static str = ".tmp";

/// The file to be imported has no name.
#[derive(Clone, Copy, Debug, PartialEq, Eq, Structural)]
pub struct NoFileName;

pub const NO_FILE_NAME: &'static str = "dropped file has no filename";

impl NoFileName {
    /// What is said of it.
    pub fn message(&self) -> (text: &'static str)
        ensures
            text@ == NO_FILE_NAME@,
            text@ == "dropped file has no filename"@,
    {
        NO_FILE_NAME
    }
}

/// Where a trainer goes: its place in the library, and the place at which it is
/// put together.
pub struct ImportPaths {
    pub dest: Vec<u8>,
    pub temporary: Vec<u8>,
}

/// The path of a file in a directory, as bytes.
pub open spec fn byte_path(dir: Seq<u8>, file_name: Seq<u8>) -> Seq<u8> {
    if dir.len() == 0 || dir.last() == 0x2f {
        dir + file_name
    } else {
        dir.push(0x2f) + file_name
    }
}

/// Where a trainer of this name goes: into the directory of the trainers, under
/// the name that it has, so that it takes the place of one of the same name.
pub fn import_paths(trainers_dir: &str, file_name: Option<&[u8]>) -> (paths: Result<
    ImportPaths,
    NoFileName,
>)
    ensures
        match paths {
            Ok(found) => {
                &&& file_name matches Some(name)
                &&& found.dest@ == byte_path(utf8::encode_utf8(trainers_dir@), name@)
                &&& found.temporary@ == found.dest@ + utf8::encode_utf8(TEMPORARY_SUFFIX@)
            },
            Err(_) => file_name is None,
        },
        file_name is Some ==> paths is Ok,
        paths matches Ok(found) ==> {
            let dir = utf8::encode_utf8(trainers_dir@);
            &&& dir.len() == 0 || dir.last() == 0x2f ==> found.dest@ == dir + file_name->0@
            &&& dir.len() > 0 && dir.last() != 0x2f ==> found.dest@ == dir + seq![0x2fu8]
                + file_name->0@
            &&& found.temporary@ == found.dest@ + utf8::encode_utf8(".tmp"@)
        },
{
    let name = match file_name {
        Some(name) => name,
        None => {
            return Err(NoFileName);
        },
    };
    let mut dest = vstd::slice::slice_to_vec(trainers_dir.as_bytes());
    if dest.len() > 0 && dest[dest.len() - 1] != 0x2f {
        dest.push(0x2f);
    }
    dest.extend_from_slice(name);
    let mut temporary = vstd::slice::slice_to_vec(&dest);
    temporary.extend_from_slice(TEMPORARY_SUFFIX.as_bytes());
    Ok(ImportPaths { dest, temporary })
}

/// What happened last in an import.
#[derive(Clone, Copy, Debug, PartialEq, Eq, Structural)]
pub enum ImportEvent {
    /// The file and its place in the library were compared: whether both are
    /// there and are the same file.
    Compared { same: bool },
    /// The file was copied to the temporary place, or that failed.
    Copied { succeeded: bool },
    /// The temporary file was moved to its place, or that failed.
    Moved { succeeded: bool },
}

/// What is to be done next in an import.
#[derive(Clone, Copy, Debug, PartialEq, Eq, Structural)]
pub enum ImportStep {
    /// Copy the file to the temporary place.
    Copy,
    /// Move the temporary file to its place in the library.
    Move,
    /// The trainer is in the library.
    Done,
    /// Remove the temporary file, and report the failure.
    CleanUp,
}

/// What follows on an event.
pub open spec fn import_follows(event: ImportEvent) -> ImportStep {
    match event {
        ImportEvent::Compared { same } => if same {
            ImportStep::Done
        } else {
            ImportStep::Copy
        },
        ImportEvent::Copied { succeeded } => if succeeded {
            ImportStep::Move
        } else {
            ImportStep::CleanUp
        },
        ImportEvent::Moved { succeeded } => if succeeded {
            ImportStep::Done
        } else {
            ImportStep::CleanUp
        },
    }
}

/// Leads an import. A file that already is the one in the library is left
/// alone: a copy onto itself would empty it.
pub fn import_trainer(event: ImportEvent) -> (step: ImportStep)
    ensures
        step == import_follows(event),
        event == (ImportEvent::Compared { same: true }) ==> step is Done,
        event == (ImportEvent::Compared { same: false }) ==> step is Copy,
        event == (ImportEvent::Copied { succeeded: true }) ==> step is Move,
        event == (ImportEvent::Moved { succeeded: true }) ==> step is Done,
        event == (ImportEvent::Copied { succeeded: false }) ==> step is CleanUp,
        event == (ImportEvent::Moved { succeeded: false }) ==> step is CleanUp,
{
    match event {
        ImportEvent::Compared { same } => if same {
            ImportStep::Done
        } else {
            ImportStep::Copy
        },
        ImportEvent::Copied { succeeded } => if succeeded {
            ImportStep::Move
        } else {
            ImportStep::CleanUp
        },
        ImportEvent::Moved { succeeded } => if succeeded {
            ImportStep::Done
        } else {
            ImportStep::CleanUp
        },
    }
}

/// What an import leaves in the library, from what was there: `new` is what the
/// file holds, `copies` whether the copy succeeds and `moves` whether the move
/// does. Only a move changes what is in the library.
pub open spec fn imported(
    held: Option<Seq<u8>>,
    new: Seq<u8>,
    same: bool,
    copies: bool,
    moves: bool,
) -> Option<Seq<u8>> {
    match import_follows(ImportEvent::Compared { same }) {
        ImportStep::Copy => match import_follows(ImportEvent::Copied { succeeded: copies }) {
            ImportStep::Move => if moves {
                Some(new)
            } else {
                held
            },
            _ => held,
        },
        _ => held,
    }
}

/// After an import the library holds the whole new trainer, or what it held: an
/// import that is cut short leaves nothing half copied, and one that succeeds
/// leaves the new trainer.
pub proof fn law_import_is_whole(
    held: Option<Seq<u8>>,
    new: Seq<u8>,
    same: bool,
    copies: bool,
    moves: bool,
)
    requires
        same ==> held == Some(new),
    ensures
        imported(held, new, same, copies, moves) == Some(new) || imported(
            held,
            new,
            same,
            copies,
            moves,
        ) == held,
        same || (copies && moves) ==> imported(held, new, same, copies, moves) == Some(new),
        !same && !(copies && moves) ==> imported(held, new, same, copies, moves) == held,
{
}

// ---------------------------------------------------------------------------
// Laws of the list, on written file names
// ---------------------------------------------------------------------------

/// Whether a file name is a stem, a dot and an extension without a dot.
pub open spec fn is_written_name(
    file_name: Seq<char>,
    stem: Seq<char>,
    extension: Seq<char>,
) -> bool {
    &&& file_name == stem + seq!['.'] + extension
    &&& stem.len() > 0
    &&& !extension.contains('.')
    &&& extension.len() > 0 || stem != seq!['.']
}

/// A file name that is a stem, a dot and an extension is that of a trainer
/// exactly where the extension is `exe` in any letter case, and its stem is what
/// stands before the last dot.
pub proof fn law_file_name_with_extension(
    file_name: Seq<char>,
    stem: Seq<char>,
    extension: Seq<char>,
)
    requires
        is_written_name(file_name, stem, extension),
    ensures
        stem_of(file_name) == stem,
        is_exe(file_name) <==> text::same_but_case(extension, "exe"@),
{
    text::law_last_index(stem, '.', extension);
    assert(file_name.take(stem.len() as int) == stem);
    assert(file_name.skip(stem.len() as int + 1) == extension);
    if file_name == seq!['.', '.'] {
        assert(file_name.len() == 2);
        assert(stem.len() == 1);
        assert(stem[0] == file_name[0]);
        assert(stem =~= seq!['.']);
        assert(extension.len() == 0);
    }
}

/// A file name without a dot, or with none but the first character, has no
/// extension: it is its own stem, and no trainer.
pub proof fn law_file_name_without_extension(name: Seq<char>)
    requires
        !name.contains('.'),
    ensures
        stem_of(name) == name,
        !is_exe(name),
        stem_of(seq!['.'] + name) == seq!['.'] + name,
        !is_exe(seq!['.'] + name),
        stem_of(seq!['.', '.']) == seq!['.', '.'],
        !is_exe(seq!['.', '.']),
{
    let nothing = Seq::<char>::empty();
    text::law_last_index(nothing, '.', name);
    assert(nothing + seq!['.'] + name == seq!['.'] + name);
}

/// The first entry of the cache with the AppID tells the name and the cover art
/// of a game; where there is none, nothing is known.
pub proof fn law_first_cached_entry_decides(
    before: Seq<CachedGame>,
    game: CachedGame,
    after: Seq<CachedGame>,
    appid: u32,
)
    requires
        forall|i: int| 0 <= i < before.len() ==> (#[trigger] before[i]).appid != appid,
    ensures
        game.appid == appid ==> cached(before + seq![game] + after, appid) == (
            text::opt_view(game.name),
            text::opt_view(game.cover),
        ),
        cached(before, appid) == (None::<Seq<char>>, None::<Seq<char>>),
    decreases before.len(),
{
    let all = before + seq![game] + after;
    if before.len() == 0 {
        assert(all[0] == game);
    } else {
        let rest = before.skip(1);
        assert(all[0] == before[0]);
        assert(all.skip(1) == rest + seq![game] + after);
        assert forall|i: int| 0 <= i < rest.len() implies (#[trigger] rest[i]).appid != appid by {
            assert(rest[i] == before[i + 1]);
        }
        law_first_cached_entry_decides(rest, game, after, appid);
    }
}

/// One file more adds one trainer behind the others, where it is a regular file
/// whose extension is `exe` in any letter case, and nothing otherwise. The
/// trainer has the stem of the file as its name, the path of the file, and the
/// game that was associated with the file name.
pub proof fn law_one_more_file(
    files: Seq<TrainerFile>,
    file: TrainerFile,
    meta: Map<Seq<char>, TrainerMeta>,
    cache: Seq<CachedGame>,
    stem: Seq<char>,
    extension: Seq<char>,
)
    requires
        is_written_name(file.file_name@, stem, extension),
    ensures
        trainers_in(Seq::<TrainerFile>::empty(), meta, cache).len() == 0,
        !file.is_file || !text::same_but_case(extension, "exe"@) ==> trainers_in(
            files.push(file),
            meta,
            cache,
        ) == trainers_in(files, meta, cache),
        file.is_file && text::same_but_case(extension, "exe"@) ==> {
            let more = trainers_in(files.push(file), meta, cache);
            let added = more.last();
            &&& more == trainers_in(files, meta, cache).push(added)
            &&& added.name == stem
            &&& added.path == file.path@
            &&& meta.contains_key(file.file_name@) ==> added.appid == meta[file.file_name@].appid
            &&& !meta.contains_key(file.file_name@) ==> added.appid is None
            &&& added.appid is None ==> added.game_name is None && added.cover_path is None
            &&& added.appid matches Some(id) ==> (added.game_name, added.cover_path) == cached(
                cache,
                id,
            )
        },
{
    law_file_name_with_extension(file.file_name@, stem, extension);
    assert(files.push(file).drop_last() == files);
    assert(files.push(file).last() == file);
}

/// A file whose name has no extension adds nothing.
pub proof fn law_file_without_extension_is_no_trainer(
    files: Seq<TrainerFile>,
    file: TrainerFile,
    meta: Map<Seq<char>, TrainerMeta>,
    cache: Seq<CachedGame>,
)
    requires
        !file.file_name@.contains('.'),
    ensures
        trainers_in(files.push(file), meta, cache) == trainers_in(files, meta, cache),
{
    law_file_name_without_extension(file.file_name@);
    assert(files.push(file).drop_last() == files);
    assert(files.push(file).last() == file);
}

/// The list is in the dictionary order of what is shown: the name of the game
/// where it is known, and otherwise the name of the file. It is as long as there
/// are trainers, and holds each of them.
pub proof fn law_list_is_in_order(
    listed: Seq<TrainerView>,
    all: Seq<TrainerView>,
    order: Seq<int>,
    i: int,
    j: int,
)
    requires
        is_sorted(listed, all, order),
        0 <= i < j < listed.len(),
    ensures
        ({
            let one = match listed[i].game_name {
                Some(game) => game,
                None => listed[i].name,
            };
            let other = match listed[j].game_name {
                Some(game) => game,
                None => listed[j].name,
            };
            &&& text::precedes(one, other) || one == other
            &&& !text::precedes(other, one)
        }),
        listed.len() == all.len(),
        all.contains(listed[i]),
        listed.contains(all[i]),
{
    let one = listed[i].shown();
    let other = listed[j].shown();
    text::lemma_precedes_total(one, other);
    text::lemma_precedes_total(one, one);
    if text::precedes(one, other) && text::precedes(other, one) {
        text::lemma_precedes_transitive(one, other, one);
    }
    assert(listed[i] == all[order[i]]);
    law_no_trainer_is_lost(all, listed, order, i);
}

} // verus!
