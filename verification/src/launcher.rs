//! Launching a trainer against a running game: which game, which prefix, which
//! Proton build, and how a trainer that was launched is watched and stopped.

use crate::paths;
use crate::process;
use crate::text;
use vstd::prelude::*;
use vstd::slice::slice_subrange;
use vstd::utf8;

pub use crate::dotnet::{dotnet_status, has_usable_dotnet, DotnetStatus};
pub use crate::process::{find_running_appids, process_group_alive};

verus! {

/// Everything that is needed to launch a trainer against a running game.
pub struct LaunchTarget {
    pub appid: u32,
    pub client_dir: String,
    pub compatdata_dir: String,
    pub proton_dir: String,
}

/// The directory of the wine prefix below a `compatdata` directory.
pub const PREFIX_NAME: &'static str = "pfx";

impl LaunchTarget {
    /// The wine prefix of the game.
    pub fn prefix_dir(&self) -> (dir: String)
        ensures
            dir@ == paths::joined_path(self.compatdata_dir@, PREFIX_NAME@),
            dir@ == paths::joined_path(self.compatdata_dir@, "pfx"@),
    {
        paths::join_path(&self.compatdata_dir, PREFIX_NAME)
    }
}

/// A game that runs, to tell it from others that run as well.
pub struct RunningGame {
    pub appid: u32,
    pub name: String,
}

/// What stands in front of the AppID in the name of a game whose name is not known.
pub const UNKNOWN_GAME: &'static str = "AppId ";

/// The name under which a game is shown: its own, or one made from its AppID.
pub open spec fn shown_name(appid: u32, name: Option<String>) -> Seq<char> {
    match name {
        Some(known) => known@,
        None => UNKNOWN_GAME@ + text::decimal(appid as int),
    }
}

/// The games that run, under the names that their Steam manifests give them.
/// `found` pairs the AppID of each with that name, where there is one.
pub fn running_games(found: &[(u32, Option<String>)]) -> (games: Vec<RunningGame>)
    ensures
        games@.len() == found@.len(),
        forall|i: int|
            0 <= i < found@.len() ==> {
                &&& (#[trigger] games@[i]).appid == found@[i].0
                &&& games@[i].name@ == shown_name(found@[i].0, found@[i].1)
                &&& found@[i].1 is Some ==> games@[i].name@ == found@[i].1->0@
                &&& found@[i].1 is None ==> games@[i].name@ == "AppId "@ + text::decimal(
                    found@[i].0 as int,
                )
            },
{
    let mut games: Vec<RunningGame> = Vec::new();
    for i in 0..found.len()
        invariant
            games@.len() == i,
            forall|j: int|
                0 <= j < i ==> {
                    &&& (#[trigger] games@[j]).appid == found@[j].0
                    &&& games@[j].name@ == shown_name(found@[j].0, found@[j].1)
                },
    {
        let appid: u32 = found[i].0;
        let name = match &found[i].1 {
            Some(known) => known.clone(),
            None => {
                let mut made = UNKNOWN_GAME.to_owned();
                text::push_decimal(&mut made, appid as u64);
                made
            },
        };
        games.push(RunningGame { appid, name });
    }
    games
}

// ---------------------------------------------------------------------------
// The Proton build
// ---------------------------------------------------------------------------

/// Where a wineserver lies below its Proton build.
pub const WINESERVER: &'static str = "/files/bin/wineserver";

/// How the path of any wineserver ends.
pub const ANY_WINESERVER: &'static str = "/bin/wineserver";

/// What separates the directory of a Proton build from what lies in it.
pub const FILES_MARKER: &'static str = "/files/";

/// What the environment variable with the `compatdata` directory begins with.
pub const COMPAT_DATA_PREFIX: &'static str = "STEAM_COMPAT_DATA_PATH=";

/// The Proton build whose wineserver a normalized path names.
pub open spec fn proton_of_wineserver(exe: Seq<char>) -> Option<Seq<char>> {
    if WINESERVER@.is_suffix_of(exe) {
        Some(exe.take(exe.len() - WINESERVER@.len()))
    } else {
        None
    }
}

/// The Proton build whose wineserver a path names. The path has been
/// normalized: Proton's loader writes it with `..` in it.
pub fn proton_dir_from_wineserver_exe(normalized_exe: &str) -> (dir: Option<String>)
    ensures
        text::opt_view(dir) == proton_of_wineserver(normalized_exe@),
{
    let exe = text::chars_of(normalized_exe);
    let suffix = text::chars_of(WINESERVER);
    if text::ends_with(&exe, &suffix) {
        let dir = slice_subrange(&exe, 0, exe.len() - suffix.len());
        assert(dir@ == exe@.take(exe@.len() - suffix@.len()));
        Some(text::string_of(dir))
    } else {
        None
    }
}

/// A process directory: its name below `/proc`, the path of its executable and
/// the bytes of its environment, where they could be read.
pub struct ProcessExe {
    pub name: String,
    pub exe: Option<String>,
    pub environ: Option<Vec<u8>>,
}

/// Whether a variable of an environment says that the process works on the
/// `compatdata` directory with the normalized path `compatdata`.
pub open spec fn names_compatdata(variable: Seq<char>, compatdata: Seq<char>) -> bool {
    COMPAT_DATA_PREFIX@.is_prefix_of(variable) && paths::normalized(
        variable.skip(COMPAT_DATA_PREFIX@.len() as int),
    ) == compatdata
}

/// Whether an environment says that the process works on the `compatdata`
/// directory with the normalized path `compatdata`.
pub open spec fn works_on(environ: Seq<u8>, compatdata: Seq<char>) -> bool {
    exists|i: int|
        0 <= i < process::zero_separated(environ).len() && names_compatdata(
            #[trigger] process::zero_separated(environ)[i],
            compatdata,
        )
}

/// The Proton build of a process, if it is a wineserver that works on the
/// `compatdata` directory with the normalized path `compatdata`.
pub open spec fn proton_of_process(process: ProcessExe, compatdata: Seq<char>) -> Option<Seq<char>> {
    match (text::decimal_u32(process.name@), process.exe, process.environ) {
        (Some(_), Some(exe), Some(environ)) => if ANY_WINESERVER@.is_suffix_of(
            paths::normalized(exe@),
        ) && works_on(environ@, compatdata) {
            proton_of_wineserver(paths::normalized(exe@))
        } else {
            None
        },
        _ => None,
    }
}

/// The Proton build of the first process at or after `from` that tells one.
pub open spec fn first_proton(
    processes: Seq<ProcessExe>,
    compatdata: Seq<char>,
    from: int,
) -> Option<Seq<char>>
    decreases processes.len() - from,
{
    if from >= processes.len() {
        None
    } else if proton_of_process(processes[from], compatdata) is Some {
        proton_of_process(processes[from], compatdata)
    } else {
        first_proton(processes, compatdata, from + 1)
    }
}

/// Whether an environment says that the process works on `compatdata`.
fn environ_works_on(environ: &[u8], compatdata: &str) -> (found: bool)
    ensures
        found == works_on(environ@, compatdata@),
{
    let variables = process::split_zero_separated(environ);
    let prefix = text::chars_of(COMPAT_DATA_PREFIX);
    let ghost all = process::zero_separated(environ@);
    for i in 0..variables.len()
        invariant
            process::text_views(variables@) == all,
            all == process::zero_separated(environ@),
            prefix@ == COMPAT_DATA_PREFIX@,
            forall|j: int| 0 <= j < i ==> !names_compatdata(#[trigger] all[j], compatdata@),
    {
        let variable = text::chars_of(variables[i]);
        assert(variable@ == all[i as int]);
        if text::starts_with(&variable, &prefix) {
            let value = slice_subrange(&variable, prefix.len(), variable.len());
            assert(value@ == variable@.skip(prefix@.len() as int));
            let path = paths::normalize_lexical(&text::string_of(value));
            if text::same_text(&path, compatdata) {
                assert(names_compatdata(all[i as int], compatdata@));
                return true;
            }
        }
    }
    false
}

/// The Proton build of a process, if it is a wineserver that works on `compatdata`.
fn proton_dir_of_process(process: &ProcessExe, compatdata: &str) -> (dir: Option<String>)
    ensures
        text::opt_view(dir) == proton_of_process(*process, compatdata@),
{
    if text::parse_u32(&text::chars_of(&process.name)).is_none() {
        return None;
    }
    match (&process.exe, &process.environ) {
        (Some(exe), Some(environ)) => {
            let normalized = paths::normalize_lexical(exe);
            if text::ends_with(&text::chars_of(&normalized), &text::chars_of(ANY_WINESERVER))
                && environ_works_on(environ, compatdata) {
                proton_dir_from_wineserver_exe(&normalized)
            } else {
                None
            }
        },
        _ => None,
    }
}

/// The Proton build whose wineserver works on a `compatdata` directory. This is
/// what decides: `config_info` has been seen to name another build than the
/// one that runs.
pub fn find_proton_dir_from_wineserver(compatdata_dir: &str, processes: &[ProcessExe]) -> (dir:
    Option<String>)
    ensures
        text::opt_view(dir) == first_proton(processes@, paths::normalized(compatdata_dir@), 0),
{
    let compatdata = paths::normalize_lexical(compatdata_dir);
    for i in 0..processes.len()
        invariant
            compatdata@ == paths::normalized(compatdata_dir@),
            first_proton(processes@, compatdata@, 0) == first_proton(
                processes@,
                compatdata@,
                i as int,
            ),
    {
        let dir = proton_dir_of_process(&processes[i], &compatdata);
        if dir.is_some() {
            return dir;
        }
    }
    None
}

/// The Proton build that a line of `config_info` names: what stands before the
/// first marker, unless nothing does.
pub open spec fn proton_of_line(line: Seq<char>) -> Option<Seq<char>> {
    match text::first_occurrence(line, FILES_MARKER@) {
        Some(at) => if at == 0 {
            None
        } else {
            Some(line.take(at))
        },
        None => None,
    }
}

/// The Proton build that a line of `config_info` names: a path in the build,
/// of which the directory is everything before the first `/files/`. It is not
/// looked for by its name, which a library such as `/mnt/ProtonDrive` may hold
/// too, and not cut at spaces, which `Proton - Experimental` holds.
pub fn proton_dir_from_config_line(line: &str) -> (dir: Option<String>)
    ensures
        text::opt_view(dir) == proton_of_line(line@),
{
    let chars = text::chars_of(line);
    let marker = text::chars_of(FILES_MARKER);
    match text::find(&chars, &marker) {
        Some(at) => {
            if at == 0 {
                None
            } else {
                let dir = slice_subrange(&chars, 0, at);
                assert(dir@ == chars@.take(at as int));
                Some(text::string_of(dir))
            }
        },
        None => None,
    }
}

/// The Proton build that `config_info` names, in its second line.
pub open spec fn proton_of_config_info(config_info: Seq<char>) -> Option<Seq<char>> {
    if text::lines(config_info).len() < 2 {
        None
    } else {
        proton_of_line(text::lines(config_info)[1])
    }
}

/// The Proton build that `config_info` names, in its second line.
pub fn find_proton_dir_from_config_info(config_info: &str) -> (dir: Option<String>)
    ensures
        text::opt_view(dir) == proton_of_config_info(config_info@),
{
    let chars = text::chars_of(config_info);
    let lines = text::split_lines(&chars);
    assert(lines@.len() == text::lines(config_info@).len());
    if lines.len() < 2 {
        None
    } else {
        assert(lines@[1]@ == text::lines(config_info@)[1]);
        proton_dir_from_config_line(&text::string_of(lines[1]))
    }
}

/// The Proton build that a game uses: the one whose wineserver works on its
/// `compatdata` directory, and only where there is none, the one that
/// `config_info` names.
pub open spec fn proton_in_use(
    compatdata_dir: Seq<char>,
    processes: Seq<ProcessExe>,
    config_info: Option<Seq<char>>,
) -> Option<Seq<char>> {
    let running = first_proton(processes, paths::normalized(compatdata_dir), 0);
    if running is Some {
        running
    } else {
        match config_info {
            Some(content) => proton_of_config_info(content),
            None => None,
        }
    }
}

/// The Proton build that a game uses.
pub fn find_proton_dir(
    compatdata_dir: &str,
    processes: &[ProcessExe],
    config_info: Option<&str>,
) -> (dir: Option<String>)
    ensures
        text::opt_view(dir) == proton_in_use(
            compatdata_dir@,
            processes@,
            match config_info {
                Some(content) => Some(content@),
                None => None,
            },
        ),
{
    let running = find_proton_dir_from_wineserver(compatdata_dir, processes);
    if running.is_some() {
        running
    } else {
        match config_info {
            Some(content) => find_proton_dir_from_config_info(content),
            None => None,
        }
    }
}

/// A wineserver tells the Proton build that it is part of.
pub proof fn law_wineserver_tells_its_build(dir: Seq<char>)
    ensures
        proton_of_wineserver(dir + WINESERVER@) == Some(dir),
{
    assert((dir + WINESERVER@).take(dir.len() as int) == dir);
    assert((dir + WINESERVER@).subrange(dir.len() as int, (dir + WINESERVER@).len() as int)
        == WINESERVER@);
}

/// A path in a Proton build tells the build, whatever the names on the way to
/// it: where the first `/files/` of the path is the one behind the build's
/// directory, the directory is what is found.
pub proof fn law_config_line_tells_the_build(dir: Seq<char>, inside: Seq<char>)
    requires
        dir.len() > 0,
        forall|at: int| 0 <= at < dir.len() ==> !text::occurs_at(
            dir + FILES_MARKER@ + inside,
            FILES_MARKER@,
            at,
        ),
    ensures
        proton_of_line(dir + FILES_MARKER@ + inside) == Some(dir),
{
    let line = dir + FILES_MARKER@ + inside;
    assert(line.subrange(dir.len() as int, (dir.len() + FILES_MARKER@.len()) as int) == FILES_MARKER@);
    assert(text::occurs_at(line, FILES_MARKER@, dir.len() as int));
    text::lemma_occurrence_from(line, FILES_MARKER@, 0);
    assert(line.take(dir.len() as int) == dir);
}

/// The build that runs decides: where a wineserver works on the `compatdata`
/// directory, it does not matter what `config_info` says.
pub proof fn law_running_build_wins(
    compatdata_dir: Seq<char>,
    processes: Seq<ProcessExe>,
    config_info: Option<Seq<char>>,
    other_config_info: Option<Seq<char>>,
)
    requires
        first_proton(processes, paths::normalized(compatdata_dir), 0) is Some,
    ensures
        proton_in_use(compatdata_dir, processes, config_info) == first_proton(
            processes,
            paths::normalized(compatdata_dir),
            0,
        ),
        proton_in_use(compatdata_dir, processes, config_info) == proton_in_use(
            compatdata_dir,
            processes,
            other_config_info,
        ),
{
}

// ---------------------------------------------------------------------------
// The target of a launch
// ---------------------------------------------------------------------------

/// Why no target for a launch could be found.
#[derive(Clone, Copy, Debug, PartialEq, Eq, Structural)]
pub enum LaunchError {
    NoSteam,
    NoCompatdata(u32),
    NoProton,
}

impl LaunchError {
    /// What the user is told.
    pub open spec fn told(self) -> Seq<char> {
        match self {
            LaunchError::NoSteam => "Could not find a Steam installation."@,
            LaunchError::NoCompatdata(appid) => "Could not find compatdata for AppId "@
                + text::decimal(appid as int) + seq!['.'],
            LaunchError::NoProton =>
                "Could not determine which Proton build the game is currently running."@,
        }
    }

    /// What the user is told.
    pub fn message(&self) -> (told: String)
        ensures
            told@ == self.told(),
            *self is NoSteam ==> told@ == "Could not find a Steam installation."@,
            *self matches LaunchError::NoCompatdata(appid) ==> told@
                == "Could not find compatdata for AppId "@ + text::decimal(appid as int) + seq!['.'],
            *self is NoProton ==> told@
                == "Could not determine which Proton build the game is currently running."@,
    {
        match self {
            LaunchError::NoSteam => "Could not find a Steam installation.".to_owned(),
            LaunchError::NoCompatdata(appid) => {
                let mut told = "Could not find compatdata for AppId ".to_owned();
                text::push_decimal(&mut told, *appid as u64);
                told.push('.');
                told
            },
            LaunchError::NoProton => {
                "Could not determine which Proton build the game is currently running.".to_owned()
            },
        }
    }
}

/// Puts together what a launch against the game `appid` needs: the Steam
/// client, the game's `compatdata` directory and its Proton build, each where
/// it was found. The first that was not found is the error.
///
/// The AppID is given, not found here: which of several running games is meant
/// is for the caller to decide.
pub fn resolve_launch_target(
    appid: u32,
    client_dir: Option<String>,
    compatdata_dir: Option<String>,
    proton_dir: Option<String>,
) -> (result: Result<LaunchTarget, LaunchError>)
    ensures
        match (client_dir, compatdata_dir, proton_dir) {
            (None, _, _) => result == Err::<LaunchTarget, LaunchError>(LaunchError::NoSteam),
            (_, None, _) => result == Err::<LaunchTarget, LaunchError>(
                LaunchError::NoCompatdata(appid),
            ),
            (_, _, None) => result == Err::<LaunchTarget, LaunchError>(LaunchError::NoProton),
            (Some(client), Some(compatdata), Some(proton)) => result matches Ok(target)
                && target.appid == appid && target.client_dir@ == client@
                && target.compatdata_dir@ == compatdata@ && target.proton_dir@ == proton@,
        },
{
    match (client_dir, compatdata_dir, proton_dir) {
        (None, _, _) => Err(LaunchError::NoSteam),
        (_, None, _) => Err(LaunchError::NoCompatdata(appid)),
        (_, _, None) => Err(LaunchError::NoProton),
        (Some(client_dir), Some(compatdata_dir), Some(proton_dir)) => Ok(
            LaunchTarget { appid, client_dir, compatdata_dir, proton_dir },
        ),
    }
}

// ---------------------------------------------------------------------------
// Commands
// ---------------------------------------------------------------------------

/// The program with which a Proton build runs something.
pub const PROTON: &'static str = "proton";

/// The verb that makes Proton run a program in a prefix in which a game runs.
pub const RUN_IN_PREFIX: &'static str = "runinprefix";

/// The environment variable with the directory of the Steam client.
pub const CLIENT_VARIABLE: &'static str = "STEAM_COMPAT_CLIENT_INSTALL_PATH";

/// The environment variable with the `compatdata` directory of the game.
pub const COMPAT_DATA_VARIABLE: &'static str = "STEAM_COMPAT_DATA_PATH";

/// A program to run: its path, its arguments (bytes, as a path is no text in
/// every case) and what is set in its environment.
pub struct Command {
    pub program: String,
    pub args: Vec<Vec<u8>>,
    pub env: Vec<(String, String)>,
}

/// What the arguments of a command hold.
pub open spec fn arg_views(args: Seq<Vec<u8>>) -> Seq<Seq<u8>> {
    Seq::new(args.len(), |i: int| args[i]@)
}

/// What the environment of a command holds.
pub open spec fn env_views(env: Seq<(String, String)>) -> Seq<(Seq<char>, Seq<char>)> {
    Seq::new(env.len(), |i: int| (env[i].0@, env[i].1@))
}

/// Whether a command runs the target's Proton build in the target's prefix.
pub open spec fn runs_in_prefix(command: Command, target: LaunchTarget) -> bool {
    &&& command.program@ == paths::joined_path(target.proton_dir@, PROTON@)
    &&& command.args@.len() > 0
    &&& command.args@[0]@ == utf8::encode_utf8(RUN_IN_PREFIX@)
    &&& env_views(command.env@) == seq![
        (CLIENT_VARIABLE@, target.client_dir@),
        (COMPAT_DATA_VARIABLE@, target.compatdata_dir@),
    ]
}

/// The bytes of a text.
fn bytes_of(t: &str) -> (bytes: Vec<u8>)
    ensures
        bytes@ == utf8::encode_utf8(t@),
{
    vstd::slice::slice_to_vec(t.as_bytes())
}

/// The command that runs something in the target's prefix, without arguments
/// behind the verb.
fn prefix_command(target: &LaunchTarget) -> (command: Command)
    ensures
        runs_in_prefix(command, *target),
        command.args@.len() == 1,
{
    let mut args: Vec<Vec<u8>> = Vec::new();
    args.push(bytes_of(RUN_IN_PREFIX));
    let mut env: Vec<(String, String)> = Vec::new();
    env.push((CLIENT_VARIABLE.to_owned(), target.client_dir.clone()));
    env.push((COMPAT_DATA_VARIABLE.to_owned(), target.compatdata_dir.clone()));
    let command = Command { program: paths::join_path(&target.proton_dir, PROTON), args, env };
    assert(env_views(command.env@) == seq![
        (CLIENT_VARIABLE@, target.client_dir@),
        (COMPAT_DATA_VARIABLE@, target.compatdata_dir@),
    ]);
    command
}

/// The command that launches a trainer: the Proton build that the game uses
/// runs it in the game's prefix, so that it joins the session of the game.
pub fn launch_command(target: &LaunchTarget, trainer_path: &[u8]) -> (command: Command)
    ensures
        runs_in_prefix(command, *target),
        arg_views(command.args@) == seq![utf8::encode_utf8(RUN_IN_PREFIX@), trainer_path@],
        command.program@ == paths::joined_path(target.proton_dir@, "proton"@),
        env_views(command.env@) == seq![
            ("STEAM_COMPAT_CLIENT_INSTALL_PATH"@, target.client_dir@),
            ("STEAM_COMPAT_DATA_PATH"@, target.compatdata_dir@),
        ],
        arg_views(command.args@) == seq![utf8::encode_utf8("runinprefix"@), trainer_path@],
{
    let mut command = prefix_command(target);
    command.args.push(vstd::slice::slice_to_vec(trainer_path));
    assert(arg_views(command.args@) == seq![utf8::encode_utf8(RUN_IN_PREFIX@), trainer_path@]);
    command
}

/// Where the registry file for `regedit` is put, below the prefix.
pub const REG_FILE_DIR: &'static str = "drive_c/windows/temp";

/// The name of the registry file for `regedit`.
pub const REG_FILE_NAME: &'static str = "steam-punk-dotnet.reg";

/// Where `regedit` finds the registry file.
pub const REG_FILE_WINDOWS: &'static str = "C:\\windows\\temp\\steam-punk-dotnet.reg";

pub const REGEDIT: &'static str = "regedit";

pub const REGEDIT_SILENT: &'static str = "/S";

/// Where the registry file for `regedit` is put: its directory and its path.
pub fn reg_file(target: &LaunchTarget) -> (result: (String, String))
    ensures
        result.0@ == paths::joined_path(
            paths::joined_path(target.compatdata_dir@, PREFIX_NAME@),
            REG_FILE_DIR@,
        ),
        result.1@ == paths::joined_path(result.0@, REG_FILE_NAME@),
        result.0@ == paths::joined_path(
            paths::joined_path(target.compatdata_dir@, "pfx"@),
            "drive_c/windows/temp"@,
        ),
        result.1@ == paths::joined_path(result.0@, "steam-punk-dotnet.reg"@),
{
    let dir = paths::join_path(&target.prefix_dir(), REG_FILE_DIR);
    let file = paths::join_path(&dir, REG_FILE_NAME);
    (dir, file)
}

/// The command that imports the registry file into the prefix.
pub fn regedit_command(target: &LaunchTarget) -> (command: Command)
    ensures
        runs_in_prefix(command, *target),
        arg_views(command.args@) == seq![
            utf8::encode_utf8(RUN_IN_PREFIX@),
            utf8::encode_utf8(REGEDIT@),
            utf8::encode_utf8(REGEDIT_SILENT@),
            utf8::encode_utf8(REG_FILE_WINDOWS@),
        ],
        command.program@ == paths::joined_path(target.proton_dir@, "proton"@),
        env_views(command.env@) == seq![
            ("STEAM_COMPAT_CLIENT_INSTALL_PATH"@, target.client_dir@),
            ("STEAM_COMPAT_DATA_PATH"@, target.compatdata_dir@),
        ],
        arg_views(command.args@) == seq![
            utf8::encode_utf8("runinprefix"@),
            utf8::encode_utf8("regedit"@),
            utf8::encode_utf8("/S"@),
            utf8::encode_utf8("C:\\windows\\temp\\steam-punk-dotnet.reg"@),
        ],
{
    let mut command = prefix_command(target);
    command.args.push(bytes_of(REGEDIT));
    command.args.push(bytes_of(REGEDIT_SILENT));
    command.args.push(bytes_of(REG_FILE_WINDOWS));
    assert(arg_views(command.args@) == seq![
        utf8::encode_utf8(RUN_IN_PREFIX@),
        utf8::encode_utf8(REGEDIT@),
        utf8::encode_utf8(REGEDIT_SILENT@),
        utf8::encode_utf8(REG_FILE_WINDOWS@),
    ]);
    command
}

/// A trainer runs on the very Proton build whose wineserver the game runs, and
/// on the game's `compatdata` directory: where process `at` is the first
/// wineserver that works on that directory, and it lies in the build `build`,
/// the build is found, and a command that launches or repairs against a target
/// with that build starts the `proton` of that build.
pub proof fn law_trainer_joins_the_session(
    compatdata_dir: Seq<char>,
    processes: Seq<ProcessExe>,
    config_info: Option<Seq<char>>,
    at: int,
    build: Seq<char>,
    target: LaunchTarget,
    command: Command,
)
    requires
        0 <= at < processes.len(),
        forall|i: int|
            0 <= i < at ==> proton_of_process(
                #[trigger] processes[i],
                paths::normalized(compatdata_dir),
            ) is None,
        text::decimal_u32(processes[at].name@) is Some,
        processes[at].exe matches Some(exe) && paths::normalized(exe@) == build + WINESERVER@,
        processes[at].environ matches Some(environ) && works_on(
            environ@,
            paths::normalized(compatdata_dir),
        ),
        target.compatdata_dir@ == compatdata_dir,
        Some(target.proton_dir@) == proton_in_use(compatdata_dir, processes, config_info),
        runs_in_prefix(command, target),
    ensures
        proton_in_use(compatdata_dir, processes, config_info) == Some(build),
        command.program@ == paths::joined_path(build, PROTON@),
        command.env@[1].0@ == COMPAT_DATA_VARIABLE@,
        command.env@[1].1@ == compatdata_dir,
{
    law_wineserver_tells_its_build(build);
    let exe = build + WINESERVER@;
    assert(ANY_WINESERVER@.is_suffix_of(exe)) by {
        reveal_strlit("/bin/wineserver");
        reveal_strlit("/files/bin/wineserver");
        assert(ANY_WINESERVER@ =~= WINESERVER@.subrange(6, 21));
        assert(exe.subrange(exe.len() - 15, exe.len() as int) =~= WINESERVER@.subrange(6, 21));
    }
    lemma_first_proton(processes, paths::normalized(compatdata_dir), 0, at);
    let env = env_views(command.env@);
    assert(env.len() == 2);
    assert(env[1] == (command.env@[1].0@, command.env@[1].1@));
    assert(env[1] == (COMPAT_DATA_VARIABLE@, target.compatdata_dir@));
}

/// The first process that tells a build decides.
proof fn lemma_first_proton(processes: Seq<ProcessExe>, compatdata: Seq<char>, from: int, at: int)
    requires
        from <= at < processes.len(),
        forall|i: int|
            from <= i < at ==> proton_of_process(#[trigger] processes[i], compatdata) is None,
        proton_of_process(processes[at], compatdata) is Some,
    ensures
        first_proton(processes, compatdata, from) == proton_of_process(processes[at], compatdata),
    decreases at - from,
{
    if from < at {
        assert(proton_of_process(processes[from], compatdata) is None);
        lemma_first_proton(processes, compatdata, from + 1, at);
    }
}

// ---------------------------------------------------------------------------
// Watching a trainer that was launched
// ---------------------------------------------------------------------------

/// How often a trainer is looked at closely after its launch.
pub const QUICK_POLLS: u32 = 10;

/// The pause before a close look, in milliseconds.
pub const QUICK_PAUSE_MS: u64 = 200;

/// The pause before any later look, in milliseconds.
pub const SLOW_PAUSE_MS: u64 = 1000;

/// What a look at the process that was started found.
#[derive(Clone, Copy, Debug, PartialEq, Eq, Structural)]
pub enum WatchEvent {
    Exited,
    Running,
    Failed,
}

/// What is to be done after a look at the process that was started.
#[derive(Clone, Copy, Debug, PartialEq, Eq, Structural)]
pub enum WatchStep {
    /// Say that it ended soon, which is no failure: a trainer unpacks itself
    /// and starts anew. Then stop watching.
    ReportQuickExit,
    /// Say that it ended, and stop watching.
    ReportExit,
    /// Say that it still runs, and go on watching.
    ReportStillRunning,
    /// Go on watching.
    KeepWatching,
    /// Say that it cannot be looked at, and stop watching.
    ReportFailure,
}

/// The pause before look number `poll`, in milliseconds.
pub fn watch_pause_ms(poll: u32) -> (pause: u64)
    ensures
        pause == if poll < QUICK_POLLS {
            QUICK_PAUSE_MS
        } else {
            SLOW_PAUSE_MS
        },
        poll < 10 ==> pause == 200,
        poll >= 10 ==> pause == 1000,
{
    if poll < QUICK_POLLS {
        QUICK_PAUSE_MS
    } else {
        SLOW_PAUSE_MS
    }
}

/// What is to be done after look number `poll`.
pub open spec fn watch_step_of(poll: u32, event: WatchEvent) -> WatchStep {
    match event {
        WatchEvent::Exited => if poll < QUICK_POLLS {
            WatchStep::ReportQuickExit
        } else {
            WatchStep::ReportExit
        },
        WatchEvent::Running => if poll == QUICK_POLLS - 1 {
            WatchStep::ReportStillRunning
        } else {
            WatchStep::KeepWatching
        },
        WatchEvent::Failed => WatchStep::ReportFailure,
    }
}

/// What is to be done after look number `poll`. Watching goes on as long as the
/// process runs: only the watcher can take notice of its end.
pub fn watch_step(poll: u32, event: WatchEvent) -> (step: WatchStep)
    ensures
        step == watch_step_of(poll, event),
        event is Exited && poll < 10 ==> step is ReportQuickExit,
        event is Exited && poll >= 10 ==> step is ReportExit,
        event is Running && poll == 9 ==> step is ReportStillRunning,
        event is Running && poll != 9 ==> step is KeepWatching,
        event is Failed ==> step is ReportFailure,
{
    match event {
        WatchEvent::Exited => {
            if poll < QUICK_POLLS {
                WatchStep::ReportQuickExit
            } else {
                WatchStep::ReportExit
            }
        },
        WatchEvent::Running => {
            if poll == QUICK_POLLS - 1 {
                WatchStep::ReportStillRunning
            } else {
                WatchStep::KeepWatching
            }
        },
        WatchEvent::Failed => WatchStep::ReportFailure,
    }
}

// ---------------------------------------------------------------------------
// Stopping a trainer
// ---------------------------------------------------------------------------

/// How often is looked, after the request to end, whether the group has ended.
pub const STOP_POLLS: u32 = 10;

/// The pause before each of these looks, in milliseconds.
pub const STOP_PAUSE_MS: u64 = 200;

/// What is to be done next to stop a process group.
#[derive(Clone, Copy, Debug, PartialEq, Eq, Structural)]
pub enum StopStep {
    /// Ask the group to end.
    Terminate,
    /// Pause, and look whether the group is alive; so many looks are left.
    Poll(u32),
    /// End the group.
    Kill,
    /// Nothing more.
    Done,
}

/// What is to be done after a step; `alive` is what a look has found.
pub open spec fn stop_step_after(step: StopStep, alive: bool) -> StopStep {
    match step {
        StopStep::Terminate => StopStep::Poll(STOP_POLLS),
        StopStep::Poll(left) => if !alive {
            StopStep::Done
        } else if left > 1 {
            StopStep::Poll((left - 1) as u32)
        } else {
            StopStep::Kill
        },
        StopStep::Kill => StopStep::Done,
        StopStep::Done => StopStep::Done,
    }
}

/// The first step of stopping a process group: it is asked to end.
pub fn stop_first() -> (step: StopStep)
    ensures
        step == StopStep::Terminate,
{
    StopStep::Terminate
}

/// What is to be done after a step; `alive` is what a look has found, and does
/// not matter behind any other step. Whether the group has ended after it was
/// ended is not waited for: that has no bound worth waiting for.
pub fn stop_next(step: StopStep, alive: bool) -> (next: StopStep)
    ensures
        next == stop_step_after(step, alive),
        step is Terminate ==> next == StopStep::Poll(10),
        step is Poll && !alive ==> next is Done,
        step matches StopStep::Poll(left) ==> alive && left > 1 ==> next == StopStep::Poll(
            (left - 1) as u32,
        ),
        step matches StopStep::Poll(left) ==> alive && left <= 1 ==> next is Kill,
        step is Kill || step is Done ==> next is Done,
{
    match step {
        StopStep::Terminate => StopStep::Poll(STOP_POLLS),
        StopStep::Poll(left) => {
            if !alive {
                StopStep::Done
            } else if left > 1 {
                StopStep::Poll(left - 1)
            } else {
                StopStep::Kill
            }
        },
        StopStep::Kill => StopStep::Done,
        StopStep::Done => StopStep::Done,
    }
}

/// The steps from `step` to the end, where the looks find `looks` in order.
pub open spec fn stop_steps(step: StopStep, looks: Seq<bool>) -> Seq<StopStep>
    decreases
            match step {
                StopStep::Terminate => STOP_POLLS + 3,
                StopStep::Poll(left) => left + 2,
                StopStep::Kill => 1,
                StopStep::Done => 0,
            },
{
    match step {
        StopStep::Done => Seq::empty(),
        StopStep::Poll(left) => seq![step] + stop_steps(
            stop_step_after(step, looks[0]),
            looks.skip(1),
        ),
        _ => seq![step] + stop_steps(stop_step_after(step, false), looks),
    }
}

/// How many looks find the group alive before one does not, up to `most`.
pub open spec fn alive_looks(looks: Seq<bool>, most: nat) -> nat
    decreases most,
{
    if most == 0 || !looks[0] {
        0
    } else {
        1 + alive_looks(looks.skip(1), (most - 1) as nat)
    }
}

/// The steps that follow, where `left` looks are left.
proof fn lemma_poll_steps(left: u32, looks: Seq<bool>)
    requires
        1 <= left <= STOP_POLLS,
        looks.len() >= left,
    ensures
        ({
            let steps = stop_steps(StopStep::Poll(left), looks);
            let alive = alive_looks(looks, left as nat);
            &&& alive <= left
            &&& alive < left ==> steps.len() == alive + 1 && !steps.contains(StopStep::Kill)
            &&& alive == left ==> steps.len() == left + 1 && steps.last() == StopStep::Kill
            &&& !steps.contains(StopStep::Terminate)
        }),
    decreases left,
{
    let step = StopStep::Poll(left);
    let next = stop_step_after(step, looks[0]);
    let rest = stop_steps(next, looks.skip(1));
    let steps = stop_steps(step, looks);
    assert(steps == seq![step] + rest);
    reveal_with_fuel(alive_looks, 2);
    if looks[0] && left > 1 {
        lemma_poll_steps((left - 1) as u32, looks.skip(1));
        assert forall|x: StopStep| steps.contains(x) implies x == step || rest.contains(x) by {
            let k = steps.index_of(x);
            if k > 0 {
                assert(rest[k - 1] == x);
            }
        }
        assert(steps.last() == rest.last());
    } else if looks[0] {
        reveal_with_fuel(stop_steps, 3);
        assert(rest == seq![StopStep::Kill]);
        assert(steps == seq![step, StopStep::Kill]);
    } else {
        assert(rest == Seq::<StopStep>::empty());
        assert(steps == seq![step]);
    }
}

/// How a process group is stopped: it is asked to end first, and once. It is
/// looked at no more than ten times. It is ended exactly where all ten looks
/// found it alive, and that is the last step.
pub proof fn law_stop_protocol(looks: Seq<bool>)
    requires
        looks.len() >= STOP_POLLS,
    ensures
        ({
            let steps = stop_steps(StopStep::Terminate, looks);
            let alive = alive_looks(looks, STOP_POLLS as nat);
            &&& steps.len() <= 1 + STOP_POLLS + 1
            &&& steps[0] == StopStep::Terminate
            &&& forall|i: int| 0 < i < steps.len() ==> steps[i] != StopStep::Terminate
            &&& steps.contains(StopStep::Kill) <==> alive == STOP_POLLS
            &&& steps.contains(StopStep::Kill) ==> steps.last() == StopStep::Kill
        }),
{
    let steps = stop_steps(StopStep::Terminate, looks);
    let rest = stop_steps(StopStep::Poll(STOP_POLLS), looks);
    lemma_poll_steps(STOP_POLLS, looks);
    reveal_with_fuel(stop_steps, 2);
    assert(steps == seq![StopStep::Terminate] + rest);
    assert forall|i: int| 0 < i < steps.len() implies steps[i] != StopStep::Terminate by {
        assert(rest[i - 1] == steps[i]);
        assert(rest.contains(rest[i - 1]));
    }
    if steps.contains(StopStep::Kill) {
        let k = steps.index_of(StopStep::Kill);
        assert(rest[k - 1] == StopStep::Kill);
        assert(rest.contains(StopStep::Kill));
    }
    if rest.contains(StopStep::Kill) {
        let k = rest.index_of(StopStep::Kill);
        assert(steps[k + 1] == StopStep::Kill);
    }
    if alive_looks(looks, STOP_POLLS as nat) == STOP_POLLS {
        assert(rest.contains(rest.last()));
    }
}

/// The arguments of `kill` that send a signal to a whole process group.
pub fn kill_args(end_now: bool, pgid: u32) -> (args: (String, String))
    ensures
        args.0@ == if end_now {
            "-KILL"@
        } else {
            "-TERM"@
        },
        args.1@ == seq!['-'] + text::decimal(pgid as int),
{
    let signal = if end_now {
        "-KILL".to_owned()
    } else {
        "-TERM".to_owned()
    };
    let mut group = String::new();
    group.push('-');
    text::push_decimal(&mut group, pgid as u64);
    assert(group@ == seq!['-'] + text::decimal(pgid as int));
    (signal, group)
}

/// Being a process group that was launched: 0 and 1 are none.
pub open spec fn is_launched_group() -> spec_fn(u32) -> bool {
    |pgid: u32| pgid > 1
}

/// The process groups to stop in order to stop all of `pgids`: exactly the
/// groups that were launched, in their order, and nothing that was found by a
/// pattern.
pub fn stop_all(pgids: &[u32]) -> (groups: Vec<u32>)
    ensures
        groups@ == pgids@.filter(is_launched_group()),
{
    let mut groups: Vec<u32> = Vec::new();
    assert(pgids@.take(0).filter(is_launched_group()) == Seq::<u32>::empty()) by {
        reveal(Seq::filter);
    }
    for i in 0..pgids.len()
        invariant
            groups@ == pgids@.take(i as int).filter(is_launched_group()),
    {
        let ghost upto = pgids@.take(i + 1);
        assert(upto.drop_last() == pgids@.take(i as int));
        reveal(Seq::filter);
        if pgids[i] > 1 {
            groups.push(pgids[i]);
        }
    }
    assert(pgids@.take(pgids@.len() as int) == pgids@);
    groups
}

// ---------------------------------------------------------------------------
// Looking into a prefix
// ---------------------------------------------------------------------------

/// Where a prefix keeps its drive letters.
pub const DOSDEVICES: &'static str = "dosdevices";

/// Whether the name of a device is a drive letter: one byte and a colon.
pub open spec fn names_drive(name: Seq<char>) -> bool {
    name.len() == 2 && name[0] <= '\u{7f}' && name[1] == ':'
}

/// Whether the name of a device, where it is a text, is a drive letter. Only
/// those matter for finding a path; the ports that wine sets up lead nowhere on
/// most machines.
pub fn is_drive_letter(name: Option<&str>) -> (drive: bool)
    ensures
        drive == (name matches Some(n) && names_drive(n@)),
        name is None ==> !drive,
        name matches Some(n) ==> (drive <==> n@.len() == 2 && (n@[0] as int) < 128 && n@[1] == ':'),
{
    match name {
        Some(n) => {
            let chars = text::chars_of(n);
            chars.len() == 2 && chars[0] <= '\u{7f}' && chars[1] == ':'
        },
        None => false,
    }
}

/// The directory of a prefix that holds its drive letters.
pub fn dosdevices_dir(target: &LaunchTarget) -> (dir: String)
    ensures
        dir@ == paths::joined_path(
            paths::joined_path(target.compatdata_dir@, PREFIX_NAME@),
            DOSDEVICES@,
        ),
        dir@ == paths::joined_path(
            paths::joined_path(target.compatdata_dir@, "pfx"@),
            "dosdevices"@,
        ),
{
    paths::join_path(&target.prefix_dir(), DOSDEVICES)
}

/// Where trainers keep a directory for each game, below a prefix.
pub const TRAINER_LOGS: &'static str =
    "drive_c/users/steamuser/AppData/Local/FLiNGTrainer/trainer-logs";

/// The file in such a directory that makes a trainer believe that it runs already.
pub const STALE_LOCK: &'static str = "info.ini";

/// The directory in which trainers keep a directory for each game. Which of
/// those belongs to a game is not to be told from its name, so that all of them
/// are offered.
pub fn trainer_logs_dir(target: &LaunchTarget) -> (dir: String)
    ensures
        dir@ == paths::joined_path(
            paths::joined_path(target.compatdata_dir@, PREFIX_NAME@),
            TRAINER_LOGS@,
        ),
        dir@ == paths::joined_path(
            paths::joined_path(target.compatdata_dir@, "pfx"@),
            "drive_c/users/steamuser/AppData/Local/FLiNGTrainer/trainer-logs"@,
        ),
{
    paths::join_path(&target.prefix_dir(), TRAINER_LOGS)
}

/// The directories in which a trainer may have left a lock: of the entries of
/// the directory, those that are directories.
pub fn trainer_log_dirs(is_dir: &[bool]) -> (found: Vec<usize>)
    ensures
        forall|i: int, j: int| 0 <= i < j < found@.len() ==> found@[i] < found@[j],
        forall|at: usize| #[trigger] found@.contains(at) <==> at < is_dir@.len() && is_dir@[at as int],
{
    let mut found: Vec<usize> = Vec::new();
    for i in 0..is_dir.len()
        invariant
            forall|k: int| 0 <= k < found@.len() ==> found@[k] < i,
            forall|k: int, l: int| 0 <= k < l < found@.len() ==> found@[k] < found@[l],
            forall|at: usize| #[trigger] found@.contains(at) <==> at < i && is_dir@[at as int],
    {
        let ghost before = found@;
        if is_dir[i] {
            found.push(i);
            assert(found@[before.len() as int] == i);
            assert forall|at: usize| #[trigger] found@.contains(at) <==> before.contains(at) || at
                == i by {
                if before.contains(at) {
                    assert(found@[before.index_of(at)] == at);
                }
                if found@.contains(at) {
                    let k = found@.index_of(at);
                    if k < before.len() {
                        assert(before[k] == at);
                    }
                }
            }
        }
    }
    found
}

// ---------------------------------------------------------------------------
// Laws of the Proton build, on what is read
// ---------------------------------------------------------------------------

/// An environment works on a `compatdata` directory exactly where one of its
/// fields is `STEAM_COMPAT_DATA_PATH=` and a path that normalizes to it.
pub proof fn law_environment_fields(environ: Seq<u8>, compatdata: Seq<char>, path: Seq<char>)
    ensures
        process::is_zero_field(environ, utf8::encode_utf8("STEAM_COMPAT_DATA_PATH="@ + path))
            && paths::normalized(path) == compatdata ==> works_on(environ, compatdata),
        works_on(environ, compatdata) ==> exists|named: Seq<char>| #[trigger]
            process::is_zero_field(environ, utf8::encode_utf8("STEAM_COMPAT_DATA_PATH="@ + named))
                && paths::normalized(named) == compatdata,
{
    let prefix = "STEAM_COMPAT_DATA_PATH="@;
    reveal_strlit("STEAM_COMPAT_DATA_PATH=");
    let all = process::zero_separated(environ);
    if process::is_zero_field(environ, utf8::encode_utf8(prefix + path)) && paths::normalized(path)
        == compatdata {
        process::law_texts_are_fields(environ, prefix + path);
        let i = all.index_of(prefix + path);
        assert((prefix + path).skip(prefix.len() as int) == path);
        assert(names_compatdata(all[i], compatdata));
    }
    if works_on(environ, compatdata) {
        let i = choose|i: int| 0 <= i < all.len() && names_compatdata(#[trigger] all[i], compatdata);
        let named = all[i].skip(prefix.len() as int);
        assert(all[i] == prefix + named);
        assert(all.contains(all[i]));
        process::law_texts_are_fields(environ, prefix + named);
    }
}

/// A variable `STEAM_COMPAT_DATA_PATH=` with a path decides, wherever in the
/// environment it stands: whatever bytes come before it, as long as a zero byte
/// ends them, and whatever bytes follow behind its own zero byte.
pub proof fn law_variable_anywhere(before: Seq<u8>, path: Seq<char>, after: Seq<u8>)
    requires
        before.len() == 0 || before.last() == 0,
        !path.contains('\0'),
    ensures
        works_on(
            before + utf8::encode_utf8("STEAM_COMPAT_DATA_PATH="@ + path) + seq![0u8] + after,
            paths::normalized(path),
        ),
        works_on(
            before + utf8::encode_utf8("STEAM_COMPAT_DATA_PATH="@ + path),
            paths::normalized(path),
        ),
{
    let variable = "STEAM_COMPAT_DATA_PATH="@ + path;
    reveal_strlit("STEAM_COMPAT_DATA_PATH=");
    let field = utf8::encode_utf8(variable);
    assert(!variable.contains('\0')) by {
        if variable.contains('\0') {
            let i = variable.index_of('\0');
            if i >= 23 {
                assert(path[i - 23] == '\0');
            }
        }
    }
    process::lemma_encode_without_zero(variable);
    let tail = seq![0u8] + after;
    let whole = before + field + seq![0u8] + after;
    assert(whole == before + field + tail);
    assert(process::is_field_between(whole, before, field, tail));
    law_environment_fields(whole, paths::normalized(path), path);
    let none = Seq::<u8>::empty();
    assert(before + field == before + field + none);
    assert(process::is_field_between(before + field, before, field, none));
    law_environment_fields(before + field, paths::normalized(path), path);
}

/// Whether a process is the wineserver of the Proton build `build` for a
/// `compatdata` directory: a directory named by a number, an executable that
/// normalizes to `/files/bin/wineserver` below the build, and an environment
/// with a field that is `STEAM_COMPAT_DATA_PATH=` and a path to the directory.
pub open spec fn serves(process: ProcessExe, compatdata_dir: Seq<char>, build: Seq<char>) -> bool {
    &&& text::decimal_u32(process.name@) is Some
    &&& process.exe is Some
    &&& process.environ is Some
    &&& paths::normalized(process.exe->0@) == build + "/files/bin/wineserver"@
    &&& exists|path: Seq<char>| #[trigger]
        process::is_zero_field(
            process.environ->0@,
            utf8::encode_utf8("STEAM_COMPAT_DATA_PATH="@ + path),
        ) && paths::normalized(path) == paths::normalized(compatdata_dir)
}

/// A process tells the build that it serves, and none other.
proof fn lemma_serves(process: ProcessExe, compatdata_dir: Seq<char>, build: Seq<char>)
    ensures
        proton_of_process(process, paths::normalized(compatdata_dir)) == Some(build) <==> serves(
            process,
            compatdata_dir,
            build,
        ),
{
    reveal_strlit("/files/bin/wineserver");
    reveal_strlit("/bin/wineserver");
    let compatdata = paths::normalized(compatdata_dir);
    let end = "/files/bin/wineserver"@;
    let any = "/bin/wineserver"@;
    if process.exe is Some && process.environ is Some {
        let exe = paths::normalized(process.exe->0@);
        let environ = process.environ->0@;
        law_environment_fields(environ, compatdata, Seq::empty());
        if serves(process, compatdata_dir, build) {
            let path = choose|path: Seq<char>| #[trigger]
                process::is_zero_field(
                    environ,
                    utf8::encode_utf8("STEAM_COMPAT_DATA_PATH="@ + path),
                ) && paths::normalized(path) == compatdata;
            law_environment_fields(environ, compatdata, path);
            assert(exe == build + end);
            assert(exe.subrange(exe.len() - end.len(), exe.len() as int) == end);
            assert(exe.subrange(exe.len() - any.len(), exe.len() as int) == any);
            assert(exe.take(build.len() as int) == build);
        }
        if proton_of_process(process, compatdata) == Some(build) {
            assert(exe.subrange(exe.len() - end.len(), exe.len() as int) == end);
            assert(exe == build + end);
        }
    }
}

/// The first process that serves tells the build.
proof fn lemma_first_serving(
    processes: Seq<ProcessExe>,
    compatdata_dir: Seq<char>,
    from: int,
    at: int,
    build: Seq<char>,
)
    requires
        0 <= from <= at < processes.len(),
        serves(processes[at], compatdata_dir, build),
        forall|j: int, other: Seq<char>|
            from <= j < at ==> !#[trigger] serves(processes[j], compatdata_dir, other),
    ensures
        first_proton(processes, paths::normalized(compatdata_dir), from) == Some(build),
    decreases at - from,
{
    lemma_serves(processes[at], compatdata_dir, build);
    if from < at {
        let told = proton_of_process(processes[from], paths::normalized(compatdata_dir));
        if told is Some {
            lemma_serves(processes[from], compatdata_dir, told->0);
            assert(!serves(processes[from], compatdata_dir, told->0));
        }
        lemma_first_serving(processes, compatdata_dir, from + 1, at, build);
    }
}

/// Where no process serves, none tells a build.
proof fn lemma_no_proton(processes: Seq<ProcessExe>, compatdata_dir: Seq<char>, from: int)
    requires
        0 <= from <= processes.len(),
        forall|j: int, other: Seq<char>|
            from <= j < processes.len() ==> !#[trigger] serves(processes[j], compatdata_dir, other),
    ensures
        first_proton(processes, paths::normalized(compatdata_dir), from) is None,
    decreases processes.len() - from,
{
    if from < processes.len() {
        let told = proton_of_process(processes[from], paths::normalized(compatdata_dir));
        if told is Some {
            lemma_serves(processes[from], compatdata_dir, told->0);
            assert(!serves(processes[from], compatdata_dir, told->0));
        }
        lemma_no_proton(processes, compatdata_dir, from + 1);
    }
}

/// The Proton build is that of the first wineserver that serves the `compatdata`
/// directory, whatever the processes before it and behind it are; and there is
/// none where no process serves it.
pub proof fn law_first_wineserver_decides(
    processes: Seq<ProcessExe>,
    compatdata_dir: Seq<char>,
    dir: Option<Seq<char>>,
    at: int,
    build: Seq<char>,
)
    requires
        dir == first_proton(processes, paths::normalized(compatdata_dir), 0),
    ensures
        0 <= at < processes.len() && serves(processes[at], compatdata_dir, build) && (forall|
            j: int,
            other: Seq<char>,
        |
            0 <= j < at ==> !#[trigger] serves(processes[j], compatdata_dir, other)) ==> dir == Some(
            build,
        ),
        (forall|j: int, other: Seq<char>|
            0 <= j < processes.len() ==> !#[trigger] serves(processes[j], compatdata_dir, other))
            ==> dir is None,
{
    if 0 <= at < processes.len() && serves(processes[at], compatdata_dir, build) && (forall|
        j: int,
        other: Seq<char>,
    |
        0 <= j < at ==> !#[trigger] serves(processes[j], compatdata_dir, other)) {
        lemma_first_serving(processes, compatdata_dir, 0, at, build);
    }
    if forall|j: int, other: Seq<char>|
        0 <= j < processes.len() ==> !#[trigger] serves(processes[j], compatdata_dir, other) {
        lemma_no_proton(processes, compatdata_dir, 0);
    }
}

/// A line of `config_info` tells the build in front of its first `/files/`, and
/// none where there is no `/files/` or nothing in front of it.
pub proof fn law_config_line(line: Seq<char>, dir: Option<Seq<char>>, at: int)
    requires
        dir == proton_of_line(line),
    ensures
        text::occurs_at(line, "/files/"@, at) && at > 0 && (forall|j: int|
            0 <= j < at ==> !#[trigger] text::occurs_at(line, "/files/"@, j)) ==> dir == Some(
            line.take(at),
        ),
        text::occurs_at(line, "/files/"@, 0) ==> dir is None,
        (forall|j: int| !#[trigger] text::occurs_at(line, "/files/"@, j)) ==> dir is None,
{
    text::lemma_occurrence_from(line, "/files/"@, 0);
    if dir is Some {
        let found = text::first_occurrence(line, "/files/"@)->0;
        assert(text::occurs_at(line, "/files/"@, found));
    }
}

/// Where no wineserver serves the `compatdata` directory, the second line of
/// `config_info` tells the build, whatever the first line and those behind the
/// second are. Without a second line, and without `config_info`, there is none.
pub proof fn law_config_info_is_the_fallback(
    compatdata_dir: Seq<char>,
    processes: Seq<ProcessExe>,
    config_info: Option<Seq<char>>,
    dir: Option<Seq<char>>,
    first: Seq<char>,
    second: Seq<char>,
    rest: Seq<char>,
)
    requires
        dir == proton_in_use(compatdata_dir, processes, config_info),
        forall|j: int, other: Seq<char>|
            0 <= j < processes.len() ==> !#[trigger] serves(processes[j], compatdata_dir, other),
        !first.contains('\n'),
        !second.contains('\n'),
        first.len() > 0 ==> first.last() != '\r',
        second.len() > 0 ==> second.last() != '\r',
    ensures
        config_info is None ==> dir is None,
        config_info == Some(first + seq!['\n'] + second + seq!['\n'] + rest) ==> dir
            == proton_of_line(second),
        config_info == Some(first + seq!['\n'] + second) && second.len() > 0 ==> dir
            == proton_of_line(second),
        config_info == Some(first) ==> dir is None,
        config_info == Some(first + seq!['\n']) ==> dir is None,
{
    lemma_no_proton(processes, compatdata_dir, 0);
    let none = Seq::<char>::empty();
    let tail = second + seq!['\n'] + rest;
    text::law_lines(second, rest);
    text::law_lines(first, tail);
    assert(first + seq!['\n'] + tail == first + seq!['\n'] + second + seq!['\n'] + rest);
    text::law_lines(first, second);
    text::law_lines(first, none);
    assert(first + seq!['\n'] + none == first + seq!['\n']);
    if first.len() == 0 {
        assert(first == none);
    }
}

/// Where a wineserver serves the `compatdata` directory, `config_info` is not
/// asked.
pub proof fn law_wineserver_over_config_info(
    compatdata_dir: Seq<char>,
    processes: Seq<ProcessExe>,
    config_info: Option<Seq<char>>,
    dir: Option<Seq<char>>,
    at: int,
    build: Seq<char>,
)
    requires
        dir == proton_in_use(compatdata_dir, processes, config_info),
        0 <= at < processes.len(),
        serves(processes[at], compatdata_dir, build),
        forall|j: int, other: Seq<char>|
            0 <= j < at ==> !#[trigger] serves(processes[j], compatdata_dir, other),
    ensures
        dir == Some(build),
{
    lemma_first_serving(processes, compatdata_dir, 0, at, build);
}

/// Stopping all stops each group that was launched, in its turn and as often as
/// it is given: one group more adds that group at the end, unless it is 0 or 1,
/// which adds nothing.
pub proof fn law_stop_all(pgids: Seq<u32>, groups: Seq<u32>, pgid: u32, more: Seq<u32>)
    requires
        groups == pgids.filter(is_launched_group()),
        more == pgids.push(pgid).filter(is_launched_group()),
    ensures
        pgid > 1 ==> more == groups.push(pgid),
        pgid <= 1 ==> more == groups,
        pgids.len() == 0 ==> groups.len() == 0,
{
    reveal(Seq::filter);
    assert(pgids.push(pgid).drop_last() == pgids);
}

} // verus!
