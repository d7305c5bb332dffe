//! What the .NET runtime needs once: packages of the system, which root
//! installs, and the runtime itself, which `winetricks` installs into a prefix.

use crate::launcher;
use crate::launcher::{Command, LaunchTarget, PREFIX_NAME};
use crate::paths;
use crate::text;
use vstd::prelude::*;
use vstd::utf8;

verus! {

/// The script that installs the packages.
pub const SCRIPT: &'static str = "/usr/lib/steampunk/privileged-setup.sh";

/// The log of that script.
pub const LOGFILE: &'static str = "/var/log/steampunk.log";

// ---------------------------------------------------------------------------
// What is there
// ---------------------------------------------------------------------------

/// Whether packages can be installed with `apt`, as the script does: `apt-get`
/// is in one of the directories that are searched for programs, or in the usual
/// one.
pub fn apt_available(on_path: &[bool], in_usr_bin: bool) -> (available: bool)
    ensures
        available == (on_path@.contains(true) || in_usr_bin),
{
    for i in 0..on_path.len()
        invariant
            forall|j: int| 0 <= j < i ==> !#[trigger] on_path@[j],
    {
        if on_path[i] {
            return true;
        }
    }
    in_usr_bin
}

/// Whether the packages are there already, so that nobody has to be asked for a
/// password. The package of 32 bit wine can be asked for only where there is
/// `apt`; elsewhere `winetricks` alone is looked for.
pub fn system_prereqs_present(apt: bool, wine32: bool, winetricks: bool) -> (present: bool)
    ensures
        present == ((apt ==> wine32) && winetricks),
{
    (!apt || wine32) && winetricks
}

// ---------------------------------------------------------------------------
// The packages
// ---------------------------------------------------------------------------

/// Why the packages were not installed.
#[derive(Clone, Copy, Debug, PartialEq, Eq, Structural)]
pub enum SetupError {
    /// There is no script.
    ScriptMissing,
    /// The user did not give the password.
    Cancelled,
    /// The script failed with this code.
    ScriptFailed(i32),
}

pub const SCRIPT_MISSING: &'static str = "Privileged script not found at ";

pub const CANCELLED: &'static str = "Authentication was cancelled.";

pub const SCRIPT_FAILED: &'static str = "Script exited with code ";

pub const SEE_OPEN: &'static str = " (see ";

pub const SEE_CLOSE: &'static str = ")";

impl SetupError {
    /// What is said of it.
    pub open spec fn said(self) -> Seq<char> {
        match self {
            SetupError::ScriptMissing => SCRIPT_MISSING@ + SCRIPT@,
            SetupError::Cancelled => CANCELLED@,
            SetupError::ScriptFailed(code) => SCRIPT_FAILED@ + text::padded(code as int, 0)
                + SEE_OPEN@ + LOGFILE@ + SEE_CLOSE@,
        }
    }

    /// What is said of it.
    pub fn message(&self) -> (message: String)
        ensures
            message@ == self.said(),
            *self is ScriptMissing ==> message@
                == "Privileged script not found at "@ + "/usr/lib/steampunk/privileged-setup.sh"@,
            *self is Cancelled ==> message@ == "Authentication was cancelled."@,
            *self matches SetupError::ScriptFailed(code) ==> message@ == "Script exited with code "@
                + text::padded(code as int, 0) + " (see "@ + "/var/log/steampunk.log"@ + ")"@,
    {
        match self {
            SetupError::ScriptMissing => {
                let mut message = SCRIPT_MISSING.to_owned();
                message.push_str(SCRIPT);
                message
            },
            SetupError::Cancelled => CANCELLED.to_owned(),
            SetupError::ScriptFailed(code) => {
                let mut message = SCRIPT_FAILED.to_owned();
                text::push_padded(&mut message, *code as i64, 0);
                message.push_str(SEE_OPEN);
                message.push_str(LOGFILE);
                message.push_str(SEE_CLOSE);
                message
            },
        }
    }
}

/// What `pkexec` exits with when the user dismisses the prompt.
pub const PKEXEC_DISMISSED: i32 = 126;

/// What `pkexec` exits with when the user is not authorized.
pub const PKEXEC_REFUSED: i32 = 127;

/// What the exit of `pkexec` means. `code` is `None` where a signal ended it,
/// and counts as -1.
pub open spec fn setup_outcome(success: bool, code: Option<i32>) -> Result<(), SetupError> {
    let number = match code {
        Some(n) => n,
        None => -1i32,
    };
    if success {
        Ok(())
    } else if number == PKEXEC_DISMISSED || number == PKEXEC_REFUSED {
        Err(SetupError::Cancelled)
    } else {
        Err(SetupError::ScriptFailed(number))
    }
}

/// Whether the script can be run at all.
pub fn check_script(script_found: bool) -> (checked: Result<(), SetupError>)
    ensures
        checked == if script_found {
            Ok::<(), SetupError>(())
        } else {
            Err(SetupError::ScriptMissing)
        },
{
    if script_found {
        Ok(())
    } else {
        Err(SetupError::ScriptMissing)
    }
}

/// What the exit of the script, run by `pkexec`, means.
pub fn run_system_setup(success: bool, code: Option<i32>) -> (outcome: Result<(), SetupError>)
    ensures
        outcome == setup_outcome(success, code),
        outcome is Ok <==> success,
        !success && (code == Some(126i32) || code == Some(127i32)) ==> outcome == Err::<
            (),
            SetupError,
        >(SetupError::Cancelled),
        !success ==> (code matches Some(n) ==> n != 126 && n != 127 ==> outcome == Err::<
            (),
            SetupError,
        >(SetupError::ScriptFailed(n))),
        !success && code is None ==> outcome == Err::<(), SetupError>(
            SetupError::ScriptFailed(-1i32),
        ),
{
    if success {
        return Ok(());
    }
    let number = match code {
        Some(n) => n,
        None => -1,
    };
    if number == PKEXEC_DISMISSED || number == PKEXEC_REFUSED {
        Err(SetupError::Cancelled)
    } else {
        Err(SetupError::ScriptFailed(number))
    }
}

// ---------------------------------------------------------------------------
// The runtime
// ---------------------------------------------------------------------------

pub const WINETRICKS: &'static str = "winetricks";

pub const PREFIX_VARIABLE: &'static str = "WINEPREFIX";

/// The command that installs the runtime into a prefix. It is forced (`-f`),
/// as `winetricks` takes a verb for done once it was attempted, and would do
/// nothing in the prefix that is to be repaired.
pub fn winetricks_command(prefix_dir: &str) -> (command: Command)
    ensures
        command.program@ == WINETRICKS@,
        launcher::arg_views(command.args@) == seq![
            utf8::encode_utf8("-q"@),
            utf8::encode_utf8("-f"@),
            utf8::encode_utf8("dotnet48"@),
            utf8::encode_utf8("win10"@),
        ],
        launcher::env_views(command.env@) == seq![(PREFIX_VARIABLE@, prefix_dir@)],
        command.program@ == "winetricks"@,
        launcher::env_views(command.env@) == seq![("WINEPREFIX"@, prefix_dir@)],
{
    let mut args: Vec<Vec<u8>> = Vec::new();
    args.push(vstd::slice::slice_to_vec("-q".as_bytes()));
    args.push(vstd::slice::slice_to_vec("-f".as_bytes()));
    args.push(vstd::slice::slice_to_vec("dotnet48".as_bytes()));
    args.push(vstd::slice::slice_to_vec("win10".as_bytes()));
    let mut env: Vec<(String, String)> = Vec::new();
    env.push((PREFIX_VARIABLE.to_owned(), prefix_dir.to_owned()));
    let command = Command { program: WINETRICKS.to_owned(), args, env };
    assert(launcher::arg_views(command.args@) == seq![
        utf8::encode_utf8("-q"@),
        utf8::encode_utf8("-f"@),
        utf8::encode_utf8("dotnet48"@),
        utf8::encode_utf8("win10"@),
    ]);
    assert(launcher::env_views(command.env@) == seq![(PREFIX_VARIABLE@, prefix_dir@)]);
    command
}

/// The text that `String::from_utf8_lossy` makes of `bytes`.
pub uninterp spec fn lossy_text(bytes: Seq<u8>) -> Seq<char>;

/// `String::from_utf8_lossy`: a text for any bytes, which is the text that they
/// encode where they encode one. Other bytes become replacement characters; how
/// many is not stated.
#[verifier::external_body]
pub(crate) fn from_utf8_lossy(bytes: &[u8]) -> (result: String)
    ensures
        result@ == lossy_text(bytes@),
        utf8::valid_utf8(bytes@) ==> result@ == utf8::decode_utf8(bytes@),
{
    String::from_utf8_lossy(bytes).into_owned()
}

pub const WINETRICKS_EXITED: &'static str = "winetricks exited with code ";

pub const INSTALLING: &'static str = " installing dotnet48: ";

pub const NO_CODE: &'static str = "None";

pub const CODE_OPEN: &'static str = "Some(";

pub const CODE_CLOSE: &'static str = ")";

/// An exit code, where there is one.
pub open spec fn code_text(code: Option<i32>) -> Seq<char> {
    match code {
        Some(n) => CODE_OPEN@ + text::padded(n as int, 0) + CODE_CLOSE@,
        None => NO_CODE@,
    }
}

/// What is told of a failed installation: the errors that were printed, or the
/// other output where no errors were.
pub open spec fn told(stdout: Seq<char>, stderr: Seq<char>) -> Seq<char> {
    if text::trimmed(stderr).len() == 0 {
        text::trimmed(stdout)
    } else {
        text::trimmed(stderr)
    }
}

/// What is said of a failed installation.
pub open spec fn failure_said(code: Option<i32>, stdout: Seq<char>, stderr: Seq<char>) -> Seq<char> {
    WINETRICKS_EXITED@ + code_text(code) + INSTALLING@ + told(stdout, stderr)
}

/// What is said of a failed installation, from what was printed.
pub fn failure_message(code: Option<i32>, stdout: &str, stderr: &str) -> (message: String)
    ensures
        message@ == failure_said(code, stdout@, stderr@),
{
    let mut message = WINETRICKS_EXITED.to_owned();
    match code {
        Some(n) => {
            let ghost before = message@;
            message.push_str(CODE_OPEN);
            text::push_padded(&mut message, n as i64, 0);
            message.push_str(CODE_CLOSE);
            assert(message@ == before + code_text(code));
        },
        None => {
            message.push_str(NO_CODE);
        },
    }
    message.push_str(INSTALLING);
    let errors = text::chars_of(stderr);
    let output = text::chars_of(stdout);
    let middle = text::trim(&errors);
    if middle.len() == 0 {
        text::push_chars(&mut message, text::trim(&output));
    } else {
        text::push_chars(&mut message, middle);
    }
    message
}

/// What the exit of `winetricks` means: on a failure, what is said of it.
pub fn install_dotnet48(success: bool, code: Option<i32>, stdout: &[u8], stderr: &[u8]) -> (outcome: Result<
    (),
    String,
>)
    ensures
        match outcome {
            Ok(_) => success,
            Err(message) => !success && message@ == failure_said(
                code,
                lossy_text(stdout@),
                lossy_text(stderr@),
            ),
        },
{
    if success {
        Ok(())
    } else {
        Err(failure_message(code, &from_utf8_lossy(stdout), &from_utf8_lossy(stderr)))
    }
}

pub const OUTPUT_TITLE: &'static str = "[steampunk] ==== winetricks dotnet48 output ====\n";

/// What is put behind the log of the script: a title and what `winetricks`
/// printed.
pub fn output_block(stdout: &[u8], stderr: &[u8]) -> (block: Vec<u8>)
    ensures
        block@ == utf8::encode_utf8(OUTPUT_TITLE@) + stdout@ + stderr@,
        block@ == utf8::encode_utf8("[steampunk] ==== winetricks dotnet48 output ====\n"@) + stdout@
            + stderr@,
{
    let mut block = vstd::slice::slice_to_vec(OUTPUT_TITLE.as_bytes());
    block.extend_from_slice(stdout);
    block.extend_from_slice(stderr);
    block
}

// ---------------------------------------------------------------------------
// The whole setup
// ---------------------------------------------------------------------------

/// What happened last in an automatic setup.
#[derive(Clone, Copy, Debug, PartialEq, Eq, Structural)]
pub enum SetupEvent {
    /// It was asked for.
    Requested,
    /// A clone was tried: whether there was a prefix to clone from.
    Repaired { cloned: bool },
    /// It was looked whether the packages are there.
    Checked { present: bool },
    /// The packages were installed.
    PackagesInstalled,
    /// The runtime was installed.
    RuntimeInstalled,
    /// It was looked whether the prefix has a usable runtime now.
    Verified { usable: bool },
    /// The step that was to be done failed.
    Failed,
}

/// What is to be done next in an automatic setup.
#[derive(Clone, Copy, Debug, PartialEq, Eq, Structural)]
pub enum SetupStep {
    /// Clone the runtime of another prefix.
    Repair,
    /// Look whether the packages are there.
    CheckPackages,
    /// Install the packages, which asks for the password.
    InstallPackages,
    /// Install the runtime.
    InstallRuntime,
    /// Look whether the prefix has a usable runtime.
    Verify,
    /// Launch the trainer.
    Launch,
    /// Report that there is no usable runtime.
    ReportNoRuntime,
    /// Report the failure of the last step.
    ReportFailure,
}

/// What follows on an event.
pub open spec fn setup_follows(event: SetupEvent) -> SetupStep {
    match event {
        SetupEvent::Requested => SetupStep::Repair,
        SetupEvent::Repaired { cloned } => if cloned {
            SetupStep::Verify
        } else {
            SetupStep::CheckPackages
        },
        SetupEvent::Checked { present } => if present {
            SetupStep::InstallRuntime
        } else {
            SetupStep::InstallPackages
        },
        SetupEvent::PackagesInstalled => SetupStep::InstallRuntime,
        SetupEvent::RuntimeInstalled => SetupStep::Verify,
        SetupEvent::Verified { usable } => if usable {
            SetupStep::Launch
        } else {
            SetupStep::ReportNoRuntime
        },
        SetupEvent::Failed => SetupStep::ReportFailure,
    }
}

/// Leads an automatic setup. A clone is tried first: it needs no packages, and
/// the installer fails under newer builds of wine and leaves the prefix worse
/// than it was.
pub fn next_setup_step(event: SetupEvent) -> (step: SetupStep)
    ensures
        step == setup_follows(event),
        event is Requested ==> step is Repair,
        event == (SetupEvent::Repaired { cloned: true }) ==> step is Verify,
        event == (SetupEvent::Repaired { cloned: false }) ==> step is CheckPackages,
        event == (SetupEvent::Checked { present: true }) ==> step is InstallRuntime,
        event == (SetupEvent::Checked { present: false }) ==> step is InstallPackages,
        event is PackagesInstalled ==> step is InstallRuntime,
        event is RuntimeInstalled ==> step is Verify,
        event == (SetupEvent::Verified { usable: true }) ==> step is Launch,
        event == (SetupEvent::Verified { usable: false }) ==> step is ReportNoRuntime,
        event is Failed ==> step is ReportFailure,
{
    match event {
        SetupEvent::Requested => SetupStep::Repair,
        SetupEvent::Repaired { cloned } => if cloned {
            SetupStep::Verify
        } else {
            SetupStep::CheckPackages
        },
        SetupEvent::Checked { present } => if present {
            SetupStep::InstallRuntime
        } else {
            SetupStep::InstallPackages
        },
        SetupEvent::PackagesInstalled => SetupStep::InstallRuntime,
        SetupEvent::RuntimeInstalled => SetupStep::Verify,
        SetupEvent::Verified { usable } => if usable {
            SetupStep::Launch
        } else {
            SetupStep::ReportNoRuntime
        },
        SetupEvent::Failed => SetupStep::ReportFailure,
    }
}

/// How the steps of a setup turn out: `None` where a step fails.
pub struct SetupWorld {
    pub clone: Option<bool>,
    pub present: bool,
    pub packages: Option<()>,
    pub runtime: Option<()>,
    pub usable: bool,
}

/// What happens at a step.
pub open spec fn setup_happens(world: SetupWorld, step: SetupStep) -> SetupEvent {
    match step {
        SetupStep::Repair => match world.clone {
            Some(cloned) => SetupEvent::Repaired { cloned },
            None => SetupEvent::Failed,
        },
        SetupStep::CheckPackages => SetupEvent::Checked { present: world.present },
        SetupStep::InstallPackages => match world.packages {
            Some(_) => SetupEvent::PackagesInstalled,
            None => SetupEvent::Failed,
        },
        SetupStep::InstallRuntime => match world.runtime {
            Some(_) => SetupEvent::RuntimeInstalled,
            None => SetupEvent::Failed,
        },
        _ => SetupEvent::Verified { usable: world.usable },
    }
}

/// Whether a setup ends with a step.
pub open spec fn ends_setup(step: SetupStep) -> bool {
    step is Launch || step is ReportNoRuntime || step is ReportFailure
}

/// The steps of a setup, from this step on, of which there are at most `fuel`.
pub open spec fn setup_steps(world: SetupWorld, step: SetupStep, fuel: nat) -> Seq<SetupStep>
    decreases fuel,
{
    if ends_setup(step) || fuel == 0 {
        seq![step]
    } else {
        seq![step] + setup_steps(
            world,
            setup_follows(setup_happens(world, step)),
            (fuel - 1) as nat,
        )
    }
}

/// Whether a step of a setup fails that is reached.
pub open spec fn fails(world: SetupWorld, steps: Seq<SetupStep>) -> bool {
    exists|i: int|
        0 <= i < steps.len() && setup_happens(world, #[trigger] steps[i]) == SetupEvent::Failed
}

/// How a setup goes: it ends; the password is asked for only where there was
/// nothing to clone and the packages are missing; nothing is installed into a
/// prefix after a clone; a failure is reported exactly where a step that is
/// reached fails; and where none does, a trainer is launched exactly in a prefix
/// that is found to have a usable runtime.
pub proof fn law_setup(world: SetupWorld)
    ensures
        ({
            let steps = setup_steps(world, setup_follows(SetupEvent::Requested), 6);
            &&& ends_setup(steps.last())
            &&& steps[0] == SetupStep::Repair
            &&& steps.contains(SetupStep::InstallPackages) <==> world.clone == Some(false)
                && !world.present
            &&& steps.contains(SetupStep::InstallRuntime) <==> world.clone == Some(false) && (
            world.present || world.packages is Some)
            &&& steps.contains(SetupStep::Verify) <==> !fails(world, steps)
            &&& steps.last() is Launch <==> world.usable && !fails(world, steps)
            &&& steps.last() is ReportNoRuntime <==> !world.usable && !fails(world, steps)
            &&& steps.last() is ReportFailure <==> fails(world, steps)
        }),
{
    reveal_with_fuel(setup_steps, 7);
    let steps = setup_steps(world, SetupStep::Repair, 6);
    let s0 = SetupStep::Repair;
    let s1 = setup_follows(setup_happens(world, s0));
    let s2 = setup_follows(setup_happens(world, s1));
    let s3 = setup_follows(setup_happens(world, s2));
    let s4 = setup_follows(setup_happens(world, s3));
    let s5 = setup_follows(setup_happens(world, s4));
    if ends_setup(s1) {
        assert(steps =~= seq![s0, s1]);
    } else if ends_setup(s2) {
        assert(steps =~= seq![s0, s1, s2]);
    } else if ends_setup(s3) {
        assert(steps =~= seq![s0, s1, s2, s3]);
    } else if ends_setup(s4) {
        assert(steps =~= seq![s0, s1, s2, s3, s4]);
        assert(steps[3] == s3);
    } else {
        assert(steps =~= seq![s0, s1, s2, s3, s4, s5]);
    }
    assert(steps[0] == s0 && steps[1] == s1);
    if steps.len() > 2 {
        assert(steps[2] == s2);
    }
    if steps.len() > 3 {
        assert(steps[3] == s3);
    }
    if steps.len() > 4 {
        assert(steps[4] == s4);
    }
}

pub const NO_RUNTIME: &'static str = "Couldn't get a working .NET runtime into this game's prefix. No other game's Proton prefix on this system had one to copy, and the installer didn't complete. See the debug log (Save Debug Log) for the details.";

// ---------------------------------------------------------------------------
// What the user is told
// ---------------------------------------------------------------------------

/// What stands in front of the prefix in the command to be typed.
pub const MANUAL_OPEN: &'static str = "WINEPREFIX=";

/// What stands behind the prefix in the command to be typed.
pub const MANUAL_CLOSE: &'static str = " winetricks -q -f dotnet48 win10";

/// The commands that install the packages with `apt`.
pub const MANUAL_APT: &'static str = "dpkg --add-architecture i386 && apt update && apt install -y winetricks cabextract wine32:i386\n";

/// What is said of the packages where there is no `apt`.
pub const MANUAL_OTHER: &'static str = "# Install winetricks, cabextract and 32-bit wine support with your\n# distribution's package manager, then:\n";

/// The commands that do the setup by hand: the packages first, and then the same
/// command that the automatic setup runs.
pub fn manual_commands(target: &LaunchTarget, apt: bool) -> (commands: String)
    ensures
        commands@ == (if apt {
            MANUAL_APT@
        } else {
            MANUAL_OTHER@
        }) + MANUAL_OPEN@ + paths::joined_path(target.compatdata_dir@, PREFIX_NAME@)
            + MANUAL_CLOSE@,
        apt ==> commands@ == "dpkg --add-architecture i386 && apt update && apt install -y winetricks cabextract wine32:i386\n"@
            + "WINEPREFIX="@ + paths::joined_path(target.compatdata_dir@, "pfx"@)
            + " winetricks -q -f dotnet48 win10"@,
        !apt ==> commands@ == "# Install winetricks, cabextract and 32-bit wine support with your\n# distribution's package manager, then:\n"@
            + "WINEPREFIX="@ + paths::joined_path(target.compatdata_dir@, "pfx"@)
            + " winetricks -q -f dotnet48 win10"@,
{
    let mut commands = if apt {
        MANUAL_APT.to_owned()
    } else {
        MANUAL_OTHER.to_owned()
    };
    commands.push_str(MANUAL_OPEN);
    commands.push_str(&target.prefix_dir());
    commands.push_str(MANUAL_CLOSE);
    commands
}

/// What the installer is told, as text.
pub open spec fn installer_args() -> Seq<Seq<char>> {
    seq!["-q"@, "-f"@, "dotnet48"@, "win10"@]
}

/// A command with one variable in its environment, as it is typed: `args` are
/// its arguments as text.
pub open spec fn typed(command: Command, args: Seq<Seq<char>>) -> Seq<char> {
    command.env@[0].0@ + seq!['='] + command.env@[0].1@ + seq![' '] + text::joined(
        seq![command.program@] + args,
        seq![' '],
    )
}

/// The command that is shown to be typed is the one that the automatic setup
/// runs: the same program, arguments and environment.
pub proof fn law_manual_command_is_the_automatic_one(command: Command, prefix_dir: Seq<char>)
    requires
        command.program@ == WINETRICKS@,
        launcher::arg_views(command.args@) == seq![
            utf8::encode_utf8("-q"@),
            utf8::encode_utf8("-f"@),
            utf8::encode_utf8("dotnet48"@),
            utf8::encode_utf8("win10"@),
        ],
        launcher::env_views(command.env@) == seq![(PREFIX_VARIABLE@, prefix_dir)],
    ensures
        MANUAL_OPEN@ + prefix_dir + MANUAL_CLOSE@ == typed(command, installer_args()),
        command.args@.len() == installer_args().len(),
        forall|i: int|
            0 <= i < command.args@.len() ==> (#[trigger] command.args@[i])@ == utf8::encode_utf8(
                installer_args()[i],
            ),
{
    reveal_strlit("WINEPREFIX=");
    reveal_strlit("WINEPREFIX");
    reveal_strlit(" winetricks -q -f dotnet48 win10");
    reveal_strlit("winetricks");
    reveal_strlit("-q");
    reveal_strlit("-f");
    reveal_strlit("dotnet48");
    reveal_strlit("win10");
    let env = launcher::env_views(command.env@);
    assert(env.len() == 1);
    assert(env[0] == (command.env@[0].0@, command.env@[0].1@));
    let args = launcher::arg_views(command.args@);
    assert(args.len() == 4);
    assert forall|i: int| 0 <= i < command.args@.len() implies (#[trigger] command.args@[i])@
        == utf8::encode_utf8(installer_args()[i]) by {
        assert(args[i] == command.args@[i]@);
    }
    let words = seq![WINETRICKS@] + installer_args();
    let space = seq![' '];
    let four = words.drop_last();
    let three = four.drop_last();
    let two = three.drop_last();
    let one = two.drop_last();
    assert(text::joined(one, space) == WINETRICKS@);
    assert(text::joined(two, space) == WINETRICKS@ + space + "-q"@);
    assert(text::joined(three, space) == text::joined(two, space) + space + "-f"@);
    assert(text::joined(four, space) == text::joined(three, space) + space + "dotnet48"@);
    assert(text::joined(words, space) == text::joined(four, space) + space + "win10"@);
    assert(MANUAL_CLOSE@ =~= space + text::joined(words, space));
    assert(MANUAL_OPEN@ =~= PREFIX_VARIABLE@ + seq!['=']);
    assert(MANUAL_OPEN@ + prefix_dir + MANUAL_CLOSE@ =~= typed(command, installer_args()));
}

/// What the dialog that offers the setup shows.
pub struct SetupOffer {
    /// Whether the setup can be done automatically.
    pub automatic: bool,
    pub body: &'static str,
    pub commands_title: &'static str,
    /// Whether the commands are shown from the start.
    pub commands_shown: bool,
}

pub const OFFER_AUTOMATIC: &'static str = "This game needs a one-time Windows compatibility component before trainers will run. This will ask for your password once, then take a minute or two.";

pub const OFFER_MANUAL: &'static str = "This game needs a one-time Windows compatibility component before trainers will run. Automatic setup is only available on Debian/Ubuntu-based systems; run the commands below yourself, then launch the trainer again.";

pub const COMMANDS_INSTEAD: &'static str = "Show manual commands instead";

pub const COMMANDS_ONLY: &'static str = "Manual commands";

/// What the dialog that offers the setup shows. The script needs `apt`:
/// elsewhere the commands are shown, rather than a prompt for a password that
/// leads to nothing.
pub fn setup_offer(apt: bool) -> (offer: SetupOffer)
    ensures
        offer.automatic == apt,
        offer.commands_shown == !apt,
        offer.body@ == if apt {
            OFFER_AUTOMATIC@
        } else {
            OFFER_MANUAL@
        },
        offer.commands_title@ == if apt {
            COMMANDS_INSTEAD@
        } else {
            COMMANDS_ONLY@
        },
        apt ==> offer.commands_title@ == "Show manual commands instead"@,
        !apt ==> offer.commands_title@ == "Manual commands"@,
        apt ==> offer.body@ == "This game needs a one-time Windows compatibility component before trainers will run. This will ask for your password once, then take a minute or two."@,
        !apt ==> offer.body@ == "This game needs a one-time Windows compatibility component before trainers will run. Automatic setup is only available on Debian/Ubuntu-based systems; run the commands below yourself, then launch the trainer again."@,
{
    if apt {
        SetupOffer {
            automatic: true,
            body: OFFER_AUTOMATIC,
            commands_title: COMMANDS_INSTEAD,
            commands_shown: false,
        }
    } else {
        SetupOffer {
            automatic: false,
            body: OFFER_MANUAL,
            commands_title: COMMANDS_ONLY,
            commands_shown: true,
        }
    }
}

/// What is said of a failed installation: the exit code, and the errors that
/// were printed, without the white space at either end. Where the errors are
/// white space alone, it is the other output.
pub proof fn law_failure_is_told(
    code: Option<i32>,
    stdout: Seq<char>,
    stderr: Seq<char>,
    said: Seq<char>,
    before: Seq<char>,
    core: Seq<char>,
    after: Seq<char>,
)
    requires
        said == failure_said(code, stdout, stderr),
        forall|i: int| 0 <= i < before.len() ==> text::is_space(#[trigger] before[i]),
        forall|i: int| 0 <= i < after.len() ==> text::is_space(#[trigger] after[i]),
        core.len() > 0 ==> !text::is_space(core[0]) && !text::is_space(core.last()),
    ensures
        ({
            let exit = match code {
                Some(n) => "Some("@ + text::padded(n as int, 0) + ")"@,
                None => "None"@,
            };
            let front = "winetricks exited with code "@ + exit + " installing dotnet48: "@;
            &&& stderr == before + core + after && core.len() > 0 ==> said == front + core
            &&& stdout == before + core + after && (forall|i: int|
                0 <= i < stderr.len() ==> text::is_space(#[trigger] stderr[i])) ==> said == front
                + core
        }),
{
    text::law_trimmed(before, core, after);
    if forall|i: int| 0 <= i < stderr.len() ==> text::is_space(#[trigger] stderr[i]) {
        let nothing = Seq::<char>::empty();
        text::law_trimmed(stderr, nothing, nothing);
        assert(stderr + nothing + nothing == stderr);
    }
}

} // verus!
