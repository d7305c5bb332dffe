use steampunk::launcher::LaunchTarget;
use steampunk::setup::{
    apt_available, check_script, failure_message, install_dotnet48, manual_commands,
    next_setup_step, output_block, run_system_setup, setup_offer, system_prereqs_present,
    winetricks_command, SetupError, SetupEvent, SetupStep,
};

#[test]
fn apt_is_looked_for_on_the_path_and_in_usr_bin() {
    assert!(apt_available(&[false, true], false));
    assert!(apt_available(&[], true));
    assert!(!apt_available(&[false, false], false));
}

#[test]
fn wine32_counts_only_where_there_is_apt() {
    assert!(system_prereqs_present(true, true, true));
    assert!(!system_prereqs_present(true, false, true));
    assert!(system_prereqs_present(false, false, true));
    assert!(!system_prereqs_present(false, false, false));
}

#[test]
fn the_exit_of_the_script_is_told() {
    assert_eq!(run_system_setup(true, Some(0)), Ok(()));
    assert_eq!(
        run_system_setup(false, Some(126)),
        Err(SetupError::Cancelled)
    );
    assert_eq!(
        run_system_setup(false, Some(127)),
        Err(SetupError::Cancelled)
    );
    assert_eq!(
        run_system_setup(false, Some(3)).err().unwrap().message(),
        "Script exited with code 3 (see /var/log/steampunk.log)"
    );
    assert_eq!(
        run_system_setup(false, None).err().unwrap().message(),
        "Script exited with code -1 (see /var/log/steampunk.log)"
    );
    assert_eq!(
        SetupError::Cancelled.message(),
        "Authentication was cancelled."
    );
}

#[test]
fn a_missing_script_is_told() {
    assert_eq!(check_script(true), Ok(()));
    assert_eq!(
        check_script(false).err().unwrap().message(),
        "Privileged script not found at /usr/lib/steampunk/privileged-setup.sh"
    );
}

#[test]
fn winetricks_is_forced_on_the_prefix() {
    let command = winetricks_command("/c/pfx");
    assert_eq!(command.program, "winetricks");
    assert_eq!(
        command.args,
        vec![
            b"-q".to_vec(),
            b"-f".to_vec(),
            b"dotnet48".to_vec(),
            b"win10".to_vec()
        ]
    );
    assert_eq!(
        command.env,
        vec![("WINEPREFIX".to_string(), "/c/pfx".to_string())]
    );
}

#[test]
fn a_failed_installation_tells_its_errors() {
    assert_eq!(install_dotnet48(true, Some(0), b"", b"x"), Ok(()));
    assert_eq!(
        install_dotnet48(false, Some(67), b"out", b" bad cabinet\n"),
        Err("winetricks exited with code Some(67) installing dotnet48: bad cabinet".to_string())
    );
    assert_eq!(
        install_dotnet48(false, None, b"\nout \n", b" \n"),
        Err("winetricks exited with code None installing dotnet48: out".to_string())
    );
}

#[test]
fn output_that_is_no_text_is_told_with_replacements() {
    assert_eq!(
        install_dotnet48(false, Some(-1), b"", b"a\xffb"),
        Err("winetricks exited with code Some(-1) installing dotnet48: a\u{fffd}b".to_string())
    );
}

#[test]
fn the_failure_is_told_from_texts() {
    assert_eq!(
        failure_message(Some(1), "o", "e"),
        "winetricks exited with code Some(1) installing dotnet48: e"
    );
}

#[test]
fn the_output_is_logged_under_a_title() {
    assert_eq!(
        output_block(b"o\xff", b"e"),
        b"[steampunk] ==== winetricks dotnet48 output ====\no\xffe".to_vec()
    );
}

fn run(clone: Option<bool>, present: bool, packages: bool, runtime: bool, usable: bool) -> Vec<SetupStep> {
    let mut steps = vec![next_setup_step(SetupEvent::Requested)];
    loop {
        let event = match steps[steps.len() - 1] {
            SetupStep::Repair => match clone {
                Some(cloned) => SetupEvent::Repaired { cloned },
                None => SetupEvent::Failed,
            },
            SetupStep::CheckPackages => SetupEvent::Checked { present },
            SetupStep::InstallPackages => {
                if packages {
                    SetupEvent::PackagesInstalled
                } else {
                    SetupEvent::Failed
                }
            }
            SetupStep::InstallRuntime => {
                if runtime {
                    SetupEvent::RuntimeInstalled
                } else {
                    SetupEvent::Failed
                }
            }
            SetupStep::Verify => SetupEvent::Verified { usable },
            SetupStep::Launch | SetupStep::ReportNoRuntime | SetupStep::ReportFailure => {
                return steps;
            }
        };
        steps.push(next_setup_step(event));
    }
}

#[test]
fn a_clone_asks_for_no_password() {
    assert_eq!(
        run(Some(true), false, true, true, true),
        vec![SetupStep::Repair, SetupStep::Verify, SetupStep::Launch]
    );
}

#[test]
fn the_password_is_asked_for_where_packages_are_missing() {
    assert_eq!(
        run(Some(false), false, true, true, true),
        vec![
            SetupStep::Repair,
            SetupStep::CheckPackages,
            SetupStep::InstallPackages,
            SetupStep::InstallRuntime,
            SetupStep::Verify,
            SetupStep::Launch
        ]
    );
    assert_eq!(
        run(Some(false), true, true, true, true),
        vec![
            SetupStep::Repair,
            SetupStep::CheckPackages,
            SetupStep::InstallRuntime,
            SetupStep::Verify,
            SetupStep::Launch
        ]
    );
}

#[test]
fn a_setup_that_fails_launches_nothing() {
    for steps in [
        run(None, true, true, true, true),
        run(Some(false), false, false, true, true),
        run(Some(false), true, true, false, true),
    ] {
        assert_eq!(steps[steps.len() - 1], SetupStep::ReportFailure);
    }
    let steps = run(Some(true), true, true, true, false);
    assert_eq!(steps[steps.len() - 1], SetupStep::ReportNoRuntime);
}

#[test]
fn the_manual_commands_name_the_prefix() {
    let target = LaunchTarget {
        appid: 7,
        client_dir: "/s".to_string(),
        compatdata_dir: "/c/7".to_string(),
        proton_dir: "/p".to_string(),
    };
    assert_eq!(
        manual_commands(&target, true),
        "dpkg --add-architecture i386 && apt update && apt install -y winetricks cabextract wine32:i386\nWINEPREFIX=/c/7/pfx winetricks -q -f dotnet48 win10"
    );
    assert_eq!(
        manual_commands(&target, false),
        "# Install winetricks, cabextract and 32-bit wine support with your\n# distribution's package manager, then:\nWINEPREFIX=/c/7/pfx winetricks -q -f dotnet48 win10"
    );
}

#[test]
fn the_automatic_setup_is_offered_where_there_is_apt() {
    let offer = setup_offer(true);
    assert!(offer.automatic && !offer.commands_shown);
    assert_eq!(offer.commands_title, "Show manual commands instead");
    assert!(offer.body.contains("your password once"));
    let offer = setup_offer(false);
    assert!(!offer.automatic && offer.commands_shown);
    assert_eq!(offer.commands_title, "Manual commands");
    assert!(offer.body.contains("Debian/Ubuntu"));
}

#[test]
fn the_manual_command_is_the_automatic_one() {
    let target = LaunchTarget {
        appid: 7,
        client_dir: "/s".to_string(),
        compatdata_dir: "/c/7".to_string(),
        proton_dir: "/p".to_string(),
    };
    let command = winetricks_command(&target.prefix_dir());
    let args: Vec<String> = command
        .args
        .iter()
        .map(|arg| String::from_utf8(arg.clone()).unwrap())
        .collect();
    let typed = format!(
        "{}={} {} {}",
        command.env[0].0,
        command.env[0].1,
        command.program,
        args.join(" ")
    );
    for apt in [true, false] {
        let commands = manual_commands(&target, apt);
        assert_eq!(commands.lines().last(), Some(typed.as_str()));
    }
}
