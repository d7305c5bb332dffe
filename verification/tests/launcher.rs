use steampunk::dotnet::{
    dir_has_suffix_ci, dotnet_paths, dotnet_reg_export, dotnet_system_files, find_file_ci,
    install_name, is_wine_builtin_dll, parse_dotnet_release, DotnetProbe, DOTNET_462_RELEASE,
};
use steampunk::launcher::{
    dosdevices_dir, dotnet_status, find_proton_dir, find_proton_dir_from_config_info,
    find_running_appids, has_usable_dotnet, is_drive_letter, kill_args, launch_command,
    process_group_alive, proton_dir_from_config_line, proton_dir_from_wineserver_exe, reg_file,
    regedit_command, resolve_launch_target, running_games, stop_all, stop_first, stop_next,
    trainer_log_dirs, trainer_logs_dir, watch_pause_ms, watch_step, DotnetStatus, LaunchError,
    LaunchTarget, ProcessExe, StopStep, WatchEvent, WatchStep,
};
use steampunk::process::{appid_from_cmdline, split_zero_separated, Process, ProcessStat};
use steampunk::repair::{
    next_donor_step, repair_dotnet_from_sibling_prefix, replace_file, DonorStep, RepairStep,
    ReplaceStep, Unlinked,
};

#[test]
fn config_info_splits_on_files_marker_not_proton_substring() {
    assert_eq!(
        proton_dir_from_config_line(
            "/mnt/ProtonDrive/steamapps/common/Proton - Experimental/files/share/fonts/"
        ),
        Some("/mnt/ProtonDrive/steamapps/common/Proton - Experimental".to_string())
    );
    assert_eq!(proton_dir_from_config_line("/no/marker/here"), None);
}

#[test]
fn a_config_line_needs_something_before_the_marker() {
    assert_eq!(proton_dir_from_config_line("/files/x"), None);
    assert_eq!(
        proton_dir_from_config_line("/a/files/b/files/c"),
        Some("/a".to_string())
    );
}

#[test]
fn the_second_line_of_config_info_tells_the_build() {
    assert_eq!(
        find_proton_dir_from_config_info("10.0-1\r\n/p/GE/files/lib\r\nx"),
        Some("/p/GE".to_string())
    );
    assert_eq!(find_proton_dir_from_config_info("/p/GE/files/lib"), None);
}

#[test]
fn only_a_wineserver_below_files_tells_its_build() {
    assert_eq!(
        proton_dir_from_wineserver_exe("/p/GE/files/bin/wineserver"),
        Some("/p/GE".to_string())
    );
    assert_eq!(proton_dir_from_wineserver_exe("/usr/bin/wineserver"), None);
}

fn wineserver(exe: &str, compatdata: &str) -> ProcessExe {
    ProcessExe {
        name: "12".to_string(),
        exe: Some(exe.to_string()),
        environ: Some(format!("A=b\0STEAM_COMPAT_DATA_PATH={compatdata}\0").into_bytes()),
    }
}

#[test]
fn the_running_build_goes_before_config_info() {
    let processes = vec![
        wineserver("/usr/bin/wineserver", "/c/7"),
        wineserver("/p/Other/files/bin/wineserver", "/c/8"),
        wineserver("/p/GE/files/lib/wine/../../bin/wineserver", "/c/./7/"),
    ];
    let config = Some("x\n/p/Stale/files/y");
    assert_eq!(
        find_proton_dir("/c/7", &processes, config),
        Some("/p/GE".to_string())
    );
    assert_eq!(
        find_proton_dir("/c/9", &processes, config),
        Some("/p/Stale".to_string())
    );
    assert_eq!(find_proton_dir("/c/9", &processes, None), None);
}

#[test]
fn what_is_no_process_has_no_wineserver() {
    let mut process = wineserver("/p/GE/files/bin/wineserver", "/c/7");
    process.name = "self".to_string();
    assert_eq!(find_proton_dir("/c/7", &[process], None), None);
    let mut process = wineserver("/p/GE/files/bin/wineserver", "/c/7");
    process.environ = None;
    assert_eq!(find_proton_dir("/c/7", &[process], None), None);
    let mut process = wineserver("/p/GE/files/bin/wineserver", "/c/7");
    process.environ = Some(b"STEAM_COMPAT_DATA_PATH=/c/7\xff\0".to_vec());
    assert_eq!(find_proton_dir("/c/7", &[process], None), None);
}

const SAMPLE: &str = "WINE REGISTRY Version 2\n#arch=win64\n\n[Software\\\\Microsoft\\\\NET Framework Setup\\\\NDP\\\\v4\\\\Full] 1785895174\n#time=1dd247e0fdefec8\n\"Install\"=dword:00000001\n\"Release\"=dword:00080eb1\n\"Version\"=\"4.8.03761\"\n\n[Software\\\\Valve\\\\Steam] 123\n\"Unrelated\"=\"leave me alone\"\n";

#[test]
fn reg_export_selects_dotnet_keys_and_unescapes_them() {
    let out = dotnet_reg_export(SAMPLE);
    assert!(out.starts_with("Windows Registry Editor Version 5.00\n"));
    assert!(out.contains(
        r"[HKEY_LOCAL_MACHINE\Software\Microsoft\NET Framework Setup\NDP\v4\Full]"
    ));
    assert!(out.contains("\"Release\"=dword:00080eb1"));
}

#[test]
fn reg_export_drops_unrelated_keys_and_wine_metadata() {
    let out = dotnet_reg_export(SAMPLE);
    assert!(!out.contains("Unrelated"));
    assert!(!out.contains("Valve"));
    assert!(!out.contains("#time="));
    assert!(!out.contains("1785895174"));
}

#[test]
fn reg_export_is_exact() {
    assert_eq!(
        dotnet_reg_export(SAMPLE),
        "Windows Registry Editor Version 5.00\n\n[HKEY_LOCAL_MACHINE\\Software\\Microsoft\\NET Framework Setup\\NDP\\v4\\Full]\n\"Install\"=dword:00000001\n\"Release\"=dword:00080eb1\n\"Version\"=\"4.8.03761\"\n"
    );
    assert_eq!(
        dotnet_reg_export(""),
        "Windows Registry Editor Version 5.00\n"
    );
}

#[test]
fn reg_export_copies_values_that_go_on() {
    let reg = "[Software\\\\Microsoft\\\\.NETFramework] 1\n@=\"x\"\n\"Blob\"=hex:00,\\\n  01,\\\n  02\n  dropped\n[Software\\\\Microsoft\\\\.NETFrameworkX]\n\"no\"=1\n";
    assert_eq!(
        dotnet_reg_export(reg),
        "Windows Registry Editor Version 5.00\n\n[HKEY_LOCAL_MACHINE\\Software\\Microsoft\\.NETFramework]\n@=\"x\"\n\"Blob\"=hex:00,\\\n  01,\\\n  02\n"
    );
}

#[test]
fn release_is_read_from_the_v4_full_key() {
    assert_eq!(parse_dotnet_release(SAMPLE), Some(0x00080eb1));
    assert!(parse_dotnet_release(SAMPLE).is_some_and(|r| r >= DOTNET_462_RELEASE));
}

#[test]
fn the_release_line_is_carried_over() {
    let release = SAMPLE
        .lines()
        .find(|line| line.starts_with("\"Release\""))
        .unwrap();
    assert!(dotnet_reg_export(SAMPLE).contains(&format!("{release}\n")));
}

#[test]
fn appid_is_read_from_a_steam_game_cmdline() {
    let args = ["reaper", "SteamLaunch", "AppId=1547000", "--", "proton"];
    assert_eq!(appid_from_cmdline(&args), Some(1547000));
}

#[test]
fn appid_requires_the_steamlaunch_marker() {
    let args = ["grep", "AppId=1547000"];
    assert_eq!(appid_from_cmdline(&args), None);
}

#[test]
fn non_numeric_appid_is_ignored() {
    let args = ["reaper", "SteamLaunch", "AppId=notanumber"];
    assert_eq!(appid_from_cmdline(&args), None);
}

#[test]
fn release_is_absent_when_only_dotnet40_is_installed() {
    let dotnet40 = SAMPLE.replace("\"Release\"=dword:00080eb1\n", "");
    assert_eq!(parse_dotnet_release(&dotnet40), None);
}

#[test]
fn a_release_that_is_no_number_is_none() {
    let reg = "[Software\\\\Microsoft\\\\NET Framework Setup\\\\NDP\\\\v4\\\\Full]\n\"Release\"=dword:zz\n\"Release\"=dword:1\n";
    assert_eq!(parse_dotnet_release(reg), None);
    let elsewhere = "[Software\\\\Other]\n\"Release\"=dword:1\n";
    assert_eq!(parse_dotnet_release(elsewhere), None);
}

#[test]
fn the_first_number_behind_a_marker_counts() {
    let args = ["AppId=x", "AppId=5", "AppId=6", "SteamLaunch"];
    assert_eq!(appid_from_cmdline(&args), Some(5));
    let args = ["SteamLaunch", "AppId=4294967296"];
    assert_eq!(appid_from_cmdline(&args), None);
}

#[test]
fn command_lines_are_cut_at_zero_bytes() {
    assert_eq!(split_zero_separated(b"a\0\0b c\0\xff\0d"), vec!["a", "b c", "d"]);
}

fn process(name: &str, cmdline: &[u8]) -> Process {
    Process {
        name: name.to_string(),
        cmdline: Some(cmdline.to_vec()),
    }
}

#[test]
fn running_games_are_found_once_and_in_order() {
    let found = find_running_appids(
        &[
            process("10", b"reaper\0SteamLaunch\0AppId=30\0"),
            process("11", b"reaper\0SteamLaunch\0AppId=20\0"),
            process("12", b"proton\0SteamLaunch\0AppId=30\0"),
            process("13", b"self\0SteamLaunch\0AppId=40\0"),
            process("self", b"x\0SteamLaunch\0AppId=50\0"),
            Process {
                name: "14".to_string(),
                cmdline: None,
            },
        ],
        13,
    );
    assert_eq!(found, vec![20, 30]);
}

#[test]
fn a_game_without_a_name_is_shown_by_its_appid() {
    let games = running_games(&[(20, Some("Team".to_string())), (30, None)]);
    assert_eq!(games[0].appid, 20);
    assert_eq!(games[0].name, "Team");
    assert_eq!(games[1].appid, 30);
    assert_eq!(games[1].name, "AppId 30");
}

fn stat(name: &str, line: &str) -> ProcessStat {
    ProcessStat {
        name: name.to_string(),
        stat: Some(line.to_string()),
    }
}

#[test]
fn a_group_lives_while_a_process_of_it_does() {
    let processes = [
        stat("5", "5 (a) b) S 1 77 77 0"),
        stat("6", "6 (x) Z 1 88 88 0"),
        stat("x", "7 (x) S 1 99 99 0"),
        stat("8", "no parenthesis"),
    ];
    assert!(process_group_alive(&processes, 77));
    assert!(!process_group_alive(&processes, 88));
    assert!(!process_group_alive(&processes, 99));
    assert!(!process_group_alive(&[], 1));
}

fn target() -> LaunchTarget {
    LaunchTarget {
        appid: 7,
        client_dir: "/steam".to_string(),
        compatdata_dir: "/lib/compatdata/7".to_string(),
        proton_dir: "/p/GE".to_string(),
    }
}

#[test]
fn a_target_needs_all_three_directories() {
    let some = |s: &str| Some(s.to_string());
    let found = resolve_launch_target(7, some("/s"), some("/c"), some("/p")).unwrap();
    assert_eq!(found.appid, 7);
    assert_eq!(found.client_dir, "/s");
    assert_eq!(found.compatdata_dir, "/c");
    assert_eq!(found.proton_dir, "/p");
    assert_eq!(found.prefix_dir(), "/c/pfx");
    let message = |r: Result<LaunchTarget, LaunchError>| r.err().unwrap().message();
    assert_eq!(
        message(resolve_launch_target(7, None, None, None)),
        "Could not find a Steam installation."
    );
    assert_eq!(
        message(resolve_launch_target(7, some("/s"), None, None)),
        "Could not find compatdata for AppId 7."
    );
    assert_eq!(
        message(resolve_launch_target(7, some("/s"), some("/c"), None)),
        "Could not determine which Proton build the game is currently running."
    );
}

#[test]
fn a_trainer_is_run_by_the_build_of_the_game() {
    let command = launch_command(&target(), b"/t/A \xff.exe");
    assert_eq!(command.program, "/p/GE/proton");
    assert_eq!(
        command.args,
        vec![b"runinprefix".to_vec(), b"/t/A \xff.exe".to_vec()]
    );
    assert_eq!(
        command.env,
        vec![
            (
                "STEAM_COMPAT_CLIENT_INSTALL_PATH".to_string(),
                "/steam".to_string()
            ),
            (
                "STEAM_COMPAT_DATA_PATH".to_string(),
                "/lib/compatdata/7".to_string()
            ),
        ]
    );
}

#[test]
fn regedit_reads_the_file_that_was_written() {
    let (dir, file) = reg_file(&target());
    assert_eq!(dir, "/lib/compatdata/7/pfx/drive_c/windows/temp");
    assert_eq!(file, format!("{dir}/steam-punk-dotnet.reg"));
    let command = regedit_command(&target());
    assert_eq!(command.program, "/p/GE/proton");
    assert_eq!(
        command.args,
        vec![
            b"runinprefix".to_vec(),
            b"regedit".to_vec(),
            b"/S".to_vec(),
            br"C:\windows\temp\steam-punk-dotnet.reg".to_vec(),
        ]
    );
    assert_eq!(command.env, launch_command(&target(), b"x").env);
}

#[test]
fn a_launch_is_watched_closely_for_two_seconds() {
    assert_eq!(watch_pause_ms(0), 200);
    assert_eq!(watch_pause_ms(9), 200);
    assert_eq!(watch_pause_ms(10), 1000);
    assert_eq!(watch_step(9, WatchEvent::Exited), WatchStep::ReportQuickExit);
    assert_eq!(watch_step(10, WatchEvent::Exited), WatchStep::ReportExit);
    assert_eq!(watch_step(8, WatchEvent::Running), WatchStep::KeepWatching);
    assert_eq!(
        watch_step(9, WatchEvent::Running),
        WatchStep::ReportStillRunning
    );
    assert_eq!(watch_step(10, WatchEvent::Running), WatchStep::KeepWatching);
    assert_eq!(watch_step(3, WatchEvent::Failed), WatchStep::ReportFailure);
}

#[test]
fn a_group_is_killed_when_it_outlives_ten_looks() {
    let mut steps = 0;
    let mut looks = 0;
    let mut step = stop_first();
    assert_eq!(step, StopStep::Terminate);
    while step != StopStep::Kill {
        if let StopStep::Poll(_) = step {
            looks += 1;
        }
        step = stop_next(step, true);
        steps += 1;
        assert!(steps < 50);
    }
    assert_eq!(looks, 10);
    assert_eq!(stop_next(step, true), StopStep::Done);
}

#[test]
fn a_group_that_ends_is_not_killed() {
    let step = stop_next(stop_first(), true);
    assert_eq!(stop_next(step, false), StopStep::Done);
    assert_eq!(
        kill_args(false, 42),
        ("-TERM".to_string(), "-42".to_string())
    );
    assert_eq!(
        kill_args(true, 42),
        ("-KILL".to_string(), "-42".to_string())
    );
}

#[test]
fn neither_no_group_nor_the_first_is_ever_stopped() {
    assert_eq!(stop_all(&[0, 1, 2, 70, 1]), vec![2, 70]);
}

#[test]
fn drive_letters_are_told_from_ports() {
    assert!(is_drive_letter(Some("c:")));
    assert!(!is_drive_letter(Some("com1")));
    assert!(!is_drive_letter(Some("\u{e9}:")));
    assert!(!is_drive_letter(Some("::x")));
    assert!(!is_drive_letter(None));
    assert_eq!(
        dosdevices_dir(&target()),
        "/lib/compatdata/7/pfx/dosdevices"
    );
}

#[test]
fn all_directories_of_trainer_logs_are_offered() {
    assert_eq!(trainer_log_dirs(&[true, false, true]), vec![0, 2]);
    assert_eq!(
        trainer_logs_dir(&target()),
        "/lib/compatdata/7/pfx/drive_c/users/steamuser/AppData/Local/FLiNGTrainer/trainer-logs"
    );
}

fn names(list: &[&str]) -> Vec<Option<String>> {
    list.iter().map(|n| Some(n.to_string())).collect()
}

fn working_probe() -> DotnetProbe {
    DotnetProbe {
        clr_is_file: true,
        mscoree_is_file: true,
        mscoree_head: Some(b"MZ native".to_vec()),
        system32_names: Some(names(&["kernel32.dll", "VCRUNTIME140_CLR0400.dll"])),
        system_reg: Some(SAMPLE.to_string()),
    }
}

#[test]
fn a_prefix_that_lacks_any_piece_is_not_usable() {
    assert!(has_usable_dotnet(&working_probe()));
    let mut probe = working_probe();
    probe.clr_is_file = false;
    assert!(!has_usable_dotnet(&probe));
    let mut probe = working_probe();
    probe.mscoree_is_file = false;
    assert!(!has_usable_dotnet(&probe));
    let mut probe = working_probe();
    probe.mscoree_head = Some(b"MZ....Wine builtin DLL....".to_vec());
    assert!(!has_usable_dotnet(&probe));
    let mut probe = working_probe();
    probe.system32_names = None;
    assert!(!has_usable_dotnet(&probe));
    let mut probe = working_probe();
    probe.system_reg = None;
    assert!(!has_usable_dotnet(&probe));
    let status = dotnet_status(&probe);
    assert!(status.clr_present && status.mscoree_native && status.crt_present);
    assert_eq!(status.release, None);
}

#[test]
fn the_release_has_to_be_that_of_4_6_2_at_least() {
    let status = |release| DotnetStatus {
        clr_present: true,
        mscoree_native: true,
        crt_present: true,
        release,
    };
    assert!(status(Some(394802)).is_usable());
    assert!(!status(Some(394801)).is_usable());
    assert!(!status(None).is_usable());
}

#[test]
fn the_mark_of_wine_counts_in_the_first_kilobyte_only() {
    let mut bytes = vec![0u8; 1008];
    bytes.extend_from_slice(b"Wine builtin DLL");
    assert!(is_wine_builtin_dll(Some(&bytes)));
    bytes.insert(0, 0);
    assert!(!is_wine_builtin_dll(Some(&bytes)));
    assert!(!is_wine_builtin_dll(None));
}

#[test]
fn files_are_found_in_any_case() {
    let list = names(&["A.DLL", "mscoree.dll", "x_CLR0400.DLL"]);
    assert_eq!(find_file_ci(&list, "a.dll"), Some(0));
    assert_eq!(find_file_ci(&list, "b.dll"), None);
    assert!(dir_has_suffix_ci(&list, "_clr0400.dll"));
    assert_eq!(dotnet_system_files(&list), vec![1, 2]);
    let mut odd = list;
    odd[1] = None;
    assert_eq!(dotnet_system_files(&odd), vec![2]);
}

#[test]
fn a_prefix_is_looked_at_in_four_places() {
    let found = dotnet_paths("/c/pfx");
    assert_eq!(
        found.clr,
        "/c/pfx/drive_c/windows/Microsoft.NET/Framework64/v4.0.30319/clr.dll"
    );
    assert_eq!(
        found.mscoree,
        "/c/pfx/drive_c/windows/system32/mscoree.dll"
    );
    assert_eq!(found.system32, "/c/pfx/drive_c/windows/system32");
    assert_eq!(found.system_reg, "/c/pfx/system.reg");
}

#[test]
fn the_donor_is_the_first_usable_sibling() {
    let beside: Vec<String> = ["/l/1", "/l/7/", "/l/./7", "/l/9"]
        .iter()
        .map(|s| s.to_string())
        .collect();
    let ours = "/l/7/pfx";
    assert_eq!(next_donor_step(ours, &beside, None), DonorStep::Probe(0));
    assert_eq!(
        next_donor_step(ours, &beside, Some((0, false))),
        DonorStep::Probe(3)
    );
    assert_eq!(
        next_donor_step(ours, &beside, Some((3, true))),
        DonorStep::Found(3)
    );
    assert_eq!(
        next_donor_step(ours, &beside, Some((3, false))),
        DonorStep::NoDonor
    );
    assert_eq!(next_donor_step(ours, &[], None), DonorStep::NoDonor);
}

#[test]
fn a_repair_moves_all_pieces() {
    let steps: Vec<String> = repair_dotnet_from_sibling_prefix(&target(), "/d/pfx")
        .into_iter()
        .map(|step| match step {
            RepairStep::CloneTree { from, to } => format!("clone {from} {to}"),
            RepairStep::InstallLibraries { from, to } => format!("install {from} {to}"),
            RepairStep::ImportRegistry { from } => format!("import {from}"),
        })
        .collect();
    let ours = "/lib/compatdata/7/pfx/drive_c/windows";
    assert_eq!(
        steps,
        vec![
            format!("clone /d/pfx/drive_c/windows/Microsoft.NET {ours}/Microsoft.NET"),
            format!("clone /d/pfx/drive_c/windows/assembly {ours}/assembly"),
            format!("install /d/pfx/drive_c/windows/system32 {ours}/system32"),
            format!("install /d/pfx/drive_c/windows/syswow64 {ours}/syswow64"),
            "import /d/pfx/system.reg".to_string(),
        ]
    );
}

#[test]
fn a_place_that_cannot_be_cleared_is_not_written() {
    assert_eq!(replace_file(Unlinked::Removed), ReplaceStep::Copy);
    assert_eq!(replace_file(Unlinked::Absent), ReplaceStep::Copy);
    assert_eq!(replace_file(Unlinked::Failed), ReplaceStep::ReportBlocked);
}

#[test]
fn which_games_run_does_not_depend_on_the_listing() {
    let listing = || {
        vec![
            process("10", b"SteamLaunch\0AppId=3\0"),
            process("11", b"SteamLaunch\0AppId=1\0"),
            process("12", b"SteamLaunch\0AppId=2\0"),
        ]
    };
    let mut reversed = listing();
    reversed.reverse();
    reversed.extend(listing());
    assert_eq!(
        find_running_appids(&listing(), 1),
        find_running_appids(&reversed, 1)
    );
}

#[test]
fn a_trainer_joins_the_session_of_the_game() {
    let processes = vec![wineserver("/p/GE/files/bin/wineserver", "/c/7")];
    let proton = find_proton_dir("/c/7", &processes, Some("1\n/p/Stale/files/x"));
    let target =
        resolve_launch_target(7, Some("/s".to_string()), Some("/c/7".to_string()), proton).unwrap();
    let command = launch_command(&target, b"/t/x.exe");
    assert_eq!(command.program, "/p/GE/proton");
    assert_eq!(
        command.env[1],
        ("STEAM_COMPAT_DATA_PATH".to_string(), "/c/7".to_string())
    );
}

#[test]
fn a_library_is_installed_over_the_file_of_its_name() {
    let present = names(&["kernel32.dll", "MSCOREE.DLL", "mscoree.dll"]);
    assert_eq!(install_name(&present, "mscoree.dll"), "MSCOREE.DLL");
    assert_eq!(install_name(&present, "x_clr0400.dll"), "x_clr0400.dll");
    assert_eq!(install_name(&[None], "a.dll"), "a.dll");
}
