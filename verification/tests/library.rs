use steampunk::library::{
    data_dir, file_stem, import_paths, import_trainer, is_trainer_name, legacy_data_dir,
    list_trainers, meta_path, migrate_legacy_data_dir, remove_trainer, set_trainer_appid,
    trainers_dir, CachedGame, ImportEvent, ImportStep, MetaTable, Trainer, TrainerFile,
    TrainerMeta,
};

#[test]
fn everything_lies_below_the_home_directory() {
    let home = Some("/home/a");
    assert_eq!(data_dir(home).unwrap(), "/home/a/.local/share/steampunk");
    assert_eq!(
        trainers_dir(home).unwrap(),
        "/home/a/.local/share/steampunk/trainers"
    );
    assert_eq!(
        meta_path(home).unwrap(),
        "/home/a/.local/share/steampunk/trainers.json"
    );
    assert_eq!(
        legacy_data_dir(home).unwrap(),
        "/home/a/.local/share/proton-trainer"
    );
}

#[test]
fn without_a_home_directory_nothing_lies_anywhere() {
    assert_eq!(data_dir(None).err().unwrap().message(), "HOME not set");
    assert!(trainers_dir(None).is_err());
    assert!(meta_path(None).is_err());
    assert!(legacy_data_dir(None).is_err());
}

#[test]
fn a_data_directory_is_never_replaced() {
    assert!(migrate_legacy_data_dir(true, false));
    assert!(!migrate_legacy_data_dir(true, true));
    assert!(!migrate_legacy_data_dir(false, false));
}

#[test]
fn an_association_is_kept_until_the_trainer_is_removed() {
    let mut meta = MetaTable::new();
    assert_eq!(meta.get("a.exe"), None);
    set_trainer_appid(&mut meta, "a.exe", 1);
    set_trainer_appid(&mut meta, "b.exe", 2);
    set_trainer_appid(&mut meta, "a.exe", 3);
    assert_eq!(meta.len(), 2);
    assert_eq!(meta.get("a.exe"), Some(TrainerMeta { appid: Some(3) }));
    assert_eq!(meta.get("b.exe"), Some(TrainerMeta { appid: Some(2) }));
    assert!(remove_trainer(&mut meta, "a.exe"));
    assert!(!remove_trainer(&mut meta, "a.exe"));
    assert_eq!(meta.get("a.exe"), None);
    assert_eq!(meta.len(), 1);
    let (name, value) = meta.entry(0);
    assert_eq!(name, "b.exe");
    assert_eq!(value.appid, Some(2));
    meta.insert("c.exe", TrainerMeta { appid: None });
    assert_eq!(meta.get("c.exe"), Some(TrainerMeta { appid: None }));
}

#[test]
fn stems_and_extensions_are_those_of_std() {
    for name in [
        "a.exe", "a.EXE", "a.b.exe", ".exe", "a", "a.", "..", ".", "a.exe.txt", "\u{e9}.Exe",
        "..exe", "",
    ] {
        let path = std::path::Path::new(name);
        if path.file_name().is_none() {
            continue;
        }
        assert_eq!(file_stem(name), path.file_stem().unwrap().to_str().unwrap());
        assert_eq!(
            is_trainer_name(name),
            path.extension()
                .and_then(|e| e.to_str())
                .is_some_and(|e| e.eq_ignore_ascii_case("exe")),
            "{name}"
        );
    }
}

fn file(name: &str, is_file: bool) -> TrainerFile {
    TrainerFile {
        file_name: name.to_string(),
        path: format!("/t/{name}").into_bytes(),
        is_file,
    }
}

#[test]
fn trainers_are_listed_by_what_is_shown() {
    let mut meta = MetaTable::new();
    set_trainer_appid(&mut meta, "c.exe", 7);
    set_trainer_appid(&mut meta, "b.exe", 8);
    let cache = vec![CachedGame {
        appid: 7,
        name: Some("Aaa".to_string()),
        cover: Some("/c/7.jpg".to_string()),
    }];
    let files = vec![
        file("z.EXE", true),
        file("b.exe", true),
        file("c.exe", true),
        file("dir.exe", false),
        file("notes.txt", true),
    ];
    let trainers = list_trainers(&files, &meta, &cache);
    let shown: Vec<&str> = trainers.iter().map(|t| t.display_name()).collect();
    assert_eq!(shown, vec!["Aaa", "b", "z"]);
    assert_eq!(trainers[0].name, "c");
    assert_eq!(trainers[0].path, b"/t/c.exe".to_vec());
    assert_eq!(trainers[0].appid, Some(7));
    assert_eq!(trainers[0].cover_path.as_deref(), Some("/c/7.jpg"));
    assert_eq!(trainers[1].appid, Some(8));
    assert_eq!(trainers[1].game_name, None);
    assert_eq!(trainers[2].appid, None);
}

#[test]
fn trainers_that_are_shown_alike_keep_their_order() {
    let mut meta = MetaTable::new();
    let cache = vec![CachedGame {
        appid: 7,
        name: Some("Same".to_string()),
        cover: None,
    }];
    let mut files = Vec::new();
    for name in ["q.exe", "a.exe", "m.exe", "Aaa.exe", "zzz.exe"] {
        files.push(file(name, true));
    }
    for name in ["q.exe", "a.exe", "m.exe"] {
        set_trainer_appid(&mut meta, name, 7);
    }
    let trainers = list_trainers(&files, &meta, &cache);
    let names: Vec<&str> = trainers.iter().map(|t| t.name.as_str()).collect();
    assert_eq!(names, vec!["Aaa", "q", "a", "m", "zzz"]);
}

#[test]
fn a_trainer_shows_its_game_or_its_file() {
    let mut trainer = Trainer {
        name: "file".to_string(),
        path: Vec::new(),
        appid: None,
        game_name: None,
        cover_path: None,
    };
    assert_eq!(trainer.display_name(), "file");
    trainer.game_name = Some("Game".to_string());
    assert_eq!(trainer.display_name(), "Game");
}

#[test]
fn the_list_is_sorted_as_std_sorts_it() {
    let list = ["b", "B", "", "ab", "a", "\u{e9}", "\u{10000}", "\u{ffff}", "a b", "Z"];
    let files: Vec<TrainerFile> = list
        .iter()
        .filter(|n| !n.is_empty())
        .map(|n| file(&format!("{n}.exe"), true))
        .collect();
    let trainers = list_trainers(&files, &MetaTable::new(), &[]);
    let names: Vec<&str> = trainers.iter().map(|t| t.name.as_str()).collect();
    let mut expected: Vec<&str> = list.iter().copied().filter(|n| !n.is_empty()).collect();
    expected.sort();
    assert_eq!(names, expected);
}

#[test]
fn a_trainer_is_put_together_beside_its_place() {
    let paths = import_paths("/d/trainers", Some(b"a \xff.exe")).unwrap();
    assert_eq!(paths.dest, b"/d/trainers/a \xff.exe".to_vec());
    assert_eq!(paths.temporary, b"/d/trainers/a \xff.exe.tmp".to_vec());
    assert_eq!(
        import_paths("/d", None).err().unwrap().message(),
        "dropped file has no filename"
    );
}

#[test]
fn an_import_moves_a_finished_copy() {
    assert_eq!(
        import_trainer(ImportEvent::Compared { same: true }),
        ImportStep::Done
    );
    assert_eq!(
        import_trainer(ImportEvent::Compared { same: false }),
        ImportStep::Copy
    );
    assert_eq!(
        import_trainer(ImportEvent::Copied { succeeded: true }),
        ImportStep::Move
    );
    assert_eq!(
        import_trainer(ImportEvent::Copied { succeeded: false }),
        ImportStep::CleanUp
    );
    assert_eq!(
        import_trainer(ImportEvent::Moved { succeeded: true }),
        ImportStep::Done
    );
    assert_eq!(
        import_trainer(ImportEvent::Moved { succeeded: false }),
        ImportStep::CleanUp
    );
}

#[test]
fn trainers_of_one_game_show_one_name() {
    let mut meta = MetaTable::new();
    set_trainer_appid(&mut meta, "a.exe", 7);
    set_trainer_appid(&mut meta, "b.exe", 7);
    let cache = vec![
        CachedGame {
            appid: 6,
            name: Some("Six".to_string()),
            cover: None,
        },
        CachedGame {
            appid: 7,
            name: Some("Seven".to_string()),
            cover: Some("/c/7.jpg".to_string()),
        },
    ];
    let files = vec![file("a.exe", true), file("b.exe", true), file("c.exe", true)];
    let trainers = list_trainers(&files, &meta, &cache);
    assert_eq!(trainers[0].display_name(), "Seven");
    assert_eq!(trainers[1].display_name(), "Seven");
    assert_eq!(trainers[0].cover_path, trainers[1].cover_path);
    assert_eq!(trainers[2].display_name(), "c");
    assert_eq!(trainers[2].cover_path, None);
}
