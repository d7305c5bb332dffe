use steampunk::steam::{
    compatdata_dir, game_name, library_folders, manifest_path, values_of, CLIENT_DIRS,
};

const LIST: &str = "\"libraryfolders\"\n{\n\t\"0\"\n\t{\n\t\t\"path\"\t\t\"/home/a/.local/share/Steam\"\n\t\t\"label\"\t\t\"\"\n\t\t\"apps\"\n\t\t{\n\t\t\t\"228980\"\t\t\"1\"\n\t\t}\n\t}\n\t\"1\"\n\t{\n\t\t\"path\"\t\t\"/mnt/My \\\"Games\\\"\"\n\t}\n}\n";

#[test]
fn libraries_are_the_client_and_those_listed() {
    assert_eq!(
        library_folders("/s", Some(LIST)),
        vec!["/s", "/home/a/.local/share/Steam", "/mnt/My \"Games\""]
    );
    assert_eq!(library_folders("/s", None), vec!["/s"]);
    assert_eq!(CLIENT_DIRS.len(), 2);
}

#[test]
fn values_are_unquoted() {
    assert_eq!(values_of("\"a\" \"b\\\\c\"", "a"), vec!["b\\c"]);
    assert_eq!(values_of("  \"a\"\"\" \"x\"", "a"), vec![""]);
    assert!(values_of("\"a\" \"open", "a").is_empty());
    assert!(values_of("\"a\"", "a").is_empty());
    assert!(values_of("a \"a\" \"b\"", "a").is_empty());
}

#[test]
fn what_is_written_between_quotes_is_read_back() {
    for held in ["", "plain", "\"", "\\", "a\\\"b", "\\\\n"] {
        let escaped = held.replace('\\', "\\\\").replace('"', "\\\"");
        assert_eq!(
            values_of(&format!("\"k\" \"{escaped}\" \"more\""), "k"),
            vec![held]
        );
    }
}

#[test]
fn a_game_is_named_by_its_manifest() {
    let manifest = "\"AppState\"\n{\n\t\"appid\"\t\t\"20\"\n\t\"name\"\t\t\"Team Fortress\"\n\t\"name\"\t\t\"Other\"\n}\n";
    assert_eq!(game_name(manifest), Some("Team Fortress".to_string()));
    assert_eq!(game_name(""), None);
}

#[test]
fn a_game_lies_in_its_library() {
    assert_eq!(compatdata_dir("/s", 20), "/s/steamapps/compatdata/20");
    assert_eq!(
        manifest_path("/s", 20),
        "/s/steamapps/appmanifest_20.acf"
    );
}
