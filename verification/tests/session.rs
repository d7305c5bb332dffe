use steampunk::gamedata::SearchResult;
use steampunk::launcher::RunningGame;
use steampunk::running::RunningTrainers;
use steampunk::session::{
    choose_game, game_answer, next_prompt, picked_game, prompt_step, search_reply, should_poll,
    GameChoice, PromptEvent, PromptStep, Retried, SearchReply,
};

fn games(appids: &[u32]) -> Vec<RunningGame> {
    appids
        .iter()
        .map(|&appid| RunningGame {
            appid,
            name: format!("Game {appid}"),
        })
        .collect()
}

#[test]
fn the_user_is_asked_where_several_games_run() {
    assert_eq!(choose_game(&games(&[])), GameChoice::NoGame);
    assert_eq!(choose_game(&games(&[5])), GameChoice::Take(5));
    assert_eq!(choose_game(&games(&[5, 6])), GameChoice::Ask);
}

#[test]
fn each_answer_picks_its_game() {
    let list = games(&[50, 60, 70]);
    for at in 0..3 {
        assert_eq!(picked_game(&game_answer(at), &list), Some(list[at].appid));
    }
    assert_eq!(picked_game("cancel", &list), None);
    assert_eq!(picked_game("3", &list), None);
    assert_eq!(picked_game("", &list), None);
    assert_eq!(picked_game("99999999999999999999999", &list), None);
}

#[test]
fn the_last_file_of_the_queue_is_asked_about_first() {
    let mut queue = vec![
        Some("First v1.0 Plus 2.exe".to_string()),
        Some("Second.exe".to_string()),
        None,
    ];
    let prompt = next_prompt(&mut queue).unwrap();
    assert_eq!(prompt.file_name, "Second.exe");
    assert_eq!(prompt.term, "Second");
    let prompt = next_prompt(&mut queue).unwrap();
    assert_eq!(prompt.file_name, "First v1.0 Plus 2.exe");
    assert_eq!(prompt.term, "First");
    assert!(next_prompt(&mut queue).is_none());
    assert!(queue.is_empty());
}

#[test]
fn the_add_button_takes_a_number_or_skips() {
    let add = |text: &str| prompt_step(&PromptEvent::Add(text.to_string()), Some(9));
    assert_eq!(add(" 620 "), PromptStep::Associate(620));
    assert_eq!(add("  "), PromptStep::SkipFile);
    assert_eq!(add("Portal"), PromptStep::SkipNoNumber);
    assert_eq!(add("4294967296"), PromptStep::SkipNoNumber);
}

#[test]
fn enter_takes_a_number_or_the_first_result() {
    let enter = |text: &str, top| prompt_step(&PromptEvent::Enter(text.to_string()), top);
    assert_eq!(enter("620", Some(9)), PromptStep::Associate(620));
    assert_eq!(enter("Portal", Some(9)), PromptStep::Associate(9));
    assert_eq!(enter("Portal", None), PromptStep::Stay);
    assert_eq!(
        prompt_step(&PromptEvent::Pick(3), None),
        PromptStep::Associate(3)
    );
    assert_eq!(
        prompt_step(&PromptEvent::Skip, Some(3)),
        PromptStep::SkipFile
    );
}

#[test]
fn a_late_answer_is_ignored() {
    let results = vec![
        SearchResult {
            appid: 4,
            name: "x".to_string(),
            thumbnail_url: None,
        },
        SearchResult {
            appid: 5,
            name: "y".to_string(),
            thumbnail_url: None,
        },
    ];
    assert_eq!(
        search_reply("ab", "a", Some(&results)),
        SearchReply::Ignore
    );
    assert_eq!(
        search_reply("a", "a", Some(&results)),
        SearchReply::Show(Some(4))
    );
    assert_eq!(search_reply("a", "a", Some(&[])), SearchReply::Show(None));
    assert_eq!(search_reply("a", "a", None), SearchReply::Show(None));
}

#[test]
fn one_look_at_a_time_and_none_for_nothing() {
    assert!(should_poll(false, 1));
    assert!(!should_poll(true, 1));
    assert!(!should_poll(false, 0));
}

#[test]
fn what_is_missing_is_fetched_once_more_in_a_session() {
    let mut retried = Retried::new();
    assert_eq!(retried.should_fetch(None, false, false), None);
    assert_eq!(retried.should_fetch(Some(7), true, true), None);
    assert_eq!(retried.should_fetch(Some(7), true, false), Some(7));
    assert_eq!(retried.should_fetch(Some(7), false, false), None);
    assert_eq!(retried.should_fetch(Some(8), false, true), Some(8));
}

#[test]
fn a_second_click_starts_nothing() {
    let mut running = RunningTrainers::new();
    assert!(running.begin_launch(b"a"));
    assert!(!running.begin_launch(b"a"));
    assert_eq!(running.get(b"a"), Some(0));
    assert_eq!(running.running_group(b"a"), None);
    running.record_launch(b"a", 50);
    assert!(!running.begin_launch(b"a"));
    assert_eq!(running.running_group(b"a"), Some(50));
}

#[test]
fn a_launch_that_leads_to_nothing_leaves_no_trace() {
    let mut running = RunningTrainers::new();
    running.begin_launch(b"a");
    running.settle_launch(b"a");
    assert_eq!(running.get(b"a"), None);
    running.begin_launch(b"a");
    running.record_launch(b"a", 50);
    running.settle_launch(b"a");
    assert_eq!(running.get(b"a"), Some(50));
}

#[test]
fn a_trainer_that_was_launched_anew_is_kept() {
    let mut running = RunningTrainers::new();
    running.record_launch(b"a", 50);
    running.record_launch(b"a", 60);
    assert!(!running.forget(b"a", 50));
    assert_eq!(running.get(b"a"), Some(60));
    assert!(running.forget(b"a", 60));
    assert_eq!(running.get(b"a"), None);
}

#[test]
fn groups_that_are_gone_are_forgotten() {
    let mut running = RunningTrainers::new();
    running.record_launch(b"a", 50);
    running.record_launch(b"b", 60);
    running.begin_launch(b"c");
    assert_eq!(
        running.groups(),
        vec![(b"a".to_vec(), 50), (b"b".to_vec(), 60)]
    );
    assert!(!running.forget_all(&[(b"a".to_vec(), 51), (b"x".to_vec(), 1)]));
    assert!(running.forget_all(&[(b"a".to_vec(), 50), (b"a".to_vec(), 50)]));
    assert_eq!(running.groups(), vec![(b"b".to_vec(), 60)]);
}

#[test]
fn stopping_all_keeps_what_is_under_way() {
    let mut running = RunningTrainers::new();
    running.record_launch(b"a", 50);
    running.begin_launch(b"b");
    running.record_launch(b"c", 70);
    running.stopped_all();
    assert_eq!(running.get(b"a"), None);
    assert_eq!(running.get(b"b"), Some(0));
    assert_eq!(running.get(b"c"), None);
    running.record_launch(b"b", 80);
    running.stopped(b"b");
    assert_eq!(running.get(b"b"), None);
    running.stopped(b"b");
    assert!(running.groups().is_empty());
}

#[test]
fn a_trainer_is_known_by_the_components_of_its_path() {
    let mut running = RunningTrainers::new();
    assert!(running.begin_launch(b"/a"));
    assert!(!running.begin_launch(b"//a"));
    assert!(!running.begin_launch(b"/./a/"));
    assert!(running.begin_launch(b"a"));
    assert!(running.begin_launch(b"./a"));
    running.record_launch(b"/a/", 50);
    assert_eq!(running.running_group(b"/a"), Some(50));
    assert_eq!(running.groups(), vec![(b"/a".to_vec(), 50)]);
    assert!(running.forget_all(&[(b"//a".to_vec(), 50)]));
    assert_eq!(running.get(b"/a"), None);
    assert_eq!(running.get(b"a"), Some(0));
}

#[test]
fn each_game_is_fetched_once_in_any_session() {
    let findings = [
        (Some(7), false, true),
        (Some(8), true, true),
        (None, false, false),
        (Some(7), true, false),
        (Some(9), false, false),
        (Some(8), true, false),
        (Some(8), false, false),
    ];
    let mut retried = Retried::new();
    let fetched: Vec<u32> = findings
        .iter()
        .filter_map(|&(appid, name, cover)| retried.should_fetch(appid, name, cover))
        .collect();
    assert_eq!(fetched, vec![7, 9, 8]);
}
