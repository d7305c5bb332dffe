use steampunk::gamedata::{
    appdetails_url, cache_dir, cached_cover, cached_name, check_image_body, check_image_head,
    cover_cache_path, cover_step, details_of, guess_search_term, name_cache_path,
    parse_appdetails, percent_encode, pick_results, search_results, search_url, CoverStep,
    ImageError, SearchItem, StoreError, MAX_IMAGE_BYTES,
};

#[test]
fn strips_version_and_plus_count() {
    assert_eq!(
        guess_search_term("Grand Theft Auto V Enhanced v1.0.811 Plus 22 Trainer"),
        "Grand Theft Auto V Enhanced"
    );
    assert_eq!(
        guess_search_term("Crimson Desert v1.0-v1.16 Plus 12 Trainer"),
        "Crimson Desert"
    );
    assert_eq!(
        guess_search_term(
            "Grand Theft Auto San Andreas The Definitive Edition v1.0-v1.0.8.11827 Plus 49 Trainer"
        ),
        "Grand Theft Auto San Andreas The Definitive Edition"
    );
}

#[test]
fn bare_v_is_not_a_version_token() {
    assert_eq!(guess_search_term("Grand Theft Auto V"), "Grand Theft Auto V");
}

#[test]
fn no_match_returns_whole_stem() {
    assert_eq!(guess_search_term("Crimson Desert"), "Crimson Desert");
}

#[test]
fn strips_early_access() {
    assert_eq!(
        guess_search_term("Some Game Early Access v1.0 Plus 20 Trainer"),
        "Some Game"
    );
    assert_eq!(
        guess_search_term("Schedule I EARLY ACCESS v0.3.5f8 Plus 10 Trainer"),
        "Schedule I"
    );
}

#[test]
fn a_plain_stem_keeps_its_spacing() {
    assert_eq!(guess_search_term("Crimson  Desert "), "Crimson  Desert ");
    assert_eq!(guess_search_term(""), "");
    assert_eq!(guess_search_term("Early"), "Early");
    assert_eq!(guess_search_term("early accessories"), "early accessories");
}

#[test]
fn early_access_is_stripped_without_a_version() {
    assert_eq!(guess_search_term("Early Access  Some   Game"), "Some Game");
    assert_eq!(guess_search_term("early access"), "");
}

#[test]
fn one_pass_takes_out_each_pair_once() {
    assert_eq!(
        guess_search_term("early early access access"),
        "early access"
    );
}

#[test]
fn plus_cuts_in_any_case_and_only_as_a_whole_word() {
    assert_eq!(guess_search_term("Game PLUS 3"), "Game");
    assert_eq!(guess_search_term("Game Surplus 3"), "Game Surplus 3");
    assert_eq!(guess_search_term("v2 Game"), "");
    assert_eq!(guess_search_term("Game V9"), "Game");
    assert_eq!(guess_search_term("Game Vx"), "Game Vx");
}

#[test]
fn no_word_of_a_term_ends_a_title() {
    for stem in [
        "A v1 B",
        "A Plus B",
        "A B",
        "Early Access A v2 plus",
        "\u{3000}A\u{2003}v1",
    ] {
        let term = guess_search_term(stem);
        for word in term.split_whitespace() {
            assert!(!word.eq_ignore_ascii_case("plus"));
            assert!(!word.starts_with("v1") && !word.starts_with("v2"));
            assert!(stem.split_whitespace().any(|w| w == word));
        }
    }
}

#[test]
fn encodes_reserved_characters_and_passes_through_unreserved_ones() {
    assert_eq!(percent_encode("hello"), "hello");
    assert_eq!(percent_encode("hello world"), "hello%20world");
    assert_eq!(percent_encode("100%"), "100%25");
    assert_eq!(percent_encode(""), "");
    assert_eq!(percent_encode("a-b_c.d~e"), "a-b_c.d~e");
}

#[test]
fn encodes_the_bytes_of_other_characters() {
    assert_eq!(percent_encode("\u{e9}"), "%C3%A9");
    assert_eq!(percent_encode("AZaz09/+&"), "AZaz09%2F%2B%26");
    assert_eq!(percent_encode("\u{7f}\n"), "%7F%0A");
}

#[test]
fn encoding_is_undone_by_decoding() {
    let text = "Mount & Blade II: Bannerlord \u{2014} 100%";
    let encoded = percent_encode(text);
    let chars: Vec<char> = encoded.chars().collect();
    let mut bytes: Vec<u8> = Vec::new();
    let mut at = 0;
    while at < chars.len() {
        if chars[at] == '%' {
            let digits: String = chars[at + 1..at + 3].iter().collect();
            bytes.push(u8::from_str_radix(&digits, 16).unwrap());
            at += 3;
        } else {
            assert!(chars[at].is_ascii_alphanumeric() || "-_.~".contains(chars[at]));
            bytes.push(chars[at] as u8);
            at += 1;
        }
    }
    assert_eq!(bytes, text.as_bytes());
}

#[test]
fn a_blank_term_is_no_search() {
    assert_eq!(search_url(""), None);
    assert_eq!(search_url(" \t\u{a0}"), None);
    assert_eq!(
        search_url("  Schedule I "),
        Some(
            "https://store.steampowered.com/api/storesearch/?term=Schedule%20I&cc=us&l=en"
                .to_string()
        )
    );
}

fn item(id: Option<u64>, name: Option<&str>) -> SearchItem {
    SearchItem {
        id,
        name: name.map(|n| n.to_string()),
        tiny_image: None,
    }
}

#[test]
fn items_without_a_number_or_a_name_are_passed_over() {
    let picked = pick_results(&[
        item(None, Some("a")),
        item(Some(1), None),
        item(Some(2), Some("b")),
    ]);
    assert_eq!(picked.len(), 1);
    assert_eq!(picked[0].appid, 2);
    assert_eq!(picked[0].name, "b");
    assert_eq!(picked[0].thumbnail_url, None);
}

#[test]
fn no_more_than_eight_results_are_picked() {
    let items: Vec<SearchItem> = (0..20).map(|i| item(Some(i), Some("x"))).collect();
    let picked = pick_results(&items);
    let appids: Vec<u32> = picked.iter().map(|r| r.appid).collect();
    assert_eq!(appids, vec![0, 1, 2, 3, 4, 5, 6, 7]);
}

#[test]
fn a_number_beyond_32_bits_keeps_its_low_bits() {
    let picked = pick_results(&[item(Some(0x1_0000_0007), Some("x"))]);
    assert_eq!(picked[0].appid, 7);
}

#[test]
fn results_are_read_from_the_answer_of_the_store() {
    let body = br#"{"total":3,"items":[
        {"type":"app","name":"Schedule I","id":3164500,"tiny_image":"https://x/y.jpg"},
        {"name":"No number"},
        {"id":-5,"name":"Negative"},
        {"id":1.5,"name":"A fraction"},
        {"id":3.0,"name":"Not written as an integer"},
        {"id":1e3,"name":"Nor this"},
        {"id":7,"name":5},
        {"id":9,"name":"Nine","tiny_image":null},
        "nothing"
    ]}"#;
    let results = search_results(body).unwrap();
    assert_eq!(results.len(), 2);
    assert_eq!(results[0].appid, 3164500);
    assert_eq!(results[0].name, "Schedule I");
    assert_eq!(results[0].thumbnail_url.as_deref(), Some("https://x/y.jpg"));
    assert_eq!(results[1].appid, 9);
    assert_eq!(results[1].thumbnail_url, None);
}

#[test]
fn an_answer_without_items_has_no_results() {
    assert_eq!(search_results(b"{}").unwrap().len(), 0);
    assert_eq!(search_results(b"[]").unwrap().len(), 0);
    assert_eq!(search_results(br#"{"items":{"0":1}}"#).unwrap().len(), 0);
}

#[test]
fn an_answer_that_is_no_json_is_refused() {
    assert_eq!(
        search_results(b"<html>").err(),
        Some(StoreError::SearchUnreadable)
    );
    assert_eq!(
        StoreError::SearchUnreadable.message(),
        "parsing storesearch response as JSON"
    );
}

#[test]
fn details_are_read_for_the_appid_that_was_asked_for() {
    let body = br#"{"20":{"success":true,"data":{"name":"Team","header_image":"https://h"}},
        "30":{"data":{"name":"Day"}}}"#;
    let details = parse_appdetails(body, 20).unwrap();
    assert_eq!(details.name, "Team");
    assert_eq!(details.header_image.as_deref(), Some("https://h"));
    let details = parse_appdetails(body, 30).unwrap();
    assert_eq!(details.name, "Day");
    assert_eq!(details.header_image, None);
}

#[test]
fn details_without_a_name_are_an_error() {
    assert_eq!(
        parse_appdetails(br#"{"20":{"success":false}}"#, 20).err(),
        Some(StoreError::NoName(20))
    );
    assert_eq!(
        parse_appdetails(br#"{"20":{"data":{"name":7}}}"#, 20).err(),
        Some(StoreError::NoName(20))
    );
    assert_eq!(
        StoreError::NoName(20).message(),
        "appdetails response for AppID 20 has no data.name \u{2014} is the AppID valid?"
    );
    assert_eq!(
        details_of(5, None, Some("x".to_string())).err(),
        Some(StoreError::NoName(5))
    );
}

#[test]
fn details_that_are_no_json_are_refused() {
    assert_eq!(
        parse_appdetails(b"", 20).err(),
        Some(StoreError::DetailsUnreadable)
    );
    assert_eq!(
        StoreError::DetailsUnreadable.message(),
        "parsing appdetails response as JSON"
    );
}

#[test]
fn the_address_of_the_details_names_the_appid() {
    assert_eq!(
        appdetails_url(2852190),
        "https://store.steampowered.com/api/appdetails?appids=2852190"
    );
}

fn address(step: CoverStep) -> String {
    match step {
        CoverStep::Download(url) => url,
        CoverStep::Keep => "keep".to_string(),
        CoverStep::GiveUp => "give up".to_string(),
    }
}

#[test]
fn the_guesses_are_tried_before_the_address_of_the_store() {
    let header = Some("https://h/x.jpg");
    assert_eq!(
        address(cover_step(10, header, 0, false)),
        "https://cdn.akamai.steamstatic.com/steam/apps/10/library_600x338.jpg"
    );
    assert_eq!(
        address(cover_step(10, header, 1, false)),
        "https://cdn.akamai.steamstatic.com/steam/apps/10/header.jpg"
    );
    assert_eq!(address(cover_step(10, header, 2, false)), "https://h/x.jpg");
    assert_eq!(address(cover_step(10, header, 3, false)), "give up");
    assert_eq!(address(cover_step(10, None, 2, false)), "give up");
}

#[test]
fn the_first_cover_that_is_found_is_kept() {
    assert_eq!(address(cover_step(10, None, 1, true)), "keep");
    assert_eq!(address(cover_step(10, Some("h"), 2, true)), "keep");
}

#[test]
fn only_pictures_are_kept() {
    assert_eq!(check_image_head(Some(" Image/JPEG"), None), Ok(()));
    assert_eq!(
        check_image_head(Some("text/html"), None),
        Err(ImageError::NotAnImage)
    );
    assert_eq!(check_image_head(None, Some(1)), Err(ImageError::NotAnImage));
    assert_eq!(
        ImageError::NotAnImage.message("u"),
        "u did not return an image (wrong Content-Type)"
    );
}

#[test]
fn pictures_that_are_too_large_are_not_kept() {
    assert_eq!(MAX_IMAGE_BYTES, 5 * 1024 * 1024);
    assert_eq!(
        check_image_head(Some("image/png"), Some(5242880)),
        Ok(())
    );
    assert_eq!(
        check_image_head(Some("image/png"), Some(5242881)),
        Err(ImageError::TooLarge)
    );
    let bytes = vec![0u8; 5242881];
    assert_eq!(check_image_body(&bytes), Err(ImageError::TooLarge));
    assert_eq!(check_image_body(&bytes[1..]), Ok(()));
    assert_eq!(
        ImageError::TooLarge.message("u"),
        format!("u image is larger than {MAX_IMAGE_BYTES} bytes")
    );
}

#[test]
fn the_cache_lies_in_the_data_directory() {
    let home = Some("/home/a");
    assert_eq!(
        cache_dir(home).unwrap(),
        "/home/a/.local/share/steampunk/cache"
    );
    assert_eq!(
        name_cache_path(home, 7).unwrap(),
        "/home/a/.local/share/steampunk/cache/7.name.txt"
    );
    assert_eq!(
        cover_cache_path(home, 7).unwrap(),
        "/home/a/.local/share/steampunk/cache/7.jpg"
    );
    assert!(name_cache_path(None, 7).is_err());
}

#[test]
fn a_blank_cached_name_is_none() {
    assert_eq!(cached_name(None), None);
    assert_eq!(cached_name(Some(" \n")), None);
    assert_eq!(cached_name(Some("  A B\n")), Some("A B".to_string()));
}

#[test]
fn a_cover_is_cached_where_there_is_a_file() {
    assert_eq!(
        cached_cover(Some("/h"), 7, true),
        Some("/h/.local/share/steampunk/cache/7.jpg".to_string())
    );
    assert_eq!(cached_cover(Some("/h"), 7, false), None);
    assert_eq!(cached_cover(None, 7, true), None);
}
