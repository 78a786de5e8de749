use tubefeeder::csv_file_manager::SubscriptionChange;
use tubefeeder::filter::handle_add_filter;
use tubefeeder::import::{handle_response, ImportSource};
use tubefeeder::preferences::{
    handle_selection, predefined_piped_apis, predefined_players, selection_for, setting_locked,
};
use tubefeeder::subscription::{
    add_subscription_request, compare_names, handle_found_subscription, platforms,
    FoundSubscription,
    present_subscribe, subscribe_selection, ListUpdate, url_visible, NameOrder, PlatformKind,
    SubscriptionList, SubscriptionRequest,
};
use tubefeeder::utility::Utility;
use tubefeeder::video_info::{
    counter_text, format_description, thumbnail_file_bytes, thumbnail_file_name,
};

#[test]
fn utility_functions() {
    assert!(Utility::or(false, true));
    assert!(!Utility::or(false, false));
    assert!(Utility::not(false));
    assert!(Utility::is_empty(None));
    assert!(Utility::is_empty(Some(String::new())));
    assert!(!Utility::is_empty(Some("x".to_string())));
}

#[test]
fn subscription_list_operations() {
    let mut list = SubscriptionList::new();
    assert!(list.is_empty());
    list.set(vec![1, 2, 3]);
    list.add(4);
    assert_eq!(list.remove(2), Some(2));
    assert_eq!(list.remove(2), None);
    list.add(1);
    assert_eq!(list.update(1), vec![0, 2]);
    assert_eq!(list.remove(1), Some(0));
    assert!(!list.is_empty());
}

#[test]
fn names_compare_in_lower_case() {
    assert_eq!(compare_names(Some("Bob".to_string()), Some("alice".to_string())), NameOrder::Greater);
    assert_eq!(compare_names(Some("ABC".to_string()), Some("abc".to_string())), NameOrder::Equal);
    assert_eq!(compare_names(None, Some("a".to_string())), NameOrder::Less);
    assert_eq!(compare_names(Some("ab".to_string()), Some("abc".to_string())), NameOrder::Less);
    assert_eq!(compare_names(None, None), NameOrder::Equal);
}

#[test]
fn platforms_parse_without_case() {
    assert_eq!(present_subscribe("PEERTUBE"), (1, true));
    assert_eq!(present_subscribe("peerTube"), (1, true));
    assert_eq!(present_subscribe("youtube"), (0, false));
    assert_eq!(present_subscribe("vimeo"), (0, false));
    assert_eq!(present_subscribe("lbry"), (0, false));
    assert_eq!(platforms(), vec![PlatformKind::Youtube, PlatformKind::Peertube]);
}

#[test]
fn subscribe_dialog_opens_on_the_last_platform() {
    assert_eq!(present_subscribe("PeerTube"), (1, true));
    assert_eq!(present_subscribe("YouTube"), (0, false));
    assert_eq!(present_subscribe(""), (0, false));
    assert_eq!(subscribe_selection(Some(PlatformKind::Peertube)), (1, true));
    assert!(url_visible(Some(PlatformKind::Peertube)));
    assert!(!url_visible(Some(PlatformKind::Youtube)));
    assert!(!url_visible(None));
}

#[test]
fn add_subscription_request_by_platform() {
    match add_subscription_request(Some("add"), PlatformKind::Youtube, "u".into(), "chan".into()) {
        Some((label, SubscriptionRequest::Search { name })) => {
            assert_eq!(label, "YouTube");
            assert_eq!(name, "chan");
        }
        _ => panic!("expected a search"),
    }
    match add_subscription_request(Some("add"), PlatformKind::Peertube, "https://t".into(), "c".into()) {
        Some((label, SubscriptionRequest::Peertube { url, name })) => {
            assert_eq!(label, "PeerTube");
            assert_eq!(url, "https://t");
            assert_eq!(name, "c");
        }
        _ => panic!("expected a PeerTube request"),
    }
    assert!(add_subscription_request(Some("cancel"), PlatformKind::Youtube, "".into(), "c".into()).is_none());
    assert!(add_subscription_request(None, PlatformKind::Youtube, "".into(), "c".into()).is_none());
}

#[test]
fn add_filter_compiles_the_patterns() {
    let f = handle_add_filter(Some("add"), "^Live", "").expect("a filter");
    assert!(f.title.as_ref().unwrap().regex().is_match("Live now"));
    assert_eq!(f.title.as_ref().unwrap().as_str(), "^Live");
    assert!(f.channel.is_none());
    let f = handle_add_filter(Some("add"), "", "News").expect("a filter");
    assert!(f.title.is_none());
    assert_eq!(f.channel.as_ref().unwrap().as_str(), "News");
    assert!(handle_add_filter(Some("add"), "foo(bar", "").is_none());
    assert!(handle_add_filter(Some("add"), "", "[").is_none());
    assert!(handle_add_filter(Some("close"), "a", "b").is_none());
    assert!(handle_add_filter(None, "a", "b").is_none());
}

#[test]
fn add_filter_keeps_each_pattern_in_its_place() {
    let f = handle_add_filter(Some("add"), "^Trailer", "Studio$").expect("a filter");
    let title = f.title.expect("a title pattern");
    let channel = f.channel.expect("a channel pattern");
    assert_eq!(title.as_str(), "^Trailer");
    assert_eq!(channel.as_str(), "Studio$");
    assert!(title.regex().is_match("Trailer 2"));
    assert!(!title.regex().is_match("Big Studio"));
    assert!(channel.regex().is_match("Big Studio"));
    assert!(!channel.into_regex().is_match("Trailer 2"));
    assert!(handle_add_filter(Some("add"), "^Trailer", "(").is_none());
    assert!(handle_add_filter(Some("add"), ")", "Studio$").is_none());
}

#[test]
fn subscription_list_follows_a_run_of_changes() {
    let mut list = SubscriptionList::new();
    list.set(vec![1, 2, 3]);
    assert!(matches!(list.apply(SubscriptionChange::Add(4)), ListUpdate::Inserted));
    assert!(matches!(list.apply(SubscriptionChange::Remove(2)), ListUpdate::Removed(Some(2))));
    match list.apply(SubscriptionChange::Update(1)) {
        ListUpdate::Refresh(positions) => assert_eq!(positions, vec![1]),
        _ => panic!("expected a refresh"),
    }
    assert!(matches!(list.apply(SubscriptionChange::Remove(9)), ListUpdate::Removed(None)));
    assert!(matches!(list.apply(SubscriptionChange::Remove(4)), ListUpdate::Removed(Some(0))));
    assert!(matches!(list.apply(SubscriptionChange::Remove(1)), ListUpdate::Removed(Some(0))));
    assert!(matches!(list.apply(SubscriptionChange::Remove(3)), ListUpdate::Removed(Some(0))));
    assert!(list.is_empty());
}

#[test]
fn found_subscription_is_added_or_reported() {
    assert!(matches!(handle_found_subscription(Some(7u64)), FoundSubscription::Add(7)));
    assert!(matches!(handle_found_subscription::<u64>(None), FoundSubscription::ShowError));
}

#[test]
fn ascii_names_compare_without_case() {
    assert_eq!(compare_names(Some("zeta".to_string()), Some("Alpha".to_string())), NameOrder::Greater);
    assert_eq!(compare_names(Some("MiXeD".to_string()), Some("mixed".to_string())), NameOrder::Equal);
    assert_eq!(compare_names(Some("B".to_string()), Some("a".to_string())), NameOrder::Greater);
}

#[test]
fn predefined_lists() {
    let players = predefined_players();
    assert_eq!(players.len(), 8);
    assert_eq!(players[1].name, "MPV");
    assert_eq!(players[1].value, "mpv");
    assert_eq!(players[7].value, "");
    let apis = predefined_piped_apis();
    assert_eq!(apis.len(), 5);
    assert_eq!(apis[0].value, "https://pipedapi.kavin.rocks");
}

#[test]
fn selection_follows_the_setting() {
    let players = predefined_players();
    assert_eq!(selection_for(&players, "mpv"), (1, true));
    assert_eq!(selection_for(&players, "livi --yt-dlp"), (6, true));
    assert_eq!(selection_for(&players, "my-player --x"), (7, false));
    assert_eq!(selection_for(&players, ""), (7, true));
    let apis = predefined_piped_apis();
    assert_eq!(selection_for(&apis, "https://piped-api.lunar.icu"), (3, true));
}

#[test]
fn selecting_a_choice() {
    assert_eq!(handle_selection("mpv"), (false, Some("mpv".to_string())));
    assert_eq!(handle_selection(""), (true, None));
}

#[test]
fn settings_locked_by_the_environment() {
    assert!(setting_locked(Some("vlc"), "mpv"));
    assert!(!setting_locked(Some("mpv"), "mpv"));
    assert!(!setting_locked(None, "mpv"));
}

#[test]
fn description_as_markup() {
    assert_eq!(format_description("a<br>b&nbsp;c & d"), "a\nbc &amp; d");
    assert_eq!(format_description("&amp;"), "&amp;amp;");
    assert_eq!(format_description(""), "");
}

#[test]
fn counters_as_text() {
    assert_eq!(counter_text(Some(1234)), Some("1234".to_string()));
    assert_eq!(counter_text(Some(0)), Some("0".to_string()));
    assert_eq!(counter_text(Some(u64::MAX)), Some(u64::MAX.to_string()));
    assert_eq!(counter_text(None), None);
}

#[test]
fn thumbnail_names() {
    assert_eq!(thumbnail_file_name("https://yt.be/v/a"), "https:__yt.be_v_a.jpeg");
    assert_eq!(thumbnail_file_name(""), ".jpeg");
}

#[test]
fn import_responses() {
    assert_eq!(handle_response("newpipe"), Some(ImportSource::NewPipe));
    assert_eq!(handle_response("youtube"), Some(ImportSource::Youtube));
    assert_eq!(handle_response("cancel"), None);
    assert_eq!(ImportSource::NewPipe.mime_type(), "application/json");
    assert_eq!(ImportSource::Youtube.mime_type(), "text/csv");
    assert_eq!(ImportSource::Youtube.chooser_title(), "Select YouTube subscription file");
}

#[test]
fn subscription_changes_follow_the_list() {
    let mut list = SubscriptionList::new();
    list.set(vec![5, 6]);
    assert!(matches!(list.apply(SubscriptionChange::Add(7)), ListUpdate::Inserted));
    match list.apply(SubscriptionChange::Update(6)) {
        ListUpdate::Refresh(p) => assert_eq!(p, vec![2]),
        _ => panic!("expected a refresh"),
    }
    match list.apply(SubscriptionChange::Remove(5)) {
        ListUpdate::Removed(Some(1)) => {}
        _ => panic!("expected the removal at 1"),
    }
    match list.apply(SubscriptionChange::Remove(5)) {
        ListUpdate::Removed(None) => {}
        _ => panic!("expected nothing to remove"),
    }
}

#[test]
fn name_order_is_antisymmetric() {
    let names = ["b", "B", "a", "ab", "", "Zed"];
    for x in names {
        for y in names {
            let xy = compare_names(Some(x.to_string()), Some(y.to_string()));
            let yx = compare_names(Some(y.to_string()), Some(x.to_string()));
            let expected = match xy {
                NameOrder::Less => NameOrder::Greater,
                NameOrder::Equal => NameOrder::Equal,
                NameOrder::Greater => NameOrder::Less,
            };
            assert_eq!(yx, expected);
            assert_eq!(xy == NameOrder::Equal, x.to_lowercase() == y.to_lowercase());
        }
    }
}

#[test]
fn thumbnails_are_cached_as_jpeg() {
    let picture = image::DynamicImage::ImageRgb8(image::RgbImage::from_pixel(
        3,
        2,
        image::Rgb([200, 30, 30]),
    ));
    let mut png = std::io::Cursor::new(Vec::new());
    picture.write_to(&mut png, image::ImageOutputFormat::Png).unwrap();
    let png = png.into_inner();
    let jpeg = thumbnail_file_bytes(Some(&png[..])).expect("a decodable image");
    assert_eq!(&jpeg[..2], &[0xFF, 0xD8]);
    assert_ne!(jpeg, png);
    let back = image::load_from_memory(&jpeg).unwrap();
    assert_eq!((back.width(), back.height()), (3, 2));
    assert!(thumbnail_file_bytes(Some(&b"not an image"[..])).is_none());
    assert!(thumbnail_file_bytes(None).is_none());
}
