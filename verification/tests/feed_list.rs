use tubefeeder::feed::{
    sort_newest_first, watch_later_items, FeedChange, FeedEntry, FeedList, FeedUpdate, LOAD_COUNT,
};

fn entries(n: u64) -> Vec<FeedEntry> {
    (0..n).map(|i| FeedEntry { id: i, uploaded: 1000 - i as i64 }).collect()
}

#[test]
fn set_items_shows_the_first_batch() {
    let mut list = FeedList::new();
    assert!(list.is_empty());
    let shown = list.set_items(entries(25));
    assert_eq!(shown.len(), LOAD_COUNT);
    assert_eq!(shown[0].id, 0);
    assert!(list.more_available());
    assert!(!list.is_empty());
}

#[test]
fn more_shows_batches_until_all_are_shown() {
    let mut list = FeedList::new();
    list.set_items(entries(25));
    let second = list.more();
    assert_eq!(second.iter().map(|e| e.id).collect::<Vec<_>>(), (10..20).collect::<Vec<_>>());
    let third = list.more();
    assert_eq!(third.len(), 5);
    assert!(!list.more_available());
    assert!(list.more().is_empty());
}

#[test]
fn edge_reached_only_at_the_bottom() {
    let mut list = FeedList::new();
    list.set_items(entries(15));
    assert!(list.edge_reached(false).is_empty());
    assert_eq!(list.edge_reached(true).len(), 5);
}

#[test]
fn set_items_ordered_sorts_newest_first() {
    let mut list = FeedList::new();
    let items = vec![
        FeedEntry { id: 1, uploaded: 5 },
        FeedEntry { id: 2, uploaded: 9 },
        FeedEntry { id: 3, uploaded: 0 },
        FeedEntry { id: 4, uploaded: 7 },
    ];
    let shown = list.set_items_ordered(items);
    assert_eq!(shown.iter().map(|e| e.id).collect::<Vec<_>>(), vec![2, 4, 1, 3]);
}

#[test]
fn sort_keeps_every_entry() {
    let items = vec![
        FeedEntry { id: 1, uploaded: 3 },
        FeedEntry { id: 2, uploaded: 3 },
        FeedEntry { id: 3, uploaded: 8 },
    ];
    let sorted = sort_newest_first(&items);
    assert_eq!(sorted.len(), 3);
    assert_eq!(sorted[0].id, 3);
    let mut ids: Vec<u64> = sorted.iter().map(|e| e.id).collect();
    ids.sort();
    assert_eq!(ids, vec![1, 2, 3]);
}

#[test]
fn insert_ordered_time_places_by_upload_time() {
    let mut list = FeedList::new();
    list.set_items(entries(3)); // uploaded 1000, 999, 998
    let (idx, shown) = list.insert_ordered_time(FeedEntry { id: 50, uploaded: 999 });
    assert!(idx == 1 || idx == 2);
    assert!(shown);
    let (idx, shown) = list.insert_ordered_time(FeedEntry { id: 51, uploaded: 2000 });
    assert_eq!(idx, 0);
    assert!(shown);
    let (idx, _) = list.insert_ordered_time(FeedEntry { id: 52, uploaded: 1 });
    assert_eq!(idx, 5);
}

#[test]
fn insert_beyond_the_shown_ones_is_not_shown() {
    let mut list = FeedList::new();
    list.set_items(entries(20)); // 10 shown
    let (idx, shown) = list.insert_ordered_time(FeedEntry { id: 99, uploaded: 985 });
    assert_eq!(idx, 15);
    assert!(!shown);
}

#[test]
fn remove_takes_out_the_first_with_the_id() {
    let mut list = FeedList::new();
    list.set_items(entries(12));
    assert_eq!(list.remove(11), Some((11, false)));
    assert_eq!(list.remove(3), Some((3, true)));
    assert_eq!(list.remove(3), None);
    assert_eq!(list.remove(77), None);
}

#[test]
fn remove_undoes_insert() {
    let mut list = FeedList::new();
    list.set_items(entries(5));
    let (idx, _) = list.insert_ordered_time(FeedEntry { id: 100, uploaded: 997 });
    assert_eq!(list.remove(100), Some((idx, true)));
    let shown = list.set_items(entries(5));
    assert_eq!(shown.len(), 5);
}

#[test]
fn prepend_shows_the_entry_first() {
    let mut list = FeedList::new();
    list.set_items(entries(2));
    list.prepend(FeedEntry { id: 9, uploaded: 0 });
    assert_eq!(list.remove(9), Some((0, true)));
}

#[test]
fn watch_later_items_are_reversed() {
    let items = watch_later_items(entries(3));
    assert_eq!(items.iter().map(|e| e.id).collect::<Vec<_>>(), vec![2, 1, 0]);
}

#[test]
fn watch_later_changes_follow_the_playlist() {
    let mut list = FeedList::new();
    list.set_items(entries(3));
    match list.apply(FeedChange::Add(FeedEntry { id: 40, uploaded: 5000 })) {
        FeedUpdate::Inserted(0, true) => {}
        _ => panic!("expected the new video first"),
    }
    match list.apply(FeedChange::Remove(1)) {
        FeedUpdate::Removed(Some((2, true))) => {}
        _ => panic!("expected the removal at 2"),
    }
    match list.apply(FeedChange::Remove(1)) {
        FeedUpdate::Removed(None) => {}
        _ => panic!("expected nothing to remove"),
    }
}

#[test]
fn watch_later_stays_sorted_while_the_playlist_changes() {
    let playlist = vec![
        FeedEntry { id: 1, uploaded: 10 },
        FeedEntry { id: 2, uploaded: 30 },
        FeedEntry { id: 3, uploaded: 20 },
    ];
    let mut list = FeedList::new();
    let shown = list.set_items_ordered(watch_later_items(playlist));
    assert_eq!(shown.iter().map(|e| e.id).collect::<Vec<_>>(), vec![2, 3, 1]);
    match list.apply(FeedChange::Add(FeedEntry { id: 4, uploaded: 25 })) {
        FeedUpdate::Inserted(1, true) => {}
        _ => panic!("expected the new video between the two newest"),
    }
    match list.apply(FeedChange::Remove(3)) {
        FeedUpdate::Removed(Some((2, true))) => {}
        _ => panic!("expected the removal at 2"),
    }
    match list.apply(FeedChange::Add(FeedEntry { id: 5, uploaded: 5 })) {
        FeedUpdate::Inserted(3, true) => {}
        _ => panic!("expected the oldest video last"),
    }
    match list.apply(FeedChange::Remove(2)) {
        FeedUpdate::Removed(Some((0, true))) => {}
        _ => panic!("expected the newest video first"),
    }
}
