use tubefeeder::csv_file_manager::{
    action_for, keep_readable, readable_records, same_record, try_from_filter_event, try_from_playlist_event, try_from_subscription_event,
    CsvAction, CsvEvent, CsvFileManager, SubscriptionChange,
};

fn record(fields: &[&str]) -> Vec<String> {
    fields.iter().map(|f| f.to_string()).collect()
}

#[test]
fn new_loads_every_readable_record_in_order() {
    let bytes = b"youtube,abc\npeertube,https://tube.example,chan\nlbry,x\n";
    let (manager, records) = CsvFileManager::new("subscriptions.csv".to_string(), Some(&bytes[..]));
    assert_eq!(manager.path, "subscriptions.csv");
    assert_eq!(
        records,
        vec![
            record(&["youtube", "abc"]),
            record(&["peertube", "https://tube.example", "chan"]),
            record(&["lbry", "x"]),
        ]
    );
}

#[test]
fn new_without_a_file_loads_nothing() {
    let (_, records) = CsvFileManager::new("missing.csv".to_string(), None);
    assert!(records.is_empty());
}

#[test]
fn fill_skips_a_record_that_is_not_utf8() {
    let bytes: Vec<u8> = b"a,b\n\xff\xfe,c\nd\n".to_vec();
    let manager = CsvFileManager { path: "f.csv".to_string() };
    let records = manager.fill(Some(&bytes[..]));
    assert_eq!(records, vec![record(&["a", "b"]), record(&["d"])]);
}

#[test]
fn fill_reads_quoted_fields() {
    let bytes = b"\"a,b\",\"say \"\"hi\"\"\"\n";
    let manager = CsvFileManager { path: "f.csv".to_string() };
    let records = manager.fill(Some(&bytes[..]));
    assert_eq!(records, vec![record(&["a,b", "say \"hi\""])]);
}

#[test]
fn add_of_a_new_record_appends_it() {
    let manager = CsvFileManager { path: "f.csv".to_string() };
    let bytes = b"youtube,abc\n";
    let action = manager.notify(CsvEvent::Add(record(&["youtube", "def"])), Some(&bytes[..]));
    match action {
        CsvAction::Append(b) => assert_eq!(b, b"youtube,def\n".to_vec()),
        _ => panic!("expected an append"),
    }
}

#[test]
fn add_quotes_fields_that_need_it() {
    let manager = CsvFileManager { path: "f.csv".to_string() };
    let action = manager.notify(CsvEvent::Add(record(&["a,b", "c"])), Some(&b""[..]));
    match action {
        CsvAction::Append(b) => assert_eq!(b, b"\"a,b\",c\n".to_vec()),
        _ => panic!("expected an append"),
    }
}

#[test]
fn add_of_a_present_record_keeps_the_file() {
    let manager = CsvFileManager { path: "f.csv".to_string() };
    let bytes = b"youtube,abc\npeertube,u,n\n";
    let action = manager.notify(CsvEvent::Add(record(&["peertube", "u", "n"])), Some(&bytes[..]));
    assert!(matches!(action, CsvAction::Keep));
}

#[test]
fn add_twice_appends_once() {
    let manager = CsvFileManager { path: "f.csv".to_string() };
    let mut file: Vec<u8> = b"youtube,abc\n".to_vec();
    for _ in 0..2 {
        match manager.notify(CsvEvent::Add(record(&["youtube", "new"])), Some(&file[..])) {
            CsvAction::Append(mut b) => file.append(&mut b),
            CsvAction::Keep => {}
            CsvAction::Rewrite(_) => panic!("no rewrite on add"),
        }
    }
    assert_eq!(file, b"youtube,abc\nyoutube,new\n".to_vec());
}

#[test]
fn remove_rewrites_the_other_records() {
    let manager = CsvFileManager { path: "f.csv".to_string() };
    let bytes = b"a,1\nb,2\na,1\nc\n";
    let action = manager.notify(CsvEvent::Remove(record(&["a", "1"])), Some(&bytes[..]));
    match action {
        CsvAction::Rewrite(b) => assert_eq!(b, b"b,2\nc\n".to_vec()),
        _ => panic!("expected a rewrite"),
    }
}

#[test]
fn remove_twice_is_remove_once() {
    let manager = CsvFileManager { path: "f.csv".to_string() };
    let mut file: Vec<u8> = b"a,1\nb,2\n".to_vec();
    let mut results = Vec::new();
    for _ in 0..2 {
        match manager.notify(CsvEvent::Remove(record(&["b", "2"])), Some(&file[..])) {
            CsvAction::Rewrite(b) => {
                file = b;
                results.push(file.clone());
            }
            _ => panic!("expected a rewrite"),
        }
    }
    assert_eq!(results[0], b"a,1\n".to_vec());
    assert_eq!(results[0], results[1]);
}

#[test]
fn remove_after_add_gives_the_file_back() {
    let manager = CsvFileManager { path: "f.csv".to_string() };
    let original: Vec<u8> = b"a,1\nb,2\n".to_vec();
    let mut file = original.clone();
    if let CsvAction::Append(mut b) = manager.notify(CsvEvent::Add(record(&["z", "9"])), Some(&file[..])) {
        file.append(&mut b);
    }
    if let CsvAction::Rewrite(b) = manager.notify(CsvEvent::Remove(record(&["z", "9"])), Some(&file[..])) {
        file = b;
    }
    assert_eq!(file, original);
}

#[test]
fn events_on_a_file_that_cannot_be_opened_keep_it() {
    let manager = CsvFileManager { path: "f.csv".to_string() };
    assert!(matches!(manager.notify(CsvEvent::Add(record(&["a"])), None), CsvAction::Keep));
    assert!(matches!(manager.notify(CsvEvent::Remove(record(&["a"])), None), CsvAction::Keep));
}

#[test]
fn same_record_compares_fields() {
    assert!(same_record(&record(&["a", "b"]), &record(&["a", "b"])));
    assert!(!same_record(&record(&["a", "b"]), &record(&["a"])));
    assert!(!same_record(&record(&["a", "b"]), &record(&["a", "c"])));
}

#[test]
fn playlist_and_filter_events_keep_their_kind() {
    match try_from_playlist_event(tf_playlist::PlaylistEvent::Add(7u32)) {
        CsvEvent::Add(7) => {}
        _ => panic!("expected Add(7)"),
    }
    match try_from_playlist_event(tf_playlist::PlaylistEvent::Remove(8u32)) {
        CsvEvent::Remove(8) => {}
        _ => panic!("expected Remove(8)"),
    }
    match try_from_filter_event(tf_filter::FilterEvent::Remove("f")) {
        CsvEvent::Remove("f") => {}
        _ => panic!("expected Remove"),
    }
    match try_from_filter_event(tf_filter::FilterEvent::Add("g")) {
        CsvEvent::Add("g") => {}
        _ => panic!("expected Add"),
    }
}

#[test]
fn an_updated_subscription_is_written_as_added() {
    let sub: tf_join::AnySubscription =
        std::convert::TryFrom::try_from(record(&["youtube", "abc"])).unwrap();
    match try_from_subscription_event(tf_join::SubscriptionEvent::Update(sub.clone())) {
        CsvEvent::Add(s) => assert_eq!(s, sub),
        _ => panic!("expected Add"),
    }
    match try_from_subscription_event(tf_join::SubscriptionEvent::Remove(sub.clone())) {
        CsvEvent::Remove(s) => assert_eq!(s, sub),
        _ => panic!("expected Remove"),
    }
    match CsvEvent::from_subscription_change(SubscriptionChange::Update(3)) {
        CsvEvent::Add(3) => {}
        _ => panic!("expected Add(3)"),
    }
}

#[test]
fn an_added_record_is_read_back() {
    let manager = CsvFileManager { path: "f.csv".to_string() };
    let mut file: Vec<u8> = b"youtube,abc\n".to_vec();
    let new = record(&["peertube", "https://t.example/a,b", "say \"x\""]);
    if let CsvAction::Append(mut b) = manager.notify(CsvEvent::Add(new.clone()), Some(&file[..])) {
        file.append(&mut b);
    }
    let records = manager.fill(Some(&file[..]));
    assert_eq!(records, vec![record(&["youtube", "abc"]), new]);
}

#[test]
fn keep_readable_drops_unreadable_records() {
    let parsed = vec![Some(record(&["a", "1"])), None, Some(record(&["b"])), None];
    assert_eq!(keep_readable(parsed), vec![record(&["a", "1"]), record(&["b"])]);
    assert!(keep_readable(Vec::new()).is_empty());
}

#[test]
fn readable_records_reads_quoted_fields() {
    let bytes = b"\"a,b\",\"say \"\"hi\"\"\"\nc\n";
    assert_eq!(readable_records(&bytes[..]), vec![record(&["a,b", "say \"hi\""]), record(&["c"])]);
}

#[test]
fn action_for_decides_on_the_records_read() {
    let records = vec![record(&["a", "1"]), record(&["b", "2"]), record(&["a", "1"])];
    assert!(matches!(action_for(&records, CsvEvent::Add(record(&["b", "2"]))), CsvAction::Keep));
    match action_for(&records, CsvEvent::Add(record(&["c", "3"]))) {
        CsvAction::Append(b) => assert_eq!(b, b"c,3\n".to_vec()),
        _ => panic!("expected an append"),
    }
    match action_for(&records, CsvEvent::Remove(record(&["a", "1"]))) {
        CsvAction::Rewrite(b) => assert_eq!(b, b"b,2\n".to_vec()),
        _ => panic!("expected a rewrite"),
    }
    match action_for(&records, CsvEvent::Remove(record(&["z"]))) {
        CsvAction::Rewrite(b) => assert_eq!(b, b"a,1\nb,2\na,1\n".to_vec()),
        _ => panic!("expected a rewrite"),
    }
}

#[test]
fn records_are_written_as_the_csv_crate_writes_them() {
    let cases: Vec<(Vec<String>, &[u8])> = vec![
        (record(&["a,b", "say \"hi\"", ""]), b"\"a,b\",\"say \"\"hi\"\"\",\n"),
        (record(&["line\nbreak", "cr\r"]), b"\"line\nbreak\",\"cr\r\"\n"),
        (record(&[""]), b"\"\"\n"),
        (Vec::new(), b"\"\"\n"),
        (record(&["", ""]), b",\n"),
        (record(&["\u{e9}t\u{e9}"]), "\u{e9}t\u{e9}\n".as_bytes()),
    ];
    for (fields, expected) in cases {
        match action_for(&Vec::new(), CsvEvent::Add(fields.clone())) {
            CsvAction::Append(b) => assert_eq!(b, expected.to_vec(), "record {:?}", fields),
            _ => panic!("expected an append"),
        }
    }
}
