//! Keeps a list of records in a CSV file in step with the events of an
//! observable collection (subscriptions, filters, the watch-later list).
//!
//! The file is read and written by the caller; this module decides, from the
//! bytes that the file holds, which records to load and what to write back.
//! The CSV format itself is the `csv` crate's: files are read without headers
//! and with records of any length, and records are written one after another.
use vstd::prelude::*;

verus! {

/// A record of a CSV file, as its fields.
pub type RecordView = Seq<Seq<char>>;

/// What the `csv` crate reads from `bytes` (no headers, records of any
/// length): one entry per record, `None` for a record that it could not read.
pub uninterp spec fn csv_read(bytes: Seq<u8>) -> Seq<Option<RecordView>>;

/// Whether the `csv` crate writes a field in quotes: it does so where the
/// field holds the delimiter `,`, the quote `"` or a line break.
pub open spec fn csv_needs_quotes(field: Seq<char>) -> bool {
    field.contains(',') || field.contains('"') || field.contains('\r') || field.contains('\n')
}

/// A field with each quote doubled, as it stands between quotes.
pub open spec fn quotes_doubled(field: Seq<char>) -> Seq<char>
    decreases field.len(),
{
    if field.len() == 0 {
        Seq::empty()
    } else {
        quotes_doubled(field.drop_last()) + if field.last() == '"' {
            seq!['"', '"']
        } else {
            seq![field.last()]
        }
    }
}

/// How the `csv` crate writes a field: in quotes, with its quotes doubled,
/// where it needs them, else as it is.
pub open spec fn csv_field_text(field: Seq<char>) -> Seq<char> {
    if csv_needs_quotes(field) {
        seq!['"'] + quotes_doubled(field) + seq!['"']
    } else {
        field
    }
}

/// The fields of a record as the `csv` crate writes them, separated by `,`.
pub open spec fn csv_fields_text(record: RecordView) -> Seq<char>
    decreases record.len(),
{
    if record.len() == 0 {
        Seq::empty()
    } else if record.len() == 1 {
        csv_field_text(record[0])
    } else {
        csv_fields_text(record.drop_last()) + seq![','] + csv_field_text(record.last())
    }
}

/// The text that the `csv` crate writes for one record (no headers, records
/// of any length): its fields and the terminator `\n`; a record that would
/// write nothing before the terminator (no field, or one empty field) is
/// written as one empty quoted field, `""`.
pub open spec fn csv_record_text(record: RecordView) -> Seq<char> {
    let fields = csv_fields_text(record);
    if fields.len() == 0 {
        seq!['"', '"', '\n']
    } else {
        fields + seq!['\n']
    }
}

/// The bytes that the `csv` crate writes for one record: the UTF-8 encoding
/// of `csv_record_text`.
pub open spec fn csv_record_bytes(record: RecordView) -> Seq<u8> {
    vstd::utf8::encode_utf8(csv_record_text(record))
}

/// Reads all records of `bytes` with `csv::ReaderBuilder` (no headers,
/// flexible) and `into_records`. The contract only names the result: it is
/// `csv_read` of the bytes, a record that could not be read standing as `None`.
#[verifier::external_body]
fn read_records(bytes: &[u8]) -> (records: Vec<Option<Vec<String>>>)
    ensures
        records.deep_view() == csv_read(bytes@),
{
    let reader = csv::ReaderBuilder::new().has_headers(false).flexible(true).from_reader(bytes);
    reader
        .into_records()
        .map(|r| r.ok().map(|rec| rec.iter().map(|f| f.to_string()).collect()))
        .collect()
}

/// Writes one record with a fresh `csv::WriterBuilder` (no headers, flexible,
/// the default quoting, quote, delimiter and terminator) into memory and
/// returns the bytes: `csv_record_bytes` of the record's fields, as
/// `csv_core::Writer` writes them (it quotes a field holding a byte that
/// needs quotes, doubling its quotes, and writes `""` before the terminator
/// of a record that wrote no byte). Writing into a `Vec` does not fail.
#[verifier::external_body]
fn write_record(record: &Vec<String>) -> (bytes: Vec<u8>)
    ensures
        bytes@ == csv_record_bytes(record.deep_view()),
{
    let mut writer =
        csv::WriterBuilder::new().has_headers(false).flexible(true).from_writer(Vec::new());
    let _ = writer.write_record(record);
    match writer.into_inner() {
        Ok(bytes) => bytes,
        Err(_) => Vec::new(),
    }
}

/// The records of a read that the csv crate could read, in file order.
pub open spec fn readable(parsed: Seq<Option<RecordView>>) -> Seq<RecordView>
    decreases parsed.len(),
{
    if parsed.len() == 0 {
        Seq::empty()
    } else {
        let before = readable(parsed.drop_last());
        match parsed.last() {
            Some(record) => before.push(record),
            None => before,
        }
    }
}

/// Every record that the csv crate could read is kept, whatever its fields,
/// and nothing else is: one read record gives that record, one unreadable
/// record gives none.
pub proof fn lemma_readable_one(record: RecordView)
    ensures
        readable(seq![Some(record)]) == seq![record],
        readable(seq![None::<RecordView>]) == Seq::<RecordView>::empty(),
{
    let none: Seq<Option<RecordView>> = Seq::empty();
    assert(readable(none) == Seq::<RecordView>::empty());
    let one = seq![Some(record)];
    assert(one.drop_last() =~= none);
    assert(one.last() == Some(record));
    assert(readable(one) == readable(none).push(record));
    assert(Seq::<RecordView>::empty().push(record) =~= seq![record]);
    let unread = seq![None::<RecordView>];
    assert(unread.drop_last() =~= none);
    assert(unread.last() is None);
    assert(readable(unread) == readable(none));
}

/// The records kept of two runs of read results, one after the other, are
/// those kept of each run, one after the other: reading keeps the file's
/// order and treats each record on its own.
pub proof fn lemma_readable_concat(a: Seq<Option<RecordView>>, b: Seq<Option<RecordView>>)
    ensures
        readable(a + b) == readable(a) + readable(b),
    decreases b.len(),
{
    if b.len() == 0 {
        assert(a + b =~= a);
        assert(readable(a) + readable(b) =~= readable(a));
    } else {
        lemma_readable_concat(a, b.drop_last());
        assert((a + b).drop_last() =~= a + b.drop_last());
        assert((a + b).last() == b.last());
        match b.last() {
            Some(r) => {
                assert(readable(a) + readable(b.drop_last()).push(r) =~= (readable(a) + readable(
                    b.drop_last(),
                )).push(r));
            },
            None => {},
        }
    }
}

/// Each record that could be read is among the records kept, and each kept
/// record is one that was read.
pub proof fn lemma_readable_members(parsed: Seq<Option<RecordView>>)
    ensures
        forall|i: int|
            0 <= i < parsed.len() && #[trigger] parsed[i] is Some ==> readable(parsed).contains(
                parsed[i]->0,
            ),
        forall|r: RecordView| #[trigger] readable(parsed).contains(r) ==> parsed.contains(Some(r)),
        readable(parsed).len() <= parsed.len(),
    decreases parsed.len(),
{
    if parsed.len() > 0 {
        let rest = parsed.drop_last();
        lemma_readable_members(rest);
        let kept = readable(rest);
        assert forall|i: int| 0 <= i < parsed.len() && #[trigger] parsed[i] is Some implies readable(
            parsed,
        ).contains(parsed[i]->0) by {
            if i < parsed.len() - 1 {
                assert(parsed[i] == rest[i]);
                let k = choose|k: int| 0 <= k < kept.len() && kept[k] == rest[i]->0;
                assert(readable(parsed)[k] == kept[k]);
            } else {
                let r = parsed[i]->0;
                assert(readable(parsed) == kept.push(r));
                assert(readable(parsed)[kept.len() as int] == r);
            }
        }
        assert forall|r: RecordView| #[trigger] readable(parsed).contains(r) implies parsed.contains(
            Some(r),
        ) by {
            let k = choose|k: int| 0 <= k < readable(parsed).len() && readable(parsed)[k] == r;
            if k < kept.len() {
                match parsed.last() {
                    Some(x) => assert(readable(parsed)[k] == kept[k]),
                    None => {},
                }
                assert(kept.contains(r));
                let m = choose|m: int| 0 <= m < rest.len() && rest[m] == Some(r);
                assert(parsed[m] == Some(r));
            } else {
                assert(parsed[parsed.len() - 1] == Some(r));
            }
        }
    }
}

/// The records of a file's bytes that the csv crate could read, in file order.
pub open spec fn file_records(bytes: Seq<u8>) -> Seq<RecordView> {
    readable(csv_read(bytes))
}

/// The records after adding `record`: unchanged if it is there already,
/// else with `record` at the end.
pub open spec fn records_added(records: Seq<RecordView>, record: RecordView) -> Seq<RecordView> {
    if records.contains(record) {
        records
    } else {
        records.push(record)
    }
}

/// The records after removing `record`: every record equal to it leaves, the
/// others stay in their order.
pub open spec fn records_removed(records: Seq<RecordView>, record: RecordView) -> Seq<
    RecordView,
>
    decreases records.len(),
{
    if records.len() == 0 {
        Seq::empty()
    } else {
        let before = records_removed(records.drop_last(), record);
        if records.last() == record {
            before
        } else {
            before.push(records.last())
        }
    }
}

/// The bytes of a file that holds `records`, written one after another (a
/// writer with no headers and records of any length keeps no state from one
/// record to the next, so one writer gives the same bytes).
pub open spec fn records_bytes(records: Seq<RecordView>) -> Seq<u8>
    decreases records.len(),
{
    if records.len() == 0 {
        Seq::empty()
    } else {
        records_bytes(records.drop_last()) + csv_record_bytes(records.last())
    }
}

/// Adding a record leaves it among the records.
pub proof fn lemma_added_contains(records: Seq<RecordView>, record: RecordView)
    ensures
        records_added(records, record).contains(record),
{
    if !records.contains(record) {
        assert(records.push(record)[records.len() as int] == record);
    }
}

/// Adding the same record twice is adding it once.
pub proof fn lemma_add_idempotent(records: Seq<RecordView>, record: RecordView)
    ensures
        records_added(records_added(records, record), record) == records_added(records, record),
{
    lemma_added_contains(records, record);
}

/// Removing a record leaves no record equal to it, and keeps every other
/// record that was there.
pub proof fn lemma_removed_contains(records: Seq<RecordView>, record: RecordView, other: RecordView)
    ensures
        !records_removed(records, record).contains(record),
        other != record ==> (records_removed(records, record).contains(other)
            <==> records.contains(other)),
    decreases records.len(),
{
    if records.len() > 0 {
        let rest = records.drop_last();
        lemma_removed_contains(rest, record, other);
        let before = records_removed(rest, record);
        assert(records =~= rest.push(records.last()));
        if records.contains(other) {
            let k: int = choose|k: int| 0 <= k < records.len() && records[k] == other;
            if k < rest.len() {
                assert(rest[k] == other);
            }
        }
        if records.last() != record {
            assert(before.push(records.last())[before.len() as int] == records.last());
            if before.push(records.last()).contains(other) {
                let k: int = choose|k: int|
                    0 <= k < before.len() + 1 && before.push(records.last())[k] == other;
                if k < before.len() {
                    assert(before[k] == other);
                }
            }
            if rest.contains(other) {
                let k: int = choose|k: int| 0 <= k < rest.len() && rest[k] == other;
                assert(records[k] == other);
            }
            if before.contains(other) {
                let k: int = choose|k: int| 0 <= k < before.len() && before[k] == other;
                assert(before.push(records.last())[k] == other);
            }
        } else {
            if rest.contains(other) {
                let k: int = choose|k: int| 0 <= k < rest.len() && rest[k] == other;
                assert(records[k] == other);
            }
        }
    }
}

/// Removing a record that is not there changes nothing.
pub proof fn lemma_remove_absent(records: Seq<RecordView>, record: RecordView)
    requires
        !records.contains(record),
    ensures
        records_removed(records, record) == records,
    decreases records.len(),
{
    if records.len() > 0 {
        let rest = records.drop_last();
        if rest.contains(record) {
            let k: int = choose|k: int| 0 <= k < rest.len() && rest[k] == record;
            assert(records[k] == record);
        }
        lemma_remove_absent(rest, record);
        assert(records.last() != record);
        assert(rest.push(records.last()) =~= records);
    }
}

/// Removing the same record twice is removing it once.
pub proof fn lemma_remove_idempotent(records: Seq<RecordView>, record: RecordView)
    ensures
        records_removed(records_removed(records, record), record) == records_removed(
            records,
            record,
        ),
{
    lemma_removed_contains(records, record, record);
    lemma_remove_absent(records_removed(records, record), record);
}

/// Removing a record after adding it is removing it from the records as they
/// were.
pub proof fn lemma_remove_after_add(records: Seq<RecordView>, record: RecordView)
    ensures
        records_removed(records_added(records, record), record) == records_removed(
            records,
            record,
        ),
{
    if !records.contains(record) {
        let added = records.push(record);
        assert(added.drop_last() =~= records);
    }
}

/// Appending the bytes of a record that is not there gives the bytes of the
/// file written anew with the record added.
pub proof fn lemma_append_is_add(records: Seq<RecordView>, record: RecordView)
    requires
        !records.contains(record),
    ensures
        records_bytes(records_added(records, record)) == records_bytes(records) + csv_record_bytes(
            record,
        ),
{
    let added = records.push(record);
    assert(added.drop_last() =~= records);
}

/// An event that changes the records of a file.
pub enum CsvEvent<T> {
    Add(T),
    Remove(T),
}


/// A change of a subscription list, by kind.
pub enum SubscriptionChange<S> {
    Add(S),
    Remove(S),
    Update(S),
}

impl<T> CsvEvent<T> {
    /// The file event for a change of a subscription list: an updated
    /// subscription is written as an added one (so that it is in the file
    /// once), an added or removed one as itself.
    pub fn from_subscription_change(change: SubscriptionChange<T>) -> (event: CsvEvent<T>)
        ensures
            match change {
                SubscriptionChange::Add(s) => event == CsvEvent::Add(s),
                SubscriptionChange::Remove(s) => event == CsvEvent::Remove(s),
                SubscriptionChange::Update(s) => event == CsvEvent::Add(s),
            },
    {
        match change {
            SubscriptionChange::Add(s) => CsvEvent::Add(s),
            SubscriptionChange::Remove(s) => CsvEvent::Remove(s),
            SubscriptionChange::Update(s) => CsvEvent::Add(s),
        }
    }
}

// The events of the outside collections are declared with their variants,
// so that the conversions below are verified against them.
#[verifier::external_type_specification]
#[verifier::reject_recursive_types(T)]
pub struct ExPlaylistEvent<T>(tf_playlist::PlaylistEvent<T>);

#[verifier::external_type_specification]
#[verifier::reject_recursive_types(T)]
pub struct ExFilterEvent<T>(tf_filter::FilterEvent<T>);

#[verifier::external_type_specification]
pub struct ExSubscriptionEvent(tf_join::SubscriptionEvent);

#[verifier::external_type_specification]
#[verifier::external_body]
pub struct ExAnySubscription(tf_join::AnySubscription);

/// The file event for an event of a playlist: an added item is added to the
/// file, a removed one removed from it.
pub fn try_from_playlist_event<T>(event: tf_playlist::PlaylistEvent<T>) -> (res: CsvEvent<T>)
    ensures
        match event {
            tf_playlist::PlaylistEvent::Add(i) => res == CsvEvent::Add(i),
            tf_playlist::PlaylistEvent::Remove(i) => res == CsvEvent::Remove(i),
        },
{
    match event {
        tf_playlist::PlaylistEvent::Add(i) => CsvEvent::Add(i),
        tf_playlist::PlaylistEvent::Remove(i) => CsvEvent::Remove(i),
    }
}

/// The file event for an event of a filter group: an added filter is added
/// to the file, a removed one removed from it.
pub fn try_from_filter_event<T>(event: tf_filter::FilterEvent<T>) -> (res: CsvEvent<T>)
    ensures
        match event {
            tf_filter::FilterEvent::Add(i) => res == CsvEvent::Add(i),
            tf_filter::FilterEvent::Remove(i) => res == CsvEvent::Remove(i),
        },
{
    match event {
        tf_filter::FilterEvent::Add(i) => CsvEvent::Add(i),
        tf_filter::FilterEvent::Remove(i) => CsvEvent::Remove(i),
    }
}

/// The file event for an event of a subscription list: an added or updated
/// subscription is added to the file (so that it is there once), a removed
/// one removed from it (see `CsvEvent::from_subscription_change`).
pub fn try_from_subscription_event(event: tf_join::SubscriptionEvent) -> (res: CsvEvent<
    tf_join::AnySubscription,
>)
    ensures
        match event {
            tf_join::SubscriptionEvent::Add(s) => res == CsvEvent::Add(s),
            tf_join::SubscriptionEvent::Remove(s) => res == CsvEvent::Remove(s),
            tf_join::SubscriptionEvent::Update(s) => res == CsvEvent::Add(s),
        },
{
    let change = match event {
        tf_join::SubscriptionEvent::Add(s) => SubscriptionChange::Add(s),
        tf_join::SubscriptionEvent::Remove(s) => SubscriptionChange::Remove(s),
        tf_join::SubscriptionEvent::Update(s) => SubscriptionChange::Update(s),
    };
    CsvEvent::from_subscription_change(change)
}

/// What to do with a file after an event.
pub enum CsvAction {
    /// Leave the file as it is.
    Keep,
    /// Append these bytes at the end of the file (creating it if needed).
    Append(Vec<u8>),
    /// Replace the whole content of the file by these bytes.
    Rewrite(Vec<u8>),
}

/// A CSV file of records, named by its path.
pub struct CsvFileManager {
    pub path: String,
}

/// Whether two records have the same fields.
pub fn same_record(a: &Vec<String>, b: &Vec<String>) -> (same: bool)
    ensures
        same == (a.deep_view() == b.deep_view()),
{
    if a.len() != b.len() {
        assert(a.deep_view().len() != b.deep_view().len());
        return false;
    }
    let mut i: usize = 0;
    while i < a.len()
        invariant
            a.len() == b.len(),
            i <= a.len(),
            forall|j: int| 0 <= j < i ==> a@[j]@ == b@[j]@,
        decreases a.len() - i,
    {
        if a[i] != b[i] {
            assert(a.deep_view()[i as int] != b.deep_view()[i as int]);
            return false;
        }
        i = i + 1;
    }
    assert(a.deep_view() =~= b.deep_view());
    true
}

/// The records that the csv crate could read, in file order: every `Some`
/// of `parsed`.
pub fn keep_readable(parsed: Vec<Option<Vec<String>>>) -> (records: Vec<Vec<String>>)
    ensures
        records.deep_view() == readable(parsed.deep_view()),
{
    let ghost parsed_view = parsed.deep_view();
    let mut records: Vec<Vec<String>> = Vec::new();
    let mut i: usize = 0;
    while i < parsed.len()
        invariant
            parsed_view == parsed.deep_view(),
            i <= parsed.len(),
            records.deep_view() == readable(parsed_view.take(i as int)),
        decreases parsed.len() - i,
    {
        proof {
            assert(parsed_view.take(i + 1).drop_last() =~= parsed_view.take(i as int));
            assert(parsed_view.take(i + 1).last() == parsed_view[i as int]);
        }
        match &parsed[i] {
            Some(record) => {
                let ghost before = records.deep_view();
                records.push(record.clone());
                assert(records.deep_view() =~= before.push(record.deep_view()));
            },
            None => {},
        }
        i = i + 1;
    }
    assert(parsed_view.take(parsed.len() as int) =~= parsed_view);
    records
}

/// The records of `bytes` that could be read, in file order.
pub fn readable_records(bytes: &[u8]) -> (records: Vec<Vec<String>>)
    ensures
        records.deep_view() == file_records(bytes@),
{
    keep_readable(read_records(bytes))
}

/// Whether `record` is among `records`.
fn has_record(records: &Vec<Vec<String>>, record: &Vec<String>) -> (found: bool)
    ensures
        found == records.deep_view().contains(record.deep_view()),
{
    let mut i: usize = 0;
    while i < records.len()
        invariant
            i <= records.len(),
            forall|j: int| 0 <= j < i ==> records.deep_view()[j] != record.deep_view(),
        decreases records.len() - i,
    {
        if same_record(&records[i], record) {
            assert(records.deep_view()[i as int] == record.deep_view());
            return true;
        }
        i = i + 1;
    }
    false
}

/// The bytes of a file that holds `records`, and the records left after
/// removing `record`.
fn rewrite_without(records: &Vec<Vec<String>>, record: &Vec<String>) -> (bytes: Vec<u8>)
    ensures
        bytes@ == records_bytes(records_removed(records.deep_view(), record.deep_view())),
{
    let ghost all = records.deep_view();
    let ghost target = record.deep_view();
    let mut bytes: Vec<u8> = Vec::new();
    let mut i: usize = 0;
    while i < records.len()
        invariant
            all == records.deep_view(),
            target == record.deep_view(),
            i <= records.len(),
            bytes@ == records_bytes(records_removed(all.take(i as int), target)),
        decreases records.len() - i,
    {
        proof {
            assert(all.take(i + 1).drop_last() =~= all.take(i as int));
            assert(all.take(i + 1).last() == all[i as int]);
        }
        if !same_record(&records[i], record) {
            let mut more = write_record(&records[i]);
            let ghost kept = records_removed(all.take(i as int), target);
            proof {
                let next = kept.push(all[i as int]);
                assert(next.drop_last() =~= kept);
            }
            bytes.append(&mut more);
        }
        i = i + 1;
    }
    assert(all.take(records.len() as int) =~= all);
    bytes
}

impl CsvFileManager {
    /// Opens the manager of the file at `path` whose bytes are `contents`
    /// (`None` where the file could not be opened), with the records to load:
    /// every record that could be read, in file order.
    pub fn new(path: String, contents: Option<&[u8]>) -> (res: (CsvFileManager, Vec<Vec<String>>))
        ensures
            res.0.path@ == path@,
            res.1.deep_view() == (match contents {
                Some(bytes) => file_records(bytes@),
                None => Seq::empty(),
            }),
    {
        let manager = CsvFileManager { path };
        let records = manager.fill(contents);
        (manager, records)
    }

    /// The records to load from the file whose bytes are `contents`
    /// (`None` where the file could not be opened).
    pub fn fill(&self, contents: Option<&[u8]>) -> (records: Vec<Vec<String>>)
        ensures
            records.deep_view() == (match contents {
                Some(bytes) => file_records(bytes@),
                None => Seq::empty(),
            }),
    {
        match contents {
            Some(bytes) => readable_records(bytes),
            None => {
                let records: Vec<Vec<String>> = Vec::new();
                assert(records.deep_view() =~= Seq::<RecordView>::empty());
                records
            },
        }
    }

    /// What to do with the file, whose bytes are `contents` (`None` where it
    /// could not be opened), on `event`. An added record is appended unless an
    /// equal record is there already; a removed record leaves the file with
    /// every equal record, the others written back in order.
    pub fn notify(&self, event: CsvEvent<Vec<String>>, contents: Option<&[u8]>) -> (action:
        CsvAction)
        ensures
            match (event, contents) {
                (_, None) => action is Keep,
                (CsvEvent::Add(record), Some(bytes)) => if file_records(bytes@).contains(
                    record.deep_view(),
                ) {
                    action is Keep
                } else {
                    action matches CsvAction::Append(b) && b@ == csv_record_bytes(
                        record.deep_view(),
                    )
                },
                (CsvEvent::Remove(record), Some(bytes)) => action matches CsvAction::Rewrite(b)
                    && b@ == records_bytes(
                    records_removed(file_records(bytes@), record.deep_view()),
                ),
            },
    {
        match contents {
            None => CsvAction::Keep,
            Some(bytes) => action_for(&readable_records(bytes), event),
        }
    }
}

/// What to do with a file whose readable records are `records` on `event`:
/// an added record is appended unless an equal record is there already; a
/// removed record leaves the file with every equal record, the others
/// written back in order.
pub fn action_for(records: &Vec<Vec<String>>, event: CsvEvent<Vec<String>>) -> (action: CsvAction)
    ensures
        match event {
            CsvEvent::Add(record) => if records.deep_view().contains(record.deep_view()) {
                action is Keep
            } else {
                action matches CsvAction::Append(b) && b@ == csv_record_bytes(record.deep_view())
            },
            CsvEvent::Remove(record) => action matches CsvAction::Rewrite(b) && b@
                == records_bytes(records_removed(records.deep_view(), record.deep_view())),
        },
{
    match event {
        CsvEvent::Add(record) => {
            if has_record(records, &record) {
                CsvAction::Keep
            } else {
                CsvAction::Append(write_record(&record))
            }
        },
        CsvEvent::Remove(record) => CsvAction::Rewrite(rewrite_without(records, &record)),
    }
}

} // verus!
