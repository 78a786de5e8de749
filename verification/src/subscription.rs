//! The subscription page: the list of subscriptions it shows, the order in
//! which it shows them, and the decisions of the dialog that adds one.
use vstd::prelude::*;
use vstd::multiset::Multiset;
use crate::csv_file_manager::SubscriptionChange;
use crate::text::chars_of;

verus! {

/// The list of subscriptions that the page holds, each by an identifier
/// (the caller keeps the subscription under it), newest addition first.
pub struct SubscriptionList {
    items: Vec<u64>,
}

impl SubscriptionList {
    /// The identifiers of the list, in order.
    pub closed spec fn entries(&self) -> Seq<u64> {
        self.items@
    }

    /// An empty list.
    pub fn new() -> (list: SubscriptionList)
        ensures
            list.entries() == Seq::<u64>::empty(),
    {
        SubscriptionList { items: Vec::new() }
    }

    /// Replaces the subscriptions by `items`.
    pub fn set(&mut self, items: Vec<u64>)
        ensures
            final(self).entries() == items@,
    {
        self.items = items;
    }

    /// Puts a subscription first.
    pub fn add(&mut self, id: u64)
        ensures
            final(self).entries() == old(self).entries().insert(0, id),
    {
        self.items.insert(0, id);
    }

    /// Takes the first subscription `id` out of the list, if there is one;
    /// returns its position.
    pub fn remove(&mut self, id: u64) -> (res: Option<usize>)
        ensures
            match res {
                None => {
                    &&& !old(self).entries().contains(id)
                    &&& final(self).entries() == old(self).entries()
                },
                Some(idx) => {
                    &&& idx < old(self).entries().len()
                    &&& old(self).entries()[idx as int] == id
                    &&& forall|k: int| 0 <= k < idx ==> #[trigger] old(self).entries()[k] != id
                    &&& final(self).entries() == old(self).entries().remove(idx as int)
                },
            },
    {
        let mut i: usize = 0;
        while i < self.items.len()
            invariant
                self.items@ == old(self).items@,
                i <= self.items@.len(),
                forall|k: int| 0 <= k < i ==> #[trigger] self.items@[k] != id,
            decreases self.items@.len() - i,
        {
            if self.items[i] == id {
                self.items.remove(i);
                return Some(i);
            }
            i = i + 1;
        }
        None
    }

    /// The positions of the subscriptions `id`, whose shown name is to be
    /// refreshed after an update, in increasing order.
    pub fn update(&self, id: u64) -> (positions: Vec<usize>)
        ensures
            forall|k: int| 0 <= k < positions@.len() ==> #[trigger] positions@[k] < self.entries().len()
                && self.entries()[positions@[k] as int] == id,
            forall|k: int|
                0 <= k < self.entries().len() && self.entries()[k] == id ==> positions@.contains(
                    k as usize,
                ),
            forall|a: int, b: int| 0 <= a < b < positions@.len() ==> positions@[a] < positions@[b],
    {
        let mut positions: Vec<usize> = Vec::new();
        let mut i: usize = 0;
        while i < self.items.len()
            invariant
                i <= self.items@.len(),
                forall|k: int| 0 <= k < positions@.len() ==> #[trigger] positions@[k] < i
                    && self.items@[positions@[k] as int] == id,
                forall|k: int|
                    0 <= k < i && self.items@[k] == id ==> positions@.contains(k as usize),
                forall|a: int, b: int| 0 <= a < b < positions@.len() ==> positions@[a] < positions@[b],
            decreases self.items@.len() - i,
        {
            if self.items[i] == id {
                let ghost before = positions@;
                positions.push(i);
                assert(positions@[before.len() as int] == i);
                assert forall|k: int|
                    0 <= k < i + 1 && self.items@[k] == id implies positions@.contains(k as usize) by {
                    if k < i {
                        let m: int = choose|m: int| 0 <= m < before.len() && before[m] == k as usize;
                        assert(positions@[m] == k as usize);
                    }
                }
            }
            i = i + 1;
        }
        positions
    }

    /// Whether the list holds no subscription.
    pub fn is_empty(&self) -> (empty: bool)
        ensures
            empty == (self.entries().len() == 0),
    {
        self.items.len() == 0
    }
}

/// What a change of the subscription list does to the page's list.
pub enum ListUpdate {
    /// The subscription was put first.
    Inserted,
    /// The subscription was taken out from this position, if it was there.
    Removed(Option<usize>),
    /// The names at these positions are to be refreshed.
    Refresh(Vec<usize>),
}

impl SubscriptionList {
    /// Follows a change of the subscription list: an added subscription is
    /// put first, a removed one taken out, an updated one refreshed.
    pub fn apply(&mut self, change: SubscriptionChange<u64>) -> (update: ListUpdate)
        ensures
            final(self).entries() == list_applied(old(self).entries(), change),
            match change {
                SubscriptionChange::Add(id) => update is Inserted && final(self).entries()
                    == old(self).entries().insert(0, id),
                SubscriptionChange::Remove(id) => update matches ListUpdate::Removed(r) && match r {
                    None => !old(self).entries().contains(id) && final(self).entries() == old(
                        self,
                    ).entries(),
                    Some(idx) => idx < old(self).entries().len() && old(self).entries()[idx as int]
                        == id && (forall|k: int|
                        0 <= k < idx ==> #[trigger] old(self).entries()[k] != id)
                        && final(self).entries() == old(self).entries().remove(idx as int),
                },
                SubscriptionChange::Update(id) => update matches ListUpdate::Refresh(positions)
                    && final(self).entries() == old(self).entries() && (forall|k: int|
                    0 <= k < positions@.len() ==> #[trigger] positions@[k] < old(
                        self,
                    ).entries().len() && old(self).entries()[positions@[k] as int] == id) && (
                forall|k: int|
                    0 <= k < old(self).entries().len() && old(self).entries()[k] == id
                        ==> positions@.contains(k as usize)),
            },
    {
        match change {
            SubscriptionChange::Add(id) => {
                self.add(id);
                ListUpdate::Inserted
            },
            SubscriptionChange::Remove(id) => {
                let removed = self.remove(id);
                proof {
                    lemma_first_of(old(self).entries(), id);
                }
                ListUpdate::Removed(removed)
            },
            SubscriptionChange::Update(id) => ListUpdate::Refresh(self.update(id)),
        }
    }
}

/// Removing a subscription just added gives the list back as it was: the
/// position that `remove` reports (the first holding the identifier) is the
/// front, where `add` put it.
pub proof fn lemma_remove_undoes_add(entries: Seq<u64>, id: u64, idx: int)
    requires
        0 <= idx <= entries.len(),
        entries.insert(0, id)[idx] == id,
        forall|k: int| 0 <= k < idx ==> #[trigger] entries.insert(0, id)[k] != id,
    ensures
        idx == 0,
        entries.insert(0, id).remove(idx) == entries,
{
    if idx > 0 {
        assert(entries.insert(0, id)[0] == id);
    }
    assert(entries.insert(0, id).remove(0) =~= entries);
}

/// The position of the first subscription `id` of the list.
pub open spec fn first_of(entries: Seq<u64>, id: u64) -> Option<int>
    decreases entries.len(),
{
    if entries.len() == 0 {
        None
    } else {
        match first_of(entries.drop_last(), id) {
            Some(i) => Some(i),
            None => if entries.last() == id {
                Some(entries.len() - 1)
            } else {
                None
            },
        }
    }
}

/// `first_of` finds the first position holding the identifier, and none when
/// no position holds it.
pub proof fn lemma_first_of(entries: Seq<u64>, id: u64)
    ensures
        match first_of(entries, id) {
            Some(i) => 0 <= i < entries.len() && entries[i] == id && forall|k: int|
                0 <= k < i ==> #[trigger] entries[k] != id,
            None => !entries.contains(id),
        },
    decreases entries.len(),
{
    if entries.len() > 0 {
        lemma_first_of(entries.drop_last(), id);
        match first_of(entries.drop_last(), id) {
            Some(i) => {
                assert forall|k: int| 0 <= k < i implies #[trigger] entries[k] != id by {
                    assert(entries[k] == entries.drop_last()[k]);
                }
            },
            None => {
                if entries.last() != id {
                    assert forall|k: int| 0 <= k < entries.len() implies entries[k] != id by {
                        if k < entries.len() - 1 {
                            assert(entries[k] == entries.drop_last()[k]);
                        }
                    }
                } else {
                    assert forall|k: int| 0 <= k < entries.len() - 1 implies #[trigger] entries[k]
                        != id by {
                        assert(entries[k] == entries.drop_last()[k]);
                    }
                }
            },
        }
    }
}

/// The page's list after it followed one change (see `SubscriptionList::apply`).
pub open spec fn list_applied(entries: Seq<u64>, change: SubscriptionChange<u64>) -> Seq<u64> {
    match change {
        SubscriptionChange::Add(id) => entries.insert(0, id),
        SubscriptionChange::Remove(id) => match first_of(entries, id) {
            Some(i) => entries.remove(i),
            None => entries,
        },
        SubscriptionChange::Update(_) => entries,
    }
}

/// The page's list after it followed the changes, in order.
pub open spec fn list_after(entries: Seq<u64>, changes: Seq<SubscriptionChange<u64>>) -> Seq<u64>
    decreases changes.len(),
{
    if changes.len() == 0 {
        entries
    } else {
        list_applied(list_after(entries, changes.drop_last()), changes.last())
    }
}

/// The subscriptions of the `tf_join` list after the change it announced:
/// `add` appends one, `remove` keeps every other one, `update` removes it
/// and appends it again.
pub open spec fn source_applied(source: Multiset<u64>, change: SubscriptionChange<u64>) -> Multiset<
    u64,
> {
    match change {
        SubscriptionChange::Add(id) => source.insert(id),
        SubscriptionChange::Remove(id) => source.filter(|x: u64| x != id),
        SubscriptionChange::Update(id) => source.filter(|x: u64| x != id).insert(id),
    }
}

/// The subscriptions of the `tf_join` list after the changes, in order.
pub open spec fn source_after(source: Multiset<u64>, changes: Seq<SubscriptionChange<u64>>) -> Multiset<
    u64,
>
    decreases changes.len(),
{
    if changes.len() == 0 {
        source
    } else {
        source_applied(source_after(source, changes.drop_last()), changes.last())
    }
}

/// No subscription is held twice.
pub open spec fn held_once(source: Multiset<u64>) -> bool {
    forall|x: u64| #[trigger] source.count(x) <= 1
}

/// The changes keep the list free of duplicates: a subscription is added
/// only when it is not held, and updated only when it is.
pub open spec fn changes_fit(source: Multiset<u64>, changes: Seq<SubscriptionChange<u64>>) -> bool
    decreases changes.len(),
{
    if changes.len() == 0 {
        true
    } else {
        &&& changes_fit(source, changes.drop_last())
        &&& match changes.last() {
            SubscriptionChange::Add(id) => source_after(source, changes.drop_last()).count(id)
                == 0,
            SubscriptionChange::Update(id) => source_after(source, changes.drop_last()).count(id)
                > 0,
            SubscriptionChange::Remove(_) => true,
        }
    }
}

/// One change keeps the page's list holding what the `tf_join` list holds.
proof fn lemma_list_step(entries: Seq<u64>, source: Multiset<u64>, change: SubscriptionChange<u64>)
    requires
        entries.to_multiset() == source,
        held_once(source),
        match change {
            SubscriptionChange::Add(id) => source.count(id) == 0,
            SubscriptionChange::Update(id) => source.count(id) > 0,
            SubscriptionChange::Remove(_) => true,
        },
    ensures
        list_applied(entries, change).to_multiset() == source_applied(source, change),
        held_once(source_applied(source, change)),
{
    broadcast use vstd::multiset::group_multiset_axioms;
    broadcast use vstd::multiset::group_multiset_properties;
    broadcast use vstd::seq_lib::group_to_multiset_ensures;

    match change {
        SubscriptionChange::Add(id) => {
            vstd::seq_lib::to_multiset_insert(entries, 0, id);
            assert(held_once(source.insert(id)));
        },
        SubscriptionChange::Remove(id) => {
            let kept = source.filter(|x: u64| x != id);
            lemma_first_of(entries, id);
            match first_of(entries, id) {
                Some(i) => {
                    vstd::seq_lib::to_multiset_remove(entries, i);
                    assert(entries.remove(i).to_multiset() =~= kept);
                },
                None => {
                    vstd::seq_lib::to_multiset_contains(entries, id);
                    assert(entries.to_multiset() =~= kept);
                },
            }
            assert(held_once(kept));
        },
        SubscriptionChange::Update(id) => {
            let kept = source.filter(|x: u64| x != id);
            assert(source =~= kept.insert(id));
        },
    }
}

/// The page's list follows the `tf_join` list: started with what the list
/// holds, each subscription once, and then told of each change the list
/// announces, it holds the same subscriptions as the list, as long as the
/// list gets no subscription twice (an added one is new, an updated one is
/// held).
pub proof fn lemma_list_follows_source(
    entries: Seq<u64>,
    source: Multiset<u64>,
    changes: Seq<SubscriptionChange<u64>>,
)
    requires
        entries.to_multiset() == source,
        held_once(source),
        changes_fit(source, changes),
    ensures
        list_after(entries, changes).to_multiset() == source_after(source, changes),
        held_once(source_after(source, changes)),
    decreases changes.len(),
{
    if changes.len() > 0 {
        lemma_list_follows_source(entries, source, changes.drop_last());
        lemma_list_step(
            list_after(entries, changes.drop_last()),
            source_after(source, changes.drop_last()),
            changes.last(),
        );
    }
}

/// How two names compare.
#[derive(PartialEq, Eq, Structural, Clone, Copy, Debug)]
pub enum NameOrder {
    Less,
    Equal,
    Greater,
}

/// The order of two texts by their characters, the first difference
/// deciding, a text before every longer text that it begins.
pub open spec fn lex_order(a: Seq<char>, b: Seq<char>) -> NameOrder
    decreases a.len(),
{
    if a.len() == 0 {
        if b.len() == 0 {
            NameOrder::Equal
        } else {
            NameOrder::Less
        }
    } else if b.len() == 0 {
        NameOrder::Greater
    } else if (a[0] as int) < (b[0] as int) {
        NameOrder::Less
    } else if (a[0] as int) > (b[0] as int) {
        NameOrder::Greater
    } else {
        lex_order(a.skip(1), b.skip(1))
    }
}

/// The order opposite to `o`.
pub open spec fn reversed(o: NameOrder) -> NameOrder {
    match o {
        NameOrder::Less => NameOrder::Greater,
        NameOrder::Equal => NameOrder::Equal,
        NameOrder::Greater => NameOrder::Less,
    }
}

/// Two texts are in the same place of the order exactly when they are equal.
pub proof fn lemma_lex_equal(a: Seq<char>, b: Seq<char>)
    ensures
        (lex_order(a, b) == NameOrder::Equal) == (a == b),
    decreases a.len(),
{
    if a.len() == 0 && b.len() == 0 {
        assert(a =~= b);
    }
    if a.len() > 0 && b.len() > 0 {
        lemma_lex_equal(a.skip(1), b.skip(1));
        if (a[0] as int) == (b[0] as int) {
            assert(a[0] == b[0]);
        }
        if a[0] == b[0] && a.skip(1) == b.skip(1) {
            assert(a =~= seq![a[0]] + a.skip(1));
            assert(b =~= seq![b[0]] + b.skip(1));
        }
        if a == b {
            assert(a.skip(1) =~= b.skip(1));
        }
    }
}

/// Swapping the texts reverses their order.
pub proof fn lemma_lex_antisymmetric(a: Seq<char>, b: Seq<char>)
    ensures
        lex_order(b, a) == reversed(lex_order(a, b)),
    decreases a.len(),
{
    if a.len() > 0 && b.len() > 0 {
        lemma_lex_antisymmetric(a.skip(1), b.skip(1));
    }
}

/// The order is transitive.
pub proof fn lemma_lex_transitive(a: Seq<char>, b: Seq<char>, c: Seq<char>)
    requires
        lex_order(a, b) == NameOrder::Less,
        lex_order(b, c) == NameOrder::Less,
    ensures
        lex_order(a, c) == NameOrder::Less,
    decreases a.len(),
{
    if a.len() > 0 && b.len() > 0 && c.len() > 0 {
        if a[0] == b[0] && b[0] == c[0] {
            lemma_lex_transitive(a.skip(1), b.skip(1), c.skip(1));
        }
    }
}

/// The order of two texts (see `lex_order`).
pub fn order_chars(a: &Vec<char>, b: &Vec<char>) -> (o: NameOrder)
    ensures
        o == lex_order(a@, b@),
{
    let mut i: usize = 0;
    assert(a@.skip(0) =~= a@);
    assert(b@.skip(0) =~= b@);
    while i < a.len() && i < b.len()
        invariant
            i <= a@.len(),
            i <= b@.len(),
            lex_order(a@, b@) == lex_order(a@.skip(i as int), b@.skip(i as int)),
        decreases a@.len() - i,
    {
        let x = a[i];
        let y = b[i];
        assert(a@.skip(i as int)[0] == a@[i as int]);
        assert(b@.skip(i as int)[0] == b@[i as int]);
        if x < y {
            return NameOrder::Less;
        }
        if x > y {
            return NameOrder::Greater;
        }
        assert(a@.skip(i as int).skip(1) =~= a@.skip(i + 1));
        assert(b@.skip(i as int).skip(1) =~= b@.skip(i + 1));
        i = i + 1;
    }
    if i == a.len() {
        if i == b.len() {
            NameOrder::Equal
        } else {
            NameOrder::Less
        }
    } else {
        NameOrder::Greater
    }
}

/// What `str::to_lowercase` returns for a text.
pub uninterp spec fn lowercase_of(s: Seq<char>) -> Seq<char>;

/// Calls `str::to_lowercase`. The contract names the result (`lowercase_of`
/// of the text) and says what it is for an ASCII text: the Unicode lower-case
/// mapping of an ASCII character is its ASCII lower case.
#[verifier::external_body]
fn lowercase(s: &str) -> (r: String)
    ensures
        r@ == lowercase_of(s@),
        ascii_text(s@) ==> r@ == ascii_lower(s@),
{
    s.to_lowercase()
}

/// The text by which a subscription is sorted: its name in lower case, the
/// empty text when it has none.
pub open spec fn sort_key(name: Option<Seq<char>>) -> Seq<char> {
    match name {
        Some(n) => lowercase_of(n),
        None => lowercase_of(Seq::empty()),
    }
}

/// The name of a subscription, the empty text when it has none.
pub open spec fn name_text(name: Option<Seq<char>>) -> Seq<char> {
    match name {
        Some(n) => n,
        None => Seq::empty(),
    }
}

/// The order in which the page shows two subscriptions of names `a` and `b`
/// (`None` for one without a name): by their names in lower case.
pub fn compare_names(a: Option<String>, b: Option<String>) -> (o: NameOrder)
    ensures
        o == lex_order(sort_key(a.deep_view()), sort_key(b.deep_view())),
        ascii_text(name_text(a.deep_view())) && ascii_text(name_text(b.deep_view())) ==> o
            == lex_order(ascii_lower(name_text(a.deep_view())), ascii_lower(name_text(b.deep_view()))),
{
    let name_a = match a {
        Some(n) => n,
        None => String::new(),
    };
    let name_b = match b {
        Some(n) => n,
        None => String::new(),
    };
    let lower_a = lowercase(name_a.as_str());
    let lower_b = lowercase(name_b.as_str());
    let chars_a = chars_of(lower_a.as_str());
    let chars_b = chars_of(lower_b.as_str());
    order_chars(&chars_a, &chars_b)
}


/// A platform of subscriptions.
#[derive(PartialEq, Eq, Structural, Clone, Copy, Debug)]
pub enum PlatformKind {
    Youtube,
    Peertube,
}

/// Whether every character of `s` is ASCII.
pub open spec fn ascii_text(s: Seq<char>) -> bool {
    forall|i: int| 0 <= i < s.len() ==> (#[trigger] s[i] as int) < 128
}

/// `s` with its ASCII capital letters made small.
pub open spec fn ascii_lower(s: Seq<char>) -> Seq<char> {
    s.map_values(
        |c: char|
            if 'A' <= c && c <= 'Z' {
                ((c as int) + 32) as char
            } else {
                c
            },
    )
}

/// The platform that a lower-case name stands for.
pub open spec fn platform_named(name: Seq<char>) -> Option<PlatformKind> {
    if name == "youtube"@ {
        Some(PlatformKind::Youtube)
    } else if name == "peertube"@ {
        Some(PlatformKind::Peertube)
    } else {
        None
    }
}

/// Calls `tf_join::Platform::from_str` and tells the variants of its result
/// apart. Its source lower-cases the text with `str::to_lowercase` and
/// matches `youtube` and `peertube` (the platforms built here); for ASCII
/// texts, lower-casing is ASCII lower-casing.
#[verifier::external_body]
fn parse_platform(s: &str) -> (p: Option<PlatformKind>)
    ensures
        p == platform_named(lowercase_of(s@)),
        ascii_text(s@) ==> p == platform_named(ascii_lower(s@)),
{
    match <tf_join::Platform as std::str::FromStr>::from_str(s) {
        Ok(tf_join::Platform::Youtube) => Some(PlatformKind::Youtube),
        Ok(tf_join::Platform::Peertube) => Some(PlatformKind::Peertube),
        Err(_) => None,
    }
}

/// The name under which a platform is shown and remembered.
pub open spec fn platform_label_of(p: PlatformKind) -> Seq<char> {
    match p {
        PlatformKind::Youtube => "YouTube"@,
        PlatformKind::Peertube => "PeerTube"@,
    }
}

/// Calls the `Display` impl of `tf_join::Platform` (through `to_string`);
/// its source writes `YouTube` and `PeerTube`.
#[verifier::external_body]
fn platform_label(p: PlatformKind) -> (label: String)
    ensures
        label@ == platform_label_of(p),
{
    let platform = match p {
        PlatformKind::Youtube => tf_join::Platform::Youtube,
        PlatformKind::Peertube => tf_join::Platform::Peertube,
    };
    platform.to_string()
}

/// The platforms offered in the dialog that adds a subscription, in order.
pub open spec fn offered_platforms() -> Seq<PlatformKind> {
    seq![PlatformKind::Youtube, PlatformKind::Peertube]
}

/// The platforms offered in the dialog that adds a subscription, in order.
pub fn platforms() -> (list: Vec<PlatformKind>)
    ensures
        list@ == offered_platforms(),
{
    let mut list: Vec<PlatformKind> = Vec::new();
    list.push(PlatformKind::Youtube);
    list.push(PlatformKind::Peertube);
    assert(list@ =~= offered_platforms());
    list
}

/// How the dialog opens for a platform remembered as `last`: the entry of the
/// platform that is selected (the first one when it is not offered), and
/// whether the URL entry takes the focus (for PeerTube) rather than the name
/// entry. A platform that could not be read counts as YouTube.
pub fn subscribe_selection(last: Option<PlatformKind>) -> (res: (usize, bool))
    ensures
        ({
            let p = match last {
                Some(p) => p,
                None => PlatformKind::Youtube,
            };
            &&& res.0 == (if p == PlatformKind::Peertube {
                1usize
            } else {
                0usize
            })
            &&& (offered_platforms().contains(p) ==> offered_platforms()[res.0 as int] == p)
            &&& res.1 == (p == PlatformKind::Peertube)
        }),
{
    let p = match last {
        Some(p) => p,
        None => PlatformKind::Youtube,
    };
    let list = platforms();
    let mut i: usize = 0;
    while i < list.len() && list[i] != p
        invariant
            list@ == offered_platforms(),
            i <= list@.len(),
            forall|k: int| 0 <= k < i ==> list@[k] != p,
        decreases list@.len() - i,
    {
        i = i + 1;
    }
    let found: usize = if i < list.len() {
        i
    } else {
        0
    };
    assert(offered_platforms()[0] == PlatformKind::Youtube);
    assert(offered_platforms()[1] == PlatformKind::Peertube);
    proof {
        if i == list.len() && offered_platforms().contains(p) {
            let k: int = choose|k: int|
                0 <= k < offered_platforms().len() && offered_platforms()[k] == p;
            assert(list@[k] != p);
        }
    }
    (found, p == PlatformKind::Peertube)
}

/// How the dialog that adds a subscription opens, for the platform name that
/// was remembered last (see `subscribe_selection`).
pub fn present_subscribe(last_added_platform: &str) -> (res: (usize, bool))
    ensures
        res == subscribe_selection_of(platform_named(lowercase_of(last_added_platform@))),
        ascii_text(last_added_platform@) ==> res == subscribe_selection_of(
            platform_named(ascii_lower(last_added_platform@)),
        ),
{
    let parsed = parse_platform(last_added_platform);
    subscribe_selection(parsed)
}

/// What `subscribe_selection` returns for a remembered platform.
pub open spec fn subscribe_selection_of(last: Option<PlatformKind>) -> (usize, bool) {
    let p = match last {
        Some(p) => p,
        None => PlatformKind::Youtube,
    };
    (if p == PlatformKind::Peertube {
        1usize
    } else {
        0usize
    }, p == PlatformKind::Peertube)
}

/// Whether the URL entry is shown for the selected platform: only for
/// PeerTube.
pub fn url_visible(platform: Option<PlatformKind>) -> (visible: bool)
    ensures
        visible == (platform == Some(PlatformKind::Peertube)),
{
    match platform {
        Some(PlatformKind::Peertube) => true,
        _ => false,
    }
}

/// How a new subscription is looked for.
pub enum SubscriptionRequest {
    /// Search YouTube for a channel by this name or identifier.
    Search { name: String },
    /// The PeerTube channel of this name on the instance at this URL.
    Peertube { url: String, name: String },
}

/// What the dialog that adds a subscription does on `response`: nothing
/// unless the response is `add`; else the platform name to remember and how
/// to look for the subscription.
pub fn add_subscription_request(
    response: Option<&str>,
    platform: PlatformKind,
    url: String,
    name_id: String,
) -> (res: Option<(String, SubscriptionRequest)>)
    ensures
        (response matches Some(r) && r@ == "add"@) == res is Some,
        res matches Some((label, request)) ==> {
            &&& label@ == platform_label_of(platform)
            &&& match request {
                SubscriptionRequest::Search { name } => platform == PlatformKind::Youtube && name
                    == name_id,
                SubscriptionRequest::Peertube { url: u, name } => platform
                    == PlatformKind::Peertube && u == url && name == name_id,
            }
        },
{
    let is_add = match response {
        Some(r) => crate::text::same_text(r, "add"),
        None => false,
    };
    if !is_add {
        return None;
    }
    let label = platform_label(platform);
    let request = match platform {
        PlatformKind::Peertube => SubscriptionRequest::Peertube { url, name: name_id },
        _ => {
            assert(platform == PlatformKind::Youtube);
            SubscriptionRequest::Search { name: name_id }
        },
    };
    Some((label, request))
}

/// What the page does with the answer to a request for a subscription.
pub enum FoundSubscription<S> {
    /// Add the subscription to the list and announce that one was added.
    Add(S),
    /// Show the dialog saying that no subscription was found.
    ShowError,
}

/// What the page does once the subscription it asked for came back (from
/// the search by name, or made from the address and identifier): adds it,
/// or shows the error dialog when none was found.
pub fn handle_found_subscription<S>(found: Option<S>) -> (outcome: FoundSubscription<S>)
    ensures
        match found {
            Some(s) => outcome == FoundSubscription::Add(s),
            None => outcome is ShowError,
        },
{
    match found {
        Some(s) => FoundSubscription::Add(s),
        None => FoundSubscription::ShowError,
    }
}

} // verus!
