//! The preferences window: the predefined video players and Piped APIs, and
//! how the window shows the current settings.
use vstd::prelude::*;
use crate::text::same_text;

verus! {

/// A predefined choice: the name shown and the value it stands for (a
/// command or a URL); an empty value stands for a custom one.
pub struct Predefined {
    pub name: String,
    pub value: String,
}

/// The predefined video players, as (name, command), the custom one last.
pub open spec fn player_choices() -> Seq<(Seq<char>, Seq<char>)> {
    seq![
        ("MPV (Flatpak)"@, "flatpak run io.mpv.Mpv"@),
        ("MPV"@, "mpv"@),
        ("Clapper (Flatpak)"@, "flatpak run com.github.rafostar.Clapper"@),
        ("Clapper"@, "clapper"@),
        ("Celluloid (Flatpak)"@, "flatpak run io.github.celluloid_player.Celluloid"@),
        ("Celluloid"@, "celluloid"@),
        ("Livi"@, "livi --yt-dlp"@),
        ("Custom"@, ""@),
    ]
}

/// The predefined Piped APIs, as (name, URL), the custom one last.
pub open spec fn piped_api_choices() -> Seq<(Seq<char>, Seq<char>)> {
    seq![
        ("kavin.rocks (official)"@, "https://pipedapi.kavin.rocks"@),
        ("kavin.rocks (libre, official)"@, "https://pipedapi-libre.kavin.rocks"@),
        ("tokhmi.xyz"@, "https://pipedapi.tokhmi.xyz"@),
        ("lunar.icu"@, "https://piped-api.lunar.icu"@),
        ("Custom"@, ""@),
    ]
}

/// The views of predefined choices.
pub open spec fn choice_views(choices: Seq<Predefined>) -> Seq<(Seq<char>, Seq<char>)> {
    choices.map_values(|c: Predefined| (c.name@, c.value@))
}

fn choice(name: &str, value: &str) -> (c: Predefined)
    ensures
        c.name@ == name@,
        c.value@ == value@,
{
    Predefined { name: String::from_str(name), value: String::from_str(value) }
}

/// The predefined video players.
pub fn predefined_players() -> (list: Vec<Predefined>)
    ensures
        choice_views(list@) == player_choices(),
{
    let mut list: Vec<Predefined> = Vec::new();
    list.push(choice("MPV (Flatpak)", "flatpak run io.mpv.Mpv"));
    list.push(choice("MPV", "mpv"));
    list.push(choice("Clapper (Flatpak)", "flatpak run com.github.rafostar.Clapper"));
    list.push(choice("Clapper", "clapper"));
    list.push(choice("Celluloid (Flatpak)", "flatpak run io.github.celluloid_player.Celluloid"));
    list.push(choice("Celluloid", "celluloid"));
    list.push(choice("Livi", "livi --yt-dlp"));
    list.push(choice("Custom", ""));
    assert(choice_views(list@) =~= player_choices());
    list
}

/// The predefined Piped APIs.
pub fn predefined_piped_apis() -> (list: Vec<Predefined>)
    ensures
        choice_views(list@) == piped_api_choices(),
{
    let mut list: Vec<Predefined> = Vec::new();
    list.push(choice("kavin.rocks (official)", "https://pipedapi.kavin.rocks"));
    list.push(choice("kavin.rocks (libre, official)", "https://pipedapi-libre.kavin.rocks"));
    list.push(choice("tokhmi.xyz", "https://pipedapi.tokhmi.xyz"));
    list.push(choice("lunar.icu", "https://piped-api.lunar.icu"));
    list.push(choice("Custom", ""));
    assert(choice_views(list@) =~= piped_api_choices());
    list
}

/// The first position of a choice whose value is `value`.
pub open spec fn first_with_value(choices: Seq<(Seq<char>, Seq<char>)>, value: Seq<char>) -> Option<
    int,
>
    decreases choices.len(),
{
    if choices.len() == 0 {
        None
    } else {
        match first_with_value(choices.drop_last(), value) {
            Some(i) => Some(i),
            None => if choices.last().1 == value {
                Some(choices.len() - 1)
            } else {
                None
            },
        }
    }
}

/// Which choice the window selects for the current setting `value`, and
/// whether it hides the entry of the value: the first choice with that value,
/// entry hidden; else the last (custom) choice, entry left as it is.
pub fn selection_for(choices: &Vec<Predefined>, value: &str) -> (res: (usize, bool))
    requires
        choices@.len() > 0,
    ensures
        match first_with_value(choice_views(choices@), value@) {
            Some(i) => res == (i as usize, true),
            None => res == ((choices@.len() - 1) as usize, false),
        },
        res.0 < choices@.len(),
        res.1 ==> choices@[res.0 as int].value@ == value@ && forall|j: int|
            0 <= j < res.0 ==> #[trigger] choices@[j].value@ != value@,
        !res.1 ==> res.0 == choices@.len() - 1 && forall|j: int|
            0 <= j < choices@.len() ==> #[trigger] choices@[j].value@ != value@,
{
    proof {
        lemma_first_with_value(choice_views(choices@), value@);
        assert forall|j: int| 0 <= j < choices@.len() implies #[trigger] choices@[j].value@
            == choice_views(choices@)[j].1 by {}
    }
    let ghost views = choice_views(choices@);
    let mut i: usize = 0;
    while i < choices.len()
        invariant
            views == choice_views(choices@),
            i <= choices@.len(),
            first_with_value(views.take(i as int), value@) is None,
        decreases choices@.len() - i,
    {
        assert(views.take(i + 1).drop_last() =~= views.take(i as int));
        if same_text(choices[i].value.as_str(), value) {
            assert(views.take(i + 1).last() == views[i as int]);
            assert(first_with_value(views, value@) == first_with_value(views.take(i + 1), value@)) by {
                lemma_first_prefix(views, value@, i as int);
            };
            proof {
                lemma_first_with_value(views, value@);
                assert forall|j: int| 0 <= j < choices@.len() implies #[trigger] choices@[j].value@
                    == views[j].1 by {}
            }
            return (i, true);
        }
        i = i + 1;
    }
    assert(views.take(choices@.len() as int) =~= views);
    (choices.len() - 1, false)
}

/// The position that `first_with_value` gives is that of the first choice
/// holding the value, and it gives none exactly when no choice holds it.
pub proof fn lemma_first_with_value(choices: Seq<(Seq<char>, Seq<char>)>, value: Seq<char>)
    ensures
        match first_with_value(choices, value) {
            Some(i) => 0 <= i < choices.len() && choices[i].1 == value && forall|j: int|
                0 <= j < i ==> #[trigger] choices[j].1 != value,
            None => forall|j: int| 0 <= j < choices.len() ==> #[trigger] choices[j].1 != value,
        },
    decreases choices.len(),
{
    if choices.len() > 0 {
        let rest = choices.drop_last();
        lemma_first_with_value(rest, value);
        match first_with_value(rest, value) {
            Some(i) => {
                assert(rest[i] == choices[i]);
                assert forall|j: int| 0 <= j < i implies #[trigger] choices[j].1 != value by {
                    assert(rest[j] == choices[j]);
                }
            },
            None => {
                assert forall|j: int| 0 <= j < choices.len() - 1 implies #[trigger] choices[j].1
                    != value by {
                    assert(rest[j] == choices[j]);
                }
            },
        }
    }
}

/// Where a prefix of the choices holds the value, the first position in it
/// is the first position in all of them.
proof fn lemma_first_prefix(choices: Seq<(Seq<char>, Seq<char>)>, value: Seq<char>, i: int)
    requires
        0 <= i < choices.len(),
        first_with_value(choices.take(i + 1), value) is Some,
    ensures
        first_with_value(choices, value) == first_with_value(choices.take(i + 1), value),
    decreases choices.len(),
{
    if choices.len() > i + 1 {
        assert(choices.drop_last().take(i + 1) =~= choices.take(i + 1));
        lemma_first_prefix(choices.drop_last(), value, i);
    } else {
        assert(choices.take(i + 1) =~= choices);
    }
}

/// What the window does when a choice of value `value` is selected: whether
/// the entry of the value is shown (only for the custom choice), and the
/// text to put into it (the value, unless it is the custom choice).
pub fn handle_selection(value: &str) -> (res: (bool, Option<String>))
    ensures
        res.0 == (value@.len() == 0),
        match res.1 {
            Some(t) => value@.len() > 0 && t@ == value@,
            None => value@.len() == 0,
        },
{
    if value.unicode_len() == 0 {
        (true, None)
    } else {
        (false, Some(String::from_str(value)))
    }
}

/// Whether a setting cannot be changed in the window: its environment
/// variable is set to something other than the stored setting.
pub fn setting_locked(from_env: Option<&str>, setting: &str) -> (locked: bool)
    ensures
        locked == (match from_env {
            Some(e) => e@ != setting@,
            None => false,
        }),
{
    match from_env {
        Some(e) => !same_text(e, setting),
        None => false,
    }
}

} // verus!
