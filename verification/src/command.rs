//! The text logic around the external player and downloader: which command
//! to run, how a command line splits into a program and its arguments, and
//! where the downloader says it put the file.
use vstd::prelude::*;
use crate::text::{chars_of, matches_at, occurs_at, starts_with, string_of, string_of_range};

verus! {

/// The pieces of `s` between the occurrences of `sep`, as `str::split` with a
/// character gives them: there is always at least one piece, and two
/// neighbouring separators have an empty piece between them.
pub open spec fn split_on(s: Seq<char>, sep: char) -> Seq<Seq<char>>
    decreases s.len(),
{
    if s.len() == 0 {
        seq![Seq::empty()]
    } else {
        let before = split_on(s.drop_last(), sep);
        if s.last() == sep {
            before.push(Seq::empty())
        } else {
            before.update(before.len() - 1, before.last().push(s.last()))
        }
    }
}

/// `s` split on `sep` has at least one piece.
pub proof fn lemma_split_nonempty(s: Seq<char>, sep: char)
    ensures
        split_on(s, sep).len() >= 1,
    decreases s.len(),
{
    if s.len() > 0 {
        lemma_split_nonempty(s.drop_last(), sep);
    }
}

/// The pieces joined back with `sep` between them.
pub open spec fn join_with(pieces: Seq<Seq<char>>, sep: char) -> Seq<char>
    decreases pieces.len(),
{
    if pieces.len() <= 1 {
        if pieces.len() == 0 {
            Seq::empty()
        } else {
            pieces[0]
        }
    } else {
        join_with(pieces.drop_last(), sep).push(sep) + pieces.last()
    }
}

/// Splitting on a separator and joining the pieces with it gives the text
/// back.
pub proof fn lemma_split_join(s: Seq<char>, sep: char)
    ensures
        join_with(split_on(s, sep), sep) == s,
    decreases s.len(),
{
    lemma_split_nonempty(s, sep);
    if s.len() > 0 {
        let rest = s.drop_last();
        let before = split_on(rest, sep);
        lemma_split_join(rest, sep);
        lemma_split_nonempty(rest, sep);
        if s.last() == sep {
            let now = before.push(Seq::<char>::empty());
            assert(now.drop_last() =~= before);
            assert(join_with(now, sep) =~= rest.push(sep));
            assert(rest.push(sep) =~= s);
        } else {
            let now = before.update(before.len() - 1, before.last().push(s.last()));
            if before.len() == 1 {
                assert(join_with(now, sep) == now[0]);
                assert(now[0] =~= s);
            } else {
                assert(now.drop_last() =~= before.drop_last());
                assert(join_with(now, sep) =~= join_with(before.drop_last(), sep).push(sep)
                    + before.last().push(s.last()));
                assert(join_with(before, sep) == join_with(before.drop_last(), sep).push(sep)
                    + before.last());
                assert(join_with(now, sep) =~= rest.push(s.last()));
                assert(rest.push(s.last()) =~= s);
            }
        }
    }
}

/// No piece of a split holds the separator.
pub proof fn lemma_split_pieces_lack_sep(s: Seq<char>, sep: char, i: int)
    requires
        0 <= i < split_on(s, sep).len(),
    ensures
        !split_on(s, sep)[i].contains(sep),
    decreases s.len(),
{
    if s.len() > 0 {
        let rest = s.drop_last();
        let before = split_on(rest, sep);
        lemma_split_nonempty(rest, sep);
        if s.last() == sep {
            if i < before.len() {
                lemma_split_pieces_lack_sep(rest, sep, i);
            }
        } else {
            let now = before.update(before.len() - 1, before.last().push(s.last()));
            if i < before.len() - 1 {
                lemma_split_pieces_lack_sep(rest, sep, i);
            } else {
                lemma_split_pieces_lack_sep(rest, sep, before.len() - 1);
                if now[i].contains(sep) {
                    let k: int = choose|k: int| 0 <= k < now[i].len() && now[i][k] == sep;
                    if k < before.last().len() {
                        assert(before.last()[k] == sep);
                        assert(before.last().contains(sep));
                    }
                }
            }
        }
    }
}

/// The views of pieces of characters.
pub open spec fn piece_views(pieces: Seq<Vec<char>>) -> Seq<Seq<char>> {
    pieces.map_values(|p: Vec<char>| p@)
}

/// The pieces of `chars` between the occurrences of `sep`.
pub fn split_chars(chars: &Vec<char>, sep: char) -> (pieces: Vec<Vec<char>>)
    ensures
        piece_views(pieces@) == split_on(chars@, sep),
{
    let mut pieces: Vec<Vec<char>> = Vec::new();
    let mut current: Vec<char> = Vec::new();
    let mut i: usize = 0;
    while i < chars.len()
        invariant
            i <= chars.len(),
            split_on(chars@.take(i as int), sep) == piece_views(pieces@).push(current@),
        decreases chars.len() - i,
    {
        let ghost prefix = chars@.take(i + 1);
        assert(prefix.drop_last() =~= chars@.take(i as int));
        let c = chars[i];
        if c == sep {
            let ghost before = piece_views(pieces@);
            pieces.push(current);
            current = Vec::new();
            assert(piece_views(pieces@) =~= before.push(split_on(chars@.take(i as int), sep).last()));
            assert(split_on(prefix, sep) =~= piece_views(pieces@).push(current@));
        } else {
            current.push(c);
            assert(split_on(prefix, sep) =~= piece_views(pieces@).push(current@));
        }
        i = i + 1;
    }
    assert(chars@.take(chars.len() as int) =~= chars@);
    let ghost before = piece_views(pieces@);
    let ghost last = current@;
    pieces.push(current);
    assert(piece_views(pieces@) =~= before.push(last));
    pieces
}

/// The string of each piece.
fn strings_of(pieces: &Vec<Vec<char>>, from: usize) -> (strings: Vec<String>)
    requires
        from <= pieces.len(),
    ensures
        strings.deep_view() == piece_views(pieces@).skip(from as int),
{
    let mut strings: Vec<String> = Vec::new();
    let mut i: usize = from;
    while i < pieces.len()
        invariant
            from <= i <= pieces.len(),
            strings.deep_view() == piece_views(pieces@).subrange(from as int, i as int),
        decreases pieces.len() - i,
    {
        let s = string_of(&pieces[i]);
        let ghost before = strings.deep_view();
        let ghost sv = s@;
        strings.push(s);
        assert(strings.deep_view() =~= before.push(sv));
        assert(strings.deep_view() =~= piece_views(pieces@).subrange(from as int, i + 1));
        i = i + 1;
    }
    assert(piece_views(pieces@).subrange(from as int, pieces.len() as int) =~= piece_views(pieces@).skip(from as int));
    strings
}

/// The program of a command line and its arguments: the command split on
/// single spaces, the first piece being the program.
pub fn split_command(command: &str) -> (res: (String, Vec<String>))
    ensures
        res.0@ == split_on(command@, ' ')[0],
        res.1.deep_view() == split_on(command@, ' ').skip(1),
{
    let chars = chars_of(command);
    let pieces = split_chars(&chars, ' ');
    proof {
        lemma_split_nonempty(command@, ' ');
    }
    let program = string_of(&pieces[0]);
    assert(piece_views(pieces@)[0] == pieces@[0]@);
    let args = strings_of(&pieces, 1);
    (program, args)
}

/// The player command: the one that the `PLAYER` variable sets, else
/// `mpv --ytdl`.
pub fn player_command(from_env: Option<String>) -> (command: String)
    ensures
        command@ == (match from_env {
            Some(c) => c@,
            None => "mpv --ytdl"@,
        }),
{
    match from_env {
        Some(c) => c,
        None => String::from_str("mpv --ytdl"),
    }
}

/// The output template used when no download directory is set.
pub open spec fn default_download_template() -> Seq<char> {
    "$HOME/Downloads/%(title)s-%(id)s.%(ext)s"@
}

/// The downloader command: the one that the `DOWNLOADER` variable sets,
/// else `youtube-dl` writing to the download directory that
/// `XDG_DOWNLOAD_DIR` names, or to a template under `$HOME/Downloads`.
pub fn downloader_command(from_env: Option<String>, download_dir: Option<String>) -> (command:
    String)
    ensures
        command@ == (match from_env {
            Some(c) => c@,
            None => "youtube-dl --output "@ + (match download_dir {
                Some(d) => d@,
                None => default_download_template(),
            }),
        }),
{
    match from_env {
        Some(c) => c,
        None => {
            let dir = match download_dir {
                Some(d) => d,
                None => String::from_str("$HOME/Downloads/%(title)s-%(id)s.%(ext)s"),
            };
            let mut command = String::from_str("youtube-dl --output ");
            command.append(dir.as_str());
            command
        },
    }
}


/// A line without the carriage return that ends it, if any.
pub open spec fn strip_cr(line: Seq<char>) -> Seq<char> {
    if line.len() > 0 && line.last() == '\r' {
        line.drop_last()
    } else {
        line
    }
}

/// The lines of `s`, as `str::lines` gives them: split at `\n`, a `\r` just
/// before a `\n` dropped, and no empty line after a final `\n`.
pub open spec fn lines_of(s: Seq<char>) -> Seq<Seq<char>> {
    let raw = split_on(s, '\n');
    let ended = raw.drop_last().map_values(|l: Seq<char>| strip_cr(l));
    if raw.last().len() == 0 {
        ended
    } else {
        ended.push(raw.last())
    }
}

/// The line that the downloader prints when it merges formats into a file.
pub open spec fn merge_prefix() -> Seq<char> {
    "[Merger] Merging formats into "@
}

/// The line that the downloader prints when it writes a file.
pub open spec fn destination_prefix() -> Seq<char> {
    "[download] Destination: "@
}

/// Whether a line of the downloader's output names the file it wrote.
pub open spec fn is_destination_line(line: Seq<char>) -> bool {
    starts_with(line, merge_prefix()) || starts_with(line, destination_prefix())
}

/// `line` without `prefix` if it starts with it.
pub open spec fn strip_prefix(line: Seq<char>, prefix: Seq<char>) -> Seq<char> {
    if starts_with(line, prefix) {
        line.skip(prefix.len() as int)
    } else {
        line
    }
}

/// `s` without the occurrences of `c` at its start.
pub open spec fn strip_leading(s: Seq<char>, c: char) -> Seq<char>
    decreases s.len(),
{
    if s.len() > 0 && s[0] == c {
        strip_leading(s.skip(1), c)
    } else {
        s
    }
}

/// `s` without the occurrences of `c` at its end.
pub open spec fn strip_trailing(s: Seq<char>, c: char) -> Seq<char>
    decreases s.len(),
{
    if s.len() > 0 && s.last() == c {
        strip_trailing(s.drop_last(), c)
    } else {
        s
    }
}

/// `s` without the occurrences of `c` at either end (`str::trim_matches`).
pub open spec fn trim_char(s: Seq<char>, c: char) -> Seq<char> {
    strip_trailing(strip_leading(s, c), c)
}

/// The index of the last line that names a written file.
pub open spec fn last_destination(lines: Seq<Seq<char>>) -> Option<int>
    decreases lines.len(),
{
    if lines.len() == 0 {
        None
    } else if is_destination_line(lines.last()) {
        Some(lines.len() - 1)
    } else {
        last_destination(lines.drop_last())
    }
}

/// The file that the downloader's output names last: the last line that
/// starts with the merge or the destination message, without that message
/// and without quotes around it; empty when no line names one.
pub open spec fn destination_of(output: Seq<char>) -> Seq<char> {
    let lines = lines_of(output);
    match last_destination(lines) {
        Some(i) => trim_char(
            strip_prefix(strip_prefix(lines[i], merge_prefix()), destination_prefix()),
            '"',
        ),
        None => Seq::empty(),
    }
}

/// The characters `v[from..to]`.
fn copy_range(v: &Vec<char>, from: usize, to: usize) -> (r: Vec<char>)
    requires
        from <= to <= v@.len(),
    ensures
        r@ == v@.subrange(from as int, to as int),
{
    let mut r: Vec<char> = Vec::new();
    let mut i: usize = from;
    while i < to
        invariant
            from <= i <= to,
            to <= v@.len(),
            r@ == v@.subrange(from as int, i as int),
        decreases to - i,
    {
        r.push(v[i]);
        i = i + 1;
        assert(r@ =~= v@.subrange(from as int, i as int));
    }
    r
}

/// The lines of the characters `chars`.
fn lines_of_chars(chars: &Vec<char>) -> (lines: Vec<Vec<char>>)
    ensures
        piece_views(lines@) == lines_of(chars@),
{
    let raw = split_chars(chars, '\n');
    proof {
        lemma_split_nonempty(chars@, '\n');
    }
    let ghost raw_view = piece_views(raw@);
    let ghost ended = raw_view.drop_last().map_values(|l: Seq<char>| strip_cr(l));
    let mut lines: Vec<Vec<char>> = Vec::new();
    let mut i: usize = 0;
    while i + 1 < raw.len()
        invariant
            raw_view == piece_views(raw@),
            raw_view.len() >= 1,
            ended == raw_view.drop_last().map_values(|l: Seq<char>| strip_cr(l)),
            i + 1 <= raw.len(),
            piece_views(lines@) == ended.take(i as int),
        decreases raw.len() - i,
    {
        let line = &raw[i];
        let n: usize = line.len();
        let stripped = if n > 0 && line[n - 1] == '\r' {
            copy_range(line, 0, n - 1)
        } else {
            copy_range(line, 0, n)
        };
        proof {
            assert(raw_view[i as int] == line@);
            assert(line@.subrange(0, n as int) =~= line@);
            assert(line@.subrange(0, n - 1) =~= line@.drop_last()) by {
                if n > 0 {
                    assert(line@.subrange(0, n - 1) =~= line@.drop_last());
                }
            };
        }
        let ghost before = piece_views(lines@);
        let ghost sv = stripped@;
        lines.push(stripped);
        assert(piece_views(lines@) =~= before.push(sv));
        i = i + 1;
        assert(piece_views(lines@) =~= ended.take(i as int));
    }
    assert(ended.take(i as int) =~= ended);
    let last = &raw[raw.len() - 1];
    assert(raw_view.last() == last@);
    if last.len() > 0 {
        let copy = copy_range(last, 0, last.len());
        assert(last@.subrange(0, last@.len() as int) =~= last@);
        let ghost before = piece_views(lines@);
        let ghost cv = copy@;
        lines.push(copy);
        assert(piece_views(lines@) =~= before.push(cv));
    }
    lines
}

/// Where the downloader put the file, as its output says (see
/// `destination_of`); empty when it does not say.
pub fn download_destination(output: &str) -> (destination: String)
    ensures
        destination@ == destination_of(output@),
{
    let chars = chars_of(output);
    let lines = lines_of_chars(&chars);
    let merge = chars_of("[Merger] Merging formats into ");
    let dest = chars_of("[download] Destination: ");
    let ghost views = piece_views(lines@);
    let mut j: usize = lines.len();
    assert(views.take(j as int) =~= views);
    while j > 0
        invariant
            views == piece_views(lines@),
            views == lines_of(output@),
            merge@ == merge_prefix(),
            dest@ == destination_prefix(),
            j <= lines.len(),
            last_destination(views) == last_destination(views.take(j as int)),
        decreases j,
    {
        let line = &lines[j - 1];
        assert(views[j - 1] == line@);
        assert(views.take(j as int).drop_last() =~= views.take(j - 1));
        assert(views.take(j as int).last() == line@);
        if matches_at(line, &merge, 0) || matches_at(line, &dest, 0) {
            let mut from: usize = 0;
            if matches_at(line, &merge, 0) {
                from = merge.len();
            }
            let ghost once = strip_prefix(line@, merge_prefix());
            assert(once =~= line@.subrange(from as int, line@.len() as int));
            if matches_at(line, &dest, from) {
                assert(from + dest.len() <= line.len());
                from = from + dest.len();
            }
            let ghost twice = strip_prefix(once, destination_prefix());
            assert(starts_with(once, destination_prefix()) == occurs_at(line@, dest@, (line@.len() - once.len()) as int)) by {
                if once.len() >= dest@.len() {
                    assert(once.subrange(0, dest@.len() as int) =~= line@.subrange(line@.len() - once.len(), line@.len() - once.len() + dest@.len()));
                }
            };
            assert(twice =~= line@.subrange(from as int, line@.len() as int));
            let (a, b) = trim_range(line, from, line.len(), '"');
            assert(trim_char(twice, '"') == line@.subrange(a as int, b as int));
            return string_of_range(line, a, b);
        }
        j = j - 1;
    }
    assert(views.take(0) =~= Seq::<Seq<char>>::empty());
    String::new()
}

/// The bounds of `v[from..to]` without the occurrences of `c` at either end.
fn trim_range(v: &Vec<char>, from: usize, to: usize, c: char) -> (r: (usize, usize))
    requires
        from <= to <= v@.len(),
    ensures
        r.0 <= r.1 <= v@.len(),
        trim_char(v@.subrange(from as int, to as int), c) == v@.subrange(r.0 as int, r.1 as int),
{
    let mut a: usize = from;
    while a < to && v[a] == c
        invariant
            from <= a <= to <= v@.len(),
            strip_leading(v@.subrange(from as int, to as int), c) == strip_leading(
                v@.subrange(a as int, to as int),
                c,
            ),
        decreases to - a,
    {
        assert(v@.subrange(a as int, to as int).skip(1) =~= v@.subrange(a + 1, to as int));
        a = a + 1;
    }
    let ghost lead = v@.subrange(a as int, to as int);
    assert(strip_leading(lead, c) == lead);
    let mut b: usize = to;
    while b > a && v[b - 1] == c
        invariant
            a <= b <= to <= v@.len(),
            strip_trailing(lead, c) == strip_trailing(v@.subrange(a as int, b as int), c),
        decreases b - a,
    {
        assert(v@.subrange(a as int, b as int).drop_last() =~= v@.subrange(a as int, b - 1));
        b = b - 1;
    }
    (a, b)
}

} // verus!
