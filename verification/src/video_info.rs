//! What the video information window and the thumbnail cache show and use:
//! the description as markup, the counters as decimal text, and the name of
//! the cached thumbnail file.
use vstd::prelude::*;
use crate::text::{chars_of, matches_at, occurs_at, string_of};

verus! {

/// `s` with every occurrence of `pattern`, from left to right and without
/// overlap, replaced by `replacement` (`str::replace` with a non-empty
/// pattern).
pub open spec fn replace_all(s: Seq<char>, pattern: Seq<char>, replacement: Seq<char>) -> Seq<char>
    recommends
        pattern.len() > 0,
    decreases s.len(),
    when pattern.len() > 0
{
    if s.len() == 0 {
        Seq::empty()
    } else if occurs_at(s, pattern, 0) {
        replacement + replace_all(s.skip(pattern.len() as int), pattern, replacement)
    } else {
        seq![s[0]] + replace_all(s.skip(1), pattern, replacement)
    }
}

/// An occurrence in a suffix is an occurrence in the whole text, `m` places
/// further on.
proof fn lemma_occurs_skip(s: Seq<char>, p: Seq<char>, m: int, k: int)
    requires
        0 <= m <= s.len(),
        0 <= k,
    ensures
        occurs_at(s.skip(m), p, k) == occurs_at(s, p, k + m),
{
    if k + m + p.len() <= s.len() {
        assert(s.skip(m).subrange(k, k + p.len()) =~= s.subrange(k + m, k + m + p.len()));
    }
}

/// An occurrence in a text is an occurrence in the text with something put
/// in front, that much further on.
proof fn lemma_occurs_prefixed(pre: Seq<char>, s: Seq<char>, p: Seq<char>, k: int)
    requires
        0 <= k,
    ensures
        occurs_at(pre + s, p, k + pre.len()) == occurs_at(s, p, k),
{
    if k + p.len() <= s.len() {
        assert((pre + s).subrange(k + pre.len(), k + pre.len() + p.len()) =~= s.subrange(
            k,
            k + p.len(),
        ));
    }
}

/// A text in which the pattern does not occur is left as it is.
pub proof fn lemma_replace_without_occurrence(s: Seq<char>, p: Seq<char>, r: Seq<char>)
    requires
        p.len() > 0,
        forall|k: int| !#[trigger] occurs_at(s, p, k),
    ensures
        replace_all(s, p, r) == s,
    decreases s.len(),
{
    if s.len() > 0 {
        assert(!occurs_at(s, p, 0));
        assert forall|k: int| !#[trigger] occurs_at(s.skip(1), p, k) by {
            if k >= 0 {
                lemma_occurs_skip(s, p, 1, k);
                assert(!occurs_at(s, p, k + 1));
            }
        }
        lemma_replace_without_occurrence(s.skip(1), p, r);
        assert(seq![s[0]] + s.skip(1) =~= s);
    }
}

/// The first occurrence of the pattern is replaced, and the replacing goes on
/// in the text after it: what comes before the first occurrence is kept as
/// it is.
pub proof fn lemma_replace_first_occurrence(s: Seq<char>, p: Seq<char>, r: Seq<char>, i: int)
    requires
        p.len() > 0,
        occurs_at(s, p, i),
        forall|k: int| 0 <= k < i ==> !#[trigger] occurs_at(s, p, k),
    ensures
        replace_all(s, p, r) == s.take(i) + r + replace_all(s.skip(i + p.len()), p, r),
    decreases i,
{
    if i == 0 {
        assert(s.take(0) + r =~= r);
    } else {
        assert(!occurs_at(s, p, 0));
        let t = s.skip(1);
        lemma_occurs_skip(s, p, 1, i - 1);
        assert forall|k: int| 0 <= k < i - 1 implies !#[trigger] occurs_at(t, p, k) by {
            lemma_occurs_skip(s, p, 1, k);
            assert(!occurs_at(s, p, k + 1));
        }
        lemma_replace_first_occurrence(t, p, r, i - 1);
        assert(t.skip(i - 1 + p.len()) =~= s.skip(i + p.len()));
        assert(seq![s[0]] + (t.take(i - 1) + r + replace_all(s.skip(i + p.len()), p, r)) =~= s.take(
            i,
        ) + r + replace_all(s.skip(i + p.len()), p, r));
    }
}

/// Where no character of the replacement is one of the pattern's, the
/// result starts with the text itself as far as it holds no character of the
/// replacement.
proof fn lemma_replace_prefix(s: Seq<char>, p: Seq<char>, r: Seq<char>, m: int)
    requires
        p.len() > 0,
        r.len() > 0,
        0 <= m <= replace_all(s, p, r).len(),
        forall|j: int| 0 <= j < m ==> !r.contains(#[trigger] replace_all(s, p, r)[j]),
    ensures
        m <= s.len(),
        replace_all(s, p, r).take(m) == s.take(m),
    decreases s.len(),
{
    let out = replace_all(s, p, r);
    if m > 0 && s.len() > 0 {
        if occurs_at(s, p, 0) {
            assert(out[0] == r[0]);
            assert(r.contains(out[0]));
        } else {
            let rest = replace_all(s.skip(1), p, r);
            assert(out == seq![s[0]] + rest);
            assert forall|j: int| 0 <= j < m - 1 implies !r.contains(#[trigger] rest[j]) by {
                assert(out[j + 1] == rest[j]);
            }
            lemma_replace_prefix(s.skip(1), p, r, m - 1);
            assert(out.take(m) =~= seq![s[0]] + rest.take(m - 1));
            assert(s.take(m) =~= seq![s[0]] + s.skip(1).take(m - 1));
        }
    }
}

/// Every occurrence of the pattern is replaced: where the replacement is not
/// empty and holds no character of the pattern, the pattern no longer occurs
/// in the result.
pub proof fn lemma_replace_leaves_no_occurrence(s: Seq<char>, p: Seq<char>, r: Seq<char>)
    requires
        p.len() > 0,
        r.len() > 0,
        forall|j: int| 0 <= j < r.len() ==> !p.contains(#[trigger] r[j]),
    ensures
        forall|k: int| !#[trigger] occurs_at(replace_all(s, p, r), p, k),
    decreases s.len(),
{
    let out = replace_all(s, p, r);
    if s.len() > 0 {
        if occurs_at(s, p, 0) {
            let rest = replace_all(s.skip(p.len() as int), p, r);
            lemma_replace_leaves_no_occurrence(s.skip(p.len() as int), p, r);
            assert(out == r + rest);
            assert forall|k: int| !#[trigger] occurs_at(out, p, k) by {
                if 0 <= k < r.len() && occurs_at(out, p, k) {
                    assert(out.subrange(k, k + p.len())[0] == out[k]);
                    assert(out[k] == r[k]);
                    assert(p[0] == r[k]);
                    assert(p.contains(r[k]));
                } else if k >= r.len() {
                    lemma_occurs_prefixed(r, rest, p, k - r.len());
                }
            }
        } else {
            let rest = replace_all(s.skip(1), p, r);
            lemma_replace_leaves_no_occurrence(s.skip(1), p, r);
            assert(out == seq![s[0]] + rest);
            assert forall|k: int| !#[trigger] occurs_at(out, p, k) by {
                if k == 0 && occurs_at(out, p, 0) {
                    let m = p.len() - 1;
                    assert forall|j: int| 0 <= j < m implies !r.contains(#[trigger] rest[j]) by {
                        assert(out[j + 1] == rest[j]);
                        assert(out.subrange(0, p.len() as int)[j + 1] == out[j + 1]);
                        assert(p[j + 1] == rest[j]);
                        if r.contains(rest[j]) {
                            let q = choose|q: int| 0 <= q < r.len() && r[q] == rest[j];
                            assert(p.contains(r[q]));
                        }
                    }
                    lemma_replace_prefix(s.skip(1), p, r, m);
                    assert(s.subrange(0, p.len() as int) =~= seq![s[0]] + s.skip(1).take(m));
                    assert(out.subrange(0, p.len() as int) =~= seq![s[0]] + rest.take(m));
                } else if k >= 1 {
                    lemma_occurs_prefixed(seq![s[0]], rest, p, k - 1);
                }
            }
        }
    }
}

/// Where a single character is replaced by a text that starts with it and
/// holds it nowhere else, every place of the character in the result starts
/// a replacement: none is left unreplaced.
pub proof fn lemma_replace_char_escapes(s: Seq<char>, c: char, r: Seq<char>)
    requires
        r.len() > 0,
        r[0] == c,
        forall|j: int| 1 <= j < r.len() ==> #[trigger] r[j] != c,
    ensures
        forall|k: int|
            0 <= k < replace_all(s, seq![c], r).len() && #[trigger] replace_all(s, seq![c], r)[k]
                == c ==> occurs_at(replace_all(s, seq![c], r), r, k),
    decreases s.len(),
{
    let p = seq![c];
    let out = replace_all(s, p, r);
    if s.len() > 0 {
        if occurs_at(s, p, 0) {
            let rest = replace_all(s.skip(1), p, r);
            lemma_replace_char_escapes(s.skip(1), c, r);
            assert(out == r + rest);
            assert forall|k: int| 0 <= k < out.len() && #[trigger] out[k] == c implies occurs_at(
                out,
                r,
                k,
            ) by {
                if k < r.len() {
                    assert(out[k] == r[k]);
                    assert(k == 0);
                    assert(out.subrange(0, r.len() as int) =~= r);
                } else {
                    assert(out[k] == rest[k - r.len()]);
                    lemma_occurs_prefixed(r, rest, r, k - r.len());
                }
            }
        } else {
            let rest = replace_all(s.skip(1), p, r);
            lemma_replace_char_escapes(s.skip(1), c, r);
            assert(out == seq![s[0]] + rest);
            assert(s[0] != c) by {
                if s[0] == c {
                    assert(s.subrange(0, 1) =~= p);
                }
            }
            assert forall|k: int| 0 <= k < out.len() && #[trigger] out[k] == c implies occurs_at(
                out,
                r,
                k,
            ) by {
                if k >= 1 {
                    assert(out[k] == rest[k - 1]);
                    lemma_occurs_prefixed(seq![s[0]], rest, r, k - 1);
                }
            }
        }
    }
}

/// The characters of `chars` with every occurrence of `pattern` replaced.
pub fn replace_chars(chars: &Vec<char>, pattern: &Vec<char>, replacement: &Vec<char>) -> (r: Vec<char>)
    requires
        pattern@.len() > 0,
    ensures
        r@ == replace_all(chars@, pattern@, replacement@),
{
    let mut out: Vec<char> = Vec::new();
    let mut i: usize = 0;
    assert(chars@.skip(0) =~= chars@);
    while i < chars.len()
        invariant
            pattern@.len() > 0,
            i <= chars@.len(),
            replace_all(chars@, pattern@, replacement@) == out@ + replace_all(
                chars@.skip(i as int),
                pattern@,
                replacement@,
            ),
        decreases chars@.len() - i,
    {
        let ghost rest = chars@.skip(i as int);
        if matches_at(chars, pattern, i) {
            assert(occurs_at(rest, pattern@, 0)) by {
                assert(rest.subrange(0, pattern@.len() as int) =~= chars@.subrange(
                    i as int,
                    i + pattern@.len(),
                ));
            };
            assert(rest.skip(pattern@.len() as int) =~= chars@.skip(i + pattern@.len()));
            let ghost before = out@;
            let mut k: usize = 0;
            while k < replacement.len()
                invariant
                    k <= replacement@.len(),
                    out@ == before + replacement@.take(k as int),
                decreases replacement@.len() - k,
            {
                out.push(replacement[k]);
                k = k + 1;
                assert(out@ =~= before + replacement@.take(k as int));
            }
            assert(replacement@.take(replacement@.len() as int) =~= replacement@);
            assert(out@ + replace_all(chars@.skip(i + pattern@.len()), pattern@, replacement@)
                =~= before + (replacement@ + replace_all(
                rest.skip(pattern@.len() as int),
                pattern@,
                replacement@,
            )));
            i = i + pattern.len();
        } else {
            assert(!occurs_at(rest, pattern@, 0)) by {
                if rest.len() >= pattern@.len() {
                    assert(rest.subrange(0, pattern@.len() as int) =~= chars@.subrange(
                        i as int,
                        i + pattern@.len(),
                    ));
                }
            };
            assert(rest.skip(1) =~= chars@.skip(i + 1));
            let ghost before = out@;
            out.push(chars[i]);
            assert(out@ + replace_all(chars@.skip(i + 1), pattern@, replacement@) =~= before + (
            seq![rest[0]] + replace_all(rest.skip(1), pattern@, replacement@)));
            i = i + 1;
        }
    }
    assert(chars@.skip(i as int) =~= Seq::<char>::empty());
    assert(out@ + Seq::<char>::empty() =~= out@);
    out
}

/// The description of a video as markup: line breaks for `<br>`, no
/// `&nbsp;`, and every `&` escaped.
pub open spec fn description_markup(desc: Seq<char>) -> Seq<char> {
    replace_all(
        replace_all(replace_all(desc, "<br>"@, "\n"@), "&nbsp;"@, ""@),
        "&"@,
        "&amp;"@,
    )
}

/// Every `<br>` of the description becomes a line break: none is left after
/// that step.
pub proof fn lemma_markup_breaks_replaced(desc: Seq<char>)
    ensures
        forall|k: int| !#[trigger] occurs_at(replace_all(desc, "<br>"@, "\n"@), "<br>"@, k),
{
    reveal_strlit("<br>");
    reveal_strlit("\n");
    let p = "<br>"@;
    let r = "\n"@;
    assert forall|j: int| 0 <= j < r.len() implies !p.contains(#[trigger] r[j]) by {
        assert(r[j] == '\n');
        if p.contains('\n') {
            let q = choose|q: int| 0 <= q < p.len() && p[q] == '\n';
        }
    }
    lemma_replace_leaves_no_occurrence(desc, p, r);
}

/// The markup is escaped: every `&` in it starts `&amp;`.
pub proof fn lemma_markup_ampersands_escaped(desc: Seq<char>)
    ensures
        forall|k: int|
            0 <= k < description_markup(desc).len() && #[trigger] description_markup(desc)[k]
                == '&' ==> occurs_at(description_markup(desc), "&amp;"@, k),
{
    reveal_strlit("&");
    reveal_strlit("&amp;");
    let r = "&amp;"@;
    assert("&"@ =~= seq!['&']);
    assert forall|j: int| 1 <= j < r.len() implies #[trigger] r[j] != '&' by {}
    lemma_replace_char_escapes(
        replace_all(replace_all(desc, "<br>"@, "\n"@), "&nbsp;"@, ""@),
        '&',
        r,
    );
}

/// The description of a video as markup (see `description_markup`).
pub fn format_description(desc: &str) -> (markup: String)
    ensures
        markup@ == description_markup(desc@),
{
    let chars = chars_of(desc);
    let br = chars_of("<br>");
    let newline = chars_of("\n");
    let nbsp = chars_of("&nbsp;");
    let nothing = chars_of("");
    let amp = chars_of("&");
    let escaped = chars_of("&amp;");
    proof {
        reveal_strlit("<br>");
        reveal_strlit("&nbsp;");
        reveal_strlit("&");
    }
    let step1 = replace_chars(&chars, &br, &newline);
    let step2 = replace_chars(&step1, &nbsp, &nothing);
    let step3 = replace_chars(&step2, &amp, &escaped);
    string_of(&step3)
}

/// The decimal digit for `d`.
pub open spec fn digit(d: nat) -> char {
    (('0' as int) + d) as char
}

/// The decimal text of `n`, without leading zeros.
pub open spec fn decimal(n: nat) -> Seq<char>
    decreases n,
{
    if n < 10 {
        seq![digit(n)]
    } else {
        decimal(n / 10).push(digit(n % 10))
    }
}

/// Whether `c` is a decimal digit.
pub open spec fn is_digit(c: char) -> bool {
    '0' <= c && c <= '9'
}

/// The number that a text of decimal digits stands for, the last digit
/// counting ones.
pub open spec fn digits_value(ds: Seq<char>) -> int
    decreases ds.len(),
{
    if ds.len() == 0 {
        0
    } else {
        digits_value(ds.drop_last()) * 10 + ((ds.last() as int) - ('0' as int))
    }
}

/// Ten to the power `k`.
pub open spec fn pow10(k: nat) -> nat
    decreases k,
{
    if k == 0 {
        1
    } else {
        10 * pow10((k - 1) as nat)
    }
}

/// The decimal text of a number reads back as that number: it is made of
/// digits, the number they stand for is `n`, it has no leading zero (but for
/// `0` itself), and it has as many digits as `n` has: `n` lies between ten to
/// the power of one less than its length and ten to the power of its length.
pub proof fn lemma_decimal_reads_back(n: nat)
    ensures
        decimal(n).len() > 0,
        forall|i: int| 0 <= i < decimal(n).len() ==> is_digit(#[trigger] decimal(n)[i]),
        digits_value(decimal(n)) == n,
        n > 0 ==> decimal(n)[0] != '0',
        n == 0 ==> decimal(n) == seq!['0'],
        n < pow10(decimal(n).len()),
        decimal(n).len() > 1 ==> pow10((decimal(n).len() - 1) as nat) <= n,
    decreases n,
{
    let d = decimal(n);
    if n < 10 {
        assert(d == seq![digit(n)]);
        assert(d.drop_last() =~= Seq::<char>::empty());
        assert(digits_value(Seq::<char>::empty()) == 0);
        assert(d.last() == digit(n));
        assert((digit(n) as int) == 48 + n);
        assert(digits_value(d) == digits_value(d.drop_last()) * 10 + ((d.last() as int) - 48));
        assert(pow10(1) == 10) by {
            assert(pow10(0) == 1);
        }
    } else {
        let q = n / 10;
        lemma_decimal_reads_back(q);
        let dq = decimal(q);
        assert(d == dq.push(digit(n % 10)));
        assert(d.drop_last() =~= dq);
        assert((digit(n % 10) as int) == 48 + n % 10);
        assert(q * 10 + n % 10 == n);
        assert(d.last() == digit(n % 10));
        assert(digits_value(d) == digits_value(dq) * 10 + ((d.last() as int) - 48));
        assert forall|i: int| 0 <= i < d.len() implies is_digit(#[trigger] d[i]) by {
            if i < dq.len() {
                assert(d[i] == dq[i]);
            }
        }
        assert(d[0] == dq[0]);
        assert(q > 0);
        assert(pow10(d.len()) == 10 * pow10(dq.len()));
        if dq.len() > 1 {
            assert(pow10((d.len() - 1) as nat) == 10 * pow10((dq.len() - 1) as nat));
        } else {
            assert(pow10(1) == 10) by {
                assert(pow10(0) == 1);
            }
        }
    }
}

/// Appends the decimal text of `n` to `s`.
pub fn push_decimal(s: &mut String, n: u64)
    ensures
        final(s)@ == old(s)@ + decimal(n as nat),
    decreases n,
{
    if n >= 10 {
        push_decimal(s, n / 10);
    }
    s.push(digit_char(n % 10));
}

/// The decimal digit for `d`.
fn digit_char(d: u64) -> (c: char)
    requires
        d < 10,
    ensures
        c == digit(d as nat),
{
    match d {
        0 => '0',
        1 => '1',
        2 => '2',
        3 => '3',
        4 => '4',
        5 => '5',
        6 => '6',
        7 => '7',
        8 => '8',
        _ => '9',
    }
}

/// The text shown for a counter (likes, dislikes, views): its decimal value,
/// or nothing when the platform does not give it (the counter is then hidden).
pub fn counter_text(count: Option<u64>) -> (text: Option<String>)
    ensures
        match count {
            Some(n) => text matches Some(t) && t@ == decimal(n as nat),
            None => text is None,
        },
{
    match count {
        Some(n) => {
            let mut t = String::new();
            push_decimal(&mut t, n);
            assert(t@ =~= decimal(n as nat));
            Some(t)
        },
        None => None,
    }
}

/// The name of the file in which the thumbnail of the video at `url` is
/// cached: the URL with `_` for every `/`, and `.jpeg`.
pub open spec fn thumbnail_file_name_of(url: Seq<char>) -> Seq<char> {
    url.map_values(
        |c: char|
            if c == '/' {
                '_'
            } else {
                c
            },
    ) + ".jpeg"@
}

/// The name of a cached thumbnail keeps the whole URL, each `/` as `_`, and
/// ends in `.jpeg`.
pub proof fn lemma_thumbnail_name_keeps_url(url: Seq<char>)
    ensures
        thumbnail_file_name_of(url).len() == url.len() + 5,
        thumbnail_file_name_of(url).skip(url.len() as int) == ".jpeg"@,
        forall|i: int|
            0 <= i < url.len() ==> #[trigger] thumbnail_file_name_of(url)[i] == if url[i] == '/' {
                '_'
            } else {
                url[i]
            },
{
    reveal_strlit(".jpeg");
    let name = thumbnail_file_name_of(url);
    assert(name.skip(url.len() as int) =~= ".jpeg"@);
}

/// Two videos with different URLs (without `_`) get different thumbnail
/// files: no URL shares the cached thumbnail of another.
pub proof fn lemma_thumbnail_names_differ(url1: Seq<char>, url2: Seq<char>)
    requires
        !url1.contains('_'),
        !url2.contains('_'),
        url1 != url2,
    ensures
        thumbnail_file_name_of(url1) != thumbnail_file_name_of(url2),
{
    lemma_thumbnail_name_keeps_url(url1);
    lemma_thumbnail_name_keeps_url(url2);
    let n1 = thumbnail_file_name_of(url1);
    let n2 = thumbnail_file_name_of(url2);
    if n1 == n2 {
        assert(url1.len() == url2.len());
        assert forall|i: int| 0 <= i < url1.len() implies url1[i] == url2[i] by {
            assert(n1[i] == n2[i]);
            if url1[i] == '/' && url2[i] != '/' {
                assert(url2.contains(url2[i]));
            } else if url1[i] != '/' && url2[i] == '/' {
                assert(url1.contains(url1[i]));
            }
        }
        assert(url1 =~= url2);
    }
}

/// The name of the file in which the thumbnail of the video at `url` is
/// cached (see `thumbnail_file_name_of`).
pub fn thumbnail_file_name(url: &str) -> (name: String)
    ensures
        name@ == thumbnail_file_name_of(url@),
{
    let chars = chars_of(url);
    let mut out: Vec<char> = Vec::new();
    let mut i: usize = 0;
    while i < chars.len()
        invariant
            i <= chars@.len(),
            out@ == chars@.take(i as int).map_values(
                |c: char|
                    if c == '/' {
                        '_'
                    } else {
                        c
                    },
            ),
        decreases chars@.len() - i,
    {
        let c = chars[i];
        if c == '/' {
            out.push('_');
        } else {
            out.push(c);
        }
        i = i + 1;
        assert(out@ =~= chars@.take(i as int).map_values(
            |c: char|
                if c == '/' {
                    '_'
                } else {
                    c
                },
        ));
    }
    assert(chars@.take(chars@.len() as int) =~= chars@);
    let mut name = string_of(&out);
    name.append(".jpeg");
    name
}

/// What the `image` crate makes of the bytes of a thumbnail: the image that
/// `image::load_from_memory` decodes from them, encoded as JPEG (what
/// `DynamicImage::save` writes to a `.jpeg` file); `None` where the bytes do
/// not decode or the image does not encode.
pub uninterp spec fn thumbnail_jpeg_of(bytes: Seq<u8>) -> Option<Seq<u8>>;

/// Calls `image::load_from_memory` on the bytes and encodes the image with
/// `DynamicImage::write_to` as JPEG of quality 75, the quality of
/// `JpegEncoder::new` that `save` uses. The contract only names the result:
/// `thumbnail_jpeg_of` of the bytes.
#[verifier::external_body]
fn thumbnail_jpeg(bytes: &[u8]) -> (jpeg: Option<Vec<u8>>)
    ensures
        match jpeg {
            Some(v) => thumbnail_jpeg_of(bytes@) == Some(v@),
            None => thumbnail_jpeg_of(bytes@) is None,
        },
{
    let image = match image::load_from_memory(bytes) {
        Ok(image) => image,
        Err(_) => return None,
    };
    let mut out = std::io::Cursor::new(Vec::new());
    match image.write_to(&mut out, image::ImageOutputFormat::Jpeg(75)) {
        Ok(()) => Some(out.into_inner()),
        Err(_) => None,
    }
}

/// The bytes of the cached thumbnail file, from the bytes downloaded for it
/// (`None` where the download failed): the downloaded image as JPEG, and
/// nothing to write where the download failed or the image could not be
/// read.
pub fn thumbnail_file_bytes(downloaded: Option<&[u8]>) -> (file: Option<Vec<u8>>)
    ensures
        match downloaded {
            None => file is None,
            Some(bytes) => match file {
                Some(v) => thumbnail_jpeg_of(bytes@) == Some(v@),
                None => thumbnail_jpeg_of(bytes@) is None,
            },
        },
{
    match downloaded {
        None => None,
        Some(bytes) => thumbnail_jpeg(bytes),
    }
}

} // verus!
