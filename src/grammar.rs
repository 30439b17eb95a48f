use vstd::prelude::*;

use crate::calendar::{date_shape, date_time_shape};
use crate::text::{all_digits, is_digit};

verus! {

/// End of the run of decimal digits that starts at `i`.
pub open spec fn digit_run(t: Seq<char>, i: int) -> int
    decreases t.len() - i,
{
    if 0 <= i < t.len() && is_digit(t[i]) {
        digit_run(t, i + 1)
    } else {
        i
    }
}

pub open spec fn is_int_type_name(s: Seq<char>) -> bool {
    s == seq!['i', 'n', 't'] || s == seq!['s', 'm', 'a', 'l', 'l', 'i', 'n', 't'] || s == seq![
        't',
        'i',
        'n',
        'y',
        'i',
        'n',
        't',
    ] || s == seq!['b', 'i', 'g', 'i', 'n', 't']
}

/// The pieces of an integer range `FROM..TO[/STEP[/TYPE]]`, where `TYPE` is
/// one of `int`, `smallint`, `tinyint` and `bigint`.
pub open spec fn int_range_pieces(t: Seq<char>) -> Option<
    (Seq<char>, Seq<char>, Option<Seq<char>>, Option<Seq<char>>),
> {
    let a = digit_run(t, 0);
    let b = digit_run(t, a + 2);
    let c = digit_run(t, b + 1);
    if a == 0 || a + 2 > t.len() || t[a] != '.' || t[a + 1] != '.' || b == a + 2 {
        None
    } else if b == t.len() {
        Some((t.subrange(0, a), t.subrange(a + 2, b), None, None))
    } else if t[b] != '/' || c == b + 1 {
        None
    } else if c == t.len() {
        Some((t.subrange(0, a), t.subrange(a + 2, b), Some(t.subrange(b + 1, c)), None))
    } else if t[c] == '/' && is_int_type_name(t.subrange(c + 1, t.len() as int)) {
        Some(
            (
                t.subrange(0, a),
                t.subrange(a + 2, b),
                Some(t.subrange(b + 1, c)),
                Some(t.subrange(c + 1, t.len() as int)),
            ),
        )
    } else {
        None
    }
}

/// A character that a custom output format may hold; date-time formats may
/// also hold `:`.
pub open spec fn is_format_char(c: char, with_colon: bool) -> bool {
    ('a' <= c && c <= 'z') || ('A' <= c && c <= 'Z') || c == '%' || c == '-' || c == '/' || (
    with_colon && c == ':')
}

pub open spec fn date_unit(c: char, with_time: bool) -> bool {
    c == 'm' || c == 'd' || c == 'w' || (with_time && (c == 'H' || c == 'M' || c == 'S'))
}

/// The pieces of a calendar range `START..END[/Nu[/FORMAT]]` whose bounds are
/// `width` characters long: start, end, step, unit and format.
pub open spec fn calendar_range_pieces(t: Seq<char>, width: int, with_time: bool) -> Option<
    (Seq<char>, Seq<char>, Option<(Seq<char>, Seq<char>)>, Option<Seq<char>>),
> {
    let bounds = 2 * width + 2;
    let c = digit_run(t, bounds + 1);
    let start = t.subrange(0, width);
    let end = t.subrange(width + 2, bounds);
    if t.len() < bounds || t[width] != '.' || t[width + 1] != '.' {
        None
    } else if t.len() == bounds {
        Some((start, end, None, None))
    } else if t[bounds] != '/' || c == bounds + 1 || c >= t.len() || !date_unit(t[c], with_time) {
        None
    } else if c + 1 == t.len() {
        Some((start, end, Some((t.subrange(bounds + 1, c), t.subrange(c, c + 1))), None))
    } else if t[c + 1] == '/' && c + 2 < t.len() && (forall|k: int|
        c + 2 <= k < t.len() ==> is_format_char(#[trigger] t[k], with_time)) {
        Some(
            (
                start,
                end,
                Some((t.subrange(bounds + 1, c), t.subrange(c, c + 1))),
                Some(t.subrange(c + 2, t.len() as int)),
            ),
        )
    } else {
        None
    }
}

/// The pieces of a date range `YYYY-MM-DD..YYYY-MM-DD[/Nu[/FORMAT]]`.
pub open spec fn date_range_pieces(t: Seq<char>) -> Option<
    (Seq<char>, Seq<char>, Option<(Seq<char>, Seq<char>)>, Option<Seq<char>>),
> {
    match calendar_range_pieces(t, 10, false) {
        Some(p) => if date_shape(p.0) && date_shape(p.1) {
            Some(p)
        } else {
            None
        },
        None => None,
    }
}

/// The pieces of a date-time range
/// `YYYY-MM-DDThh:mm:ss..YYYY-MM-DDThh:mm:ss[/Nu[/FORMAT]]`.
pub open spec fn date_time_range_pieces(t: Seq<char>) -> Option<
    (Seq<char>, Seq<char>, Option<(Seq<char>, Seq<char>)>, Option<Seq<char>>),
> {
    match calendar_range_pieces(t, 19, true) {
        Some(p) => if date_time_shape(p.0) && date_time_shape(p.1) {
            Some(p)
        } else {
            None
        },
        None => None,
    }
}

/// End of the run of decimal digits of `t` that starts at `i`.
fn scan_digits(t: &str, n: usize, i: usize) -> (r: usize)
    requires
        n == t@.len(),
        i <= n,
    ensures
        r as int == digit_run(t@, i as int),
        i <= r <= n,
{
    let mut j = i;
    loop
        invariant
            n == t@.len(),
            i <= j <= n,
            digit_run(t@, j as int) == digit_run(t@, i as int),
        ensures
            i <= j <= n,
            j as int == digit_run(t@, i as int),
        decreases n - j,
    {
        if j >= n {
            break;
        }
        let c = t.get_char(j);
        if !('0' <= c && c <= '9') {
            break;
        }
        j = j + 1;
    }
    j
}

/// `t[from..]` reads exactly `word`.
fn rest_is(t: &str, n: usize, from: usize, word: &str) -> (r: bool)
    requires
        n == t@.len(),
        from <= n,
    ensures
        r == (t@.subrange(from as int, n as int) == word@),
{
    let w = word.unicode_len();
    if n - from != w {
        return false;
    }
    let mut k: usize = 0;
    while k < w
        invariant
            n == t@.len(),
            from <= n,
            n - from == w,
            w == word@.len(),
            0 <= k <= w,
            forall|q: int| 0 <= q < k ==> t@[from + q] == word@[q],
        decreases w - k,
    {
        if t.get_char(from + k) != word.get_char(k) {
            assert(t@.subrange(from as int, n as int)[k as int] != word@[k as int]);
            return false;
        }
        k = k + 1;
    }
    assert(t@.subrange(from as int, n as int) =~= word@);
    true
}

pub open spec fn opt_view(s: Option<&str>) -> Option<Seq<char>> {
    match s {
        Some(x) => Some(x@),
        None => None,
    }
}

/// Splits an integer range `FROM..TO[/STEP[/TYPE]]` into its pieces; `None`
/// when `t` is no such range.
pub fn match_int_range<'a>(t: &'a str) -> (r: Option<(&'a str, &'a str, Option<&'a str>, Option<&'a str>)>)
    ensures
        match r {
            Some((a, b, c, d)) => int_range_pieces(t@) == Some((a@, b@, opt_view(c), opt_view(d))),
            None => int_range_pieces(t@) is None,
        },
{
    let n = t.unicode_len();
    let a = scan_digits(t, n, 0);
    if a == 0 || n - a < 2 {
        return None;
    }
    if t.get_char(a) != '.' || t.get_char(a + 1) != '.' {
        return None;
    }
    let b = scan_digits(t, n, a + 2);
    if b == a + 2 {
        return None;
    }
    let from = t.substring_char(0, a);
    let to = t.substring_char(a + 2, b);
    if b == n {
        return Some((from, to, None, None));
    }
    if t.get_char(b) != '/' {
        return None;
    }
    let c = scan_digits(t, n, b + 1);
    if c == b + 1 {
        return None;
    }
    let step = t.substring_char(b + 1, c);
    if c == n {
        return Some((from, to, Some(step), None));
    }
    if t.get_char(c) != '/' {
        return None;
    }
    proof {
        reveal_strlit("int");
        reveal_strlit("smallint");
        reveal_strlit("tinyint");
        reveal_strlit("bigint");
        assert("int"@ =~= seq!['i', 'n', 't']);
        assert("smallint"@ =~= seq!['s', 'm', 'a', 'l', 'l', 'i', 'n', 't']);
        assert("tinyint"@ =~= seq!['t', 'i', 'n', 'y', 'i', 'n', 't']);
        assert("bigint"@ =~= seq!['b', 'i', 'g', 'i', 'n', 't']);
    }
    if rest_is(t, n, c + 1, "int") || rest_is(t, n, c + 1, "smallint") || rest_is(t, n, c + 1, "tinyint")
        || rest_is(t, n, c + 1, "bigint") {
        Some((from, to, Some(step), Some(t.substring_char(c + 1, n))))
    } else {
        None
    }
}

/// Every character of `t[from..]` may stand in an output format.
fn all_format_chars(t: &str, n: usize, from: usize, with_colon: bool) -> (r: bool)
    requires
        n == t@.len(),
        from <= n,
    ensures
        r == (forall|k: int| from <= k < n ==> is_format_char(#[trigger] t@[k], with_colon)),
{
    let mut k = from;
    while k < n
        invariant
            n == t@.len(),
            from <= k <= n,
            forall|q: int| from <= q < k ==> is_format_char(#[trigger] t@[q], with_colon),
        decreases n - k,
    {
        let c = t.get_char(k);
        if !(('a' <= c && c <= 'z') || ('A' <= c && c <= 'Z') || c == '%' || c == '-' || c == '/' || (
        with_colon && c == ':')) {
            return false;
        }
        k = k + 1;
    }
    true
}

/// The pieces of a calendar range, as borrowed text: start, end, step and
/// unit, format.
pub type CalendarPieces<'a> = (&'a str, &'a str, Option<(&'a str, &'a str)>, Option<&'a str>);

pub open spec fn calendar_pieces_view(p: CalendarPieces) -> (
    Seq<char>,
    Seq<char>,
    Option<(Seq<char>, Seq<char>)>,
    Option<Seq<char>>,
) {
    (
        p.0@,
        p.1@,
        match p.2 {
            Some((a, b)) => Some((a@, b@)),
            None => None,
        },
        opt_view(p.3),
    )
}

fn match_calendar_range<'a>(t: &'a str, width: usize, with_time: bool) -> (r: Option<CalendarPieces<'a>>)
    requires
        width == 10 || width == 19,
    ensures
        match r {
            Some(p) => calendar_range_pieces(t@, width as int, with_time) == Some(
                calendar_pieces_view(p),
            ),
            None => calendar_range_pieces(t@, width as int, with_time) is None,
        },
{
    let n = t.unicode_len();
    let bounds = 2 * width + 2;
    if n < bounds || t.get_char(width) != '.' || t.get_char(width + 1) != '.' {
        return None;
    }
    let start = t.substring_char(0, width);
    let end = t.substring_char(width + 2, bounds);
    if n == bounds {
        return Some((start, end, None, None));
    }
    if t.get_char(bounds) != '/' {
        return None;
    }
    let c = scan_digits(t, n, bounds + 1);
    if c == bounds + 1 || c >= n {
        return None;
    }
    let u = t.get_char(c);
    if !(u == 'm' || u == 'd' || u == 'w' || (with_time && (u == 'H' || u == 'M' || u == 'S'))) {
        return None;
    }
    let step = t.substring_char(bounds + 1, c);
    let unit = t.substring_char(c, c + 1);
    if c + 1 == n {
        return Some((start, end, Some((step, unit)), None));
    }
    if t.get_char(c + 1) == '/' && c + 2 < n && all_format_chars(t, n, c + 2, with_time) {
        let fmt = t.substring_char(c + 2, n);
        Some((start, end, Some((step, unit)), Some(fmt)))
    } else {
        None
    }
}

/// `YYYY-MM-DD` at the start of `s`.
fn is_date_shape(s: &str) -> (r: bool)
    ensures
        r == date_shape(s@),
{
    if s.unicode_len() != 10 {
        return false;
    }
    let ok = all_digits_in(s, 0, 4) && s.get_char(4) == '-' && all_digits_in(s, 5, 7) && s.get_char(7)
        == '-' && all_digits_in(s, 8, 10);
    ok
}

/// `YYYY-MM-DDThh:mm:ss`.
fn is_date_time_shape(s: &str) -> (r: bool)
    ensures
        r == date_time_shape(s@),
{
    if s.unicode_len() != 19 {
        return false;
    }
    let date = s.substring_char(0, 10);
    let ok = is_date_shape(date) && s.get_char(10) == 'T' && all_digits_in(s, 11, 13) && s.get_char(13)
        == ':' && all_digits_in(s, 14, 16) && s.get_char(16) == ':' && all_digits_in(s, 17, 19);
    ok
}

/// `s[from..to]` is a non-empty run of decimal digits.
fn all_digits_in(s: &str, from: usize, to: usize) -> (r: bool)
    requires
        from < to <= s@.len(),
    ensures
        r == all_digits(s@.subrange(from as int, to as int)),
{
    let mut k = from;
    while k < to
        invariant
            from <= k <= to <= s@.len(),
            forall|q: int| from <= q < k ==> is_digit(#[trigger] s@[q]),
        decreases to - k,
    {
        let c = s.get_char(k);
        if !('0' <= c && c <= '9') {
            assert(!is_digit(s@.subrange(from as int, to as int)[k - from]));
            return false;
        }
        k = k + 1;
    }
    assert forall|q: int| 0 <= q < to - from implies is_digit(
        #[trigger] s@.subrange(from as int, to as int)[q],
    ) by {
        assert(s@.subrange(from as int, to as int)[q] == s@[from + q]);
    }
    true
}

/// Splits a date range `YYYY-MM-DD..YYYY-MM-DD[/Nu[/FORMAT]]` into its pieces.
pub fn match_date_range<'a>(t: &'a str) -> (r: Option<CalendarPieces<'a>>)
    ensures
        match r {
            Some(p) => date_range_pieces(t@) == Some(calendar_pieces_view(p)),
            None => date_range_pieces(t@) is None,
        },
{
    match match_calendar_range(t, 10, false) {
        Some(p) => if is_date_shape(p.0) && is_date_shape(p.1) {
            Some(p)
        } else {
            None
        },
        None => None,
    }
}

/// Splits a date-time range
/// `YYYY-MM-DDThh:mm:ss..YYYY-MM-DDThh:mm:ss[/Nu[/FORMAT]]` into its pieces.
pub fn match_date_time_range<'a>(t: &'a str) -> (r: Option<CalendarPieces<'a>>)
    ensures
        match r {
            Some(p) => date_time_range_pieces(t@) == Some(calendar_pieces_view(p)),
            None => date_time_range_pieces(t@) is None,
        },
{
    match match_calendar_range(t, 19, true) {
        Some(p) => if is_date_time_shape(p.0) && is_date_time_shape(p.1) {
            Some(p)
        } else {
            None
        },
        None => None,
    }
}

/// A run of digits from `i` that stops at `k` ends at `k`.
pub proof fn lemma_digit_run(t: Seq<char>, i: int, k: int)
    requires
        0 <= i <= k <= t.len(),
        forall|j: int| i <= j < k ==> is_digit(#[trigger] t[j]),
        k == t.len() || !is_digit(t[k]),
    ensures
        digit_run(t, i) == k,
    decreases k - i,
{
    if i < k {
        lemma_digit_run(t, i + 1, k);
    }
}

} // verus!
