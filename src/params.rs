use vstd::prelude::*;

use crate::calendar::{
    date_of_text,
    date_time_of_text,
    strftime,
    text_range_outcome,
    format_date_time,
    DateTimeRange,
};
use crate::error::{AppError, AppResult, ErrorKind};
use crate::grammar::{
    calendar_pieces_view,
    date_range_pieces,
    date_time_range_pieces,
    int_range_pieces,
    lemma_digit_run,
    match_date_range,
    match_date_time_range,
    match_int_range,
    opt_view,
    CalendarPieces,
};
use crate::steps::{lemma_stepped, steps_count, stepped};
use crate::text::{is_digit, lemma_nat_text, nat_text, number_within, parse_number};

verus! {

/// One primitive argument of a query.
#[derive(Clone, Debug, PartialEq, Eq)]
pub enum QueryValue {
    Int(i32),
    Text(String),
}

/// What a `QueryValue` stands for.
pub enum ValueView {
    Int(int),
    Text(Seq<char>),
}

impl View for QueryValue {
    type V = ValueView;

    open spec fn view(&self) -> ValueView {
        match self {
            QueryValue::Int(n) => ValueView::Int(*n as int),
            QueryValue::Text(s) => ValueView::Text(s@),
        }
    }
}

pub open spec fn values_view(v: Seq<QueryValue>) -> Seq<ValueView> {
    v.map_values(|x: QueryValue| x@)
}

pub open spec fn ints_view(s: Seq<int>) -> Seq<ValueView> {
    s.map_values(|n: int| ValueView::Int(n))
}

pub open spec fn texts_view(s: Seq<Seq<char>>) -> Seq<ValueView> {
    s.map_values(|t: Seq<char>| ValueView::Text(t))
}

/// A copy of `v`.
pub fn copy_value(v: &QueryValue) -> (r: QueryValue)
    ensures
        r@ == v@,
{
    match v {
        QueryValue::Int(n) => QueryValue::Int(*n),
        QueryValue::Text(s) => QueryValue::Text(s.clone()),
    }
}

/// The values that one parameter stands for, before they are expanded.
#[derive(Debug, PartialEq)]
pub enum QueryValues {
    IntRange { from: i32, to: i32, step: usize },
    DateTimeRange { range: DateTimeRange, fmt: String },
    Strings(Vec<String>),
}

/// Position of the first comma of `s`, or its length when it holds none.
pub open spec fn first_comma(s: Seq<char>) -> int
    decreases s.len(),
{
    if s.len() == 0 {
        0
    } else if s[0] == ',' {
        0
    } else {
        1 + first_comma(s.drop_first())
    }
}

/// The pieces of `s` between commas, in order.
pub open spec fn split_commas(s: Seq<char>) -> Seq<Seq<char>>
    decreases s.len(),
{
    let i = first_comma(s);
    if 0 <= i < s.len() {
        seq![s.subrange(0, i)].add(split_commas(s.subrange(i + 1, s.len() as int)))
    } else {
        seq![s]
    }
}

proof fn lemma_first_comma(s: Seq<char>, k: int)
    requires
        0 <= k <= s.len(),
        forall|j: int| 0 <= j < k ==> s[j] != ',',
        k == s.len() || s[k] == ',',
    ensures
        first_comma(s) == k,
    decreases s.len(),
{
    if s.len() > 0 && k > 0 {
        lemma_first_comma(s.drop_first(), k - 1);
    }
}

/// The pieces of `s` between commas.
pub fn comma_separated(s: &str) -> (r: Vec<String>)
    ensures
        r@.map_values(|x: String| x@) == split_commas(s@),
{
    let n = s.unicode_len();
    let mut out: Vec<String> = Vec::new();
    let mut start: usize = 0;
    let mut i: usize = 0;
    assert(out@.map_values(|x: String| x@) =~= Seq::<Seq<char>>::empty());
    assert(s@.subrange(0, n as int) =~= s@);
    while i < n
        invariant
            n == s@.len(),
            start <= i <= n,
            forall|j: int| start <= j < i ==> s@[j] != ',',
            out@.map_values(|x: String| x@) + split_commas(s@.subrange(start as int, n as int))
                == split_commas(s@),
        decreases n - i,
    {
        if s.get_char(i) == ',' {
            let ghost rest = s@.subrange(start as int, n as int);
            proof {
                lemma_first_comma(rest, i - start);
                assert(rest.subrange(0, i - start) =~= s@.subrange(start as int, i as int));
                assert(rest.subrange(i - start + 1, rest.len() as int) =~= s@.subrange(
                    i + 1,
                    n as int,
                ));
            }
            let piece = s.substring_char(start, i);
            let ghost before = out@.map_values(|x: String| x@);
            out.push(piece.to_owned());
            assert(out@.map_values(|x: String| x@) =~= before.push(piece@));
            assert(before.push(piece@) + split_commas(s@.subrange(i + 1, n as int)) =~= before
                + split_commas(rest));
            start = i + 1;
        }
        i = i + 1;
    }
    let ghost rest = s@.subrange(start as int, n as int);
    proof {
        lemma_first_comma(rest, rest.len() as int);
    }
    let piece = s.substring_char(start, n);
    let ghost before = out@.map_values(|x: String| x@);
    out.push(piece.to_owned());
    assert(out@.map_values(|x: String| x@) =~= before + split_commas(rest));
    out
}

/// `FROM`, `TO` and `STEP` of an integer range, or the kind of error that
/// refuses them. The step is 1 when absent.
pub open spec fn int_range_outcome(from: Seq<char>, to: Seq<char>, step: Option<Seq<char>>) -> Result<
    (int, int, int),
    ErrorKind,
> {
    let step_n = match step {
        Some(st) => number_within(st, usize::MAX as int),
        None => Some(1int),
    };
    match (number_within(from, i32::MAX as int), number_within(to, i32::MAX as int)) {
        (Some(f), Some(t)) => if f >= t {
            Err(ErrorKind::InvalidRange)
        } else {
            match step_n {
                None => Err(ErrorKind::InvalidInt),
                Some(n) => if n == 0 {
                    Err(ErrorKind::InvalidRange)
                } else {
                    Ok((f, t, n))
                },
            }
        },
        _ => Err(ErrorKind::InvalidInt),
    }
}

/// Reads an integer range from its pieces.
pub fn parse_int_range(from: &str, to: &str, step: Option<&str>) -> (r: AppResult<QueryValues>)
    ensures
        match r {
            Ok(q) => q matches QueryValues::IntRange { from: f, to: t, step: n } && int_range_outcome(
                from@,
                to@,
                opt_view(step),
            ) == Ok::<(int, int, int), ErrorKind>((f as int, t as int, n as int)),
            Err(e) => int_range_outcome(from@, to@, opt_view(step)) == Err::<(int, int, int), ErrorKind>(
                e.kind,
            ),
        },
{
    let f = match parse_number(from, i32::MAX as u64) {
        Some(v) => v as i32,
        None => {
            return Err(AppError::of_kind(ErrorKind::InvalidInt, "Error parsing integer"));
        },
    };
    let t = match parse_number(to, i32::MAX as u64) {
        Some(v) => v as i32,
        None => {
            return Err(AppError::of_kind(ErrorKind::InvalidInt, "Error parsing integer"));
        },
    };
    if f >= t {
        return Err(
            AppError::of_kind(ErrorKind::InvalidRange, "range start is greater than or equal to range end"),
        );
    }
    let n = match step {
        Some(st) => match parse_number(st, usize::MAX as u64) {
            Some(v) => v as usize,
            None => {
                return Err(AppError::of_kind(ErrorKind::InvalidInt, "Error parsing integer"));
            },
        },
        None => 1,
    };
    if n == 0 {
        return Err(AppError::of_kind(ErrorKind::InvalidRange, "step must be positive"));
    }
    Ok(QueryValues::IntRange { from: f, to: t, step: n })
}

/// `FROM`, `FROM + STEP`, ... below `TO`.
pub fn int_values(from: i32, to: i32, step: usize) -> (r: Vec<QueryValue>)
    requires
        step >= 1,
    ensures
        values_view(r@) == ints_view(stepped(from as int, to as int, step as int)),
{
    let mut out: Vec<QueryValue> = Vec::new();
    let mut v: i32 = from;
    if from >= to {
        assert(values_view(out@) =~= ints_view(stepped(from as int, to as int, step as int)));
        return out;
    }
    loop
        invariant
            step >= 1,
            from <= v < to,
            values_view(out@) + ints_view(stepped(v as int, to as int, step as int)) == ints_view(
                stepped(from as int, to as int, step as int),
            ),
        decreases to - v,
    {
        let ghost before = values_view(out@);
        out.push(QueryValue::Int(v));
        assert(values_view(out@) =~= before.push(ValueView::Int(v as int)));
        if (to as i64 - v as i64) as u64 <= step as u64 {
            assert(stepped(v as int + step as int, to as int, step as int) =~= Seq::<int>::empty());
            assert(values_view(out@) =~= before + ints_view(stepped(v as int, to as int, step as int)));
            return out;
        }
        let ghost old_v = v as int;
        v = (v as i64 + step as i64) as i32;
        assert(before + ints_view(stepped(old_v, to as int, step as int)) =~= values_view(out@)
            + ints_view(stepped(v as int, to as int, step as int)));
    }
}

/// `Some` of the texts of the timestamps `pending` written with `fmt`, or
/// `None` when one of them cannot be written.
pub open spec fn formatted_all(pending: Seq<int>, fmt: Seq<char>) -> Option<Seq<Seq<char>>>
    decreases pending.len(),
{
    if pending.len() == 0 {
        Some(Seq::empty())
    } else {
        match (strftime(pending[0], fmt), formatted_all(pending.drop_first(), fmt)) {
            (Some(a), Some(rest)) => Some(seq![a].add(rest)),
            _ => None,
        }
    }
}

pub open spec fn formatted_outcome(pending: Seq<int>, fmt: Seq<char>) -> Result<Seq<ValueView>, ErrorKind> {
    match formatted_all(pending, fmt) {
        Some(x) => Ok(texts_view(x)),
        None => Err(ErrorKind::InvalidFormat),
    }
}

/// Each timestamp of `range`, written with `fmt`.
pub fn date_time_values(dates: DateTimeRange, fmt: &str) -> (r: AppResult<Vec<QueryValue>>)
    requires
        dates.wf(),
    ensures
        match r {
            Ok(v) => formatted_outcome(dates.pending(), fmt@) == Ok::<Seq<ValueView>, ErrorKind>(
                values_view(v@),
            ),
            Err(e) => formatted_outcome(dates.pending(), fmt@) == Err::<Seq<ValueView>, ErrorKind>(
                e.kind,
            ),
        },
{
    let mut range = dates;
    let ghost all = range.pending();
    let mut out: Vec<QueryValue> = Vec::new();
    assert(values_view(out@) =~= Seq::<ValueView>::empty());
    loop
        invariant
            range.wf(),
            all == dates.pending(),
            formatted_all(all, fmt@) == match formatted_all(range.pending(), fmt@) {
                Some(rest) => Some(values_text(out@) + rest),
                None => None::<Seq<Seq<char>>>,
            },
            values_view(out@) == texts_view(values_text(out@)),
        decreases range.pending().len(),
    {
        let ghost pending = range.pending();
        match range.next() {
            None => {
                assert(formatted_all(pending, fmt@) == Some(Seq::<Seq<char>>::empty()));
                assert(values_text(out@) + Seq::<Seq<char>>::empty() =~= values_text(out@));
                return Ok(out);
            },
            Some(t) => {
                match format_date_time(&t, fmt) {
                    None => {
                        assert(formatted_all(pending, fmt@) is None);
                        return Err(
                            AppError::of_kind(ErrorKind::InvalidFormat, "Invalid date time format"),
                        );
                    },
                    Some(text) => {
                        let ghost before = values_text(out@);
                        let ghost before_view = values_view(out@);
                        out.push(QueryValue::Text(text));
                        proof {
                            assert(values_text(out@) =~= before.push(text@));
                            assert(values_view(out@) =~= before_view.push(ValueView::Text(text@)));
                            assert(texts_view(before.push(text@)) =~= texts_view(before).push(
                                ValueView::Text(text@),
                            ));
                            if let Some(rest) = formatted_all(range.pending(), fmt@) {
                                assert(before + seq![text@].add(rest) =~= values_text(out@) + rest);
                            }
                        }
                    },
                }
            },
        }
    }
}

/// The texts of `v`, where all of them are texts.
pub open spec fn values_text(v: Seq<QueryValue>) -> Seq<Seq<char>> {
    v.map_values(|x: QueryValue| match x {
        QueryValue::Text(s) => s@,
        QueryValue::Int(_) => Seq::empty(),
    })
}

pub open spec fn strings_view(v: Seq<String>) -> Seq<Seq<char>> {
    v.map_values(|x: String| x@)
}

impl QueryValues {
    pub open spec fn wf(&self) -> bool {
        match self {
            QueryValues::IntRange { step, .. } => *step >= 1,
            QueryValues::DateTimeRange { range, .. } => range.wf(),
            QueryValues::Strings(_) => true,
        }
    }

    /// What this parameter stands for, before it is expanded.
    pub open spec fn token_view(&self) -> TokenView {
        match self {
            QueryValues::IntRange { from, to, step } => TokenView::IntRange(
                *from as int,
                *to as int,
                *step as int,
            ),
            QueryValues::DateTimeRange { range, fmt } => TokenView::Calendar(range.pending(), fmt@),
            QueryValues::Strings(v) => TokenView::Strings(strings_view(v@)),
        }
    }

    /// The values this parameter expands to, or the kind of error that stops
    /// the expansion.
    pub open spec fn expansion(&self) -> Result<Seq<ValueView>, ErrorKind> {
        expanded(self.token_view())
    }
}

/// A parameter token as read, before it is expanded: an integer range
/// (from, to, step), the timestamps of a calendar range (as seconds since
/// 1970-01-01T00:00:00) with their output format, or a list of texts.
pub enum TokenView {
    IntRange(int, int, int),
    Calendar(Seq<int>, Seq<char>),
    Strings(Seq<Seq<char>>),
}

/// The values a token read as `v` expands to, or the kind of error that
/// stops the expansion.
pub open spec fn expanded(v: TokenView) -> Result<Seq<ValueView>, ErrorKind> {
    match v {
        TokenView::IntRange(from, to, step) => Ok(ints_view(stepped(from, to, step))),
        TokenView::Calendar(pending, fmt) => formatted_outcome(pending, fmt),
        TokenView::Strings(texts) => Ok(texts_view(texts)),
    }
}

/// Output format of dates when the parameter names none.
pub open spec fn date_format() -> Seq<char> {
    seq!['%', 'Y', '-', '%', 'm', '-', '%', 'd']
}

/// Output format of date-times when the parameter names none.
pub open spec fn date_time_format() -> Seq<char> {
    seq!['%', 'Y', '-', '%', 'm', '-', '%', 'd', 'T', '%', 'H', ':', '%', 'M', ':', '%', 'S']
}

/// The step of a calendar range: one day when the parameter names none.
pub open spec fn step_or_default(p: Option<(Seq<char>, Seq<char>)>) -> (Seq<char>, Seq<char>) {
    match p {
        Some(x) => x,
        None => (seq!['1'], seq!['d']),
    }
}

pub open spec fn format_or(f: Option<Seq<char>>, default: Seq<char>) -> Seq<char> {
    match f {
        Some(x) => x,
        None => default,
    }
}

pub open spec fn calendar_read(o: Result<Seq<int>, ErrorKind>, fmt: Seq<char>) -> Result<TokenView, ErrorKind> {
    match o {
        Ok(pending) => Ok(TokenView::Calendar(pending, fmt)),
        Err(k) => Err(k),
    }
}

/// What one parameter token reads as, or the kind of error that refuses it.
/// Integer ranges are tried first, then date ranges, then date-time ranges;
/// anything else is a comma-separated list.
pub open spec fn parsed_token(t: Seq<char>) -> Result<TokenView, ErrorKind> {
    match int_range_pieces(t) {
        Some((a, b, c, _)) => match int_range_outcome(a, b, c) {
            Ok((f, to, n)) => Ok(TokenView::IntRange(f, to, n)),
            Err(k) => Err(k),
        },
        None => match date_range_pieces(t) {
            Some(p) => calendar_read(
                text_range_outcome(
                    date_of_text(p.0),
                    date_of_text(p.1),
                    step_or_default(p.2).0,
                    step_or_default(p.2).1,
                ),
                format_or(p.3, date_format()),
            ),
            None => match date_time_range_pieces(t) {
                Some(p) => calendar_read(
                    text_range_outcome(
                        date_time_of_text(p.0),
                        date_time_of_text(p.1),
                        step_or_default(p.2).0,
                        step_or_default(p.2).1,
                    ),
                    format_or(p.3, date_time_format()),
                ),
                None => Ok(TokenView::Strings(split_commas(t))),
            },
        },
    }
}

/// The values one parameter token stands for, or the kind of error that
/// refuses it: the token as read, then expanded.
pub open spec fn token_values(t: Seq<char>) -> Result<Seq<ValueView>, ErrorKind> {
    match parsed_token(t) {
        Ok(v) => expanded(v),
        Err(k) => Err(k),
    }
}

fn calendar_step<'a>(p: &CalendarPieces<'a>) -> (r: (&'a str, &'a str))
    ensures
        (r.0@, r.1@) == step_or_default(calendar_pieces_view(*p).2),
{
    match p.2 {
        Some(x) => x,
        None => {
            proof {
                reveal_strlit("1");
                reveal_strlit("d");
                assert("1"@ =~= seq!['1']);
                assert("d"@ =~= seq!['d']);
            }
            ("1", "d")
        },
    }
}

/// Reads one parameter token.
pub fn parse_query_values(s: &str) -> (r: AppResult<QueryValues>)
    ensures
        match r {
            Ok(q) => q.wf() && parsed_token(s@) == Ok::<TokenView, ErrorKind>(q.token_view()),
            Err(e) => parsed_token(s@) == Err::<TokenView, ErrorKind>(e.kind),
        },
{
    if let Some((from, to, step, _)) = match_int_range(s) {
        let q = parse_int_range(from, to, step);
        return q;
    }
    if let Some(p) = match_date_range(s) {
        let (step, unit) = calendar_step(&p);
        let range = DateTimeRange::parse_date_strs(p.0, p.1, step, unit)?;
        let fmt = match p.3 {
            Some(f) => f.to_owned(),
            None => {
                proof {
                    reveal_strlit("%Y-%m-%d");
                    assert("%Y-%m-%d"@ =~= date_format());
                }
                "%Y-%m-%d".to_owned()
            },
        };
        return Ok(QueryValues::DateTimeRange { range, fmt });
    }
    if let Some(p) = match_date_time_range(s) {
        let (step, unit) = calendar_step(&p);
        let range = DateTimeRange::parse_date_time_strs(p.0, p.1, step, unit)?;
        let fmt = match p.3 {
            Some(f) => f.to_owned(),
            None => {
                proof {
                    reveal_strlit("%Y-%m-%dT%H:%M:%S");
                    assert("%Y-%m-%dT%H:%M:%S"@ =~= date_time_format());
                }
                "%Y-%m-%dT%H:%M:%S".to_owned()
            },
        };
        return Ok(QueryValues::DateTimeRange { range, fmt });
    }
    Ok(QueryValues::Strings(comma_separated(s)))
}

/// The primitive values a parameter expands to.
pub fn to_values(vals: QueryValues) -> (r: AppResult<Vec<QueryValue>>)
    requires
        vals.wf(),
    ensures
        match r {
            Ok(v) => vals.expansion() == Ok::<Seq<ValueView>, ErrorKind>(values_view(v@)),
            Err(e) => vals.expansion() == Err::<Seq<ValueView>, ErrorKind>(e.kind),
        },
{
    match vals {
        QueryValues::IntRange { from, to, step } => Ok(int_values(from, to, step)),
        QueryValues::DateTimeRange { range, fmt } => date_time_values(range, fmt.as_str()),
        QueryValues::Strings(xs) => {
            let mut out: Vec<QueryValue> = Vec::new();
            let mut i: usize = 0;
            while i < xs.len()
                invariant
                    0 <= i <= xs@.len(),
                    values_view(out@) == texts_view(strings_view(xs@.subrange(0, i as int))),
                decreases xs@.len() - i,
            {
                let ghost before = values_view(out@);
                out.push(QueryValue::Text(xs[i].clone()));
                assert(values_view(out@) =~= before.push(ValueView::Text(xs@[i as int]@)));
                assert(texts_view(strings_view(xs@.subrange(0, i + 1))) =~= texts_view(
                    strings_view(xs@.subrange(0, i as int)),
                ).push(ValueView::Text(xs@[i as int]@)));
                i = i + 1;
            }
            assert(xs@.subrange(0, i as int) =~= xs@);
            Ok(out)
        },
    }
}

/// Each tuple of `p` followed by each element of `l`, the elements varying
/// fastest.
pub open spec fn extend_each<A>(p: Seq<Seq<A>>, l: Seq<A>) -> Seq<Seq<A>>
    decreases p.len(),
{
    if p.len() == 0 {
        Seq::empty()
    } else {
        extend_each(p.drop_last(), l) + l.map_values(|x: A| p.last().push(x))
    }
}

/// All tuples taking one element of each list, in order, the last list
/// varying fastest.
pub open spec fn cartesian<A>(lists: Seq<Seq<A>>) -> Seq<Seq<A>>
    decreases lists.len(),
{
    if lists.len() == 0 {
        seq![Seq::empty()]
    } else {
        extend_each(cartesian(lists.drop_last()), lists.last())
    }
}

/// The cartesian product of the lists; no tuples at all for no lists.
pub open spec fn product<A>(lists: Seq<Seq<A>>) -> Seq<Seq<A>> {
    if lists.len() == 0 {
        Seq::empty()
    } else {
        cartesian(lists)
    }
}

pub open spec fn tuples_view(v: Seq<Vec<QueryValue>>) -> Seq<Seq<ValueView>> {
    v.map_values(|t: Vec<QueryValue>| values_view(t@))
}

fn copy_tuple(t: &Vec<QueryValue>) -> (r: Vec<QueryValue>)
    ensures
        values_view(r@) == values_view(t@),
{
    let mut out: Vec<QueryValue> = Vec::new();
    let mut i: usize = 0;
    while i < t.len()
        invariant
            0 <= i <= t@.len(),
            values_view(out@) == values_view(t@.subrange(0, i as int)),
        decreases t@.len() - i,
    {
        let ghost before = values_view(out@);
        out.push(copy_value(&t[i]));
        assert(values_view(out@) =~= before.push(t@[i as int]@));
        assert(values_view(t@.subrange(0, i + 1)) =~= values_view(t@.subrange(0, i as int)).push(
            t@[i as int]@,
        ));
        i = i + 1;
    }
    assert(t@.subrange(0, i as int) =~= t@);
    out
}

proof fn lemma_extend_each_step<A>(p: Seq<Seq<A>>, i: int, l: Seq<A>)
    requires
        0 <= i < p.len(),
    ensures
        extend_each(p.subrange(0, i + 1), l) == extend_each(p.subrange(0, i), l) + l.map_values(
            |x: A| p[i].push(x),
        ),
{
    assert(p.subrange(0, i + 1).drop_last() =~= p.subrange(0, i));
}

/// Every tuple of `acc` followed by every value of `l`.
fn extend_tuples(acc: &Vec<Vec<QueryValue>>, l: &Vec<QueryValue>) -> (r: Vec<Vec<QueryValue>>)
    ensures
        tuples_view(r@) == extend_each(tuples_view(acc@), values_view(l@)),
{
    let ghost pv = tuples_view(acc@);
    let ghost lv = values_view(l@);
    let mut out: Vec<Vec<QueryValue>> = Vec::new();
    let mut i: usize = 0;
    assert(tuples_view(out@) =~= extend_each(pv.subrange(0, 0), lv));
    while i < acc.len()
        invariant
            pv == tuples_view(acc@),
            lv == values_view(l@),
            0 <= i <= acc@.len(),
            tuples_view(out@) == extend_each(pv.subrange(0, i as int), lv),
        decreases acc@.len() - i,
    {
        let ghost base = tuples_view(out@);
        let mut j: usize = 0;
        assert(tuples_view(out@) =~= base + lv.subrange(0, 0).map_values(|x: ValueView| pv[i as int].push(x)));
        while j < l.len()
            invariant
                pv == tuples_view(acc@),
                lv == values_view(l@),
                0 <= i < acc@.len(),
                0 <= j <= l@.len(),
                tuples_view(out@) == base + lv.subrange(0, j as int).map_values(
                    |x: ValueView| pv[i as int].push(x),
                ),
            decreases l@.len() - j,
        {
            let mut t = copy_tuple(&acc[i]);
            let ghost tv = values_view(t@);
            t.push(copy_value(&l[j]));
            assert(values_view(t@) =~= tv.push(l@[j as int]@));
            let ghost before = tuples_view(out@);
            out.push(t);
            assert(tuples_view(out@) =~= before.push(values_view(t@)));
            assert(lv.subrange(0, j + 1).map_values(|x: ValueView| pv[i as int].push(x)) =~= lv.subrange(
                0,
                j as int,
            ).map_values(|x: ValueView| pv[i as int].push(x)).push(pv[i as int].push(lv[j as int])));
            j = j + 1;
        }
        assert(lv.subrange(0, j as int) =~= lv);
        proof {
            lemma_extend_each_step(pv, i as int, lv);
        }
        i = i + 1;
    }
    assert(pv.subrange(0, i as int) =~= pv);
    out
}

pub open spec fn lists_view(v: Seq<Vec<QueryValue>>) -> Seq<Seq<ValueView>> {
    v.map_values(|l: Vec<QueryValue>| values_view(l@))
}

/// The cartesian product of the value lists, in order, the last list varying
/// fastest.
pub fn cartesian_product(lists: &Vec<Vec<QueryValue>>) -> (r: Vec<Vec<QueryValue>>)
    ensures
        tuples_view(r@) == product(lists_view(lists@)),
{
    if lists.len() == 0 {
        let out: Vec<Vec<QueryValue>> = Vec::new();
        assert(tuples_view(out@) =~= Seq::<Seq<ValueView>>::empty());
        return out;
    }
    let mut acc: Vec<Vec<QueryValue>> = Vec::new();
    let empty: Vec<QueryValue> = Vec::new();
    assert(values_view(empty@) =~= Seq::<ValueView>::empty());
    acc.push(empty);
    let ghost all = lists_view(lists@);
    assert(tuples_view(acc@) =~= seq![Seq::<ValueView>::empty()]);
    assert(all.subrange(0, 0) =~= Seq::<Seq<ValueView>>::empty());
    let mut k: usize = 0;
    while k < lists.len()
        invariant
            all == lists_view(lists@),
            0 <= k <= lists@.len(),
            tuples_view(acc@) == cartesian(all.subrange(0, k as int)),
        decreases lists@.len() - k,
    {
        acc = extend_tuples(&acc, &lists[k]);
        assert(all.subrange(0, k + 1).drop_last() =~= all.subrange(0, k as int));
        k = k + 1;
    }
    assert(all.subrange(0, k as int) =~= all);
    acc
}

/// The values of each token in order, or the kind of error of the first token
/// that is refused.
pub open spec fn args_values(ts: Seq<Seq<char>>) -> Result<Seq<Seq<ValueView>>, ErrorKind>
    decreases ts.len(),
{
    if ts.len() == 0 {
        Ok(Seq::empty())
    } else {
        match args_values(ts.drop_last()) {
            Err(k) => Err(k),
            Ok(ls) => match token_values(ts.last()) {
                Err(k) => Err(k),
                Ok(l) => Ok(ls.push(l)),
            },
        }
    }
}

/// Once a token is refused, the tokens after it change nothing.
proof fn lemma_args_error_stays(ts: Seq<Seq<char>>, i: int)
    requires
        0 <= i <= ts.len(),
        args_values(ts.subrange(0, i)) is Err,
    ensures
        args_values(ts) == args_values(ts.subrange(0, i)),
    decreases ts.len() - i,
{
    if i < ts.len() {
        assert(ts.subrange(0, i + 1).drop_last() =~= ts.subrange(0, i));
        lemma_args_error_stays(ts, i + 1);
    } else {
        assert(ts.subrange(0, i) =~= ts);
    }
}

/// The values of one token.
fn token_to_values(t: &str) -> (r: AppResult<Vec<QueryValue>>)
    ensures
        match r {
            Ok(v) => token_values(t@) == Ok::<Seq<ValueView>, ErrorKind>(values_view(v@)),
            Err(e) => token_values(t@) == Err::<Seq<ValueView>, ErrorKind>(e.kind),
        },
{
    let q = parse_query_values(t)?;
    to_values(q)
}

pub open spec fn args_view(args: Seq<&str>) -> Seq<Seq<char>> {
    args.map_values(|a: &str| a@)
}

/// One argument tuple per combination of the tokens' values, the last token
/// varying fastest; or the error of the first token that is refused.
pub fn parse_args(args: &[&str]) -> (r: AppResult<Vec<Vec<QueryValue>>>)
    ensures
        match r {
            Ok(tuples) => args_values(args_view(args@)) matches Ok(ls) && tuples_view(tuples@)
                == product(ls),
            Err(e) => args_values(args_view(args@)) == Err::<Seq<Seq<ValueView>>, ErrorKind>(e.kind),
        },
{
    let ghost ts = args_view(args@);
    let mut lists: Vec<Vec<QueryValue>> = Vec::new();
    let mut i: usize = 0;
    assert(ts.subrange(0, 0) =~= Seq::<Seq<char>>::empty());
    assert(lists_view(lists@) =~= Seq::<Seq<ValueView>>::empty());
    while i < args.len()
        invariant
            ts == args_view(args@),
            0 <= i <= args@.len(),
            args_values(ts.subrange(0, i as int)) == Ok::<Seq<Seq<ValueView>>, ErrorKind>(
                lists_view(lists@),
            ),
        decreases args@.len() - i,
    {
        assert(ts.subrange(0, i + 1).drop_last() =~= ts.subrange(0, i as int));
        assert(ts.subrange(0, i + 1).last() == args@[i as int]@);
        let vals = match token_to_values(args[i]) {
            Ok(v) => v,
            Err(e) => {
                proof {
                    lemma_args_error_stays(ts, i + 1);
                }
                return Err(e);
            },
        };
        let ghost before = lists_view(lists@);
        lists.push(vals);
        assert(lists_view(lists@) =~= before.push(values_view(vals@)));
        i = i + 1;
    }
    assert(ts.subrange(0, i as int) =~= ts);
    Ok(cartesian_product(&lists))
}

/// The token `FROM..TO/STEP`, the three numbers written in decimal.
pub open spec fn written_int_range(from: nat, to: nat, step: nat) -> Seq<char> {
    nat_text(from) + seq!['.', '.'] + nat_text(to) + seq!['/'] + nat_text(step)
}

/// The token `FROM..TO/STEP`, with `FROM < TO` within `i32` and a positive
/// step, reads as that range and expands to `ceil((TO - FROM) / STEP)`
/// integers, strictly increasing, each below `TO`, the first `FROM` and each
/// the one before plus `STEP`; given alone to `parse_args`, it yields one
/// one-value tuple for each of them.
pub proof fn lemma_int_range_expansion(from: nat, to: nat, step: nat)
    requires
        from < to <= i32::MAX,
        1 <= step <= usize::MAX,
    ensures
        parsed_token(written_int_range(from, to, step)) == Ok::<TokenView, ErrorKind>(
            TokenView::IntRange(from as int, to as int, step as int),
        ),
        token_values(written_int_range(from, to, step)) == Ok::<Seq<ValueView>, ErrorKind>(
            ints_view(stepped(from as int, to as int, step as int)),
        ),
        args_values(seq![written_int_range(from, to, step)]) == Ok::<Seq<Seq<ValueView>>, ErrorKind>(
            seq![ints_view(stepped(from as int, to as int, step as int))],
        ),
        product(seq![ints_view(stepped(from as int, to as int, step as int))]) == ints_view(
            stepped(from as int, to as int, step as int),
        ).map_values(|x: ValueView| seq![x]),
        stepped(from as int, to as int, step as int).len() == steps_count(from as int, to as int, step as int),
        stepped(from as int, to as int, step as int)[0] == from,
        forall|i: int|
            0 <= i < stepped(from as int, to as int, step as int).len() ==> #[trigger] stepped(
                from as int,
                to as int,
                step as int,
            )[i] < to && stepped(from as int, to as int, step as int)[i] == from + i * step,
        forall|i: int, j: int|
            0 <= i < j < stepped(from as int, to as int, step as int).len() ==> #[trigger] stepped(
                from as int,
                to as int,
                step as int,
            )[i] < #[trigger] stepped(from as int, to as int, step as int)[j],
{
    let f = nat_text(from);
    let t = nat_text(to);
    let n = nat_text(step);
    let tok = written_int_range(from, to, step);
    lemma_nat_text(from);
    lemma_nat_text(to);
    lemma_nat_text(step);
    let a = f.len() as int;
    let b = a + 2 + t.len();
    let c = b + 1 + n.len();
    assert(tok.len() == c);
    assert(tok.subrange(0, a) =~= f);
    assert(tok.subrange(a + 2, b) =~= t);
    assert(tok.subrange(b + 1, c) =~= n);
    assert(tok[a] == '.' && tok[a + 1] == '.' && tok[b] == '/');
    assert forall|j: int| 0 <= j < a implies is_digit(#[trigger] tok[j]) by {
        assert(tok[j] == f[j]);
    }
    assert forall|j: int| a + 2 <= j < b implies is_digit(#[trigger] tok[j]) by {
        assert(tok[j] == t[j - a - 2]);
    }
    assert forall|j: int| b + 1 <= j < c implies is_digit(#[trigger] tok[j]) by {
        assert(tok[j] == n[j - b - 1]);
    }
    lemma_digit_run(tok, 0, a);
    lemma_digit_run(tok, a + 2, b);
    lemma_digit_run(tok, b + 1, c);
    assert(int_range_pieces(tok) == Some((f, t, Some(n), None::<Seq<char>>)));
    assert(int_range_outcome(f, t, Some(n)) == Ok::<(int, int, int), ErrorKind>(
        (from as int, to as int, step as int),
    ));
    let vals = ints_view(stepped(from as int, to as int, step as int));
    assert(seq![tok].drop_last() =~= Seq::<Seq<char>>::empty());
    assert(args_values(seq![tok].drop_last()) == Ok::<Seq<Seq<ValueView>>, ErrorKind>(
        Seq::empty(),
    ));
    assert(Seq::<Seq<ValueView>>::empty().push(vals) =~= seq![vals]);
    let one = seq![vals];
    assert(one.drop_last() =~= Seq::<Seq<ValueView>>::empty());
    let base = seq![Seq::<ValueView>::empty()];
    assert(cartesian(one.drop_last()) == base);
    assert(base.drop_last() =~= Seq::<Seq<ValueView>>::empty());
    assert(extend_each(base, vals) == extend_each(base.drop_last(), vals) + vals.map_values(
        |x: ValueView| base.last().push(x),
    ));
    assert(vals.map_values(|x: ValueView| base.last().push(x)) =~= vals.map_values(
        |x: ValueView| seq![x],
    ));
    assert(Seq::<Seq<ValueView>>::empty() + vals.map_values(|x: ValueView| seq![x]) =~= vals.map_values(
        |x: ValueView| seq![x],
    ));
    lemma_stepped(from as int, to as int, step as int);
}

} // verus!
