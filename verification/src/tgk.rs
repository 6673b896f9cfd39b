use vstd::prelude::*;

use crate::datetime::{dt_le, dt_le_exec, dt_spec, parse_datetime_chars, DateTime};
use crate::errors::StribotError;
use crate::scan::{
    copy_range, extract_exec, extract_spec, find_pat, find_pat_exec, to_chars,
};
use crate::temp::{dec_spec, parse_decimal_chars, temp_le, temp_lt, temp_lt_exec, Temp};

verus! {

/// One timestamped temperature reading of the utility's history table.
#[derive(Clone, Copy, Debug, PartialEq, Eq, Structural)]
pub struct TempReading {
    pub datetime: DateTime,
    pub temperature: Temp,
}

/// The reading with the lowest and the reading with the highest temperature
/// of one non-empty reading set.
#[derive(Clone, Copy, Debug, PartialEq, Eq, Structural)]
pub struct MinMax {
    pub min: TempReading,
    pub max: TempReading,
}

/// The HTML-entity degree suffix that follows the value on the utility page.
pub open spec fn tgk_suffix() -> Seq<char> {
    "&deg;C"@
}

/// What extraction from the utility page's body yields: the leftmost signed
/// decimal followed by `&deg;C`, normalized exactly.
pub open spec fn tgk_temp_spec(s: Seq<char>) -> Result<Temp, StribotError> {
    extract_spec(s, Seq::empty(), tgk_suffix())
}

/// Extract the current temperature from the utility page's body: the
/// leftmost `<value>&deg;C` occurrence, with the value normalized exactly
/// (a comma decimal mark is accepted).
pub fn parse_temperature(body: &str) -> (r: Result<Temp, StribotError>)
    ensures
        r == tgk_temp_spec(body@),
{
    let chars = to_chars(body);
    let prefix: Vec<char> = Vec::new();
    let suffix = to_chars("&deg;C");
    proof {
        assert(prefix@ =~= Seq::<char>::empty());
    }
    extract_exec(&chars, &prefix, &suffix)
}

/// Parsing has no hidden state: any two results drawn from the same body by
/// this grammar are identical.
pub proof fn lemma_tgk_parse_idempotent(
    s: Seq<char>,
    r1: Result<Temp, StribotError>,
    r2: Result<Temp, StribotError>,
)
    requires
        r1 == tgk_temp_spec(s),
        r2 == tgk_temp_spec(s),
    ensures
        r1 == r2,
{
}

// ---------------------------------------------------------------------------
// Table row extraction.
//
// The history table is plain markup: a `<table` element whose `<tr` rows each
// hold `<td` cells; the first row is a header. A cell's text runs from the
// `>` that closes its opening tag to the next `<`. A row whose first cell is
// not an exact `YYYY-MM-DD HH:MM:SS` timestamp, or whose second cell is not a
// decimal number, is skipped entirely.
// ---------------------------------------------------------------------------
/// Opening of a table element.
pub open spec fn table_pat() -> Seq<char> {
    "<table"@
}

/// Opening of a row element.
pub open spec fn tr_pat() -> Seq<char> {
    "<tr"@
}

/// Closing of a row element.
pub open spec fn tr_close_pat() -> Seq<char> {
    "</tr>"@
}

/// Opening of a cell element.
pub open spec fn td_pat() -> Seq<char> {
    "<td"@
}

/// End of an opening tag.
pub open spec fn gt_pat() -> Seq<char> {
    ">"@
}

/// Start of any tag.
pub open spec fn lt_pat() -> Seq<char> {
    "<"@
}

/// Where the text that starts at `i` ends: at the next tag, or at the end of
/// the document.
pub open spec fn text_end(s: Seq<char>, i: int) -> int {
    match find_pat(s, lt_pat(), i) {
        Some(e) => e,
        None => s.len() as int,
    }
}

/// The reading a row spanning `s[cstart..cend]` yields, if any: the first
/// cell's text parsed as a timestamp and the second cell's text parsed as a
/// decimal; `None` — the row is skipped — when either cell is missing or
/// fails to parse.
pub open spec fn row_reading(s: Seq<char>, cstart: int, cend: int) -> Option<TempReading> {
    match find_pat(s, td_pat(), cstart) {
        None => None,
        Some(t1) => if t1 >= cend {
            None
        } else {
            match find_pat(s, gt_pat(), t1 + 3) {
                None => None,
                Some(g1) => if g1 >= cend {
                    None
                } else {
                    let te1 = text_end(s, g1 + 1);
                    match dt_spec(s.subrange(g1 + 1, te1)) {
                        Err(_) => None,
                        Ok(dt) => match find_pat(s, td_pat(), te1) {
                            None => None,
                            Some(t2) => if t2 >= cend {
                                None
                            } else {
                                match find_pat(s, gt_pat(), t2 + 3) {
                                    None => None,
                                    Some(g2) => if g2 >= cend {
                                        None
                                    } else {
                                        let te2 = text_end(s, g2 + 1);
                                        match dec_spec(s.subrange(g2 + 1, te2)) {
                                            Err(_) => None,
                                            Ok(t) => Some(
                                                TempReading { datetime: dt, temperature: t },
                                            ),
                                        }
                                    },
                                }
                            },
                        },
                    }
                },
            }
        },
    }
}

/// Where the row that opens at `r` ends: at its `</tr>`, or at the end of the
/// document.
pub open spec fn row_limit(s: Seq<char>, r: int) -> int {
    match find_pat(s, tr_close_pat(), r + 3) {
        Some(e) => e,
        None => s.len() as int,
    }
}

/// Where the search for the next row resumes after the row that opens at `r`.
pub open spec fn row_next(s: Seq<char>, r: int) -> int {
    match find_pat(s, tr_close_pat(), r + 3) {
        Some(e) => e + 5,
        None => s.len() as int,
    }
}

/// The readings of all rows that open at or after `i`, in document order,
/// rows that fail to parse skipped.
pub open spec fn readings_from(s: Seq<char>, i: int) -> Seq<TempReading>
    decreases s.len() - i
        via readings_from_decreases
{
    match find_pat(s, tr_pat(), i) {
        None => Seq::empty(),
        Some(r) => {
            let rest = readings_from(s, row_next(s, r));
            match row_reading(s, r + 3, row_limit(s, r)) {
                Some(rd) => seq![rd] + rest,
                None => rest,
            }
        },
    }
}

#[via_fn]
proof fn readings_from_decreases(s: Seq<char>, i: int) {
    reveal_strlit("<tr");
    reveal_strlit("</tr>");
    crate::scan::lemma_find_pat_bounds(s, tr_pat(), i);
    match find_pat(s, tr_pat(), i) {
        Some(r) => {
            crate::scan::lemma_find_pat_bounds(s, tr_close_pat(), r + 3);
        },
        None => {},
    }
}

/// The readings the whole document yields: every row of the table after the
/// header row, in document order.
pub open spec fn readings_spec(s: Seq<char>) -> Seq<TempReading> {
    match find_pat(s, table_pat(), 0) {
        None => Seq::empty(),
        Some(t) => match find_pat(s, tr_pat(), t + 6) {
            None => Seq::empty(),
            Some(h) => readings_from(s, row_next(s, h)),
        },
    }
}

/// A reading is well-formed when both of its components are.
pub open spec fn reading_wf(rd: TempReading) -> bool {
    rd.temperature.wf() && rd.datetime.wf()
}

/// A reading a row yields is well-formed: its cells passed the timestamp and
/// decimal parsers.
proof fn lemma_row_reading_wf(s: Seq<char>, cstart: int, cend: int)
    ensures
        row_reading(s, cstart, cend) matches Some(rd) ==> reading_wf(rd),
{
    if row_reading(s, cstart, cend) is Some {
        let t1 = find_pat(s, td_pat(), cstart)->Some_0;
        let g1 = find_pat(s, gt_pat(), t1 + 3)->Some_0;
        let te1 = text_end(s, g1 + 1);
        crate::datetime::lemma_dt_spec_wf(s.subrange(g1 + 1, te1));
        let t2 = find_pat(s, td_pat(), te1)->Some_0;
        let g2 = find_pat(s, gt_pat(), t2 + 3)->Some_0;
        let te2 = text_end(s, g2 + 1);
        crate::temp::lemma_dec_spec_wf(s.subrange(g2 + 1, te2));
    }
}

/// Every reading rows yield at or after `i` is well-formed.
proof fn lemma_readings_from_wf(s: Seq<char>, i: int)
    ensures
        forall|k: int|
            0 <= k < readings_from(s, i).len() ==> reading_wf(#[trigger] readings_from(s, i)[k]),
    decreases s.len() - i,
{
    reveal_strlit("<tr");
    reveal_strlit("</tr>");
    crate::scan::lemma_find_pat_bounds(s, tr_pat(), i);
    match find_pat(s, tr_pat(), i) {
        None => {},
        Some(r) => {
            crate::scan::lemma_find_pat_bounds(s, tr_close_pat(), r + 3);
            lemma_readings_from_wf(s, row_next(s, r));
            lemma_row_reading_wf(s, r + 3, row_limit(s, r));
            let rest = readings_from(s, row_next(s, r));
            let whole = readings_from(s, i);
            match row_reading(s, r + 3, row_limit(s, r)) {
                Some(rd) => {
                    assert forall|k: int| 0 <= k < whole.len() implies reading_wf(
                        #[trigger] whole[k],
                    ) by {
                        if k == 0 {
                            assert(whole[k] == rd);
                        } else {
                            assert(whole[k] == rest[k - 1]);
                        }
                    }
                },
                None => {},
            }
        },
    }
}

/// Every reading the document yields is well-formed: its temperature in the
/// representable range and canonical, its timestamp within calendar ranges.
pub proof fn lemma_parsed_readings_wf(s: Seq<char>)
    ensures
        forall|k: int|
            0 <= k < readings_spec(s).len() ==> reading_wf(#[trigger] readings_spec(s)[k]),
{
    match find_pat(s, table_pat(), 0) {
        None => {},
        Some(t) => match find_pat(s, tr_pat(), t + 6) {
            None => {},
            Some(h) => {
                lemma_readings_from_wf(s, row_next(s, h));
            },
        },
    }
}

/// A reading passes the optional lower time bound.
pub open spec fn bound_ok(bound: Option<DateTime>, rd: TempReading) -> bool {
    match bound {
        None => true,
        Some(b) => dt_le(b, rd.datetime),
    }
}

/// The readings that pass the lower time bound, order kept.
pub open spec fn kept_of(s: Seq<TempReading>, bound: Option<DateTime>) -> Seq<TempReading>
    decreases s.len(),
{
    if s.len() == 0 {
        Seq::empty()
    } else {
        let rest = kept_of(s.drop_last(), bound);
        if bound_ok(bound, s.last()) {
            rest.push(s.last())
        } else {
            rest
        }
    }
}

/// The readings the document yields once the optional lower time bound is
/// applied.
pub open spec fn kept_readings(s: Seq<char>, bound: Option<DateTime>) -> Seq<TempReading> {
    kept_of(readings_spec(s), bound)
}

/// The bound keeps only readings of the set, so well-formedness carries over.
proof fn lemma_kept_of_wf(s: Seq<TempReading>, bound: Option<DateTime>)
    requires
        forall|k: int| 0 <= k < s.len() ==> reading_wf(#[trigger] s[k]),
    ensures
        forall|k: int|
            0 <= k < kept_of(s, bound).len() ==> reading_wf(#[trigger] kept_of(s, bound)[k]),
    decreases s.len(),
{
    if s.len() > 0 {
        lemma_kept_of_wf(s.drop_last(), bound);
        let rest = kept_of(s.drop_last(), bound);
        let whole = kept_of(s, bound);
        if bound_ok(bound, s.last()) {
            assert forall|k: int| 0 <= k < whole.len() implies reading_wf(#[trigger] whole[k]) by {
                if k < rest.len() {
                    assert(whole[k] == rest[k]);
                } else {
                    assert(whole[k] == s.last());
                }
            }
        }
    }
}

/// Every reading the bound keeps lies at or after the bound.
pub proof fn lemma_bound_excludes_earlier(s: Seq<TempReading>, b: DateTime)
    ensures
        forall|i: int|
            0 <= i < kept_of(s, Some(b)).len() ==> dt_le(
                b,
                #[trigger] kept_of(s, Some(b))[i].datetime,
            ),
    decreases s.len(),
{
    if s.len() > 0 {
        lemma_bound_excludes_earlier(s.drop_last(), b);
        let rest = kept_of(s.drop_last(), Some(b));
        let whole = kept_of(s, Some(b));
        if bound_ok(Some(b), s.last()) {
            assert forall|i: int| 0 <= i < whole.len() implies dt_le(
                b,
                #[trigger] whole[i].datetime,
            ) by {
                if i < rest.len() {
                    assert(whole[i] == rest[i]);
                } else {
                    assert(whole[i] == s.last());
                }
            }
        }
    }
}

// ---------------------------------------------------------------------------
// Extrema reduction.
// ---------------------------------------------------------------------------
/// Position `i` holds a minimum, and the first one: nothing is lower, and
/// everything before it is strictly higher.
pub open spec fn min_at(s: Seq<TempReading>, i: int) -> bool {
    &&& 0 <= i < s.len()
    &&& forall|j: int| 0 <= j < s.len() ==> temp_le(s[i].temperature, #[trigger] s[j].temperature)
    &&& forall|j: int| 0 <= j < i ==> temp_lt(s[i].temperature, #[trigger] s[j].temperature)
}

/// Position `i` holds a maximum, and the first one: nothing is higher, and
/// everything before it is strictly lower.
pub open spec fn max_at(s: Seq<TempReading>, i: int) -> bool {
    &&& 0 <= i < s.len()
    &&& forall|j: int| 0 <= j < s.len() ==> temp_le(#[trigger] s[j].temperature, s[i].temperature)
    &&& forall|j: int| 0 <= j < i ==> temp_lt(#[trigger] s[j].temperature, s[i].temperature)
}

/// `rd` is the first reading of `s` that attains the minimum temperature.
pub open spec fn is_first_min(s: Seq<TempReading>, rd: TempReading) -> bool {
    exists|i: int| #[trigger] min_at(s, i) && s[i] == rd
}

/// `rd` is the first reading of `s` that attains the maximum temperature.
pub open spec fn is_first_max(s: Seq<TempReading>, rd: TempReading) -> bool {
    exists|i: int| #[trigger] max_at(s, i) && s[i] == rd
}

/// The extrema-reduction contract: an empty sequence yields `EmptyInput` and
/// never a degenerate pair; a non-empty one yields the first minimum and the
/// first maximum, whose temperatures are ordered.
pub open spec fn reduces_to(s: Seq<TempReading>, r: Result<MinMax, StribotError>) -> bool {
    &&& (r is Ok <==> s.len() > 0)
    &&& (s.len() == 0 ==> r == Err::<MinMax, StribotError>(StribotError::EmptyInput))
    &&& (r matches Ok(m) ==> is_first_min(s, m.min) && is_first_max(s, m.max) && temp_le(
        m.min.temperature,
        m.max.temperature,
    ))
}

/// Reduce an ordered sequence of readings to its extrema: one left-to-right
/// fold keeping two running champions, earlier ties retained.
pub fn minmax_of(readings: &Vec<TempReading>) -> (r: Result<MinMax, StribotError>)
    ensures
        reduces_to(readings@, r),
{
    if readings.len() == 0 {
        return Err(StribotError::EmptyInput);
    }
    let s = readings;
    let mut mi: usize = 0;
    let mut ma: usize = 0;
    let mut k: usize = 1;
    while k < s.len()
        invariant
            1 <= k <= s@.len(),
            mi < k,
            ma < k,
            forall|j: int| 0 <= j < k ==> temp_le(s@[mi as int].temperature, #[trigger] s@[j].temperature),
            forall|j: int| 0 <= j < mi ==> temp_lt(s@[mi as int].temperature, #[trigger] s@[j].temperature),
            forall|j: int| 0 <= j < k ==> temp_le(#[trigger] s@[j].temperature, s@[ma as int].temperature),
            forall|j: int| 0 <= j < ma ==> temp_lt(#[trigger] s@[j].temperature, s@[ma as int].temperature),
        decreases s@.len() - k,
    {
        if temp_lt_exec(&s[k].temperature, &s[mi].temperature) {
            mi = k;
        }
        if temp_lt_exec(&s[ma].temperature, &s[k].temperature) {
            ma = k;
        }
        k += 1;
    }
    let m = MinMax { min: s[mi], max: s[ma] };
    proof {
        assert(min_at(s@, mi as int));
        assert(max_at(s@, ma as int));
    }
    Ok(m)
}

/// The reduction contract is deterministic: any two results it admits on one
/// sequence are identical. With the parsing contracts being functions of the
/// body, parsing the same body twice yields identical extrema.
pub proof fn lemma_reduce_deterministic(
    s: Seq<TempReading>,
    r1: Result<MinMax, StribotError>,
    r2: Result<MinMax, StribotError>,
)
    requires
        reduces_to(s, r1),
        reduces_to(s, r2),
    ensures
        r1 == r2,
{
    if s.len() > 0 {
        let m1 = r1->Ok_0;
        let m2 = r2->Ok_0;
        let i1 = choose|i: int| #[trigger] min_at(s, i) && s[i] == m1.min;
        let i2 = choose|i: int| #[trigger] min_at(s, i) && s[i] == m2.min;
        assert(i1 == i2) by {
            if i1 < i2 {
                assert(temp_lt(s[i2].temperature, s[i1].temperature));
                assert(temp_le(s[i1].temperature, s[i2].temperature));
            }
            if i2 < i1 {
                assert(temp_lt(s[i1].temperature, s[i2].temperature));
                assert(temp_le(s[i2].temperature, s[i1].temperature));
            }
        }
        let a1 = choose|i: int| #[trigger] max_at(s, i) && s[i] == m1.max;
        let a2 = choose|i: int| #[trigger] max_at(s, i) && s[i] == m2.max;
        assert(a1 == a2) by {
            if a1 < a2 {
                assert(temp_lt(s[a2].temperature, s[a1].temperature));
                assert(temp_le(s[a2].temperature, s[a1].temperature));
            }
            if a2 < a1 {
                assert(temp_lt(s[a1].temperature, s[a2].temperature));
                assert(temp_le(s[a1].temperature, s[a2].temperature));
            }
        }
    }
}

/// Tie-break: of two readings that share the minimum temperature, the first
/// one in traversal order is the minimum retained.
pub proof fn lemma_min_tie_break(s: Seq<TempReading>, rd: TempReading)
    requires
        s.len() == 2,
        s[0].temperature == s[1].temperature,
        is_first_min(s, rd),
    ensures
        rd == s[0],
{
    let i = choose|i: int| #[trigger] min_at(s, i) && s[i] == rd;
    if i == 1 {
        assert(temp_lt(s[1].temperature, s[0].temperature));
        assert(false);
    }
}

/// The filtered readings are the same whether the bound is applied while
/// collecting or afterwards; parsing twice keeps them identical.
pub proof fn lemma_minmax_parse_idempotent(
    s: Seq<char>,
    bound: Option<DateTime>,
    r1: Result<MinMax, StribotError>,
    r2: Result<MinMax, StribotError>,
)
    requires
        reduces_to(kept_readings(s, bound), r1),
        reduces_to(kept_readings(s, bound), r2),
    ensures
        r1 == r2,
{
    lemma_reduce_deterministic(kept_readings(s, bound), r1, r2);
}

// ---------------------------------------------------------------------------
// Executable table extraction.
// ---------------------------------------------------------------------------
/// Fixed search patterns, decoded once per extraction.
struct Pats {
    table: Vec<char>,
    tr: Vec<char>,
    tr_close: Vec<char>,
    td: Vec<char>,
    gt: Vec<char>,
    lt: Vec<char>,
}

impl Pats {
    spec fn wf(self) -> bool {
        self.table@ == table_pat() && self.tr@ == tr_pat() && self.tr_close@ == tr_close_pat()
            && self.td@ == td_pat() && self.gt@ == gt_pat() && self.lt@ == lt_pat()
    }

    fn make() -> (p: Pats)
        ensures
            p.wf(),
    {
        Pats {
            table: to_chars("<table"),
            tr: to_chars("<tr"),
            tr_close: to_chars("</tr>"),
            td: to_chars("<td"),
            gt: to_chars(">"),
            lt: to_chars("<"),
        }
    }
}

/// Executable single-row extraction.
fn row_reading_exec(s: &Vec<char>, cstart: usize, cend: usize, p: &Pats) -> (r: Option<
    TempReading,
>)
    requires
        cstart <= s.len(),
        p.wf(),
    ensures
        r == row_reading(s@, cstart as int, cend as int),
{
    proof {
        reveal_strlit("<td");
        reveal_strlit(">");
        reveal_strlit("<");
    }
    match find_pat_exec(s, &p.td, cstart) {
        None => None,
        Some(t1) => {
            if t1 >= cend {
                return None;
            }
            match find_pat_exec(s, &p.gt, t1 + 3) {
                None => None,
                Some(g1) => {
                    if g1 >= cend {
                        return None;
                    }
                    let te1 = match find_pat_exec(s, &p.lt, g1 + 1) {
                        Some(e) => e,
                        None => s.len(),
                    };
                    let cell1 = copy_range(s, g1 + 1, te1);
                    match parse_datetime_chars(&cell1) {
                        Err(_) => None,
                        Ok(dt) => match find_pat_exec(s, &p.td, te1) {
                            None => None,
                            Some(t2) => {
                                if t2 >= cend {
                                    return None;
                                }
                                match find_pat_exec(s, &p.gt, t2 + 3) {
                                    None => None,
                                    Some(g2) => {
                                        if g2 >= cend {
                                            return None;
                                        }
                                        let te2 = match find_pat_exec(s, &p.lt, g2 + 1) {
                                            Some(e) => e,
                                            None => s.len(),
                                        };
                                        let cell2 = copy_range(s, g2 + 1, te2);
                                        match parse_decimal_chars(&cell2) {
                                            Err(_) => None,
                                            Ok(t) => Some(
                                                TempReading { datetime: dt, temperature: t },
                                            ),
                                        }
                                    },
                                }
                            },
                        },
                    }
                },
            }
        },
    }
}

/// Executable collection of every row's reading at or after `i`.
fn collect_readings(s: &Vec<char>, i: usize, p: &Pats, out: &mut Vec<TempReading>)
    requires
        i <= s.len(),
        p.wf(),
    ensures
        final(out)@ == old(out)@ + readings_from(s@, i as int),
    decreases s.len() - i,
{
    proof {
        reveal_strlit("<tr");
        reveal_strlit("</tr>");
    }
    match find_pat_exec(s, &p.tr, i) {
        None => {
            proof {
                assert(out@ =~= out@ + Seq::<TempReading>::empty());
            }
        },
        Some(r) => {
            let (rend, next) = match find_pat_exec(s, &p.tr_close, r + 3) {
                Some(e) => (e, e + 5),
                None => (s.len(), s.len()),
            };
            let ghost pre = out@;
            match row_reading_exec(s, r + 3, rend, p) {
                Some(rd) => {
                    out.push(rd);
                    collect_readings(s, next, p, out);
                    proof {
                        assert(out@ =~= pre + (seq![rd] + readings_from(s@, next as int)));
                    }
                },
                None => {
                    collect_readings(s, next, p, out);
                },
            }
        },
    }
}

/// Executable extraction of the whole document's readings.
fn extract_readings(s: &Vec<char>, p: &Pats) -> (rows: Vec<TempReading>)
    requires
        p.wf(),
    ensures
        rows@ == readings_spec(s@),
{
    proof {
        reveal_strlit("<table");
        reveal_strlit("<tr");
        reveal_strlit("</tr>");
    }
    let mut rows: Vec<TempReading> = Vec::new();
    match find_pat_exec(s, &p.table, 0) {
        None => {},
        Some(t) => {
            match find_pat_exec(s, &p.tr, t + 6) {
                None => {},
                Some(h) => {
                    let next = match find_pat_exec(s, &p.tr_close, h + 3) {
                        Some(e) => e + 5,
                        None => s.len(),
                    };
                    collect_readings(s, next, p, &mut rows);
                },
            }
        },
    }
    proof {
        assert(rows@ =~= readings_spec(s@));
    }
    rows
}

/// Extract the history table's readings and reduce them to extrema.
///
/// Rows strictly earlier than the optional `not_before` bound are excluded;
/// `EmptyInput` is the outcome when no valid row survives, never a
/// zero-valued pair.
pub fn parse_minmax(body: &str, not_before: Option<DateTime>) -> (r: Result<MinMax, StribotError>)
    ensures
        reduces_to(kept_readings(body@, not_before), r),
        r matches Ok(m) ==> reading_wf(m.min) && reading_wf(m.max),
{
    let chars = to_chars(body);
    let p = Pats::make();
    let rows = extract_readings(&chars, &p);
    let mut kept: Vec<TempReading> = Vec::new();
    let mut k: usize = 0;
    proof {
        assert(rows@.subrange(0, 0) =~= Seq::<TempReading>::empty());
    }
    while k < rows.len()
        invariant
            k <= rows@.len(),
            rows@ == readings_spec(body@),
            kept@ == kept_of(rows@.subrange(0, k as int), not_before),
        decreases rows@.len() - k,
    {
        let keep = match not_before {
            None => true,
            Some(b) => dt_le_exec(&b, &rows[k].datetime),
        };
        proof {
            assert(rows@.subrange(0, k + 1).drop_last() =~= rows@.subrange(0, k as int));
            assert(rows@.subrange(0, k + 1).last() == rows@[k as int]);
        }
        if keep {
            kept.push(rows[k]);
        }
        k += 1;
    }
    proof {
        assert(rows@.subrange(0, rows@.len() as int) =~= rows@);
    }
    let r = minmax_of(&kept);
    proof {
        lemma_parsed_readings_wf(body@);
        lemma_kept_of_wf(readings_spec(body@), not_before);
        if r is Ok {
            let m = r->Ok_0;
            let i = choose|i: int| #[trigger] min_at(kept@, i) && kept@[i] == m.min;
            assert(reading_wf(kept@[i]));
            let a = choose|i: int| #[trigger] max_at(kept@, i) && kept@[i] == m.max;
            assert(reading_wf(kept@[a]));
        }
    }
    r
}

} // verus!
