use vstd::prelude::*;
use crate::error::{Failure, NumberFormatError, ParseError};
use crate::number::{copy_range, magnitude, parse_magnitude, parse_number_with, UnitTable};
use crate::text::{
    chars_of, find_from, lines, next_index_of, nonempty, span_is, spans_of, spans_within, split_lines,
    split_tokens, tokens, Span,
};
use vstd::string::StrSliceExecFns;

verus! {

/// The `free` subcommand: display the amount of free and used memory.
pub struct FreeCommand {}

/// One row of `free` output, such as `Mem` or `Swap`.
///
/// `buff_cache` comes from a `buff/cache` column, `buffers` and `cache` from the
/// separate columns of wide output; the header decides which are filled.
#[derive(Debug, Clone, PartialEq, Eq)]
pub struct FreeLine<'a> {
    pub kind: &'a str,
    pub total: u64,
    pub used: u64,
    pub free: u64,
    pub shared: Option<u64>,
    pub buff_cache: Option<u64>,
    pub buffers: Option<u64>,
    pub cache: Option<u64>,
    pub available: Option<u64>,
}

/// A `FreeLine` over plain values.
pub ghost struct FreeRow {
    pub kind: Seq<char>,
    pub total: u64,
    pub used: u64,
    pub free: u64,
    pub shared: Option<u64>,
    pub buff_cache: Option<u64>,
    pub buffers: Option<u64>,
    pub cache: Option<u64>,
    pub available: Option<u64>,
}

impl<'a> View for FreeLine<'a> {
    type V = FreeRow;

    open spec fn view(&self) -> FreeRow {
        FreeRow {
            kind: self.kind@,
            total: self.total,
            used: self.used,
            free: self.free,
            shared: self.shared,
            buff_cache: self.buff_cache,
            buffers: self.buffers,
            cache: self.cache,
            available: self.available,
        }
    }
}

/// The record a row labelled `kind` starts from: the counts 0, the rest absent.
pub open spec fn start_row(kind: Seq<char>) -> FreeRow {
    FreeRow {
        kind,
        total: 0,
        used: 0,
        free: 0,
        shared: None,
        buff_cache: None,
        buffers: None,
        cache: None,
        available: None,
    }
}

/// The columns that `free` can print.
#[derive(Clone, Copy, PartialEq, Eq, Structural)]
pub enum FreeColumn {
    Total,
    Used,
    Free,
    Shared,
    BuffCache,
    Buffers,
    Cache,
    Available,
    Unknown,
}

pub open spec fn column_of(label: Seq<char>) -> FreeColumn {
    if label == "total"@ {
        FreeColumn::Total
    } else if label == "used"@ {
        FreeColumn::Used
    } else if label == "free"@ {
        FreeColumn::Free
    } else if label == "shared"@ {
        FreeColumn::Shared
    } else if label == "buff/cache"@ {
        FreeColumn::BuffCache
    } else if label == "buffers"@ {
        FreeColumn::Buffers
    } else if label == "cache"@ {
        FreeColumn::Cache
    } else if label == "available"@ {
        FreeColumn::Available
    } else {
        FreeColumn::Unknown
    }
}

pub open spec fn set_value(acc: FreeRow, c: FreeColumn, v: u64) -> FreeRow {
    match c {
        FreeColumn::Total => FreeRow { total: v, ..acc },
        FreeColumn::Used => FreeRow { used: v, ..acc },
        FreeColumn::Free => FreeRow { free: v, ..acc },
        FreeColumn::Shared => FreeRow { shared: Some(v), ..acc },
        FreeColumn::BuffCache => FreeRow { buff_cache: Some(v), ..acc },
        FreeColumn::Buffers => FreeRow { buffers: Some(v), ..acc },
        FreeColumn::Cache => FreeRow { cache: Some(v), ..acc },
        FreeColumn::Available => FreeRow { available: Some(v), ..acc },
        FreeColumn::Unknown => acc,
    }
}

/// One value `val` under the column label `label` in data row `row`.
pub open spec fn apply_value(acc: FreeRow, label: Seq<char>, val: Seq<char>, row: nat) -> Result<
    FreeRow,
    Failure,
> {
    let c = column_of(label);
    if c == FreeColumn::Unknown {
        Ok(acc)
    } else {
        match magnitude(val, UnitTable::Mixed) {
            Some(v) => Ok(set_value(acc, c, v)),
            None => Err(Failure::NumberFormat(label, row, val)),
        }
    }
}

/// The first `k` (label, value) pairs applied to `start`.
pub open spec fn value_fold(
    start: FreeRow,
    cols: Seq<Seq<char>>,
    vals: Seq<Seq<char>>,
    row: nat,
    k: int,
) -> Result<FreeRow, Failure>
    decreases k,
{
    if k <= 0 {
        Ok(start)
    } else {
        match value_fold(start, cols, vals, row, k - 1) {
            Ok(acc) => apply_value(acc, cols[k - 1], vals[k - 1], row),
            Err(e) => Err(e),
        }
    }
}

pub open spec fn min(a: int, b: int) -> int {
    if a <= b {
        a
    } else {
        b
    }
}

/// The record of the data row `line`, number `row`, under header line `header`:
/// labels and values are paired by position, up to the shorter of the two.
pub open spec fn free_record(header: Seq<char>, line: Seq<char>, row: nat) -> Result<
    FreeRow,
    Failure,
> {
    let colon = next_index_of(line, 0, ':');
    if colon >= line.len() {
        Err(Failure::MissingDelimiter(row))
    } else {
        let cols = tokens(header);
        let vals = tokens(line.subrange(colon + 1, line.len() as int));
        value_fold(
            start_row(line.subrange(0, colon)),
            cols,
            vals,
            row,
            min(cols.len() as int, vals.len() as int),
        )
    }
}

/// The records of lines `1..n`; empty lines give none, the first failure ends it.
pub open spec fn free_rows(ls: Seq<Seq<char>>, n: int) -> Result<Seq<FreeRow>, Failure>
    decreases n,
{
    if n <= 1 {
        Ok(Seq::empty())
    } else {
        match free_rows(ls, n - 1) {
            Ok(v) => if ls[n - 1].len() == 0 {
                Ok(v)
            } else {
                match free_record(ls[0], ls[n - 1], (n - 2) as nat) {
                    Ok(r) => Ok(v.push(r)),
                    Err(e) => Err(e),
                }
            },
            Err(e) => Err(e),
        }
    }
}

/// What `free` output `s` converts to.
pub open spec fn free_parse(s: Seq<char>) -> Result<Seq<FreeRow>, Failure> {
    let ls = lines(s);
    if ls.len() == 0 {
        Err(Failure::EmptyInput)
    } else {
        free_rows(ls, ls.len() as int)
    }
}

pub open spec fn rows_view<'a>(v: Seq<FreeLine<'a>>) -> Seq<FreeRow> {
    v.map_values(|l: FreeLine<'a>| l@)
}

pub fn classify(s: &Vec<char>, sp: Span) -> (r: FreeColumn)
    requires
        sp.within(s.len() as int),
    ensures
        r == column_of(sp.of(s@)),
{
    if span_is(s, sp, &chars_of("total")) {
        FreeColumn::Total
    } else if span_is(s, sp, &chars_of("used")) {
        FreeColumn::Used
    } else if span_is(s, sp, &chars_of("free")) {
        FreeColumn::Free
    } else if span_is(s, sp, &chars_of("shared")) {
        FreeColumn::Shared
    } else if span_is(s, sp, &chars_of("buff/cache")) {
        FreeColumn::BuffCache
    } else if span_is(s, sp, &chars_of("buffers")) {
        FreeColumn::Buffers
    } else if span_is(s, sp, &chars_of("cache")) {
        FreeColumn::Cache
    } else if span_is(s, sp, &chars_of("available")) {
        FreeColumn::Available
    } else {
        FreeColumn::Unknown
    }
}

impl<'a> FreeLine<'a> {
    fn set_value(&mut self, c: FreeColumn, v: u64)
        ensures
            final(self)@ == set_value(old(self)@, c, v),
    {
        match c {
            FreeColumn::Total => self.total = v,
            FreeColumn::Used => self.used = v,
            FreeColumn::Free => self.free = v,
            FreeColumn::Shared => self.shared = Some(v),
            FreeColumn::BuffCache => self.buff_cache = Some(v),
            FreeColumn::Buffers => self.buffers = Some(v),
            FreeColumn::Cache => self.cache = Some(v),
            FreeColumn::Available => self.available = Some(v),
            FreeColumn::Unknown => {},
        }
    }
}

proof fn lemma_fold_err(
    start: FreeRow,
    cols: Seq<Seq<char>>,
    vals: Seq<Seq<char>>,
    row: nat,
    k: int,
    m: int,
)
    requires
        k <= m,
        value_fold(start, cols, vals, row, k) is Err,
    ensures
        value_fold(start, cols, vals, row, m) == value_fold(start, cols, vals, row, k),
    decreases m - k,
{
    if k < m {
        lemma_fold_err(start, cols, vals, row, k, m - 1);
    }
}

/// The record of the data row at span `l`, under the header at span `h`.
fn parse_record<'a>(input: &'a str, s: &Vec<char>, h: Span, l: Span, row: usize) -> (r: Result<
    FreeLine<'a>,
    ParseError,
>)
    requires
        s@ == input@,
        h.within(s.len() as int),
        l.within(s.len() as int),
    ensures
        match r {
            Ok(rec) => free_record(h.of(s@), l.of(s@), row as nat) == Ok::<FreeRow, Failure>(
                rec@,
            ),
            Err(e) => free_record(h.of(s@), l.of(s@), row as nat) == Err::<FreeRow, Failure>(e@),
        },
{
    let hv = copy_range(s, h.start, h.end);
    let lv = copy_range(s, l.start, l.end);
    let colon = find_from(&lv, 0, ':');
    if colon >= lv.len() {
        return Err(ParseError::MissingDelimiter { row });
    }
    let rest = copy_range(&lv, colon + 1, lv.len());
    let cols = split_tokens(&hv);
    let vals = split_tokens(&rest);
    let ghost cv = tokens(hv@);
    let ghost vv = tokens(rest@);
    let kind = input.substring_char(l.start, l.start + colon);
    assert(kind@ =~= lv@.subrange(0, colon as int));
    let mut rec = FreeLine {
        kind,
        total: 0,
        used: 0,
        free: 0,
        shared: None,
        buff_cache: None,
        buffers: None,
        cache: None,
        available: None,
    };
    let ghost start = rec@;
    let n = if cols.len() <= vals.len() {
        cols.len()
    } else {
        vals.len()
    };
    let mut k: usize = 0;
    while k < n
        invariant
            s@ == input@,
            h.within(s.len() as int),
            l.within(s.len() as int),
            hv@ == s@.subrange(h.start as int, h.end as int),
            rest@ == lv@.subrange(colon + 1, lv@.len() as int),
            lv@ == s@.subrange(l.start as int, l.end as int),
            colon < lv.len(),
            colon == next_index_of(lv@, 0, ':'),
            cv == tokens(hv@),
            vv == tokens(rest@),
            spans_within(cols@, hv.len() as int),
            spans_within(vals@, rest.len() as int),
            spans_of(cols@, hv@) == cv,
            spans_of(vals@, rest@) == vv,
            n == min(cv.len() as int, vv.len() as int),
            cols.len() == cv.len(),
            vals.len() == vv.len(),
            start == start_row(lv@.subrange(0, colon as int)),
            k <= n,
            value_fold(start, cv, vv, row as nat, k as int) == Ok::<FreeRow, Failure>(rec@),
        decreases n - k,
    {
        let csp = cols[k];
        let vsp = vals[k];
        assert(csp.of(hv@) == cv[k as int]);
        assert(vsp.of(rest@) == vv[k as int]);
        let c = classify(&hv, csp);
        if c != FreeColumn::Unknown {
            let digits = copy_range(&rest, vsp.start, vsp.end);
            match parse_magnitude(&digits, UnitTable::Mixed) {
                Some(v) => rec.set_value(c, v),
                None => {
                    let column = input.substring_char(h.start + csp.start, h.start + csp.end);
                    assert(column@ =~= csp.of(hv@));
                    let tstart = l.start + colon + 1 + vsp.start;
                    let tend = l.start + colon + 1 + vsp.end;
                    let token = input.substring_char(tstart, tend);
                    assert(token@ =~= vsp.of(rest@));
                    proof {
                        assert(value_fold(start, cv, vv, row as nat, k + 1) == Err::<
                            FreeRow,
                            Failure,
                        >(Failure::NumberFormat(cv[k as int], row as nat, vv[k as int])));
                        lemma_fold_err(start, cv, vv, row as nat, k + 1, n as int);
                        assert(lv@ == l.of(s@));
                        assert(hv@ == h.of(s@));
                    }
                    let e = ParseError::NumberFormat {
                        field: column.to_owned(),
                        row,
                        token: token.to_owned(),
                    };
                    return Err(e);
                },
            }
        }
        k = k + 1;
    }
    assert(lv@ =~= l.of(s@));
    assert(hv@ =~= h.of(s@));
    Ok(rec)
}

proof fn lemma_rows_err(ls: Seq<Seq<char>>, k: int, m: int)
    requires
        k <= m,
        free_rows(ls, k) is Err,
    ensures
        free_rows(ls, m) == free_rows(ls, k),
    decreases m - k,
{
    if k < m {
        lemma_rows_err(ls, k, m - 1);
    }
}

impl<'a> FreeLine<'a> {
    /// Convert `free` output: the first line holds the column labels, each later
    /// non-empty line `label: value value ...` gives one record, in order.
    ///
    /// Labels and values are paired by position, up to the shorter list; values
    /// are read with the mixed unit table. Data rows are counted from 0 after the
    /// header, blank lines included.
    pub fn parse(input: &'a str) -> (r: Result<Vec<FreeLine<'a>>, ParseError>)
        ensures
            outcome(r) == free_parse(input@),
    {
        let s = chars_of(input);
        let ls = split_lines(&s);
        let ghost lv = spans_of(ls@, s@);
        if ls.len() == 0 {
            return Err(ParseError::EmptyInput);
        }
        let h = ls[0];
        assert(h.of(s@) == lv[0]);
        let mut out: Vec<FreeLine<'a>> = Vec::new();
        let mut i: usize = 1;
        assert(rows_view(out@) =~= Seq::<FreeRow>::empty());
        while i < ls.len()
            invariant
                s@ == input@,
                lv == spans_of(ls@, s@),
                lv == lines(input@),
                lv.len() == ls.len(),
                spans_within(ls@, s.len() as int),
                h.within(s.len() as int),
                h.of(s@) == lv[0],
                1 <= i <= ls.len(),
                free_rows(lv, i as int) == Ok::<Seq<FreeRow>, Failure>(rows_view(out@)),
            decreases ls.len() - i,
        {
            let l = ls[i];
            assert(l.of(s@) == lv[i as int]);
            if l.start < l.end {
                match parse_record(input, &s, h, l, i - 1) {
                    Ok(rec) => {
                        let ghost before = out@;
                        out.push(rec);
                        assert(rows_view(out@) =~= rows_view(before).push(rec@));
                    },
                    Err(e) => {
                        proof {
                            lemma_rows_err(lv, i + 1, ls.len() as int);
                        }
                        return Err(e);
                    },
                }
            }
            i = i + 1;
        }
        Ok(out)
    }
}

/// Read a magnitude such as `12K` or `1.5G` with the mixed unit table of `free` (`K` is 1000, `Ki` is 1024).
pub fn parse_number(num: &str) -> (r: Result<u64, NumberFormatError>)
    ensures
        match r {
            Ok(v) => magnitude(num@, UnitTable::Mixed) == Some(v),
            Err(e) => magnitude(num@, UnitTable::Mixed) is None && e.token@ == num@,
        },
{
    parse_number_with(num, UnitTable::Mixed)
}

/// What a call of `parse` returned, over plain values.
pub open spec fn outcome<'a>(r: Result<Vec<FreeLine<'a>>, ParseError>) -> Result<Seq<FreeRow>, Failure> {
    match r {
        Ok(v) => Ok(rows_view(v@)),
        Err(e) => Err(e@),
    }
}

/// The data rows of `free` output: the non-empty lines after the header.
pub open spec fn data_rows(s: Seq<char>) -> Seq<Seq<char>> {
    nonempty(lines(s).drop_first())
}

/// The label of a data row: its text before the first `:`.
pub open spec fn row_label(line: Seq<char>) -> Seq<char> {
    line.subrange(0, next_index_of(line, 0, ':'))
}

proof fn lemma_fold_keeps_kind(
    start: FreeRow,
    cols: Seq<Seq<char>>,
    vals: Seq<Seq<char>>,
    row: nat,
    k: int,
)
    ensures
        value_fold(start, cols, vals, row, k) is Ok ==> value_fold(
            start,
            cols,
            vals,
            row,
            k,
        )->Ok_0.kind == start.kind,
        value_fold(start, cols, vals, row, k) is Err ==> value_fold(
            start,
            cols,
            vals,
            row,
            k,
        )->Err_0 is NumberFormat,
    decreases k,
{
    if k > 0 {
        lemma_fold_keeps_kind(start, cols, vals, row, k - 1);
    }
}

/// The value of the last of the first `k` pairs whose label names column `c`,
/// or `default` where none does.
pub open spec fn last_value(
    cols: Seq<Seq<char>>,
    vals: Seq<Seq<char>>,
    k: int,
    c: FreeColumn,
    default: u64,
) -> u64
    decreases k,
{
    if k <= 0 {
        default
    } else if column_of(cols[k - 1]) == c {
        magnitude(vals[k - 1], UnitTable::Mixed)->Some_0
    } else {
        last_value(cols, vals, k - 1, c, default)
    }
}

/// What data row `line` holds under column `c` of `header`, or 0 where no label names it.
pub open spec fn column_value(header: Seq<char>, line: Seq<char>, c: FreeColumn) -> u64 {
    let colon = next_index_of(line, 0, ':');
    let cols = tokens(header);
    let vals = tokens(line.subrange(colon + 1, line.len() as int));
    last_value(cols, vals, min(cols.len() as int, vals.len() as int), c, 0)
}

proof fn lemma_fold_counts(
    start: FreeRow,
    cols: Seq<Seq<char>>,
    vals: Seq<Seq<char>>,
    row: nat,
    k: int,
)
    requires
        value_fold(start, cols, vals, row, k) is Ok,
    ensures
        ({
            let r = value_fold(start, cols, vals, row, k)->Ok_0;
            &&& r.total == last_value(cols, vals, k, FreeColumn::Total, start.total)
            &&& r.used == last_value(cols, vals, k, FreeColumn::Used, start.used)
            &&& r.free == last_value(cols, vals, k, FreeColumn::Free, start.free)
        }),
    decreases k,
{
    if k > 0 {
        lemma_fold_counts(start, cols, vals, row, k - 1);
    }
}

proof fn lemma_rows_match(ls: Seq<Seq<char>>, n: int)
    requires
        1 <= n <= ls.len(),
    ensures
        free_rows(ls, n) is Ok ==> ({
            let v = free_rows(ls, n)->Ok_0;
            let d = nonempty(ls.subrange(1, n));
            &&& v.len() == d.len()
            &&& forall|i: int| 0 <= i < v.len() ==> (#[trigger] v[i]).kind == row_label(d[i])
            &&& forall|i: int|
                0 <= i < v.len() ==> (#[trigger] v[i]).total == column_value(
                    ls[0],
                    d[i],
                    FreeColumn::Total,
                ) && v[i].used == column_value(ls[0], d[i], FreeColumn::Used) && v[i].free
                    == column_value(ls[0], d[i], FreeColumn::Free)
        }),
        free_rows(ls, n) is Err ==> !(free_rows(ls, n)->Err_0 is EmptyInput),
    decreases n,
{
    if n == 1 {
        assert(ls.subrange(1, 1) =~= Seq::<Seq<char>>::empty());
        assert(nonempty(ls.subrange(1, 1)) =~= Seq::<Seq<char>>::empty());
    } else {
        lemma_rows_match(ls, n - 1);
        let line = ls[n - 1];
        assert(ls.subrange(1, n) =~= ls.subrange(1, n - 1).push(line));
        ls.subrange(1, n - 1).lemma_filter_push(line, |l: Seq<char>| l.len() > 0);
        if line.len() > 0 {
            let colon = next_index_of(line, 0, ':');
            if colon < line.len() {
                let cols = tokens(ls[0]);
                let vals = tokens(line.subrange(colon + 1, line.len() as int));
                lemma_fold_keeps_kind(
                    start_row(line.subrange(0, colon)),
                    cols,
                    vals,
                    (n - 2) as nat,
                    min(cols.len() as int, vals.len() as int),
                );
                if free_rows(ls, n) is Ok {
                    lemma_fold_counts(
                        start_row(line.subrange(0, colon)),
                        cols,
                        vals,
                        (n - 2) as nat,
                        min(cols.len() as int, vals.len() as int),
                    );
                }
            }
            if free_rows(ls, n) is Ok {
                let v = free_rows(ls, n)->Ok_0;
                let d = nonempty(ls.subrange(1, n));
                assert forall|i: int| 0 <= i < v.len() implies (#[trigger] v[i]).kind == row_label(
                    d[i],
                ) by {
                    if i < v.len() - 1 {
                        assert(v[i] == free_rows(ls, n - 1)->Ok_0[i]);
                    }
                }
                assert forall|i: int| 0 <= i < v.len() implies (#[trigger] v[i]).total
                    == column_value(ls[0], d[i], FreeColumn::Total) && v[i].used == column_value(
                    ls[0],
                    d[i],
                    FreeColumn::Used,
                ) && v[i].free == column_value(ls[0], d[i], FreeColumn::Free) by {
                    if i < v.len() - 1 {
                        assert(v[i] == free_rows(ls, n - 1)->Ok_0[i]);
                    }
                }
            }
        }
    }
}

/// Converting `free` output succeeds with one record for each non-empty data
/// row, in input order, each labelled with the text before that row's `:`.
pub proof fn lemma_one_record_per_row(s: Seq<char>)
    requires
        free_parse(s) is Ok,
    ensures
        ({
            let v = free_parse(s)->Ok_0;
            &&& v.len() == data_rows(s).len()
            &&& forall|i: int|
                0 <= i < v.len() ==> (#[trigger] v[i]).kind == row_label(data_rows(s)[i])
        }),
{
    let ls = lines(s);
    lemma_rows_match(ls, ls.len() as int);
    assert(ls.drop_first() =~= ls.subrange(1, ls.len() as int));
}

/// In every record of a successful conversion, `total`, `used` and `free` hold
/// the value under the last header label naming that column among the paired
/// ones of the record's data row, or 0 where no such label is paired.
pub proof fn lemma_required_counts(s: Seq<char>)
    requires
        free_parse(s) is Ok,
    ensures
        ({
            let v = free_parse(s)->Ok_0;
            let h = lines(s)[0];
            &&& v.len() == data_rows(s).len()
            &&& forall|i: int|
                0 <= i < v.len() ==> (#[trigger] v[i]).total == column_value(
                    h,
                    data_rows(s)[i],
                    FreeColumn::Total,
                ) && v[i].used == column_value(h, data_rows(s)[i], FreeColumn::Used) && v[i].free
                    == column_value(h, data_rows(s)[i], FreeColumn::Free)
        }),
{
    let ls = lines(s);
    lemma_rows_match(ls, ls.len() as int);
    assert(ls.drop_first() =~= ls.subrange(1, ls.len() as int));
}

/// A data row that converts: it has a `:`, and every value paired with a known
/// label is a number.
pub open spec fn well_formed_row(header: Seq<char>, line: Seq<char>) -> bool {
    let colon = next_index_of(line, 0, ':');
    let cols = tokens(header);
    let vals = tokens(line.subrange(colon + 1, line.len() as int));
    &&& colon < line.len()
    &&& forall|j: int|
        0 <= j < min(cols.len() as int, vals.len() as int) && column_of(cols[j])
            != FreeColumn::Unknown ==> (#[trigger] magnitude(vals[j], UnitTable::Mixed)) is Some
}

proof fn lemma_fold_ok(
    start: FreeRow,
    cols: Seq<Seq<char>>,
    vals: Seq<Seq<char>>,
    row: nat,
    k: int,
)
    requires
        k <= cols.len(),
        k <= vals.len(),
        forall|j: int|
            0 <= j < k && column_of(cols[j]) != FreeColumn::Unknown ==> (#[trigger] magnitude(
                vals[j],
                UnitTable::Mixed,
            )) is Some,
    ensures
        value_fold(start, cols, vals, row, k) is Ok,
    decreases k,
{
    if k > 0 {
        lemma_fold_ok(start, cols, vals, row, k - 1);
        if column_of(cols[k - 1]) != FreeColumn::Unknown {
            assert(magnitude(vals[k - 1], UnitTable::Mixed) is Some);
        }
    }
}

proof fn lemma_rows_ok(ls: Seq<Seq<char>>, n: int)
    requires
        1 <= n <= ls.len(),
        forall|i: int|
            1 <= i < ls.len() && (#[trigger] ls[i]).len() > 0 ==> well_formed_row(ls[0], ls[i]),
    ensures
        free_rows(ls, n) is Ok,
    decreases n,
{
    if n > 1 {
        lemma_rows_ok(ls, n - 1);
        let line = ls[n - 1];
        if line.len() > 0 {
            assert(well_formed_row(ls[0], line));
            let colon = next_index_of(line, 0, ':');
            let cols = tokens(ls[0]);
            let vals = tokens(line.subrange(colon + 1, line.len() as int));
            lemma_fold_ok(
                start_row(line.subrange(0, colon)),
                cols,
                vals,
                (n - 2) as nat,
                min(cols.len() as int, vals.len() as int),
            );
        }
    }
}

/// `free` output whose first line exists and whose every non-empty later line
/// is a well-formed data row always converts.
pub proof fn lemma_well_formed_parses(s: Seq<char>)
    requires
        lines(s).len() > 0,
        forall|i: int|
            1 <= i < lines(s).len() && (#[trigger] lines(s)[i]).len() > 0 ==> well_formed_row(
                lines(s)[0],
                lines(s)[i],
            ),
    ensures
        free_parse(s) is Ok,
{
    lemma_rows_ok(lines(s), lines(s).len() as int);
}

/// Input that is a header line alone gives no records and no error.
pub proof fn lemma_header_only(s: Seq<char>)
    requires
        lines(s).len() == 1,
    ensures
        free_parse(s) == Ok::<Seq<FreeRow>, Failure>(Seq::empty()),
{
}

/// Only input with no line at all is refused as empty.
pub proof fn lemma_empty_input(s: Seq<char>)
    ensures
        (free_parse(s) == Err::<Seq<FreeRow>, Failure>(Failure::EmptyInput)) <==> lines(s).len()
            == 0,
{
    let ls = lines(s);
    if ls.len() > 0 {
        lemma_rows_match(ls, ls.len() as int);
    }
}

/// Converting the same text twice gives the same records, or the same failure.
pub proof fn lemma_deterministic<'a, 'b>(
    a: &'a str,
    b: &'b str,
    r1: Result<Vec<FreeLine<'a>>, ParseError>,
    r2: Result<Vec<FreeLine<'b>>, ParseError>,
)
    requires
        a@ == b@,
        outcome(r1) == free_parse(a@),
        outcome(r2) == free_parse(b@),
    ensures
        outcome(r1) == outcome(r2),
{
}

} // verus!
