use vstd::prelude::*;
use crate::error::{Failure, NumberFormatError, ParseError};
use crate::number::{copy_range, magnitude, parse_magnitude, parse_number_with, UnitTable};
use vstd::string::StrSliceExecFns;
use crate::text::{
    chars_of, keep_nonempty, lines, nonempty, slice, span_is, spans_of, spans_within,
    split_lines, trim, trim_span, Span,
};

verus! {

/// The `df` subcommand: report file system space usage.
pub struct DfCommand {}

/// One row of `df` output. A field is `Some` exactly where its column is in the header.
#[derive(Debug, Clone, PartialEq, Eq)]
pub struct DfLine<'a> {
    pub filesystem: Option<&'a str>,
    pub fs_type: Option<&'a str>,
    pub inodes: Option<u64>,
    pub iused: Option<u64>,
    pub ifree: Option<u64>,
    pub iuse_percent: Option<u64>,
    pub kibi_blocks: Option<u64>,
    pub size: Option<u64>,
    pub used: Option<u64>,
    pub available: Option<u64>,
    pub use_percent: Option<u64>,
    pub file: Option<&'a str>,
    pub mounted_on: Option<&'a str>,
}

/// A `DfLine` over plain values.
pub ghost struct DfRow {
    pub filesystem: Option<Seq<char>>,
    pub fs_type: Option<Seq<char>>,
    pub inodes: Option<u64>,
    pub iused: Option<u64>,
    pub ifree: Option<u64>,
    pub iuse_percent: Option<u64>,
    pub kibi_blocks: Option<u64>,
    pub size: Option<u64>,
    pub used: Option<u64>,
    pub available: Option<u64>,
    pub use_percent: Option<u64>,
    pub file: Option<Seq<char>>,
    pub mounted_on: Option<Seq<char>>,
}

pub open spec fn text_view(t: Option<&str>) -> Option<Seq<char>> {
    match t {
        Some(s) => Some(s@),
        None => None,
    }
}

impl<'a> View for DfLine<'a> {
    type V = DfRow;

    open spec fn view(&self) -> DfRow {
        DfRow {
            filesystem: text_view(self.filesystem),
            fs_type: text_view(self.fs_type),
            inodes: self.inodes,
            iused: self.iused,
            ifree: self.ifree,
            iuse_percent: self.iuse_percent,
            kibi_blocks: self.kibi_blocks,
            size: self.size,
            used: self.used,
            available: self.available,
            use_percent: self.use_percent,
            file: text_view(self.file),
            mounted_on: text_view(self.mounted_on),
        }
    }
}

pub open spec fn empty_row() -> DfRow {
    DfRow {
        filesystem: None,
        fs_type: None,
        inodes: None,
        iused: None,
        ifree: None,
        iuse_percent: None,
        kibi_blocks: None,
        size: None,
        used: None,
        available: None,
        use_percent: None,
        file: None,
        mounted_on: None,
    }
}

/// The columns that `df` can print.
#[derive(Clone, Copy, PartialEq, Eq, Structural)]
pub enum DfColumn {
    Filesystem,
    Type,
    Inodes,
    IUsed,
    IFree,
    IUsePercent,
    KibiBlocks,
    Size,
    Used,
    Available,
    UsePercent,
    File,
    MountedOn,
    Unknown,
}

/// The column a header text names; header texts are matched exactly.
pub open spec fn column_of(key: Seq<char>) -> DfColumn {
    if key == "Filesystem"@ {
        DfColumn::Filesystem
    } else if key == "Type"@ {
        DfColumn::Type
    } else if key == "Inodes"@ {
        DfColumn::Inodes
    } else if key == "IUsed"@ {
        DfColumn::IUsed
    } else if key == "IFree"@ {
        DfColumn::IFree
    } else if key == "IUse%"@ {
        DfColumn::IUsePercent
    } else if key == "1K-blocks"@ || key == "1024-blocks"@ {
        DfColumn::KibiBlocks
    } else if key == "Size"@ {
        DfColumn::Size
    } else if key == "Used"@ {
        DfColumn::Used
    } else if key == "Avail"@ || key == "Available"@ {
        DfColumn::Available
    } else if key == "Use%"@ {
        DfColumn::UsePercent
    } else if key == "File"@ {
        DfColumn::File
    } else if key == "Mounted on"@ {
        DfColumn::MountedOn
    } else {
        DfColumn::Unknown
    }
}

pub open spec fn is_numeric(c: DfColumn) -> bool {
    match c {
        DfColumn::Filesystem | DfColumn::Type | DfColumn::File | DfColumn::MountedOn
        | DfColumn::Unknown => false,
        _ => true,
    }
}

/// `acc` with the text `val` stored under column `c`.
pub open spec fn set_text(acc: DfRow, c: DfColumn, val: Seq<char>) -> DfRow {
    match c {
        DfColumn::Filesystem => DfRow { filesystem: Some(val), ..acc },
        DfColumn::Type => DfRow { fs_type: Some(val), ..acc },
        DfColumn::File => DfRow { file: Some(val), ..acc },
        DfColumn::MountedOn => DfRow { mounted_on: Some(val), ..acc },
        _ => acc,
    }
}

/// `acc` with the number `v` stored under column `c`.
pub open spec fn set_number(acc: DfRow, c: DfColumn, v: u64) -> DfRow {
    match c {
        DfColumn::Inodes => DfRow { inodes: Some(v), ..acc },
        DfColumn::IUsed => DfRow { iused: Some(v), ..acc },
        DfColumn::IFree => DfRow { ifree: Some(v), ..acc },
        DfColumn::IUsePercent => DfRow { iuse_percent: Some(v), ..acc },
        DfColumn::KibiBlocks => DfRow { kibi_blocks: Some(v), ..acc },
        DfColumn::Size => DfRow { size: Some(v), ..acc },
        DfColumn::Used => DfRow { used: Some(v), ..acc },
        DfColumn::Available => DfRow { available: Some(v), ..acc },
        DfColumn::UsePercent => DfRow { use_percent: Some(v), ..acc },
        _ => acc,
    }
}

/// The name of the record field that column `c` fills.
pub open spec fn field_name(c: DfColumn) -> Seq<char> {
    match c {
        DfColumn::Filesystem => "filesystem"@,
        DfColumn::Type => "type"@,
        DfColumn::Inodes => "inodes"@,
        DfColumn::IUsed => "iused"@,
        DfColumn::IFree => "ifree"@,
        DfColumn::IUsePercent => "iuse_percent"@,
        DfColumn::KibiBlocks => "kibi_blocks"@,
        DfColumn::Size => "size"@,
        DfColumn::Used => "used"@,
        DfColumn::Available => "available"@,
        DfColumn::UsePercent => "use_percent"@,
        DfColumn::File => "file"@,
        DfColumn::MountedOn => "mounted_on"@,
        DfColumn::Unknown => Seq::empty(),
    }
}

fn field_name_of(c: DfColumn) -> (r: String)
    ensures
        r@ == field_name(c),
{
    match c {
        DfColumn::Filesystem => "filesystem".to_owned(),
        DfColumn::Type => "type".to_owned(),
        DfColumn::Inodes => "inodes".to_owned(),
        DfColumn::IUsed => "iused".to_owned(),
        DfColumn::IFree => "ifree".to_owned(),
        DfColumn::IUsePercent => "iuse_percent".to_owned(),
        DfColumn::KibiBlocks => "kibi_blocks".to_owned(),
        DfColumn::Size => "size".to_owned(),
        DfColumn::Used => "used".to_owned(),
        DfColumn::Available => "available".to_owned(),
        DfColumn::UsePercent => "use_percent".to_owned(),
        DfColumn::File => "file".to_owned(),
        DfColumn::MountedOn => "mounted_on".to_owned(),
        DfColumn::Unknown => String::new(),
    }
}

/// One cell: the header text `key` over the trimmed value `val` in data row `row`.
pub open spec fn apply_cell(acc: DfRow, key: Seq<char>, val: Seq<char>, row: nat) -> Result<
    DfRow,
    Failure,
> {
    let c = column_of(key);
    if is_numeric(c) {
        match magnitude(val, UnitTable::Binary) {
            Some(v) => Ok(set_number(acc, c, v)),
            None => Err(Failure::NumberFormat(field_name(c), row, val)),
        }
    } else {
        Ok(set_text(acc, c, val))
    }
}

/// The non-empty lines: the header first, then the data rows.
pub open spec fn df_lines(s: Seq<char>) -> Seq<Seq<char>> {
    nonempty(lines(s))
}

/// Offset `i` starts a column: it is 0, or every line has a space there.
pub open spec fn is_boundary(ls: Seq<Seq<char>>, i: int) -> bool {
    i == 0 || forall|j: int| 0 <= j < ls.len() ==> i < (#[trigger] ls[j]).len() && ls[j][i] == ' '
}

/// The column starts found in the header's range, then an end past every line.
pub open spec fn boundaries(ls: Seq<Seq<char>>) -> Seq<int> {
    Seq::new(ls[0].len(), |i: int| i).filter(|i: int| is_boundary(ls, i)).push(
        usize::MAX as int,
    )
}

/// The trimmed text of `line` in column window `j`.
pub open spec fn cell(line: Seq<char>, b: Seq<int>, j: int) -> Seq<char> {
    trim(slice(line, b[j], b[j + 1]))
}

/// The first `k` column windows of data row `row` applied to an empty record.
pub open spec fn row_fold(ls: Seq<Seq<char>>, b: Seq<int>, row: int, k: int) -> Result<
    DfRow,
    Failure,
>
    decreases k,
{
    if k <= 0 {
        Ok(empty_row())
    } else {
        match row_fold(ls, b, row, k - 1) {
            Ok(acc) => apply_cell(acc, cell(ls[0], b, k - 1), cell(ls[row], b, k - 1), row as nat),
            Err(e) => Err(e),
        }
    }
}

pub open spec fn df_row(ls: Seq<Seq<char>>, row: int) -> Result<DfRow, Failure> {
    row_fold(ls, boundaries(ls), row, boundaries(ls).len() - 1)
}

/// The records of data rows `1..n`; the first failing row ends it.
pub open spec fn df_rows(ls: Seq<Seq<char>>, n: int) -> Result<Seq<DfRow>, Failure>
    decreases n,
{
    if n <= 1 {
        Ok(Seq::empty())
    } else {
        match df_rows(ls, n - 1) {
            Ok(v) => match df_row(ls, n - 1) {
                Ok(r) => Ok(v.push(r)),
                Err(e) => Err(e),
            },
            Err(e) => Err(e),
        }
    }
}

/// What `df` output `s` converts to.
pub open spec fn df_parse(s: Seq<char>) -> Result<Seq<DfRow>, Failure> {
    let ls = df_lines(s);
    if ls.len() == 0 {
        Err(Failure::EmptyInput)
    } else {
        df_rows(ls, ls.len() as int)
    }
}

pub open spec fn rows_view<'a>(v: Seq<DfLine<'a>>) -> Seq<DfRow> {
    v.map_values(|l: DfLine<'a>| l@)
}

pub fn classify(s: &Vec<char>, sp: Span) -> (r: DfColumn)
    requires
        sp.within(s.len() as int),
    ensures
        r == column_of(sp.of(s@)),
{
    if span_is(s, sp, &chars_of("Filesystem")) {
        DfColumn::Filesystem
    } else if span_is(s, sp, &chars_of("Type")) {
        DfColumn::Type
    } else if span_is(s, sp, &chars_of("Inodes")) {
        DfColumn::Inodes
    } else if span_is(s, sp, &chars_of("IUsed")) {
        DfColumn::IUsed
    } else if span_is(s, sp, &chars_of("IFree")) {
        DfColumn::IFree
    } else if span_is(s, sp, &chars_of("IUse%")) {
        DfColumn::IUsePercent
    } else if span_is(s, sp, &chars_of("1K-blocks")) || span_is(s, sp, &chars_of("1024-blocks")) {
        DfColumn::KibiBlocks
    } else if span_is(s, sp, &chars_of("Size")) {
        DfColumn::Size
    } else if span_is(s, sp, &chars_of("Used")) {
        DfColumn::Used
    } else if span_is(s, sp, &chars_of("Avail")) || span_is(s, sp, &chars_of("Available")) {
        DfColumn::Available
    } else if span_is(s, sp, &chars_of("Use%")) {
        DfColumn::UsePercent
    } else if span_is(s, sp, &chars_of("File")) {
        DfColumn::File
    } else if span_is(s, sp, &chars_of("Mounted on")) {
        DfColumn::MountedOn
    } else {
        DfColumn::Unknown
    }
}

/// Whether every line in `ls` has a space at offset `i`.
fn blank_in_all(s: &Vec<char>, ls: &Vec<Span>, i: usize) -> (r: bool)
    requires
        spans_within(ls@, s.len() as int),
    ensures
        r == (forall|j: int|
            0 <= j < ls@.len() ==> i < (#[trigger] spans_of(ls@, s@)[j]).len()
                && spans_of(ls@, s@)[j][i as int] == ' '),
{
    let ghost lv = spans_of(ls@, s@);
    let mut j: usize = 0;
    while j < ls.len()
        invariant
            j <= ls.len(),
            spans_within(ls@, s.len() as int),
            lv == spans_of(ls@, s@),
            forall|k: int| 0 <= k < j ==> i < (#[trigger] lv[k]).len() && lv[k][i as int] == ' ',
        decreases ls.len() - j,
    {
        let sp = ls[j];
        assert(sp.within(s.len() as int));
        assert(lv[j as int] == sp.of(s@));
        if !(i < sp.end - sp.start && s[sp.start + i] == ' ') {
            return false;
        }
        j = j + 1;
    }
    true
}

/// The column boundaries of the lines `ls`, the header first.
fn find_boundaries(s: &Vec<char>, ls: &Vec<Span>) -> (r: Vec<usize>)
    requires
        ls.len() > 0,
        spans_within(ls@, s.len() as int),
    ensures
        r@.len() == boundaries(spans_of(ls@, s@)).len(),
        forall|k: int| 0 <= k < r@.len() ==> r@[k] as int == boundaries(spans_of(ls@, s@))[k],
{
    let ghost lv = spans_of(ls@, s@);
    let ghost p = |i: int| is_boundary(lv, i);
    let h = ls[0];
    assert(h.within(s.len() as int));
    let hlen = h.end - h.start;
    assert(lv[0].len() == hlen);
    let mut out: Vec<usize> = Vec::new();
    let mut i: usize = 0;
    assert(Seq::new(0, |k: int| k).filter(p) =~= Seq::<int>::empty());
    while i < hlen
        invariant
            i <= hlen == lv[0].len(),
            lv == spans_of(ls@, s@),
            spans_within(ls@, s.len() as int),
            ls.len() > 0,
            p == (|i: int| is_boundary(lv, i)),
            out@.len() == Seq::new(i as nat, |k: int| k).filter(p).len(),
            forall|k: int|
                0 <= k < out@.len() ==> out@[k] as int == Seq::new(i as nat, |k: int| k).filter(
                    p,
                )[k],
        decreases hlen - i,
    {
        let ghost prev = Seq::new(i as nat, |k: int| k);
        assert(Seq::new((i + 1) as nat, |k: int| k) =~= prev.push(i as int));
        proof {
            prev.lemma_filter_push(i as int, p);
        }
        if i == 0 || blank_in_all(s, ls, i) {
            out.push(i);
        }
        i = i + 1;
    }
    out.push(usize::MAX);
    out
}

impl<'a> DfLine<'a> {
    /// A record with no column filled in.
    pub fn empty() -> (r: DfLine<'a>)
        ensures
            r@ == empty_row(),
    {
        DfLine {
            filesystem: None,
            fs_type: None,
            inodes: None,
            iused: None,
            ifree: None,
            iuse_percent: None,
            kibi_blocks: None,
            size: None,
            used: None,
            available: None,
            use_percent: None,
            file: None,
            mounted_on: None,
        }
    }

    fn set_text(&mut self, c: DfColumn, val: &'a str)
        ensures
            final(self)@ == set_text(old(self)@, c, val@),
    {
        match c {
            DfColumn::Filesystem => self.filesystem = Some(val),
            DfColumn::Type => self.fs_type = Some(val),
            DfColumn::File => self.file = Some(val),
            DfColumn::MountedOn => self.mounted_on = Some(val),
            _ => {},
        }
    }

    fn set_number(&mut self, c: DfColumn, v: u64)
        ensures
            final(self)@ == set_number(old(self)@, c, v),
    {
        match c {
            DfColumn::Inodes => self.inodes = Some(v),
            DfColumn::IUsed => self.iused = Some(v),
            DfColumn::IFree => self.ifree = Some(v),
            DfColumn::IUsePercent => self.iuse_percent = Some(v),
            DfColumn::KibiBlocks => self.kibi_blocks = Some(v),
            DfColumn::Size => self.size = Some(v),
            DfColumn::Used => self.used = Some(v),
            DfColumn::Available => self.available = Some(v),
            DfColumn::UsePercent => self.use_percent = Some(v),
            _ => {},
        }
    }
}

fn numeric(c: DfColumn) -> (r: bool)
    ensures
        r == is_numeric(c),
{
    match c {
        DfColumn::Filesystem | DfColumn::Type | DfColumn::File | DfColumn::MountedOn
        | DfColumn::Unknown => false,
        _ => true,
    }
}

/// The trimmed part of line `l` between column offsets `lo` and `hi`.
fn cell_span(s: &Vec<char>, l: Span, lo: usize, hi: usize) -> (r: Span)
    requires
        l.within(s.len() as int),
    ensures
        r.within(s.len() as int),
        r.of(s@) == trim(slice(l.of(s@), lo as int, hi as int)),
{
    let len = l.end - l.start;
    let a = if lo < len {
        lo
    } else {
        len
    };
    let c = if hi < len {
        hi
    } else {
        len
    };
    let c = if a <= c {
        c
    } else {
        a
    };
    assert(s@.subrange(l.start + a, l.start + c) =~= slice(l.of(s@), lo as int, hi as int));
    trim_span(s, l.start + a, l.start + c)
}

proof fn lemma_fold_err(ls: Seq<Seq<char>>, b: Seq<int>, row: int, k: int, m: int)
    requires
        k <= m,
        row_fold(ls, b, row, k) is Err,
    ensures
        row_fold(ls, b, row, m) == row_fold(ls, b, row, k),
    decreases m - k,
{
    if k < m {
        lemma_fold_err(ls, b, row, k, m - 1);
    }
}

/// The record of data row `row`.
fn parse_row<'a>(input: &'a str, s: &Vec<char>, ls: &Vec<Span>, b: &Vec<usize>, row: usize) -> (r:
    Result<DfLine<'a>, ParseError>)
    requires
        s@ == input@,
        spans_within(ls@, s.len() as int),
        1 <= row < ls.len(),
        b@.len() == boundaries(spans_of(ls@, s@)).len(),
        forall|k: int|
            0 <= k < b@.len() ==> b@[k] as int == boundaries(spans_of(ls@, s@))[k],
    ensures
        match r {
            Ok(l) => df_row(spans_of(ls@, s@), row as int) == Ok::<DfRow, Failure>(l@),
            Err(e) => df_row(spans_of(ls@, s@), row as int) == Err::<DfRow, Failure>(e@),
        },
{
    let ghost lv = spans_of(ls@, s@);
    let ghost bb = boundaries(lv);
    let h = ls[0];
    let l = ls[row];
    assert(h.of(s@) == lv[0]);
    assert(l.of(s@) == lv[row as int]);
    let mut rec = DfLine::empty();
    let mut k: usize = 0;
    let n = b.len() - 1;
    while k < n
        invariant
            s@ == input@,
            lv == spans_of(ls@, s@),
            bb == boundaries(lv),
            b@.len() == bb.len(),
            forall|j: int| 0 <= j < b@.len() ==> b@[j] as int == bb[j],
            n == b.len() - 1,
            k <= n,
            h.within(s.len() as int),
            l.within(s.len() as int),
            lv.len() == ls.len(),
            1 <= row < ls.len(),
            h.of(s@) == lv[0],
            l.of(s@) == lv[row as int],
            row_fold(lv, bb, row as int, k as int) == Ok::<DfRow, Failure>(rec@),
        decreases n - k,
    {
        let ksp = cell_span(s, h, b[k], b[k + 1]);
        let vsp = cell_span(s, l, b[k], b[k + 1]);
        let c = classify(s, ksp);
        if numeric(c) {
            let digits = copy_range(s, vsp.start, vsp.end);
            match parse_magnitude(&digits, UnitTable::Binary) {
                Some(v) => rec.set_number(c, v),
                None => {
                    let field = field_name_of(c);
                    let token = input.substring_char(vsp.start, vsp.end).to_owned();
                    proof {
                        lemma_fold_err(lv, bb, row as int, k + 1, n as int);
                    }
                    return Err(ParseError::NumberFormat { field, row, token });
                },
            }
        } else {
            let text = input.substring_char(vsp.start, vsp.end);
            rec.set_text(c, text);
        }
        k = k + 1;
    }
    Ok(rec)
}

proof fn lemma_rows_err(ls: Seq<Seq<char>>, k: int, m: int)
    requires
        k <= m,
        df_rows(ls, k) is Err,
    ensures
        df_rows(ls, m) == df_rows(ls, k),
    decreases m - k,
{
    if k < m {
        lemma_rows_err(ls, k, m - 1);
    }
}

impl<'a> DfLine<'a> {
    /// Convert `df` output: the first non-empty line is the header, each later
    /// non-empty line gives one record, in order.
    ///
    /// Columns start at offset 0 and at every offset where all non-empty lines
    /// hold a space; the last column runs to the end of each line. This is a
    /// heuristic: a column that happens to be blank in every line splits too.
    /// Each cell is trimmed and stored under the field that its trimmed header
    /// text names; numbers are read with the binary unit table.
    pub fn parse(input: &'a str) -> (r: Result<Vec<DfLine<'a>>, ParseError>)
        ensures
            outcome(r) == df_parse(input@),
    {
        let s = chars_of(input);
        let all = split_lines(&s);
        let ls = keep_nonempty(&all, Ghost(s@));
        let ghost lv = spans_of(ls@, s@);
        assert(lv == df_lines(input@));
        if ls.len() == 0 {
            return Err(ParseError::EmptyInput);
        }
        let b = find_boundaries(&s, &ls);
        let mut out: Vec<DfLine<'a>> = Vec::new();
        let mut row: usize = 1;
        assert(rows_view(out@) =~= Seq::<DfRow>::empty());
        while row < ls.len()
            invariant
                s@ == input@,
                lv == spans_of(ls@, s@),
                lv == df_lines(input@),
                lv.len() == ls.len(),
                spans_within(ls@, s.len() as int),
                1 <= row <= ls.len(),
                b@.len() == boundaries(lv).len(),
                forall|k: int| 0 <= k < b@.len() ==> b@[k] as int == boundaries(lv)[k],
                df_rows(lv, row as int) == Ok::<Seq<DfRow>, Failure>(rows_view(out@)),
            decreases ls.len() - row,
        {
            match parse_row(input, &s, &ls, &b, row) {
                Ok(rec) => {
                    let ghost before = out@;
                    out.push(rec);
                    assert(rows_view(out@) =~= rows_view(before).push(rec@));
                },
                Err(e) => {
                    proof {
                        lemma_rows_err(lv, row + 1, ls.len() as int);
                    }
                    return Err(e);
                },
            }
            row = row + 1;
        }
        Ok(out)
    }
}

/// Read a magnitude such as `12K` or `1.5G` with the binary unit table of `df -h` (`K` is 1024), a trailing `%` dropped.
pub fn parse_number(num: &str) -> (r: Result<u64, NumberFormatError>)
    ensures
        match r {
            Ok(v) => magnitude(num@, UnitTable::Binary) == Some(v),
            Err(e) => magnitude(num@, UnitTable::Binary) is None && e.token@ == num@,
        },
{
    parse_number_with(num, UnitTable::Binary)
}

/// What a call of `parse` returned, over plain values.
pub open spec fn outcome<'a>(r: Result<Vec<DfLine<'a>>, ParseError>) -> Result<Seq<DfRow>, Failure> {
    match r {
        Ok(v) => Ok(rows_view(v@)),
        Err(e) => Err(e@),
    }
}

proof fn lemma_fold_failure(ls: Seq<Seq<char>>, b: Seq<int>, row: int, k: int)
    ensures
        row_fold(ls, b, row, k) is Err ==> row_fold(ls, b, row, k)->Err_0 is NumberFormat,
    decreases k,
{
    if k > 0 {
        lemma_fold_failure(ls, b, row, k - 1);
    }
}

proof fn lemma_rows_failure(ls: Seq<Seq<char>>, n: int)
    ensures
        df_rows(ls, n) is Err ==> df_rows(ls, n)->Err_0 is NumberFormat,
    decreases n,
{
    if n > 1 {
        lemma_rows_failure(ls, n - 1);
        lemma_fold_failure(ls, boundaries(ls), n - 1, boundaries(ls).len() - 1);
    }
}

/// Input whose only non-empty line is the header gives no records and no error.
pub proof fn lemma_header_only(s: Seq<char>)
    requires
        df_lines(s).len() == 1,
    ensures
        df_parse(s) == Ok::<Seq<DfRow>, Failure>(Seq::empty()),
{
}

/// Input is refused as empty exactly when it has no non-empty line.
pub proof fn lemma_empty_input(s: Seq<char>)
    ensures
        (df_parse(s) == Err::<Seq<DfRow>, Failure>(Failure::EmptyInput)) <==> df_lines(s).len()
            == 0,
{
    let ls = df_lines(s);
    lemma_rows_failure(ls, ls.len() as int);
}

/// Converting the same text twice gives the same records, or the same failure.
pub proof fn lemma_deterministic<'a, 'b>(
    a: &'a str,
    b: &'b str,
    r1: Result<Vec<DfLine<'a>>, ParseError>,
    r2: Result<Vec<DfLine<'b>>, ParseError>,
)
    requires
        a@ == b@,
        outcome(r1) == df_parse(a@),
        outcome(r2) == df_parse(b@),
    ensures
        outcome(r1) == outcome(r2),
{
}

} // verus!
