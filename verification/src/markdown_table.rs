//! A strict reader of the Markdown tables a provider prints: a header row, a
//! `---` separator row and rows of exactly as many cells. Not a Markdown engine.
use vstd::prelude::*;
use crate::text::{
    cat2, cat3, cat5, chars_of, chars_eq, decimal, decimal_spec, split, split_chars, str_eq,
    string_of, trim, trim_chars, views, parts_view, lemma_trim_idempotent,
};
use crate::order::seq_has;
use crate::error::{compatibility, ProviderError};

verus! {

#[derive(Debug, Clone, PartialEq, Eq)]
pub struct Table {
    pub headers: Vec<String>,
    pub rows: Vec<Vec<String>>,
}

pub open spec fn rows_view(rows: Seq<Vec<String>>) -> Seq<Seq<Seq<char>>> {
    rows.map_values(|r: Vec<String>| views(r@))
}

/// The cells scanned so far: `\|` and `\\` are escapes, other backslashes are
/// kept, every `|` closes a cell (trimmed).
pub open spec fn scan(
    s: Seq<char>,
    cur: Seq<char>,
    cells: Seq<Seq<char>>,
    last: bool,
) -> (Seq<Seq<char>>, Seq<char>, bool)
    decreases s.len(),
{
    if s.len() == 0 {
        (cells, cur, last)
    } else if s[0] == '\\' {
        if s.len() > 1 && (s[1] == '|' || s[1] == '\\') {
            scan(s.skip(2), cur.push(s[1]), cells, false)
        } else {
            scan(s.skip(1), cur.push('\\'), cells, false)
        }
    } else if s[0] == '|' {
        scan(s.skip(1), Seq::<char>::empty(), cells.push(trim(cur)), true)
    } else {
        scan(s.skip(1), cur.push(s[0]), cells, false)
    }
}

/// The cells of one table line: a leading `|` opens no cell, an unescaped
/// trailing `|` closes the last one.
pub open spec fn cells_of(line: Seq<char>) -> Seq<Seq<char>> {
    let t = trim(line);
    let r = scan(t, Seq::<char>::empty(), Seq::<Seq<char>>::empty(), false);
    let all = r.0.push(trim(r.1));
    let a = if t.len() > 0 && t[0] == '|' { all.drop_first() } else { all };
    if r.2 && a.len() > 0 { a.drop_last() } else { a }
}

fn push_trimmed(cells: &mut Vec<Vec<char>>, cur: &Vec<char>)
    ensures
        parts_view(final(cells)@) == parts_view(old(cells)@).push(trim(cur@)),
{
    let t = trim_chars(cur.as_slice());
    let ghost before = parts_view(cells@);
    cells.push(t);
    proof {
        assert(parts_view(cells@) =~= before.push(trim(cur@)));
    }
}

/// The cells of one table line.
pub fn cells(line: &str) -> (r: Vec<String>)
    ensures
        views(r@) == cells_of(line@),
{
    let raw = chars_of(line);
    cells_chars(raw.as_slice())
}

fn cells_chars(raw: &[char]) -> (r: Vec<String>)
    ensures
        views(r@) == cells_of(raw@),
{
    let t = trim_chars(raw);
    let n = t.len();
    let mut cells: Vec<Vec<char>> = Vec::new();
    let mut cur: Vec<char> = Vec::new();
    let mut last = false;
    let mut i: usize = 0;
    proof {
        assert(t@.skip(0) =~= t@);
        assert(parts_view(cells@) =~= Seq::<Seq<char>>::empty());
    }
    while i < n
        invariant
            n == t@.len(),
            i <= n,
            scan(t@, Seq::<char>::empty(), Seq::<Seq<char>>::empty(), false) == scan(
                t@.skip(i as int),
                cur@,
                parts_view(cells@),
                last,
            ),
        decreases n - i,
    {
        let c = t[i];
        let ghost s = t@.skip(i as int);
        proof {
            assert(s[0] == c);
        }
        if c == '\\' {
            if i + 1 < n && (t[i + 1] == '|' || t[i + 1] == '\\') {
                proof {
                    assert(s[1] == t@[i + 1]);
                    assert(s.skip(2) =~= t@.skip(i + 2));
                }
                cur.push(t[i + 1]);
                i = i + 2;
            } else {
                proof {
                    assert(s.skip(1) =~= t@.skip(i + 1));
                }
                cur.push('\\');
                i = i + 1;
            }
            last = false;
        } else if c == '|' {
            proof {
                assert(s.skip(1) =~= t@.skip(i + 1));
            }
            push_trimmed(&mut cells, &cur);
            cur = Vec::new();
            proof {
                assert(cur@ =~= Seq::<char>::empty());
            }
            last = true;
            i = i + 1;
        } else {
            proof {
                assert(s.skip(1) =~= t@.skip(i + 1));
            }
            cur.push(c);
            last = false;
            i = i + 1;
        }
    }
    proof {
        assert(t@.skip(n as int) =~= Seq::<char>::empty());
    }
    push_trimmed(&mut cells, &cur);
    proof {
        assert(parts_view(cells@).len() == cells@.len());
        assert(cells@.len() > 0);
    }
    if n > 0 && t[0] == '|' {
        let ghost before = parts_view(cells@);
        cells.remove(0);
        proof {
            assert(parts_view(cells@) =~= before.drop_first());
        }
    }
    if last && cells.len() > 0 {
        let ghost before = parts_view(cells@);
        cells.pop();
        proof {
            assert(parts_view(cells@) =~= before.drop_last());
        }
    }
    let mut out: Vec<String> = Vec::new();
    let mut k: usize = 0;
    while k < cells.len()
        invariant
            k <= cells@.len(),
            views(out@) == parts_view(cells@).take(k as int),
        decreases cells@.len() - k,
    {
        let ghost before = views(out@);
        out.push(string_of(cells[k].as_slice()));
        proof {
            assert(views(out@) =~= before.push(cells@[k as int]@));
            assert(parts_view(cells@).take(k + 1) =~= parts_view(cells@).take(k as int).push(cells@[k as int]@));
            assert(views(out@) =~= parts_view(cells@).take(k + 1));
        }
        k = k + 1;
    }
    proof {
        assert(parts_view(cells@).take(cells@.len() as int) =~= parts_view(cells@));
    }
    out
}

/// A line without its trailing carriage return, as `str::lines` gives it.
pub open spec fn strip_cr(l: Seq<char>) -> Seq<char> {
    if l.len() > 0 && l.last() == '\r' { l.drop_last() } else { l }
}

/// The lines of a text that has no trailing line break, as `str::lines`
/// gives them.
pub open spec fn lines_of(text: Seq<char>) -> Seq<Seq<char>> {
    if text.len() == 0 {
        Seq::<Seq<char>>::empty()
    } else {
        split(text, '\n').map_values(|l: Seq<char>| strip_cr(l))
    }
}

/// A separator cell: optional colons around at least three dashes.
pub open spec fn separator_cell(cell: Seq<char>) -> bool {
    let a = if cell.len() > 0 && cell[0] == ':' { cell.drop_first() } else { cell };
    let d = if a.len() > 0 && a.last() == ':' { a.drop_last() } else { a };
    d.len() >= 3 && all_dashes(d)
}

pub open spec fn all_dashes(d: Seq<char>) -> bool {
    forall|i: int| 0 <= i < d.len() ==> d[i] == '-'
}

pub open spec fn has_duplicate(s: Seq<Seq<char>>) -> bool {
    exists|i: int, j: int| 0 <= i < j < s.len() && s[i] == s[j]
}

/// Why a provider's table was refused.
#[derive(Debug, Clone, Copy, PartialEq, Eq)]
pub enum TableError {
    /// Fewer than two lines: no header or no separator row.
    Missing,
    /// No header, or an empty one.
    EmptyHeader,
    /// Two columns with one header.
    DuplicateHeader,
    /// The separator row does not match the headers.
    Separator,
    /// Row `line` (counting from 1) has `cells` cells, not `expected`.
    Row { line: usize, cells: usize, expected: usize },
}

/// The table a provider's Markdown text holds, or the first defect found.
pub open spec fn table_of(markdown: Seq<char>) -> Result<(Seq<Seq<char>>, Seq<Seq<Seq<char>>>), TableError> {
    let lines = lines_of(trim(markdown));
    if lines.len() < 2 {
        Err(TableError::Missing)
    } else {
        let headers = cells_of(lines[0]);
        if headers.len() == 0 || exists|i: int| 0 <= i < headers.len() && #[trigger] headers[i].len() == 0 {
            Err(TableError::EmptyHeader)
        } else if has_duplicate(headers) {
            Err(TableError::DuplicateHeader)
        } else if cells_of(lines[1]).len() != headers.len() || exists|i: int|
            0 <= i < headers.len() && !separator_cell(#[trigger] cells_of(lines[1])[i]) {
            Err(TableError::Separator)
        } else {
            match rows_of(lines, headers.len(), 2) {
                Ok(rows) => Ok((headers, rows)),
                Err(e) => Err(e),
            }
        }
    }
}

/// The rows from line `from` on, or the first line that is empty or has the
/// wrong number of cells.
pub open spec fn rows_of(lines: Seq<Seq<char>>, width: nat, from: int) -> Result<Seq<Seq<Seq<char>>>, TableError>
    decreases lines.len() - from,
{
    if from >= lines.len() {
        Ok(Seq::<Seq<Seq<char>>>::empty())
    } else {
        let row = cells_of(lines[from]);
        if trim(lines[from]).len() == 0 || row.len() != width {
            Err(TableError::Row { line: (from + 1) as usize, cells: row.len() as usize, expected: width as usize })
        } else {
            match rows_of(lines, width, from + 1) {
                Ok(rest) => Ok(seq![row] + rest),
                Err(e) => Err(e),
            }
        }
    }
}

pub open spec fn table_error_text(e: TableError) -> Seq<char> {
    match e {
        TableError::Missing => "table requires a header row and separator row (including for zero rows)"@,
        TableError::EmptyHeader => "table headers must be nonempty"@,
        TableError::DuplicateHeader => "duplicate table column headers"@,
        TableError::Separator => "invalid Markdown separator row; expected one --- cell per header"@,
        TableError::Row { line, cells, expected } => "table row "@ + decimal_spec(line as nat) + " has "@
            + decimal_spec(cells as nat) + " cells; expected "@ + decimal_spec(expected as nat),
    }
}

impl TableError {
    pub fn detail(&self) -> (r: String)
        ensures
            r@ == table_error_text(*self),
    {
        match self {
            TableError::Missing => String::from_str("table requires a header row and separator row (including for zero rows)"),
            TableError::EmptyHeader => String::from_str("table headers must be nonempty"),
            TableError::DuplicateHeader => String::from_str("duplicate table column headers"),
            TableError::Separator => String::from_str("invalid Markdown separator row; expected one --- cell per header"),
            TableError::Row { line, cells, expected } => {
                let l = decimal(*line as u128);
                let c = decimal(*cells as u128);
                let x = decimal(*expected as u128);
                let head = cat5("table row ", l.as_str(), " has ", c.as_str(), " cells; expected ");
                cat2(head.as_str(), x.as_str())
            },
        }
    }
}

fn strip_cr_chars(l: &Vec<char>) -> (r: Vec<char>)
    ensures
        r@ == strip_cr(l@),
{
    let mut r = l.clone();
    if r.len() > 0 && r[r.len() - 1] == '\r' {
        r.pop();
        proof {
            assert(r@ =~= l@.drop_last());
        }
    }
    r
}

fn lines_chars(text: &[char]) -> (r: Vec<Vec<char>>)
    ensures
        parts_view(r@) == lines_of(text@),
{
    let mut out: Vec<Vec<char>> = Vec::new();
    if text.len() == 0 {
        proof {
            assert(parts_view(out@) =~= Seq::<Seq<char>>::empty());
        }
        return out;
    }
    let pieces = split_chars(text, '\n');
    let mut i: usize = 0;
    while i < pieces.len()
        invariant
            i <= pieces@.len(),
            parts_view(pieces@) == split(text@, '\n'),
            parts_view(out@) == split(text@, '\n').take(i as int).map_values(|l: Seq<char>| strip_cr(l)),
        decreases pieces@.len() - i,
    {
        let ghost before = parts_view(out@);
        let line = strip_cr_chars(&pieces[i]);
        out.push(line);
        proof {
            assert(split(text@, '\n')[i as int] == pieces@[i as int]@);
            assert(parts_view(out@) =~= before.push(strip_cr(pieces@[i as int]@)));
            assert(split(text@, '\n').take(i + 1) =~= split(text@, '\n').take(i as int).push(pieces@[i as int]@));
            assert(parts_view(out@) =~= split(text@, '\n').take(i + 1).map_values(|l: Seq<char>| strip_cr(l)));
        }
        i = i + 1;
    }
    proof {
        assert(split(text@, '\n').take(pieces@.len() as int) =~= split(text@, '\n'));
    }
    out
}

fn separator_cell_exec(cell: &str) -> (r: bool)
    ensures
        r == separator_cell(cell@),
{
    let c = chars_of(cell);
    let mut start: usize = 0;
    let mut end = c.len();
    if end > 0 && c[0] == ':' {
        start = 1;
    }
    let ghost a = if cell@.len() > 0 && cell@[0] == ':' { cell@.drop_first() } else { cell@ };
    proof {
        assert(a =~= cell@.subrange(start as int, end as int));
    }
    if end > start && c[end - 1] == ':' {
        end = end - 1;
    }
    let ghost d = if a.len() > 0 && a.last() == ':' { a.drop_last() } else { a };
    proof {
        assert(d =~= cell@.subrange(start as int, end as int));
    }
    proof {
        let a2 = if cell@.len() > 0 && cell@[0] == ':' { cell@.drop_first() } else { cell@ };
        let d2 = if a2.len() > 0 && a2.last() == ':' { a2.drop_last() } else { a2 };
        assert(a2 == a);
        assert(d2 == d);
        assert(separator_cell(cell@) == (d2.len() >= 3 && all_dashes(d2)));
    }
    if end - start < 3 {
        proof {
            assert(d.len() < 3);
            assert(!separator_cell(cell@));
        }
        return false;
    }
    let mut i = start;
    while i < end
        invariant
            start <= i <= end <= c@.len(),
            c@ == cell@,
            d =~= cell@.subrange(start as int, end as int),
            separator_cell(cell@) == (d.len() >= 3 && all_dashes(d)),
            forall|k: int| start <= k < i ==> c@[k] == '-',
        decreases end - i,
    {
        if c[i] != '-' {
            proof {
                assert(d[i - start] != '-');
                assert(!separator_cell(cell@));
            }
            return false;
        }
        i = i + 1;
    }
    proof {
        assert forall|k: int| 0 <= k < d.len() implies d[k] == '-' by {
            assert(d[k] == c@[start + k]);
        }
    }
    true
}

/// The table in a provider's Markdown output.
pub fn parse(markdown: &str) -> (r: Result<Table, ProviderError>)
    ensures
        match r {
            Ok(t) => table_of(markdown@) == Ok::<(Seq<Seq<char>>, Seq<Seq<Seq<char>>>), TableError>((views(t.headers@), rows_view(t.rows@))),
            Err(e) => {
                &&& table_of(markdown@) matches Err(te)
                &&& e matches ProviderError::Compatibility(d)
                &&& d@ == table_error_text(te)
            },
        },
{
    match parse_table(markdown) {
        Ok(t) => Ok(t),
        Err(te) => {
            let d = te.detail();
            Err(compatibility(d.as_str()))
        },
    }
}

/// The table in a provider's Markdown output, or the first defect found.
pub fn parse_table(markdown: &str) -> (r: Result<Table, TableError>)
    ensures
        match r {
            Ok(t) => table_of(markdown@) == Ok::<(Seq<Seq<char>>, Seq<Seq<Seq<char>>>), TableError>((views(t.headers@), rows_view(t.rows@))),
            Err(e) => table_of(markdown@) == Err::<(Seq<Seq<char>>, Seq<Seq<Seq<char>>>), TableError>(e),
        },
{
    let raw = chars_of(markdown);
    let text = trim_chars(raw.as_slice());
    let lines = lines_chars(text.as_slice());
    let ghost ls = parts_view(lines@);
    if lines.len() < 2 {
        return Err(TableError::Missing);
    }
    proof {
        assert(ls[0] == lines@[0]@);
        assert(ls[1] == lines@[1]@);
    }
    let headers = cells_chars(lines[0].as_slice());
    let ghost hs = views(headers@);
    if headers.len() == 0 {
        return Err(TableError::EmptyHeader);
    }
    let mut i: usize = 0;
    while i < headers.len()
        invariant
            i <= headers@.len(),
            hs == views(headers@),
            ls == lines_of(trim(markdown@)),
            ls.len() >= 2,
            hs == cells_of(ls[0]),
            forall|k: int| 0 <= k < i ==> hs[k].len() != 0,
        decreases headers@.len() - i,
    {
        if headers[i].as_str().is_empty() {
            proof {
                assert(hs[i as int].len() == 0);
            }
            return Err(TableError::EmptyHeader);
        }
        i = i + 1;
    }
    let mut i: usize = 0;
    while i < headers.len()
        invariant
            i <= headers@.len(),
            hs == views(headers@),
            ls == lines_of(trim(markdown@)),
            ls.len() >= 2,
            hs == cells_of(ls[0]),
            hs.len() > 0,
            forall|k: int| 0 <= k < hs.len() ==> hs[k].len() != 0,
            forall|a: int, b: int| 0 <= a < b < hs.len() && a < i ==> hs[a] != hs[b],
        decreases headers@.len() - i,
    {
        let mut j: usize = i + 1;
        while j < headers.len()
            invariant
                i < j <= headers@.len(),
                hs == views(headers@),
                ls == lines_of(trim(markdown@)),
                ls.len() >= 2,
                hs == cells_of(ls[0]),
                hs.len() > 0,
                forall|k: int| 0 <= k < hs.len() ==> hs[k].len() != 0,
                forall|a: int, b: int| 0 <= a < b < hs.len() && a < i ==> hs[a] != hs[b],
                forall|b: int| i < b < j ==> hs[i as int] != hs[b],
            decreases headers@.len() - j,
        {
            if str_eq(headers[i].as_str(), headers[j].as_str()) {
                proof {
                    assert(hs[i as int] == hs[j as int]);
                }
                return Err(TableError::DuplicateHeader);
            }
            j = j + 1;
        }
        i = i + 1;
    }
    proof {
        assert(!has_duplicate(hs));
    }
    let separators = cells_chars(lines[1].as_slice());
    if separators.len() != headers.len() {
        return Err(TableError::Separator);
    }
    let mut i: usize = 0;
    while i < separators.len()
        invariant
            i <= separators@.len(),
            separators@.len() == hs.len(),
            ls == lines_of(trim(markdown@)),
            ls.len() >= 2,
            hs == cells_of(ls[0]),
            hs.len() > 0,
            forall|k: int| 0 <= k < hs.len() ==> hs[k].len() != 0,
            !has_duplicate(hs),
            views(separators@) == cells_of(ls[1]),
            forall|k: int| 0 <= k < i ==> separator_cell(#[trigger] cells_of(ls[1])[k]),
        decreases separators@.len() - i,
    {
        if !separator_cell_exec(separators[i].as_str()) {
            proof {
                assert(cells_of(ls[1])[i as int] == separators@[i as int]@);
            }
            return Err(TableError::Separator);
        }
        proof {
            assert(cells_of(ls[1])[i as int] == separators@[i as int]@);
        }
        i = i + 1;
    }
    let width = headers.len();
    let mut rows: Vec<Vec<String>> = Vec::new();
    let mut i: usize = lines.len();
    let ghost mut rest: Seq<Seq<Seq<char>>> = Seq::empty();
    proof {
        assert(rows_of(ls, width as nat, i as int) == Ok::<Seq<Seq<Seq<char>>>, TableError>(rest));
    }
    // Rows are checked from the first one on; the first bad row is reported.
    let mut k: usize = 2;
    while k < lines.len()
        invariant
            2 <= k <= lines@.len(),
            ls == parts_view(lines@),
            width == hs.len(),
            ls == lines_of(trim(markdown@)),
            hs == cells_of(ls[0]),
            hs == views(headers@),
            hs.len() > 0,
            forall|j: int| 0 <= j < hs.len() ==> hs[j].len() != 0,
            !has_duplicate(hs),
            cells_of(ls[1]).len() == hs.len(),
            forall|j: int| 0 <= j < hs.len() ==> separator_cell(#[trigger] cells_of(ls[1])[j]),
            rows_of(ls, width as nat, 2) == (match rows_of(ls, width as nat, k as int) {
                Ok(tail) => Ok(rows_view(rows@) + tail),
                Err(e) => Err::<Seq<Seq<Seq<char>>>, TableError>(e),
            }),
        decreases lines@.len() - k,
    {
        let row = cells_chars(lines[k].as_slice());
        let trimmed = trim_chars(lines[k].as_slice());
        proof {
            assert(ls[k as int] == lines@[k as int]@);
        }
        if trimmed.len() == 0 || row.len() != width {
            return Err(TableError::Row { line: k + 1, cells: row.len(), expected: width });
        }
        let ghost before = rows_view(rows@);
        rows.push(row);
        proof {
            assert(rows_view(rows@) =~= before.push(views(row@)));
            match rows_of(ls, width as nat, k + 1) {
                Ok(tail) => {
                    assert(before + (seq![views(row@)] + tail) =~= rows_view(rows@) + tail);
                },
                Err(e) => {},
            }
        }
        k = k + 1;
    }
    proof {
        assert(rows_view(rows@) + Seq::<Seq<Seq<char>>>::empty() =~= rows_view(rows@));
    }
    Ok(Table { headers, rows })
}

/// Every row read has as many cells as there are headers.
pub proof fn lemma_rows_width(lines: Seq<Seq<char>>, width: nat, from: int)
    requires
        rows_of(lines, width, from) is Ok,
    ensures
        forall|i: int| 0 <= i < (rows_of(lines, width, from)->Ok_0).len() ==> (#[trigger] (rows_of(lines, width, from)->Ok_0)[i]).len() == width,
    decreases lines.len() - from,
{
    if from < lines.len() {
        lemma_rows_width(lines, width, from + 1);
        let row = cells_of(lines[from]);
        let rest = rows_of(lines, width, from + 1)->Ok_0;
        assert forall|i: int| 0 <= i < (seq![row] + rest).len() implies (#[trigger] (seq![row] + rest)[i]).len() == width by {
            if i > 0 {
                assert((seq![row] + rest)[i] == rest[i - 1]);
            }
        }
    }
}

/// The rows of a parsed table are as wide as its header.
pub proof fn lemma_table_width(markdown: Seq<char>)
    requires
        table_of(markdown) is Ok,
    ensures
        forall|i: int| 0 <= i < (table_of(markdown)->Ok_0).1.len() ==> (#[trigger] (table_of(markdown)->Ok_0).1[i]).len() == (table_of(markdown)->Ok_0).0.len(),
{
    let lines = lines_of(trim(markdown));
    lemma_rows_width(lines, cells_of(lines[0]).len(), 2);
}

pub open spec fn all_trimmed(cells: Seq<Seq<char>>) -> bool {
    forall|i: int| 0 <= i < cells.len() ==> trim(#[trigger] cells[i]) == cells[i]
}

proof fn lemma_scan_trimmed(s: Seq<char>, cur: Seq<char>, cells: Seq<Seq<char>>, last: bool)
    requires
        all_trimmed(cells),
    ensures
        all_trimmed(scan(s, cur, cells, last).0),
    decreases s.len(),
{
    if s.len() > 0 {
        if s[0] == '\\' {
            if s.len() > 1 && (s[1] == '|' || s[1] == '\\') {
                lemma_scan_trimmed(s.skip(2), cur.push(s[1]), cells, false);
            } else {
                lemma_scan_trimmed(s.skip(1), cur.push('\\'), cells, false);
            }
        } else if s[0] == '|' {
            lemma_trim_idempotent(cur);
            let next = cells.push(trim(cur));
            assert forall|i: int| 0 <= i < next.len() implies trim(#[trigger] next[i]) == next[i] by {
                if i < cells.len() {
                    assert(next[i] == cells[i]);
                }
            }
            lemma_scan_trimmed(s.skip(1), Seq::<char>::empty(), next, true);
        } else {
            lemma_scan_trimmed(s.skip(1), cur.push(s[0]), cells, false);
        }
    }
}

/// Every cell of a table line is trimmed.
pub proof fn lemma_cells_trimmed(line: Seq<char>)
    ensures
        all_trimmed(cells_of(line)),
{
    let t = trim(line);
    let r = scan(t, Seq::<char>::empty(), Seq::<Seq<char>>::empty(), false);
    lemma_scan_trimmed(t, Seq::<char>::empty(), Seq::<Seq<char>>::empty(), false);
    lemma_trim_idempotent(r.1);
    let all = r.0.push(trim(r.1));
    assert(all_trimmed(all)) by {
        assert forall|i: int| 0 <= i < all.len() implies trim(#[trigger] all[i]) == all[i] by {
            if i < r.0.len() {
                assert(all[i] == r.0[i]);
            }
        }
    }
    let a = if t.len() > 0 && t[0] == '|' { all.drop_first() } else { all };
    assert(all_trimmed(a)) by {
        assert forall|i: int| 0 <= i < a.len() implies trim(#[trigger] a[i]) == a[i] by {
            if t.len() > 0 && t[0] == '|' {
                assert(a[i] == all[i + 1]);
            }
        }
    }
    let b = if r.2 && a.len() > 0 { a.drop_last() } else { a };
    assert(all_trimmed(b)) by {
        assert forall|i: int| 0 <= i < b.len() implies trim(#[trigger] b[i]) == b[i] by {
            assert(b[i] == a[i]);
        }
    }
}

/// Rows read from line `from` on: one per line, every cell trimmed.
proof fn lemma_rows_shape(lines: Seq<Seq<char>>, width: nat, from: int)
    requires
        rows_of(lines, width, from) is Ok,
        0 <= from,
    ensures
        (rows_of(lines, width, from)->Ok_0).len() == if from < lines.len() { lines.len() - from } else { 0 },
        forall|i: int| 0 <= i < (rows_of(lines, width, from)->Ok_0).len() ==> all_trimmed(#[trigger] (rows_of(lines, width, from)->Ok_0)[i]),
    decreases lines.len() - from,
{
    if from < lines.len() {
        lemma_rows_shape(lines, width, from + 1);
        let row = cells_of(lines[from]);
        lemma_cells_trimmed(lines[from]);
        let rest = rows_of(lines, width, from + 1)->Ok_0;
        assert forall|i: int| 0 <= i < (seq![row] + rest).len() implies all_trimmed(#[trigger] (seq![row] + rest)[i]) by {
            if i > 0 {
                assert((seq![row] + rest)[i] == rest[i - 1]);
            }
        }
    }
}

/// A parsed table has at least one header, none of them empty and no two
/// alike; it has one row for each line after the header and separator lines,
/// each row as wide as the header; and every header and cell is trimmed.
pub proof fn lemma_table_shape(markdown: Seq<char>)
    requires
        table_of(markdown) is Ok,
    ensures
        ({
            let headers = (table_of(markdown)->Ok_0).0;
            let rows = (table_of(markdown)->Ok_0).1;
            &&& headers.len() > 0
            &&& forall|i: int| 0 <= i < headers.len() ==> (#[trigger] headers[i]).len() > 0
            &&& !has_duplicate(headers)
            &&& all_trimmed(headers)
            &&& rows.len() == lines_of(trim(markdown)).len() - 2
            &&& forall|i: int| 0 <= i < rows.len() ==> (#[trigger] rows[i]).len() == headers.len() && all_trimmed(rows[i])
        }),
{
    let lines = lines_of(trim(markdown));
    lemma_table_width(markdown);
    lemma_cells_trimmed(lines[0]);
    lemma_rows_shape(lines, cells_of(lines[0]).len(), 2);
}

impl Table {
    /// The index of the first column named `header`.
    pub fn optional_column(&self, header: &str) -> (r: Option<usize>)
        ensures
            match r {
                Some(i) => i < self.headers@.len() && self.headers@[i as int]@ == header@ && forall|k: int|
                    0 <= k < i ==> (#[trigger] self.headers@[k])@ != header@,
                None => forall|k: int| 0 <= k < self.headers@.len() ==> (#[trigger] self.headers@[k])@ != header@,
            },
    {
        let mut i: usize = 0;
        while i < self.headers.len()
            invariant
                i <= self.headers@.len(),
                forall|k: int| 0 <= k < i ==> (#[trigger] self.headers@[k])@ != header@,
            decreases self.headers@.len() - i,
        {
            if str_eq(self.headers[i].as_str(), header) {
                return Some(i);
            }
            i = i + 1;
        }
        None
    }

    /// The index of the column named `header`, which the table must have.
    pub fn column(&self, header: &str) -> (r: Result<usize, ProviderError>)
        ensures
            match r {
                Ok(i) => i < self.headers@.len() && self.headers@[i as int]@ == header@ && forall|k: int|
                    0 <= k < i ==> (#[trigger] self.headers@[k])@ != header@,
                Err(e) => {
                    &&& forall|k: int| 0 <= k < self.headers@.len() ==> (#[trigger] self.headers@[k])@ != header@
                    &&& e matches ProviderError::Compatibility(d)
                    &&& d@ == "required column `"@ + header@ + "` is missing"@
                },
            },
    {
        match self.optional_column(header) {
            Some(i) => Ok(i),
            None => {
                let d = cat3("required column `", header, "` is missing");
                Err(compatibility(d.as_str()))
            },
        }
    }
}

} // verus!
