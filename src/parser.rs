//! Reading the status page: tables are classified by their first row, the
//! second row holds column labels, and every further row is one channel.

use crate::channel::{
    empty_snapshot, join, snapshot_result_view, ChannelSnapshot, Direction, DownstreamChannel,
    DownstreamView, ErrorView, Field, ParseError, SnapshotView, UpstreamChannel, UpstreamView,
};
use crate::text::{
    chars_of, contains, contains_exec, is_float_literal, is_float_literal_exec, parse_u16,
    strip_unit, before_first, string_of, u16_value,
};
use vstd::prelude::*;

verus! {

/// One table row: its serialized markup, and the inner markup of each cell.
#[derive(Clone, Debug, PartialEq, Eq)]
pub struct Row {
    pub html: String,
    pub cells: Vec<String>,
}

pub open spec fn cells_view(cells: &Vec<String>) -> Seq<Seq<char>> {
    cells@.map_values(|c: String| c@)
}

impl View for Row {
    type V = (Seq<char>, Seq<Seq<char>>);

    open spec fn view(&self) -> (Seq<char>, Seq<Seq<char>>) {
        (self.html@, cells_view(&self.cells))
    }
}

pub open spec fn table_view(t: &Vec<Row>) -> Seq<(Seq<char>, Seq<Seq<char>>)> {
    t@.map_values(|r: Row| r@)
}

pub open spec fn tables_view(ts: &Vec<Vec<Row>>) -> Seq<Seq<(Seq<char>, Seq<Seq<char>>)>> {
    ts@.map_values(|t: Vec<Row>| table_view(&t))
}

/// The tables of an HTML document, in document order, each as its rows.
pub uninterp spec fn page_tables(html: Seq<char>) -> Seq<Seq<(Seq<char>, Seq<Seq<char>>)>>;

/// Relies on scraper: `Html::parse_document` builds the element tree (it
/// recovers from any input), `select` walks the `table` elements and, within
/// each, the `tr` and `td` elements in document order, and `html` and
/// `inner_html` serialize them. The result depends on the text alone.
#[verifier::external_body]
fn html_tables(html: &str) -> (r: Vec<Vec<Row>>)
    ensures
        tables_view(&r) == page_tables(html@),
{
    let document = scraper::Html::parse_document(html);
    let table = scraper::Selector::parse("table").unwrap();
    let tr = scraper::Selector::parse("tr").unwrap();
    let td = scraper::Selector::parse("td").unwrap();
    document.select(&table).map(|t| t.select(&tr).map(|r| Row {
        html: r.html(),
        cells: r.select(&td).map(|c| c.inner_html()).collect(),
    }).collect()).collect()
}

pub open spec fn hz() -> Seq<char> {
    seq![' ', 'H', 'z']
}

pub open spec fn dbmv() -> Seq<char> {
    seq![' ', 'd', 'B', 'm', 'V']
}

pub open spec fn db() -> Seq<char> {
    seq![' ', 'd', 'B']
}

pub open spec fn ksym() -> Seq<char> {
    seq![' ', 'K', 's', 'y', 'm', '/', 's', 'e', 'c']
}

/// The number that a cell of the given column holds: the text before the
/// column's unit, or the whole cell where the column has no unit or the
/// unit is absent.
pub open spec fn literal_of(field: Field, cell: Seq<char>) -> Seq<char> {
    match field {
        Field::Frequency => before_first(cell, hz()),
        Field::Power => before_first(cell, dbmv()),
        Field::Snr => before_first(cell, db()),
        Field::SymbolRate => before_first(cell, ksym()),
        _ => cell,
    }
}

pub open spec fn numeric_ok(field: Field, cell: Seq<char>) -> bool {
    is_float_literal(literal_of(field, cell))
}

pub open spec fn invalid(field: Field, cell: Seq<char>) -> ErrorView {
    ErrorView::InvalidNumericField { field, raw_value: cell }
}

pub open spec fn shape_error(direction: Direction, expected: nat, got: nat) -> ErrorView {
    ErrorView::UnexpectedRowShape { direction, expected, got }
}

/// A downstream row: channel, lock status, modulation, frequency, power,
/// SNR, symbol rate, correctables, uncorrectables. The first cell in that
/// order that fails decides the error.
pub open spec fn decode_downstream_row(c: Seq<Seq<char>>) -> Result<DownstreamView, ErrorView> {
    if c.len() != 9 {
        Err(shape_error(Direction::Downstream, 9, c.len()))
    } else if u16_value(c[0]) is None {
        Err(invalid(Field::Channel, c[0]))
    } else if !numeric_ok(Field::Frequency, c[3]) {
        Err(invalid(Field::Frequency, c[3]))
    } else if !numeric_ok(Field::Power, c[4]) {
        Err(invalid(Field::Power, c[4]))
    } else if !numeric_ok(Field::Snr, c[5]) {
        Err(invalid(Field::Snr, c[5]))
    } else if !numeric_ok(Field::SymbolRate, c[6]) {
        Err(invalid(Field::SymbolRate, c[6]))
    } else if !numeric_ok(Field::Correctables, c[7]) {
        Err(invalid(Field::Correctables, c[7]))
    } else if !numeric_ok(Field::Uncorrectables, c[8]) {
        Err(invalid(Field::Uncorrectables, c[8]))
    } else {
        Ok(
            DownstreamView {
                channel: u16_value(c[0])->Some_0,
                lock_status: c[1],
                modulation: c[2],
                frequency: literal_of(Field::Frequency, c[3]),
                power: literal_of(Field::Power, c[4]),
                snr: literal_of(Field::Snr, c[5]),
                symbol_rate: literal_of(Field::SymbolRate, c[6]),
                correctables: c[7],
                uncorrectables: c[8],
            },
        )
    }
}

/// An upstream row: channel, lock status, channel type, symbol rate,
/// frequency, power.
pub open spec fn decode_upstream_row(c: Seq<Seq<char>>) -> Result<UpstreamView, ErrorView> {
    if c.len() != 6 {
        Err(shape_error(Direction::Upstream, 6, c.len()))
    } else if u16_value(c[0]) is None {
        Err(invalid(Field::Channel, c[0]))
    } else if !numeric_ok(Field::SymbolRate, c[3]) {
        Err(invalid(Field::SymbolRate, c[3]))
    } else if !numeric_ok(Field::Frequency, c[4]) {
        Err(invalid(Field::Frequency, c[4]))
    } else if !numeric_ok(Field::Power, c[5]) {
        Err(invalid(Field::Power, c[5]))
    } else {
        Ok(
            UpstreamView {
                channel: u16_value(c[0])->Some_0,
                lock_status: c[1],
                us_channel_type: c[2],
                symbol_rate: literal_of(Field::SymbolRate, c[3]),
                frequency: literal_of(Field::Frequency, c[4]),
                power: literal_of(Field::Power, c[5]),
            },
        )
    }
}

/// A data row of a table of the given direction, as a one-channel snapshot.
pub open spec fn decode_row(direction: Direction, c: Seq<Seq<char>>) -> Result<
    SnapshotView,
    ErrorView,
> {
    match direction {
        Direction::Downstream => match decode_downstream_row(c) {
            Ok(d) => Ok(SnapshotView { downstream: seq![d], upstream: Seq::empty() }),
            Err(e) => Err(e),
        },
        Direction::Upstream => match decode_upstream_row(c) {
            Ok(u) => Ok(SnapshotView { downstream: Seq::empty(), upstream: seq![u] }),
            Err(e) => Err(e),
        },
    }
}

pub open spec fn downstream_word() -> Seq<char> {
    seq!['D', 'o', 'w', 'n', 's', 't', 'r', 'e', 'a', 'm']
}

pub open spec fn upstream_word() -> Seq<char> {
    seq!['U', 'p', 's', 't', 'r', 'e', 'a', 'm']
}

/// The direction that a table's first row announces, if any.
pub open spec fn classify(first_row: Seq<char>) -> Option<Direction> {
    if contains(first_row, downstream_word()) {
        Some(Direction::Downstream)
    } else if contains(first_row, upstream_word()) {
        Some(Direction::Upstream)
    } else {
        None
    }
}

/// The data rows `rows[2..n]` of a table of the given direction.
pub open spec fn decode_rows(
    direction: Direction,
    rows: Seq<(Seq<char>, Seq<Seq<char>>)>,
    n: int,
) -> Result<SnapshotView, ErrorView>
    decreases n,
{
    if n <= 2 {
        Ok(empty_snapshot())
    } else {
        match decode_rows(direction, rows, n - 1) {
            Err(e) => Err(e),
            Ok(acc) => match decode_row(direction, rows[n - 1].1) {
                Err(e) => Err(e),
                Ok(ch) => Ok(join(acc, ch)),
            },
        }
    }
}

/// The channels of one table.
pub open spec fn decode_table(rows: Seq<(Seq<char>, Seq<Seq<char>>)>) -> Result<
    SnapshotView,
    ErrorView,
> {
    if rows.len() == 0 {
        Ok(empty_snapshot())
    } else {
        match classify(rows[0].0) {
            None => Ok(empty_snapshot()),
            Some(direction) => if rows.len() < 2 {
                Err(ErrorView::MissingHeaderRow)
            } else {
                decode_rows(direction, rows, rows.len() as int)
            },
        }
    }
}

/// The channels of the tables `tables[0..n]`; the first failing table
/// decides the error.
pub open spec fn decode_tables(tables: Seq<Seq<(Seq<char>, Seq<Seq<char>>)>>, n: int) -> Result<
    SnapshotView,
    ErrorView,
>
    decreases n,
{
    if n <= 0 {
        Ok(empty_snapshot())
    } else {
        match decode_tables(tables, n - 1) {
            Err(e) => Err(e),
            Ok(acc) => match decode_table(tables[n - 1]) {
                Err(e) => Err(e),
                Ok(t) => Ok(join(acc, t)),
            },
        }
    }
}

pub open spec fn decode_page(tables: Seq<Seq<(Seq<char>, Seq<Seq<char>>)>>) -> Result<
    SnapshotView,
    ErrorView,
> {
    decode_tables(tables, tables.len() as int)
}

pub open spec fn downstream_result_view(r: Result<DownstreamChannel, ParseError>) -> Result<
    DownstreamView,
    ErrorView,
> {
    match r {
        Ok(c) => Ok(c@),
        Err(e) => Err(e@),
    }
}

pub open spec fn upstream_result_view(r: Result<UpstreamChannel, ParseError>) -> Result<
    UpstreamView,
    ErrorView,
> {
    match r {
        Ok(c) => Ok(c@),
        Err(e) => Err(e@),
    }
}

/// Reads a channel id cell.
fn channel_id(cell: &String) -> (r: Result<u16, ParseError>)
    ensures
        match r {
            Ok(v) => u16_value(cell@) == Some(v),
            Err(e) => u16_value(cell@) is None && e@ == invalid(Field::Channel, cell@),
        },
{
    let chars = chars_of(cell.as_str());
    match parse_u16(&chars) {
        Some(v) => Ok(v),
        None => Err(ParseError::InvalidNumericField { field: Field::Channel, raw_value: cell.clone() }),
    }
}

/// Reads a numeric cell of the given column: strips the column's unit and
/// checks that a finite number remains.
pub fn numeric_literal(field: Field, cell: &String) -> (r: Result<String, ParseError>)
    ensures
        match r {
            Ok(s) => numeric_ok(field, cell@) && s@ == literal_of(field, cell@),
            Err(e) => !numeric_ok(field, cell@) && e@ == invalid(field, cell@),
        },
{
    let chars = chars_of(cell.as_str());
    let lit: Vec<char> = match field {
        Field::Frequency => {
            let unit: Vec<char> = vec![' ', 'H', 'z'];
            assert(unit@ =~= hz());
            strip_unit(&chars, &unit)
        },
        Field::Power => {
            let unit: Vec<char> = vec![' ', 'd', 'B', 'm', 'V'];
            assert(unit@ =~= dbmv());
            strip_unit(&chars, &unit)
        },
        Field::Snr => {
            let unit: Vec<char> = vec![' ', 'd', 'B'];
            assert(unit@ =~= db());
            strip_unit(&chars, &unit)
        },
        Field::SymbolRate => {
            let unit: Vec<char> = vec![' ', 'K', 's', 'y', 'm', '/', 's', 'e', 'c'];
            assert(unit@ =~= ksym());
            strip_unit(&chars, &unit)
        },
        _ => chars,
    };
    if is_float_literal_exec(&lit) {
        Ok(string_of(&lit))
    } else {
        Err(ParseError::InvalidNumericField { field, raw_value: cell.clone() })
    }
}

/// Decodes the cells of a downstream row.
pub fn decode_downstream(cells: &Vec<String>) -> (r: Result<DownstreamChannel, ParseError>)
    ensures
        downstream_result_view(r) == decode_downstream_row(cells_view(cells)),
{
    let ghost c = cells_view(cells);
    if cells.len() != 9 {
        return Err(
            ParseError::UnexpectedRowShape {
                direction: Direction::Downstream,
                expected: 9,
                got: cells.len(),
            },
        );
    }
    assert(c[0] == cells@[0]@ && c[3] == cells@[3]@ && c[4] == cells@[4]@ && c[5] == cells@[5]@);
    assert(c[6] == cells@[6]@ && c[7] == cells@[7]@ && c[8] == cells@[8]@);
    assert(c[1] == cells@[1]@ && c[2] == cells@[2]@);
    let channel = match channel_id(&cells[0]) {
        Ok(v) => v,
        Err(e) => return Err(e),
    };
    let frequency = match numeric_literal(Field::Frequency, &cells[3]) {
        Ok(v) => v,
        Err(e) => return Err(e),
    };
    let power = match numeric_literal(Field::Power, &cells[4]) {
        Ok(v) => v,
        Err(e) => return Err(e),
    };
    let snr = match numeric_literal(Field::Snr, &cells[5]) {
        Ok(v) => v,
        Err(e) => return Err(e),
    };
    let symbol_rate = match numeric_literal(Field::SymbolRate, &cells[6]) {
        Ok(v) => v,
        Err(e) => return Err(e),
    };
    let correctables = match numeric_literal(Field::Correctables, &cells[7]) {
        Ok(v) => v,
        Err(e) => return Err(e),
    };
    let uncorrectables = match numeric_literal(Field::Uncorrectables, &cells[8]) {
        Ok(v) => v,
        Err(e) => return Err(e),
    };
    Ok(
        DownstreamChannel {
            channel,
            lock_status: cells[1].clone(),
            modulation: cells[2].clone(),
            frequency,
            power,
            snr,
            symbol_rate,
            correctables,
            uncorrectables,
        },
    )
}

/// Decodes the cells of an upstream row.
pub fn decode_upstream(cells: &Vec<String>) -> (r: Result<UpstreamChannel, ParseError>)
    ensures
        upstream_result_view(r) == decode_upstream_row(cells_view(cells)),
{
    let ghost c = cells_view(cells);
    if cells.len() != 6 {
        return Err(
            ParseError::UnexpectedRowShape {
                direction: Direction::Upstream,
                expected: 6,
                got: cells.len(),
            },
        );
    }
    assert(c[0] == cells@[0]@ && c[1] == cells@[1]@ && c[2] == cells@[2]@);
    assert(c[3] == cells@[3]@ && c[4] == cells@[4]@ && c[5] == cells@[5]@);
    let channel = match channel_id(&cells[0]) {
        Ok(v) => v,
        Err(e) => return Err(e),
    };
    let symbol_rate = match numeric_literal(Field::SymbolRate, &cells[3]) {
        Ok(v) => v,
        Err(e) => return Err(e),
    };
    let frequency = match numeric_literal(Field::Frequency, &cells[4]) {
        Ok(v) => v,
        Err(e) => return Err(e),
    };
    let power = match numeric_literal(Field::Power, &cells[5]) {
        Ok(v) => v,
        Err(e) => return Err(e),
    };
    Ok(
        UpstreamChannel {
            channel,
            lock_status: cells[1].clone(),
            us_channel_type: cells[2].clone(),
            frequency,
            power,
            symbol_rate,
        },
    )
}

proof fn lemma_rows_error_kept(
    direction: Direction,
    rows: Seq<(Seq<char>, Seq<Seq<char>>)>,
    n: int,
    m: int,
)
    requires
        n <= m,
        decode_rows(direction, rows, n) is Err,
    ensures
        decode_rows(direction, rows, m) == decode_rows(direction, rows, n),
    decreases m - n,
{
    if n < m {
        lemma_rows_error_kept(direction, rows, n, m - 1);
    }
}

proof fn lemma_tables_error_kept(tables: Seq<Seq<(Seq<char>, Seq<Seq<char>>)>>, n: int, m: int)
    requires
        n <= m,
        decode_tables(tables, n) is Err,
    ensures
        decode_tables(tables, m) == decode_tables(tables, n),
    decreases m - n,
{
    if n < m {
        lemma_tables_error_kept(tables, n, m - 1);
    }
}

/// The direction that a table's first row announces, if any.
pub fn classify_row(html: &String) -> (r: Option<Direction>)
    ensures
        r == classify(html@),
{
    let chars = chars_of(html.as_str());
    let down: Vec<char> = vec!['D', 'o', 'w', 'n', 's', 't', 'r', 'e', 'a', 'm'];
    assert(down@ =~= downstream_word());
    if contains_exec(&chars, &down) {
        return Some(Direction::Downstream);
    }
    let up: Vec<char> = vec!['U', 'p', 's', 't', 'r', 'e', 'a', 'm'];
    assert(up@ =~= upstream_word());
    if contains_exec(&chars, &up) {
        Some(Direction::Upstream)
    } else {
        None
    }
}

/// Decodes the channels of one table.
pub fn decode_table_rows(rows: &Vec<Row>) -> (r: Result<ChannelSnapshot, ParseError>)
    ensures
        snapshot_result_view(r) == decode_table(table_view(rows)),
{
    let ghost tv = table_view(rows);
    if rows.len() == 0 {
        return Ok(ChannelSnapshot::new());
    }
    assert(tv[0] == rows@[0]@);
    let direction = match classify_row(&rows[0].html) {
        None => return Ok(ChannelSnapshot::new()),
        Some(d) => d,
    };
    if rows.len() < 2 {
        return Err(ParseError::MissingHeaderRow);
    }
    let mut acc = ChannelSnapshot::new();
    let mut i: usize = 2;
    while i < rows.len()
        invariant
            2 <= i <= rows@.len(),
            tv == table_view(rows),
            decode_table(tv) == decode_rows(direction, tv, rows@.len() as int),
            decode_rows(direction, tv, i as int) == Ok::<SnapshotView, ErrorView>(acc@),
        decreases rows@.len() - i,
    {
        assert(tv[i as int] == rows@[i as int]@);
        let ghost before = acc@;
        match direction {
            Direction::Downstream => {
                match decode_downstream(&rows[i].cells) {
                    Ok(ch) => {
                        acc.downstream.push(ch);
                        assert(acc@.downstream =~= before.downstream + seq![ch@]);
                        assert(acc@.upstream =~= before.upstream + Seq::<UpstreamView>::empty());
                    },
                    Err(e) => {
                        proof {
                            lemma_rows_error_kept(direction, tv, i + 1, rows@.len() as int);
                        }
                        return Err(e);
                    },
                }
            },
            Direction::Upstream => {
                match decode_upstream(&rows[i].cells) {
                    Ok(ch) => {
                        acc.upstream.push(ch);
                        assert(acc@.upstream =~= before.upstream + seq![ch@]);
                        assert(acc@.downstream =~= before.downstream + Seq::<DownstreamView>::empty());
                    },
                    Err(e) => {
                        proof {
                            lemma_rows_error_kept(direction, tv, i + 1, rows@.len() as int);
                        }
                        return Err(e);
                    },
                }
            },
        }
        i = i + 1;
    }
    Ok(acc)
}

/// Decodes the channels of every table, in order. Tables that announce no
/// direction contribute nothing; the first defect found fails the whole page.
pub fn decode_tables_exec(tables: &Vec<Vec<Row>>) -> (r: Result<ChannelSnapshot, ParseError>)
    ensures
        snapshot_result_view(r) == decode_page(tables_view(tables)),
{
    let ghost tv = tables_view(tables);
    let mut acc = ChannelSnapshot::new();
    let mut i: usize = 0;
    while i < tables.len()
        invariant
            0 <= i <= tables@.len(),
            tv == tables_view(tables),
            tv.len() == tables@.len(),
            decode_tables(tv, i as int) == Ok::<SnapshotView, ErrorView>(acc@),
        decreases tables@.len() - i,
    {
        assert(tv[i as int] == table_view(&tables@[i as int]));
        let ghost before = acc@;
        match decode_table_rows(&tables[i]) {
            Ok(mut t) => {
                let ghost tview = t@;
                acc.downstream.append(&mut t.downstream);
                acc.upstream.append(&mut t.upstream);
                assert(acc@.downstream =~= before.downstream + tview.downstream);
                assert(acc@.upstream =~= before.upstream + tview.upstream);
            },
            Err(e) => {
                proof {
                    lemma_tables_error_kept(tv, i + 1, tv.len() as int);
                }
                return Err(e);
            },
        }
        i = i + 1;
    }
    Ok(acc)
}

proof fn lemma_rows_not_malformed(
    direction: Direction,
    rows: Seq<(Seq<char>, Seq<Seq<char>>)>,
    n: int,
)
    ensures
        !(decode_rows(direction, rows, n) matches Err(ErrorView::MalformedDocument)),
    decreases n,
{
    if n > 2 {
        lemma_rows_not_malformed(direction, rows, n - 1);
    }
}

proof fn lemma_tables_not_malformed(tables: Seq<Seq<(Seq<char>, Seq<Seq<char>>)>>, n: int)
    ensures
        !(decode_tables(tables, n) matches Err(ErrorView::MalformedDocument)),
    decreases n,
{
    if n > 0 {
        lemma_tables_not_malformed(tables, n - 1);
        let t = tables[n - 1];
        if t.len() > 0 && classify(t[0].0) is Some {
            lemma_rows_not_malformed(classify(t[0].0)->Some_0, t, t.len() as int);
        }
    }
}

/// Parses the status page into a snapshot of its channels. The HTML parser
/// recovers from any input, so the page is never rejected as malformed
/// markup; it is rejected only for a defect of a channel table.
pub fn parse(html: &str) -> (r: Result<ChannelSnapshot, ParseError>)
    ensures
        snapshot_result_view(r) == decode_page(page_tables(html@)),
        !(r matches Err(ParseError::MalformedDocument)),
{
    let tables = html_tables(html);
    proof {
        lemma_tables_not_malformed(tables_view(&tables), tables@.len() as int);
    }
    decode_tables_exec(&tables)
}

/// Combines the results of two runs of tables, the first error winning.
pub open spec fn combine(r1: Result<SnapshotView, ErrorView>, r2: Result<SnapshotView, ErrorView>) -> Result<
    SnapshotView,
    ErrorView,
> {
    match r1 {
        Err(e) => Err(e),
        Ok(x) => match r2 {
            Err(e) => Err(e),
            Ok(y) => Ok(join(x, y)),
        },
    }
}

proof fn lemma_tables_prefix(
    s1: Seq<Seq<(Seq<char>, Seq<Seq<char>>)>>,
    s2: Seq<Seq<(Seq<char>, Seq<Seq<char>>)>>,
    n: int,
)
    requires
        0 <= n <= s1.len(),
        n <= s2.len(),
        s1.take(n) == s2.take(n),
    ensures
        decode_tables(s1, n) == decode_tables(s2, n),
    decreases n,
{
    if n > 0 {
        assert(s1.take(n - 1) =~= s1.take(n).take(n - 1));
        assert(s2.take(n - 1) =~= s2.take(n).take(n - 1));
        assert(s1[n - 1] == s1.take(n)[n - 1]);
        assert(s2[n - 1] == s2.take(n)[n - 1]);
        lemma_tables_prefix(s1, s2, n - 1);
    }
}

proof fn lemma_join_assoc(x: SnapshotView, y: SnapshotView, z: SnapshotView)
    ensures
        join(join(x, y), z) == join(x, join(y, z)),
{
    assert(join(join(x, y), z).downstream =~= join(x, join(y, z)).downstream);
    assert(join(join(x, y), z).upstream =~= join(x, join(y, z)).upstream);
}

proof fn lemma_join_empty(x: SnapshotView)
    ensures
        join(x, empty_snapshot()) == x,
        join(empty_snapshot(), x) == x,
{
    assert(join(x, empty_snapshot()).downstream =~= x.downstream);
    assert(join(x, empty_snapshot()).upstream =~= x.upstream);
    assert(join(empty_snapshot(), x).downstream =~= x.downstream);
    assert(join(empty_snapshot(), x).upstream =~= x.upstream);
}

proof fn lemma_tables_concat_prefix(
    a: Seq<Seq<(Seq<char>, Seq<Seq<char>>)>>,
    b: Seq<Seq<(Seq<char>, Seq<Seq<char>>)>>,
    k: int,
)
    requires
        0 <= k <= b.len(),
    ensures
        decode_tables(a + b, a.len() + k) == combine(decode_page(a), decode_tables(b, k)),
    decreases k,
{
    if k == 0 {
        assert((a + b).take(a.len() as int) =~= a.take(a.len() as int));
        lemma_tables_prefix(a + b, a, a.len() as int);
        if let Ok(x) = decode_page(a) {
            lemma_join_empty(x);
        }
    } else {
        lemma_tables_concat_prefix(a, b, k - 1);
        assert((a + b)[a.len() + k - 1] == b[k - 1]);
        if let Ok(x) = decode_page(a) {
            if let Ok(y) = decode_tables(b, k - 1) {
                if let Ok(z) = decode_table(b[k - 1]) {
                    lemma_join_assoc(x, y, z);
                }
            }
        }
    }
}

/// A page decodes as its parts do: the channels of a run of tables followed
/// by another are those of the first run followed by those of the second,
/// and the first error in page order wins.
pub proof fn lemma_page_concat(
    a: Seq<Seq<(Seq<char>, Seq<Seq<char>>)>>,
    b: Seq<Seq<(Seq<char>, Seq<Seq<char>>)>>,
)
    ensures
        decode_page(a + b) == combine(decode_page(a), decode_page(b)),
{
    lemma_tables_concat_prefix(a, b, b.len() as int);
}

proof fn lemma_single_table(t: Seq<(Seq<char>, Seq<Seq<char>>)>)
    ensures
        decode_page(seq![t]) == combine(Ok(empty_snapshot()), decode_table(t)),
{
    assert(seq![t][0] == t);
    assert(decode_tables(seq![t], 0) == Ok::<SnapshotView, ErrorView>(empty_snapshot()));
}

/// A table whose first row announces neither direction (or that has no
/// rows) contributes no channel and no error, wherever it stands.
pub proof fn lemma_unclassified_table_ignored(
    a: Seq<Seq<(Seq<char>, Seq<Seq<char>>)>>,
    t: Seq<(Seq<char>, Seq<Seq<char>>)>,
    b: Seq<Seq<(Seq<char>, Seq<Seq<char>>)>>,
)
    requires
        t.len() == 0 || classify(t[0].0) is None,
    ensures
        decode_table(t) == Ok::<SnapshotView, ErrorView>(empty_snapshot()),
        decode_page(a + seq![t] + b) == decode_page(a + b),
{
    lemma_page_concat(a + seq![t], b);
    lemma_page_concat(a, seq![t]);
    lemma_page_concat(a, b);
    lemma_single_table(t);
    lemma_join_empty(empty_snapshot());
    if let Ok(x) = decode_page(a) {
        lemma_join_empty(x);
    }
}

/// A table announced as upstream or downstream that lacks its column-label
/// row is rejected.
pub proof fn lemma_headerless_table_rejected(t: Seq<(Seq<char>, Seq<Seq<char>>)>)
    requires
        t.len() == 1,
        classify(t[0].0) is Some,
    ensures
        decode_table(t) == Err::<SnapshotView, ErrorView>(ErrorView::MissingHeaderRow),
{
}

/// A row of the wrong width is rejected with the width expected for its
/// direction and the width found.
pub proof fn lemma_row_shape_rejected(direction: Direction, c: Seq<Seq<char>>)
    requires
        direction == Direction::Downstream ==> c.len() != 9,
        direction == Direction::Upstream ==> c.len() != 6,
    ensures
        direction == Direction::Downstream ==> decode_row(direction, c) == Err::<
            SnapshotView,
            ErrorView,
        >(shape_error(Direction::Downstream, 9, c.len())),
        direction == Direction::Upstream ==> decode_row(direction, c) == Err::<
            SnapshotView,
            ErrorView,
        >(shape_error(Direction::Upstream, 6, c.len())),
{
}

proof fn lemma_rows_first_error(
    direction: Direction,
    rows: Seq<(Seq<char>, Seq<Seq<char>>)>,
    k: int,
)
    requires
        2 <= k < rows.len(),
        forall|j: int| 2 <= j < k ==> (#[trigger] decode_row(direction, rows[j].1)) is Ok,
        decode_row(direction, rows[k].1) is Err,
    ensures
        decode_rows(direction, rows, rows.len() as int) == Err::<SnapshotView, ErrorView>(
            decode_row(direction, rows[k].1)->Err_0,
        ),
{
    lemma_rows_ok(direction, rows, k);
    lemma_rows_error_kept(direction, rows, k + 1, rows.len() as int);
}

proof fn lemma_rows_ok(direction: Direction, rows: Seq<(Seq<char>, Seq<Seq<char>>)>, n: int)
    requires
        2 <= n <= rows.len(),
        forall|j: int| 2 <= j < n ==> (#[trigger] decode_row(direction, rows[j].1)) is Ok,
    ensures
        decode_rows(direction, rows, n) == Ok::<SnapshotView, ErrorView>(
            rows_channels(direction, rows.subrange(2, n).map_values(
                |r: (Seq<char>, Seq<Seq<char>>)| r.1,
            )),
        ),
    decreases n,
{
    let data = rows.subrange(2, n).map_values(|r: (Seq<char>, Seq<Seq<char>>)| r.1);
    if n == 2 {
        assert(rows_channels(direction, data).downstream =~= Seq::<DownstreamView>::empty());
        assert(rows_channels(direction, data).upstream =~= Seq::<UpstreamView>::empty());
    } else {
        lemma_rows_ok(direction, rows, n - 1);
        let prev = rows.subrange(2, n - 1).map_values(|r: (Seq<char>, Seq<Seq<char>>)| r.1);
        assert(data.drop_last() =~= prev);
        assert(data.last() == rows[n - 1].1);
        assert(decode_row(direction, rows[n - 1].1) is Ok);
        let x = rows_channels(direction, prev);
        let y = decode_row(direction, rows[n - 1].1)->Ok_0;
        assert(join(x, y).downstream =~= rows_channels(direction, data).downstream);
        assert(join(x, y).upstream =~= rows_channels(direction, data).upstream);
    }
}

/// The channels that well-formed data rows of the given direction decode to.
pub open spec fn rows_channels(direction: Direction, data: Seq<Seq<Seq<char>>>) -> SnapshotView {
    match direction {
        Direction::Downstream => SnapshotView {
            downstream: data.map_values(|c: Seq<Seq<char>>| decode_downstream_row(c)->Ok_0),
            upstream: Seq::empty(),
        },
        Direction::Upstream => SnapshotView {
            downstream: Seq::empty(),
            upstream: data.map_values(|c: Seq<Seq<char>>| decode_upstream_row(c)->Ok_0),
        },
    }
}

/// A row that fails to decode fails its whole table, and with it the page
/// from that table on: no partial snapshot comes out.
pub proof fn lemma_bad_row_fails_page(
    a: Seq<Seq<(Seq<char>, Seq<Seq<char>>)>>,
    t: Seq<(Seq<char>, Seq<Seq<char>>)>,
    b: Seq<Seq<(Seq<char>, Seq<Seq<char>>)>>,
    k: int,
)
    requires
        decode_page(a) is Ok,
        t.len() > 0,
        classify(t[0].0) is Some,
        2 <= k < t.len(),
        forall|j: int| 2 <= j < k ==> (#[trigger] decode_row(classify(t[0].0)->Some_0, t[j].1)) is Ok,
        decode_row(classify(t[0].0)->Some_0, t[k].1) is Err,
    ensures
        decode_page(a + seq![t] + b) == Err::<SnapshotView, ErrorView>(
            decode_row(classify(t[0].0)->Some_0, t[k].1)->Err_0,
        ),
{
    lemma_rows_first_error(classify(t[0].0)->Some_0, t, k);
    lemma_page_concat(a + seq![t], b);
    lemma_page_concat(a, seq![t]);
    lemma_single_table(t);
}

/// The cells of a table's data rows: every row after the first two.
pub open spec fn table_data(t: Seq<(Seq<char>, Seq<Seq<char>>)>) -> Seq<Seq<Seq<char>>> {
    t.subrange(2, t.len() as int).map_values(|r: (Seq<char>, Seq<Seq<char>>)| r.1)
}

pub open spec fn announces(t: Seq<(Seq<char>, Seq<Seq<char>>)>, direction: Direction) -> bool {
    t.len() > 0 && classify(t[0].0) == Some(direction)
}

/// A table that announces a direction has its label row, and each of its
/// data rows has the width of that direction and numbers where numbers go.
pub open spec fn table_well_formed(t: Seq<(Seq<char>, Seq<Seq<char>>)>) -> bool {
    t.len() == 0 || classify(t[0].0) is None || (t.len() >= 2 && forall|j: int|
        2 <= j < t.len() ==> (#[trigger] decode_row(classify(t[0].0)->Some_0, t[j].1)) is Ok)
}

pub open spec fn page_well_formed(tables: Seq<Seq<(Seq<char>, Seq<Seq<char>>)>>) -> bool {
    forall|i: int| 0 <= i < tables.len() ==> table_well_formed(#[trigger] tables[i])
}

/// The data rows of the tables `tables[0..n]` that announce `direction`, in
/// page order.
pub open spec fn direction_rows(
    tables: Seq<Seq<(Seq<char>, Seq<Seq<char>>)>>,
    n: int,
    direction: Direction,
) -> Seq<Seq<Seq<char>>>
    decreases n,
{
    if n <= 0 {
        Seq::empty()
    } else if announces(tables[n - 1], direction) {
        direction_rows(tables, n - 1, direction) + table_data(tables[n - 1])
    } else {
        direction_rows(tables, n - 1, direction)
    }
}

pub open spec fn page_channels(tables: Seq<Seq<(Seq<char>, Seq<Seq<char>>)>>, n: int) -> SnapshotView {
    SnapshotView {
        downstream: direction_rows(tables, n, Direction::Downstream).map_values(
            |c: Seq<Seq<char>>| decode_downstream_row(c)->Ok_0,
        ),
        upstream: direction_rows(tables, n, Direction::Upstream).map_values(
            |c: Seq<Seq<char>>| decode_upstream_row(c)->Ok_0,
        ),
    }
}

proof fn lemma_tables_ok(tables: Seq<Seq<(Seq<char>, Seq<Seq<char>>)>>, n: int)
    requires
        0 <= n <= tables.len(),
        page_well_formed(tables),
    ensures
        decode_tables(tables, n) == Ok::<SnapshotView, ErrorView>(page_channels(tables, n)),
    decreases n,
{
    if n == 0 {
        assert(page_channels(tables, 0).downstream =~= Seq::<DownstreamView>::empty());
        assert(page_channels(tables, 0).upstream =~= Seq::<UpstreamView>::empty());
    } else {
        lemma_tables_ok(tables, n - 1);
        let t = tables[n - 1];
        assert(table_well_formed(t));
        let x = page_channels(tables, n - 1);
        let y = page_channels(tables, n);
        if t.len() > 0 && classify(t[0].0) is Some {
            let dir = classify(t[0].0)->Some_0;
            lemma_rows_ok(dir, t, t.len() as int);
            let z = rows_channels(dir, table_data(t));
            assert(join(x, z).downstream =~= y.downstream);
            assert(join(x, z).upstream =~= y.upstream);
        } else {
            lemma_join_empty(x);
            assert(x.downstream =~= y.downstream);
            assert(x.upstream =~= y.upstream);
        }
    }
}

/// A well-formed page decodes without error to one downstream channel for
/// each data row of its downstream tables and one upstream channel for each
/// data row of its upstream tables, in page order.
pub proof fn lemma_well_formed_page(tables: Seq<Seq<(Seq<char>, Seq<Seq<char>>)>>)
    requires
        page_well_formed(tables),
    ensures
        decode_page(tables) == Ok::<SnapshotView, ErrorView>(
            page_channels(tables, tables.len() as int),
        ),
        page_channels(tables, tables.len() as int).downstream.len() == direction_rows(
            tables,
            tables.len() as int,
            Direction::Downstream,
        ).len(),
        page_channels(tables, tables.len() as int).upstream.len() == direction_rows(
            tables,
            tables.len() as int,
            Direction::Upstream,
        ).len(),
{
    lemma_tables_ok(tables, tables.len() as int);
}

} // verus!
