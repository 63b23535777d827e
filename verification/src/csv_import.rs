//! The normalizer: from the bytes of a bank export to transaction
//! candidates.
//!
//! Reading the comma-separated format is the `csv` crate's work. Everything
//! after that is decided here: which column is which, which rows are usable,
//! what each cell means.

use vstd::prelude::*;
use crate::amount::{amount_units, parse_amount, AMOUNT_LIMIT};
use crate::dates::{iso_chars, normalized_date, parse_date};
use crate::text::{
    chars_of, contains_chars, contains_text, same_chars, text_of, texts, to_lowercase, trim,
    trim_chars, unicode_lowercase,
};

verus! {

/// The header row that the `csv` crate reads from `bytes`, cell by cell;
/// `None` if it cannot read one.
pub uninterp spec fn csv_header(bytes: Seq<u8>) -> Option<Seq<Seq<char>>>;

/// The records that the `csv` crate reads from `bytes` after the header row,
/// cell by cell; `None` stands for a record that it cannot read.
pub uninterp spec fn csv_records(bytes: Seq<u8>) -> Seq<Option<Seq<Seq<char>>>>;

/// The model of the cells of a record that may have failed to read.
pub open spec fn cells_view(cells: Option<Vec<String>>) -> Option<Seq<Seq<char>>> {
    match cells {
        Some(v) => Some(texts(v@)),
        None => None,
    }
}

/// The model of a list of records.
pub open spec fn records_view(records: Seq<Option<Vec<String>>>) -> Seq<Option<Seq<Seq<char>>>> {
    records.map_values(|r: Option<Vec<String>>| cells_view(r))
}

/// `csv::Reader::headers`, on a reader over `bytes` that expects a header row
/// and accepts records of any number of fields. The cells are copied out as
/// strings; an error of the reader becomes `None`. The result depends on the
/// bytes alone, and is what the contracts call `csv_header`.
#[verifier::external_body]
fn read_header(bytes: &[u8]) -> (header: Option<Vec<String>>)
    ensures
        cells_view(header) == csv_header(bytes@),
{
    let mut reader =
        csv::ReaderBuilder::new().flexible(true).has_headers(true).from_reader(bytes);
    reader.headers().ok().map(|cells| cells.iter().map(|cell| cell.to_string()).collect())
}

/// `csv::Reader::records`, on a reader over `bytes` that expects a header row
/// and accepts records of any number of fields. Each record's cells are
/// copied out as strings; a record that the reader reports as an error
/// becomes `None`. The result depends on the bytes alone, and is what the
/// contracts call `csv_records`.
#[verifier::external_body]
fn read_records(bytes: &[u8]) -> (records: Vec<Option<Vec<String>>>)
    ensures
        records_view(records@) == csv_records(bytes@),
{
    let mut reader =
        csv::ReaderBuilder::new().flexible(true).has_headers(true).from_reader(bytes);
    reader.records().map(
        |record| record.ok().map(|cells| cells.iter().map(|cell| cell.to_string()).collect()),
    ).collect()
}

/// A transaction candidate: one usable row of an export.
#[derive(Debug, Clone)]
pub struct ParsedRow {
    pub date: String,
    pub description: String,
    pub amount: i64,
}

/// The model of a [`ParsedRow`].
pub struct ParsedRowView {
    pub date: Seq<char>,
    pub description: Seq<char>,
    pub amount: int,
}

impl View for ParsedRow {
    type V = ParsedRowView;

    open spec fn view(&self) -> ParsedRowView {
        ParsedRowView {
            date: self.date@,
            description: self.description@,
            amount: self.amount as int,
        }
    }
}

/// A column that every export must have.
#[derive(Debug, Clone, Copy, PartialEq, Eq, Structural)]
pub enum Column {
    Date,
    Description,
}

/// Why an import failed as a whole.
#[derive(Debug, Clone, Copy, PartialEq, Eq, Structural)]
pub enum ImportError {
    /// The header row could not be read.
    MissingHeader,
    /// No column of the header is the given mandatory one.
    MissingColumn(Column),
    /// No row of the export is usable.
    NoUsableRows,
}

impl ImportError {
    /// The failure in words.
    pub fn message(&self) -> (text: String)
        ensures
            text@ == match self {
                ImportError::MissingHeader => "CSV missing header row"@,
                ImportError::MissingColumn(Column::Date) => "CSV missing date column"@,
                ImportError::MissingColumn(Column::Description) => "CSV missing description column"@,
                ImportError::NoUsableRows => "CSV produced zero rows"@,
            },
    {
        match self {
            ImportError::MissingHeader => "CSV missing header row".to_owned(),
            ImportError::MissingColumn(Column::Date) => "CSV missing date column".to_owned(),
            ImportError::MissingColumn(Column::Description) => {
                "CSV missing description column".to_owned()
            },
            ImportError::NoUsableRows => "CSV produced zero rows".to_owned(),
        }
    }
}

/// The views of a sequence of string slices.
pub open spec fn strs(v: Seq<&str>) -> Seq<Seq<char>> {
    v.map_values(|s: &str| s@)
}

/// The form in which a header cell is compared: trimmed, in lowercase.
pub open spec fn header_key(cell: Seq<char>) -> Seq<char> {
    unicode_lowercase(trim(cell))
}

/// Whether a header satisfies a candidate name: by being it, or, where that
/// is not asked, by containing it.
pub open spec fn satisfies(header: Seq<char>, candidate: Seq<char>, exact: bool) -> bool {
    if exact {
        header == candidate
    } else {
        contains_text(header, candidate)
    }
}

/// The first header at or after `from` that satisfies `candidate`.
pub open spec fn first_hit(
    headers: Seq<Seq<char>>,
    candidate: Seq<char>,
    exact: bool,
    from: int,
) -> Option<int>
    decreases headers.len() - from,
{
    if from < 0 || from >= headers.len() {
        None
    } else if satisfies(headers[from], candidate, exact) {
        Some(from)
    } else {
        first_hit(headers, candidate, exact, from + 1)
    }
}

/// The column of the first candidate at or after `from` that some header
/// satisfies.
pub open spec fn candidate_hit(
    headers: Seq<Seq<char>>,
    candidates: Seq<Seq<char>>,
    exact: bool,
    from: int,
) -> Option<int>
    decreases candidates.len() - from,
{
    if from < 0 || from >= candidates.len() {
        None
    } else if first_hit(headers, candidates[from], exact, 0) is Some {
        first_hit(headers, candidates[from], exact, 0)
    } else {
        candidate_hit(headers, candidates, exact, from + 1)
    }
}

/// The column that a list of candidate names picks: the candidates are tried
/// in order for a header that is the name; only if none is found, they are
/// tried in order again for a header that contains the name.
pub open spec fn column_index(headers: Seq<Seq<char>>, candidates: Seq<Seq<char>>) -> Option<int> {
    if candidate_hit(headers, candidates, true, 0) is Some {
        candidate_hit(headers, candidates, true, 0)
    } else {
        candidate_hit(headers, candidates, false, 0)
    }
}

/// The first header at or after `from` that satisfies `candidate`.
fn first_header(headers: &[String], candidate: &Vec<char>, exact: bool) -> (r: Option<usize>)
    ensures
        match r {
            Some(i) => first_hit(texts(headers@), candidate@, exact, 0) == Some(i as int) && i
                < headers@.len(),
            None => first_hit(texts(headers@), candidate@, exact, 0) is None,
        },
{
    let mut i: usize = 0;
    while i < headers.len()
        invariant
            i <= headers@.len(),
            first_hit(texts(headers@), candidate@, exact, 0) == first_hit(
                texts(headers@),
                candidate@,
                exact,
                i as int,
            ),
        decreases headers.len() - i,
    {
        let header = chars_of(headers[i].as_str());
        assert(texts(headers@)[i as int] == header@);
        let hit = if exact {
            same_chars(&header, candidate)
        } else {
            contains_chars(&header, candidate)
        };
        if hit {
            return Some(i);
        }
        i += 1;
    }
    None
}

/// The column of the first candidate that some header satisfies.
fn first_candidate(headers: &[String], candidates: &[&str], exact: bool) -> (r: Option<usize>)
    ensures
        match r {
            Some(i) => candidate_hit(texts(headers@), strs(candidates@), exact, 0) == Some(
                i as int,
            ) && i < headers@.len(),
            None => candidate_hit(texts(headers@), strs(candidates@), exact, 0) is None,
        },
{
    let mut k: usize = 0;
    while k < candidates.len()
        invariant
            k <= candidates@.len(),
            candidate_hit(texts(headers@), strs(candidates@), exact, 0) == candidate_hit(
                texts(headers@),
                strs(candidates@),
                exact,
                k as int,
            ),
        decreases candidates.len() - k,
    {
        let candidate = chars_of(candidates[k]);
        assert(strs(candidates@)[k as int] == candidate@);
        match first_header(headers, &candidate, exact) {
            Some(i) => {
                return Some(i);
            },
            None => {},
        }
        k += 1;
    }
    None
}

/// Finds the column for a logical field among the headers, which are
/// expected trimmed and in lowercase.
///
/// The candidate names are tried in order for a header that is exactly the
/// name. If no candidate finds one, they are tried in order again for a
/// header that contains the name.
pub fn find_index(headers: &[String], candidates: &[&str]) -> (r: Option<usize>)
    ensures
        match r {
            Some(i) => column_index(texts(headers@), strs(candidates@)) == Some(i as int) && i
                < headers@.len(),
            None => column_index(texts(headers@), strs(candidates@)) is None,
        },
{
    match first_candidate(headers, candidates, true) {
        Some(i) => Some(i),
        None => first_candidate(headers, candidates, false),
    }
}

/// Where the fields of a transaction stand in a record.
#[derive(Debug, Clone, Copy)]
pub struct Layout {
    pub date: usize,
    pub description: usize,
    pub amount: Option<usize>,
    pub debit: Option<usize>,
    pub credit: Option<usize>,
}

/// The model of a [`Layout`].
pub struct LayoutView {
    pub date: int,
    pub description: int,
    pub amount: Option<int>,
    pub debit: Option<int>,
    pub credit: Option<int>,
}

/// The model of an optional column.
pub open spec fn column_view(o: Option<usize>) -> Option<int> {
    match o {
        Some(i) => Some(i as int),
        None => None,
    }
}

impl View for Layout {
    type V = LayoutView;

    open spec fn view(&self) -> LayoutView {
        LayoutView {
            date: self.date as int,
            description: self.description as int,
            amount: column_view(self.amount),
            debit: column_view(self.debit),
            credit: column_view(self.credit),
        }
    }
}

/// The names under which the date column goes.
pub open spec fn date_names() -> Seq<Seq<char>> {
    seq!["date"@, "transaction date"@, "posted date"@]
}

/// The names under which the description column goes.
pub open spec fn description_names() -> Seq<Seq<char>> {
    seq!["description"@, "memo"@, "details"@, "name"@, "transaction description"@]
}

/// The names under which the column of signed amounts goes.
pub open spec fn amount_names() -> Seq<Seq<char>> {
    seq!["amount"@, "transaction amount"@]
}

/// The names under which the column of money going out goes.
pub open spec fn debit_names() -> Seq<Seq<char>> {
    seq!["debit"@]
}

/// The names under which the column of money coming in goes.
pub open spec fn credit_names() -> Seq<Seq<char>> {
    seq!["credit"@]
}

/// The header cells in the form in which they are compared.
pub open spec fn header_keys_of(cells: Seq<Seq<char>>) -> Seq<Seq<char>> {
    cells.map_values(|cell: Seq<char>| header_key(cell))
}

/// The layout that a header row gives, or the mandatory column that it
/// lacks. The date column is looked for first.
pub open spec fn layout_of(keys: Seq<Seq<char>>) -> Result<LayoutView, ImportError> {
    match column_index(keys, date_names()) {
        None => Err(ImportError::MissingColumn(Column::Date)),
        Some(date) => match column_index(keys, description_names()) {
            None => Err(ImportError::MissingColumn(Column::Description)),
            Some(description) => Ok(
                LayoutView {
                    date,
                    description,
                    amount: column_index(keys, amount_names()),
                    debit: column_index(keys, debit_names()),
                    credit: column_index(keys, credit_names()),
                },
            ),
        },
    }
}

/// The amount in the cell at `idx`; zero where the record has no such cell.
pub open spec fn cell_units(cells: Seq<Seq<char>>, idx: int) -> Option<int> {
    if 0 <= idx < cells.len() {
        amount_units(cells[idx])
    } else {
        Some(0)
    }
}

/// The amount on one side of a debit and credit pair; zero where the export
/// has no column for that side.
pub open spec fn side_units(cells: Seq<Seq<char>>, column: Option<int>) -> Option<int> {
    match column {
        Some(idx) => cell_units(cells, idx),
        None => Some(0),
    }
}

/// The signed amount of a record: that of the amount column where the export
/// has one, else credit minus debit. `None` where a cell that is looked at
/// holds no readable amount.
pub open spec fn row_units(cells: Seq<Seq<char>>, layout: LayoutView) -> Option<int> {
    match layout.amount {
        Some(idx) => cell_units(cells, idx),
        None => match (side_units(cells, layout.debit), side_units(cells, layout.credit)) {
            (Some(debit), Some(credit)) => Some(credit - debit),
            _ => None,
        },
    }
}

/// The date of a record in canonical form; `None` where the record has no
/// date cell, or a blank one.
pub open spec fn row_date(cells: Seq<Seq<char>>, layout: LayoutView) -> Option<Seq<char>> {
    if 0 <= layout.date < cells.len() && trim(cells[layout.date]).len() > 0 {
        Some(normalized_date(trim(cells[layout.date])))
    } else {
        None
    }
}

/// The description of a record: its trimmed description cell, or the word
/// `Transaction` where that is missing or blank.
pub open spec fn row_description(cells: Seq<Seq<char>>, layout: LayoutView) -> Seq<char> {
    if 0 <= layout.description < cells.len() && trim(cells[layout.description]).len() > 0 {
        trim(cells[layout.description])
    } else {
        "Transaction"@
    }
}

/// The candidate that a record gives; `None` for a record that is skipped:
/// one that could not be read, one without a date, one without a readable
/// amount.
pub open spec fn row_of(record: Option<Seq<Seq<char>>>, layout: LayoutView) -> Option<
    ParsedRowView,
> {
    match record {
        None => None,
        Some(cells) => match (row_date(cells, layout), row_units(cells, layout)) {
            (Some(date), Some(amount)) => Some(
                ParsedRowView { date, description: row_description(cells, layout), amount },
            ),
            _ => None,
        },
    }
}

/// The candidates that a list of records gives, in the order of the records.
pub open spec fn usable_rows(records: Seq<Option<Seq<Seq<char>>>>, layout: LayoutView) -> Seq<
    ParsedRowView,
>
    decreases records.len(),
{
    if records.len() == 0 {
        Seq::empty()
    } else {
        let rest = usable_rows(records.drop_last(), layout);
        match row_of(records.last(), layout) {
            Some(row) => rest.push(row),
            None => rest,
        }
    }
}

/// What an export normalizes to: its usable rows, or the reason why the
/// import fails as a whole.
pub open spec fn normalized(
    header: Option<Seq<Seq<char>>>,
    records: Seq<Option<Seq<Seq<char>>>>,
) -> Result<Seq<ParsedRowView>, ImportError> {
    match header {
        None => Err(ImportError::MissingHeader),
        Some(cells) => match layout_of(header_keys_of(cells)) {
            Err(e) => Err(e),
            Ok(layout) => {
                let rows = usable_rows(records, layout);
                if rows.len() == 0 {
                    Err(ImportError::NoUsableRows)
                } else {
                    Ok(rows)
                }
            },
        },
    }
}

/// The models of a sequence of candidates.
pub open spec fn rows_view(rows: Seq<ParsedRow>) -> Seq<ParsedRowView> {
    rows.map_values(|row: ParsedRow| row@)
}

/// The model of the outcome of an import.
pub open spec fn import_view(r: Result<Vec<ParsedRow>, ImportError>) -> Result<
    Seq<ParsedRowView>,
    ImportError,
> {
    match r {
        Ok(rows) => Ok(rows_view(rows@)),
        Err(e) => Err(e),
    }
}

/// The header cells in the form in which they are compared.
pub fn header_keys(header: &Vec<String>) -> (keys: Vec<String>)
    ensures
        texts(keys@) == header_keys_of(texts(header@)),
{
    let mut keys: Vec<String> = Vec::new();
    let mut i: usize = 0;
    while i < header.len()
        invariant
            i <= header.len(),
            texts(keys@) == header_keys_of(texts(header@)).take(i as int),
        decreases header.len() - i,
    {
        let cell = chars_of(header[i].as_str());
        let trimmed = text_of(&trim_chars(&cell));
        let key = to_lowercase(trimmed.as_str());
        proof {
            let target = header_keys_of(texts(header@));
            assert(texts(header@)[i as int] == cell@);
            assert(target[i as int] == key@);
            assert(target.take(i + 1) == target.take(i as int).push(target[i as int]));
            assert(texts(keys@.push(key)) == texts(keys@).push(key@));
        }
        keys.push(key);
        i += 1;
    }
    assert(header_keys_of(texts(header@)).take(header.len() as int) == header_keys_of(
        texts(header@),
    ));
    keys
}

/// Works out from the header cells, trimmed and in lowercase, which column
/// is which.
pub fn layout(keys: &Vec<String>) -> (r: Result<Layout, ImportError>)
    ensures
        match r {
            Ok(found) => layout_of(texts(keys@)) == Ok::<LayoutView, ImportError>(found@),
            Err(e) => layout_of(texts(keys@)) == Err::<LayoutView, ImportError>(e),
        },
{
    let date_candidates = ["date", "transaction date", "posted date"];
    let description_candidates =
        ["description", "memo", "details", "name", "transaction description"];
    let amount_candidates = ["amount", "transaction amount"];
    let debit_candidates = ["debit"];
    let credit_candidates = ["credit"];
    assert(strs(date_candidates@) == date_names());
    assert(strs(description_candidates@) == description_names());
    assert(strs(amount_candidates@) == amount_names());
    assert(strs(debit_candidates@) == debit_names());
    assert(strs(credit_candidates@) == credit_names());
    let date = match find_index(keys.as_slice(), date_candidates.as_slice()) {
        Some(i) => i,
        None => {
            return Err(ImportError::MissingColumn(Column::Date));
        },
    };
    let description = match find_index(keys.as_slice(), description_candidates.as_slice()) {
        Some(i) => i,
        None => {
            return Err(ImportError::MissingColumn(Column::Description));
        },
    };
    let amount = find_index(keys.as_slice(), amount_candidates.as_slice());
    let debit = find_index(keys.as_slice(), debit_candidates.as_slice());
    let credit = find_index(keys.as_slice(), credit_candidates.as_slice());
    Ok(Layout { date, description, amount, debit, credit })
}

/// The amount in the cell at `idx`; zero where the record has no such cell.
fn cell_amount(cells: &Vec<String>, idx: usize) -> (r: Option<i64>)
    ensures
        match r {
            Some(v) => cell_units(texts(cells@), idx as int) == Some(v as int) && -AMOUNT_LIMIT
                < v < AMOUNT_LIMIT,
            None => cell_units(texts(cells@), idx as int) is None,
        },
{
    if idx < cells.len() {
        assert(texts(cells@)[idx as int] == cells@[idx as int]@);
        parse_amount(cells[idx].as_str())
    } else {
        Some(0)
    }
}

/// The amount on one side of a debit and credit pair.
fn side_amount(cells: &Vec<String>, column: Option<usize>) -> (r: Option<i64>)
    ensures
        match r {
            Some(v) => side_units(texts(cells@), column_view(column)) == Some(v as int)
                && -AMOUNT_LIMIT < v < AMOUNT_LIMIT,
            None => side_units(texts(cells@), column_view(column)) is None,
        },
{
    match column {
        Some(idx) => cell_amount(cells, idx),
        None => Some(0),
    }
}

/// The candidate that one record gives, if the record is usable.
pub fn parse_row(record: &Option<Vec<String>>, layout: &Layout) -> (r: Option<ParsedRow>)
    ensures
        match r {
            Some(row) => row_of(cells_view(*record), layout@) == Some(row@),
            None => row_of(cells_view(*record), layout@) is None,
        },
{
    let cells = match record {
        Some(cells) => cells,
        None => {
            return None;
        },
    };
    let ghost model = texts(cells@);
    if layout.date >= cells.len() {
        return None;
    }
    assert(model[layout.date as int] == cells@[layout.date as int]@);
    let date_cell = trim_chars(&chars_of(cells[layout.date].as_str()));
    if date_cell.len() == 0 {
        return None;
    }
    let date = match parse_date(&date_cell) {
        Some(day) => text_of(&iso_chars(day)),
        None => text_of(&date_cell),
    };
    let mut description = "Transaction".to_owned();
    if layout.description < cells.len() {
        assert(model[layout.description as int] == cells@[layout.description as int]@);
        let cell = trim_chars(&chars_of(cells[layout.description].as_str()));
        if cell.len() > 0 {
            description = text_of(&cell);
        }
    }
    let amount = match layout.amount {
        Some(idx) => cell_amount(cells, idx),
        None => match (side_amount(cells, layout.debit), side_amount(cells, layout.credit)) {
            (Some(debit), Some(credit)) => Some(credit - debit),
            _ => None,
        },
    };
    match amount {
        Some(amount) => Some(ParsedRow { date, description, amount }),
        None => None,
    }
}

/// Normalizes an export that was already cut into cells.
///
/// `header` is the header row, or `None` if it could not be read; `records`
/// are the records after it, `None` standing for one that could not be read.
/// The result holds one candidate for every usable record, in the order of
/// the records. The import fails if the header could not be read, if it
/// lacks the date or the description column, or if no record is usable.
pub fn normalize_table(header: Option<Vec<String>>, records: Vec<Option<Vec<String>>>) -> (r:
    Result<Vec<ParsedRow>, ImportError>)
    ensures
        import_view(r) == normalized(cells_view(header), records_view(records@)),
{
    let cells = match header {
        Some(cells) => cells,
        None => {
            return Err(ImportError::MissingHeader);
        },
    };
    let keys = header_keys(&cells);
    let found = match layout(&keys) {
        Ok(found) => found,
        Err(e) => {
            return Err(e);
        },
    };
    let ghost all = records_view(records@);
    let mut rows: Vec<ParsedRow> = Vec::new();
    let mut i: usize = 0;
    assert(all.take(0) == Seq::<Option<Seq<Seq<char>>>>::empty());
    assert(rows_view(rows@) == Seq::<ParsedRowView>::empty());
    while i < records.len()
        invariant
            i <= records.len(),
            all == records_view(records@),
            rows_view(rows@) == usable_rows(all.take(i as int), found@),
        decreases records.len() - i,
    {
        assert(all.take(i + 1).drop_last() == all.take(i as int));
        assert(all.take(i + 1).last() == cells_view(records@[i as int]));
        match parse_row(&records[i], &found) {
            Some(row) => {
                assert(rows_view(rows@.push(row)) == rows_view(rows@).push(row@));
                rows.push(row);
            },
            None => {},
        }
        i += 1;
    }
    assert(all.take(records.len() as int) == all);
    if rows.len() == 0 {
        Err(ImportError::NoUsableRows)
    } else {
        Ok(rows)
    }
}

/// Normalizes the bytes of a bank export into transaction candidates.
///
/// The export must have a header row with a date and a description column.
/// Rows that cannot be read, that have no date or no readable amount are
/// skipped; the import fails only if no row is left.
pub fn parse_csv(bytes: &[u8]) -> (r: Result<Vec<ParsedRow>, ImportError>)
    ensures
        import_view(r) == normalized(csv_header(bytes@), csv_records(bytes@)),
{
    let header = read_header(bytes);
    let records = read_records(bytes);
    normalize_table(header, records)
}

} // verus!
