//! Checks that a workbook has the layout the scheduler and the analyzer
//! read: the sheets of an input file, and the header and period column of a
//! schedule sheet, and what an uploaded file asks for.
use vstd::prelude::*;
use crate::analysis::concat;
use crate::preprocess::{join_spec, join_strings, views};
use crate::conflict_detection::seq_eq;
use crate::text::{
    chars_of, contains_text, has_substring, lowercase_of, nat_digits, to_lowercase, trim_spec, trim_text, usize_text,
};

verus! {

/// The columns a schedule sheet must have, as lower-case words that some
/// header cell must contain.
pub open spec fn required_columns() -> Seq<Seq<char>> {
    seq!["session"@, "room"@, "id"@, "title"@, "classification"@, "organizers"@, "speakers"@]
}

fn required_columns_exec() -> (r: Vec<&'static str>)
    ensures
        r@.map_values(|s: &str| s@) == required_columns(),
{
    let r = vec!["session", "room", "id", "title", "classification", "organizers", "speakers"];
    assert(r@.map_values(|s: &str| s@) =~= required_columns());
    r
}

/// A header cell as compared: trimmed, lower-cased.
pub open spec fn header_key(cell: Seq<char>) -> Seq<char> {
    lowercase_of(trim_spec(cell))
}

/// The header keys of a header row.
pub open spec fn header_keys(header: Seq<String>) -> Seq<Seq<char>> {
    header.map_values(|c: String| header_key(c@))
}

/// Some key contains `word`.
pub open spec fn column_found(keys: Seq<Seq<char>>, word: Seq<char>) -> bool {
    exists|i: int| 0 <= i < keys.len() && has_substring(#[trigger] keys[i], word)
}

/// The required columns among the first `end` that no key contains, in
/// order.
pub open spec fn missing_upto(keys: Seq<Seq<char>>, end: nat) -> Seq<Seq<char>>
    decreases end,
{
    if end == 0 {
        Seq::empty()
    } else {
        let prev = missing_upto(keys, (end - 1) as nat);
        let w = required_columns()[end - 1];
        if column_found(keys, w) {
            prev
        } else {
            prev.push(w)
        }
    }
}

/// The required columns that no key contains, in order.
pub open spec fn missing_columns(keys: Seq<Seq<char>>) -> Seq<Seq<char>> {
    missing_upto(keys, 7)
}

fn keys_of(header: &Vec<String>) -> (r: Vec<String>)
    ensures
        views(r@) == header_keys(header@),
{
    let mut r: Vec<String> = Vec::new();
    let mut i: usize = 0;
    while i < header.len()
        invariant
            i <= header@.len(),
            views(r@) == header_keys(header@).take(i as int),
        decreases header.len() - i,
    {
        let t = trim_text(header[i].as_str());
        let ghost prev = r@;
        let key = to_lowercase(t.as_str());
        assert(key@ == header_key(header@[i as int]@));
        r.push(key);
        assert(views(r@) =~= views(prev).push(header_key(header@[i as int]@)));
        i = i + 1;
        assert(views(r@) =~= header_keys(header@).take(i as int));
    }
    assert(header_keys(header@).take(i as int) =~= header_keys(header@));
    r
}

fn found_in(keys: &Vec<String>, word: &str) -> (r: bool)
    ensures
        r == column_found(views(keys@), word@),
{
    let mut i: usize = 0;
    while i < keys.len()
        invariant
            i <= keys@.len(),
            forall|j: int| 0 <= j < i ==> !has_substring(#[trigger] views(keys@)[j], word@),
        decreases keys.len() - i,
    {
        if contains_text(keys[i].as_str(), word) {
            assert(has_substring(views(keys@)[i as int], word@));
            return true;
        }
        i = i + 1;
    }
    false
}

fn missing_of(keys: &Vec<String>) -> (r: Vec<String>)
    ensures
        views(r@) == missing_columns(views(keys@)),
{
    let required = required_columns_exec();
    assert(required@.len() == required_columns().len());
    let mut r: Vec<String> = Vec::new();
    let mut k: usize = 0;
    while k < required.len()
        invariant
            k <= 7,
            required@.len() == 7,
            required@.map_values(|s: &str| s@) == required_columns(),
            views(r@) == missing_upto(views(keys@), k as nat),
        decreases required.len() - k,
    {
        let w = required[k];
        assert(w@ == required_columns()[k as int]);
        if !found_in(keys, w) {
            let ghost prev = r@;
            r.push(w.to_owned());
            assert(views(r@) =~= views(prev).push(w@));
        }
        k = k + 1;
    }
    r
}

/// What checking an uploaded schedule gives: it needs exactly one sheet,
/// a header and at least one data row, and every required column.
pub open spec fn schedule_layout_error(sheet_count: nat, rows: Seq<Vec<String>>) -> Option<Seq<char>> {
    if sheet_count != 1 {
        Some("File must contain exactly one sheet (no multiple sheets)"@)
    } else if rows.len() < 2 {
        Some("Sheet is empty or has no data rows"@)
    } else {
        let keys = header_keys(rows[0]@);
        let missing = missing_columns(keys);
        if missing.len() > 0 {
            Some("Missing required columns: "@ + join_spec(missing, ", "@) + ". Found: "@ + join_spec(keys, ", "@))
        } else {
            None
        }
    }
}

/// Checks the layout of an uploaded schedule: the number of sheets of the
/// workbook and the rows of its sheet, each cell as text.
pub fn check_schedule_layout(sheet_count: usize, rows: &Vec<Vec<String>>) -> (r: Result<(), String>)
    ensures
        match schedule_layout_error(sheet_count as nat, rows@) {
            Some(e) => r matches Err(m) && m@ == e,
            None => r is Ok,
        },
{
    if sheet_count != 1 {
        return Err("File must contain exactly one sheet (no multiple sheets)".to_owned());
    }
    if rows.len() < 2 {
        return Err("Sheet is empty or has no data rows".to_owned());
    }
    let keys = keys_of(&rows[0]);
    let missing = missing_of(&keys);
    if missing.len() > 0 {
        let a = concat("Missing required columns: ", join_strings(&missing, ", ").as_str());
        let b = concat(a.as_str(), ". Found: ");
        let c = concat(b.as_str(), join_strings(&keys, ", ").as_str());
        return Err(c);
    }
    Ok(())
}

/// What checking an input workbook gives: it needs a `Minisymposia` and a
/// `Contributed Lectures` sheet.
pub open spec fn input_sheets_error(names: Seq<Seq<char>>) -> Option<Seq<char>> {
    if !names.contains("Minisymposia"@) {
        Some("File must contain a 'Minisymposia' sheet"@)
    } else if !names.contains("Contributed Lectures"@) {
        Some("File must contain a 'Contributed Lectures' sheet"@)
    } else {
        None
    }
}

fn has_name(names: &Vec<String>, name: &str) -> (r: bool)
    ensures
        r == views(names@).contains(name@),
{
    let wanted = name.to_owned();
    let mut i: usize = 0;
    while i < names.len()
        invariant
            i <= names@.len(),
            wanted@ == name@,
            forall|j: int| 0 <= j < i ==> #[trigger] views(names@)[j] != name@,
        decreases names.len() - i,
    {
        if names[i] == wanted {
            assert(views(names@)[i as int] == name@);
            return true;
        }
        i = i + 1;
    }
    false
}

/// Checks that an input workbook, given its sheet names, has the two sheets
/// the scheduler reads.
pub fn check_input_sheets(names: &Vec<String>) -> (r: Result<(), String>)
    ensures
        match input_sheets_error(views(names@)) {
            Some(e) => r matches Err(m) && m@ == e,
            None => r is Ok,
        },
{
    if !has_name(names, "Minisymposia") {
        return Err("File must contain a 'Minisymposia' sheet".to_owned());
    }
    if !has_name(names, "Contributed Lectures") {
        return Err("File must contain a 'Contributed Lectures' sheet".to_owned());
    }
    Ok(())
}


/// Each word in double quotes, as `Debug` writes a string.
pub open spec fn quoted(words: Seq<Seq<char>>) -> Seq<Seq<char>> {
    words.map_values(|w: Seq<char>| "\""@ + w + "\""@)
}

/// Some of the data rows 1 to 5 has a first cell that names a period.
pub open spec fn periods_shown(rows: Seq<Vec<String>>) -> bool {
    exists|i: int|
        1 <= i < rows.len() && i <= 5 && rows[i]@.len() > 0 && (has_substring(
            #[trigger] rows[i]@[0]@,
            "First Period"@,
        ) || has_substring(rows[i]@[0]@, "Second Period"@))
}

/// What checking a written schedule gives: it needs exactly one sheet, a
/// header and at least one data row, every required column, and a period
/// name in the first cell of one of the first five data rows.
pub open spec fn output_layout_error(sheet_count: nat, rows: Seq<Vec<String>>) -> Option<Seq<char>> {
    if sheet_count != 1 {
        Some("Expected 1 sheet, found "@ + nat_digits(sheet_count))
    } else if rows.len() < 2 {
        Some("No data rows found"@)
    } else {
        let missing = missing_columns(header_keys(rows[0]@));
        if missing.len() > 0 {
            Some("Missing columns: ["@ + join_spec(quoted(missing), ", "@) + "]"@)
        } else if !periods_shown(rows) {
            Some("Session names don't contain 'First Period' or 'Second Period'"@)
        } else {
            None
        }
    }
}

fn quote_all(words: &Vec<String>) -> (r: Vec<String>)
    ensures
        views(r@) == quoted(views(words@)),
{
    let mut r: Vec<String> = Vec::new();
    let mut i: usize = 0;
    while i < words.len()
        invariant
            i <= words@.len(),
            views(r@) == quoted(views(words@)).take(i as int),
        decreases words.len() - i,
    {
        let a = concat("\"", words[i].as_str());
        let q = concat(a.as_str(), "\"");
        let ghost prev = r@;
        assert(q@ == quoted(views(words@))[i as int]);
        r.push(q);
        assert(views(r@) =~= views(prev).push(q@));
        i = i + 1;
        assert(views(r@) =~= quoted(views(words@)).take(i as int));
    }
    assert(quoted(views(words@)).take(i as int) =~= quoted(views(words@)));
    r
}

/// Checks the layout of a written schedule: the number of sheets of the
/// workbook and the rows of its sheet, each cell as text.
pub fn check_output_layout(sheet_count: usize, rows: &Vec<Vec<String>>) -> (r: Result<(), String>)
    ensures
        match output_layout_error(sheet_count as nat, rows@) {
            Some(e) => r matches Err(m) && m@ == e,
            None => r is Ok,
        },
{
    if sheet_count != 1 {
        return Err(concat("Expected 1 sheet, found ", usize_text(sheet_count).as_str()));
    }
    if rows.len() < 2 {
        return Err("No data rows found".to_owned());
    }
    let keys = keys_of(&rows[0]);
    let missing = missing_of(&keys);
    if missing.len() > 0 {
        let quoted_words = quote_all(&missing);
        let a = concat("Missing columns: [", join_strings(&quoted_words, ", ").as_str());
        return Err(concat(a.as_str(), "]"));
    }
    let mut found = false;
    let mut i: usize = 1;
    while i < rows.len() && i <= 5
        invariant
            1 <= i <= rows@.len(),
            i <= 6,
            found == exists|j: int|
                1 <= j < i && rows@[j]@.len() > 0 && (has_substring(
                    #[trigger] rows@[j]@[0]@,
                    "First Period"@,
                ) || has_substring(rows@[j]@[0]@, "Second Period"@)),
        decreases rows.len() - i,
    {
        let row = &rows[i];
        if row.len() > 0 {
            let first = row[0].as_str();
            if contains_text(first, "First Period") || contains_text(first, "Second Period") {
                found = true;
            }
        }
        i = i + 1;
    }
    if !found {
        return Err("Session names don't contain 'First Period' or 'Second Period'".to_owned());
    }
    Ok(())
}


// ===========================================================================
// Uploads
// ===========================================================================

/// `s` ends with `suffix`.
pub open spec fn ends_with(s: Seq<char>, suffix: Seq<char>) -> bool {
    suffix.len() <= s.len() && s.subrange(s.len() - suffix.len(), s.len() as int) == suffix
}

fn ends_with_chars(s: &Vec<char>, suffix: &Vec<char>) -> (r: bool)
    ensures
        r == ends_with(s@, suffix@),
{
    if suffix.len() > s.len() {
        return false;
    }
    let start = s.len() - suffix.len();
    let mut k: usize = 0;
    while k < suffix.len()
        invariant
            start + suffix@.len() == s@.len(),
            s@.len() == s.len(),
            suffix@.len() == suffix.len(),
            k <= suffix@.len(),
            forall|q: int| 0 <= q < k ==> s@[start + q] == suffix@[q],
        decreases suffix.len() - k,
    {
        if s[start + k] != suffix[k] {
            assert(s@.subrange(start as int, s@.len() as int)[k as int] != suffix@[k as int]);
            return false;
        }
        k = k + 1;
    }
    assert(s@.subrange(start as int, s@.len() as int) =~= suffix@);
    true
}

/// A workbook's file name: ending in `.xlsx` or `.xls`.
pub open spec fn workbook_name(name: Seq<char>) -> bool {
    ends_with(name, ".xlsx"@) || ends_with(name, ".xls"@)
}

/// The error an upload gets before it is stored: no file, or a file whose
/// name is not a workbook's; `None` when it can be stored.
pub fn upload_error(has_file: bool, file_name: &str) -> (r: Option<String>)
    ensures
        !has_file ==> (r matches Some(e) && e@ == "No file uploaded"@),
        has_file && !workbook_name(file_name@) ==> (r matches Some(e) && e@
            == "Invalid file format. Please upload an Excel file (.xlsx or .xls)"@),
        has_file && workbook_name(file_name@) ==> r is None,
{
    if !has_file {
        return Some("No file uploaded".to_owned());
    }
    let name = chars_of(file_name);
    if !ends_with_chars(&name, &chars_of(".xlsx")) && !ends_with_chars(&name, &chars_of(".xls")) {
        return Some("Invalid file format. Please upload an Excel file (.xlsx or .xls)".to_owned());
    }
    None
}

/// What an uploaded file is for.
#[derive(Clone, Copy, Debug, PartialEq, Eq, Structural)]
pub enum UploadMode {
    /// Analyse an uploaded schedule.
    Analyze,
    /// Generate a schedule from an uploaded input file.
    Generate,
}

/// The mode an upload names: `analyze` or `generate`; `None` for any
/// other (an invalid mode).
pub fn upload_mode(mode: &str) -> (r: Option<UploadMode>)
    ensures
        r == if mode@ == "analyze"@ {
            Some(UploadMode::Analyze)
        } else if mode@ == "generate"@ {
            Some(UploadMode::Generate)
        } else {
            None::<UploadMode>
        },
{
    let m = chars_of(mode);
    if seq_eq(&m, &chars_of("analyze")) {
        Some(UploadMode::Analyze)
    } else if seq_eq(&m, &chars_of("generate")) {
        Some(UploadMode::Generate)
    } else {
        None
    }
}

} // verus!
