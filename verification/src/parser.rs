//! The format of a benchmark file.
//!
//! A file starts with two header lines. The first names the pallet and the
//! extrinsic and says how many steps and repeats were measured:
//!
//! ```txt
//! Pallet: "balances", Extrinsic: "set_balance", Lowest values: [], Highest values: [], Steps: [10], Repeat: 10
//! ```
//!
//! The second names the columns of what follows, the input variables first:
//!
//! ```txt
//! u,e,extrinsic_time,storage_root_time
//! ```
//!
//! After the header comes one line of numbers per measurement. The first
//! line that is not such a row ends the measurements, whatever follows it.

use crate::extrinsic::{trials_of, texts_of, ExtrinsicResult, Operation, StepRepeatEntry, Trial};
use crate::file_collector::FileContent;
use crate::text::{
    all_fit, cut, cuts, line_spans, lines_of, parse_u64, parse_usize, same_text, split,
    split_spans, tiles, to_chars, u64_of, usize_of, word_spans, words_of, Delimiter, Span,
};
use vstd::prelude::*;

verus! {

/// Why a file is not a benchmark result.
#[derive(Debug, Clone, Copy, PartialEq, Eq)]
pub enum AnalyserError {
    /// One of the two header lines is not there.
    MissingHeader,
    /// A header line is there and does not read as it must.
    InvalidHeader,
}

impl AnalyserError {
    /// The error in words.
    pub fn message(&self) -> (text: String)
        ensures
            text@ == match *self {
                AnalyserError::MissingHeader => {
                    "header value of the benchmark result is missing"@
                },
                AnalyserError::InvalidHeader => {
                    "header value of the benchmark result is invalid"@
                },
            },
    {
        match self {
            AnalyserError::MissingHeader => {
                "header value of the benchmark result is missing".to_owned()
            },
            AnalyserError::InvalidHeader => {
                "header value of the benchmark result is invalid".to_owned()
            },
        }
    }
}

/// What a key and its value in the first header line must be, and what the
/// value then holds: the key is `key_name`, the value opens with `val_start`
/// and closes with `val_end`, the two sharing no character, and what stands
/// between the two is handed back as it is.
pub open spec fn required_value(
    key: Seq<char>,
    val: Seq<char>,
    key_name: Seq<char>,
    val_start: Seq<char>,
    val_end: Seq<char>,
) -> Option<Seq<char>> {
    if key == key_name && val_start.len() + val_end.len() <= val.len() && val.take(
        val_start.len() as int,
    ) == val_start && val.skip(val.len() - val_end.len()) == val_end {
        Some(val.subrange(val_start.len() as int, val.len() - val_end.len()))
    } else {
        None
    }
}

/// `Ok` where the requirement holds, the error of an invalid header where
/// it does not.
pub fn check(holds: bool) -> (res: Result<(), AnalyserError>)
    ensures
        holds ==> res == Ok::<(), AnalyserError>(()),
        !holds ==> res == Err::<(), AnalyserError>(AnalyserError::InvalidHeader),
{
    if !holds {
        return Err(AnalyserError::InvalidHeader);
    }
    Ok(())
}

/// Checks a key of the first header line and its value, both given as spans
/// of `text`, and hands back the span of what the value holds.
pub fn check_requirements(
    text: &Vec<char>,
    input_key: Span,
    input_val: Span,
    key_name: &str,
    val_start: &str,
    val_end: &str,
) -> (res: Result<Span, AnalyserError>)
    requires
        input_key.fits(text@.len()),
        input_val.fits(text@.len()),
    ensures
        match res {
            Ok(inner) => inner.fits(text@.len()) && required_value(
                cut(text@, input_key),
                cut(text@, input_val),
                key_name@,
                val_start@,
                val_end@,
            ) == Some(cut(text@, inner)),
            Err(e) => e == AnalyserError::InvalidHeader && required_value(
                cut(text@, input_key),
                cut(text@, input_val),
                key_name@,
                val_start@,
                val_end@,
            ) is None,
        },
{
    let key_name = to_chars(key_name);
    let val_start = to_chars(val_start);
    let val_end = to_chars(val_end);
    let ghost val = cut(text@, input_val);
    check(same_text(text, input_key, &key_name))?;
    let len = input_val.end - input_val.start;
    check(val_start.len() <= len && val_end.len() <= len - val_start.len())?;
    let opening = Span { start: input_val.start, end: input_val.start + val_start.len() };
    let closing = Span { start: input_val.end - val_end.len(), end: input_val.end };
    proof {
        assert(cut(text@, opening) =~= val.take(val_start@.len() as int));
        assert(cut(text@, closing) =~= val.skip(val.len() - val_end@.len()));
    }
    check(same_text(text, opening, &val_start))?;
    check(same_text(text, closing, &val_end))?;
    let inner = Span { start: opening.end, end: closing.start };
    proof {
        assert(cut(text@, inner) =~= val.subrange(
            val_start@.len() as int,
            val.len() - val_end@.len(),
        ));
    }
    Ok(inner)
}

/// What the first header line says.
pub struct Summary {
    pub pallet: Seq<char>,
    pub extrinsic: Seq<char>,
    pub steps: usize,
    pub repeats: usize,
}

/// What the first header line says, if it reads as it must: fourteen words,
/// of which the first four name the pallet and the extrinsic, each between
/// double quotes and followed by a comma, and the last four give the steps,
/// in square brackets and followed by a comma, and the repeats, bare.
pub open spec fn summary_of(line: Seq<char>) -> Option<Summary> {
    let words = words_of(line);
    if words.len() != 14 {
        None
    } else {
        let pallet = required_value(words[0], words[1], "Pallet:"@, "\""@, "\","@);
        let extrinsic = required_value(words[2], words[3], "Extrinsic:"@, "\""@, "\","@);
        let steps = required_value(words[10], words[11], "Steps:"@, "["@, "],"@);
        let repeats = required_value(words[12], words[13], "Repeat:"@, ""@, ""@);
        if pallet is Some && extrinsic is Some && steps is Some && usize_of(steps->0) is Some
            && repeats is Some && usize_of(repeats->0) is Some {
            Some(
                Summary {
                    pallet: pallet->0,
                    extrinsic: extrinsic->0,
                    steps: usize_of(steps->0)->0,
                    repeats: usize_of(repeats->0)->0,
                },
            )
        } else {
            None
        }
    }
}

/// How many of `columns` stand before the first that reads `stop`; all of
/// them if none does.
pub open spec fn columns_before(columns: Seq<Seq<char>>, stop: Seq<char>) -> nat
    decreases columns.len(),
{
    if columns.len() == 0 || columns[0] == stop {
        0
    } else {
        1 + columns_before(columns.drop_first(), stop)
    }
}

/// The names of the input variables that the second header line gives, if it
/// reads as it must: more than two columns, separated by commas, among them
/// `extrinsic_time` and `storage_root_time`, and before the first
/// `extrinsic_time` only names of one character. Those are the names.
pub open spec fn input_names_of(line: Seq<char>) -> Option<Seq<Seq<char>>> {
    let columns = split(line, Delimiter::Exactly(','));
    let count = columns_before(columns, "extrinsic_time"@);
    if columns.len() > 2 && columns.contains("extrinsic_time"@) && columns.contains(
        "storage_root_time"@,
    ) && (forall|i: int| 0 <= i < count ==> (#[trigger] columns[i]).len() == 1) {
        Some(columns.take(count as int))
    } else {
        None
    }
}

/// What the two header lines of `text` say, or why they say nothing. The
/// first line is judged before the second is looked for.
pub open spec fn parsed_header(text: Seq<char>) -> Result<Operation, AnalyserError> {
    let lines = lines_of(text);
    if lines.len() < 1 {
        Err(AnalyserError::MissingHeader)
    } else if summary_of(lines[0]) is None {
        Err(AnalyserError::InvalidHeader)
    } else if lines.len() < 2 {
        Err(AnalyserError::MissingHeader)
    } else if input_names_of(lines[1]) is None {
        Err(AnalyserError::InvalidHeader)
    } else {
        let summary = summary_of(lines[0])->0;
        Ok(
            Operation {
                pallet: summary.pallet,
                extrinsic: summary.extrinsic,
                steps: summary.steps,
                repeats: summary.repeats,
                input_var_names: input_names_of(lines[1])->0,
                trials: Seq::<Trial>::empty(),
            },
        )
    }
}

/// Where the first header line keeps what it says.
struct SummarySpans {
    pallet: Span,
    extrinsic: Span,
    steps: usize,
    repeats: usize,
}

/// Reads the first header line, given as a span of `text`.
fn read_summary(text: &Vec<char>, line: Span) -> (res: Result<SummarySpans, AnalyserError>)
    requires
        line.fits(text@.len()),
    ensures
        match res {
            Ok(found) => found.pallet.fits(text@.len()) && found.extrinsic.fits(text@.len())
                && summary_of(cut(text@, line)) == Some(
                Summary {
                    pallet: cut(text@, found.pallet),
                    extrinsic: cut(text@, found.extrinsic),
                    steps: found.steps,
                    repeats: found.repeats,
                },
            ),
            Err(e) => e == AnalyserError::InvalidHeader && summary_of(cut(text@, line)) is None,
        },
{
    let parts = word_spans(text, line);
    let ghost words = cuts(text@, parts@);
    check(parts.len() == 14)?;
    proof {
        assert(forall|i: int| 0 <= i < 14 ==> (#[trigger] parts@[i]).fits(text@.len()));
        assert(forall|i: int| 0 <= i < 14 ==> #[trigger] words[i] == cut(text@, parts@[i]));
    }
    let pallet = check_requirements(text, parts[0], parts[1], "Pallet:", "\"", "\",")?;
    let extrinsic = check_requirements(text, parts[2], parts[3], "Extrinsic:", "\"", "\",")?;
    let steps = check_requirements(text, parts[10], parts[11], "Steps:", "[", "],")?;
    let steps = match parse_usize(text, steps) {
        Some(steps) => steps,
        None => {
            return Err(AnalyserError::InvalidHeader);
        },
    };
    let repeats = check_requirements(text, parts[12], parts[13], "Repeat:", "", "")?;
    let repeats = match parse_usize(text, repeats) {
        Some(repeats) => repeats,
        None => {
            return Err(AnalyserError::InvalidHeader);
        },
    };
    Ok(SummarySpans { pallet, extrinsic, steps, repeats })
}

/// Counting the columns before the first `stop` comes to `count` where
/// none of the first `count` columns reads `stop` and the next one, if there
/// is one, does.
pub proof fn lemma_columns_before(columns: Seq<Seq<char>>, stop: Seq<char>, count: int)
    requires
        0 <= count <= columns.len(),
        forall|j: int| 0 <= j < count ==> columns[j] != stop,
        count < columns.len() ==> columns[count] == stop,
    ensures
        columns_before(columns, stop) == count,
    decreases count,
{
    if count > 0 {
        let rest = columns.drop_first();
        assert forall|j: int| 0 <= j < count - 1 implies rest[j] != stop by {
            assert(rest[j] == columns[j + 1]);
        }
        lemma_columns_before(rest, stop, count - 1);
    }
}

/// Reads the second header line, given as a span of `text`, and hands back
/// the span of each input variable's name.
fn read_input_names(text: &Vec<char>, line: Span) -> (res: Result<Vec<Span>, AnalyserError>)
    requires
        line.fits(text@.len()),
    ensures
        match res {
            Ok(names) => all_fit(names@, text@.len()) && names@.len() + 2 <= usize::MAX
                && input_names_of(cut(text@, line)) == Some(cuts(text@, names@)),
            Err(e) => e == AnalyserError::InvalidHeader && input_names_of(cut(text@, line))
                is None,
        },
{
    let columns = split_spans(text, line, Delimiter::Exactly(','));
    let ghost cols = cuts(text@, columns@);
    check(columns.len() > 2)?;
    let extrinsic_time = to_chars("extrinsic_time");
    let storage_root_time = to_chars("storage_root_time");

    let mut count: usize = 0;
    let mut found = false;
    while count < columns.len() && !found
        invariant
            line.fits(text@.len()),
            all_fit(columns@, text@.len()),
            cols == cuts(text@, columns@),
            extrinsic_time@ == "extrinsic_time"@,
            count <= columns@.len(),
            forall|j: int| 0 <= j < count ==> cols[j] != "extrinsic_time"@,
            found ==> count < columns@.len() && cols[count as int] == "extrinsic_time"@,
        decreases columns@.len() - count + if found { 0int } else { 1int },
    {
        proof {
            assert(columns@[count as int].fits(text@.len()));
        }
        if same_text(text, columns[count], &extrinsic_time) {
            found = true;
        } else {
            count = count + 1;
        }
    }
    proof {
        lemma_columns_before(cols, "extrinsic_time"@, count as int);
    }
    check(found)?;

    let mut i: usize = 0;
    let mut timed = false;
    while i < columns.len() && !timed
        invariant
            all_fit(columns@, text@.len()),
            cols == cuts(text@, columns@),
            storage_root_time@ == "storage_root_time"@,
            i <= columns@.len(),
            forall|j: int| 0 <= j < i ==> cols[j] != "storage_root_time"@,
            timed ==> cols.contains("storage_root_time"@),
        decreases columns@.len() - i + if timed { 0int } else { 1int },
    {
        proof {
            assert(columns@[i as int].fits(text@.len()));
        }
        if same_text(text, columns[i], &storage_root_time) {
            timed = true;
            proof {
                assert(cols[i as int] == "storage_root_time"@);
            }
        } else {
            i = i + 1;
        }
    }
    check(timed)?;

    let mut names: Vec<Span> = Vec::new();
    let mut k: usize = 0;
    proof {
        reveal(tiles);
    }
    while k < count
        invariant
            line.fits(text@.len()),
            all_fit(columns@, text@.len()),
            tiles(columns@, line.start as int, line.end as int),
            cols == cuts(text@, columns@),
            cols == split(cut(text@, line), Delimiter::Exactly(',')),
            columns_before(cols, "extrinsic_time"@) == count,
            k <= count < columns@.len(),
            columns@[k as int].start == line.start + 2 * k,
            forall|j: int| 0 <= j < k ==> (#[trigger] cols[j]).len() == 1,
            names@ == columns@.take(k as int),
        decreases count - k,
    {
        let column = columns[k];
        proof {
            reveal(tiles);
            assert(columns@[k as int].fits(text@.len()));
            assert(cols[k as int].len() == column.end - column.start);
            assert(columns@[k as int].end + 1 == columns@[k as int + 1].start);
        }
        if column.end - column.start != 1 {
            return Err(AnalyserError::InvalidHeader);
        }
        names.push(column);
        proof {
            assert(names@ =~= columns@.take(k + 1));
        }
        k = k + 1;
    }
    proof {
        assert(columns@[count as int].fits(text@.len()));
        assert(cols[count as int] == "extrinsic_time"@);
        assert(cols.contains("extrinsic_time"@));
        assert(cuts(text@, names@) =~= cols.take(count as int));
        assert forall|j: int| 0 <= j < names@.len() implies (#[trigger] names@[j]).fits(
            text@.len(),
        ) by {
            assert(columns@[j].fits(text@.len()));
        }
    }
    Ok(names)
}

/// Reads the two header lines of a benchmark file.
///
/// The result names the pallet and the extrinsic, gives the steps and the
/// repeats, and names the input variables. It holds no measurements.
pub fn parse_header(content: &FileContent) -> (res: Result<ExtrinsicResult, AnalyserError>)
    ensures
        match res {
            Ok(result) => parsed_header(content@) == Ok::<Operation, AnalyserError>(result@),
            Err(e) => parsed_header(content@) == Err::<Operation, AnalyserError>(e),
        },
{
    let source = content.0.as_str();
    let text = to_chars(source);
    let lines = line_spans(&text);
    let ghost all = cuts(text@, lines@);

    if lines.len() < 1 {
        return Err(AnalyserError::MissingHeader);
    }
    proof {
        assert(lines@[0].fits(text@.len()));
        assert(all[0] == cut(text@, lines@[0]));
    }
    let summary = read_summary(&text, lines[0])?;

    if lines.len() < 2 {
        return Err(AnalyserError::MissingHeader);
    }
    proof {
        assert(lines@[1].fits(text@.len()));
        assert(all[1] == cut(text@, lines@[1]));
    }
    let spans = read_input_names(&text, lines[1])?;

    let pallet = summary.pallet;
    let pallet = source.substring_char(pallet.start, pallet.end).to_owned();
    let extrinsic = summary.extrinsic;
    let extrinsic = source.substring_char(extrinsic.start, extrinsic.end).to_owned();
    let mut names: Vec<String> = Vec::new();
    let mut i: usize = 0;
    while i < spans.len()
        invariant
            source@ == text@,
            all_fit(spans@, text@.len()),
            i <= spans@.len(),
            names@.len() == i,
            texts_of(names@) == cuts(text@, spans@).take(i as int),
        decreases spans@.len() - i,
    {
        let span = spans[i];
        proof {
            assert(spans@[i as int].fits(text@.len()));
        }
        let name = source.substring_char(span.start, span.end).to_owned();
        let ghost before = names@;
        names.push(name);
        proof {
            assert forall|j: int| 0 <= j < i + 1 implies texts_of(names@)[j] == cuts(
                text@,
                spans@,
            ).take(i + 1)[j] by {
                if j < i {
                    assert(texts_of(before)[j] == cuts(text@, spans@).take(i as int)[j]);
                }
            }
            assert(texts_of(names@) =~= cuts(text@, spans@).take(i + 1));
        }
        i = i + 1;
    }
    proof {
        assert(cuts(text@, spans@).take(i as int) =~= cuts(text@, spans@));
    }
    Ok(ExtrinsicResult::from_header(pallet, extrinsic, summary.steps, summary.repeats, names))
}

/// The measurement that a line stands for, if the line is a row: exactly
/// `expected_len` fields, separated by commas, at least two of them, and
/// each a number that fits in 64 bits. The last field is the storage root
/// time, the one before it the extrinsic time, and those before are the
/// values of the input variables.
pub open spec fn row_of(line: Seq<char>, expected_len: nat) -> Option<Trial> {
    let fields = split(line, Delimiter::Exactly(','));
    if fields.len() == expected_len && expected_len >= 2 && (forall|i: int|
        0 <= i < fields.len() ==> u64_of(#[trigger] fields[i]) is Some) {
        Some(
            Trial {
                input_vars: Seq::new((expected_len - 2) as nat, |i: int| u64_of(fields[i])->0),
                extrinsic_time: u64_of(fields[expected_len - 2])->0,
                storage_root_time: u64_of(fields[expected_len - 1])->0,
            },
        )
    } else {
        None
    }
}

/// The measurements of the rows that `lines` begins with, up to the first
/// line that is not a row.
pub open spec fn leading_rows(lines: Seq<Seq<char>>, expected_len: nat) -> Seq<Trial>
    decreases lines.len(),
{
    if lines.len() == 0 {
        Seq::<Trial>::empty()
    } else {
        match row_of(lines[0], expected_len) {
            None => Seq::<Trial>::empty(),
            Some(trial) => seq![trial] + leading_rows(lines.drop_first(), expected_len),
        }
    }
}

/// The lines of `text` after its two header lines.
pub open spec fn body_lines(text: Seq<char>) -> Seq<Seq<char>> {
    let lines = lines_of(text);
    if lines.len() >= 2 {
        lines.skip(2)
    } else {
        Seq::<Seq<char>>::empty()
    }
}

/// The measurements that `text` holds after its header, for rows of
/// `expected_len` fields.
pub open spec fn parsed_body(text: Seq<char>, expected_len: nat) -> Seq<Trial> {
    leading_rows(body_lines(text), expected_len)
}

/// What a benchmark file says, header and measurements, or why it says
/// nothing. A row has one field for each input variable that the header
/// names, and two more.
pub open spec fn parsed(text: Seq<char>) -> Result<Operation, AnalyserError> {
    match parsed_header(text) {
        Err(e) => Err(e),
        Ok(header) => Ok(
            header.with_trials(parsed_body(text, header.input_var_names.len() + 2)),
        ),
    }
}

/// The leading rows are the lines up to the first that is not a row, each
/// read as its measurement: nothing is left out before that line, and
/// nothing is taken from it on.
pub proof fn lemma_leading_rows_stop_at_first_other_line(
    lines: Seq<Seq<char>>,
    expected_len: nat,
)
    ensures
        leading_rows(lines, expected_len).len() <= lines.len(),
        forall|i: int|
            0 <= i < leading_rows(lines, expected_len).len() ==> row_of(
                #[trigger] lines[i],
                expected_len,
            ) == Some(leading_rows(lines, expected_len)[i]),
        leading_rows(lines, expected_len).len() < lines.len() ==> row_of(
            lines[leading_rows(lines, expected_len).len() as int],
            expected_len,
        ) is None,
    decreases lines.len(),
{
    if lines.len() > 0 && row_of(lines[0], expected_len) is Some {
        let rest = lines.drop_first();
        lemma_leading_rows_stop_at_first_other_line(rest, expected_len);
        let rows = leading_rows(lines, expected_len);
        assert forall|i: int| 0 <= i < rows.len() implies row_of(
            #[trigger] lines[i],
            expected_len,
        ) == Some(rows[i]) by {
            if i > 0 {
                assert(lines[i] == rest[i - 1]);
            }
        }
        if rows.len() < lines.len() {
            assert(lines[rows.len() as int] == rest[rows.len() - 1]);
        }
    }
}

/// Every measurement among the leading rows has `expected_len - 2` values
/// of input variables.
pub proof fn lemma_leading_rows_arity(lines: Seq<Seq<char>>, expected_len: nat)
    ensures
        forall|i: int|
            0 <= i < leading_rows(lines, expected_len).len() ==> (#[trigger] leading_rows(
                lines,
                expected_len,
            )[i]).input_vars.len() == expected_len - 2,
    decreases lines.len(),
{
    if lines.len() > 0 && row_of(lines[0], expected_len) is Some {
        let rest = leading_rows(lines.drop_first(), expected_len);
        let rows = leading_rows(lines, expected_len);
        lemma_leading_rows_arity(lines.drop_first(), expected_len);
        assert forall|i: int| 0 <= i < rows.len() implies (#[trigger] rows[i]).input_vars.len()
            == expected_len - 2 by {
            if i > 0 {
                assert(rows[i] == rest[i - 1]);
            }
        }
    }
}

/// In a file that parses, every measurement has one value for each input
/// variable that the header names.
pub proof fn lemma_parsed_rows_match_header(text: Seq<char>)
    requires
        parsed(text) is Ok,
    ensures
        parsed(text)->Ok_0.well_formed(),
{
    let header = parsed_header(text)->Ok_0;
    lemma_leading_rows_arity(body_lines(text), header.input_var_names.len() + 2);
}

/// Reads one line, given as a span of `text`, as a row of `expected_len`
/// fields.
fn read_row(text: &Vec<char>, line: Span, expected_len: usize) -> (res: Option<StepRepeatEntry>)
    requires
        line.fits(text@.len()),
    ensures
        match res {
            Some(entry) => row_of(cut(text@, line), expected_len as nat) == Some(entry@),
            None => row_of(cut(text@, line), expected_len as nat) is None,
        },
{
    let parts = split_spans(text, line, Delimiter::Exactly(','));
    let ghost fields = cuts(text@, parts@);
    // Must have the expected length: the variables and the two timings.
    if parts.len() != expected_len || parts.len() < 2 {
        return None;
    }
    let arity = expected_len - 2;
    let mut input_vars: Vec<u64> = Vec::new();
    let mut i: usize = 0;
    while i < arity
        invariant
            all_fit(parts@, text@.len()),
            fields == cuts(text@, parts@),
            fields == split(cut(text@, line), Delimiter::Exactly(',')),
            parts@.len() == expected_len,
            arity == expected_len - 2,
            i <= arity,
            input_vars@.len() == i,
            forall|j: int| 0 <= j < i ==> u64_of(#[trigger] fields[j]) == Some(input_vars@[j]),
        decreases arity - i,
    {
        proof {
            assert(parts@[i as int].fits(text@.len()));
            assert(fields[i as int] == cut(text@, parts@[i as int]));
        }
        match parse_u64(text, parts[i]) {
            Some(value) => {
                input_vars.push(value);
            },
            None => {
                return None;
            },
        }
        i = i + 1;
    }
    proof {
        assert(parts@[arity as int].fits(text@.len()));
        assert(parts@[arity + 1].fits(text@.len()));
        assert(fields[arity as int] == cut(text@, parts@[arity as int]));
        assert(fields[arity + 1] == cut(text@, parts@[arity + 1]));
    }
    let extrinsic_time = match parse_u64(text, parts[arity]) {
        Some(value) => value,
        None => {
            return None;
        },
    };
    let storage_root_time = match parse_u64(text, parts[arity + 1]) {
        Some(value) => value,
        None => {
            return None;
        },
    };
    proof {
        assert forall|j: int| 0 <= j < fields.len() implies u64_of(#[trigger] fields[j])
            is Some by {
            if j < arity {
                assert(u64_of(fields[j]) == Some(input_vars@[j]));
            }
        }
        assert(input_vars@ =~= Seq::new(arity as nat, |j: int| u64_of(fields[j])->0));
    }
    Some(StepRepeatEntry { input_vars, extrinsic_time, storage_root_time })
}

/// Reads the measurements of a benchmark file: the rows of `expected_len`
/// fields that follow its two header lines, up to the first line that is not
/// such a row. Never fails.
pub fn parse_body(content: &FileContent, expected_len: usize) -> (res: Result<
    Vec<StepRepeatEntry>,
    AnalyserError,
>)
    ensures
        res is Ok,
        trials_of(res->Ok_0@) == parsed_body(content@, expected_len as nat),
        forall|i: int|
            0 <= i < res->Ok_0@.len() ==> (#[trigger] res->Ok_0@[i]).input_vars@.len()
                == expected_len - 2,
{
    let text = to_chars(content.0.as_str());
    let lines = line_spans(&text);
    let ghost all = cuts(text@, lines@);
    let ghost body = body_lines(content@);
    let mut coll: Vec<StepRepeatEntry> = Vec::new();
    if lines.len() < 2 {
        proof {
            assert(trials_of(coll@) =~= parsed_body(content@, expected_len as nat));
        }
        return Ok(coll);
    }
    let mut i: usize = 2;
    let mut ended = false;
    proof {
        assert(all.skip(2) =~= body);
        assert(trials_of(coll@) + leading_rows(all.skip(2), expected_len as nat)
            =~= leading_rows(body, expected_len as nat));
    }
    while i < lines.len() && !ended
        invariant
            all_fit(lines@, text@.len()),
            all == cuts(text@, lines@),
            2 <= i <= lines@.len(),
            !ended ==> trials_of(coll@) + leading_rows(all.skip(i as int), expected_len as nat)
                == parsed_body(content@, expected_len as nat),
            ended ==> trials_of(coll@) == parsed_body(content@, expected_len as nat),
        decreases lines@.len() - i + if ended { 0int } else { 1int },
    {
        let ghost rest = all.skip(i as int);
        let ghost before = coll@;
        proof {
            assert(lines@[i as int].fits(text@.len()));
            assert(rest[0] == cut(text@, lines@[i as int]));
            assert(rest.drop_first() =~= all.skip(i + 1));
        }
        match read_row(&text, lines[i], expected_len) {
            Some(entry) => {
                coll.push(entry);
                proof {
                    assert(trials_of(coll@) =~= trials_of(before) + seq![entry@]);
                    assert(trials_of(coll@) + leading_rows(all.skip(i + 1), expected_len as nat)
                        =~= trials_of(before) + leading_rows(rest, expected_len as nat));
                }
                i = i + 1;
            },
            // A line that is no row ends the measurements.
            None => {
                ended = true;
                proof {
                    assert(trials_of(coll@) + leading_rows(rest, expected_len as nat)
                        =~= trials_of(coll@));
                }
            },
        }
    }
    proof {
        if !ended {
            assert(all.skip(i as int) =~= Seq::<Seq<char>>::empty());
            assert(trials_of(coll@) + leading_rows(all.skip(i as int), expected_len as nat)
                =~= trials_of(coll@));
        }
        lemma_leading_rows_arity(body, expected_len as nat);
        assert forall|k: int| 0 <= k < coll@.len() implies (#[trigger] coll@[k]).input_vars@.len()
            == expected_len - 2 by {
            assert(trials_of(coll@)[k] == coll@[k]@);
        }
    }
    Ok(coll)
}

} // verus!
