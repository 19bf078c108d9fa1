//! When rows of time tags are written to disk, and to which file.

use vstd::prelude::*;
use vstd::string::StringExecFns;

verus! {

pub struct TimeTagStreamParquetWriter {
    // The maximum number of total rows (records) that should be
    // collected before writing to disk.
    max_chunk_rows: usize,
    // The maximum number of total rows (records) that should be
    // allowed per file.
    max_file_rows: usize,
}

impl TimeTagStreamParquetWriter {
    pub closed spec fn chunk_limit(self) -> nat {
        self.max_chunk_rows as nat
    }

    pub closed spec fn file_limit(self) -> nat {
        self.max_file_rows as nat
    }

    /// How many full chunks a file has room for.
    pub open spec fn chunks_per_file(self) -> nat {
        self.file_limit() / self.chunk_limit()
    }

    /// A file has room for a chunk.
    pub open spec fn wf(self) -> bool {
        0 < self.chunk_limit() <= self.file_limit()
    }

    #[must_use]
    pub fn new() -> (writer: TimeTagStreamParquetWriter)
        ensures
            writer.wf(),
            writer.chunk_limit() == 20_000_000,
            writer.file_limit() == 200_000_000,
    {
        TimeTagStreamParquetWriter { max_chunk_rows: 20_000_000, max_file_rows: 200_000_000 }
    }

    /// With other limits. There is no such writer where a file has no room for a chunk.
    pub fn with_limits(max_chunk_rows: usize, max_file_rows: usize) -> (writer: Option<
        TimeTagStreamParquetWriter,
    >)
        ensures
            writer is Some <==> 0 < max_chunk_rows <= max_file_rows,
            writer matches Some(w) ==> w.wf() && w.chunk_limit() == max_chunk_rows
                && w.file_limit() == max_file_rows,
    {
        if 0 < max_chunk_rows && max_chunk_rows <= max_file_rows {
            Some(TimeTagStreamParquetWriter { max_chunk_rows, max_file_rows })
        } else {
            None
        }
    }

    pub fn max_chunk_rows(&self) -> (rows: usize)
        ensures
            rows == self.chunk_limit(),
    {
        self.max_chunk_rows
    }

    /// Takes account of one more row that was collected, and says what is to be done.
    pub fn add_row(&self, state: &mut WriterState) -> (step: WriterStep)
        requires
            self.wf(),
            old(state).wf(*self),
            old(state).total_files < usize::MAX,
        ensures
            final(state).wf(*self),
            (*final(state), step) == old(state).with_row(*self),
    {
        let max_chunk_count: usize = self.max_file_rows / self.max_chunk_rows;
        proof {
            lemma_chunks_fit(*self);
        }
        state.array_length = state.array_length + 1;
        if state.array_length < self.max_chunk_rows {
            return WriterStep::Collect;
        }
        state.array_length = 0;
        state.chunk_count = state.chunk_count + 1;
        if state.chunk_count < max_chunk_count {
            return WriterStep::WriteChunk;
        }
        state.chunk_count = 0;
        state.total_files = state.total_files + 1;
        WriterStep::WriteChunkAndNextFile
    }
}

impl Default for TimeTagStreamParquetWriter {
    fn default() -> (writer: Self)
        ensures
            writer.wf(),
            writer.chunk_limit() == 20_000_000,
            writer.file_limit() == 200_000_000,
    {
        Self::new()
    }
}

/// What is to be done after a row was collected.
#[derive(Clone, Copy, Debug, PartialEq, Eq, Structural)]
pub enum WriterStep {
    Collect,
    /// Write what was collected to the current file.
    WriteChunk,
    /// Write what was collected to the current file, close it and go on with another.
    WriteChunkAndNextFile,
}

/// How far the writing has come.
#[derive(Clone, Copy, Debug, PartialEq, Eq, Structural)]
pub struct WriterState {
    /// The rows collected since the last chunk.
    pub array_length: usize,
    /// The chunks in the current file.
    pub chunk_count: usize,
    pub total_files: usize,
}

impl WriterState {
    /// Neither the chunk nor the file is full.
    pub open spec fn wf(self, writer: TimeTagStreamParquetWriter) -> bool {
        &&& self.array_length < writer.chunk_limit()
        &&& self.chunk_count < writer.chunks_per_file()
        &&& self.total_files >= 1
    }

    /// What one more row leads to.
    pub open spec fn with_row(self, writer: TimeTagStreamParquetWriter) -> (
        WriterState,
        WriterStep,
    ) {
        if self.array_length + 1 < writer.chunk_limit() {
            (
                WriterState { array_length: (self.array_length + 1) as usize, ..self },
                WriterStep::Collect,
            )
        } else if self.chunk_count + 1 < writer.chunks_per_file() {
            (
                WriterState {
                    array_length: 0,
                    chunk_count: (self.chunk_count + 1) as usize,
                    ..self
                },
                WriterStep::WriteChunk,
            )
        } else {
            (
                WriterState {
                    array_length: 0,
                    chunk_count: 0,
                    total_files: (self.total_files + 1) as usize,
                },
                WriterStep::WriteChunkAndNextFile,
            )
        }
    }

    /// The rows of the current file, those that wait among them.
    pub open spec fn rows_in_file(self, writer: TimeTagStreamParquetWriter) -> int {
        self.chunk_count * writer.chunk_limit() + self.array_length
    }

    /// The rows of all files.
    pub open spec fn rows(self, writer: TimeTagStreamParquetWriter) -> int {
        (self.total_files - 1) * (writer.chunks_per_file() * writer.chunk_limit())
            + self.rows_in_file(writer)
    }

    /// The first file, with nothing in it.
    pub fn new(writer: &TimeTagStreamParquetWriter) -> (state: Self)
        requires
            writer.wf(),
        ensures
            state.wf(*writer),
            state == (WriterState { array_length: 0, chunk_count: 0, total_files: 1 }),
    {
        proof {
            lemma_chunks_fit(*writer);
        }
        Self { array_length: 0, chunk_count: 0, total_files: 1 }
    }

    /// Whether rows are left to be written at the end.
    pub fn has_remaining(&self) -> (remaining: bool)
        ensures
            remaining == (self.array_length > 0),
    {
        self.array_length > 0
    }
}

proof fn lemma_chunks_fit(writer: TimeTagStreamParquetWriter)
    requires
        writer.wf(),
    ensures
        1 <= writer.chunks_per_file(),
        writer.chunks_per_file() * writer.chunk_limit() <= writer.file_limit(),
{
    let chunk = writer.chunk_limit() as int;
    let file = writer.file_limit() as int;
    vstd::arithmetic::div_mod::lemma_fundamental_div_mod(file, chunk);
    vstd::arithmetic::div_mod::lemma_mod_bound(file, chunk);
    vstd::arithmetic::div_mod::lemma_div_is_ordered(chunk, file, chunk);
    assert(chunk / chunk == 1) by (nonlinear_arith)
        requires
            chunk > 0,
    ;
    assert(chunk * (file / chunk) == (file / chunk) * chunk) by (nonlinear_arith);
}

/// No more rows wait than a chunk may have, and no file gets more rows than it may have:
/// not when it goes on, and not when the row that fills it comes.
pub proof fn files_stay_small(writer: TimeTagStreamParquetWriter, state: WriterState)
    requires
        writer.wf(),
        state.wf(writer),
    ensures
        state.array_length + 1 <= writer.chunk_limit(),
        state.rows_in_file(writer) + 1 <= writer.file_limit(),
{
    lemma_chunks_fit(writer);
    let chunk = writer.chunk_limit() as int;
    let limit = writer.chunks_per_file() as int;
    let count = state.chunk_count as int;
    assert((count + 1) * chunk <= limit * chunk) by (nonlinear_arith)
        requires
            count + 1 <= limit,
            chunk >= 0,
    ;
    assert((count + 1) * chunk == count * chunk + chunk) by (nonlinear_arith);
}

/// Every row is counted once, in whichever file it comes.
pub proof fn every_row_counts_once(writer: TimeTagStreamParquetWriter, state: WriterState)
    requires
        writer.wf(),
        state.wf(writer),
        state.total_files < usize::MAX,
    ensures
        state.with_row(writer).0.rows(writer) == state.rows(writer) + 1,
{
    lemma_chunks_fit(writer);
    let chunk = writer.chunk_limit() as int;
    let limit = writer.chunks_per_file() as int;
    let count = state.chunk_count as int;
    let files = state.total_files as int;
    assert((count + 1) * chunk == count * chunk + chunk) by (nonlinear_arith);
    assert(files * (limit * chunk) == (files - 1) * (limit * chunk) + limit * chunk)
        by (nonlinear_arith);
    assert(0 * chunk == 0);
}

/// The decimal digit.
pub open spec fn digit(d: int) -> char {
    (('0' as int) + d) as char
}

/// The number in decimal digits.
pub open spec fn decimal(n: nat) -> Seq<char>
    decreases n,
{
    if n < 10 {
        seq![digit(n as int)]
    } else {
        decimal(n / 10).push(digit((n % 10) as int))
    }
}

/// That many zeros.
pub open spec fn zeros(n: nat) -> Seq<char> {
    Seq::new(n, |i: int| '0')
}

/// The number in decimal digits, with zeros in front to make it four digits at least.
pub open spec fn padded(n: nat) -> Seq<char> {
    let digits = decimal(n);
    if digits.len() < 4 {
        zeros((4 - digits.len()) as nat) + digits
    } else {
        digits
    }
}

fn append_digit(text: &mut String, d: usize)
    requires
        d < 10,
    ensures
        final(text)@ == old(text)@.push(digit(d as int)),
{
    proof {
        reveal_strlit("0");
        reveal_strlit("1");
        reveal_strlit("2");
        reveal_strlit("3");
        reveal_strlit("4");
        reveal_strlit("5");
        reveal_strlit("6");
        reveal_strlit("7");
        reveal_strlit("8");
        reveal_strlit("9");
    }
    let ghost before = text@;
    let figure = match d {
        0 => "0",
        1 => "1",
        2 => "2",
        3 => "3",
        4 => "4",
        5 => "5",
        6 => "6",
        7 => "7",
        8 => "8",
        _ => "9",
    };
    assert(figure@ =~= seq![digit(d as int)]);
    text.append(figure);
    assert(text@ =~= before.push(digit(d as int)));
}

fn append_decimal(text: &mut String, n: usize)
    ensures
        final(text)@ == old(text)@ + decimal(n as nat),
    decreases n,
{
    let ghost before = text@;
    if n >= 10 {
        append_decimal(text, n / 10);
    }
    append_digit(text, n % 10);
    assert(text@ =~= before + decimal(n as nat));
}

proof fn lemma_decimal_len(n: nat)
    ensures
        n < 10 ==> decimal(n).len() == 1,
        10 <= n < 100 ==> decimal(n).len() == 2,
        100 <= n < 1000 ==> decimal(n).len() == 3,
        n >= 1000 ==> decimal(n).len() >= 4,
{
    reveal_with_fuel(decimal, 5);
}

/// The name of the file with that number: when the run began, what it is called, and the
/// number.
pub fn file_name(timestamp: &str, name: &str, number: usize) -> (text: String)
    ensures
        text@ == timestamp@ + seq!['_'] + name@ + seq!['_'] + padded(number as nat) + ".parquet"@,
{
    proof {
        reveal_strlit("_");
        reveal_strlit("000");
        reveal_strlit("00");
        reveal_strlit("0");
        reveal_strlit("");
        lemma_decimal_len(number as nat);
    }
    let mut text = timestamp.to_owned();
    text.append("_");
    text.append(name);
    text.append("_");
    assert("_"@ =~= seq!['_']);
    let ghost before = text@;
    let zeros_in_front = if number < 10 {
        "000"
    } else if number < 100 {
        "00"
    } else if number < 1000 {
        "0"
    } else {
        ""
    };
    text.append(zeros_in_front);
    append_decimal(&mut text, number);
    assert(text@ =~= before + padded(number as nat)) by {
        let digits = decimal(number as nat);
        if digits.len() < 4 {
            assert(zeros_in_front@ =~= zeros((4 - digits.len()) as nat));
        } else {
            assert(zeros_in_front@ =~= seq![]);
        }
    }
    text.append(".parquet");
    text
}

/// Rows are written when a chunk of them is full, not before, and a file is closed when no more
/// chunk fits in it, not before.
pub proof fn chunks_and_files_are_filled(writer: TimeTagStreamParquetWriter, state: WriterState)
    requires
        writer.wf(),
        state.wf(writer),
    ensures
        ({
            let step = state.with_row(writer).1;
            let chunks = state.chunk_count + 1;
            &&& step is Collect <==> state.array_length + 1 < writer.chunk_limit()
            &&& step is WriteChunk ==> (chunks + 1) * writer.chunk_limit() <= writer.file_limit()
            &&& step is WriteChunkAndNextFile ==> chunks * writer.chunk_limit()
                <= writer.file_limit() && (chunks + 1) * writer.chunk_limit()
                > writer.file_limit()
        }),
{
    lemma_chunks_fit(writer);
    let chunk = writer.chunk_limit() as int;
    let file = writer.file_limit() as int;
    let limit = writer.chunks_per_file() as int;
    let chunks = state.chunk_count + 1;
    vstd::arithmetic::div_mod::lemma_fundamental_div_mod(file, chunk);
    vstd::arithmetic::div_mod::lemma_mod_bound(file, chunk);
    assert(chunk * (file / chunk) == limit * chunk) by (nonlinear_arith)
        requires
            limit == file / chunk,
    ;
    assert((limit + 1) * chunk == limit * chunk + chunk) by (nonlinear_arith);
    if chunks < limit {
        assert((chunks + 1) * chunk <= limit * chunk) by (nonlinear_arith)
            requires
                chunks + 1 <= limit,
                chunk >= 0,
        ;
    }
}

/// The number that the digits stand for.
pub open spec fn value_of(digits: Seq<char>) -> int
    decreases digits.len(),
{
    if digits.len() == 0 {
        0
    } else {
        10 * value_of(digits.drop_last()) + (digits.last() as int - '0' as int)
    }
}

/// All are decimal digits.
pub open spec fn are_digits(digits: Seq<char>) -> bool {
    forall|i: int| 0 <= i < digits.len() ==> '0' as int <= #[trigger] digits[i] as int <= '9' as int
}

/// The number of a file can be read off its name: the digits stand for it. There are at least
/// four, and no zero in front of more than four.
pub proof fn the_number_can_be_read(n: nat)
    ensures
        value_of(padded(n)) == n,
        are_digits(padded(n)),
        padded(n).len() >= 4,
        padded(n).len() > 4 ==> padded(n)[0] != '0',
{
    lemma_decimal_value(n);
    lemma_decimal_len(n);
    let digits = decimal(n);
    if digits.len() < 4 {
        lemma_zeros_in_front((4 - digits.len()) as nat, digits);
    }
}

proof fn lemma_decimal_value(n: nat)
    ensures
        value_of(decimal(n)) == n,
        are_digits(decimal(n)),
        decimal(n).len() >= 1,
        n > 0 ==> decimal(n)[0] != '0',
        n == 0 ==> decimal(n).len() == 1,
    decreases n,
{
    reveal_with_fuel(value_of, 2);
    if n < 10 {
        assert(decimal(n).drop_last() =~= seq![]);
    } else {
        lemma_decimal_value(n / 10);
        assert(decimal(n).drop_last() =~= decimal(n / 10));
    }
}

proof fn lemma_zeros_in_front(k: nat, digits: Seq<char>)
    ensures
        value_of(zeros(k) + digits) == value_of(digits),
    decreases digits.len(), k,
{
    let all = zeros(k) + digits;
    if digits.len() > 0 {
        assert(all.drop_last() =~= zeros(k) + digits.drop_last());
        lemma_zeros_in_front(k, digits.drop_last());
    } else if k > 0 {
        assert(all.drop_last() =~= zeros((k - 1) as nat) + digits);
        lemma_zeros_in_front((k - 1) as nat, digits);
        assert(all.last() == '0');
    } else {
        assert(all =~= digits);
    }
}

} // verus!
