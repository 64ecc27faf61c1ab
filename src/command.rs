use vstd::prelude::*;
use crate::codec::CodecError;
use crate::row::{Row, RowView};
use crate::table::{insert_result, InsertError, Table};

verus! {

/// What a line that starts with `.` asks for.
#[derive(Clone, Copy, Debug, PartialEq, Eq, Structural)]
pub enum MetaCommand {
    /// `.exit` or `.quit`: end the shell.
    MetaCommandExit,
    /// Any other line that starts with `.`.
    MetaCommandUnrecognizedCommand,
}

/// The kind of a parsed statement.
#[derive(Clone, Copy, Debug, PartialEq, Eq, Structural)]
pub enum StatementType {
    StatementInsert,
    StatementSelect,
}

/// A parsed statement: its kind, and for an insert the row to store.
#[derive(Clone, Debug)]
pub struct Statement {
    pub stype: StatementType,
    pub row_to_insert: Option<Row>,
}

/// What parsing a statement line gives.
#[derive(Clone, Debug)]
pub enum PrepareResult {
    PrepareSuccess(Statement),
    /// An insert without its three values, or with an id that is not a number.
    PrepareSyntaxError,
    /// A line that starts with no known keyword.
    PrepareUnrecognizedStatement,
}

/// What executing a statement gives, for the shell to report.
#[derive(Clone, Copy, Debug, PartialEq, Eq, Structural)]
pub enum ExecutionResult {
    Success,
    TableFull,
    CodecFailure(CodecError),
}

/// A character of Unicode's White_Space property, which separates words.
pub open spec fn is_space_spec(c: char) -> bool {
    let u = c as u32;
    ||| 0x09 <= u <= 0x0D
    ||| u == 0x20
    ||| u == 0x85
    ||| u == 0xA0
    ||| u == 0x1680
    ||| 0x2000 <= u <= 0x200A
    ||| u == 0x2028
    ||| u == 0x2029
    ||| u == 0x202F
    ||| u == 0x205F
    ||| u == 0x3000
}

/// Whether a character separates words.
pub fn is_space(c: char) -> (r: bool)
    ensures
        r == is_space_spec(c),
{
    let u = c as u32;
    (0x09 <= u && u <= 0x0D) || u == 0x20 || u == 0x85 || u == 0xA0 || u == 0x1680 || (0x2000
        <= u && u <= 0x200A) || u == 0x2028 || u == 0x2029 || u == 0x202F || u == 0x205F || u
        == 0x3000
}

/// The words of `s`: its maximal runs of characters that are not white
/// space, in order. Each character either separates, extends the word that
/// the previous character belongs to, or starts a new word.
pub open spec fn words_of(s: Seq<char>) -> Seq<Seq<char>>
    decreases s.len(),
{
    if s.len() == 0 {
        Seq::empty()
    } else {
        let w = words_of(s.drop_last());
        let c = s.last();
        if is_space_spec(c) {
            w
        } else if s.len() >= 2 && !is_space_spec(s[s.len() - 2]) {
            w.update(w.len() - 1, w.last().push(c))
        } else {
            w.push(seq![c])
        }
    }
}

/// Splits a line into its words.
pub fn split_words(line: &str) -> (r: Vec<String>)
    ensures
        r@.map_values(|w: String| w@) == words_of(line@),
{
    let len = line.unicode_len();
    let mut done: Vec<String> = Vec::new();
    let mut start: usize = 0;
    let mut i: usize = 0;
    while i < len
        invariant
            len == line@.len(),
            start <= i <= len,
            (i > 0 && !is_space_spec(line@[i - 1])) ==> start < i && words_of(line@.take(i as int))
                == done@.map_values(|w: String| w@).push(line@.subrange(start as int, i as int)),
            !(i > 0 && !is_space_spec(line@[i - 1])) ==> words_of(line@.take(i as int))
                == done@.map_values(|w: String| w@),
        decreases len - i,
    {
        let c = line.get_char(i);
        let ghost t = line@.take(i + 1);
        let ghost prev = done@.map_values(|w: String| w@);
        proof {
            assert(t.drop_last() =~= line@.take(i as int));
            assert(t.last() == c);
        }
        let in_word = i > 0 && !is_space(line.get_char(i - 1));
        if is_space(c) {
            if in_word {
                let w = line.substring_char(start, i).to_owned();
                done.push(w);
                assert(done@.map_values(|w: String| w@) =~= prev.push(
                    line@.subrange(start as int, i as int),
                ));
            }
        } else {
            if !in_word {
                start = i;
                assert(line@.subrange(start as int, i + 1) =~= seq![c]);
            } else {
                assert(t[t.len() - 2] == line@[i - 1]);
                assert(line@.subrange(start as int, i + 1) =~= line@.subrange(
                    start as int,
                    i as int,
                ).push(c));
                assert(prev.push(line@.subrange(start as int, i as int)).update(
                    prev.len() as int,
                    line@.subrange(start as int, i + 1),
                ) =~= prev.push(line@.subrange(start as int, i + 1)));
            }
        }
        i = i + 1;
    }
    let ghost before_last = done@.map_values(|w: String| w@);
    if len > 0 && !is_space(line.get_char(len - 1)) {
        let w = line.substring_char(start, len).to_owned();
        done.push(w);
        assert(done@.map_values(|w: String| w@) =~= before_last.push(
            line@.subrange(start as int, len as int),
        ));
    }
    assert(line@.take(len as int) =~= line@);
    done
}

/// What a meta-command line asks for.
pub open spec fn meta_spec(line: Seq<char>) -> MetaCommand {
    if line == ".exit"@ || line == ".quit"@ {
        MetaCommand::MetaCommandExit
    } else {
        MetaCommand::MetaCommandUnrecognizedCommand
    }
}

/// Whether a line is a meta-command: it starts with `.`.
pub fn is_meta_command(line: &str) -> (r: bool)
    ensures
        r == (line@.len() > 0 && line@[0] == '.'),
{
    line.unicode_len() > 0 && line.get_char(0) == '.'
}

/// Reads a meta-command line.
pub fn do_meta_command(line: &str) -> (r: MetaCommand)
    ensures
        r == meta_spec(line@),
{
    let l = line.to_owned();
    if l == ".exit".to_owned() || l == ".quit".to_owned() {
        MetaCommand::MetaCommandExit
    } else {
        MetaCommand::MetaCommandUnrecognizedCommand
    }
}

pub open spec fn is_digit(c: char) -> bool {
    '0' <= c <= '9'
}

/// The number that a string of decimal digits writes.
pub open spec fn decimal_value(s: Seq<char>) -> nat
    decreases s.len(),
{
    if s.len() == 0 {
        0
    } else {
        decimal_value(s.drop_last()) * 10 + (s.last() as nat - '0' as nat) as nat
    }
}

/// The number that one or more decimal digits write, where it fits in a `u64`.
pub open spec fn digits_spec(s: Seq<char>) -> Option<u64> {
    if s.len() > 0 && (forall|i: int| 0 <= i < s.len() ==> is_digit(#[trigger] s[i]))
        && decimal_value(s) <= u64::MAX {
        Some(decimal_value(s) as u64)
    } else {
        None
    }
}

/// A word without the one `+` sign it may start with.
pub open spec fn unsigned_part(s: Seq<char>) -> Seq<char> {
    if s.len() > 0 && s[0] == '+' {
        s.drop_first()
    } else {
        s
    }
}

/// The id that a word gives: an optional `+`, then one or more decimal digits
/// whose value fits in a `u64`.
pub open spec fn parse_id_spec(s: Seq<char>) -> Option<u64> {
    digits_spec(unsigned_part(s))
}

proof fn lemma_prefix_value_le(s: Seq<char>, k: int)
    requires
        0 <= k <= s.len(),
        forall|i: int| 0 <= i < s.len() ==> is_digit(#[trigger] s[i]),
    ensures
        decimal_value(s.take(k)) <= decimal_value(s),
    decreases s.len() - k,
{
    if k < s.len() {
        let t = s.take(k + 1);
        assert(t.drop_last() =~= s.take(k));
        assert(is_digit(s[k]));
        lemma_prefix_value_le(s, k + 1);
    } else {
        assert(s.take(k) =~= s);
    }
}

/// Reads an id: an optional `+`, then decimal digits.
pub fn parse_id(word: &str) -> (r: Option<u64>)
    ensures
        r == parse_id_spec(word@),
{
    let len = word.unicode_len();
    let start: usize = if len > 0 && word.get_char(0) == '+' {
        1
    } else {
        0
    };
    assert(word@.subrange(start as int, len as int) =~= unsigned_part(word@));
    parse_digits(word, start, len)
}

/// Reads the decimal digits of `word` from character `start` to its end.
fn parse_digits(word: &str, start: usize, len: usize) -> (r: Option<u64>)
    requires
        len == word@.len(),
        start <= len,
    ensures
        r == digits_spec(word@.subrange(start as int, len as int)),
{
    let ghost s = word@.subrange(start as int, len as int);
    if start == len {
        return None;
    }
    let mut acc: u64 = 0;
    let mut i: usize = start;
    while i < len
        invariant
            len == word@.len(),
            start <= i <= len,
            s == word@.subrange(start as int, len as int),
            acc == decimal_value(s.take(i - start)),
            forall|j: int| 0 <= j < i - start ==> is_digit(#[trigger] s[j]),
        decreases len - i,
    {
        let c = word.get_char(i);
        assert(c == s[i - start]);
        if !('0' <= c && c <= '9') {
            return None;
        }
        let d = (c as u32 - '0' as u32) as u64;
        let ghost t = s.take(i - start + 1);
        proof {
            assert(t.drop_last() =~= s.take(i - start));
        }
        match acc.checked_mul(10) {
            Some(m) => match m.checked_add(d) {
                Some(v) => {
                    acc = v;
                },
                None => {
                    proof {
                        lemma_digits_then_overflow(s, i - start);
                    }
                    return None;
                },
            },
            None => {
                proof {
                    lemma_digits_then_overflow(s, i - start);
                }
                return None;
            },
        }
        i = i + 1;
    }
    assert(s.take(len - start) =~= s);
    Some(acc)
}

/// Once a prefix of the digits overflows, either a later character is not a
/// digit or the whole value overflows too.
proof fn lemma_digits_then_overflow(s: Seq<char>, i: int)
    requires
        0 <= i < s.len(),
        decimal_value(s.take(i + 1)) > u64::MAX,
    ensures
        digits_spec(s) is None,
{
    if forall|j: int| 0 <= j < s.len() ==> is_digit(#[trigger] s[j]) {
        lemma_prefix_value_le(s, i + 1);
    }
}

/// `r` is what parsing a line with these words gives: no words or an unknown
/// first word is unrecognized; `select` needs nothing more; `insert` needs an
/// id, a username and an email after it, and words past those are ignored.
pub open spec fn prepared(words: Seq<Seq<char>>, r: PrepareResult) -> bool {
    if words.len() > 0 && words[0] == "select"@ {
        r matches PrepareResult::PrepareSuccess(st) && st.stype == StatementType::StatementSelect
            && st.row_to_insert is None
    } else if words.len() > 0 && words[0] == "insert"@ {
        if words.len() < 4 || parse_id_spec(words[1]) is None {
            r is PrepareSyntaxError
        } else {
            r matches PrepareResult::PrepareSuccess(st) && st.stype
                == StatementType::StatementInsert && (st.row_to_insert matches Some(row) && row@
                == (RowView {
                id: parse_id_spec(words[1]),
                username: Some(words[2]),
                email: Some(words[3]),
            }))
        }
    } else {
        r is PrepareUnrecognizedStatement
    }
}

/// Parses a statement from its words.
pub fn prepare_words(words: &Vec<String>) -> (r: PrepareResult)
    ensures
        prepared(words@.map_values(|w: String| w@), r),
{
    let ghost ws = words@.map_values(|w: String| w@);
    if words.len() == 0 {
        return PrepareResult::PrepareUnrecognizedStatement;
    }
    if words[0] == "select".to_owned() {
        return PrepareResult::PrepareSuccess(
            Statement { stype: StatementType::StatementSelect, row_to_insert: None },
        );
    }
    if words[0] != "insert".to_owned() {
        return PrepareResult::PrepareUnrecognizedStatement;
    }
    if words.len() < 4 {
        return PrepareResult::PrepareSyntaxError;
    }
    match parse_id(words[1].as_str()) {
        Some(id) => {
            let row = Row::new(id, words[2].clone(), words[3].clone());
            PrepareResult::PrepareSuccess(
                Statement { stype: StatementType::StatementInsert, row_to_insert: Some(row) },
            )
        },
        None => PrepareResult::PrepareSyntaxError,
    }
}

/// Parses a statement line.
pub fn prepare_statement(line: &str) -> (r: PrepareResult)
    ensures
        prepared(words_of(line@), r),
{
    let words = split_words(line);
    prepare_words(&words)
}

/// What the shell reports for the outcome of an insert.
pub open spec fn execution_of(r: Result<(), InsertError>) -> ExecutionResult {
    match r {
        Ok(_) => ExecutionResult::Success,
        Err(InsertError::TableFull) => ExecutionResult::TableFull,
        Err(InsertError::Codec(e)) => ExecutionResult::CodecFailure(e),
    }
}

/// The row an insert statement carries; one with no row carries no field.
pub open spec fn insert_payload(st: Statement) -> RowView {
    match st.row_to_insert {
        Some(row) => row@,
        None => RowView { id: None, username: None, email: None },
    }
}

/// Runs a statement against the table. An insert stores its row and returns
/// no rows; a select changes nothing and returns every stored row, in order.
pub fn execute_statement(statement: &Statement, table: &mut Table) -> (r: (
    ExecutionResult,
    Vec<Row>,
))
    requires
        old(table).wf(),
    ensures
        final(table).wf(),
        statement.stype == StatementType::StatementInsert ==> {
            let res = insert_result(old(table)@.len(), insert_payload(*statement));
            &&& r.0 == execution_of(res)
            &&& res is Ok ==> final(table)@ == old(table)@.push(
                crate::table::stored(insert_payload(*statement)),
            )
            &&& res is Err ==> *final(table) == *old(table)
            &&& r.1@.len() == 0
        },
        statement.stype == StatementType::StatementSelect ==> {
            &&& r.0 == ExecutionResult::Success
            &&& *final(table) == *old(table)
            &&& r.1@.len() == old(table)@.len()
            &&& forall|i: int| 0 <= i < r.1@.len() ==> (#[trigger] r.1@[i])@ == old(table)@[i]
        },
{
    match statement.stype {
        StatementType::StatementInsert => {
            let res = match &statement.row_to_insert {
                Some(row) => table.insert_row(row),
                None => table.insert_row(&Row { id: None, username: None, email: None }),
            };
            let out = match res {
                Ok(()) => ExecutionResult::Success,
                Err(InsertError::TableFull) => ExecutionResult::TableFull,
                Err(InsertError::Codec(e)) => ExecutionResult::CodecFailure(e),
            };
            (out, Vec::new())
        },
        StatementType::StatementSelect => (ExecutionResult::Success, table.select_all()),
    }
}

} // verus!
