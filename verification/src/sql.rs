//! A lexer for one-line `INSERT INTO ... VALUES (...),(...),...;` statements.
//!
//! One line of dump text is turned into a finite sequence of value rows,
//! each an ordered sequence of string fields. The lexer is a four-state
//! machine and does no schema validation: on a malformed statement it
//! simply stops yielding rows.

use vstd::prelude::*;
use crate::utils::chars_to_string;
use crate::utils::string_to_chars;

verus! {

/// The rows denoted by the rest of the line, seen from between rows:
/// `(` opens a row, `;` ends the statement, anything else is ignored.
pub open spec fn lex_between(s: Seq<char>, i: int) -> Seq<Seq<Seq<char>>>
    decreases s.len() - i, 0int,
{
    if !(0 <= i < s.len()) {
        seq![]
    } else if s[i] == '(' {
        lex_row(s, i + 1, seq![])
    } else if s[i] == ';' {
        seq![]
    } else {
        lex_between(s, i + 1)
    }
}

/// The rows denoted by the rest of the line, seen from inside a row whose
/// fields so far are `row`: `)` emits the row, `,` separates fields, a
/// quote opens a quoted field, `;` aborts, anything else opens a plain
/// field at the current position.
pub open spec fn lex_row(s: Seq<char>, i: int, row: Seq<Seq<char>>) -> Seq<Seq<Seq<char>>>
    decreases s.len() - i, 1int,
{
    if !(0 <= i < s.len()) {
        seq![]
    } else if s[i] == ';' {
        seq![]
    } else if s[i] == ')' {
        seq![row] + lex_between(s, i + 1)
    } else if s[i] == ',' {
        lex_row(s, i + 1, row)
    } else if s[i] == '\'' {
        lex_quoted(s, i + 1, i + 1, row, false)
    } else {
        lex_plain(s, i, i, row)
    }
}

/// Inside a plain field that started at `start`: `,` or `)` closes the
/// field (the delimiter is then handled as in a row), anything else
/// extends it.
pub open spec fn lex_plain(s: Seq<char>, start: int, i: int, row: Seq<Seq<char>>) -> Seq<
    Seq<Seq<char>>,
>
    decreases s.len() - i, 0int,
{
    if !(0 <= i < s.len()) {
        seq![]
    } else if s[i] == ',' {
        lex_row(s, i + 1, row.push(s.subrange(start, i)))
    } else if s[i] == ')' {
        seq![row.push(s.subrange(start, i))] + lex_between(s, i + 1)
    } else {
        lex_plain(s, start, i + 1, row)
    }
}

/// Inside a quoted field that started at `start`: a backslash escapes the
/// next character (which is copied, backslash included), an unescaped
/// quote closes the field, anything else extends it.
pub open spec fn lex_quoted(
    s: Seq<char>,
    start: int,
    i: int,
    row: Seq<Seq<char>>,
    esc: bool,
) -> Seq<Seq<Seq<char>>>
    decreases s.len() - i, 0int,
{
    if !(0 <= i < s.len()) {
        seq![]
    } else if esc {
        lex_quoted(s, start, i + 1, row, false)
    } else if s[i] == '\\' {
        lex_quoted(s, start, i + 1, row, true)
    } else if s[i] == '\'' {
        lex_row(s, i + 1, row.push(s.subrange(start, i)))
    } else {
        lex_quoted(s, start, i + 1, row, false)
    }
}

/// All value rows of one line.
pub open spec fn lex_line(s: Seq<char>) -> Seq<Seq<Seq<char>>> {
    lex_between(s, 0)
}

/// Escape handling in the lexer: a backslash inside a quoted field never
/// closes it; the backslash and the character after it (a quote included)
/// are both copied into the field, and lexing goes on past them.
pub proof fn lemma_escape_extends_field(s: Seq<char>, start: int, i: int, row: Seq<Seq<char>>)
    requires
        0 <= i,
        i + 1 < s.len(),
        s[i] == '\\',
    ensures
        lex_quoted(s, start, i, row, false) == lex_quoted(s, start, i + 2, row, false),
{
    assert(lex_quoted(s, start, i, row, false) == lex_quoted(s, start, i + 1, row, true));
    assert(lex_quoted(s, start, i + 1, row, true) == lex_quoted(s, start, i + 2, row, false));
}

enum LexState {
    BetweenRows,
    InRow,
    InPlainField,
    InQuotedField,
}

/// The `InsertParser` type: a restartable-per-line lexer over one line.
/// `next_value` yields the value rows of the line in order.
pub struct InsertParser {
    data: Vec<char>,
    state: LexState,
    curr_pos: usize,
    field_start: usize,
    current_value: Vec<String>,
}

impl InsertParser {
    /// The parser is between calls in a consistent state: either between
    /// rows, or parked on a terminator or at the end of its line.
    pub closed spec fn wf(&self) -> bool {
        &&& self.curr_pos <= self.data.len()
        &&& self.field_start <= self.curr_pos
        &&& (self.state is BetweenRows || self.curr_pos == self.data@.len() || (self.data@[
            self.curr_pos as int] == ';' && self.state is InRow))
    }

    /// The rows this parser has still to yield.
    pub closed spec fn remaining_rows(&self) -> Seq<Seq<Seq<char>>> {
        lex_between(self.data@, self.curr_pos as int)
    }

    /// Initialize a parser from a line to parse.
    pub fn from_line(line: String) -> (p: InsertParser)
        ensures
            p.wf(),
            p.remaining_rows() == lex_line(line@),
    {
        InsertParser {
            data: string_to_chars(line.as_str()),
            state: LexState::BetweenRows,
            curr_pos: 0,
            field_start: 0,
            current_value: Vec::new(),
        }
    }

    /// Close the current field: the characters from `field_start` up to
    /// the current position become the next field of the current row.
    fn field_to_value(&mut self)
        requires
            old(self).field_start <= old(self).curr_pos <= old(self).data.len(),
        ensures
            final(self).data == old(self).data,
            final(self).curr_pos == old(self).curr_pos,
            final(self).field_start == old(self).field_start,
            final(self).state == old(self).state,
            final(self).current_value.deep_view() == old(self).current_value.deep_view().push(
                old(self).data@.subrange(old(self).field_start as int, old(self).curr_pos as int),
            ),
    {
        let mut field: Vec<char> = Vec::new();
        let mut k: usize = self.field_start;
        while k < self.curr_pos
            invariant
                self.field_start <= k <= self.curr_pos <= self.data.len(),
                field@ == self.data@.subrange(self.field_start as int, k as int),
            decreases self.curr_pos - k,
        {
            field.push(self.data[k]);
            proof {
                assert(field@ =~= self.data@.subrange(self.field_start as int, (k + 1) as int));
            }
            k += 1;
        }
        let s = chars_to_string(field.as_slice());
        let ghost cv0 = self.current_value.deep_view();
        self.current_value.push(s);
        proof {
            assert(self.current_value.deep_view() =~= cv0.push(
                self.data@.subrange(self.field_start as int, self.curr_pos as int),
            ));
        }
    }

    /// Yield the next value row of the line, or `None` when the statement
    /// has ended (a terminating `;`, an aborting `;` inside a row, or the
    /// end of the line).
    pub fn next_value(&mut self) -> (r: Option<Vec<String>>)
        requires
            old(self).wf(),
        ensures
            final(self).wf(),
            match r {
                Some(row) => {
                    &&& old(self).remaining_rows().len() > 0
                    &&& row.deep_view() == old(self).remaining_rows()[0]
                    &&& final(self).remaining_rows() == old(self).remaining_rows().drop_first()
                },
                None => {
                    &&& old(self).remaining_rows().len() == 0
                    &&& final(self).remaining_rows().len() == 0
                },
            },
    {
        self.current_value = Vec::new();
        let mut escaped = false;
        let ghost r0 = old(self).remaining_rows();
        proof {
            assert(self.current_value.deep_view() =~= Seq::<Seq<char>>::empty());
        }
        loop
            invariant
                r0 == old(self).remaining_rows(),
                self.data == old(self).data,
                self.curr_pos <= self.data.len(),
                self.field_start <= self.curr_pos,
                escaped ==> self.state is InQuotedField,
                self.state is BetweenRows ==> self.current_value.deep_view() == Seq::<
                    Seq<char>,
                >::empty(),
                match self.state {
                    LexState::BetweenRows => lex_between(self.data@, self.curr_pos as int) == r0,
                    LexState::InRow => lex_row(
                        self.data@,
                        self.curr_pos as int,
                        self.current_value.deep_view(),
                    ) == r0,
                    LexState::InPlainField => lex_plain(
                        self.data@,
                        self.field_start as int,
                        self.curr_pos as int,
                        self.current_value.deep_view(),
                    ) == r0,
                    LexState::InQuotedField => lex_quoted(
                        self.data@,
                        self.field_start as int,
                        self.curr_pos as int,
                        self.current_value.deep_view(),
                        escaped,
                    ) == r0,
                },
            decreases
                    self.data.len() - self.curr_pos,
                    (if self.state is InRow {
                        1int
                    } else {
                        0int
                    }),
        {
            if self.curr_pos >= self.data.len() {
                return None;
            }
            let c = self.data[self.curr_pos];
            match self.state {
                LexState::BetweenRows => {
                    if c == '(' {
                        self.state = LexState::InRow;
                    } else if c == ';' {
                        return None;
                    }
                    self.curr_pos += 1;
                },
                LexState::InRow => {
                    if c == ';' {
                        return None;
                    } else if c == ')' {
                        self.curr_pos += 1;
                        self.state = LexState::BetweenRows;
                        let mut row: Vec<String> = Vec::new();
                        core::mem::swap(&mut row, &mut self.current_value);
                        proof {
                            assert(r0.drop_first() =~= lex_between(
                                self.data@,
                                self.curr_pos as int,
                            ));
                        }
                        return Some(row);
                    } else if c == ',' {
                        self.curr_pos += 1;
                    } else if c == '\'' {
                        self.state = LexState::InQuotedField;
                        self.curr_pos += 1;
                        self.field_start = self.curr_pos;
                    } else {
                        self.state = LexState::InPlainField;
                        self.field_start = self.curr_pos;
                    }
                },
                LexState::InPlainField => {
                    if c == ',' {
                        self.field_to_value();
                        self.state = LexState::InRow;
                        self.curr_pos += 1;
                    } else if c == ')' {
                        self.field_to_value();
                        self.curr_pos += 1;
                        self.state = LexState::BetweenRows;
                        let mut row: Vec<String> = Vec::new();
                        core::mem::swap(&mut row, &mut self.current_value);
                        proof {
                            assert(r0.drop_first() =~= lex_between(
                                self.data@,
                                self.curr_pos as int,
                            ));
                        }
                        return Some(row);
                    } else {
                        self.curr_pos += 1;
                    }
                },
                LexState::InQuotedField => {
                    if escaped {
                        escaped = false;
                        self.curr_pos += 1;
                    } else if c == '\\' {
                        escaped = true;
                        self.curr_pos += 1;
                    } else if c == '\'' {
                        self.field_to_value();
                        self.state = LexState::InRow;
                        self.curr_pos += 1;
                    } else {
                        self.curr_pos += 1;
                    }
                },
            }
        }
    }

    /// All remaining rows of the line, in order.
    pub fn rows(&mut self) -> (r: Vec<Vec<String>>)
        requires
            old(self).wf(),
        ensures
            final(self).wf(),
            r.deep_view() == old(self).remaining_rows(),
            final(self).remaining_rows().len() == 0,
    {
        let mut out: Vec<Vec<String>> = Vec::new();
        loop
            invariant
                self.wf(),
                out.deep_view() + self.remaining_rows() == old(self).remaining_rows(),
            decreases self.remaining_rows().len(),
        {
            let ghost before = self.remaining_rows();
            let ghost out0 = out.deep_view();
            match self.next_value() {
                Some(row) => {
                    out.push(row);
                    proof {
                        assert(out.deep_view() =~= out0.push(before[0]));
                        assert(out.deep_view() + self.remaining_rows() =~= out0 + before);
                    }
                },
                None => {
                    proof {
                        assert(out.deep_view() + self.remaining_rows() =~= out.deep_view());
                    }
                    return out;
                },
            }
        }
    }
}

} // verus!
