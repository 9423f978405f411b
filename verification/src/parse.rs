//! The grammar parser: from the script's raw text to the node list.
//!
//! The grammar is line-based.  Each record starts with a tag line holding
//! an integer: tag `1` opens a question record (success destination line,
//! fail destination line, variable name line, then zero or more prompt
//! lines), tag `2` opens a branching record (variable name line, question
//! text line, then one or more `text:destination` option lines), and tag
//! `3` opens a terminating record (one message line).  A line made only
//! of digits is an integer line; any other non-empty line is a string
//! line.  A question's prompt lines reach up to the next integer line or
//! the end of the text; a branching node's option lines reach up to the
//! first line that is not of the `text:destination` shape.  Lines are
//! separated by `\n`, and one trailing `\r` is stripped from each line.
//!
//! Node identifiers are assigned by record position, starting at 0.  Any
//! malformed record is a parse failure: the parser yields either the
//! whole node list or a single failure.

use vstd::prelude::*;

use crate::machine::{MachineView, Nodes};
use crate::node::{branch_options_view, NodeView};
use crate::text::{digits_value, is_digits};

verus! {

/// One trailing carriage return removed.
pub open spec fn strip_cr(l: Seq<char>) -> Seq<char> {
    if l.len() > 0 && l.last() == '\r' {
        l.drop_last()
    } else {
        l
    }
}

/// The text cut at every `\n`, one trailing `\r` stripped from each
/// piece.  A trailing newline ends the last line rather than opening an
/// empty one.
pub open spec fn split_lines(t: Seq<char>) -> Seq<Seq<char>>
    decreases t.len(),
    via split_lines_decreases
{
    if t.len() == 0 {
        Seq::empty()
    } else {
        match t.index_of_first('\n') {
            None => seq![strip_cr(t)],
            Some(j) => seq![strip_cr(t.take(j))] + split_lines(t.skip(j + 1)),
        }
    }
}

#[via_fn]
proof fn split_lines_decreases(t: Seq<char>) {
    t.index_of_first_ensures('\n');
}

/// An integer line: nothing but decimal digits, at least one.
pub open spec fn is_int_line(l: Seq<char>) -> bool {
    is_digits(l)
}

/// An integer line whose value a machine word can hold.
pub open spec fn int_line_ok(l: Seq<char>) -> bool {
    is_digits(l) && digits_value(l) <= usize::MAX
}

/// A string line: non-empty and not an integer line.
pub open spec fn is_string_line(l: Seq<char>) -> bool {
    l.len() > 0 && !is_int_line(l)
}

/// An option line: non-empty text before the first `:`, digits after it.
pub open spec fn is_option_line(l: Seq<char>) -> bool {
    match l.index_of_first(':') {
        Some(j) => j > 0 && is_digits(l.skip(j + 1)),
        None => false,
    }
}

/// The text before the first `:` of an option line.
pub open spec fn option_text(l: Seq<char>) -> Seq<char>
    recommends
        is_option_line(l),
{
    match l.index_of_first(':') {
        Some(j) => l.take(j),
        None => Seq::empty(),
    }
}

/// The number after the first `:` of an option line.
pub open spec fn option_dest(l: Seq<char>) -> nat
    recommends
        is_option_line(l),
{
    match l.index_of_first(':') {
        Some(j) => digits_value(l.skip(j + 1)),
        None => 0,
    }
}

/// An option line whose destination a machine word can hold.
pub open spec fn option_value_ok(l: Seq<char>) -> bool {
    is_option_line(l) && option_dest(l) <= usize::MAX
}

/// The first position at or after `i` that does not hold a string line
/// (or the end of the lines).
pub open spec fn string_run_end(lines: Seq<Seq<char>>, i: int) -> int
    decreases lines.len() - i,
    when 0 <= i <= lines.len()
{
    if i < lines.len() && is_string_line(lines[i]) {
        string_run_end(lines, i + 1)
    } else {
        i
    }
}

/// The first position at or after `i` that does not hold an option line
/// (or the end of the lines).
pub open spec fn option_run_end(lines: Seq<Seq<char>>, i: int) -> int
    decreases lines.len() - i,
    when 0 <= i <= lines.len()
{
    if i < lines.len() && is_option_line(lines[i]) {
        option_run_end(lines, i + 1)
    } else {
        i
    }
}

/// What the string run from `i` looks like: every line before its end is
/// a string line and the line at its end (if any) is not.
pub proof fn lemma_string_run_end(lines: Seq<Seq<char>>, i: int)
    requires
        0 <= i <= lines.len(),
    ensures
        i <= string_run_end(lines, i) <= lines.len(),
        forall|p: int| i <= p < string_run_end(lines, i) ==> is_string_line(#[trigger] lines[p]),
        string_run_end(lines, i) == lines.len() || !is_string_line(
            lines[string_run_end(lines, i)],
        ),
    decreases lines.len() - i,
{
    if i < lines.len() && is_string_line(lines[i]) {
        lemma_string_run_end(lines, i + 1);
    }
}

/// What the option run from `i` looks like, in the same way.
pub proof fn lemma_option_run_end(lines: Seq<Seq<char>>, i: int)
    requires
        0 <= i <= lines.len(),
    ensures
        i <= option_run_end(lines, i) <= lines.len(),
        forall|p: int| i <= p < option_run_end(lines, i) ==> is_option_line(#[trigger] lines[p]),
        option_run_end(lines, i) == lines.len() || !is_option_line(
            lines[option_run_end(lines, i)],
        ),
    decreases lines.len() - i,
{
    if i < lines.len() && is_option_line(lines[i]) {
        lemma_option_run_end(lines, i + 1);
    }
}

/// The record starting at line `pos`: its node and the position of the
/// line after it, or `None` when the record is malformed.
pub open spec fn parse_record_at(lines: Seq<Seq<char>>, pos: int) -> Option<(NodeView, int)>
    recommends
        0 <= pos < lines.len(),
{
    let tag = lines[pos];
    if !is_digits(tag) {
        None
    } else if digits_value(tag) == 1 {
        parse_question_at(lines, pos)
    } else if digits_value(tag) == 2 {
        parse_branching_at(lines, pos)
    } else if digits_value(tag) == 3 {
        parse_terminating_at(lines, pos)
    } else {
        None
    }
}

/// A question record: success and fail destination lines, a variable
/// name line, then every following string line as a prompt.
pub open spec fn parse_question_at(lines: Seq<Seq<char>>, pos: int) -> Option<(NodeView, int)> {
    if lines.len() - pos < 4 {
        None
    } else if !int_line_ok(lines[pos + 1]) || !int_line_ok(lines[pos + 2]) || !is_string_line(
        lines[pos + 3],
    ) {
        None
    } else {
        let e = string_run_end(lines, pos + 4);
        Some(
            (
                NodeView::Question {
                    success: digits_value(lines[pos + 1]),
                    fail: digits_value(lines[pos + 2]),
                    variable: lines[pos + 3],
                    prompts: lines.subrange(pos + 4, e),
                },
                e,
            ),
        )
    }
}

/// A branching record: a variable name line, a question text line, then
/// every following option line; at least one option is required, and
/// every destination must fit a machine word.
pub open spec fn parse_branching_at(lines: Seq<Seq<char>>, pos: int) -> Option<(NodeView, int)> {
    if lines.len() - pos < 3 {
        None
    } else if !is_string_line(lines[pos + 1]) || !is_string_line(lines[pos + 2]) {
        None
    } else {
        let e = option_run_end(lines, pos + 3);
        if e == pos + 3 {
            None
        } else if !(forall|k: int| pos + 3 <= k < e ==> option_value_ok(#[trigger] lines[k])) {
            None
        } else {
            Some(
                (
                    NodeView::Branching {
                        variable: lines[pos + 1],
                        question: lines[pos + 2],
                        options: Seq::new(
                            (e - pos - 3) as nat,
                            |k: int| (option_text(lines[pos + 3 + k]), option_dest(lines[pos + 3 + k])),
                        ),
                    },
                    e,
                ),
            )
        }
    }
}

/// A terminating record: one message line.
pub open spec fn parse_terminating_at(lines: Seq<Seq<char>>, pos: int) -> Option<(NodeView, int)> {
    if lines.len() - pos < 2 {
        None
    } else if !is_string_line(lines[pos + 1]) {
        None
    } else {
        Some((NodeView::Terminating { message: lines[pos + 1] }, pos + 2))
    }
}

/// The nodes of all records from line `pos` on, in record order, or
/// `None` when any record is malformed.
pub open spec fn parse_nodes_from(lines: Seq<Seq<char>>, pos: int) -> Option<Seq<NodeView>>
    decreases lines.len() - pos,
    when 0 <= pos <= lines.len()
{
    if pos == lines.len() {
        Some(Seq::empty())
    } else {
        match parse_record_at(lines, pos) {
            None => None,
            Some((nv, next)) => {
                if pos < next <= lines.len() {
                    match parse_nodes_from(lines, next) {
                        None => None,
                        Some(tail) => Some(seq![nv] + tail),
                    }
                } else {
                    None
                }
            },
        }
    }
}

/// The nodes of a whole script's lines, in record order.
pub open spec fn parse_nodes(lines: Seq<Seq<char>>) -> Option<Seq<NodeView>> {
    parse_nodes_from(lines, 0)
}

/// A record never reaches past the end of the lines, and always consumes
/// at least one line.
pub proof fn lemma_parse_record_at_bounds(lines: Seq<Seq<char>>, pos: int)
    requires
        0 <= pos < lines.len(),
        parse_record_at(lines, pos) is Some,
    ensures
        pos < parse_record_at(lines, pos)->Some_0.1 <= lines.len(),
{
    let tag = lines[pos];
    if digits_value(tag) == 1 {
        lemma_string_run_end(lines, pos + 4);
    } else if digits_value(tag) == 2 {
        lemma_option_run_end(lines, pos + 3);
    }
}

/// Pin the string run's end: a stretch of string lines closed off by the
/// end of the lines or a non-string line ends the run exactly there.
proof fn lemma_string_run_end_is(lines: Seq<Seq<char>>, i: int, e: int)
    requires
        0 <= i <= e <= lines.len(),
        forall|p: int| i <= p < e ==> is_string_line(#[trigger] lines[p]),
        e == lines.len() || !is_string_line(lines[e]),
    ensures
        string_run_end(lines, i) == e,
    decreases e - i,
{
    if i < e {
        lemma_string_run_end_is(lines, i + 1, e);
    }
}

/// Pin the option run's end in the same way.
proof fn lemma_option_run_end_is(lines: Seq<Seq<char>>, i: int, e: int)
    requires
        0 <= i <= e <= lines.len(),
        forall|p: int| i <= p < e ==> is_option_line(#[trigger] lines[p]),
        e == lines.len() || !is_option_line(lines[e]),
    ensures
        option_run_end(lines, i) == e,
    decreases e - i,
{
    if i < e {
        lemma_option_run_end_is(lines, i + 1, e);
    }
}

/// An unbroken stretch of option lines keeps the run open past its last
/// line.
proof fn lemma_option_run_end_past(lines: Seq<Seq<char>>, i: int, j: int)
    requires
        0 <= i <= j < lines.len(),
        forall|p: int| i <= p <= j ==> is_option_line(#[trigger] lines[p]),
    ensures
        option_run_end(lines, i) > j,
    decreases j - i,
{
    if i < j {
        lemma_option_run_end_past(lines, i + 1, j);
    } else {
        lemma_option_run_end(lines, i + 1);
    }
}

/// A found first occurrence pins `index_of_first`.
proof fn lemma_index_of_first_is(s: Seq<char>, x: char, j: int)
    requires
        0 <= j < s.len(),
        s[j] == x,
        forall|p: int| 0 <= p < j ==> s[p] != x,
    ensures
        s.index_of_first(x) == Some(j),
{
    s.index_of_first_ensures(x);
}

/// A character that occurs nowhere has no first occurrence.
proof fn lemma_index_of_first_none(s: Seq<char>, x: char)
    requires
        forall|p: int| 0 <= p < s.len() ==> s[p] != x,
    ensures
        s.index_of_first(x) is None,
{
    s.index_of_first_ensures(x);
}

/// Node identifiers follow record order, starting at 0: the record at the
/// front becomes the node at index 0, and the nodes of the remaining
/// records follow it in order.
pub proof fn lemma_parse_assigns_ids_in_order(lines: Seq<Seq<char>>, pos: int)
    requires
        0 <= pos < lines.len(),
        parse_record_at(lines, pos) is Some,
        parse_nodes_from(lines, parse_record_at(lines, pos)->Some_0.1) is Some,
    ensures
        parse_nodes_from(lines, pos) == Some(
            seq![parse_record_at(lines, pos)->Some_0.0] + parse_nodes_from(
                lines,
                parse_record_at(lines, pos)->Some_0.1,
            )->Some_0,
        ),
{
    lemma_parse_record_at_bounds(lines, pos);
}

/// The single failure signal of the parser: the script is malformed.
#[derive(Clone, Copy, Debug, PartialEq, Eq, Structural)]
pub struct ParseError;

/// Cut the text at every `\n`, stripping one trailing `\r` from each
/// line.
fn split_text(text: &str) -> (r: Vec<String>)
    ensures
        r.deep_view() == split_lines(text@),
{
    let ghost t = text@;
    let n = text.unicode_len();
    let mut r: Vec<String> = Vec::new();
    let mut start: usize = 0;
    proof {
        assert(t.skip(0) =~= t);
        assert(r.deep_view() + split_lines(t) =~= split_lines(t));
    }
    while start < n
        invariant
            n == t.len(),
            t == text@,
            start <= n,
            split_lines(t) == r.deep_view() + split_lines(t.skip(start as int)),
        decreases n - start,
    {
        let mut i = start;
        loop
            invariant
                n == t.len(),
                t == text@,
                start <= i <= n,
                forall|p: int| start <= p < i ==> t[p] != '\n',
            ensures
                start <= i <= n,
                forall|p: int| start <= p < i ==> t[p] != '\n',
                i == n || t[i as int] == '\n',
            decreases n - i,
        {
            if i == n {
                break ;
            }
            if text.get_char(i) == '\n' {
                break ;
            }
            i = i + 1;
        }
        let end = if i > start && text.get_char(i - 1) == '\r' {
            i - 1
        } else {
            i
        };
        let line = text.substring_char(start, end).to_owned();
        proof {
            let suffix = t.skip(start as int);
            assert(forall|p: int|
                0 <= p < suffix.len() ==> #[trigger] suffix[p] == t[p + start]);
            assert(line@ =~= t.subrange(start as int, end as int));
            assert(strip_cr(t.subrange(start as int, i as int)) =~= line@) by {
                if i > start && t[i - 1] == '\r' {
                    assert(t.subrange(start as int, i as int).drop_last() =~= t.subrange(
                        start as int,
                        i - 1,
                    ));
                }
            }
        }
        r.push(line);
        proof {
            let suffix = t.skip(start as int);
            assert(r.deep_view() =~= r.deep_view().drop_last().push(line@));
            if i == n {
                lemma_index_of_first_none(suffix, '\n');
                assert(suffix =~= t.subrange(start as int, i as int));
                assert(split_lines(suffix) == seq![strip_cr(suffix)]);
                assert(t.skip(n as int) =~= Seq::<char>::empty());
                assert(split_lines(t) =~= r.deep_view() + split_lines(t.skip(n as int)));
            } else {
                lemma_index_of_first_is(suffix, '\n', i - start);
                assert(suffix.take(i - start) =~= t.subrange(start as int, i as int));
                assert(suffix.skip(i - start + 1) =~= t.skip(i + 1 as int));
                assert(split_lines(suffix) == seq![strip_cr(suffix.take(i - start))]
                    + split_lines(suffix.skip(i - start + 1)));
                assert(split_lines(t) =~= r.deep_view() + split_lines(t.skip(i + 1 as int)));
            }
        }
        if i == n {
            start = n;
        } else {
            start = i + 1;
        }
    }
    proof {
        assert(t.skip(n as int) =~= Seq::<char>::empty());
        assert(split_lines(t) =~= r.deep_view());
    }
    r
}

/// True of a line made only of digits, at least one.
fn is_digit_line(s: &str) -> (r: bool)
    ensures
        r == is_digits(s@),
{
    let n = s.unicode_len();
    if n == 0 {
        return false;
    }
    let mut i: usize = 0;
    while i < n
        invariant
            n == s@.len(),
            i <= n,
            forall|p: int| 0 <= p < i ==> crate::text::is_digit(#[trigger] s@[p]),
        decreases n - i,
    {
        let c = s.get_char(i);
        if c < '0' || c > '9' {
            return false;
        }
        i = i + 1;
    }
    true
}

/// True of a non-empty line that is not made only of digits.
fn is_string_line_exec(s: &str) -> (r: bool)
    ensures
        r == is_string_line(s@),
{
    s.unicode_len() > 0 && !is_digit_line(s)
}

/// True of a line of the `text:destination` shape.
fn is_option_line_exec(s: &str) -> (r: bool)
    ensures
        r == is_option_line(s@),
{
    let n = s.unicode_len();
    let mut i: usize = 0;
    loop
        invariant
            n == s@.len(),
            i <= n,
            forall|p: int| 0 <= p < i ==> s@[p] != ':',
        ensures
            i <= n,
            forall|p: int| 0 <= p < i ==> s@[p] != ':',
            i == n || s@[i as int] == ':',
        decreases n - i,
    {
        if i == n {
            break ;
        }
        if s.get_char(i) == ':' {
            break ;
        }
        i = i + 1;
    }
    if i == n {
        proof {
            lemma_index_of_first_none(s@, ':');
        }
        return false;
    }
    proof {
        lemma_index_of_first_is(s@, ':', i as int);
    }
    if i == 0 {
        return false;
    }
    let digits = s.substring_char(i + 1, n);
    proof {
        assert(digits@ =~= s@.skip(i + 1 as int));
    }
    is_digit_line(digits)
}

/// How one line relates to the `text:destination` option shape.
enum OptionForm {
    /// Not of the option shape at all.
    NotOption,
    /// Of the option shape, but the destination passes a machine word.
    TooLarge,
    /// The option's text and destination.
    Valid(String, usize),
}

/// Read one line as a branch option.
fn parse_option_line(s: &str) -> (r: OptionForm)
    ensures
        match r {
            OptionForm::NotOption => !is_option_line(s@),
            OptionForm::TooLarge => is_option_line(s@) && !option_value_ok(s@),
            OptionForm::Valid(text, dest) => is_option_line(s@) && option_value_ok(s@) && text@
                == option_text(s@) && dest as nat == option_dest(s@),
        },
{
    let n = s.unicode_len();
    let mut i: usize = 0;
    loop
        invariant
            n == s@.len(),
            i <= n,
            forall|p: int| 0 <= p < i ==> s@[p] != ':',
        ensures
            i <= n,
            forall|p: int| 0 <= p < i ==> s@[p] != ':',
            i == n || s@[i as int] == ':',
        decreases n - i,
    {
        if i == n {
            break ;
        }
        if s.get_char(i) == ':' {
            break ;
        }
        i = i + 1;
    }
    if i == n {
        proof {
            lemma_index_of_first_none(s@, ':');
        }
        return OptionForm::NotOption;
    }
    proof {
        lemma_index_of_first_is(s@, ':', i as int);
    }
    if i == 0 {
        return OptionForm::NotOption;
    }
    let digits = s.substring_char(i + 1, n);
    proof {
        assert(digits@ =~= s@.skip(i + 1 as int));
    }
    if !is_digit_line(digits) {
        return OptionForm::NotOption;
    }
    match crate::text::parse_digits(digits) {
        None => OptionForm::TooLarge,
        Some(dest) => {
            let text = s.substring_char(0, i).to_owned();
            proof {
                assert(text@ =~= s@.take(i as int));
            }
            OptionForm::Valid(text, dest)
        },
    }
}

/// Read the record starting at line `pos` and register its node; hand
/// back the position of the line after the record.
#[verifier::loop_isolation(false)]
fn parse_record_into(machine: &mut Nodes, lines: &Vec<String>, pos: usize) -> (r: Result<
    usize,
    ParseError,
>)
    requires
        pos < lines@.len(),
    ensures
        match r {
            Ok(next) => {
                &&& pos < next <= lines@.len()
                &&& parse_record_at(lines.deep_view(), pos as int) matches Some(p) && p.1
                    == next as int && final(machine)@ == (MachineView {
                    nodes: old(machine)@.nodes.push(p.0),
                    ..old(machine)@
                })
            },
            Err(_) => {
                &&& parse_record_at(lines.deep_view(), pos as int) is None
                &&& *final(machine) == *old(machine)
            },
        },
{
    let ghost lv = lines.deep_view();
    let n = lines.len();
    let tag = match crate::text::parse_digits(lines[pos].as_str()) {
        Some(v) => v,
        None => {
            return Err(ParseError);
        },
    };
    if tag == 1 {
        if n - pos < 4 {
            return Err(ParseError);
        }
        let success = match crate::text::parse_digits(lines[pos + 1].as_str()) {
            Some(v) => v,
            None => {
                return Err(ParseError);
            },
        };
        let fail_dest = match crate::text::parse_digits(lines[pos + 2].as_str()) {
            Some(v) => v,
            None => {
                return Err(ParseError);
            },
        };
        if !is_string_line_exec(lines[pos + 3].as_str()) {
            return Err(ParseError);
        }
        let mut prompts: Vec<String> = Vec::new();
        let mut j = pos + 4;
        proof {
            assert(prompts.deep_view() =~= lv.subrange(pos + 4 as int, j as int));
        }
        while j < n && is_string_line_exec(lines[j].as_str())
            invariant
                pos + 4 <= j <= n,
                forall|p: int| pos + 4 <= p < j ==> is_string_line(#[trigger] lv[p]),
                prompts.deep_view() == lv.subrange(pos + 4 as int, j as int),
            decreases n - j,
        {
            prompts.push(lines[j].clone());
            proof {
                assert(prompts.deep_view() =~= lv.subrange(pos + 4 as int, j + 1 as int));
            }
            j = j + 1;
        }
        proof {
            lemma_string_run_end_is(lv, pos + 4 as int, j as int);
        }
        machine.register_question_node(success, fail_dest, lines[pos + 3].as_str(), prompts);
        Ok(j)
    } else if tag == 2 {
        if n - pos < 3 {
            return Err(ParseError);
        }
        if !is_string_line_exec(lines[pos + 1].as_str()) {
            return Err(ParseError);
        }
        if !is_string_line_exec(lines[pos + 2].as_str()) {
            return Err(ParseError);
        }
        let mut options: Vec<(String, usize)> = Vec::new();
        let mut j = pos + 3;
        while j < n && is_option_line_exec(lines[j].as_str())
            invariant
                pos + 3 <= j <= n,
                forall|p: int|
                    pos + 3 <= p < j ==> is_option_line(#[trigger] lv[p]) && option_value_ok(
                        lv[p],
                    ),
                options@.len() == j - pos - 3,
                forall|k: int|
                    0 <= k < options@.len() ==> (#[trigger] options@[k]).0@ == option_text(
                        lv[pos + 3 + k],
                    ) && options@[k].1 as nat == option_dest(lv[pos + 3 + k]),
            decreases n - j,
        {
            match parse_option_line(lines[j].as_str()) {
                OptionForm::NotOption => {
                    proof {
                        assert(false);
                    }
                },
                OptionForm::TooLarge => {
                    proof {
                        assert(lv[j as int] == lines@[j as int]@);
                        lemma_option_run_end_past(lv, pos + 3 as int, j as int);
                        lemma_option_run_end(lv, pos + 3 as int);
                    }
                    return Err(ParseError);
                },
                OptionForm::Valid(text, dest) => {
                    proof {
                        assert(lv[j as int] == lines@[j as int]@);
                    }
                    options.push((text, dest));
                    j = j + 1;
                },
            }
        }
        proof {
            lemma_option_run_end_is(lv, pos + 3 as int, j as int);
        }
        if j == pos + 3 {
            return Err(ParseError);
        }
        let ghost oview = branch_options_view(options@);
        machine.register_branching_node(
            lines[pos + 1].as_str(),
            lines[pos + 2].as_str(),
            options,
        );
        proof {
            assert(oview =~= Seq::new(
                (j - pos - 3) as nat,
                |k: int| (option_text(lv[pos + 3 + k]), option_dest(lv[pos + 3 + k])),
            ));
        }
        Ok(j)
    } else if tag == 3 {
        if n - pos < 2 {
            return Err(ParseError);
        }
        if !is_string_line_exec(lines[pos + 1].as_str()) {
            return Err(ParseError);
        }
        machine.register_terminating_node(lines[pos + 1].as_str());
        Ok(pos + 2)
    } else {
        Err(ParseError)
    }
}

/// The grammar parser.
pub struct NodesParser;

impl NodesParser {
    /// Parse a whole script into a machine standing at node 0 with an
    /// empty environment; any malformed record is a single failure and
    /// no machine is produced.
    pub fn parse_script(text: &str) -> (r: Result<Nodes, ParseError>)
        ensures
            match r {
                Ok(ns) => {
                    &&& parse_nodes(split_lines(text@)) == Some(ns@.nodes)
                    &&& ns@.current == 0
                    &&& ns@.attempt == 0
                    &&& ns@.env == Map::<Seq<char>, Seq<char>>::empty()
                },
                Err(_) => parse_nodes(split_lines(text@)) is None,
            },
    {
        let lines = split_text(text);
        let ghost lv = split_lines(text@);
        let mut machine = Nodes::default();
        let n = lines.len();
        let mut pos: usize = 0;
        proof {
            assert(machine@.nodes + parse_nodes_from(lv, 0)->Some_0 =~= parse_nodes_from(
                lv,
                0,
            )->Some_0);
        }
        while pos < n
            invariant
                lines.deep_view() == lv,
                lv == split_lines(text@),
                n == lv.len(),
                pos <= n,
                machine@.current == 0,
                machine@.attempt == 0,
                machine@.env == Map::<Seq<char>, Seq<char>>::empty(),
                parse_nodes(lv) == (match parse_nodes_from(lv, pos as int) {
                    None => None::<Seq<NodeView>>,
                    Some(tail) => Some(machine@.nodes + tail),
                }),
            decreases n - pos,
        {
            let ghost before = machine@.nodes;
            match parse_record_into(&mut machine, &lines, pos) {
                Ok(next) => {
                    proof {
                        let nv = parse_record_at(lv, pos as int)->Some_0.0;
                        match parse_nodes_from(lv, next as int) {
                            Some(tail) => {
                                assert(parse_nodes_from(lv, pos as int) == Some(
                                    seq![nv] + tail,
                                ));
                                assert(before.push(nv) + tail =~= before + (seq![nv] + tail));
                            },
                            None => {
                                assert(parse_nodes_from(lv, pos as int) is None);
                            },
                        }
                    }
                    pos = next;
                },
                Err(e) => {
                    proof {
                        assert(parse_nodes_from(lv, pos as int) is None);
                    }
                    return Err(e);
                },
            }
        }
        proof {
            assert(parse_nodes_from(lv, n as int) == Some(Seq::<NodeView>::empty()));
            assert(machine@.nodes + Seq::<NodeView>::empty() =~= machine@.nodes);
        }
        Ok(machine)
    }
}

} // verus!
