//! The parser: the grammar carried out on a text.

use vstd::prelude::*;
use vstd::string::{StrSliceExecFns, StringExecFns};

use crate::parser::ast::{
    nodes_of, rows_of, text_of, Definition, Invocation, InvocationNode, NodeView,
    ResolutionTable, Row,
};
use crate::parser::syntax::{
    after, argument_at, at, blank_end, comment_at, definition_at, destination_at, identifier_at,
    invocation_at, item_at, items_at, lemma_definition_advances, lemma_invocation_advances,
    lemma_item_advances, lemma_items_bounds, lemma_row_advances, lemma_rows_bounds,
    lemma_run_end_bounds, literal, more_items, more_rows, node_at, nodes_at,
    padded_argument_at, parsed, row_at, rows_at, run, run_end, source_at, spaces, CharClass,
    ItemKind, ParseErrorView,
};

verus! {

/// Why a text is not a program.
#[derive(Debug, Clone, PartialEq, Eq)]
pub enum ParseError {
    /// The parser gave up for a reason of its own.
    Nom(String),
    /// The text is a program only up to some position; the rest is given.
    InvalidInput(String),
}

impl View for ParseError {
    type V = ParseErrorView;

    open spec fn view(&self) -> ParseErrorView {
        match self {
            ParseError::Nom(s) => ParseErrorView::Nom(s@),
            ParseError::InvalidInput(s) => ParseErrorView::InvalidInput(s@),
        }
    }
}

impl ParseError {
    /// The error as a line of text for the user.
    pub fn message(&self) -> (text: String)
        ensures
            text@ == match self@ {
                ParseErrorView::Nom(s) => "Parse error: "@ + s,
                ParseErrorView::InvalidInput(s) => "Invalid input: "@ + s,
            },
    {
        match self {
            ParseError::Nom(s) => String::from_str("Parse error: ").concat(s.as_str()),
            ParseError::InvalidInput(s) => String::from_str("Invalid input: ").concat(s.as_str()),
        }
    }
}

/// The position an executable step ended at: `-1` if it failed.
pub open spec fn reached(step: Option<usize>) -> int {
    match step {
        Some(end) => end as int,
        None => -1,
    }
}

/// What an executable step yielded, as plain values.
pub open spec fn yielded(step: Option<(String, usize)>) -> Option<(Seq<char>, int)> {
    match step {
        Some((value, end)) => Some((value@, end as int)),
        None => None,
    }
}

/// The characters of `text`, in order.
fn chars_of(text: &str) -> (chars: Vec<char>)
    ensures
        chars@ == text@,
{
    broadcast use vstd::string::group_string_axioms;

    let mut chars: Vec<char> = Vec::new();
    for c in it: text.chars()
        invariant
            it.seq() == text@,
            chars@ == it.seq().take(it.index()),
    {
        chars.push(c);
        assert(chars@ =~= it.seq().take(it.index() + 1));
    }
    assert(chars@ =~= text@);
    chars
}

/// The characters of `text` from `from` up to `to`.
fn slice(text: &str, from: usize, to: usize) -> (piece: String)
    requires
        from <= to <= text@.len(),
    ensures
        piece@ == text@.subrange(from as int, to as int),
{
    String::from_str(text.substring_char(from, to))
}

/// Where the longest run of characters of `class` that starts at `i` ends.
fn scan(chars: &Vec<char>, i: usize, class: CharClass) -> (end: usize)
    requires
        i <= chars@.len(),
    ensures
        end == run_end(chars@, i as int, class),
        i <= end <= chars@.len(),
{
    let n: usize = chars.len();
    let mut end: usize = i;
    while end < n && class.test(chars[end])
        invariant
            i <= end <= n,
            n == chars@.len(),
            run_end(chars@, i as int, class) == run_end(chars@, end as int, class),
        decreases n - end,
    {
        end = end + 1;
    }
    end
}

/// The character `c` at position `i`.
fn expect(chars: &Vec<char>, i: usize, c: char) -> (r: Option<usize>)
    requires
        i <= chars@.len(),
    ensures
        reached(r) == at(literal(chars@, i as int, c)),
        r is Some ==> r->0 <= chars@.len(),
{
    if i < chars.len() && chars[i] == c {
        Some(i + 1)
    } else {
        None
    }
}

/// One or more characters of space.
fn spaces1(chars: &Vec<char>, i: usize) -> (r: Option<usize>)
    requires
        i <= chars@.len(),
    ensures
        reached(r) == at(spaces(chars@, i as int)),
        r is Some ==> r->0 <= chars@.len(),
{
    let end: usize = scan(chars, i, CharClass::Space);
    if end > i {
        Some(end)
    } else {
        None
    }
}

/// A run of characters of `class` that is not empty.
fn token(text: &str, chars: &Vec<char>, i: usize, class: CharClass) -> (r: Option<(String, usize)>)
    requires
        chars@ == text@,
        i <= chars@.len(),
    ensures
        yielded(r) == run(chars@, i as int, class),
        r is Some ==> i < after(yielded(r)) <= chars@.len(),
{
    let end: usize = scan(chars, i, class);
    if end > i {
        Some((slice(text, i, end), end))
    } else {
        None
    }
}

/// An identifier: one or more letters, digits and underscores.
fn identifier(text: &str, chars: &Vec<char>, i: usize) -> (r: Option<(String, usize)>)
    requires
        chars@ == text@,
        i <= chars@.len(),
    ensures
        yielded(r) == identifier_at(chars@, i as int),
        r is Some ==> i < after(yielded(r)) <= chars@.len(),
{
    token(text, chars, i, CharClass::Identifier)
}

/// `$` and an identifier; the value is the identifier.
fn destination(text: &str, chars: &Vec<char>, i: usize) -> (r: Option<(String, usize)>)
    requires
        chars@ == text@,
        i <= chars@.len(),
    ensures
        yielded(r) == destination_at(chars@, i as int),
        r is Some ==> i < after(yielded(r)) <= chars@.len(),
{
    proof {
        lemma_run_end_bounds(chars@, -1, CharClass::Identifier);
    }
    match expect(chars, i, '$') {
        Some(start) => identifier(text, chars, start),
        None => None,
    }
}

/// An identifier, `<` and `>`; the value is the identifier.
fn source(text: &str, chars: &Vec<char>, i: usize) -> (r: Option<(String, usize)>)
    requires
        chars@ == text@,
        i <= chars@.len(),
    ensures
        yielded(r) == source_at(chars@, i as int),
        r is Some ==> i < after(yielded(r)) <= chars@.len(),
{
    let (name, named) = match identifier(text, chars, i) {
        Some(step) => step,
        None => {
            return None;
        },
    };
    let opened: usize = match expect(chars, named, '<') {
        Some(end) => end,
        None => {
            return None;
        },
    };
    match expect(chars, opened, '>') {
        Some(end) => Some((name, end)),
        None => None,
    }
}

/// A row of a truth table: bits, a colon, and bits.
fn resolution_pattern(text: &str, chars: &Vec<char>, i: usize) -> (r: Option<
    ((String, String), usize),
>)
    requires
        chars@ == text@,
        i <= chars@.len(),
    ensures
        match r {
            Some((row, end)) => row_at(chars@, i as int) == Some(((row.0@, row.1@), end as int))
                && i < end <= chars@.len(),
            None => row_at(chars@, i as int) is None,
        },
{
    proof {
        lemma_run_end_bounds(chars@, -1, CharClass::Bit);
    }
    let (pattern, split) = match token(text, chars, i, CharClass::Bit) {
        Some(step) => step,
        None => {
            return None;
        },
    };
    let start: usize = match expect(chars, split, ':') {
        Some(end) => end,
        None => {
            return None;
        },
    };
    match token(text, chars, start, CharClass::Bit) {
        Some((value, end)) => Some(((pattern, value), end)),
        None => None,
    }
}

/// The two destinations that head a table.
fn resolution_inputs(text: &str, chars: &Vec<char>, i: usize) -> (r: Option<usize>)
    requires
        chars@ == text@,
        i <= chars@.len(),
    ensures
        reached(r) == after(destination_at(chars@, after(destination_at(chars@, i as int)))),
        r is Some ==> i < r->0 <= chars@.len(),
{
    proof {
        lemma_run_end_bounds(chars@, -1, CharClass::Identifier);
    }
    let (_, first) = match destination(text, chars, i) {
        Some(step) => step,
        None => {
            return None;
        },
    };
    match destination(text, chars, first) {
        Some((_, end)) => Some(end),
        None => None,
    }
}

/// A comment: `#`, anything up to the end of the line, and the newline.
fn comment(chars: &Vec<char>, i: usize) -> (r: Option<usize>)
    requires
        i <= chars@.len(),
    ensures
        reached(r) == at(comment_at(chars@, i as int)),
        r is Some ==> i < r->0 <= chars@.len(),
{
    proof {
        lemma_run_end_bounds(chars@, -1, CharClass::NotNewline);
    }
    let start: usize = match expect(chars, i, '#') {
        Some(end) => end,
        None => {
            return None;
        },
    };
    let end: usize = scan(chars, start, CharClass::NotNewline);
    expect(chars, end, '\n')
}

/// Where the space and the comments that start at `i` end.
fn ws(chars: &Vec<char>, i: usize) -> (end: usize)
    requires
        i <= chars@.len(),
    ensures
        end == blank_end(chars@, i as int),
        i <= end <= chars@.len(),
{
    let n: usize = chars.len();
    let mut end: usize = i;
    loop
        invariant
            i <= end <= n,
            n == chars@.len(),
            blank_end(chars@, i as int) == blank_end(chars@, end as int),
        ensures
            i <= end <= n,
            end == blank_end(chars@, i as int),
        decreases n - end,
    {
        if end < n && CharClass::Space.test(chars[end]) {
            end = end + 1;
        } else {
            match comment(chars, end) {
                Some(next) => {
                    end = next;
                },
                None => {
                    break ;
                },
            }
        }
    }
    end
}

/// A literal bit or an identifier.
fn argument(text: &str, chars: &Vec<char>, i: usize) -> (r: Option<(String, usize)>)
    requires
        chars@ == text@,
        i <= chars@.len(),
    ensures
        yielded(r) == argument_at(chars@, i as int),
        r is Some ==> i < after(yielded(r)) <= chars@.len(),
{
    if i < chars.len() && (chars[i] == '0' || chars[i] == '1') {
        let piece: String = slice(text, i, i + 1);
        proof {
            assert(piece@ =~= seq![chars@[i as int]]);
        }
        Some((piece, i + 1))
    } else {
        identifier(text, chars, i)
    }
}

/// An argument with any space before and after it.
fn padded_argument(text: &str, chars: &Vec<char>, i: usize) -> (r: Option<(String, usize)>)
    requires
        chars@ == text@,
        i <= chars@.len(),
    ensures
        yielded(r) == padded_argument_at(chars@, i as int),
        r is Some ==> i < after(yielded(r)) <= chars@.len(),
{
    let start: usize = scan(chars, i, CharClass::Space);
    match argument(text, chars, start) {
        Some((value, end)) => Some((value, scan(chars, end, CharClass::Space))),
        None => None,
    }
}

/// One item of a comma-separated list.
fn item(text: &str, chars: &Vec<char>, i: usize, kind: ItemKind) -> (r: Option<(String, usize)>)
    requires
        chars@ == text@,
        i <= chars@.len(),
    ensures
        yielded(r) == item_at(chars@, i as int, kind),
        r is Some ==> i < after(yielded(r)) <= chars@.len(),
{
    match kind {
        ItemKind::Destination => destination(text, chars, i),
        ItemKind::Source => source(text, chars, i),
        ItemKind::Argument => padded_argument(text, chars, i),
    }
}

/// The items of a comma-separated list, possibly none, and where the list
/// ends.
fn items(text: &str, chars: &Vec<char>, i: usize, kind: ItemKind) -> (r: (Vec<String>, usize))
    requires
        chars@ == text@,
        i <= chars@.len(),
    ensures
        text_of(r.0@) == items_at(chars@, i as int, kind).0,
        r.1 == items_at(chars@, i as int, kind).1,
        i <= r.1 <= chars@.len(),
{
    let ghost s = chars@;
    let mut found: Vec<String> = Vec::new();
    let mut end: usize = i;
    match item(text, chars, i, kind) {
        Some((value, next)) => {
            found.push(value);
            end = next;
        },
        None => {
            assert(text_of(found@) =~= items_at(s, i as int, kind).0);
            return (found, i);
        },
    }
    assert(text_of(found@) =~= seq![found@[0]@]);
    loop
        invariant
            s == chars@,
            chars@ == text@,
            i <= end <= chars@.len(),
            items_at(s, i as int, kind).0 == text_of(found@) + more_items(s, end as int, kind).0,
            items_at(s, i as int, kind).1 == more_items(s, end as int, kind).1,
        ensures
            i <= end <= chars@.len(),
            items_at(s, i as int, kind).0 == text_of(found@),
            items_at(s, i as int, kind).1 == end,
        decreases chars@.len() - end,
    {
        let ghost before = text_of(found@);
        let step: Option<(String, usize)> = match expect(chars, end, ',') {
            Some(start) => item(text, chars, start, kind),
            None => None,
        };
        match step {
            Some((value, next)) => {
                found.push(value);
                proof {
                    assert(text_of(found@) =~= before.push(value@));
                    assert(before + (seq![value@] + more_items(s, next as int, kind).0)
                        =~= before.push(value@) + more_items(s, next as int, kind).0);
                }
                end = next;
            },
            None => {
                proof {
                    assert(item_at(s, at(literal(s, end as int, ',')), kind) is None) by {
                        lemma_item_advances(s, -1, kind);
                    }
                    assert(before + Seq::<Seq<char>>::empty() =~= before);
                }
                break ;
            },
        }
    }
    (found, end)
}

/// The rows of a table, possibly none, and where the table ends.
fn rows(text: &str, chars: &Vec<char>, i: usize) -> (r: (Vec<(String, String)>, usize))
    requires
        chars@ == text@,
        i <= chars@.len(),
    ensures
        rows_of(r.0@) == rows_at(chars@, i as int).0,
        r.1 == rows_at(chars@, i as int).1,
        i <= r.1 <= chars@.len(),
{
    let ghost s = chars@;
    let mut found: Vec<(String, String)> = Vec::new();
    let mut end: usize = i;
    match resolution_pattern(text, chars, i) {
        Some((row, next)) => {
            found.push(row);
            end = next;
        },
        None => {
            assert(rows_of(found@) =~= rows_at(s, i as int).0);
            return (found, i);
        },
    }
    assert(rows_of(found@) =~= seq![(found@[0].0@, found@[0].1@)]);
    loop
        invariant
            s == chars@,
            chars@ == text@,
            i <= end <= chars@.len(),
            rows_at(s, i as int).0 == rows_of(found@) + more_rows(s, end as int).0,
            rows_at(s, i as int).1 == more_rows(s, end as int).1,
        ensures
            i <= end <= chars@.len(),
            rows_at(s, i as int).0 == rows_of(found@),
            rows_at(s, i as int).1 == end,
        decreases chars@.len() - end,
    {
        let ghost before = rows_of(found@);
        let step: Option<((String, String), usize)> = match spaces1(chars, end) {
            Some(start) => resolution_pattern(text, chars, start),
            None => None,
        };
        match step {
            Some((row, next)) => {
                let ghost plain = (row.0@, row.1@);
                found.push(row);
                proof {
                    assert(rows_of(found@) =~= before.push(plain));
                    assert(before + (seq![plain] + more_rows(s, next as int).0) =~= before.push(
                        plain,
                    ) + more_rows(s, next as int).0);
                }
                end = next;
            },
            None => {
                proof {
                    assert(row_at(s, at(spaces(s, end as int))) is None) by {
                        lemma_row_advances(s, -1);
                    }
                    assert(before + Seq::<Row>::empty() =~= before);
                }
                break ;
            },
        }
    }
    (found, end)
}

/// A definition.
fn definition(text: &str, chars: &Vec<char>, i: usize) -> (r: Option<(Definition, usize)>)
    requires
        chars@ == text@,
        i <= chars@.len(),
    ensures
        match r {
            Some((definition, end)) => definition_at(chars@, i as int) == Some(
                (definition@, end as int),
            ) && i < end <= chars@.len(),
            None => definition_at(chars@, i as int) is None,
        },
{
    let ghost s = chars@;
    proof {
        let name = identifier_at(s, i as int);
        let opened = at(literal(s, at(literal(s, after(name), '[')), '('));
        let inputs = items_at(s, opened, ItemKind::Destination);
        let reopened = at(literal(s, at(literal(s, inputs.1, ')')), '('));
        let outputs = items_at(s, reopened, ItemKind::Source);
        let closed = at(literal(s, outputs.1, ')'));
        let header = at(literal(s, at(spaces(s, closed)), '['));
        let first = after(destination_at(s, header));
        let columns = after(destination_at(s, first));
        let bracket = at(literal(s, columns, ']'));
        let table = at(spaces(s, bracket));
        lemma_items_bounds(s, opened, ItemKind::Destination);
        lemma_items_bounds(s, reopened, ItemKind::Source);
        lemma_run_end_bounds(s, closed, CharClass::Space);
        lemma_item_advances(s, header, ItemKind::Destination);
        lemma_item_advances(s, first, ItemKind::Destination);
        lemma_run_end_bounds(s, bracket, CharClass::Space);
        lemma_rows_bounds(s, table);
        lemma_run_end_bounds(s, -1, CharClass::Identifier);
        lemma_definition_advances(s, i as int);
    }
    let (name, named) = match identifier(text, chars, i) {
        Some(step) => step,
        None => {
            return None;
        },
    };
    let bracket: usize = match expect(chars, named, '[') {
        Some(end) => end,
        None => {
            return None;
        },
    };
    let opened: usize = match expect(chars, bracket, '(') {
        Some(end) => end,
        None => {
            return None;
        },
    };
    let (inputs, listed) = items(text, chars, opened, ItemKind::Destination);
    let closed: usize = match expect(chars, listed, ')') {
        Some(end) => end,
        None => {
            return None;
        },
    };
    let reopened: usize = match expect(chars, closed, '(') {
        Some(end) => end,
        None => {
            return None;
        },
    };
    let (outputs, listed) = items(text, chars, reopened, ItemKind::Source);
    let closed: usize = match expect(chars, listed, ')') {
        Some(end) => end,
        None => {
            return None;
        },
    };
    let gap: usize = match spaces1(chars, closed) {
        Some(end) => end,
        None => {
            return None;
        },
    };
    let header: usize = match expect(chars, gap, '[') {
        Some(end) => end,
        None => {
            return None;
        },
    };
    let columns: usize = match resolution_inputs(text, chars, header) {
        Some(end) => end,
        None => {
            return None;
        },
    };
    let bracket: usize = match expect(chars, columns, ']') {
        Some(end) => end,
        None => {
            return None;
        },
    };
    let table: usize = match spaces1(chars, bracket) {
        Some(end) => end,
        None => {
            return None;
        },
    };
    let (patterns, listed) = rows(text, chars, table);
    match expect(chars, listed, ']') {
        Some(end) => Some(
            (Definition { name, inputs, outputs, resolution: ResolutionTable { patterns } }, end),
        ),
        None => None,
    }
}

/// An invocation.
fn invocation(text: &str, chars: &Vec<char>, i: usize) -> (r: Option<(Invocation, usize)>)
    requires
        chars@ == text@,
        i <= chars@.len(),
    ensures
        match r {
            Some((invocation, end)) => invocation_at(chars@, i as int) == Some(
                (invocation@, end as int),
            ) && i < end <= chars@.len(),
            None => invocation_at(chars@, i as int) is None,
        },
{
    let ghost s = chars@;
    proof {
        let dest = identifier_at(s, i as int);
        let function = identifier_at(s, at(literal(s, after(dest), '<')));
        let opened = at(literal(s, after(function), '('));
        lemma_items_bounds(s, opened, ItemKind::Argument);
        lemma_run_end_bounds(s, -1, CharClass::Identifier);
        lemma_invocation_advances(s, i as int);
    }
    let (dest, named) = match identifier(text, chars, i) {
        Some(step) => step,
        None => {
            return None;
        },
    };
    let start: usize = match expect(chars, named, '<') {
        Some(end) => end,
        None => {
            return None;
        },
    };
    let (function, named) = match identifier(text, chars, start) {
        Some(step) => step,
        None => {
            return None;
        },
    };
    let opened: usize = match expect(chars, named, '(') {
        Some(end) => end,
        None => {
            return None;
        },
    };
    let (arguments, listed) = items(text, chars, opened, ItemKind::Argument);
    let closed: usize = match expect(chars, listed, ')') {
        Some(end) => end,
        None => {
            return None;
        },
    };
    match expect(chars, closed, '>') {
        Some(end) => Some((Invocation { dest, function, arguments }, end)),
        None => None,
    }
}

/// A definition, or else an invocation.
fn node(text: &str, chars: &Vec<char>, i: usize) -> (r: Option<(InvocationNode, usize)>)
    requires
        chars@ == text@,
        i <= chars@.len(),
    ensures
        match r {
            Some((node, end)) => node_at(chars@, i as int) == Some((node@, end as int)) && i < end
                <= chars@.len(),
            None => node_at(chars@, i as int) is None,
        },
{
    match definition(text, chars, i) {
        Some((definition, end)) => Some((InvocationNode::Definition(definition), end)),
        None => match invocation(text, chars, i) {
            Some((invocation, end)) => Some((InvocationNode::Invocation(invocation), end)),
            None => None,
        },
    }
}

/// The nodes of the text, with blanks before, between and after them, and
/// where the first text begins that is no node.
fn program(text: &str, chars: &Vec<char>) -> (r: (Vec<InvocationNode>, usize))
    requires
        chars@ == text@,
    ensures
        nodes_of(r.0@) == nodes_at(chars@, blank_end(chars@, 0)).0,
        r.1 == nodes_at(chars@, blank_end(chars@, 0)).1,
        r.1 <= chars@.len(),
{
    let ghost s = chars@;
    let start: usize = ws(chars, 0);
    let mut found: Vec<InvocationNode> = Vec::new();
    let mut end: usize = start;
    assert(nodes_of(found@) + nodes_at(s, end as int).0 =~= nodes_at(s, end as int).0);
    loop
        invariant
            s == chars@,
            chars@ == text@,
            end <= chars@.len(),
            nodes_at(s, start as int).0 == nodes_of(found@) + nodes_at(s, end as int).0,
            nodes_at(s, start as int).1 == nodes_at(s, end as int).1,
        ensures
            end <= chars@.len(),
            nodes_at(s, start as int).0 == nodes_of(found@),
            nodes_at(s, start as int).1 == end,
        decreases chars@.len() - end,
    {
        let ghost before = nodes_of(found@);
        match node(text, chars, end) {
            Some((item, next)) => {
                let ghost plain = item@;
                found.push(item);
                let resumed: usize = ws(chars, next);
                proof {
                    assert(nodes_of(found@) =~= before.push(plain));
                    assert(before + (seq![plain] + nodes_at(s, resumed as int).0) =~= before.push(
                        plain,
                    ) + nodes_at(s, resumed as int).0);
                }
                end = resumed;
            },
            None => {
                proof {
                    assert(before + Seq::<NodeView>::empty() =~= before);
                }
                break ;
            },
        }
    }
    (found, end)
}

/// Parses a program.
///
/// Returns the nodes of the program, in order, if the whole text is one.
/// Otherwise fails with `InvalidInput`, whose message ends with the rest of
/// the text from the first position on at which no node begins.
pub fn parse(input: &str) -> (r: Result<Vec<InvocationNode>, ParseError>)
    ensures
        match parsed(input@) {
            Ok(nodes) => r is Ok && nodes_of(r->Ok_0@) == nodes,
            Err(e) => r is Err && r->Err_0@ == e,
        },
{
    let chars: Vec<char> = chars_of(input);
    let (nodes, end) = program(input, &chars);
    if end == chars.len() {
        Ok(nodes)
    } else {
        let rest: &str = input.substring_char(end, chars.len());
        Err(ParseError::InvalidInput(String::from_str("Unparsed input remaining: ").concat(rest)))
    }
}

} // verus!
