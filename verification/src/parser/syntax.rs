//! The grammar of the description language, over the characters of a text.
//!
//! ```text
//! program     = blank { node blank }
//! node        = definition | invocation
//! definition  = identifier "[" "(" [ destination { "," destination } ] ")"
//!               "(" [ source { "," source } ] ")" spaces
//!               "[" destination destination "]" spaces
//!               [ row { spaces row } ] "]"
//! invocation  = identifier "<" identifier "(" [ argument { "," argument } ] ")" ">"
//! destination = "$" identifier
//! source      = identifier "<" ">"
//! row         = bits ":" bits
//! argument    = { space } ( "0" | "1" | identifier ) { space }
//! blank       = { space | "#" { any but newline } newline }
//! ```
//!
//! Every repetition is greedy: it takes as much as it can and never gives
//! anything back. A list ends before a separator that no item follows. A
//! definition is tried before an invocation.
//!
//! A position in the text is a number of characters. A step that fails
//! yields the position `-1`, at which every further step fails.

use vstd::prelude::*;

use crate::parser::ast::{DefinitionView, InvocationView, NodeView, Row};

verus! {

/// A `ParseError` as plain values.
pub enum ParseErrorView {
    Nom(Seq<char>),
    InvalidInput(Seq<char>),
}

/// Whether `c` is a letter or a digit of any script.
pub uninterp spec fn alphanumeric(c: char) -> bool;

/// Calls `char::is_alphanumeric`. The result is a fixed property of the
/// character; nothing more is claimed of it.
#[verifier::external_body]
fn is_alphanumeric(c: char) -> (b: bool)
    ensures
        b == alphanumeric(c),
{
    c.is_alphanumeric()
}

/// The classes of characters that runs are made of.
#[derive(Debug, Clone, Copy, PartialEq, Eq, Structural)]
pub enum CharClass {
    /// Letters, digits and the underscore.
    Identifier,
    /// `0` and `1`.
    Bit,
    /// Space, tab, carriage return and newline.
    Space,
    /// Everything but the newline.
    NotNewline,
}

impl CharClass {
    /// Whether `c` belongs to the class.
    pub open spec fn holds(self, c: char) -> bool {
        match self {
            CharClass::Identifier => alphanumeric(c) || c == '_',
            CharClass::Bit => c == '0' || c == '1',
            CharClass::Space => c == ' ' || c == '\t' || c == '\r' || c == '\n',
            CharClass::NotNewline => c != '\n',
        }
    }

    /// Whether `c` belongs to the class.
    pub fn test(self, c: char) -> (b: bool)
        ensures
            b == self.holds(c),
    {
        match self {
            CharClass::Identifier => is_alphanumeric(c) || c == '_',
            CharClass::Bit => c == '0' || c == '1',
            CharClass::Space => c == ' ' || c == '\t' || c == '\r' || c == '\n',
            CharClass::NotNewline => c != '\n',
        }
    }
}

/// The kinds of item a comma-separated list is made of.
#[derive(Debug, Clone, Copy, PartialEq, Eq, Structural)]
pub enum ItemKind {
    Destination,
    Source,
    Argument,
}

/// The end of a step that yields a position: `-1` if it failed.
pub open spec fn at(step: Option<int>) -> int {
    match step {
        Some(end) => end,
        None => -1,
    }
}

/// The end of a step that yields a value and a position: `-1` if it failed.
pub open spec fn after<T>(step: Option<(T, int)>) -> int {
    match step {
        Some((_, end)) => end,
        None => -1,
    }
}

/// Where the longest run of characters of `class` that starts at `i` ends.
pub open spec fn run_end(s: Seq<char>, i: int, class: CharClass) -> int
    decreases s.len() - i,
{
    if 0 <= i < s.len() && class.holds(s[i]) {
        run_end(s, i + 1, class)
    } else {
        i
    }
}

/// The longest run of characters of `class` that starts at `i`, if it is
/// not empty.
pub open spec fn run(s: Seq<char>, i: int, class: CharClass) -> Option<(Seq<char>, int)> {
    let end = run_end(s, i, class);
    if end > i {
        Some((s.subrange(i, end), end))
    } else {
        None
    }
}

/// The character `c` at position `i`.
pub open spec fn literal(s: Seq<char>, i: int, c: char) -> Option<int> {
    if 0 <= i < s.len() && s[i] == c {
        Some(i + 1)
    } else {
        None
    }
}

/// One or more characters of space.
pub open spec fn spaces(s: Seq<char>, i: int) -> Option<int> {
    let end = run_end(s, i, CharClass::Space);
    if end > i {
        Some(end)
    } else {
        None
    }
}

/// An identifier: one or more letters, digits and underscores.
pub open spec fn identifier_at(s: Seq<char>, i: int) -> Option<(Seq<char>, int)> {
    run(s, i, CharClass::Identifier)
}

/// `$` and an identifier; the value is the identifier.
pub open spec fn destination_at(s: Seq<char>, i: int) -> Option<(Seq<char>, int)> {
    identifier_at(s, at(literal(s, i, '$')))
}

/// An identifier, `<` and `>`; the value is the identifier.
pub open spec fn source_at(s: Seq<char>, i: int) -> Option<(Seq<char>, int)> {
    let name = identifier_at(s, i);
    let close = literal(s, at(literal(s, after(name), '<')), '>');
    match (name, close) {
        (Some((value, _)), Some(end)) => Some((value, end)),
        _ => None,
    }
}

/// A literal bit or an identifier. A text that starts with a bit is that
/// bit, whatever follows.
pub open spec fn argument_at(s: Seq<char>, i: int) -> Option<(Seq<char>, int)> {
    if literal(s, i, '0') is Some {
        Some((seq!['0'], i + 1))
    } else if literal(s, i, '1') is Some {
        Some((seq!['1'], i + 1))
    } else {
        identifier_at(s, i)
    }
}

/// An argument with any space before and after it.
pub open spec fn padded_argument_at(s: Seq<char>, i: int) -> Option<(Seq<char>, int)> {
    match argument_at(s, run_end(s, i, CharClass::Space)) {
        Some((value, end)) => Some((value, run_end(s, end, CharClass::Space))),
        None => None,
    }
}

/// One item of a comma-separated list.
pub open spec fn item_at(s: Seq<char>, i: int, kind: ItemKind) -> Option<(Seq<char>, int)> {
    match kind {
        ItemKind::Destination => destination_at(s, i),
        ItemKind::Source => source_at(s, i),
        ItemKind::Argument => padded_argument_at(s, i),
    }
}

/// The items of a list after the first, each with a comma before it, and
/// where the list ends. The list ends before a comma that no item follows.
pub open spec fn more_items(s: Seq<char>, i: int, kind: ItemKind) -> (Seq<Seq<char>>, int)
    decreases s.len() - i,
{
    match item_at(s, at(literal(s, i, ',')), kind) {
        Some((value, end)) => {
            proof {
                lemma_item_advances(s, i + 1, kind);
            }
            let rest = more_items(s, end, kind);
            (seq![value] + rest.0, rest.1)
        },
        None => (Seq::<Seq<char>>::empty(), i),
    }
}

/// The items of a comma-separated list, possibly none, and where the list
/// ends.
pub open spec fn items_at(s: Seq<char>, i: int, kind: ItemKind) -> (Seq<Seq<char>>, int) {
    match item_at(s, i, kind) {
        Some((value, end)) => (
            seq![value] + more_items(s, end, kind).0,
            more_items(s, end, kind).1,
        ),
        None => (Seq::<Seq<char>>::empty(), i),
    }
}

/// A row of a truth table: bits, a colon, and bits.
pub open spec fn row_at(s: Seq<char>, i: int) -> Option<(Row, int)> {
    let pattern = run(s, i, CharClass::Bit);
    let value = run(s, at(literal(s, after(pattern), ':')), CharClass::Bit);
    match (pattern, value) {
        (Some((p, _)), Some((v, end))) => Some(((p, v), end)),
        _ => None,
    }
}

/// The rows of a table after the first, each with space before it, and
/// where the table ends. The table ends before space that no row follows.
pub open spec fn more_rows(s: Seq<char>, i: int) -> (Seq<Row>, int)
    decreases s.len() - i,
{
    match row_at(s, at(spaces(s, i))) {
        Some((value, end)) => {
            proof {
                lemma_run_end_bounds(s, i, CharClass::Space);
                lemma_row_advances(s, at(spaces(s, i)));
            }
            let rest = more_rows(s, end);
            (seq![value] + rest.0, rest.1)
        },
        None => (Seq::<Row>::empty(), i),
    }
}

/// The rows of a table, possibly none, and where the table ends.
pub open spec fn rows_at(s: Seq<char>, i: int) -> (Seq<Row>, int) {
    match row_at(s, i) {
        Some((value, end)) => (seq![value] + more_rows(s, end).0, more_rows(s, end).1),
        None => (Seq::<Row>::empty(), i),
    }
}

/// A definition. The two destinations in the inner brackets are required
/// and carry no meaning.
pub open spec fn definition_at(s: Seq<char>, i: int) -> Option<(DefinitionView, int)> {
    let name = identifier_at(s, i);
    let opened = at(literal(s, at(literal(s, after(name), '[')), '('));
    let inputs = items_at(s, opened, ItemKind::Destination);
    let reopened = at(literal(s, at(literal(s, inputs.1, ')')), '('));
    let outputs = items_at(s, reopened, ItemKind::Source);
    let header = at(literal(s, at(spaces(s, at(literal(s, outputs.1, ')')))), '['));
    let columns = after(destination_at(s, after(destination_at(s, header))));
    let table = at(spaces(s, at(literal(s, columns, ']'))));
    let rows = rows_at(s, table);
    match (name, literal(s, rows.1, ']')) {
        (Some((name, _)), Some(end)) => Some(
            (DefinitionView { name, inputs: inputs.0, outputs: outputs.0, rows: rows.0 }, end),
        ),
        _ => None,
    }
}

/// An invocation.
pub open spec fn invocation_at(s: Seq<char>, i: int) -> Option<(InvocationView, int)> {
    let dest = identifier_at(s, i);
    let function = identifier_at(s, at(literal(s, after(dest), '<')));
    let arguments = items_at(s, at(literal(s, after(function), '(')), ItemKind::Argument);
    match (dest, function, literal(s, at(literal(s, arguments.1, ')')), '>')) {
        (Some((dest, _)), Some((function, _)), Some(end)) => Some(
            (InvocationView { dest, function, arguments: arguments.0 }, end),
        ),
        _ => None,
    }
}

/// A definition, or else an invocation.
pub open spec fn node_at(s: Seq<char>, i: int) -> Option<(NodeView, int)> {
    match definition_at(s, i) {
        Some((d, end)) => Some((NodeView::Definition(d), end)),
        None => match invocation_at(s, i) {
            Some((v, end)) => Some((NodeView::Invocation(v), end)),
            None => None,
        },
    }
}

/// A comment: `#`, anything up to the end of the line, and the newline.
/// Without the newline it is no comment.
pub open spec fn comment_at(s: Seq<char>, i: int) -> Option<int> {
    literal(s, run_end(s, at(literal(s, i, '#')), CharClass::NotNewline), '\n')
}

/// Where the space and the comments that start at `i` end.
pub open spec fn blank_end(s: Seq<char>, i: int) -> int
    decreases s.len() - i,
{
    if 0 <= i < s.len() && CharClass::Space.holds(s[i]) {
        blank_end(s, i + 1)
    } else {
        match comment_at(s, i) {
            Some(end) => {
                proof {
                    lemma_run_end_bounds(s, i + 1, CharClass::NotNewline);
                }
                blank_end(s, end)
            },
            None => i,
        }
    }
}

/// The nodes that follow each other from `i` on, with blanks between them,
/// and where the first text begins that is no node.
pub open spec fn nodes_at(s: Seq<char>, i: int) -> (Seq<NodeView>, int)
    decreases s.len() - i,
{
    match node_at(s, i) {
        Some((node, end)) => {
            proof {
                lemma_node_advances(s, i);
                lemma_blank_end_bounds(s, end);
            }
            let rest = nodes_at(s, blank_end(s, end));
            (seq![node] + rest.0, rest.1)
        },
        None => (Seq::<NodeView>::empty(), i),
    }
}

/// The text that says what was left over.
pub open spec fn leftover_message(rest: Seq<char>) -> Seq<char> {
    "Unparsed input remaining: "@ + rest
}

/// What a text parses to: the nodes of the program if the whole text is
/// one, and otherwise the rest of the text from the first position on at
/// which no node begins.
pub open spec fn parsed(s: Seq<char>) -> Result<Seq<NodeView>, ParseErrorView> {
    let program = nodes_at(s, blank_end(s, 0));
    if program.1 == s.len() {
        Ok(program.0)
    } else {
        Err(ParseErrorView::InvalidInput(leftover_message(s.subrange(program.1, s.len() as int))))
    }
}

/// A run ends at or after its start and inside the text.
pub proof fn lemma_run_end_bounds(s: Seq<char>, i: int, class: CharClass)
    ensures
        0 <= i <= s.len() ==> i <= run_end(s, i, class) <= s.len(),
        !(0 <= i <= s.len()) ==> run_end(s, i, class) == i,
        forall|k: int| i <= k < run_end(s, i, class) ==> class.holds(#[trigger] s[k]),
        0 <= run_end(s, i, class) < s.len() ==> !class.holds(s[run_end(s, i, class)]),
    decreases s.len() - i,
{
    if 0 <= i < s.len() && class.holds(s[i]) {
        lemma_run_end_bounds(s, i + 1, class);
    }
}

/// An item that starts inside the text ends after its start and inside the
/// text; none starts elsewhere.
pub proof fn lemma_item_advances(s: Seq<char>, i: int, kind: ItemKind)
    ensures
        item_at(s, i, kind) is Some ==> 0 <= i < after(item_at(s, i, kind)) <= s.len(),
{
    lemma_run_end_bounds(s, i, CharClass::Identifier);
    lemma_run_end_bounds(s, i + 1, CharClass::Identifier);
    lemma_run_end_bounds(s, i, CharClass::Space);
    let start = run_end(s, i, CharClass::Space);
    lemma_run_end_bounds(s, start, CharClass::Identifier);
    match argument_at(s, start) {
        Some((_, end)) => {
            lemma_run_end_bounds(s, end, CharClass::Space);
        },
        None => {},
    }
}

/// A row that starts inside the text ends after its start and inside the
/// text; none starts elsewhere.
pub proof fn lemma_row_advances(s: Seq<char>, i: int)
    ensures
        row_at(s, i) is Some ==> 0 <= i < after(row_at(s, i)) <= s.len(),
{
    lemma_run_end_bounds(s, i, CharClass::Bit);
    lemma_run_end_bounds(s, at(literal(s, after(run(s, i, CharClass::Bit)), ':')), CharClass::Bit);
}

/// A list ends at or after its start and inside the text.
pub proof fn lemma_more_items_bounds(s: Seq<char>, i: int, kind: ItemKind)
    ensures
        0 <= i <= s.len() ==> i <= more_items(s, i, kind).1 <= s.len(),
        !(0 <= i <= s.len()) ==> more_items(s, i, kind).1 == i,
    decreases s.len() - i,
{
    match item_at(s, at(literal(s, i, ',')), kind) {
        Some((_, end)) => {
            lemma_item_advances(s, i + 1, kind);
            lemma_more_items_bounds(s, end, kind);
        },
        None => {},
    }
}

/// A list ends at or after its start and inside the text.
pub proof fn lemma_items_bounds(s: Seq<char>, i: int, kind: ItemKind)
    ensures
        0 <= i <= s.len() ==> i <= items_at(s, i, kind).1 <= s.len(),
        !(0 <= i <= s.len()) ==> items_at(s, i, kind).1 == i,
{
    lemma_item_advances(s, i, kind);
    match item_at(s, i, kind) {
        Some((_, end)) => {
            lemma_more_items_bounds(s, end, kind);
        },
        None => {},
    }
}

/// A table ends at or after its start and inside the text.
pub proof fn lemma_more_rows_bounds(s: Seq<char>, i: int)
    ensures
        0 <= i <= s.len() ==> i <= more_rows(s, i).1 <= s.len(),
        !(0 <= i <= s.len()) ==> more_rows(s, i).1 == i,
    decreases s.len() - i,
{
    lemma_run_end_bounds(s, i, CharClass::Space);
    match row_at(s, at(spaces(s, i))) {
        Some((_, end)) => {
            lemma_row_advances(s, at(spaces(s, i)));
            lemma_more_rows_bounds(s, end);
        },
        None => {},
    }
}

/// A table ends at or after its start and inside the text.
pub proof fn lemma_rows_bounds(s: Seq<char>, i: int)
    ensures
        0 <= i <= s.len() ==> i <= rows_at(s, i).1 <= s.len(),
        !(0 <= i <= s.len()) ==> rows_at(s, i).1 == i,
{
    lemma_row_advances(s, i);
    match row_at(s, i) {
        Some((_, end)) => {
            lemma_more_rows_bounds(s, end);
        },
        None => {},
    }
}

/// A definition that starts inside the text ends after its start and
/// inside the text; none starts elsewhere.
pub proof fn lemma_definition_advances(s: Seq<char>, i: int)
    ensures
        definition_at(s, i) is Some ==> 0 <= i < after(definition_at(s, i)) <= s.len(),
{
    let name = identifier_at(s, i);
    let opened = at(literal(s, at(literal(s, after(name), '[')), '('));
    let inputs = items_at(s, opened, ItemKind::Destination);
    let reopened = at(literal(s, at(literal(s, inputs.1, ')')), '('));
    let outputs = items_at(s, reopened, ItemKind::Source);
    let closed = at(literal(s, outputs.1, ')'));
    let header = at(literal(s, at(spaces(s, closed)), '['));
    let first = after(destination_at(s, header));
    let columns = after(destination_at(s, first));
    let bracket = at(literal(s, columns, ']'));
    let table = at(spaces(s, bracket));
    let rows = rows_at(s, table);
    lemma_run_end_bounds(s, i, CharClass::Identifier);
    lemma_items_bounds(s, opened, ItemKind::Destination);
    lemma_items_bounds(s, reopened, ItemKind::Source);
    lemma_run_end_bounds(s, closed, CharClass::Space);
    lemma_item_advances(s, header, ItemKind::Destination);
    lemma_item_advances(s, first, ItemKind::Destination);
    lemma_run_end_bounds(s, bracket, CharClass::Space);
    lemma_rows_bounds(s, table);
}

/// An invocation that starts inside the text ends after its start and
/// inside the text; none starts elsewhere.
pub proof fn lemma_invocation_advances(s: Seq<char>, i: int)
    ensures
        invocation_at(s, i) is Some ==> 0 <= i < after(invocation_at(s, i)) <= s.len(),
{
    let dest = identifier_at(s, i);
    let named = at(literal(s, after(dest), '<'));
    let function = identifier_at(s, named);
    let opened = at(literal(s, after(function), '('));
    let arguments = items_at(s, opened, ItemKind::Argument);
    lemma_run_end_bounds(s, i, CharClass::Identifier);
    lemma_run_end_bounds(s, named, CharClass::Identifier);
    lemma_items_bounds(s, opened, ItemKind::Argument);
}

/// A node that starts inside the text ends after its start and inside the
/// text; none starts elsewhere.
pub proof fn lemma_node_advances(s: Seq<char>, i: int)
    ensures
        node_at(s, i) is Some ==> 0 <= i < after(node_at(s, i)) <= s.len(),
{
    lemma_definition_advances(s, i);
    lemma_invocation_advances(s, i);
}

/// A comment that starts inside the text ends after its start and inside
/// the text; none starts elsewhere.
pub proof fn lemma_comment_advances(s: Seq<char>, i: int)
    ensures
        comment_at(s, i) is Some ==> 0 <= i < at(comment_at(s, i)) <= s.len(),
{
    lemma_run_end_bounds(s, i + 1, CharClass::NotNewline);
    lemma_run_end_bounds(s, -1, CharClass::NotNewline);
}

/// Blanks end at or after their start and inside the text.
pub proof fn lemma_blank_end_bounds(s: Seq<char>, i: int)
    ensures
        0 <= i <= s.len() ==> i <= blank_end(s, i) <= s.len(),
    decreases s.len() - i,
{
    if 0 <= i < s.len() && CharClass::Space.holds(s[i]) {
        lemma_blank_end_bounds(s, i + 1);
    } else {
        lemma_comment_advances(s, i);
        match comment_at(s, i) {
            Some(end) => {
                lemma_blank_end_bounds(s, end);
            },
            None => {},
        }
    }
}

} // verus!
