//! The path micro-language: the `d` attribute as a sequence of commands.

use vstd::prelude::*;

use crate::error::{PathError, SavageError};
use crate::number::{formatted, number_at, valid_number, Number, NumberView};
use crate::text::{
    extend, extend_str, from_chars, is_ascii_space, is_digit, is_letter, lower, slice, to_chars,
};

verus! {

/// One path command. Every command but `ClosePath` says whether its
/// operands are relative to the current point.
#[derive(Debug, Clone, PartialEq)]
pub enum Command {
    MoveTo { rel: bool, x: Number, y: Number },
    LineTo { rel: bool, x: Number, y: Number },
    HorizontalTo { rel: bool, x: Number },
    VerticalTo { rel: bool, y: Number },
    CurveTo { rel: bool, x1: Number, y1: Number, x2: Number, y2: Number, x: Number, y: Number },
    SmoothCurveTo { rel: bool, x2: Number, y2: Number, x: Number, y: Number },
    QuadTo { rel: bool, x1: Number, y1: Number, x: Number, y: Number },
    SmoothQuadTo { rel: bool, x: Number, y: Number },
    Arc {
        rel: bool,
        rx: Number,
        ry: Number,
        x_axis_rotation: Number,
        large_arc: bool,
        sweep: bool,
        x: Number,
        y: Number,
    },
    ClosePath,
}

/// A parsed path.
#[derive(Debug, Clone, PartialEq)]
pub struct Path {
    pub commands: Vec<Command>,
}

/// The model of a command.
pub enum CommandView {
    MoveTo { rel: bool, x: NumberView, y: NumberView },
    LineTo { rel: bool, x: NumberView, y: NumberView },
    HorizontalTo { rel: bool, x: NumberView },
    VerticalTo { rel: bool, y: NumberView },
    CurveTo {
        rel: bool,
        x1: NumberView,
        y1: NumberView,
        x2: NumberView,
        y2: NumberView,
        x: NumberView,
        y: NumberView,
    },
    SmoothCurveTo { rel: bool, x2: NumberView, y2: NumberView, x: NumberView, y: NumberView },
    QuadTo { rel: bool, x1: NumberView, y1: NumberView, x: NumberView, y: NumberView },
    SmoothQuadTo { rel: bool, x: NumberView, y: NumberView },
    Arc {
        rel: bool,
        rx: NumberView,
        ry: NumberView,
        x_axis_rotation: NumberView,
        large_arc: bool,
        sweep: bool,
        x: NumberView,
        y: NumberView,
    },
    ClosePath,
}

/// An operand of a command: a number or, in an arc, one of its two flags.
pub enum OperandView {
    Number(NumberView),
    Flag(bool),
}

impl View for Command {
    type V = CommandView;

    open spec fn view(&self) -> CommandView {
        match self {
            Command::MoveTo { rel, x, y } => CommandView::MoveTo { rel: *rel, x: x@, y: y@ },
            Command::LineTo { rel, x, y } => CommandView::LineTo { rel: *rel, x: x@, y: y@ },
            Command::HorizontalTo { rel, x } => CommandView::HorizontalTo { rel: *rel, x: x@ },
            Command::VerticalTo { rel, y } => CommandView::VerticalTo { rel: *rel, y: y@ },
            Command::CurveTo { rel, x1, y1, x2, y2, x, y } => CommandView::CurveTo {
                rel: *rel,
                x1: x1@,
                y1: y1@,
                x2: x2@,
                y2: y2@,
                x: x@,
                y: y@,
            },
            Command::SmoothCurveTo { rel, x2, y2, x, y } => CommandView::SmoothCurveTo {
                rel: *rel,
                x2: x2@,
                y2: y2@,
                x: x@,
                y: y@,
            },
            Command::QuadTo { rel, x1, y1, x, y } => CommandView::QuadTo {
                rel: *rel,
                x1: x1@,
                y1: y1@,
                x: x@,
                y: y@,
            },
            Command::SmoothQuadTo { rel, x, y } => CommandView::SmoothQuadTo {
                rel: *rel,
                x: x@,
                y: y@,
            },
            Command::Arc { rel, rx, ry, x_axis_rotation, large_arc, sweep, x, y } => CommandView::Arc {
                rel: *rel,
                rx: rx@,
                ry: ry@,
                x_axis_rotation: x_axis_rotation@,
                large_arc: *large_arc,
                sweep: *sweep,
                x: x@,
                y: y@,
            },
            Command::ClosePath => CommandView::ClosePath,
        }
    }
}

/// The model of a list of commands.
pub open spec fn commands_view(s: Seq<Command>) -> Seq<CommandView> {
    Seq::new(s.len(), |i: int| s[i]@)
}

impl View for Path {
    type V = Seq<CommandView>;

    open spec fn view(&self) -> Seq<CommandView> {
        commands_view(self.commands@)
    }
}

/// The lower-case letter for a relative command, the upper-case one for an
/// absolute one.
pub open spec fn pick(rel: bool, lower: char, upper: char) -> char {
    if rel {
        lower
    } else {
        upper
    }
}

/// The letter that stands for a command in path data. A closed path is
/// always written `z`.
pub open spec fn letter(c: CommandView) -> char {
    match c {
        CommandView::MoveTo { rel, .. } => pick(rel, 'm', 'M'),
        CommandView::LineTo { rel, .. } => pick(rel, 'l', 'L'),
        CommandView::HorizontalTo { rel, .. } => pick(rel, 'h', 'H'),
        CommandView::VerticalTo { rel, .. } => pick(rel, 'v', 'V'),
        CommandView::CurveTo { rel, .. } => pick(rel, 'c', 'C'),
        CommandView::SmoothCurveTo { rel, .. } => pick(rel, 's', 'S'),
        CommandView::QuadTo { rel, .. } => pick(rel, 'q', 'Q'),
        CommandView::SmoothQuadTo { rel, .. } => pick(rel, 't', 'T'),
        CommandView::Arc { rel, .. } => pick(rel, 'a', 'A'),
        CommandView::ClosePath => 'z',
    }
}

/// The operands of a command, in the order in which path data lists them.
pub open spec fn operands(c: CommandView) -> Seq<OperandView> {
    match c {
        CommandView::MoveTo { x, y, .. } => seq![OperandView::Number(x), OperandView::Number(y)],
        CommandView::LineTo { x, y, .. } => seq![OperandView::Number(x), OperandView::Number(y)],
        CommandView::HorizontalTo { x, .. } => seq![OperandView::Number(x)],
        CommandView::VerticalTo { y, .. } => seq![OperandView::Number(y)],
        CommandView::CurveTo { x1, y1, x2, y2, x, y, .. } => seq![
            OperandView::Number(x1),
            OperandView::Number(y1),
            OperandView::Number(x2),
            OperandView::Number(y2),
            OperandView::Number(x),
            OperandView::Number(y),
        ],
        CommandView::SmoothCurveTo { x2, y2, x, y, .. } => seq![
            OperandView::Number(x2),
            OperandView::Number(y2),
            OperandView::Number(x),
            OperandView::Number(y),
        ],
        CommandView::QuadTo { x1, y1, x, y, .. } => seq![
            OperandView::Number(x1),
            OperandView::Number(y1),
            OperandView::Number(x),
            OperandView::Number(y),
        ],
        CommandView::SmoothQuadTo { x, y, .. } => seq![
            OperandView::Number(x),
            OperandView::Number(y),
        ],
        CommandView::Arc { rx, ry, x_axis_rotation, large_arc, sweep, x, y, .. } => seq![
            OperandView::Number(rx),
            OperandView::Number(ry),
            OperandView::Number(x_axis_rotation),
            OperandView::Flag(large_arc),
            OperandView::Flag(sweep),
            OperandView::Number(x),
            OperandView::Number(y),
        ],
        CommandView::ClosePath => Seq::empty(),
    }
}

/// Whether an operand, if it is a number, has decimal digits only.
pub open spec fn valid_operand(op: OperandView) -> bool {
    match op {
        OperandView::Number(n) => valid_number(n),
        OperandView::Flag(_) => true,
    }
}

/// Whether every number among the operands has decimal digits only.
pub open spec fn valid_operands(ops: Seq<OperandView>) -> bool {
    forall|i: int| 0 <= i < ops.len() ==> valid_operand(#[trigger] ops[i])
}

/// Whether every number of the command has decimal digits only.
pub open spec fn valid_command(c: CommandView) -> bool {
    valid_operands(operands(c))
}

/// Whether every number of every command has decimal digits only.
pub open spec fn valid_commands(cmds: Seq<CommandView>) -> bool {
    forall|j: int| 0 <= j < cmds.len() ==> valid_command(#[trigger] cmds[j])
}

/// How an operand is written: a number in its shortest form at `k`
/// fractional digits, a flag as `0` or `1`.
pub open spec fn token_text(op: OperandView, k: nat) -> Seq<char> {
    match op {
        OperandView::Number(n) => formatted(n, k),
        OperandView::Flag(b) => if b {
            seq!['1']
        } else {
            seq!['0']
        },
    }
}

/// Whether a number can begin with `c`, or go on with it: a digit or a point.
pub open spec fn starts_number(c: char) -> bool {
    is_digit(c) || c == '.'
}

/// `out` followed by `token`, with one space between them where the two
/// would otherwise read as one number.
pub open spec fn append_token(out: Seq<char>, token: Seq<char>) -> Seq<char> {
    if out.len() > 0 && token.len() > 0 && starts_number(out.last()) && starts_number(token[0]) {
        out.push(' ') + token
    } else {
        out + token
    }
}

/// Whether the letter `c` has to be written after the letter `prev`. It is
/// left out where it repeats the previous letter and where a line follows a
/// move of the same kind. A command without operands is always written.
pub open spec fn needs_letter(prev: Option<char>, c: char, operand_count: nat) -> bool {
    operand_count == 0 || match prev {
        None => true,
        Some(p) => !(p == 'M' && c == 'L') && !(p == 'm' && c == 'l') && p != c,
    }
}

/// `out` followed by the operands, one token after the other.
pub open spec fn emit_operands(out: Seq<char>, ops: Seq<OperandView>, k: nat) -> Seq<char>
    decreases ops.len(),
{
    if ops.len() == 0 {
        out
    } else {
        append_token(emit_operands(out, ops.drop_last(), k), token_text(ops.last(), k))
    }
}

/// `out` followed by a command: its letter where it has to be written, then
/// its operands.
pub open spec fn emit_command(out: Seq<char>, prev: Option<char>, c: CommandView, k: nat) -> Seq<
    char,
> {
    let ops = operands(c);
    let with_letter = if needs_letter(prev, letter(c), ops.len()) {
        out.push(letter(c))
    } else {
        out
    };
    emit_operands(with_letter, ops, k)
}

/// The letter of the last command, if there is one.
pub open spec fn last_letter(cmds: Seq<CommandView>) -> Option<char> {
    if cmds.len() == 0 {
        None
    } else {
        Some(letter(cmds.last()))
    }
}

/// The compact text of a path at `k` fractional digits.
pub open spec fn serialized(cmds: Seq<CommandView>, k: nat) -> Seq<char>
    decreases cmds.len(),
{
    if cmds.len() == 0 {
        Seq::empty()
    } else {
        emit_command(
            serialized(cmds.drop_last(), k),
            last_letter(cmds.drop_last()),
            cmds.last(),
            k,
        )
    }
}

fn pick_letter(rel: bool, lower: char, upper: char) -> (r: char)
    ensures
        r == pick(rel, lower, upper),
{
    if rel {
        lower
    } else {
        upper
    }
}

fn flag_text(b: bool) -> (r: Vec<char>)
    ensures
        r@ == token_text(OperandView::Flag(b), 0),
{
    let mut r: Vec<char> = Vec::new();
    if b {
        r.push('1');
    } else {
        r.push('0');
    }
    r
}

/// Whether `texts` holds the text of each operand, in order.
pub open spec fn texts_match(texts: Seq<Vec<char>>, ops: Seq<OperandView>, k: nat) -> bool {
    &&& texts.len() == ops.len()
    &&& forall|i: int| 0 <= i < ops.len() ==> (#[trigger] texts[i])@ == token_text(ops[i], k)
}

impl Command {
    /// The letter that stands for the command.
    pub fn letter(&self) -> (r: char)
        ensures
            r == letter(self@),
    {
        match self {
            Command::MoveTo { rel, .. } => pick_letter(*rel, 'm', 'M'),
            Command::LineTo { rel, .. } => pick_letter(*rel, 'l', 'L'),
            Command::HorizontalTo { rel, .. } => pick_letter(*rel, 'h', 'H'),
            Command::VerticalTo { rel, .. } => pick_letter(*rel, 'v', 'V'),
            Command::CurveTo { rel, .. } => pick_letter(*rel, 'c', 'C'),
            Command::SmoothCurveTo { rel, .. } => pick_letter(*rel, 's', 'S'),
            Command::QuadTo { rel, .. } => pick_letter(*rel, 'q', 'Q'),
            Command::SmoothQuadTo { rel, .. } => pick_letter(*rel, 't', 'T'),
            Command::Arc { rel, .. } => pick_letter(*rel, 'a', 'A'),
            Command::ClosePath => 'z',
        }
    }

    /// The text of each operand, in order.
    fn operand_texts(&self, precision: u8) -> (r: Vec<Vec<char>>)
        ensures
            texts_match(r@, operands(self@), precision as nat),
    {
        let mut r: Vec<Vec<char>> = Vec::new();
        match self {
            Command::MoveTo { x, y, .. } => {
                r.push(x.format_chars(precision));
                r.push(y.format_chars(precision));
            },
            Command::LineTo { x, y, .. } => {
                r.push(x.format_chars(precision));
                r.push(y.format_chars(precision));
            },
            Command::HorizontalTo { x, .. } => {
                r.push(x.format_chars(precision));
            },
            Command::VerticalTo { y, .. } => {
                r.push(y.format_chars(precision));
            },
            Command::CurveTo { x1, y1, x2, y2, x, y, .. } => {
                r.push(x1.format_chars(precision));
                r.push(y1.format_chars(precision));
                r.push(x2.format_chars(precision));
                r.push(y2.format_chars(precision));
                r.push(x.format_chars(precision));
                r.push(y.format_chars(precision));
            },
            Command::SmoothCurveTo { x2, y2, x, y, .. } => {
                r.push(x2.format_chars(precision));
                r.push(y2.format_chars(precision));
                r.push(x.format_chars(precision));
                r.push(y.format_chars(precision));
            },
            Command::QuadTo { x1, y1, x, y, .. } => {
                r.push(x1.format_chars(precision));
                r.push(y1.format_chars(precision));
                r.push(x.format_chars(precision));
                r.push(y.format_chars(precision));
            },
            Command::SmoothQuadTo { x, y, .. } => {
                r.push(x.format_chars(precision));
                r.push(y.format_chars(precision));
            },
            Command::Arc { rx, ry, x_axis_rotation, large_arc, sweep, x, y, .. } => {
                r.push(rx.format_chars(precision));
                r.push(ry.format_chars(precision));
                r.push(x_axis_rotation.format_chars(precision));
                r.push(flag_text(*large_arc));
                r.push(flag_text(*sweep));
                r.push(x.format_chars(precision));
                r.push(y.format_chars(precision));
            },
            Command::ClosePath => {},
        }
        r
    }
}

fn starts_number_char(c: char) -> (r: bool)
    ensures
        r == starts_number(c),
{
    ('0' <= c && c <= '9') || c == '.'
}

fn push_token(out: &mut Vec<char>, token: &Vec<char>)
    ensures
        final(out)@ == append_token(old(out)@, token@),
{
    if out.len() > 0 && token.len() > 0 && starts_number_char(out[out.len() - 1])
        && starts_number_char(token[0]) {
        out.push(' ');
    }
    crate::text::extend(out, token);
}

/// Appends one command: its letter where it has to be written after the
/// letter `prev`, then its operands.
fn format_cmd(out: &mut Vec<char>, prev: Option<char>, cmd: &Command, precision: u8)
    ensures
        final(out)@ == emit_command(old(out)@, prev, cmd@, precision as nat),
{
    let ghost k = precision as nat;
    let c = cmd.letter();
    let texts = cmd.operand_texts(precision);
    let ghost ops = operands(cmd@);
    let needs = texts.len() == 0 || match prev {
        None => true,
        Some(p) => !(p == 'M' && c == 'L') && !(p == 'm' && c == 'l') && p != c,
    };
    if needs {
        out.push(c);
    }
    let ghost lettered = out@;
    let mut j: usize = 0;
    while j < texts.len()
        invariant
            j <= texts.len(),
            texts_match(texts@, ops, k),
            out@ == emit_operands(lettered, ops.take(j as int), k),
        decreases texts.len() - j,
    {
        proof {
            assert(ops.take(j + 1).drop_last() == ops.take(j as int));
            assert(ops.take(j + 1).last() == ops[j as int]);
        }
        push_token(out, &texts[j]);
        j += 1;
    }
    proof {
        assert(ops.take(ops.len() as int) == ops);
    }
}

/// The compact text of `path` with `precision` fractional digits.
pub fn serialize_chars(path: &Path, precision: u8) -> (out: Vec<char>)
    ensures
        out@ == serialized(path@, precision as nat),
{
    let ghost k = precision as nat;
    let ghost cmds = path@;
    let mut out: Vec<char> = Vec::new();
    let mut prev: Option<char> = None;
    let mut i: usize = 0;
    while i < path.commands.len()
        invariant
            i <= path.commands.len(),
            cmds == path@,
            k == precision as nat,
            out@ == serialized(cmds.take(i as int), k),
            prev == last_letter(cmds.take(i as int)),
        decreases path.commands.len() - i,
    {
        let cmd = &path.commands[i];
        proof {
            assert(cmds.take(i + 1).drop_last() == cmds.take(i as int));
            assert(cmds.take(i + 1).last() == cmd@);
        }
        format_cmd(&mut out, prev, cmd, precision);
        prev = Some(cmd.letter());
        i += 1;
    }
    proof {
        assert(cmds.take(cmds.len() as int) == cmds);
    }
    out
}

/// Serializes path data with the given precision.
pub fn serialize_path(path: &Path, precision: u8) -> (r: String)
    ensures
        r@ == serialized(path@, precision as nat),
{
    let out = serialize_chars(path, precision);
    from_chars(&out)
}

/// Where the run of whitespace that starts at `pos` ends.
pub open spec fn skip_spaces(s: Seq<char>, pos: int) -> int
    decreases s.len() - pos,
{
    if 0 <= pos < s.len() && is_ascii_space(s[pos]) {
        skip_spaces(s, pos + 1)
    } else {
        pos
    }
}

/// Where the separator that starts at `pos` ends: whitespace, at most one
/// comma, whitespace.
pub open spec fn skip_separator(s: Seq<char>, pos: int) -> int {
    let p = skip_spaces(s, pos);
    if 0 <= p < s.len() && s[p] == ',' {
        skip_spaces(s, p + 1)
    } else {
        p
    }
}

/// How many operands the command with the lower-case letter `c` takes;
/// `None` where `c` is no command.
pub open spec fn arity(c: char) -> Option<nat> {
    if c == 'm' || c == 'l' || c == 't' {
        Some(2)
    } else if c == 'h' || c == 'v' {
        Some(1)
    } else if c == 'c' {
        Some(6)
    } else if c == 's' || c == 'q' {
        Some(4)
    } else if c == 'a' {
        Some(7)
    } else if c == 'z' {
        Some(0)
    } else {
        None
    }
}

/// The fourth and fifth operands of an arc are flags.
pub open spec fn is_flag_slot(c: char, i: int) -> bool {
    c == 'a' && (i == 3 || i == 4)
}

/// The flag written at `pos`, and where it ends.
pub open spec fn flag_at(s: Seq<char>, pos: int) -> Result<(bool, int), PathError> {
    if !(0 <= pos < s.len()) {
        Err(PathError::ExpectedFlag)
    } else if s[pos] == '0' {
        Ok((false, pos + 1))
    } else if s[pos] == '1' {
        Ok((true, pos + 1))
    } else {
        Err(PathError::BadFlag(s[pos]))
    }
}

/// The operand written at `pos`, a flag or a number, and where it ends.
pub open spec fn operand_at(s: Seq<char>, pos: int, flag: bool) -> Result<
    (OperandView, int),
    PathError,
> {
    if flag {
        match flag_at(s, pos) {
            Ok((b, end)) => Ok((OperandView::Flag(b), end)),
            Err(e) => Err(e),
        }
    } else {
        match number_at(s, pos) {
            Ok((n, end)) => Ok((OperandView::Number(n), end)),
            Err(e) => Err(e),
        }
    }
}

/// The operands from the `i`-th on of the command with the lower-case
/// letter `c`, read from `pos` and added to `acc`, and where they end.
/// A separator may stand before every operand, but before the first one
/// only where `lead` is set.
pub open spec fn operands_from(
    s: Seq<char>,
    pos: int,
    c: char,
    i: int,
    lead: bool,
    acc: Seq<OperandView>,
) -> Result<(Seq<OperandView>, int), PathError>
    decreases arity(c).unwrap_or(0) - i,
{
    if i < 0 || i >= arity(c).unwrap_or(0) {
        Ok((acc, pos))
    } else {
        let start = if i > 0 || lead {
            skip_separator(s, pos)
        } else {
            pos
        };
        match operand_at(s, start, is_flag_slot(c, i)) {
            Err(e) => Err(e),
            Ok((op, end)) => operands_from(s, end, c, i + 1, lead, acc.push(op)),
        }
    }
}

/// The `i`-th operand as a number.
pub open spec fn number_of(ops: Seq<OperandView>, i: int) -> NumberView {
    match ops[i] {
        OperandView::Number(n) => n,
        OperandView::Flag(_) => NumberView {
            negative: false,
            int_digits: Seq::empty(),
            frac_digits: Seq::empty(),
        },
    }
}

/// The `i`-th operand as a flag.
pub open spec fn flag_of(ops: Seq<OperandView>, i: int) -> bool {
    match ops[i] {
        OperandView::Number(_) => false,
        OperandView::Flag(b) => b,
    }
}

/// The command with the letter `c` and the operands `ops`. A lower-case
/// letter makes it relative.
pub open spec fn assemble(c: char, ops: Seq<OperandView>) -> CommandView {
    let rel = 'a' <= c <= 'z';
    let l = lower(c);
    if l == 'm' {
        CommandView::MoveTo { rel, x: number_of(ops, 0), y: number_of(ops, 1) }
    } else if l == 'l' {
        CommandView::LineTo { rel, x: number_of(ops, 0), y: number_of(ops, 1) }
    } else if l == 'h' {
        CommandView::HorizontalTo { rel, x: number_of(ops, 0) }
    } else if l == 'v' {
        CommandView::VerticalTo { rel, y: number_of(ops, 0) }
    } else if l == 'c' {
        CommandView::CurveTo {
            rel,
            x1: number_of(ops, 0),
            y1: number_of(ops, 1),
            x2: number_of(ops, 2),
            y2: number_of(ops, 3),
            x: number_of(ops, 4),
            y: number_of(ops, 5),
        }
    } else if l == 's' {
        CommandView::SmoothCurveTo {
            rel,
            x2: number_of(ops, 0),
            y2: number_of(ops, 1),
            x: number_of(ops, 2),
            y: number_of(ops, 3),
        }
    } else if l == 'q' {
        CommandView::QuadTo {
            rel,
            x1: number_of(ops, 0),
            y1: number_of(ops, 1),
            x: number_of(ops, 2),
            y: number_of(ops, 3),
        }
    } else if l == 't' {
        CommandView::SmoothQuadTo { rel, x: number_of(ops, 0), y: number_of(ops, 1) }
    } else if l == 'a' {
        CommandView::Arc {
            rel,
            rx: number_of(ops, 0),
            ry: number_of(ops, 1),
            x_axis_rotation: number_of(ops, 2),
            large_arc: flag_of(ops, 3),
            sweep: flag_of(ops, 4),
            x: number_of(ops, 5),
            y: number_of(ops, 6),
        }
    } else {
        CommandView::ClosePath
    }
}

/// The letter that operands without a letter of their own belong to: the
/// last letter written, but a line after a move.
pub open spec fn repeated(last: char) -> char {
    if last == 'M' {
        'L'
    } else if last == 'm' {
        'l'
    } else {
        last
    }
}

/// Whitespace ends at or after the place where it starts, inside the text.
pub proof fn lemma_skip_spaces_bounds(s: Seq<char>, pos: int)
    requires
        0 <= pos <= s.len(),
    ensures
        pos <= skip_spaces(s, pos) <= s.len(),
    decreases s.len() - pos,
{
    if pos < s.len() && is_ascii_space(s[pos]) {
        lemma_skip_spaces_bounds(s, pos + 1);
    }
}

/// A separator ends at or after the place where it starts, inside the text.
pub proof fn lemma_skip_separator_bounds(s: Seq<char>, pos: int)
    requires
        0 <= pos <= s.len(),
    ensures
        pos <= skip_separator(s, pos) <= s.len(),
{
    lemma_skip_spaces_bounds(s, pos);
    let p = skip_spaces(s, pos);
    if p < s.len() {
        lemma_skip_spaces_bounds(s, p + 1);
    }
}

/// A run of digits ends at or after the place where it starts, inside the
/// text.
pub proof fn lemma_digits_end_bounds(s: Seq<char>, pos: int)
    requires
        0 <= pos <= s.len(),
    ensures
        pos <= crate::number::digits_end(s, pos) <= s.len(),
    decreases s.len() - pos,
{
    if pos < s.len() && is_digit(s[pos]) {
        lemma_digits_end_bounds(s, pos + 1);
    }
}

/// A number that is read takes at least one character, inside the text.
pub proof fn lemma_number_at_bounds(s: Seq<char>, pos: int)
    requires
        0 <= pos <= s.len(),
    ensures
        number_at(s, pos) matches Ok((_, end)) ==> pos < end <= s.len(),
{
    let lx = crate::number::lexeme_at(s, pos);
    lemma_digits_end_bounds(s, lx.int_start);
    if lx.int_end < s.len() {
        lemma_digits_end_bounds(s, lx.int_end + 1);
    }
    if lx.exp_start <= s.len() {
        lemma_digits_end_bounds(s, lx.exp_start);
    }
}

/// Operands that are read end inside the text, and take at least one character
/// if there is one to read.
pub proof fn lemma_operands_bounds(
    s: Seq<char>,
    pos: int,
    c: char,
    i: int,
    lead: bool,
    acc: Seq<OperandView>,
)
    requires
        0 <= pos <= s.len(),
        0 <= i,
    ensures
        operands_from(s, pos, c, i, lead, acc) matches Ok((_, end)) ==> pos <= end <= s.len() && (i
            < arity(c).unwrap_or(0) ==> pos < end),
    decreases arity(c).unwrap_or(0) - i,
{
    if i < arity(c).unwrap_or(0) {
        lemma_skip_separator_bounds(s, pos);
        let start = if i > 0 || lead {
            skip_separator(s, pos)
        } else {
            pos
        };
        lemma_number_at_bounds(s, start);
        match operand_at(s, start, is_flag_slot(c, i)) {
            Err(e) => {},
            Ok((op, end)) => {
                lemma_operands_bounds(s, end, c, i + 1, lead, acc.push(op));
            },
        }
    }
}

/// The commands written from `pos` on, added to `acc`. `last` is the last
/// letter that was written.
pub open spec fn commands_from(
    s: Seq<char>,
    pos: int,
    last: Option<char>,
    acc: Seq<CommandView>,
) -> Result<Seq<CommandView>, PathError>
    decreases s.len() - pos,
{
    if !(0 <= pos < s.len()) {
        Ok(acc)
    } else if is_letter(s[pos]) {
        if arity(lower(s[pos])) is None {
            Err(PathError::UnknownCommand(s[pos]))
        } else {
            match operands_from(s, pos + 1, lower(s[pos]), 0, true, Seq::empty()) {
                Err(e) => Err(e),
                Ok((ops, end)) => {
                    proof {
                        lemma_operands_bounds(s, pos + 1, lower(s[pos]), 0, true, Seq::empty());
                        lemma_skip_separator_bounds(s, end);
                    }
                    commands_from(
                        s,
                        skip_separator(s, end),
                        Some(s[pos]),
                        acc.push(assemble(s[pos], ops)),
                    )
                },
            }
        }
    } else {
        match last {
            None => Err(PathError::ExpectedCommand),
            Some(l) => {
                let c = repeated(l);
                if arity(lower(c)).unwrap_or(0) == 0 {
                    Err(PathError::ExpectedCommand)
                } else {
                    match operands_from(s, pos, lower(c), 0, false, Seq::empty()) {
                        Err(e) => Err(e),
                        Ok((ops, end)) => {
                            proof {
                                lemma_operands_bounds(s, pos, lower(c), 0, false, Seq::empty());
                                lemma_skip_separator_bounds(s, end);
                            }
                            commands_from(
                                s,
                                skip_separator(s, end),
                                last,
                                acc.push(assemble(c, ops)),
                            )
                        },
                    }
                }
            },
        }
    }
}

/// The commands that path data writes, or why it writes none.
pub open spec fn parsed(s: Seq<char>) -> Result<Seq<CommandView>, PathError> {
    commands_from(s, skip_spaces(s, 0), None, Seq::empty())
}

/// The detail of the error that reports `e` for the path data `s`.
pub open spec fn path_error_detail(s: Seq<char>, e: PathError) -> Seq<char> {
    match e {
        PathError::ExpectedCommand => "Expected command letter"@,
        PathError::UnknownCommand(c) => "Unknown command: "@.push(c),
        PathError::ExpectedNumber => "Expected number"@,
        PathError::InvalidNumber { start, end } => "Invalid number: "@ + s.subrange(
            start as int,
            end as int,
        ),
        PathError::ExpectedFlag => "Expected flag"@,
        PathError::BadFlag(c) => "Expected flag (0 or 1), got: "@.push(c),
    }
}

fn skip_whitespace(v: &Vec<char>, pos: usize) -> (r: usize)
    requires
        pos <= v.len(),
    ensures
        pos <= r <= v.len(),
        r == skip_spaces(v@, pos as int),
{
    let mut i: usize = pos;
    while i < v.len() && crate::text::is_ascii_whitespace(v[i])
        invariant
            pos <= i <= v.len(),
            skip_spaces(v@, pos as int) == skip_spaces(v@, i as int),
        decreases v.len() - i,
    {
        i += 1;
    }
    i
}

fn skip_whitespace_and_comma(v: &Vec<char>, pos: usize) -> (r: usize)
    requires
        pos <= v.len(),
    ensures
        pos <= r <= v.len(),
        r == skip_separator(v@, pos as int),
{
    let p = skip_whitespace(v, pos);
    if p < v.len() && v[p] == ',' {
        skip_whitespace(v, p + 1)
    } else {
        p
    }
}

/// The outcome of reading the operands of the command `c` from `pos` on.
pub open spec fn read_from(s: Seq<char>, pos: int, c: char, lead: bool) -> Result<
    (Seq<OperandView>, int),
    PathError,
> {
    operands_from(s, pos, c, 0, lead, Seq::empty())
}

/// Reads the `i`-th operand of the command `c`, a number.
fn parse_number(
    v: &Vec<char>,
    pos: usize,
    Ghost(c): Ghost<char>,
    i: usize,
    lead: bool,
    Ghost(acc): Ghost<Seq<OperandView>>,
) -> (r: Result<(Number, usize), PathError>)
    requires
        pos <= v.len(),
        i < arity(c).unwrap_or(0),
        !is_flag_slot(c, i as int),
    ensures
        match r {
            Ok((n, q)) => operands_from(v@, pos as int, c, i as int, lead, acc) == operands_from(
                v@,
                q as int,
                c,
                i + 1,
                lead,
                acc.push(OperandView::Number(n@)),
            ) && pos < q <= v.len(),
            Err(e) => operands_from(v@, pos as int, c, i as int, lead, acc) == Err::<
                (Seq<OperandView>, int),
                PathError,
            >(e),
        },
        r matches Err(PathError::InvalidNumber { start, end }) ==> start <= end <= v.len(),
        r matches Ok((n, _)) ==> valid_number(n@),
{
    let start = if i > 0 || lead {
        skip_whitespace_and_comma(v, pos)
    } else {
        pos
    };
    Number::scan(v, start)
}

/// Reads the `i`-th operand of the command `c`, a flag.
fn parse_flag(
    v: &Vec<char>,
    pos: usize,
    Ghost(c): Ghost<char>,
    i: usize,
    lead: bool,
    Ghost(acc): Ghost<Seq<OperandView>>,
) -> (r: Result<(bool, usize), PathError>)
    requires
        pos <= v.len(),
        0 < i < arity(c).unwrap_or(0),
        is_flag_slot(c, i as int),
    ensures
        match r {
            Ok((b, q)) => operands_from(v@, pos as int, c, i as int, lead, acc) == operands_from(
                v@,
                q as int,
                c,
                i + 1,
                lead,
                acc.push(OperandView::Flag(b)),
            ) && pos < q <= v.len(),
            Err(e) => operands_from(v@, pos as int, c, i as int, lead, acc) == Err::<
                (Seq<OperandView>, int),
                PathError,
            >(e),
        },
        !(r matches Err(PathError::InvalidNumber { .. })),
{
    let start = skip_whitespace_and_comma(v, pos);
    if start >= v.len() {
        Err(PathError::ExpectedFlag)
    } else if v[start] == '0' {
        Ok((false, start + 1))
    } else if v[start] == '1' {
        Ok((true, start + 1))
    } else {
        Err(PathError::BadFlag(v[start]))
    }
}

/// The numbers as operands.
pub open spec fn numbers(ns: Seq<NumberView>) -> Seq<OperandView> {
    Seq::new(ns.len(), |i: int| OperandView::Number(ns[i]))
}

/// Reads the operands of a command that takes `n` numbers and no flags.
fn read_numbers(v: &Vec<char>, pos: usize, Ghost(c): Ghost<char>, n: usize, lead: bool) -> (r:
    Result<(Vec<Number>, usize), PathError>)
    requires
        pos <= v.len(),
        c != 'a',
        arity(c) == Some(n as nat),
    ensures
        match read_from(v@, pos as int, c, lead) {
            Ok((ops, end)) => r matches Ok((ns, q)) && ns.len() == n && ops == numbers(
                Seq::new(ns@.len(), |i: int| ns@[i]@),
            ) && q == end && pos <= q <= v.len(),
            Err(e) => r == Err::<(Vec<Number>, usize), PathError>(e),
        },
        r matches Err(PathError::InvalidNumber { start, end }) ==> start <= end <= v.len(),
        r matches Ok((ns, _)) ==> forall|i: int| 0 <= i < ns@.len() ==> valid_number(#[trigger] ns@[i]@),
{
    let mut ns: Vec<Number> = Vec::new();
    let mut p: usize = pos;
    let mut i: usize = 0;
    let ghost mut acc: Seq<OperandView> = Seq::empty();
    while i < n
        invariant
            i <= n,
            pos <= p <= v.len(),
            c != 'a',
            arity(c) == Some(n as nat),
            ns.len() == i,
            forall|j: int| 0 <= j < ns@.len() ==> valid_number(#[trigger] ns@[j]@),
            acc =~= numbers(Seq::new(ns@.len(), |i: int| ns@[i]@)),
            read_from(v@, pos as int, c, lead) == operands_from(v@, p as int, c, i as int, lead, acc),
        decreases n - i,
    {
        let (x, q) = parse_number(v, p, Ghost(c), i, lead, Ghost(acc))?;
        proof {
            acc = acc.push(OperandView::Number(x@));
        }
        ns.push(x);
        p = q;
        i += 1;
    }
    Ok((ns, p))
}

/// Reads the operands of an arc.
fn read_arc(v: &Vec<char>, pos: usize, lead: bool) -> (r: Result<
    (Number, Number, Number, bool, bool, Number, Number, usize),
    PathError,
>)
    requires
        pos <= v.len(),
    ensures
        match read_from(v@, pos as int, 'a', lead) {
            Ok((ops, end)) => r matches Ok((rx, ry, rot, large, sweep, x, y, q)) && ops == seq![
                OperandView::Number(rx@),
                OperandView::Number(ry@),
                OperandView::Number(rot@),
                OperandView::Flag(large),
                OperandView::Flag(sweep),
                OperandView::Number(x@),
                OperandView::Number(y@),
            ] && q == end && pos <= q <= v.len(),
            Err(e) => r == Err::<
                (Number, Number, Number, bool, bool, Number, Number, usize),
                PathError,
            >(e),
        },
        r matches Err(PathError::InvalidNumber { start, end }) ==> start <= end <= v.len(),
        r matches Ok((rx, ry, rot, _, _, x, y, _)) ==> valid_number(rx@) && valid_number(ry@)
            && valid_number(rot@) && valid_number(x@) && valid_number(y@),
{
    let ghost c = 'a';
    let ghost a0 = Seq::<OperandView>::empty();
    let (rx, p) = parse_number(v, pos, Ghost(c), 0, lead, Ghost(a0))?;
    let ghost a1 = a0.push(OperandView::Number(rx@));
    let (ry, p) = parse_number(v, p, Ghost(c), 1, lead, Ghost(a1))?;
    let ghost a2 = a1.push(OperandView::Number(ry@));
    let (rot, p) = parse_number(v, p, Ghost(c), 2, lead, Ghost(a2))?;
    let ghost a3 = a2.push(OperandView::Number(rot@));
    let (large, p) = parse_flag(v, p, Ghost(c), 3, lead, Ghost(a3))?;
    let ghost a4 = a3.push(OperandView::Flag(large));
    let (sweep, p) = parse_flag(v, p, Ghost(c), 4, lead, Ghost(a4))?;
    let ghost a5 = a4.push(OperandView::Flag(sweep));
    let (x, p) = parse_number(v, p, Ghost(c), 5, lead, Ghost(a5))?;
    let ghost a6 = a5.push(OperandView::Number(x@));
    let (y, p) = parse_number(v, p, Ghost(c), 6, lead, Ghost(a6))?;
    let ghost a7 = a6.push(OperandView::Number(y@));
    proof {
        assert(a7 =~= seq![
            OperandView::Number(rx@),
            OperandView::Number(ry@),
            OperandView::Number(rot@),
            OperandView::Flag(large),
            OperandView::Flag(sweep),
            OperandView::Number(x@),
            OperandView::Number(y@),
        ]);
    }
    Ok((rx, ry, rot, large, sweep, x, y, p))
}

fn lower_letter(c: char) -> (r: char)
    ensures
        r == lower(c),
{
    crate::text::to_ascii_lowercase(c)
}

fn is_command(c: char) -> (r: bool)
    ensures
        r == arity(c) is Some,
{
    c == 'm' || c == 'l' || c == 't' || c == 'h' || c == 'v' || c == 'c' || c == 's' || c == 'q'
        || c == 'a' || c == 'z'
}

fn take_last(ns: &mut Vec<Number>) -> (r: Number)
    requires
        old(ns).len() > 0,
    ensures
        final(ns)@ == old(ns)@.drop_last(),
        r == old(ns)@.last(),
{
    let n = ns.remove(ns.len() - 1);
    assert(ns@ =~= old(ns)@.drop_last());
    n
}

/// Reads the operands of the command with the letter `c` from `pos` on.
fn parse_command(v: &Vec<char>, pos: usize, c: char, lead: bool) -> (r: Result<
    (Command, usize),
    PathError,
>)
    requires
        pos <= v.len(),
        arity(lower(c)) is Some,
    ensures
        match read_from(v@, pos as int, lower(c), lead) {
            Ok((ops, end)) => r matches Ok((cmd, q)) && cmd@ == assemble(c, ops) && q == end && pos
                <= q <= v.len(),
            Err(e) => r == Err::<(Command, usize), PathError>(e),
        },
        r matches Err(PathError::InvalidNumber { start, end }) ==> start <= end <= v.len(),
        r matches Ok((cmd, _)) ==> valid_command(cmd@),
{
    let rel = 'a' <= c && c <= 'z';
    let l = lower_letter(c);
    if l == 'a' {
        let (rx, ry, x_axis_rotation, large_arc, sweep, x, y, p) = read_arc(v, pos, lead)?;
        return Ok((Command::Arc { rel, rx, ry, x_axis_rotation, large_arc, sweep, x, y }, p));
    }
    let n: usize = if l == 'm' || l == 'l' || l == 't' {
        2
    } else if l == 'h' || l == 'v' {
        1
    } else if l == 'c' {
        6
    } else if l == 's' || l == 'q' {
        4
    } else {
        0
    };
    let (mut ns, p) = read_numbers(v, pos, Ghost(l), n, lead)?;
    let ghost ops = numbers(Seq::new(ns@.len(), |i: int| ns@[i]@));
    let ghost all = ns@;
    if l == 'm' {
        let y = take_last(&mut ns);
        let x = take_last(&mut ns);
        Ok((Command::MoveTo { rel, x, y }, p))
    } else if l == 'l' {
        let y = take_last(&mut ns);
        let x = take_last(&mut ns);
        Ok((Command::LineTo { rel, x, y }, p))
    } else if l == 't' {
        let y = take_last(&mut ns);
        let x = take_last(&mut ns);
        Ok((Command::SmoothQuadTo { rel, x, y }, p))
    } else if l == 'h' {
        let x = take_last(&mut ns);
        Ok((Command::HorizontalTo { rel, x }, p))
    } else if l == 'v' {
        let y = take_last(&mut ns);
        Ok((Command::VerticalTo { rel, y }, p))
    } else if l == 'c' {
        let y = take_last(&mut ns);
        let x = take_last(&mut ns);
        let y2 = take_last(&mut ns);
        let x2 = take_last(&mut ns);
        let y1 = take_last(&mut ns);
        let x1 = take_last(&mut ns);
        Ok((Command::CurveTo { rel, x1, y1, x2, y2, x, y }, p))
    } else if l == 's' {
        let y = take_last(&mut ns);
        let x = take_last(&mut ns);
        let y2 = take_last(&mut ns);
        let x2 = take_last(&mut ns);
        Ok((Command::SmoothCurveTo { rel, x2, y2, x, y }, p))
    } else if l == 'q' {
        let y = take_last(&mut ns);
        let x = take_last(&mut ns);
        let y1 = take_last(&mut ns);
        let x1 = take_last(&mut ns);
        Ok((Command::QuadTo { rel, x1, y1, x, y }, p))
    } else {
        Ok((Command::ClosePath, p))
    }
}

/// Reads path data.
pub fn parse_chars(v: &Vec<char>) -> (r: Result<Path, PathError>)
    ensures
        match parsed(v@) {
            Ok(cmds) => r matches Ok(p) && p@ == cmds,
            Err(e) => r matches Err(f) && f == e,
        },
        r matches Err(PathError::InvalidNumber { start, end }) ==> start <= end <= v.len(),
        r matches Ok(p) ==> valid_commands(p@),
{
    let mut commands: Vec<Command> = Vec::new();
    let mut last: Option<char> = None;
    let mut pos: usize = skip_whitespace(v, 0);
    assert(commands_view(commands@) =~= Seq::<CommandView>::empty());
    while pos < v.len()
        invariant
            pos <= v.len(),
            parsed(v@) == commands_from(v@, pos as int, last, commands_view(commands@)),
            valid_commands(commands_view(commands@)),
        decreases v.len() - pos,
    {
        let ghost acc = commands_view(commands@);
        let c0: char = v[pos];
        let (cmd, end) = if crate::text::is_ascii_alphabetic(c0) {
            if !is_command(lower_letter(c0)) {
                return Err(PathError::UnknownCommand(c0));
            }
            last = Some(c0);
            proof {
                lemma_operands_bounds(v@, pos + 1, lower(c0), 0, true, Seq::empty());
            }
            parse_command(v, pos + 1, c0, true)?
        } else {
            match last {
                None => {
                    return Err(PathError::ExpectedCommand);
                },
                Some(l) => {
                    let c = if l == 'M' {
                        'L'
                    } else if l == 'm' {
                        'l'
                    } else {
                        l
                    };
                    if lower_letter(c) == 'z' || !is_command(lower_letter(c)) {
                        return Err(PathError::ExpectedCommand);
                    }
                    proof {
                        lemma_operands_bounds(v@, pos as int, lower(c), 0, false, Seq::empty());
                    }
                    parse_command(v, pos, c, false)?
                },
            }
        };
        commands.push(cmd);
        proof {
            assert(commands_view(commands@) == acc.push(cmd@));
        }
        pos = skip_whitespace_and_comma(v, end);
    }
    Ok(Path { commands })
}

fn path_error_text(v: &Vec<char>, e: PathError) -> (r: String)
    requires
        e matches PathError::InvalidNumber { start, end } ==> start <= end <= v.len(),
    ensures
        r@ == path_error_detail(v@, e),
{
    let mut out: Vec<char> = Vec::new();
    match e {
        PathError::ExpectedCommand => {
            extend_str(&mut out, "Expected command letter");
        },
        PathError::UnknownCommand(c) => {
            extend_str(&mut out, "Unknown command: ");
            out.push(c);
        },
        PathError::ExpectedNumber => {
            extend_str(&mut out, "Expected number");
        },
        PathError::InvalidNumber { start, end } => {
            extend_str(&mut out, "Invalid number: ");
            extend(&mut out, &slice(v, start, end));
        },
        PathError::ExpectedFlag => {
            extend_str(&mut out, "Expected flag");
        },
        PathError::BadFlag(c) => {
            extend_str(&mut out, "Expected flag (0 or 1), got: ");
            out.push(c);
        },
    }
    from_chars(&out)
}

/// Parses SVG path data.
pub fn parse_path(d: &str) -> (r: Result<Path, SavageError>)
    ensures
        match parsed(d@) {
            Ok(cmds) => r matches Ok(p) && p@ == cmds,
            Err(e) => r matches Err(SavageError::InvalidPath(m)) && m@ == path_error_detail(d@, e),
        },
        r matches Ok(p) ==> valid_commands(p@),
{
    let v = to_chars(d);
    match parse_chars(&v) {
        Ok(p) => Ok(p),
        Err(e) => {
            Err(SavageError::InvalidPath(path_error_text(&v, e)))
        },
    }
}

} // verus!
