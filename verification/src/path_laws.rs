//! What holds of the path engine: path data that is written and read
//! again is the path with every number rounded.

use vstd::prelude::*;

use crate::error::PathError;
use crate::number::{valid_number, NumberView};
use crate::number_laws::{
    canonical, distance, lemma_formatted_canonical, lemma_formatted_chars,
    lemma_formatted_reads_back, lemma_formatted_tidy, lemma_number_at_valid, lemma_rounding_is_close, pow10, scaled,
    terminated,
};
use crate::optimize::minified_path_data;
use crate::path::{flag_of, lemma_skip_separator_bounds, number_of};
use crate::path::{
    append_token, arity, assemble, commands_from, emit_command, emit_operands, is_flag_slot,
    last_letter, letter, needs_letter, operand_at, operands, operands_from, parsed, repeated,
    serialized, skip_separator, skip_spaces, starts_number, token_text, valid_command,
    valid_commands, valid_operand, valid_operands, CommandView, OperandView,
};
use crate::text::{is_ascii_space, is_digit, is_letter, lower};

verus! {

/// An operand as it is read back: a number rounded to `k` fractional
/// digits, a flag as it is.
pub open spec fn rounded_operand(op: OperandView, k: nat) -> OperandView {
    match op {
        OperandView::Number(n) => OperandView::Number(canonical(n, k)),
        OperandView::Flag(b) => OperandView::Flag(b),
    }
}

/// The operands as they are read back.
pub open spec fn rounded_operands(ops: Seq<OperandView>, k: nat) -> Seq<OperandView> {
    Seq::new(ops.len(), |i: int| rounded_operand(ops[i], k))
}

/// The command with every number rounded to `k` fractional digits. A
/// closed path is read back as a closed path.
pub open spec fn rounded_command(c: CommandView, k: nat) -> CommandView {
    assemble(letter(c), rounded_operands(operands(c), k))
}

/// The path with every number rounded to `k` fractional digits.
pub open spec fn rounded_commands(cmds: Seq<CommandView>, k: nat) -> Seq<CommandView> {
    Seq::new(cmds.len(), |j: int| rounded_command(cmds[j], k))
}

/// Whether a command is a move.
pub open spec fn is_move(c: CommandView) -> bool {
    c is MoveTo
}

/// Whether no move follows directly on a move of the same kind. Where
/// one does, its letter is left out and it is read back as a line.
pub open spec fn no_repeated_moves(cmds: Seq<CommandView>) -> bool {
    forall|j: int|
        0 < j < cmds.len() ==> !(is_move(#[trigger] cmds[j]) && letter(cmds[j]) == letter(
            cmds[j - 1],
        ))
}

/// The letter under which a command is read back after the letter `prev`:
/// its own where it is written, else the letter that it repeats as. A move
/// that goes without its letter is so read as a line.
pub open spec fn read_letter(prev: Option<char>, c: CommandView) -> char {
    if needs_letter(prev, letter(c), operands(c).len()) {
        letter(c)
    } else {
        repeated(letter(c))
    }
}

/// A command as it is read back after the letter `prev`: under the
/// letter it is read with, every number rounded to `k` fractional digits.
pub open spec fn reread_command(prev: Option<char>, c: CommandView, k: nat) -> CommandView {
    assemble(read_letter(prev, c), rounded_operands(operands(c), k))
}

/// A path as it is read back from its text.
pub open spec fn reread_commands(cmds: Seq<CommandView>, k: nat) -> Seq<CommandView> {
    Seq::new(cmds.len(), |j: int| reread_command(last_letter(cmds.take(j)), cmds[j], k))
}

/// Whether `a` is the beginning of `b`.
pub open spec fn is_prefix(a: Seq<char>, b: Seq<char>) -> bool {
    a.len() <= b.len() && b.take(a.len() as int) == a
}

/// What may stand where a token ends: nothing, a space, a sign or a
/// command letter.
pub open spec fn separates(s: Seq<char>, p: int) -> bool {
    p >= s.len() || s[p] == ' ' || s[p] == '-' || (is_letter(s[p]) && arity(lower(s[p])) is Some)
}

/// The space that `append_token` puts between `out` and `token`: one or none.
pub open spec fn gap(out: Seq<char>, token: Seq<char>) -> int {
    if out.len() > 0 && token.len() > 0 && starts_number(out.last()) && starts_number(token[0]) {
        1
    } else {
        0
    }
}

/// A text holds the characters of its beginning.
pub proof fn lemma_prefix_chars(a: Seq<char>, b: Seq<char>, j: int)
    requires
        is_prefix(a, b),
        0 <= j < a.len(),
    ensures
        b[j] == a[j],
{
    assert(b.take(a.len() as int)[j] == b[j]);
}

/// The beginning of a beginning is a beginning.
pub proof fn lemma_prefix_transitive(a: Seq<char>, b: Seq<char>, c: Seq<char>)
    requires
        is_prefix(a, b),
        is_prefix(b, c),
    ensures
        is_prefix(a, c),
{
    assert(c.take(a.len() as int) =~= c.take(b.len() as int).take(a.len() as int));
}

/// A number cannot go on with what may stand where a token ends.
pub proof fn lemma_separates_terminates(s: Seq<char>, p: int)
    requires
        0 <= p,
        separates(s, p),
    ensures
        terminated(s, p),
{
}

/// What a command looks like: its letter is a command letter that takes
/// as many operands as the command has, flags where the letter has them.
pub proof fn lemma_command_shape(c: CommandView)
    ensures
        is_letter(letter(c)),
        arity(lower(letter(c))) == Some(operands(c).len()),
        forall|i: int|
            0 <= i < operands(c).len() ==> ((#[trigger] operands(c)[i]) is Flag) == is_flag_slot(
                lower(letter(c)),
                i,
            ),
        !starts_number(letter(c)),
        !is_ascii_space(letter(c)),
        letter(c) != ',',
        operands(c).len() == 0 <==> c is ClosePath,
{
}

/// A token is not empty, begins with a sign, a digit or a point and ends with
/// a digit.
pub proof fn lemma_token_chars(op: OperandView, k: nat)
    requires
        valid_operand(op),
    ensures
        token_text(op, k).len() > 0,
        token_text(op, k)[0] == '-' || starts_number(token_text(op, k)[0]),
        is_digit(token_text(op, k).last()),
{
    match op {
        OperandView::Number(n) => {
            lemma_formatted_chars(n, k);
        },
        OperandView::Flag(b) => {},
    }
}

/// What `append_token` gives: `out`, one space or none, and the token.
pub proof fn lemma_append_token(out: Seq<char>, token: Seq<char>)
    requires
        token.len() > 0,
    ensures
        is_prefix(out, append_token(out, token)),
        append_token(out, token).len() == out.len() + gap(out, token) + token.len(),
        append_token(out, token).subrange(
            out.len() + gap(out, token),
            append_token(out, token).len() as int,
        ) == token,
        gap(out, token) == 1 ==> append_token(out, token)[out.len() as int] == ' ',
        append_token(out, token).last() == token.last(),
{
    let r = append_token(out, token);
    assert(r.take(out.len() as int) =~= out);
    assert(r.subrange(out.len() + gap(out, token), r.len() as int) =~= token);
}

/// A token is read back as the operand rounded, where nothing that follows
/// could belong to it.
pub proof fn lemma_token_read_back(s: Seq<char>, pos: int, op: OperandView, k: nat)
    requires
        valid_operand(op),
        0 <= pos,
        pos + token_text(op, k).len() <= s.len(),
        s.subrange(pos, pos + token_text(op, k).len()) == token_text(op, k),
        terminated(s, pos + token_text(op, k).len()),
    ensures
        operand_at(s, pos, op is Flag) == Ok::<(OperandView, int), PathError>(
            (rounded_operand(op, k), pos + token_text(op, k).len()),
        ),
{
    match op {
        OperandView::Number(n) => {
            lemma_formatted_reads_back(s, pos, n, k);
        },
        OperandView::Flag(b) => {
            assert(s.subrange(pos, pos + 1)[0] == s[pos]);
        },
    }
}

/// Where a token stands in a text that goes on with it, the separator
/// before it is the one space, if there is one.
pub proof fn lemma_skip_to_token(s: Seq<char>, out: Seq<char>, token: Seq<char>)
    requires
        token.len() > 0,
        token[0] == '-' || starts_number(token[0]),
        is_prefix(append_token(out, token), s),
    ensures
        skip_separator(s, out.len() as int) == out.len() + gap(out, token),
        s.subrange(
            out.len() + gap(out, token),
            out.len() + gap(out, token) + token.len(),
        ) == token,
{
    let r = append_token(out, token);
    lemma_append_token(out, token);
    let p = out.len() as int;
    let g = gap(out, token);
    lemma_prefix_chars(r, s, p + g);
    assert(r[p + g] == r.subrange(p + g, r.len() as int)[0]);
    assert(s[p + g] == token[0]);
    if g == 1 {
        lemma_prefix_chars(r, s, p);
        assert(s[p] == ' ');
        assert(skip_spaces(s, p + 1) == p + 1);
        assert(skip_spaces(s, p) == p + 1);
    } else {
        assert(skip_spaces(s, p) == p);
    }
    assert forall|j: int| 0 <= j < token.len() implies s.subrange(p + g, p + g + token.len())[j]
        == #[trigger] token[j] by {
        lemma_prefix_chars(r, s, p + g + j);
        assert(r[p + g + j] == r.subrange(p + g, r.len() as int)[j]);
    }
    assert(s.subrange(p + g, p + g + token.len()) =~= token);
}

/// One more operand appends one more token.
pub proof fn lemma_emit_step(base: Seq<char>, ops: Seq<OperandView>, k: nat, t: int)
    requires
        0 <= t < ops.len(),
    ensures
        emit_operands(base, ops.take(t + 1), k) == append_token(
            emit_operands(base, ops.take(t), k),
            token_text(ops[t], k),
        ),
{
    assert(ops.take(t + 1).drop_last() == ops.take(t));
    assert(ops.take(t + 1).last() == ops[t]);
}

/// All operands and no operands.
pub proof fn lemma_emit_all(base: Seq<char>, ops: Seq<OperandView>, k: nat)
    ensures
        emit_operands(base, ops.take(ops.len() as int), k) == emit_operands(base, ops, k),
        emit_operands(base, ops.take(0), k) == base,
{
    assert(ops.take(ops.len() as int) == ops);
    assert(ops.take(0).len() == 0);
}

/// The text of a command grows operand by operand.
pub proof fn lemma_emit_prefix(base: Seq<char>, ops: Seq<OperandView>, k: nat, t: int)
    requires
        valid_operands(ops),
        0 <= t <= ops.len(),
    ensures
        is_prefix(emit_operands(base, ops.take(t), k), emit_operands(base, ops, k)),
    decreases ops.len() - t,
{
    let e = emit_operands(base, ops.take(t), k);
    if t == ops.len() {
        lemma_emit_all(base, ops, k);
        assert(e.take(e.len() as int) =~= e);
    } else {
        lemma_emit_step(base, ops, k, t);
        lemma_token_chars(ops[t], k);
        lemma_append_token(e, token_text(ops[t], k));
        lemma_emit_prefix(base, ops, k, t + 1);
        lemma_prefix_transitive(
            e,
            emit_operands(base, ops.take(t + 1), k),
            emit_operands(base, ops, k),
        );
    }
}

/// What follows the `t`-th operand in the text: a space or a sign where
/// another operand follows, and what follows the command where none does.
pub proof fn lemma_after_operand(
    s: Seq<char>,
    base: Seq<char>,
    ops: Seq<OperandView>,
    k: nat,
    t: int,
)
    requires
        valid_operands(ops),
        0 <= t < ops.len(),
        is_prefix(emit_operands(base, ops, k), s),
        separates(s, emit_operands(base, ops, k).len() as int),
    ensures
        separates(s, emit_operands(base, ops.take(t + 1), k).len() as int),
{
    let e1 = emit_operands(base, ops.take(t + 1), k);
    let all = emit_operands(base, ops, k);
    if t + 1 == ops.len() {
        lemma_emit_all(base, ops, k);
    } else {
        lemma_emit_step(base, ops, k, t);
        lemma_emit_step(base, ops, k, t + 1);
        lemma_token_chars(ops[t], k);
        lemma_token_chars(ops[t + 1], k);
        let e0 = emit_operands(base, ops.take(t), k);
        let e2 = emit_operands(base, ops.take(t + 2), k);
        let next = token_text(ops[t + 1], k);
        lemma_append_token(e0, token_text(ops[t], k));
        lemma_append_token(e1, next);
        lemma_emit_prefix(base, ops, k, t + 2);
        lemma_prefix_transitive(e2, all, s);
        let p = e1.len() as int;
        lemma_prefix_chars(e2, s, p);
        assert(starts_number(e1.last()));
        if gap(e1, next) == 0 {
            assert(e2[p] == e2.subrange(p, e2.len() as int)[0]);
            assert(e2[p] == next[0]);
            assert(next[0] == '-');
        }
    }
}

/// The operands from the `t`-th on are read back rounded, for `t` at
/// least one.
pub proof fn lemma_operands_read_back(
    s: Seq<char>,
    base: Seq<char>,
    ops: Seq<OperandView>,
    k: nat,
    c: char,
    t: int,
    lead: bool,
    acc: Seq<OperandView>,
)
    requires
        valid_operands(ops),
        arity(c) == Some(ops.len()),
        forall|i: int| 0 <= i < ops.len() ==> ((#[trigger] ops[i]) is Flag) == is_flag_slot(c, i),
        1 <= t <= ops.len(),
        is_prefix(emit_operands(base, ops, k), s),
        separates(s, emit_operands(base, ops, k).len() as int),
    ensures
        operands_from(s, emit_operands(base, ops.take(t), k).len() as int, c, t, lead, acc) == Ok::<
            (Seq<OperandView>, int),
            PathError,
        >((acc + rounded_operands(ops.skip(t), k), emit_operands(base, ops, k).len() as int)),
    decreases ops.len() - t,
{
    let all = emit_operands(base, ops, k);
    let e0 = emit_operands(base, ops.take(t), k);
    if t == ops.len() {
        lemma_emit_all(base, ops, k);
        assert(acc + rounded_operands(ops.skip(t), k) =~= acc);
    } else {
        let text = token_text(ops[t], k);
        let e1 = emit_operands(base, ops.take(t + 1), k);
        lemma_emit_step(base, ops, k, t);
        lemma_token_chars(ops[t], k);
        lemma_append_token(e0, text);
        lemma_emit_prefix(base, ops, k, t + 1);
        lemma_prefix_transitive(e1, all, s);
        lemma_skip_to_token(s, e0, text);
        lemma_after_operand(s, base, ops, k, t);
        let start = e0.len() + gap(e0, text);
        lemma_separates_terminates(s, e1.len() as int);
        lemma_token_read_back(s, start, ops[t], k);
        let r = rounded_operand(ops[t], k);
        lemma_operands_read_back(s, base, ops, k, c, t + 1, lead, acc.push(r));
        assert(acc.push(r) + rounded_operands(ops.skip(t + 1), k) =~= acc + rounded_operands(
            ops.skip(t),
            k,
        ));
    }
}

/// All operands of a command are read back rounded, from the place
/// where the first one stands.
pub proof fn lemma_all_operands_read_back(
    s: Seq<char>,
    base: Seq<char>,
    ops: Seq<OperandView>,
    k: nat,
    c: char,
    lead: bool,
    pos: int,
)
    requires
        valid_operands(ops),
        ops.len() > 0,
        arity(c) == Some(ops.len()),
        forall|i: int| 0 <= i < ops.len() ==> ((#[trigger] ops[i]) is Flag) == is_flag_slot(c, i),
        is_prefix(emit_operands(base, ops, k), s),
        separates(s, emit_operands(base, ops, k).len() as int),
        lead ==> pos == base.len(),
        !lead ==> pos == skip_separator(s, base.len() as int),
    ensures
        operands_from(s, pos, c, 0, lead, Seq::empty()) == Ok::<(Seq<OperandView>, int), PathError>(
            (rounded_operands(ops, k), emit_operands(base, ops, k).len() as int),
        ),
{
    let all = emit_operands(base, ops, k);
    let text = token_text(ops[0], k);
    let e1 = emit_operands(base, ops.take(1), k);
    lemma_emit_all(base, ops, k);
    lemma_emit_step(base, ops, k, 0);
    lemma_token_chars(ops[0], k);
    lemma_append_token(base, text);
    lemma_emit_prefix(base, ops, k, 1);
    lemma_prefix_transitive(e1, all, s);
    lemma_skip_to_token(s, base, text);
    lemma_after_operand(s, base, ops, k, 0);
    let start = base.len() + gap(base, text);
    lemma_separates_terminates(s, e1.len() as int);
    lemma_token_read_back(s, start, ops[0], k);
    let r = rounded_operand(ops[0], k);
    lemma_operands_read_back(s, base, ops, k, c, 1, lead, Seq::<OperandView>::empty().push(r));
    assert(Seq::<OperandView>::empty().push(r) + rounded_operands(ops.skip(1), k)
        =~= rounded_operands(ops, k));
    assert(ops.skip(0) =~= ops);
}

/// The text before the operands of a command: `out`, and the letter
/// where it is written.
pub open spec fn lettered(out: Seq<char>, prev: Option<char>, c: CommandView) -> Seq<char> {
    if needs_letter(prev, letter(c), operands(c).len()) {
        out.push(letter(c))
    } else {
        out
    }
}

/// A command with operands ends with a digit and is longer than what stands
/// before them.
pub proof fn lemma_emit_last(base: Seq<char>, ops: Seq<OperandView>, k: nat)
    requires
        valid_operands(ops),
        ops.len() > 0,
    ensures
        is_digit(emit_operands(base, ops, k).last()),
        emit_operands(base, ops, k).len() > base.len(),
{
    let t = ops.len() - 1;
    lemma_emit_all(base, ops, k);
    lemma_emit_step(base, ops, k, t);
    lemma_token_chars(ops[t], k);
    lemma_append_token(emit_operands(base, ops.take(t), k), token_text(ops[t], k));
    lemma_emit_prefix(base, ops, k, 0);
    lemma_emit_prefix(base, ops, k, t);
    assert forall|i: int| 0 <= i < ops.take(t).len() implies valid_operand(
        #[trigger] ops.take(t)[i],
    ) by {
        assert(ops.take(t)[i] == ops[i]);
    }
    lemma_emit_prefix(base, ops.take(t), k, 0);
    lemma_emit_all(base, ops.take(t), k);
}

/// What a command adds to the text: at least one character; first its
/// letter where that is written, else a space or a sign; and a digit at
/// the end where the command has operands.
pub proof fn lemma_command_text(out: Seq<char>, prev: Option<char>, c: CommandView, k: nat)
    requires
        valid_command(c),
        needs_letter(prev, letter(c), operands(c).len()) || (out.len() > 0 && is_digit(out.last())),
    ensures
        is_prefix(out, emit_command(out, prev, c, k)),
        is_prefix(lettered(out, prev, c), emit_command(out, prev, c, k)),
        emit_command(out, prev, c, k).len() > out.len(),
        emit_command(out, prev, c, k) == emit_operands(lettered(out, prev, c), operands(c), k),
        needs_letter(prev, letter(c), operands(c).len()) ==> emit_command(out, prev, c, k)[out.len() as int]
            == letter(c),
        !needs_letter(prev, letter(c), operands(c).len()) ==> emit_command(out, prev, c, k)[out.len() as int]
            == ' ' || emit_command(out, prev, c, k)[out.len() as int] == '-',
        operands(c).len() > 0 ==> is_digit(emit_command(out, prev, c, k).last()),
{
    let ops = operands(c);
    let base = lettered(out, prev, c);
    let r = emit_command(out, prev, c, k);
    lemma_emit_prefix(base, ops, k, 0);
    lemma_emit_all(base, ops, k);
    assert(base.take(out.len() as int) =~= out);
    lemma_prefix_transitive(out, base, r);
    if ops.len() > 0 {
        lemma_emit_last(base, ops, k);
    }
    if needs_letter(prev, letter(c), ops.len()) {
        lemma_prefix_chars(base, r, out.len() as int);
    } else {
        let text = token_text(ops[0], k);
        let e1 = emit_operands(base, ops.take(1), k);
        lemma_emit_step(base, ops, k, 0);
        lemma_token_chars(ops[0], k);
        lemma_append_token(out, text);
        lemma_emit_prefix(base, ops, k, 1);
        lemma_prefix_chars(e1, r, out.len() as int);
        if gap(out, text) == 0 {
            assert(e1[out.len() as int] == e1.subrange(out.len() as int, e1.len() as int)[0]);
        }
    }
}

/// Whether operands without a letter are taken for operands of the
/// command with the letter `l` by a reader who remembers the letter `last`.
pub open spec fn repeats_as(last: Option<char>, l: char) -> bool {
    match last {
        Some(x) => repeated(x) == l,
        None => false,
    }
}

/// One command is read back, where the reader stands at its beginning and
/// knows the letter that goes without saying.
pub proof fn lemma_command_read_back(
    s: Seq<char>,
    out: Seq<char>,
    prev: Option<char>,
    c: CommandView,
    k: nat,
    last: Option<char>,
    acc: Seq<CommandView>,
)
    requires
        valid_command(c),
        is_prefix(emit_command(out, prev, c, k), s),
        separates(s, emit_command(out, prev, c, k).len() as int),
        needs_letter(prev, letter(c), operands(c).len()) || (out.len() > 0 && is_digit(out.last())
            && repeats_as(last, repeated(letter(c)))),
    ensures
        commands_from(s, skip_separator(s, out.len() as int), last, acc) == commands_from(
            s,
            skip_separator(s, emit_command(out, prev, c, k).len() as int),
            if needs_letter(prev, letter(c), operands(c).len()) {
                Some(letter(c))
            } else {
                last
            },
            acc.push(reread_command(prev, c, k)),
        ),
{
    let ops = operands(c);
    let l = letter(c);
    let base = lettered(out, prev, c);
    let r = emit_command(out, prev, c, k);
    let p = out.len() as int;
    lemma_command_shape(c);
    lemma_command_text(out, prev, c, k);
    lemma_prefix_chars(r, s, p);
    if needs_letter(prev, l, ops.len()) {
        assert(s[p] == l);
        assert(skip_spaces(s, p) == p);
        assert(skip_separator(s, p) == p);
        if ops.len() == 0 {
            lemma_emit_all(base, ops, k);
            assert(ops.take(0) =~= ops);
            assert(r == base);
            assert(operands_from(s, p + 1, lower(l), 0, true, Seq::empty()) == Ok::<
                (Seq<OperandView>, int),
                PathError,
            >((Seq::empty(), p + 1)));
            assert(rounded_operands(ops, k) =~= Seq::<OperandView>::empty());
        } else {
            lemma_all_operands_read_back(s, base, ops, k, lower(l), true, p + 1);
        }
    } else {
        let text = token_text(ops[0], k);
        let e1 = emit_operands(base, ops.take(1), k);
        lemma_emit_step(base, ops, k, 0);
        lemma_emit_all(base, ops, k);
        lemma_token_chars(ops[0], k);
        lemma_append_token(out, text);
        lemma_emit_prefix(base, ops, k, 1);
        lemma_prefix_transitive(e1, r, s);
        lemma_skip_to_token(s, out, text);
        let start = skip_separator(s, p);
        assert(s[start] == s.subrange(start, start + text.len())[0]);
        assert(s[start] == text[0]);
        assert(!is_letter(s[start]));
        let read = repeated(l);
        assert(arity(lower(read)) == Some(ops.len()));
        assert forall|i: int| 0 <= i < ops.len() implies ((#[trigger] ops[i]) is Flag)
            == is_flag_slot(lower(read), i) by {}
        lemma_all_operands_read_back(s, base, ops, k, lower(read), false, start);
    }
}

/// The text of a path grows command by command.
pub proof fn lemma_serialized_step(cmds: Seq<CommandView>, k: nat, j: int)
    requires
        0 <= j < cmds.len(),
    ensures
        serialized(cmds.take(j + 1), k) == emit_command(
            serialized(cmds.take(j), k),
            last_letter(cmds.take(j)),
            cmds[j],
            k,
        ),
        last_letter(cmds.take(j + 1)) == Some(letter(cmds[j])),
        j > 0 ==> last_letter(cmds.take(j)) == Some(letter(cmds[j - 1])),
        j == 0 ==> last_letter(cmds.take(j)) == None::<char>,
{
    assert(cmds.take(j + 1).drop_last() == cmds.take(j));
    assert(cmds.take(j + 1).last() == cmds[j]);
    if j > 0 {
        assert(cmds.take(j).last() == cmds[j - 1]);
    }
}

/// Whether a command goes without its letter after the commands before it.
pub open spec fn unlettered(cmds: Seq<CommandView>, j: int) -> bool {
    !needs_letter(last_letter(cmds.take(j)), letter(cmds[j]), operands(cmds[j]).len())
}

/// The text before a command that goes without its letter ends with a digit.
pub proof fn lemma_digit_before_unlettered(cmds: Seq<CommandView>, k: nat, j: int)
    requires
        valid_commands(cmds),
        0 <= j < cmds.len(),
        unlettered(cmds, j),
    ensures
        j > 0,
        serialized(cmds.take(j), k).len() > 0,
        is_digit(serialized(cmds.take(j), k).last()),
        operands(cmds[j - 1]).len() > 0,
    decreases j,
{
    lemma_serialized_step(cmds, k, j);
    assert(j > 0);
    lemma_serialized_step(cmds, k, j - 1);
    lemma_command_shape(cmds[j]);
    lemma_command_shape(cmds[j - 1]);
    let before = cmds[j - 1];
    assert(operands(before).len() > 0);
    if unlettered(cmds, j - 1) {
        lemma_digit_before_unlettered(cmds, k, j - 1);
    }
    lemma_command_text(
        serialized(cmds.take(j - 1), k),
        last_letter(cmds.take(j - 1)),
        before,
        k,
    );
}

/// The text of the first commands is the beginning of the text of the path.
pub proof fn lemma_serialized_prefix(cmds: Seq<CommandView>, k: nat, j: int)
    requires
        valid_commands(cmds),
        0 <= j <= cmds.len(),
    ensures
        is_prefix(serialized(cmds.take(j), k), serialized(cmds, k)),
    decreases cmds.len() - j,
{
    let o = serialized(cmds.take(j), k);
    if j == cmds.len() {
        assert(cmds.take(j) == cmds);
        assert(o.take(o.len() as int) =~= o);
    } else {
        lemma_serialized_step(cmds, k, j);
        if unlettered(cmds, j) {
            lemma_digit_before_unlettered(cmds, k, j);
        }
        lemma_command_text(o, last_letter(cmds.take(j)), cmds[j], k);
        lemma_serialized_prefix(cmds, k, j + 1);
        lemma_prefix_transitive(o, serialized(cmds.take(j + 1), k), serialized(cmds, k));
    }
}

/// What follows a command in the text of a path: nothing, or the
/// beginning of the next command.
pub proof fn lemma_after_command(cmds: Seq<CommandView>, k: nat, j: int)
    requires
        valid_commands(cmds),
        0 <= j <= cmds.len(),
    ensures
        separates(serialized(cmds, k), serialized(cmds.take(j), k).len() as int),
{
    let s = serialized(cmds, k);
    let o = serialized(cmds.take(j), k);
    if j == cmds.len() {
        assert(cmds.take(j) == cmds);
    } else {
        lemma_serialized_step(cmds, k, j);
        if unlettered(cmds, j) {
            lemma_digit_before_unlettered(cmds, k, j);
        }
        lemma_command_text(o, last_letter(cmds.take(j)), cmds[j], k);
        lemma_command_shape(cmds[j]);
        lemma_serialized_prefix(cmds, k, j + 1);
        lemma_prefix_chars(serialized(cmds.take(j + 1), k), s, o.len() as int);
    }
}

/// Whether the reader, who remembers the letter `last`, takes operands
/// without a letter for operands of the command with the letter `prev`.
pub open spec fn remembers(last: Option<char>, prev: Option<char>) -> bool {
    match prev {
        None => true,
        Some(p) => match last {
            Some(l) => l == p || repeated(l) == p,
            None => false,
        },
    }
}

/// A command that goes without its letter is taken for what it is by a
/// reader who remembers the letters before it.
proof fn lemma_unlettered_is_understood(
    cmds: Seq<CommandView>,
    j: int,
    last: Option<char>,
)
    requires
        0 < j < cmds.len(),
        remembers(last, Some(letter(cmds[j - 1]))),
        !needs_letter(Some(letter(cmds[j - 1])), letter(cmds[j]), operands(cmds[j]).len()),
    ensures
        repeats_as(last, repeated(letter(cmds[j]))),
        remembers(last, Some(letter(cmds[j]))),
{
    let c = cmds[j];
    let b = cmds[j - 1];
    lemma_command_shape(c);
    lemma_command_shape(b);
}

/// The letter that the reader remembers after the `j`-th command.
pub open spec fn remembered(cmds: Seq<CommandView>, j: int, last: Option<char>) -> Option<char> {
    if unlettered(cmds, j) {
        last
    } else {
        Some(letter(cmds[j]))
    }
}

/// The `j`-th command is read back.
proof fn lemma_read_step(
    cmds: Seq<CommandView>,
    k: nat,
    j: int,
    last: Option<char>,
    acc: Seq<CommandView>,
)
    requires
        valid_commands(cmds),
        0 <= j < cmds.len(),
        remembers(last, last_letter(cmds.take(j))),
    ensures
        remembers(remembered(cmds, j, last), last_letter(cmds.take(j + 1))),
        commands_from(
            serialized(cmds, k),
            skip_separator(serialized(cmds, k), serialized(cmds.take(j), k).len() as int),
            last,
            acc,
        ) == commands_from(
            serialized(cmds, k),
            skip_separator(serialized(cmds, k), serialized(cmds.take(j + 1), k).len() as int),
            remembered(cmds, j, last),
            acc.push(reread_commands(cmds, k)[j]),
        ),
{
    let s = serialized(cmds, k);
    let o = serialized(cmds.take(j), k);
    let c = cmds[j];
    let prev = last_letter(cmds.take(j));
    let o1 = serialized(cmds.take(j + 1), k);
    let needs = needs_letter(prev, letter(c), operands(c).len());
    let next = remembered(cmds, j, last);
    assert(valid_command(c));
    lemma_serialized_step(cmds, k, j);
    assert(needs || (o.len() > 0 && is_digit(o.last()) && repeats_as(last, repeated(letter(c))))) by {
        if !needs {
            lemma_digit_before_unlettered(cmds, k, j);
            lemma_unlettered_is_understood(cmds, j, last);
        }
    }
    assert(remembers(next, Some(letter(c)))) by {
        if !needs {
            lemma_digit_before_unlettered(cmds, k, j);
            lemma_unlettered_is_understood(cmds, j, last);
        }
    }
    assert(is_prefix(o1, s)) by {
        lemma_serialized_prefix(cmds, k, j + 1);
    }
    assert(separates(s, o1.len() as int)) by {
        lemma_after_command(cmds, k, j + 1);
    }
    lemma_command_read_back(s, o, prev, c, k, last, acc);
}

proof fn lemma_reread_skip(cmds: Seq<CommandView>, k: nat, j: int, acc: Seq<CommandView>)
    requires
        0 <= j < cmds.len(),
    ensures
        acc.push(reread_commands(cmds, k)[j]) + reread_commands(cmds, k).skip(j + 1) == acc
            + reread_commands(cmds, k).skip(j),
{
    assert(acc.push(reread_commands(cmds, k)[j]) + reread_commands(cmds, k).skip(j + 1) =~= acc
        + reread_commands(cmds, k).skip(j));
}

proof fn lemma_read_end(cmds: Seq<CommandView>, k: nat, last: Option<char>, acc: Seq<CommandView>)
    ensures
        commands_from(
            serialized(cmds, k),
            skip_separator(
                serialized(cmds, k),
                serialized(cmds.take(cmds.len() as int), k).len() as int,
            ),
            last,
            acc,
        ) == Ok::<Seq<CommandView>, PathError>(
            acc + reread_commands(cmds, k).skip(cmds.len() as int),
        ),
{
    let s = serialized(cmds, k);
    assert(cmds.take(cmds.len() as int) == cmds);
    assert(skip_spaces(s, s.len() as int) == s.len());
    assert(skip_separator(s, s.len() as int) == s.len());
    assert(acc + reread_commands(cmds, k).skip(cmds.len() as int) =~= acc);
}

/// The commands from the `j`-th on are read back.
pub proof fn lemma_commands_read_back(
    cmds: Seq<CommandView>,
    k: nat,
    j: int,
    last: Option<char>,
    acc: Seq<CommandView>,
)
    requires
        valid_commands(cmds),
        0 <= j <= cmds.len(),
        remembers(last, last_letter(cmds.take(j))),
    ensures
        commands_from(
            serialized(cmds, k),
            skip_separator(serialized(cmds, k), serialized(cmds.take(j), k).len() as int),
            last,
            acc,
        ) == Ok::<Seq<CommandView>, PathError>(acc + reread_commands(cmds, k).skip(j)),
    decreases cmds.len() - j,
{
    if j == cmds.len() {
        lemma_read_end(cmds, k, last, acc);
    } else {
        lemma_read_step(cmds, k, j, last, acc);
        lemma_commands_read_back(
            cmds,
            k,
            j + 1,
            remembered(cmds, j, last),
            acc.push(reread_commands(cmds, k)[j]),
        );
        lemma_reread_skip(cmds, k, j, acc);
    }
}

/// Writing a path and reading it again gives, command by command, the
/// same operands with every number rounded to the precision, under the
/// letter that each command is read with: the text of a path is never
/// ambiguous.
pub proof fn lemma_path_read_back(cmds: Seq<CommandView>, k: nat)
    requires
        valid_commands(cmds),
    ensures
        parsed(serialized(cmds, k)) == Ok::<Seq<CommandView>, PathError>(
            reread_commands(cmds, k),
        ),
{
    let s = serialized(cmds, k);
    assert(cmds.take(0).len() == 0);
    assert(serialized(cmds.take(0), k).len() == 0);
    if cmds.len() > 0 {
        let first = serialized(cmds.take(1), k);
        lemma_serialized_step(cmds, k, 0);
        lemma_command_shape(cmds[0]);
        lemma_command_text(serialized(cmds.take(0), k), None, cmds[0], k);
        lemma_serialized_prefix(cmds, k, 1);
        lemma_prefix_chars(first, s, 0);
        assert(s[0] == letter(cmds[0]));
    } else {
        assert(cmds.take(0) == cmds);
    }
    assert(skip_spaces(s, 0) == 0);
    assert(skip_separator(s, 0) == 0);
    lemma_commands_read_back(cmds, k, 0, None, Seq::empty());
    assert(Seq::<CommandView>::empty() + reread_commands(cmds, k).skip(0) =~= reread_commands(
        cmds,
        k,
    ));
}

/// Where no move follows directly on a move of the same kind, every
/// command is read back under its own letter.
pub proof fn lemma_reread_is_rounded(cmds: Seq<CommandView>, k: nat)
    requires
        no_repeated_moves(cmds),
    ensures
        reread_commands(cmds, k) == rounded_commands(cmds, k),
{
    assert forall|j: int| 0 <= j < cmds.len() implies reread_commands(cmds, k)[j]
        == rounded_command(cmds[j], k) by {
        lemma_command_shape(cmds[j]);
        if j > 0 {
            assert(cmds.take(j).last() == cmds[j - 1]);
            assert(!(is_move(cmds[j]) && letter(cmds[j]) == letter(cmds[j - 1])));
        }
    }
    assert(reread_commands(cmds, k) =~= rounded_commands(cmds, k));
}

/// Writing a path and reading it again gives the path with every number
/// rounded to the precision, where no move follows directly on a move of
/// the same kind.
pub proof fn lemma_path_round_trip(cmds: Seq<CommandView>, k: nat)
    requires
        valid_commands(cmds),
        no_repeated_moves(cmds),
    ensures
        parsed(serialized(cmds, k)) == Ok::<Seq<CommandView>, PathError>(
            rounded_commands(cmds, k),
        ),
{
    lemma_path_read_back(cmds, k);
    lemma_reread_is_rounded(cmds, k);
}

/// Whether `c` can stand in the text of a path: a digit, a point, a
/// sign, a space or a command letter.
pub open spec fn is_path_char(c: char) -> bool {
    starts_number(c) || c == '-' || c == ' ' || (is_letter(c) && arity(lower(c)) is Some)
}

/// Whether a text is spaced as the text of a path is: it holds nothing
/// but what can stand in one, and every space in it stands between two
/// characters that are each a digit or a point.
pub open spec fn well_spaced(s: Seq<char>) -> bool {
    forall|p: int|
        0 <= p < s.len() ==> is_path_char(#[trigger] s[p]) && (s[p] == ' ' ==> 0 < p < s.len() - 1
            && starts_number(s[p - 1]) && starts_number(s[p + 1]))
}

/// A token holds digits and at most one point, after a `-` that can only
/// stand first.
pub proof fn lemma_token_tidy(op: OperandView, k: nat)
    requires
        valid_operand(op),
    ensures
        forall|j: int|
            0 <= j < token_text(op, k).len() ==> starts_number(#[trigger] token_text(op, k)[j]) || (j
                == 0 && token_text(op, k)[j] == '-'),
{
    match op {
        OperandView::Number(n) => {
            lemma_formatted_tidy(n, k);
        },
        OperandView::Flag(b) => {},
    }
}

proof fn lemma_spaced_token(out: Seq<char>, token: Seq<char>)
    requires
        well_spaced(out),
        token.len() > 0,
        forall|j: int|
            0 <= j < token.len() ==> starts_number(#[trigger] token[j]) || (j == 0 && token[j]
                == '-'),
    ensures
        well_spaced(append_token(out, token)),
{
    let r = append_token(out, token);
    let g = gap(out, token);
    let n = out.len() as int;
    lemma_append_token(out, token);
    assert forall|p: int| 0 <= p < r.len() implies is_path_char(#[trigger] r[p]) && (r[p] == ' '
        ==> 0 < p < r.len() - 1 && starts_number(r[p - 1]) && starts_number(r[p + 1])) by {
        if p < n {
            lemma_prefix_chars(out, r, p);
            assert(is_path_char(out[p]));
            if out[p] == ' ' {
                lemma_prefix_chars(out, r, p - 1);
                lemma_prefix_chars(out, r, p + 1);
            }
        } else if p < n + g {
            lemma_prefix_chars(out, r, p - 1);
            assert(r[p + 1] == r.subrange(n + g, r.len() as int)[0]);
        } else {
            assert(r[p] == r.subrange(n + g, r.len() as int)[p - n - g]);
            assert(r[p] == token[p - n - g]);
        }
    }
}

proof fn lemma_spaced_operands(base: Seq<char>, ops: Seq<OperandView>, k: nat)
    requires
        well_spaced(base),
        valid_operands(ops),
    ensures
        well_spaced(emit_operands(base, ops, k)),
    decreases ops.len(),
{
    if ops.len() > 0 {
        assert forall|i: int| 0 <= i < ops.drop_last().len() implies valid_operand(
            #[trigger] ops.drop_last()[i],
        ) by {
            assert(ops.drop_last()[i] == ops[i]);
        }
        lemma_spaced_operands(base, ops.drop_last(), k);
        assert(valid_operand(ops[ops.len() - 1]));
        lemma_token_chars(ops.last(), k);
        lemma_token_tidy(ops.last(), k);
        lemma_spaced_token(emit_operands(base, ops.drop_last(), k), token_text(ops.last(), k));
    }
}

/// The text of a path holds command letters, digits, points, signs and
/// single spaces: no comma and no other whitespace. A space stands only
/// between two characters that are each a digit or a point, so never
/// before a sign, next to a command letter, next to another space or at
/// an end of the text. `lemma_append_token` says where one does stand:
/// wherever a token follows on a digit or a point and begins with one.
pub proof fn lemma_path_text_is_spaced(cmds: Seq<CommandView>, k: nat)
    requires
        valid_commands(cmds),
    ensures
        well_spaced(serialized(cmds, k)),
    decreases cmds.len(),
{
    if cmds.len() > 0 {
        let c = cmds.last();
        let front = cmds.drop_last();
        assert forall|j: int| 0 <= j < front.len() implies valid_command(#[trigger] front[j]) by {
            assert(front[j] == cmds[j]);
        }
        lemma_path_text_is_spaced(front, k);
        assert(valid_command(cmds[cmds.len() - 1]));
        lemma_command_shape(c);
        let out = serialized(front, k);
        let base = lettered(out, last_letter(front), c);
        assert(well_spaced(base)) by {
            if base != out {
                assert forall|p: int| 0 <= p < base.len() implies is_path_char(#[trigger] base[p])
                    && (base[p] == ' ' ==> 0 < p < base.len() - 1 && starts_number(base[p - 1])
                    && starts_number(base[p + 1])) by {
                    if p < out.len() {
                        assert(base[p] == out[p]);
                        assert(is_path_char(out[p]));
                    }
                }
            }
        }
        lemma_spaced_operands(base, operands(c), k);
    }
}

/// Operands that are read are valid, and as many as the command takes.
pub proof fn lemma_operands_valid(
    s: Seq<char>,
    pos: int,
    c: char,
    i: int,
    lead: bool,
    acc: Seq<OperandView>,
)
    requires
        0 <= pos <= s.len(),
        0 <= i <= arity(c).unwrap_or(0),
        acc.len() == i,
        valid_operands(acc),
    ensures
        operands_from(s, pos, c, i, lead, acc) matches Ok((ops, end)) ==> valid_operands(ops)
            && ops.len() == arity(c).unwrap_or(0) && pos <= end <= s.len(),
    decreases arity(c).unwrap_or(0) - i,
{
    if i < arity(c).unwrap_or(0) {
        lemma_skip_separator_bounds(s, pos);
        let start = if i > 0 || lead {
            skip_separator(s, pos)
        } else {
            pos
        };
        lemma_number_at_valid(s, start);
        match operand_at(s, start, is_flag_slot(c, i)) {
            Err(e) => {},
            Ok((op, end)) => {
                assert forall|j: int| 0 <= j < acc.push(op).len() implies valid_operand(
                    #[trigger] acc.push(op)[j],
                ) by {
                    if j < acc.len() {
                        assert(acc.push(op)[j] == acc[j]);
                    }
                }
                lemma_operands_valid(s, end, c, i + 1, lead, acc.push(op));
            },
        }
    }
}

/// A command made of valid operands is valid.
pub proof fn lemma_assemble_valid(c: char, ops: Seq<OperandView>)
    requires
        valid_operands(ops),
        arity(lower(c)) == Some(ops.len()),
    ensures
        valid_command(assemble(c, ops)),
{
    let r = operands(assemble(c, ops));
    assert forall|i: int| 0 <= i < r.len() implies valid_operand(#[trigger] r[i]) by {
        assert forall|j: int| 0 <= j < ops.len() implies valid_number(
            #[trigger] number_of(ops, j),
        ) by {
            assert(valid_operand(ops[j]));
        }
        assert(r.len() <= 7);
        if i < ops.len() {
            assert(valid_number(number_of(ops, i)));
        }
        if 0 <= i - 1 < ops.len() {
            assert(valid_number(number_of(ops, i - 1)));
        }
        if 0 <= i + 1 < ops.len() {
            assert(valid_number(number_of(ops, i + 1)));
        }
    }
}

/// Commands that are read are valid.
pub proof fn lemma_commands_valid(
    s: Seq<char>,
    pos: int,
    last: Option<char>,
    acc: Seq<CommandView>,
)
    requires
        0 <= pos,
        valid_commands(acc),
    ensures
        commands_from(s, pos, last, acc) matches Ok(cmds) ==> valid_commands(cmds),
    decreases s.len() - pos,
{
    if pos < s.len() {
        if is_letter(s[pos]) {
            if arity(lower(s[pos])) is Some {
                let c = s[pos];
                lemma_operands_valid(s, pos + 1, lower(c), 0, true, Seq::empty());
                match operands_from(s, pos + 1, lower(c), 0, true, Seq::empty()) {
                    Err(e) => {},
                    Ok((ops, end)) => {
                        lemma_assemble_valid(c, ops);
                        lemma_skip_separator_bounds(s, end);
                        let next = acc.push(assemble(c, ops));
                        assert forall|j: int| 0 <= j < next.len() implies valid_command(
                            #[trigger] next[j],
                        ) by {
                            if j < acc.len() {
                                assert(next[j] == acc[j]);
                            }
                        }
                        lemma_commands_valid(s, skip_separator(s, end), Some(c), next);
                    },
                }
            }
        } else {
            match last {
                None => {},
                Some(l) => {
                    let c = repeated(l);
                    if arity(lower(c)).unwrap_or(0) != 0 {
                        lemma_operands_valid(s, pos, lower(c), 0, false, Seq::empty());
                        crate::path::lemma_operands_bounds(
                            s,
                            pos,
                            lower(c),
                            0,
                            false,
                            Seq::empty(),
                        );
                        match operands_from(s, pos, lower(c), 0, false, Seq::empty()) {
                            Err(e) => {},
                            Ok((ops, end)) => {
                                lemma_assemble_valid(c, ops);
                                lemma_skip_separator_bounds(s, end);
                                let next = acc.push(assemble(c, ops));
                                assert forall|j: int| 0 <= j < next.len() implies valid_command(
                                    #[trigger] next[j],
                                ) by {
                                    if j < acc.len() {
                                        assert(next[j] == acc[j]);
                                    }
                                }
                                lemma_commands_valid(s, skip_separator(s, end), last, next);
                            },
                        }
                    }
                },
            }
        }
    }
}

/// Every number of a path that is read has decimal digits only.
pub proof fn lemma_parsed_is_valid(d: Seq<char>)
    ensures
        parsed(d) matches Ok(cmds) ==> valid_commands(cmds),
{
    crate::path::lemma_skip_spaces_bounds(d, 0);
    lemma_commands_valid(d, skip_spaces(d, 0), None, Seq::empty());
}

/// Minified path data can be read whenever the data could, and reads as
/// the path that the data wrote: command by command the same operands
/// with every number rounded to the precision, and the same letters but
/// for a move that follows directly on a move of the same kind, which is
/// read as a line.
pub proof fn lemma_minified_path_reads_back(d: Seq<char>, k: nat)
    requires
        parsed(d) is Ok,
    ensures
        parsed(minified_path_data(d, k)) == Ok::<Seq<CommandView>, PathError>(
            reread_commands(parsed(d).unwrap(), k),
        ),
        no_repeated_moves(parsed(d).unwrap()) ==> reread_commands(parsed(d).unwrap(), k)
            == rounded_commands(parsed(d).unwrap(), k),
{
    lemma_parsed_is_valid(d);
    lemma_path_read_back(parsed(d).unwrap(), k);
    if no_repeated_moves(parsed(d).unwrap()) {
        lemma_reread_is_rounded(parsed(d).unwrap(), k);
    }
}

/// A command that is read back has the operands of the command, rounded,
/// and its letter: but for a move that went without its letter, which
/// has the letter of a line of the same kind.
pub proof fn lemma_reread_command(prev: Option<char>, c: CommandView, k: nat)
    ensures
        letter(reread_command(prev, c, k)) == read_letter(prev, c),
        operands(reread_command(prev, c, k)) == rounded_operands(operands(c), k),
        read_letter(prev, c) != letter(c) ==> is_move(c) && prev == Some(letter(c)) && read_letter(
            prev,
            c,
        ) == repeated(letter(c)),
{
    lemma_command_shape(c);
    let ops = operands(c);
    let r = rounded_operands(ops, k);
    assert forall|i: int| 0 <= i < ops.len() implies (#[trigger] r[i] is Flag) == (ops[i] is Flag)
        && (ops[i] is Number ==> r[i] == OperandView::Number(number_of(r, i))) && (ops[i] is Flag
        ==> r[i] == OperandView::Flag(flag_of(r, i))) by {}
    assert(operands(reread_command(prev, c, k)) =~= r);
}

/// A rounded command has the letter of the command and its operands, rounded.
pub proof fn lemma_rounded_command(c: CommandView, k: nat)
    ensures
        letter(rounded_command(c, k)) == letter(c),
        operands(rounded_command(c, k)) == rounded_operands(operands(c), k),
        is_move(rounded_command(c, k)) == is_move(c),
{
    lemma_command_shape(c);
    let ops = operands(c);
    let r = rounded_operands(ops, k);
    assert forall|i: int| 0 <= i < ops.len() implies (#[trigger] r[i] is Flag) == (ops[i] is Flag)
        && (ops[i] is Number ==> r[i] == OperandView::Number(number_of(r, i))) && (ops[i] is Flag
        ==> r[i] == OperandView::Flag(flag_of(r, i))) by {}
    assert(operands(rounded_command(c, k)) =~= r);
}

/// The number that stands as the `i`-th operand of the `j`-th command.
pub open spec fn coordinate(cmds: Seq<CommandView>, j: int, i: int) -> NumberView {
    number_of(operands(cmds[j]), i)
}

/// Path data that is minified and read again gives as many commands with
/// as many operands, and every coordinate within half a unit of the last
/// digit kept: in units of `10^-m`, within `10^(m-k) / 2` of the
/// coordinate that the data wrote, and with its sign unless it is zero.
/// This holds for all path data that can be read. The letter of a command
/// is the one it is read with: its own, but for a move that follows
/// directly on a move of the same kind.
pub proof fn lemma_reread_is_close(d: Seq<char>, k: nat, j: int, i: int, m: nat)
    requires
        parsed(d) is Ok,
        0 <= j < parsed(d).unwrap().len(),
        0 <= i < operands(parsed(d).unwrap()[j]).len(),
        operands(parsed(d).unwrap()[j])[i] is Number,
        m >= coordinate(parsed(d).unwrap(), j, i).frac_digits.len(),
        m >= k,
    ensures
        parsed(minified_path_data(d, k)) is Ok,
        parsed(minified_path_data(d, k)).unwrap().len() == parsed(d).unwrap().len(),
        letter(parsed(minified_path_data(d, k)).unwrap()[j]) == read_letter(
            last_letter(parsed(d).unwrap().take(j)),
            parsed(d).unwrap()[j],
        ),
        operands(parsed(minified_path_data(d, k)).unwrap()[j]).len() == operands(
            parsed(d).unwrap()[j],
        ).len(),
        operands(parsed(minified_path_data(d, k)).unwrap()[j])[i] is Number,
        coordinate(parsed(minified_path_data(d, k)).unwrap(), j, i).frac_digits.len() <= m,
        2 * distance(
            scaled(coordinate(parsed(minified_path_data(d, k)).unwrap(), j, i), m),
            scaled(coordinate(parsed(d).unwrap(), j, i), m),
        ) <= pow10((m - k) as nat),
        coordinate(parsed(minified_path_data(d, k)).unwrap(), j, i).negative == coordinate(
            parsed(d).unwrap(),
            j,
            i,
        ).negative || scaled(coordinate(parsed(minified_path_data(d, k)).unwrap(), j, i), m) == 0,
{
    let cmds = parsed(d).unwrap();
    lemma_parsed_is_valid(d);
    lemma_minified_path_reads_back(d, k);
    let prev = last_letter(cmds.take(j));
    lemma_reread_command(prev, cmds[j], k);
    let n = coordinate(cmds, j, i);
    assert(valid_command(cmds[j]));
    assert(valid_operand(operands(cmds[j])[i]));
    lemma_rounding_is_close(n, k, m);
    let back = reread_commands(cmds, k);
    assert(back[j] == reread_command(prev, cmds[j], k));
    assert(coordinate(back, j, i) == canonical(n, k));
}

/// A path that is a single move is written with its letter.
pub proof fn lemma_single_move_keeps_its_letter(c: CommandView, k: nat)
    requires
        c is MoveTo,
    ensures
        serialized(seq![c], k).len() > 0,
        serialized(seq![c], k)[0] == letter(c),
        serialized(seq![c], k) == append_token(
            append_token(seq![letter(c)], token_text(operands(c)[0], k)),
            token_text(operands(c)[1], k),
        ),
{
    let cmds = seq![c];
    let ops = operands(c);
    assert(cmds.drop_last() =~= Seq::<CommandView>::empty());
    assert(cmds.last() == c);
    assert(serialized(cmds.drop_last(), k) =~= Seq::<char>::empty());
    assert(last_letter(cmds.drop_last()) == None::<char>);
    let base = Seq::<char>::empty().push(letter(c));
    assert(base =~= seq![letter(c)]);
    assert(serialized(cmds, k) == emit_operands(base, ops, k));
    assert(ops.len() == 2);
    assert(ops.drop_last().len() == 1);
    assert(ops.drop_last().drop_last().len() == 0);
    assert(ops.drop_last().last() == ops[0]);
    assert(ops.last() == ops[1]);
    assert(emit_operands(base, ops.drop_last().drop_last(), k) == base);
    assert(emit_operands(base, ops.drop_last(), k) == append_token(base, token_text(ops[0], k)));
    let t0 = token_text(ops[0], k);
    let t1 = token_text(ops[1], k);
    assert(append_token(base, t0)[0] == letter(c));
    assert(append_token(append_token(base, t0), t1)[0] == letter(c));
}

proof fn lemma_emit_rounded(base: Seq<char>, ops: Seq<OperandView>, k: nat)
    requires
        valid_operands(ops),
    ensures
        emit_operands(base, rounded_operands(ops, k), k) == emit_operands(base, ops, k),
    decreases ops.len(),
{
    if ops.len() > 0 {
        let r = rounded_operands(ops, k);
        assert(r.drop_last() =~= rounded_operands(ops.drop_last(), k));
        assert(r.last() == rounded_operand(ops.last(), k));
        assert forall|i: int| 0 <= i < ops.drop_last().len() implies valid_operand(
            #[trigger] ops.drop_last()[i],
        ) by {
            assert(ops.drop_last()[i] == ops[i]);
        }
        lemma_emit_rounded(base, ops.drop_last(), k);
        assert(valid_operand(ops[ops.len() - 1]));
        match ops.last() {
            OperandView::Number(n) => {
                lemma_formatted_canonical(n, k);
            },
            OperandView::Flag(_) => {},
        }
    }
}

/// A path whose numbers have been rounded is as valid as the path, has
/// the same letters in the same places and is written the same.
pub proof fn lemma_rounded_path(cmds: Seq<CommandView>, k: nat)
    requires
        valid_commands(cmds),
    ensures
        valid_commands(rounded_commands(cmds, k)),
        no_repeated_moves(cmds) ==> no_repeated_moves(rounded_commands(cmds, k)),
        last_letter(rounded_commands(cmds, k)) == last_letter(cmds),
        serialized(rounded_commands(cmds, k), k) == serialized(cmds, k),
    decreases cmds.len(),
{
    let r = rounded_commands(cmds, k);
    assert forall|j: int| 0 <= j < cmds.len() implies valid_command(#[trigger] r[j]) && letter(
        r[j],
    ) == letter(cmds[j]) && is_move(r[j]) == is_move(cmds[j]) by {
        let c = cmds[j];
        lemma_rounded_command(c, k);
        lemma_command_shape(c);
        lemma_command_shape(r[j]);
        assert(valid_command(c));
        let ops = operands(c);
        assert forall|i: int| 0 <= i < operands(r[j]).len() implies valid_operand(
            #[trigger] operands(r[j])[i],
        ) by {
            assert(valid_operand(ops[i]));
            match ops[i] {
                OperandView::Number(n) => {
                    lemma_formatted_canonical(n, k);
                },
                OperandView::Flag(_) => {},
            }
        }
    }
    if cmds.len() > 0 {
        let c = cmds.last();
        assert(r.drop_last() =~= rounded_commands(cmds.drop_last(), k));
        assert(r.last() == rounded_command(c, k));
        assert forall|j: int| 0 <= j < cmds.drop_last().len() implies valid_command(
            #[trigger] cmds.drop_last()[j],
        ) by {
            assert(cmds.drop_last()[j] == cmds[j]);
        }
        lemma_rounded_path(cmds.drop_last(), k);
        lemma_rounded_command(c, k);
        assert(valid_command(cmds[cmds.len() - 1]));
        let out = serialized(cmds.drop_last(), k);
        let prev = last_letter(cmds.drop_last());
        let base = lettered(out, prev, c);
        lemma_emit_rounded(base, operands(c), k);
        assert(rounded_operands(operands(c), k).len() == operands(c).len());
    }
}

/// Whether the letter `a` is the letter `b` or what `b` repeats as.
pub open spec fn stands_for(a: Option<char>, b: Option<char>) -> bool {
    match (a, b) {
        (None, None) => true,
        (Some(x), Some(y)) => x == y || x == repeated(y),
        _ => false,
    }
}

/// A path that has been read back is written as the path it was read
/// from.
pub proof fn lemma_reread_path(cmds: Seq<CommandView>, k: nat)
    requires
        valid_commands(cmds),
    ensures
        stands_for(last_letter(reread_commands(cmds, k)), last_letter(cmds)),
        serialized(reread_commands(cmds, k), k) == serialized(cmds, k),
    decreases cmds.len(),
{
    let r = reread_commands(cmds, k);
    if cmds.len() > 0 {
        let c = cmds.last();
        let front = cmds.drop_last();
        let prev = last_letter(front);
        assert(cmds.take(cmds.len() - 1) == front);
        assert forall|j: int| 0 <= j < front.len() implies #[trigger] r.drop_last()[j]
            == reread_commands(front, k)[j] by {
            assert(front.take(j) == cmds.take(j));
        }
        assert(r.drop_last() =~= reread_commands(front, k));
        assert(r.last() == reread_command(prev, c, k));
        assert forall|j: int| 0 <= j < front.len() implies valid_command(#[trigger] front[j]) by {
            assert(front[j] == cmds[j]);
        }
        lemma_reread_path(front, k);
        lemma_reread_command(prev, c, k);
        lemma_command_shape(c);
        assert(valid_command(cmds[cmds.len() - 1]));
        let out = serialized(front, k);
        let before = last_letter(r.drop_last());
        let back = r.last();
        assert(rounded_operands(operands(c), k).len() == operands(c).len());
        assert(needs_letter(before, letter(back), operands(back).len()) == needs_letter(
            prev,
            letter(c),
            operands(c).len(),
        ));
        assert(lettered(out, before, back) == lettered(out, prev, c));
        lemma_emit_rounded(lettered(out, prev, c), operands(c), k);
    }
}

/// Minifying path data twice gives what minifying it once gives.
pub proof fn lemma_minified_path_is_stable(d: Seq<char>, k: nat)
    ensures
        minified_path_data(minified_path_data(d, k), k) == minified_path_data(d, k),
{
    if parsed(d) is Ok {
        lemma_parsed_is_valid(d);
        lemma_minified_path_reads_back(d, k);
        lemma_reread_path(parsed(d).unwrap(), k);
    }
}

} // verus!
