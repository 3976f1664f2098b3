//! What the scanner does on well-formed input.
use vstd::prelude::*;
use crate::failure::Failure;
use crate::grammar::{
    digits_only, initial, is_blank, is_keyword_letter, is_value_char, keyword, lemma_value_end_is,
    outcome, run, step, step_value, then_outcome, value_digits, value_end, Outcome, ParserState,
    Scan, Step,
};
use crate::number::{all_digits, is_digit, uint_of};
use crate::value::{Binding, Value};

verus! {

/// A run of `n` spaces.
pub open spec fn spaces(n: nat) -> Seq<char> {
    Seq::new(n, |i: int| ' ')
}

/// An identifier: at least one character, none of them a space.
pub open spec fn is_identifier(name: Seq<char>) -> bool {
    name.len() > 0 && forall|i: int| 0 <= i < name.len() ==> #[trigger] name[i] != ' '
}

/// The text of a value: digits and blanks, with at least one digit.
pub open spec fn is_value_text(value: Seq<char>) -> bool {
    (forall|i: int| 0 <= i < value.len() ==> is_value_char(#[trigger] value[i]))
        && value.filter(digits_only()).len() > 0
}

/// Text that the keyword phase passes over: it holds none of the keyword's
/// letters.
pub open spec fn is_filler(text: Seq<char>) -> bool {
    forall|i: int| 0 <= i < text.len() ==> !is_keyword_letter(#[trigger] text[i])
}

/// The start of a statement, up to the place of the equals sign: the keyword,
/// `lead` spaces, the identifier and `gap` spaces.
pub open spec fn opening(lead: nat, name: Seq<char>, gap: nat) -> Seq<char> {
    keyword() + spaces(lead) + name + spaces(gap)
}

/// The statement `let <name> = <value>;` with `lead` spaces after the keyword
/// and `gap` spaces before the equals sign.
pub open spec fn statement(lead: nat, name: Seq<char>, gap: nat, value: Seq<char>) -> Seq<char> {
    opening(lead, name, gap) + seq!['='] + value + seq![';']
}

/// `failure` with its position, if it has one, moved on by `by` characters.
pub open spec fn shift_failure(failure: Failure, by: nat) -> Failure {
    match failure {
        Failure::UnexpectedCharacter { position, found } => Failure::UnexpectedCharacter {
            position: position + by,
            found,
        },
        Failure::UnsupportedValueSyntax { position, found } => Failure::UnsupportedValueSyntax {
            position: position + by,
            found,
        },
        other => other,
    }
}

/// `result` as it reads when the text it came from stands `by` characters
/// further on in a source.
pub open spec fn shift_outcome(result: Outcome, by: nat) -> Outcome {
    Outcome {
        bindings: result.bindings,
        failure: match result.failure {
            Some(failure) => Some(shift_failure(failure, by)),
            None => None,
        },
    }
}

proof fn lemma_value_end_after_prefix(pre: Seq<char>, rest: Seq<char>, from: int)
    requires
        0 <= from <= rest.len(),
    ensures
        value_end(pre + rest, pre.len() + from) == pre.len() + value_end(rest, from),
        value_digits(pre + rest, pre.len() + from) == value_digits(rest, from),
    decreases rest.len() - from,
{
    if from < rest.len() && is_value_char(rest[from]) {
        lemma_value_end_after_prefix(pre, rest, from + 1);
    }
    crate::grammar::lemma_value_end(rest, from);
    assert((pre + rest).subrange(pre.len() + from, pre.len() + value_end(rest, from))
        =~= rest.subrange(from, value_end(rest, from)));
}

/// What a scan yields from some position on depends only on the text from
/// there on, but for the positions that failures report: behind a prefix
/// `pre` the scan of `rest` yields the same bindings and the same failure,
/// `pre.len()` characters further on.
pub proof fn lemma_run_after_prefix(pre: Seq<char>, rest: Seq<char>, at: int, scan: Scan)
    requires
        0 <= at <= rest.len(),
    ensures
        run(pre + rest, pre.len() + at, scan) == shift_outcome(run(rest, at, scan), pre.len()),
    decreases rest.len() - at,
{
    let src = pre + rest;
    let by: int = pre.len() as int;
    if at < rest.len() {
        assert(src[by + at] == rest[at]);
        lemma_value_end_after_prefix(pre, rest, at);
        crate::grammar::lemma_value_end(rest, at);
        match step(rest, at, scan) {
            Step::Advance { next, emitted } => {
                assert(step(src, by + at, scan) == step(rest, at, scan));
                lemma_run_after_prefix(pre, rest, at + 1, next);
            },
            Step::Halt { failure } => {
                assert(step(src, by + at, scan) == Step::Halt {
                    failure: shift_failure(failure, pre.len()),
                });
            },
        }
    }
}

proof fn lemma_skip_filler(src: Seq<char>, from: int, to: int)
    requires
        0 <= from <= to <= src.len(),
        forall|k: int| from <= k < to ==> !is_keyword_letter(#[trigger] src[k]),
    ensures
        run(src, from, initial()) == run(src, to, initial()),
    decreases to - from,
{
    if from < to {
        assert(keyword().len() == 3);
        assert(!is_keyword_letter(src[from]));
        lemma_skip_filler(src, from + 1, to);
    }
}

proof fn lemma_read_keyword(src: Seq<char>, from: int)
    requires
        0 <= from,
        from + 3 <= src.len(),
        src[from] == 'l',
        src[from + 1] == 'e',
        src[from + 2] == 't',
    ensures
        run(src, from, initial()) == run(
            src,
            from + 3,
            Scan { phase: ParserState::Var, pending: Seq::empty() },
        ),
{
    let one = Seq::<char>::empty().push('l');
    let two = one.push('e');
    let three = two.push('t');
    assert(keyword().len() == 3);
    assert(three =~= keyword());
    assert(run(src, from, initial()) == run(
        src,
        from + 1,
        Scan { phase: ParserState::Let, pending: one },
    ));
    assert(run(src, from + 1, Scan { phase: ParserState::Let, pending: one }) == run(
        src,
        from + 2,
        Scan { phase: ParserState::Let, pending: two },
    ));
}

proof fn lemma_skip_lead(src: Seq<char>, from: int, to: int)
    requires
        0 <= from <= to <= src.len(),
        forall|k: int| from <= k < to ==> #[trigger] src[k] == ' ',
    ensures
        run(src, from, Scan { phase: ParserState::Var, pending: Seq::empty() }) == run(
            src,
            to,
            Scan { phase: ParserState::Var, pending: Seq::empty() },
        ),
    decreases to - from,
{
    if from < to {
        assert(src[from] == ' ');
        lemma_skip_lead(src, from + 1, to);
    }
}

proof fn lemma_read_identifier(src: Seq<char>, from: int, to: int, pending: Seq<char>)
    requires
        0 <= from <= to <= src.len(),
        forall|k: int| from <= k < to ==> #[trigger] src[k] != ' ',
    ensures
        run(src, from, Scan { phase: ParserState::Var, pending }) == run(
            src,
            to,
            Scan { phase: ParserState::Var, pending: pending + src.subrange(from, to) },
        ),
    decreases to - from,
{
    if from < to {
        assert(src[from] != ' ');
        lemma_read_identifier(src, from + 1, to, pending.push(src[from]));
        assert(pending.push(src[from]) + src.subrange(from + 1, to) =~= pending + src.subrange(
            from,
            to,
        ));
    } else {
        assert(pending + src.subrange(from, to) =~= pending);
    }
}

proof fn lemma_skip_gap(src: Seq<char>, from: int, to: int, pending: Seq<char>)
    requires
        0 <= from <= to <= src.len(),
        forall|k: int| from <= k < to ==> #[trigger] src[k] == ' ',
    ensures
        run(src, from, Scan { phase: ParserState::Equal, pending }) == run(
            src,
            to,
            Scan { phase: ParserState::Equal, pending },
        ),
    decreases to - from,
{
    if from < to {
        assert(src[from] == ' ');
        lemma_skip_gap(src, from + 1, to, pending);
    }
}

proof fn lemma_read_value(src: Seq<char>, from: int, end: int, pending: Seq<char>)
    requires
        0 <= from < end < src.len(),
        pending.len() > 0,
        forall|k: int| from <= k < end ==> is_value_char(#[trigger] src[k]),
        src[end] == ';',
        src.subrange(from, end).filter(digits_only()).len() > 0,
    ensures
        run(src, from, Scan { phase: ParserState::Assignment, pending }) == match uint_of(
            src.subrange(from, end).filter(digits_only()),
        ) {
            Some(n) => then_outcome(
                Some((pending, Value::Uint(n))),
                run(src, end + 1, initial()),
            ),
            None => Outcome {
                bindings: Seq::empty(),
                failure: Some(
                    Failure::NumericOverflowOrFormat {
                        text: src.subrange(from, end).filter(digits_only()),
                    },
                ),
            },
        },
{
    assert(!is_value_char(';'));
    lemma_value_end_is(src, from, end);
    assert forall|k: int| from + 1 <= k < end + 1 implies !is_keyword_letter(
        #[trigger] src[k],
    ) by {
        if k < end {
            assert(is_value_char(src[k]));
        }
    }
    lemma_skip_filler(src, from + 1, end + 1);
}

proof fn lemma_stay_in_value(src: Seq<char>, from: int, to: int, pending: Seq<char>)
    requires
        0 <= from <= to <= src.len(),
        forall|k: int|
            from <= k < to ==> #[trigger] step_value(src, k, pending) == (Step::Advance {
                next: Scan { phase: ParserState::Assignment, pending },
                emitted: None,
            }),
    ensures
        run(src, from, Scan { phase: ParserState::Assignment, pending }) == run(
            src,
            to,
            Scan { phase: ParserState::Assignment, pending },
        ),
    decreases to - from,
{
    if from < to {
        assert(step(src, from, Scan { phase: ParserState::Assignment, pending }) == step_value(
            src,
            from,
            pending,
        ));
        lemma_stay_in_value(src, from + 1, to, pending);
    }
}

proof fn lemma_no_digits(text: Seq<char>)
    requires
        forall|i: int| 0 <= i < text.len() ==> !is_digit(#[trigger] text[i]),
    ensures
        text.filter(digits_only()).len() == 0,
    decreases text.len(),
{
    if text.len() == 0 {
        text.lemma_filter_len(digits_only());
    } else {
        lemma_no_digits(text.drop_last());
        text.drop_last().lemma_filter_push(text.last(), digits_only());
        assert(text.drop_last().push(text.last()) =~= text);
    }
}

/// The opening of a statement brings the scanner to the place where the
/// equals sign is due, with the identifier collected.
pub proof fn lemma_opening(lead: nat, name: Seq<char>, gap: nat, rest: Seq<char>)
    requires
        is_identifier(name),
        gap >= 1,
    ensures
        opening(lead, name, gap).len() == 3 + lead + name.len() + gap,
        outcome(opening(lead, name, gap) + rest) == run(
            opening(lead, name, gap) + rest,
            opening(lead, name, gap).len() as int,
            Scan { phase: ParserState::Equal, pending: name },
        ),
{
    let src = opening(lead, name, gap) + rest;
    let a: int = 3 + lead as int;
    let b: int = a + name.len();
    let c: int = b + gap;
    assert(keyword().len() == 3);
    assert(src[0] == 'l' && src[1] == 'e' && src[2] == 't') by {
        assert(src[0] == keyword()[0] && src[1] == keyword()[1] && src[2] == keyword()[2]);
    }
    assert forall|k: int| 3 <= k < a implies #[trigger] src[k] == ' ' by {
        assert(src[k] == spaces(lead)[k - 3]);
    }
    assert forall|k: int| a <= k < b implies #[trigger] src[k] != ' ' by {
        assert(src[k] == name[k - a]);
    }
    assert(src.subrange(a, b) =~= name);
    assert forall|k: int| b <= k < c implies #[trigger] src[k] == ' ' by {
        assert(src[k] == spaces(gap)[k - b]);
    }
    let none = Seq::<char>::empty();
    lemma_read_keyword(src, 0);
    lemma_skip_lead(src, 3, a);
    lemma_read_identifier(src, a, b, none);
    assert(none + name =~= name);
    assert(run(src, b, Scan { phase: ParserState::Var, pending: name }) == run(
        src,
        b + 1,
        Scan { phase: ParserState::Equal, pending: name },
    )) by {
        assert(src[b] == ' ');
    }
    lemma_skip_gap(src, b + 1, c, name);
}

/// A well-formed statement yields its binding, and the scan then goes on
/// with what follows as if it began there. If the digits denote no unsigned
/// 64-bit integer, the scan stops instead and reports them.
pub proof fn lemma_statement_then(
    lead: nat,
    name: Seq<char>,
    gap: nat,
    value: Seq<char>,
    rest: Seq<char>,
)
    requires
        is_identifier(name),
        gap >= 1,
        is_value_text(value),
    ensures
        outcome(statement(lead, name, gap, value) + rest) == match uint_of(
            value.filter(digits_only()),
        ) {
            Some(n) => then_outcome(
                Some((name, Value::Uint(n))),
                shift_outcome(outcome(rest), statement(lead, name, gap, value).len()),
            ),
            None => Outcome {
                bindings: Seq::empty(),
                failure: Some(
                    Failure::NumericOverflowOrFormat { text: value.filter(digits_only()) },
                ),
            },
        },
{
    let text = statement(lead, name, gap, value);
    let src = text + rest;
    let c: int = opening(lead, name, gap).len() as int;
    let d: int = c + 1;
    let e: int = d + value.len();
    lemma_opening(lead, name, gap, seq!['='] + value + seq![';'] + rest);
    assert(src =~= opening(lead, name, gap) + (seq!['='] + value + seq![';'] + rest));
    assert(text.len() == e + 1);
    assert(src[c] == '=');
    assert forall|k: int| d <= k < e implies is_value_char(#[trigger] src[k]) by {
        assert(src[k] == value[k - d]);
    }
    assert(src.subrange(d, e) =~= value);
    assert(src[e] == ';');
    assert(run(src, c, Scan { phase: ParserState::Equal, pending: name }) == run(
        src,
        d,
        Scan { phase: ParserState::Assignment, pending: name },
    ));
    assert(value.len() > 0) by {
        if value.len() == 0 {
            value.lemma_filter_len(digits_only());
        }
    }
    lemma_read_value(src, d, e, name);
    lemma_run_after_prefix(text, rest, 0, initial());
}

/// Anything but `=` or a space where the equals sign is due stops the scan
/// there, whatever follows.
pub proof fn lemma_unexpected_character(
    lead: nat,
    name: Seq<char>,
    gap: nat,
    found: char,
    rest: Seq<char>,
)
    requires
        is_identifier(name),
        gap >= 1,
        found != '=',
        found != ' ',
    ensures
        outcome(opening(lead, name, gap) + seq![found] + rest) == (Outcome {
            bindings: Seq::empty(),
            failure: Some(
                Failure::UnexpectedCharacter {
                    position: opening(lead, name, gap).len(),
                    found,
                },
            ),
        }),
{
    let src = opening(lead, name, gap) + seq![found] + rest;
    let c: int = opening(lead, name, gap).len() as int;
    lemma_opening(lead, name, gap, seq![found] + rest);
    assert(src =~= opening(lead, name, gap) + (seq![found] + rest));
    assert(src[c] == found);
}

/// A character in a value that is neither digit, blank nor `;` stops the
/// scan at that character, whatever follows.
pub proof fn lemma_unsupported_value(
    lead: nat,
    name: Seq<char>,
    gap: nat,
    value: Seq<char>,
    found: char,
    rest: Seq<char>,
)
    requires
        is_identifier(name),
        gap >= 1,
        forall|i: int| 0 <= i < value.len() ==> is_value_char(#[trigger] value[i]),
        !is_value_char(found),
        found != ';',
    ensures
        outcome(opening(lead, name, gap) + seq!['='] + value + seq![found] + rest) == (Outcome {
            bindings: Seq::empty(),
            failure: Some(
                Failure::UnsupportedValueSyntax {
                    position: opening(lead, name, gap).len() + 1 + value.len(),
                    found,
                },
            ),
        }),
{
    let src = opening(lead, name, gap) + seq!['='] + value + seq![found] + rest;
    let c: int = opening(lead, name, gap).len() as int;
    let d: int = c + 1;
    let e: int = d + value.len();
    lemma_opening(lead, name, gap, seq!['='] + value + seq![found] + rest);
    assert(src =~= opening(lead, name, gap) + (seq!['='] + value + seq![found] + rest));
    assert(src[c] == '=');
    assert forall|k: int| d <= k < e implies is_value_char(#[trigger] src[k]) by {
        assert(src[k] == value[k - d]);
    }
    assert(src[e] == found);
    assert(run(src, c, Scan { phase: ParserState::Equal, pending: name }) == run(
        src,
        d,
        Scan { phase: ParserState::Assignment, pending: name },
    ));
    lemma_value_end_is(src, d, e);
}

/// A value that the source ends in, with no `;` behind it, is not recorded.
pub proof fn lemma_unterminated_value(lead: nat, name: Seq<char>, gap: nat, value: Seq<char>)
    requires
        is_identifier(name),
        gap >= 1,
        forall|i: int| 0 <= i < value.len() ==> is_value_char(#[trigger] value[i]),
    ensures
        outcome(opening(lead, name, gap) + seq!['='] + value) == (Outcome {
            bindings: Seq::empty(),
            failure: None,
        }),
{
    let src = opening(lead, name, gap) + seq!['='] + value;
    let c: int = opening(lead, name, gap).len() as int;
    let d: int = c + 1;
    lemma_opening(lead, name, gap, seq!['='] + value);
    assert(src =~= opening(lead, name, gap) + (seq!['='] + value));
    assert(src[c] == '=');
    assert(run(src, c, Scan { phase: ParserState::Equal, pending: name }) == run(
        src,
        d,
        Scan { phase: ParserState::Assignment, pending: name },
    ));
    assert forall|k: int| d <= k < src.len() implies #[trigger] step_value(src, k, name) == (
    Step::Advance {
        next: Scan { phase: ParserState::Assignment, pending: name },
        emitted: None,
    }) by {
        assert forall|j: int| k <= j < src.len() implies is_value_char(#[trigger] src[j]) by {
            assert(src[j] == value[j - d]);
        }
        lemma_value_end_is(src, k, src.len() as int);
    }
    lemma_stay_in_value(src, d, src.len() as int, name);
}

/// A statement whose value holds no digit is not recorded.
pub proof fn lemma_value_without_digits(lead: nat, name: Seq<char>, gap: nat, value: Seq<char>)
    requires
        is_identifier(name),
        gap >= 1,
        forall|i: int| 0 <= i < value.len() ==> is_blank(#[trigger] value[i]),
    ensures
        outcome(statement(lead, name, gap, value)) == (Outcome {
            bindings: Seq::empty(),
            failure: None,
        }),
{
    let src = statement(lead, name, gap, value);
    let c: int = opening(lead, name, gap).len() as int;
    let d: int = c + 1;
    let e: int = d + value.len();
    lemma_opening(lead, name, gap, seq!['='] + value + seq![';']);
    assert(src =~= opening(lead, name, gap) + (seq!['='] + value + seq![';']));
    assert(src[c] == '=');
    assert(src[e] == ';');
    assert(run(src, c, Scan { phase: ParserState::Equal, pending: name }) == run(
        src,
        d,
        Scan { phase: ParserState::Assignment, pending: name },
    ));
    assert forall|k: int| d <= k < src.len() implies #[trigger] step_value(src, k, name) == (
    Step::Advance {
        next: Scan { phase: ParserState::Assignment, pending: name },
        emitted: None,
    }) by {
        assert forall|j: int| k <= j < e implies is_value_char(#[trigger] src[j]) by {
            assert(src[j] == value[j - d]);
        }
        lemma_value_end_is(src, k, e);
        let part = src.subrange(k, e);
        assert forall|j: int| 0 <= j < part.len() implies !is_digit(#[trigger] part[j]) by {
            assert(part[j] == value[j + k - d]);
        }
        lemma_no_digits(part);
    }
    lemma_stay_in_value(src, d, src.len() as int, name);
}

/// A single well-formed statement yields exactly its one binding, or the
/// failure that reports its digits if they denote no unsigned 64-bit integer.
pub proof fn lemma_statement(lead: nat, name: Seq<char>, gap: nat, value: Seq<char>)
    requires
        is_identifier(name),
        gap >= 1,
        is_value_text(value),
    ensures
        outcome(statement(lead, name, gap, value)) == match uint_of(value.filter(digits_only())) {
            Some(n) => Outcome { bindings: seq![(name, Value::Uint(n))], failure: None },
            None => Outcome {
                bindings: Seq::empty(),
                failure: Some(
                    Failure::NumericOverflowOrFormat { text: value.filter(digits_only()) },
                ),
            },
        },
{
    let text = statement(lead, name, gap, value);
    let none = Seq::<char>::empty();
    lemma_statement_then(lead, name, gap, value, none);
    assert(text + none =~= text);
    match uint_of(value.filter(digits_only())) {
        Some(n) => {
            assert(seq![(name, Value::Uint(n))] + Seq::<Binding>::empty() =~= seq![
                (name, Value::Uint(n)),
            ]);
        },
        None => {},
    }
}

/// Filler before a text changes nothing but the positions that failures
/// report.
pub proof fn lemma_filler_then(filler: Seq<char>, rest: Seq<char>)
    requires
        is_filler(filler),
    ensures
        outcome(filler + rest) == shift_outcome(outcome(rest), filler.len()),
{
    let src = filler + rest;
    assert forall|k: int| 0 <= k < filler.len() implies !is_keyword_letter(#[trigger] src[k]) by {
        assert(src[k] == filler[k]);
    }
    lemma_skip_filler(src, 0, filler.len() as int);
    lemma_run_after_prefix(filler, rest, 0, initial());
}

/// A run of digits is its own digits.
pub proof fn lemma_digits_of_digits(text: Seq<char>)
    requires
        all_digits(text),
    ensures
        text.filter(digits_only()) == text,
    decreases text.len(),
{
    if text.len() == 0 {
        text.lemma_filter_len(digits_only());
        assert(text.filter(digits_only()) =~= text);
    } else {
        lemma_digits_of_digits(text.drop_last());
        text.drop_last().lemma_filter_push(text.last(), digits_only());
        assert(text.drop_last().push(text.last()) =~= text);
    }
}

/// The statement `let <name> = <digits>;`, written with single spaces.
pub open spec fn plain_statement(name: Seq<char>, digits: Seq<char>) -> Seq<char> {
    seq!['l', 'e', 't', ' '] + name + seq![' ', '=', ' '] + digits + seq![';']
}

proof fn lemma_plain_text(name: Seq<char>, digits: Seq<char>)
    ensures
        statement(1, name, 1, seq![' '] + digits) == plain_statement(name, digits),
{
    let opening = keyword() + spaces(1);
    let middle = spaces(1) + seq!['='] + seq![' '];
    assert(opening =~= seq!['l', 'e', 't', ' ']);
    assert(middle =~= seq![' ', '=', ' ']);
    assert(opening + name + spaces(1) + seq!['='] + (seq![' '] + digits) =~= opening + name
        + middle + digits);
}

proof fn lemma_plain_value(digits: Seq<char>)
    requires
        all_digits(digits),
        digits.len() > 0,
    ensures
        is_value_text(seq![' '] + digits),
        (seq![' '] + digits).filter(digits_only()) == digits,
{
    let blank = seq![' '];
    let none = Seq::<char>::empty();
    let value = blank + digits;
    lemma_digits_of_digits(digits);
    Seq::filter_distributes_over_add(blank, digits, digits_only());
    none.lemma_filter_len(digits_only());
    none.lemma_filter_push(' ', digits_only());
    assert(none.push(' ') =~= blank);
    assert(blank.filter(digits_only()) =~= none);
    assert(none + digits =~= digits);
    assert forall|i: int| 0 <= i < value.len() implies is_value_char(#[trigger] value[i]) by {
        if i > 0 {
            assert(value[i] == digits[i - 1]);
        }
    }
}

/// The statement `let <name> = <digits>;`, written with single spaces, yields
/// exactly the one binding of `name` to the number that `digits` denotes,
/// whatever the identifier and whatever the number, as long as it is an
/// unsigned 64-bit integer.
pub proof fn lemma_plain_statement(name: Seq<char>, digits: Seq<char>)
    requires
        is_identifier(name),
        uint_of(digits) is Some,
    ensures
        outcome(plain_statement(name, digits)) == (Outcome {
            bindings: seq![(name, Value::Uint(uint_of(digits).unwrap()))],
            failure: None,
        }),
{
    lemma_plain_value(digits);
    lemma_plain_text(name, digits);
    lemma_statement(1, name, 1, seq![' '] + digits);
}

/// A statement together with the filler that follows it.
pub struct Statement {
    /// The number of spaces between the keyword and the identifier.
    pub lead: nat,
    /// The identifier.
    pub name: Seq<char>,
    /// The number of spaces between the identifier and the equals sign.
    pub gap: nat,
    /// The text between the equals sign and the semicolon.
    pub value: Seq<char>,
    /// What stands behind the semicolon, up to the next statement.
    pub trail: Seq<char>,
}

impl Statement {
    /// The statement is well-formed and its digits denote an unsigned 64-bit
    /// integer.
    pub open spec fn well_formed(self) -> bool {
        &&& is_identifier(self.name)
        &&& self.gap >= 1
        &&& is_value_text(self.value)
        &&& uint_of(self.value.filter(digits_only())) is Some
        &&& is_filler(self.trail)
    }

    /// The statement as it stands in a source.
    pub open spec fn text(self) -> Seq<char> {
        statement(self.lead, self.name, self.gap, self.value) + self.trail
    }

    /// The binding that the statement declares.
    pub open spec fn binding(self) -> Binding {
        (self.name, Value::Uint(uint_of(self.value.filter(digits_only())).unwrap()))
    }
}

/// The source made of `statements`, one after the other.
pub open spec fn program(statements: Seq<Statement>) -> Seq<char>
    decreases statements.len(),
{
    if statements.len() == 0 {
        Seq::empty()
    } else {
        statements[0].text() + program(statements.drop_first())
    }
}

/// The bindings that `statements` declare, in their order.
pub open spec fn bindings_of(statements: Seq<Statement>) -> Seq<Binding> {
    Seq::new(statements.len(), |i: int| statements[i].binding())
}

/// A source made of well-formed statements, with filler before, between and
/// after them, yields the bindings of all of them in source order, and no
/// failure.
pub proof fn lemma_program(before: Seq<char>, statements: Seq<Statement>)
    requires
        is_filler(before),
        forall|i: int| 0 <= i < statements.len() ==> (#[trigger] statements[i]).well_formed(),
    ensures
        outcome(before + program(statements)) == (Outcome {
            bindings: bindings_of(statements),
            failure: None,
        }),
    decreases statements.len(), before.len(),
{
    let none = Seq::<char>::empty();
    if before.len() > 0 {
        lemma_filler_then(before, program(statements));
        lemma_program(none, statements);
        assert(none + program(statements) =~= program(statements));
    } else if statements.len() == 0 {
        assert(before + program(statements) =~= none);
        assert(bindings_of(statements) =~= Seq::<Binding>::empty());
    } else {
        let head = statements[0];
        let tail = statements.drop_first();
        let text = statement(head.lead, head.name, head.gap, head.value);
        assert(head.well_formed());
        assert forall|i: int| 0 <= i < tail.len() implies (#[trigger] tail[i]).well_formed() by {
            assert(tail[i] == statements[i + 1]);
        }
        lemma_program(head.trail, tail);
        lemma_statement_then(head.lead, head.name, head.gap, head.value, head.trail + program(tail));
        assert(before + program(statements) =~= text + (head.trail + program(tail)));
        assert(seq![head.binding()] + bindings_of(tail) =~= bindings_of(statements)) by {
            assert forall|i: int| 0 <= i < statements.len() implies (seq![head.binding()]
                + bindings_of(tail))[i] == bindings_of(statements)[i] by {
                if i > 0 {
                    assert(tail[i - 1] == statements[i]);
                }
            }
        }
    }
}

/// The empty source yields no binding and no failure.
pub proof fn lemma_empty_source()
    ensures
        outcome(Seq::empty()) == (Outcome { bindings: Seq::empty(), failure: None }),
{
}

/// Every binding that a scan records, from whatever state it starts, has a
/// non-empty name and an unsigned value.
pub proof fn lemma_bindings_named(src: Seq<char>, at: int, scan: Scan)
    ensures
        forall|i: int|
            0 <= i < run(src, at, scan).bindings.len() ==> {
                &&& (#[trigger] run(src, at, scan).bindings[i]).0.len() > 0
                &&& run(src, at, scan).bindings[i].1 is Uint
            },
    decreases src.len() - at,
{
    if 0 <= at < src.len() {
        match step(src, at, scan) {
            Step::Advance { next, emitted } => {
                lemma_bindings_named(src, at + 1, next);
            },
            Step::Halt { failure } => {},
        }
    }
}

/// A failure names the character that caused it: the position lies in the
/// part of the source that was scanned and holds the character reported, which
/// is one that the phase does not take. Digits are reported only if they denote
/// no unsigned 64-bit integer, and a scan never reports that the source could
/// not be read.
pub proof fn lemma_failure_located(src: Seq<char>, at: int, scan: Scan)
    requires
        0 <= at,
    ensures
        match run(src, at, scan).failure {
            Some(Failure::UnexpectedCharacter { position, found }) => {
                &&& at <= position < src.len()
                &&& src[position as int] == found
                &&& found != '='
                &&& found != ' '
            },
            Some(Failure::UnsupportedValueSyntax { position, found }) => {
                &&& at <= position < src.len()
                &&& src[position as int] == found
                &&& !is_value_char(found)
                &&& found != ';'
            },
            Some(Failure::NumericOverflowOrFormat { text }) => uint_of(text) is None,
            Some(Failure::SourceReadFailure) => false,
            None => true,
        },
    decreases src.len() - at,
{
    if at < src.len() {
        crate::grammar::lemma_value_end(src, at);
        match step(src, at, scan) {
            Step::Advance { next, emitted } => {
                lemma_failure_located(src, at + 1, next);
            },
            Step::Halt { failure } => {},
        }
    }
}

/// Scanning is repeatable: two scans of the same text, each appending to a
/// table of its own, leave equal tables and report the same, if the tables
/// were equal before.
pub proof fn lemma_scan_repeatable(
    source: Seq<char>,
    before: (Seq<Binding>, Seq<Binding>),
    after: (Seq<Binding>, Seq<Binding>),
    report: (Option<Failure>, Option<Failure>),
)
    requires
        before.0 == before.1,
        after.0 == before.0 + outcome(source).bindings,
        after.1 == before.1 + outcome(source).bindings,
        report.0 == outcome(source).failure,
        report.1 == outcome(source).failure,
    ensures
        after.0 == after.1,
        report.0 == report.1,
{
}

} // verus!
