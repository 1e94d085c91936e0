//! The script language: what each line of a script asks for.
//!
//! A script is text; its lines are separated by line feeds. A line is a
//! comment or blank, a delay, a barrier, a command for one drone, or a
//! command for all of them. Reading a line never fails: what cannot be read
//! asks for nothing, or for the default delay.
use crate::command::{CommandView, SdkCommand};
use crate::text::{
    alphanumerics_of, chars_of, contains_char, digits_value, first_position, is_alphanumeric,
    is_digit, is_number,
    is_whitespace, lemma_alphanumerics_of_fixed, lemma_alphanumerics_of_push,
    lemma_first_position, lemma_first_position_at, lemma_payload_of_clean, lemma_split_on_concat,
    lemma_split_on_single, lemma_trim_bounds, lemma_trim_start_at, parse_decimal, parse_number,
    payload_of, pieces_view, position_of, retain_alphanumerics, retain_payload, split, split_on,
    starts_with, trim, trim_bounds, trim_start,
};
use vstd::prelude::*;
use vstd::slice::slice_subrange;

verus! {

/// The seconds a delay line sleeps when it names no readable number.
pub const DEFAULT_DELAY_SECONDS: u64 = 1;

/// The syntactic class of a script line.
#[derive(Clone, Copy, Debug, PartialEq, Eq, Structural)]
pub enum LineKind {
    /// Blank, or a comment.
    Skip,
    /// Starts with `delay`.
    Delay,
    /// Starts with `await`.
    Barrier,
    /// Holds a `>`: a command for one drone.
    Targeted,
    /// Anything else: a command for every drone.
    Broadcast,
}

/// What the interpreter does for one line.
#[derive(Debug)]
pub enum Instruction {
    /// Go on with the next line.
    Nothing,
    /// Sleep for this many seconds.
    Sleep(u64),
    /// Wait until no drone has a blocking command outstanding.
    Barrier,
    /// Enqueue the command on the drone at this position, if there is one.
    SendTo(usize, SdkCommand),
    /// Enqueue the command on every drone.
    SendAll(SdkCommand),
}

/// An instruction as plain values.
pub enum InstructionView {
    Nothing,
    Sleep(nat),
    Barrier,
    SendTo(nat, CommandView),
    SendAll(CommandView),
}

impl View for Instruction {
    type V = InstructionView;

    open spec fn view(&self) -> InstructionView {
        match self {
            Instruction::Nothing => InstructionView::Nothing,
            Instruction::Sleep(n) => InstructionView::Sleep(*n as nat),
            Instruction::Barrier => InstructionView::Barrier,
            Instruction::SendTo(k, c) => InstructionView::SendTo(*k as nat, c@),
            Instruction::SendAll(c) => InstructionView::SendAll(c@),
        }
    }
}

/// The line without the carriage return that a CRLF line ending leaves.
pub open spec fn strip_cr(line: Seq<char>) -> Seq<char> {
    if line.len() > 0 && line.last() == '\r' {
        line.drop_last()
    } else {
        line
    }
}

/// Nothing but whitespace, or `#` as the first character after any leading
/// whitespace.
pub open spec fn is_blank_or_comment(l: Seq<char>) -> bool {
    let rest = trim_start(l);
    rest.len() == 0 || rest[0] == '#'
}

/// The class of a line that has no trailing carriage return. The first rule
/// that applies decides.
pub open spec fn classify(l: Seq<char>) -> LineKind {
    if is_blank_or_comment(l) {
        LineKind::Skip
    } else if "delay"@.is_prefix_of(l) {
        LineKind::Delay
    } else if "await"@.is_prefix_of(l) {
        LineKind::Barrier
    } else if l.contains('>') {
        LineKind::Targeted
    } else {
        LineKind::Broadcast
    }
}

/// The class of a script line.
pub open spec fn kind_of(line: Seq<char>) -> LineKind {
    classify(strip_cr(line))
}

/// The seconds a delay line asks for: the number in its third
/// space-separated field, or the default where that field is missing or is
/// no number.
pub open spec fn delay_of(l: Seq<char>) -> nat {
    let fields = split_on(l, ' ');
    if fields.len() > 2 && parse_decimal(fields[2]) is Some {
        parse_decimal(fields[2])->0
    } else {
        DEFAULT_DELAY_SECONDS as nat
    }
}

/// The position a targeted line names: the letters and digits before its
/// first `>`, read as a number.
pub open spec fn target_of(l: Seq<char>) -> Option<nat> {
    parse_decimal(alphanumerics_of(l.take(first_position(l, '>'))))
}

/// The command text of a targeted line: what follows its first `>`,
/// normalised.
pub open spec fn targeted_text(l: Seq<char>) -> Seq<char> {
    payload_of(l.skip(first_position(l, '>') + 1))
}

/// What a script line asks for.
pub open spec fn instruction_of(line: Seq<char>) -> InstructionView {
    let l = strip_cr(line);
    match classify(l) {
        LineKind::Skip => InstructionView::Nothing,
        LineKind::Delay => InstructionView::Sleep(delay_of(l)),
        LineKind::Barrier => InstructionView::Barrier,
        LineKind::Targeted => match target_of(l) {
            Some(k) => InstructionView::SendTo(
                k,
                CommandView { text: targeted_text(l), blocking: l.contains('@') },
            ),
            None => InstructionView::Nothing,
        },
        LineKind::Broadcast => InstructionView::SendAll(
            CommandView { text: payload_of(l), blocking: l.contains('@') },
        ),
    }
}

/// What a whole script asks for, line by line.
pub open spec fn program_of(script: Seq<char>) -> Seq<InstructionView> {
    let lines = split_on(script, '\n');
    Seq::new(lines.len(), |i: int| instruction_of(lines[i]))
}

/// The instructions of a list as plain values.
pub open spec fn program_view(program: Seq<Instruction>) -> Seq<InstructionView> {
    Seq::new(program.len(), |i: int| program[i]@)
}

fn strip_carriage_return(line: &[char]) -> (l: &[char])
    ensures
        l@ == strip_cr(line@),
{
    let n = line.len();
    if n > 0 && line[n - 1] == '\r' {
        slice_subrange(line, 0, n - 1)
    } else {
        line
    }
}

fn classify_chars(l: &[char]) -> (kind: LineKind)
    ensures
        kind == classify(l@),
{
    let (start, _) = trim_bounds(l);
    if start == l.len() || l[start] == '#' {
        return LineKind::Skip;
    }
    let delay = chars_of("delay");
    let barrier = chars_of("await");
    if starts_with(l, delay.as_slice()) {
        LineKind::Delay
    } else if starts_with(l, barrier.as_slice()) {
        LineKind::Barrier
    } else if contains_char(l, '>') {
        LineKind::Targeted
    } else {
        LineKind::Broadcast
    }
}

fn delay_chars(l: &[char]) -> (seconds: u64)
    ensures
        seconds == delay_of(l@),
{
    let fields = split(l, ' ');
    assert(pieces_view(fields@).len() == fields.len());
    if fields.len() > 2 {
        assert(pieces_view(fields@)[2] == fields@[2]@);
        match parse_number(fields[2].as_slice()) {
            Some(n) => n as u64,
            None => DEFAULT_DELAY_SECONDS,
        }
    } else {
        DEFAULT_DELAY_SECONDS
    }
}

fn targeted_chars(l: &[char]) -> (r: Instruction)
    requires
        l@.contains('>'),
    ensures
        r@ == match target_of(l@) {
            Some(k) => InstructionView::SendTo(
                k,
                CommandView { text: targeted_text(l@), blocking: l@.contains('@') },
            ),
            None => InstructionView::Nothing,
        },
{
    let at = position_of(l, '>');
    proof {
        lemma_first_position(l@, '>');
    }
    assert(at < l.len());
    let index = retain_alphanumerics(slice_subrange(l, 0, at));
    match parse_number(index.as_slice()) {
        Some(k) => {
            let cmd = retain_payload(slice_subrange(l, at + 1, l.len()));
            Instruction::SendTo(k, SdkCommand { cmd, blocking: contains_char(l, '@') })
        },
        None => Instruction::Nothing,
    }
}

fn parse_chars(line: &[char]) -> (r: Instruction)
    ensures
        r@ == instruction_of(line@),
{
    let l = strip_carriage_return(line);
    match classify_chars(l) {
        LineKind::Skip => Instruction::Nothing,
        LineKind::Delay => Instruction::Sleep(delay_chars(l)),
        LineKind::Barrier => Instruction::Barrier,
        LineKind::Targeted => targeted_chars(l),
        LineKind::Broadcast => Instruction::SendAll(
            SdkCommand { cmd: retain_payload(l), blocking: contains_char(l, '@') },
        ),
    }
}

/// Reduces text to what may be transmitted: its letters, digits and spaces.
pub fn normalise(text: &str) -> (r: String)
    ensures
        r@ == payload_of(text@),
{
    let chars = chars_of(text);
    retain_payload(chars.as_slice())
}

/// The class of one script line.
pub fn classify_line(line: &str) -> (kind: LineKind)
    ensures
        kind == kind_of(line@),
{
    let chars = chars_of(line);
    classify_chars(strip_carriage_return(chars.as_slice()))
}

/// Reads one script line.
pub fn parse_line(line: &str) -> (r: Instruction)
    ensures
        r@ == instruction_of(line@),
{
    let chars = chars_of(line);
    parse_chars(chars.as_slice())
}

/// Reads a script: one instruction for each of its lines, in order.
pub fn parse_script(script: &str) -> (program: Vec<Instruction>)
    ensures
        program_view(program@) == program_of(script@),
{
    let chars = chars_of(script);
    let lines = split(chars.as_slice(), '\n');
    let mut program: Vec<Instruction> = Vec::new();
    let mut i: usize = 0;
    while i < lines.len()
        invariant
            i <= lines.len(),
            pieces_view(lines@) == split_on(script@, '\n'),
            program.len() == i,
            forall|j: int| 0 <= j < i ==> (#[trigger] program@[j])@ == instruction_of(lines@[j]@),
        decreases lines.len() - i,
    {
        program.push(parse_chars(lines[i].as_slice()));
        i = i + 1;
    }
    proof {
        let want = program_of(script@);
        let have = program_view(program@);
        assert(want.len() == have.len());
        assert forall|j: int| 0 <= j < have.len() implies have[j] == want[j] by {
            assert(pieces_view(lines@)[j] == lines@[j]@);
            assert(program@[j]@ == instruction_of(lines@[j]@));
        }
        assert(have =~= want);
    }
    program
}

/// Stripping the carriage return changes no other character's presence.
pub proof fn lemma_strip_cr_contains(line: Seq<char>, c: char)
    requires
        c != '\r',
    ensures
        strip_cr(line).contains(c) == line.contains(c),
{
    let l = strip_cr(line);
    if l.contains(c) {
        let j = choose|j: int| 0 <= j < l.len() && l[j] == c;
        assert(line[j] == c);
    }
    if line.contains(c) {
        let j = choose|j: int| 0 <= j < line.len() && line[j] == c;
        assert(l[j] == c);
    }
}

/// A line that is empty once trimmed, or that starts with `#`, asks for
/// nothing.
pub proof fn lemma_blank_and_comment_lines_skip(line: Seq<char>)
    requires
        trim(line).len() == 0 || (line.len() > 0 && line[0] == '#'),
    ensures
        kind_of(line) == LineKind::Skip,
        instruction_of(line) == InstructionView::Nothing,
{
    let l = strip_cr(line);
    if line.len() > 0 && line[0] == '#' {
        assert(l.len() > 0 && l[0] == '#');
        assert(!is_whitespace('#'));
    } else {
        let (a, b) = lemma_trim_bounds(line);
        assert(a == b);
        assert forall|i: int| 0 <= i < l.len() implies is_whitespace(#[trigger] l[i]) by {
            assert(l[i] == line[i]);
        }
        lemma_trim_start_at(l, l.len() as int);
    }
}

/// The word `delay` as characters.
proof fn lemma_delay_word()
    ensures
        "delay"@ == seq!['d', 'e', 'l', 'a', 'y'],
        !"delay"@.contains(' '),
{
    reveal_strlit("delay");
    assert("delay"@ =~= seq!['d', 'e', 'l', 'a', 'y']);
    if "delay"@.contains(' ') {
        let j = choose|j: int| 0 <= j < "delay"@.len() && "delay"@[j] == ' ';
        assert("delay"@[j] != ' ');
    }
}

/// `delay`, a word and a number, one space between them, ask for that
/// number of seconds.
pub proof fn lemma_delay_seconds(word: Seq<char>, number: Seq<char>)
    requires
        !word.contains(' '),
        is_number(number),
        digits_value(number) <= usize::MAX,
    ensures
        instruction_of(("delay"@.push(' ') + word).push(' ') + number) == InstructionView::Sleep(
            digits_value(number),
        ),
{
    lemma_delay_word();
    let start = "delay"@.push(' ') + word;
    let line = start.push(' ') + number;
    assert(is_digit(number[number.len() - 1]));
    assert(line.last() == number.last());
    assert(strip_cr(line) == line);
    assert(line[0] == 'd');
    assert(!is_whitespace('d'));
    assert("delay"@ =~= line.subrange(0, 5));
    assert(classify(line) == LineKind::Delay);
    assert(!number.contains(' ')) by {
        if number.contains(' ') {
            let j = choose|j: int| 0 <= j < number.len() && number[j] == ' ';
            assert(is_digit(number[j]));
        }
    }
    lemma_split_on_concat(start, number, ' ');
    lemma_split_on_concat("delay"@, word, ' ');
    lemma_split_on_single("delay"@, ' ');
    lemma_split_on_single(word, ' ');
    lemma_split_on_single(number, ' ');
    assert(split_on(line, ' ') =~= seq!["delay"@, word, number]);
    assert(is_digit(number[0]));
}

/// `delay` alone, or `delay` and one word, asks for the default: there is
/// no third field to read a number from.
pub proof fn lemma_delay_default(word: Seq<char>)
    requires
        !word.contains(' '),
    ensures
        instruction_of("delay"@) == InstructionView::Sleep(DEFAULT_DELAY_SECONDS as nat),
        instruction_of("delay"@.push(' ') + word) == InstructionView::Sleep(
            DEFAULT_DELAY_SECONDS as nat,
        ),
{
    lemma_delay_word();
    let bare = "delay"@;
    assert(strip_cr(bare) == bare);
    assert(bare[0] == 'd');
    assert(!is_whitespace('d'));
    assert(bare =~= bare.subrange(0, 5));
    lemma_split_on_single(bare, ' ');

    let line = bare.push(' ') + word;
    let l = strip_cr(line);
    assert(l[0] == 'd');
    assert(bare =~= l.subrange(0, 5));
    assert(classify(l) == LineKind::Delay);
    if l == line {
        lemma_split_on_concat(bare, word, ' ');
        lemma_split_on_single(word, ' ');
        assert(split_on(l, ' ') =~= seq![bare, word]);
    } else {
        if word.len() == 0 {
            assert(line[line.len() - 1] == ' ');
        } else {
            let shorter = word.drop_last();
            assert(l =~= bare.push(' ') + shorter);
            assert(!shorter.contains(' ')) by {
                if shorter.contains(' ') {
                    let j = choose|j: int| 0 <= j < shorter.len() && shorter[j] == ' ';
                    assert(word[j] == ' ');
                }
            }
            lemma_split_on_concat(bare, shorter, ' ');
            lemma_split_on_single(shorter, ' ');
            assert(split_on(l, ' ') =~= seq![bare, shorter]);
        }
    }
}

/// A number, a space, `>` and a payload ask for the normalised payload to
/// be sent to the drone at the position that the number gives.
pub proof fn lemma_targeted_line(number: Seq<char>, payload: Seq<char>)
    requires
        is_number(number),
        digits_value(number) <= usize::MAX,
        payload.len() > 0 ==> payload.last() != '\r',
    ensures
        instruction_of(number.push(' ').push('>') + payload) == InstructionView::SendTo(
            digits_value(number),
            CommandView { text: payload_of(payload), blocking: payload.contains('@') },
        ),
{
    let head = number.push(' ');
    let line = head.push('>') + payload;
    let at = head.len() as int;
    assert(line[at] == '>');
    assert(strip_cr(line) == line) by {
        if payload.len() > 0 {
            assert(line.last() == payload.last());
        }
    }
    assert(is_digit(number[0]));
    assert(line[0] == number[0]);
    assert(!is_whitespace(line[0]));
    reveal_strlit("delay");
    reveal_strlit("await");
    assert(!"delay"@.is_prefix_of(line)) by {
        if "delay"@.is_prefix_of(line) {
            assert(line.subrange(0, 5)[0] == 'd');
        }
    }
    assert(!"await"@.is_prefix_of(line)) by {
        if "await"@.is_prefix_of(line) {
            assert(line.subrange(0, 5)[0] == 'a');
        }
    }
    assert(line.contains('>'));
    assert(classify(line) == LineKind::Targeted);
    assert forall|i: int| 0 <= i < at implies #[trigger] line[i] != '>' by {
        if i < number.len() {
            assert(is_digit(number[i]));
            assert(line[i] == number[i]);
        }
    }
    lemma_first_position_at(line, '>', at);
    assert(line.take(at) =~= head);
    assert(line.skip(at + 1) =~= payload);
    lemma_alphanumerics_of_push(number, ' ');
    assert forall|i: int| 0 <= i < number.len() implies is_alphanumeric(
        #[trigger] number[i],
    ) by {
        assert(is_digit(number[i]));
    }
    lemma_alphanumerics_of_fixed(number);
    assert(line.contains('@') == payload.contains('@')) by {
        if line.contains('@') {
            let j = choose|j: int| 0 <= j < line.len() && line[j] == '@';
            if j < number.len() {
                assert(is_digit(number[j]));
            }
            assert(payload[j - at - 1] == '@');
        }
        if payload.contains('@') {
            let j = choose|j: int| 0 <= j < payload.len() && payload[j] == '@';
            assert(line[j + at + 1] == '@');
        }
    }
}

/// A command is blocking exactly when its line holds an `@`.
pub proof fn lemma_blocking_flag(line: Seq<char>)
    ensures
        match instruction_of(line) {
            InstructionView::SendTo(_, c) => c.blocking == line.contains('@'),
            InstructionView::SendAll(c) => c.blocking == line.contains('@'),
            _ => true,
        },
{
    lemma_strip_cr_contains(line, '@');
}

/// Every command that a line yields is normalised: its text holds letters,
/// digits and spaces only, all taken from the line.
pub proof fn lemma_commands_are_normalised(line: Seq<char>)
    ensures
        match instruction_of(line) {
            InstructionView::SendTo(_, c) => c.is_normalised() && c.text.len() <= line.len(),
            InstructionView::SendAll(c) => c.is_normalised() && c.text.len() <= line.len(),
            _ => true,
        },
{
    let l = strip_cr(line);
    lemma_payload_of_clean(l);
    lemma_first_position(l, '>');
    if l.contains('>') {
        lemma_payload_of_clean(l.skip(first_position(l, '>') + 1));
    }
}

/// A line yields a command for every drone exactly when it is a broadcast
/// line, and a command for one drone only when it is a targeted line.
pub proof fn lemma_instruction_kinds(line: Seq<char>)
    ensures
        instruction_of(line) is SendAll <==> kind_of(line) == LineKind::Broadcast,
        instruction_of(line) is SendTo ==> kind_of(line) == LineKind::Targeted,
        instruction_of(line) is Sleep <==> kind_of(line) == LineKind::Delay,
        instruction_of(line) is Barrier <==> kind_of(line) == LineKind::Barrier,
        kind_of(line) == LineKind::Skip ==> instruction_of(line) is Nothing,
{
}

} // verus!
