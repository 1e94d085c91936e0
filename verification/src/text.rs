//! Character classes and the sequence operations that the script grammar and
//! the response handling are built from.
//!
//! Every operation is stated over `Seq<char>`; the executable versions work on
//! character slices and are proved equal to those statements.
use vstd::prelude::*;

verus! {

/// `String::push` appends one character to the end of the string.
pub assume_specification[ String::push ](s: &mut String, c: char)
    ensures
        final(s)@ == old(s)@.push(c),
;

/// An ASCII decimal digit.
pub open spec fn is_digit(c: char) -> bool {
    '0' <= c && c <= '9'
}

/// An ASCII letter or digit.
pub open spec fn is_alphanumeric(c: char) -> bool {
    is_digit(c) || ('a' <= c && c <= 'z') || ('A' <= c && c <= 'Z')
}

/// A character that may appear in a transmitted payload.
pub open spec fn is_payload_char(c: char) -> bool {
    is_alphanumeric(c) || c == ' '
}

/// ASCII whitespace: space, tab, line feed, form feed, carriage return.
pub open spec fn is_whitespace(c: char) -> bool {
    c == ' ' || c == '\t' || c == '\n' || c == '\x0C' || c == '\r'
}

/// The characters of `s` that may appear in a payload, in their order.
pub open spec fn payload_of(s: Seq<char>) -> Seq<char> {
    s.filter(|c: char| is_payload_char(c))
}

/// The letters and digits of `s`, in their order.
pub open spec fn alphanumerics_of(s: Seq<char>) -> Seq<char> {
    s.filter(|c: char| is_alphanumeric(c))
}

/// `s` without its leading whitespace.
pub open spec fn trim_start(s: Seq<char>) -> Seq<char>
    decreases s.len(),
{
    if s.len() > 0 && is_whitespace(s[0]) {
        trim_start(s.drop_first())
    } else {
        s
    }
}

/// `s` without its trailing whitespace.
pub open spec fn trim_end(s: Seq<char>) -> Seq<char>
    decreases s.len(),
{
    if s.len() > 0 && is_whitespace(s.last()) {
        trim_end(s.drop_last())
    } else {
        s
    }
}

/// `s` without its surrounding whitespace.
pub open spec fn trim(s: Seq<char>) -> Seq<char> {
    trim_end(trim_start(s))
}

/// The pieces of `s` between occurrences of `sep`; always at least one piece.
pub open spec fn split_on(s: Seq<char>, sep: char) -> Seq<Seq<char>>
    decreases s.len(),
{
    if s.len() == 0 {
        seq![Seq::<char>::empty()]
    } else {
        let before = split_on(s.drop_last(), sep);
        if s.last() == sep {
            before.push(Seq::<char>::empty())
        } else {
            before.drop_last().push(before.last().push(s.last()))
        }
    }
}

/// The pieces put back together with `sep` between neighbours.
pub open spec fn join(pieces: Seq<Seq<char>>, sep: char) -> Seq<char>
    decreases pieces.len(),
{
    if pieces.len() == 0 {
        Seq::<char>::empty()
    } else if pieces.len() == 1 {
        pieces[0]
    } else {
        join(pieces.drop_last(), sep).push(sep) + pieces.last()
    }
}

/// The position of the first `c` in `s`, or `s.len()` when there is none.
pub open spec fn first_position(s: Seq<char>, c: char) -> int
    decreases s.len(),
{
    if s.len() == 0 || s[0] == c {
        0
    } else {
        1 + first_position(s.drop_first(), c)
    }
}

/// The number that a digit stands for.
pub open spec fn digit_value(c: char) -> nat {
    (c as int - '0' as int) as nat
}

/// The number that a sequence of digits stands for in base ten.
pub open spec fn digits_value(s: Seq<char>) -> nat
    decreases s.len(),
{
    if s.len() == 0 {
        0
    } else {
        digits_value(s.drop_last()) * 10 + digit_value(s.last())
    }
}

/// One or more decimal digits and nothing else.
pub open spec fn is_number(s: Seq<char>) -> bool {
    s.len() > 0 && forall|i: int| 0 <= i < s.len() ==> is_digit(#[trigger] s[i])
}

/// `s` without one leading `+`, if it has one.
pub open spec fn unsigned_part(s: Seq<char>) -> Seq<char> {
    if s.len() > 0 && s[0] == '+' {
        s.drop_first()
    } else {
        s
    }
}

/// The non-negative integer written in `s`: an optional `+`, then decimal
/// digits whose value fits a `usize`. `None` for anything else.
pub open spec fn parse_decimal(s: Seq<char>) -> Option<nat> {
    let body = unsigned_part(s);
    if is_number(body) && digits_value(body) <= usize::MAX {
        Some(digits_value(body))
    } else {
        None
    }
}

/// Filtering a sequence extended by one character.
pub proof fn lemma_payload_of_push(s: Seq<char>, c: char)
    ensures
        payload_of(s.push(c)) == if is_payload_char(c) {
            payload_of(s).push(c)
        } else {
            payload_of(s)
        },
{
    reveal(Seq::filter);
    assert(s.push(c).drop_last() =~= s);
}

/// Filtering a sequence extended by one character.
pub proof fn lemma_alphanumerics_of_push(s: Seq<char>, c: char)
    ensures
        alphanumerics_of(s.push(c)) == if is_alphanumeric(c) {
            alphanumerics_of(s).push(c)
        } else {
            alphanumerics_of(s)
        },
{
    reveal(Seq::filter);
    assert(s.push(c).drop_last() =~= s);
}

/// A payload holds payload characters only, none of them new, and is no
/// longer than its source.
pub proof fn lemma_payload_of_clean(s: Seq<char>)
    ensures
        payload_of(s).len() <= s.len(),
        forall|i: int|
            0 <= i < payload_of(s).len() ==> is_payload_char(#[trigger] payload_of(s)[i]),
        forall|i: int| 0 <= i < payload_of(s).len() ==> s.contains(#[trigger] payload_of(s)[i]),
    decreases s.len(),
{
    reveal(Seq::filter);
    if s.len() > 0 {
        let head = s.drop_last();
        lemma_payload_of_clean(head);
        assert forall|i: int| 0 <= i < payload_of(s).len() implies s.contains(
            #[trigger] payload_of(s)[i],
        ) by {
            if i < payload_of(head).len() {
                let c = payload_of(head)[i];
                assert(head.contains(c));
                let j = choose|j: int| 0 <= j < head.len() && head[j] == c;
                assert(s[j] == c);
            } else {
                assert(payload_of(s)[i] == s[s.len() - 1]);
            }
        }
    }
}

/// A sequence of payload characters is its own payload.
pub proof fn lemma_payload_of_fixed(s: Seq<char>)
    requires
        forall|i: int| 0 <= i < s.len() ==> is_payload_char(#[trigger] s[i]),
    ensures
        payload_of(s) == s,
    decreases s.len(),
{
    reveal(Seq::filter);
    if s.len() > 0 {
        lemma_payload_of_fixed(s.drop_last());
        assert(s.drop_last().push(s.last()) =~= s);
    }
}

/// A sequence of letters and digits is its own reduction to letters and
/// digits.
pub proof fn lemma_alphanumerics_of_fixed(s: Seq<char>)
    requires
        forall|i: int| 0 <= i < s.len() ==> is_alphanumeric(#[trigger] s[i]),
    ensures
        alphanumerics_of(s) == s,
    decreases s.len(),
{
    reveal(Seq::filter);
    if s.len() > 0 {
        lemma_alphanumerics_of_fixed(s.drop_last());
        assert(s.drop_last().push(s.last()) =~= s);
    }
}

/// Normalising what is normalised changes nothing.
pub proof fn lemma_payload_of_idempotent(s: Seq<char>)
    ensures
        payload_of(payload_of(s)) == payload_of(s),
{
    lemma_payload_of_clean(s);
    lemma_payload_of_fixed(payload_of(s));
}

/// Where leading whitespace ends, `trim_start` begins.
pub proof fn lemma_trim_start_at(s: Seq<char>, a: int)
    requires
        0 <= a <= s.len(),
        forall|i: int| 0 <= i < a ==> is_whitespace(#[trigger] s[i]),
        a < s.len() ==> !is_whitespace(s[a]),
    ensures
        trim_start(s) == s.skip(a),
    decreases a,
{
    if a == 0 {
        assert(s.skip(0) =~= s);
    } else {
        let rest = s.drop_first();
        assert forall|i: int| 0 <= i < a - 1 implies is_whitespace(#[trigger] rest[i]) by {
            assert(rest[i] == s[i + 1]);
        }
        lemma_trim_start_at(rest, a - 1);
        assert(rest.skip(a - 1) =~= s.skip(a));
    }
}

/// Where trailing whitespace begins, `trim_end` ends.
pub proof fn lemma_trim_end_at(s: Seq<char>, b: int)
    requires
        0 <= b <= s.len(),
        forall|i: int| b <= i < s.len() ==> is_whitespace(#[trigger] s[i]),
        b > 0 ==> !is_whitespace(s[b - 1]),
    ensures
        trim_end(s) == s.take(b),
    decreases s.len() - b,
{
    if b == s.len() {
        assert(s.take(b) =~= s);
    } else {
        let rest = s.drop_last();
        lemma_trim_end_at(rest, b);
        assert(rest.take(b) =~= s.take(b));
    }
}

/// Trimming leaves a contiguous part of the sequence that neither starts nor
/// ends with whitespace, and removes whitespace only.
pub proof fn lemma_trim_bounds(s: Seq<char>) -> (r: (int, int))
    ensures
        0 <= r.0 <= r.1 <= s.len(),
        trim(s) == s.subrange(r.0, r.1),
        forall|i: int| 0 <= i < r.0 ==> is_whitespace(#[trigger] s[i]),
        forall|i: int| r.1 <= i < s.len() ==> is_whitespace(#[trigger] s[i]),
        r.0 < r.1 ==> !is_whitespace(s[r.0]) && !is_whitespace(s[r.1 - 1]),
{
    let a = leading_whitespace(s);
    lemma_leading_whitespace(s);
    lemma_trim_start_at(s, a);
    let t = s.skip(a);
    let k = trailing_whitespace(t);
    lemma_trailing_whitespace(t);
    let b = t.len() - k;
    lemma_trim_end_at(t, b);
    assert(t.take(b) =~= s.subrange(a, a + b));
    assert forall|i: int| a + b <= i < s.len() implies is_whitespace(#[trigger] s[i]) by {
        assert(t[i - a] == s[i]);
    }
    if b > 0 {
        assert(t[b - 1] == s[a + b - 1]);
        assert(t[0] == s[a]);
    }
    (a, a + b)
}

/// The number of whitespace characters that `s` starts with.
pub open spec fn leading_whitespace(s: Seq<char>) -> int
    decreases s.len(),
{
    if s.len() > 0 && is_whitespace(s[0]) {
        1 + leading_whitespace(s.drop_first())
    } else {
        0
    }
}

/// The number of whitespace characters that `s` ends with.
pub open spec fn trailing_whitespace(s: Seq<char>) -> int
    decreases s.len(),
{
    if s.len() > 0 && is_whitespace(s.last()) {
        1 + trailing_whitespace(s.drop_last())
    } else {
        0
    }
}

/// `leading_whitespace` counts exactly the whitespace before the first other
/// character.
pub proof fn lemma_leading_whitespace(s: Seq<char>)
    ensures
        0 <= leading_whitespace(s) <= s.len(),
        forall|i: int| 0 <= i < leading_whitespace(s) ==> is_whitespace(#[trigger] s[i]),
        leading_whitespace(s) < s.len() ==> !is_whitespace(s[leading_whitespace(s)]),
    decreases s.len(),
{
    if s.len() > 0 && is_whitespace(s[0]) {
        let rest = s.drop_first();
        lemma_leading_whitespace(rest);
        assert forall|i: int| 0 <= i < leading_whitespace(s) implies is_whitespace(
            #[trigger] s[i],
        ) by {
            if i > 0 {
                assert(s[i] == rest[i - 1]);
            }
        }
        if leading_whitespace(s) < s.len() {
            assert(s[leading_whitespace(s)] == rest[leading_whitespace(rest)]);
        }
    }
}

/// `trailing_whitespace` counts exactly the whitespace after the last other
/// character.
pub proof fn lemma_trailing_whitespace(s: Seq<char>)
    ensures
        0 <= trailing_whitespace(s) <= s.len(),
        forall|i: int|
            s.len() - trailing_whitespace(s) <= i < s.len() ==> is_whitespace(#[trigger] s[i]),
        trailing_whitespace(s) < s.len() ==> !is_whitespace(
            s[s.len() - trailing_whitespace(s) - 1],
        ),
    decreases s.len(),
{
    if s.len() > 0 && is_whitespace(s.last()) {
        let rest = s.drop_last();
        lemma_trailing_whitespace(rest);
        assert forall|i: int|
            s.len() - trailing_whitespace(s) <= i < s.len() implies is_whitespace(
            #[trigger] s[i],
        ) by {
            if i < s.len() - 1 {
                assert(s[i] == rest[i]);
            }
        }
        if trailing_whitespace(s) < s.len() {
            assert(s[s.len() - trailing_whitespace(s) - 1] == rest[rest.len() - trailing_whitespace(
                rest,
            ) - 1]);
        }
    }
}

/// Splitting never yields an empty list of pieces.
pub proof fn lemma_split_on_nonempty(s: Seq<char>, sep: char)
    ensures
        split_on(s, sep).len() >= 1,
    decreases s.len(),
{
    if s.len() > 0 {
        lemma_split_on_nonempty(s.drop_last(), sep);
    }
}

/// Splitting loses nothing and leaves no separator behind: the pieces joined
/// by the separator are the sequence that was split, and no piece holds a
/// separator.
pub proof fn lemma_split_on_join(s: Seq<char>, sep: char)
    ensures
        join(split_on(s, sep), sep) == s,
        forall|i: int, j: int|
            0 <= i < split_on(s, sep).len() && 0 <= j < split_on(s, sep)[i].len()
                ==> #[trigger] split_on(s, sep)[i][j] != sep,
    decreases s.len(),
{
    let pieces = split_on(s, sep);
    lemma_split_on_nonempty(s, sep);
    if s.len() > 0 {
        let head = s.drop_last();
        let before = split_on(head, sep);
        lemma_split_on_nonempty(head, sep);
        lemma_split_on_join(head, sep);
        if s.last() == sep {
            assert(pieces.drop_last() =~= before);
            assert(join(pieces, sep) =~= join(before, sep).push(sep) + Seq::<char>::empty());
            assert(join(before, sep).push(sep) + Seq::<char>::empty() =~= s);
        } else {
            let last = before.last().push(s.last());
            assert(pieces.last() == last);
            assert(pieces.drop_last() =~= before.drop_last());
            if before.len() == 1 {
                assert(join(before, sep) == before[0]);
                assert(join(pieces, sep) == last);
                assert(last =~= s);
            } else {
                assert(join(before, sep) == join(before.drop_last(), sep).push(sep)
                    + before.last());
                assert(join(pieces, sep) == join(before.drop_last(), sep).push(sep) + last);
                assert(join(before.drop_last(), sep).push(sep) + last =~= (join(
                    before.drop_last(),
                    sep,
                ).push(sep) + before.last()).push(s.last()));
                assert(head.push(s.last()) =~= s);
            }
            assert forall|i: int, j: int|
                0 <= i < pieces.len() && 0 <= j < pieces[i].len() implies #[trigger] pieces[i][j]
                != sep by {
                if i < pieces.len() - 1 {
                    assert(pieces[i] == before[i]);
                } else if j < before.last().len() {
                    assert(pieces[i][j] == before[i][j]);
                }
            }
        }
    } else {
        assert(pieces =~= seq![Seq::<char>::empty()]);
    }
}

/// A sequence without the separator is a single piece.
pub proof fn lemma_split_on_single(s: Seq<char>, sep: char)
    requires
        !s.contains(sep),
    ensures
        split_on(s, sep) == seq![s],
    decreases s.len(),
{
    if s.len() == 0 {
        assert(s =~= Seq::<char>::empty());
    } else {
        let head = s.drop_last();
        assert(!head.contains(sep)) by {
            if head.contains(sep) {
                let j = choose|j: int| 0 <= j < head.len() && head[j] == sep;
                assert(s[j] == sep);
            }
        }
        lemma_split_on_single(head, sep);
        assert(s[s.len() - 1] != sep);
        assert(seq![head].drop_last().push(seq![head].last().push(s.last())) =~= seq![
            head.push(s.last()),
        ]);
        assert(head.push(s.last()) =~= s);
    }
}

/// Splitting two sequences joined by a separator gives the pieces of the
/// first followed by the pieces of the second.
pub proof fn lemma_split_on_concat(a: Seq<char>, b: Seq<char>, sep: char)
    ensures
        split_on(a.push(sep) + b, sep) == split_on(a, sep) + split_on(b, sep),
    decreases b.len(),
{
    let whole = a.push(sep) + b;
    if b.len() == 0 {
        assert(whole =~= a.push(sep));
        assert(whole.drop_last() =~= a);
        assert(split_on(a, sep).push(Seq::<char>::empty()) =~= split_on(a, sep) + split_on(
            b,
            sep,
        ));
    } else {
        let rest = b.drop_last();
        lemma_split_on_concat(a, rest, sep);
        lemma_split_on_nonempty(rest, sep);
        assert(whole.drop_last() =~= a.push(sep) + rest);
        assert(whole.last() == b.last());
        let left = split_on(a, sep);
        let right = split_on(rest, sep);
        if b.last() == sep {
            assert((left + right).push(Seq::<char>::empty()) =~= left + right.push(
                Seq::<char>::empty(),
            ));
        } else {
            assert((left + right).last() == right.last());
            assert((left + right).drop_last() =~= left + right.drop_last());
            assert((left + right.drop_last()).push(right.last().push(b.last())) =~= left
                + right.drop_last().push(right.last().push(b.last())));
        }
    }
}

/// `first_position` finds the first occurrence, or the length when there is
/// none.
pub proof fn lemma_first_position(s: Seq<char>, c: char)
    ensures
        0 <= first_position(s, c) <= s.len(),
        forall|i: int| 0 <= i < first_position(s, c) ==> #[trigger] s[i] != c,
        first_position(s, c) < s.len() ==> s[first_position(s, c)] == c,
        first_position(s, c) < s.len() <==> s.contains(c),
    decreases s.len(),
{
    if s.len() == 0 || s[0] == c {
        if s.len() > 0 {
            assert(s.contains(c));
        }
    } else {
        let rest = s.drop_first();
        lemma_first_position(rest, c);
        assert forall|i: int| 0 <= i < first_position(s, c) implies #[trigger] s[i] != c by {
            if i > 0 {
                assert(s[i] == rest[i - 1]);
            }
        }
        if first_position(s, c) < s.len() {
            assert(s[first_position(s, c)] == rest[first_position(rest, c)]);
            assert(s.contains(c));
        }
        if s.contains(c) {
            let j = choose|j: int| 0 <= j < s.len() && s[j] == c;
            assert(rest[j - 1] == c);
            assert(rest.contains(c));
        }
    }
}

/// A position with `c` and none before it is the first position.
pub proof fn lemma_first_position_at(s: Seq<char>, c: char, k: int)
    requires
        0 <= k <= s.len(),
        forall|i: int| 0 <= i < k ==> #[trigger] s[i] != c,
        k < s.len() ==> s[k] == c,
    ensures
        first_position(s, c) == k,
{
    lemma_first_position(s, c);
    let p = first_position(s, c);
    if p < k {
        assert(s[p] != c);
    } else if k < p {
        assert(s[k] != c);
    }
}

/// Appending digits never lowers the value.
pub proof fn lemma_digits_value_prefix(s: Seq<char>, k: int)
    requires
        0 <= k <= s.len(),
    ensures
        digits_value(s.take(k)) <= digits_value(s),
    decreases s.len() - k,
{
    if k == s.len() {
        assert(s.take(k) =~= s);
    } else {
        lemma_digits_value_prefix(s.drop_last(), k);
        assert(s.drop_last().take(k) =~= s.take(k));
    }
}

fn digit_char(c: char) -> (r: bool)
    ensures
        r == is_digit(c),
{
    c >= '0' && c <= '9'
}

fn alphanumeric_char(c: char) -> (r: bool)
    ensures
        r == is_alphanumeric(c),
{
    digit_char(c) || (c >= 'a' && c <= 'z') || (c >= 'A' && c <= 'Z')
}

fn payload_char(c: char) -> (r: bool)
    ensures
        r == is_payload_char(c),
{
    alphanumeric_char(c) || c == ' '
}

fn whitespace_char(c: char) -> (r: bool)
    ensures
        r == is_whitespace(c),
{
    c == ' ' || c == '\t' || c == '\n' || c == '\x0C' || c == '\r'
}

/// The characters of a string slice, one by one.
pub fn chars_of(s: &str) -> (v: Vec<char>)
    ensures
        v@ == s@,
{
    let mut v: Vec<char> = Vec::new();
    for c in it: s.chars()
        invariant
            v@ == it.seq().take(it.index()),
            it.seq() == s@,
    {
        v.push(c);
    }
    v
}

/// A string made of the given characters.
pub fn string_of(v: &[char]) -> (s: String)
    ensures
        s@ == v@,
{
    let mut s = String::new();
    let mut i: usize = 0;
    while i < v.len()
        invariant
            i <= v.len(),
            s@ == v@.take(i as int),
        decreases v.len() - i,
    {
        s.push(v[i]);
        assert(v@.take(i as int + 1) =~= v@.take(i as int).push(v@[i as int]));
        i = i + 1;
    }
    assert(v@.take(v.len() as int) =~= v@);
    s
}

/// Keeps the letters, digits and spaces of `v`.
pub fn retain_payload(v: &[char]) -> (s: String)
    ensures
        s@ == payload_of(v@),
{
    let mut s = String::new();
    let mut i: usize = 0;
    proof {
        reveal(Seq::filter);
    }
    while i < v.len()
        invariant
            i <= v.len(),
            s@ == payload_of(v@.take(i as int)),
        decreases v.len() - i,
    {
        let c = v[i];
        proof {
            assert(v@.take(i as int + 1) =~= v@.take(i as int).push(c));
            lemma_payload_of_push(v@.take(i as int), c);
        }
        if payload_char(c) {
            s.push(c);
        }
        i = i + 1;
    }
    assert(v@.take(v.len() as int) =~= v@);
    s
}

/// Keeps the letters and digits of `v`.
pub fn retain_alphanumerics(v: &[char]) -> (r: Vec<char>)
    ensures
        r@ == alphanumerics_of(v@),
{
    let mut r: Vec<char> = Vec::new();
    let mut i: usize = 0;
    proof {
        reveal(Seq::filter);
    }
    while i < v.len()
        invariant
            i <= v.len(),
            r@ == alphanumerics_of(v@.take(i as int)),
        decreases v.len() - i,
    {
        let c = v[i];
        proof {
            assert(v@.take(i as int + 1) =~= v@.take(i as int).push(c));
            lemma_alphanumerics_of_push(v@.take(i as int), c);
        }
        if alphanumeric_char(c) {
            r.push(c);
        }
        i = i + 1;
    }
    assert(v@.take(v.len() as int) =~= v@);
    r
}

/// The character sequences that a list of pieces holds.
pub open spec fn pieces_view(pieces: Seq<Vec<char>>) -> Seq<Seq<char>> {
    Seq::new(pieces.len(), |i: int| pieces[i]@)
}

/// Splits `v` at every `sep`.
pub fn split(v: &[char], sep: char) -> (pieces: Vec<Vec<char>>)
    ensures
        pieces_view(pieces@) == split_on(v@, sep),
{
    let mut pieces: Vec<Vec<char>> = Vec::new();
    let mut current: Vec<char> = Vec::new();
    let mut i: usize = 0;
    assert(pieces_view(pieces@).push(current@) =~= split_on(v@.take(0), sep));
    while i < v.len()
        invariant
            i <= v.len(),
            pieces_view(pieces@).push(current@) == split_on(v@.take(i as int), sep),
        decreases v.len() - i,
    {
        let c = v[i];
        let ghost done = pieces_view(pieces@);
        let ghost open = current@;
        proof {
            assert(v@.take(i as int + 1).drop_last() =~= v@.take(i as int));
            assert(v@.take(i as int + 1).last() == c);
            assert(done.push(open).drop_last() =~= done);
        }
        if c == sep {
            pieces.push(current);
            current = Vec::new();
            assert(pieces_view(pieces@) =~= done.push(open));
        } else {
            current.push(c);
        }
        assert(pieces_view(pieces@).push(current@) =~= split_on(v@.take(i as int + 1), sep));
        i = i + 1;
    }
    assert(v@.take(v.len() as int) =~= v@);
    let ghost done = pieces_view(pieces@);
    pieces.push(current);
    assert(pieces_view(pieces@) =~= done.push(current@));
    pieces
}

/// Whether `v` begins with the characters of `word`.
pub fn starts_with(v: &[char], word: &[char]) -> (r: bool)
    ensures
        r == word@.is_prefix_of(v@),
{
    if word.len() > v.len() {
        return false;
    }
    let mut i: usize = 0;
    while i < word.len()
        invariant
            i <= word.len() <= v.len(),
            forall|j: int| 0 <= j < i ==> word@[j] == v@[j],
        decreases word.len() - i,
    {
        if word[i] != v[i] {
            assert(v@.subrange(0, word.len() as int)[i as int] == v@[i as int]);
            return false;
        }
        i = i + 1;
    }
    assert(word@ =~= v@.subrange(0, word.len() as int));
    true
}

/// Whether `a` and `b` hold the same characters.
pub fn same_chars(a: &[char], b: &[char]) -> (r: bool)
    ensures
        r == (a@ == b@),
{
    if a.len() != b.len() {
        return false;
    }
    let mut i: usize = 0;
    while i < a.len()
        invariant
            i <= a.len(),
            a.len() == b.len(),
            forall|j: int| 0 <= j < i ==> a@[j] == b@[j],
        decreases a.len() - i,
    {
        if a[i] != b[i] {
            return false;
        }
        i = i + 1;
    }
    assert(a@ =~= b@);
    true
}

/// Whether `c` occurs in `v`.
pub fn contains_char(v: &[char], c: char) -> (r: bool)
    ensures
        r == v@.contains(c),
{
    let k = position_of(v, c);
    proof {
        lemma_first_position(v@, c);
    }
    k < v.len()
}

/// The index of the first `c` in `v`, or the length of `v`.
pub fn position_of(v: &[char], c: char) -> (k: usize)
    ensures
        k == first_position(v@, c),
{
    let mut i: usize = 0;
    while i < v.len() && v[i] != c
        invariant
            i <= v.len(),
            forall|j: int| 0 <= j < i ==> #[trigger] v@[j] != c,
        decreases v.len() - i,
    {
        i = i + 1;
    }
    proof {
        lemma_first_position_at(v@, c, i as int);
    }
    i
}

/// The bounds of `v` without its surrounding whitespace.
pub fn trim_bounds(v: &[char]) -> (r: (usize, usize))
    ensures
        r.0 <= r.1 <= v.len(),
        v@.skip(r.0 as int) == trim_start(v@),
        v@.subrange(r.0 as int, r.1 as int) == trim(v@),
{
    let mut a: usize = 0;
    while a < v.len() && whitespace_char(v[a])
        invariant
            a <= v.len(),
            forall|j: int| 0 <= j < a ==> is_whitespace(#[trigger] v@[j]),
        decreases v.len() - a,
    {
        a = a + 1;
    }
    let mut b: usize = v.len();
    while b > a && whitespace_char(v[b - 1])
        invariant
            a <= b <= v.len(),
            forall|j: int| b <= j < v.len() ==> is_whitespace(#[trigger] v@[j]),
        decreases b,
    {
        b = b - 1;
    }
    proof {
        lemma_trim_start_at(v@, a as int);
        let t = v@.skip(a as int);
        assert forall|j: int| b - a <= j < t.len() implies is_whitespace(#[trigger] t[j]) by {
            assert(t[j] == v@[j + a]);
        }
        if b > a {
            assert(t[b - a - 1] == v@[b - 1]);
        }
        lemma_trim_end_at(t, b - a);
        assert(t.take(b - a) =~= v@.subrange(a as int, b as int));
    }
    (a, b)
}

/// Reads a non-negative decimal integer: an optional `+`, then digits.
pub fn parse_number(v: &[char]) -> (r: Option<usize>)
    ensures
        match r {
            Some(n) => parse_decimal(v@) == Some(n as nat),
            None => parse_decimal(v@) is None,
        },
{
    let start: usize = if v.len() > 0 && v[0] == '+' {
        1
    } else {
        0
    };
    let ghost body = unsigned_part(v@);
    assert(body =~= v@.skip(start as int));
    if start == v.len() {
        return None;
    }
    let mut acc: usize = 0;
    let mut i: usize = start;
    assert(body.take(0) =~= Seq::<char>::empty());
    while i < v.len()
        invariant
            start <= i <= v.len(),
            start < v.len(),
            body == v@.skip(start as int),
            body == unsigned_part(v@),
            forall|j: int| 0 <= j < i - start ==> is_digit(#[trigger] body[j]),
            acc == digits_value(body.take(i - start)),
        decreases v.len() - i,
    {
        let c = v[i];
        let ghost k = i - start;
        assert(body[k] == c);
        if !digit_char(c) {
            return None;
        }
        let d: usize = (c as u32 - '0' as u32) as usize;
        proof {
            assert(body.take(k + 1).drop_last() =~= body.take(k));
            assert(body.take(k + 1).last() == c);
            assert(digits_value(body.take(k + 1)) == acc * 10 + d);
            lemma_digits_value_prefix(body, k + 1);
        }
        let scaled = match acc.checked_mul(10) {
            Some(x) => x,
            None => {
                return None;
            },
        };
        acc = match scaled.checked_add(d) {
            Some(x) => x,
            None => {
                return None;
            },
        };
        i = i + 1;
    }
    assert(body.take(v.len() - start) =~= body);
    Some(acc)
}

} // verus!
