//! What a command reports: the number on the first line of its output.

use crate::arithmetic;
use crate::decimal;
use crate::float;
use crate::float::Float64;
use crate::number;
use crate::text;
use vstd::arithmetic::power2::*;
use vstd::prelude::*;
use vstd::utf8;

verus! {

broadcast use vstd::string::group_string_axioms;

/// The byte that ends a line.
pub const LINE_FEED: u8 = 10;

/// What one run of a command gives.
#[derive(Debug, Clone, Copy, PartialEq, Eq, Structural)]
pub enum Update {
    /// The number that the command printed.
    Value(Float64),
    /// Nothing that is a number.
    Missing,
}

/// The text that `String::from_utf8_lossy` makes of the bytes.
pub uninterp spec fn lossy_text(bytes: Seq<u8>) -> Seq<char>;

/// `String::from_utf8_lossy` of the standard library. What it gives depends on the bytes alone,
/// and bytes that are a text in UTF-8 give that text. A line feed is a character of its own
/// wherever it stands, so what comes before it and what comes behind it are decoded each by
/// itself. What stands in place of bytes that are not UTF-8 is left unsaid.
#[verifier::external_body]
fn decode_lossy(bytes: &Vec<u8>) -> (s: String)
    ensures
        s@ == lossy_text(bytes@),
        utf8::valid_utf8(bytes@) ==> s@ == utf8::decode_utf8(bytes@),
        forall|line: Seq<u8>, rest: Seq<u8>|
            #![trigger lossy_text(line), lossy_text(rest)]
            bytes@ == line.push(LINE_FEED) + rest ==> s@ == lossy_text(line).push('\n')
                + lossy_text(rest),
        forall|line: Seq<u8>, rest: Seq<u8>|
            #![trigger utf8::decode_utf8(line), lossy_text(rest)]
            bytes@ == line.push(LINE_FEED) + rest && utf8::valid_utf8(line) ==> s@
                == utf8::decode_utf8(line).push('\n') + lossy_text(rest),
{
    String::from_utf8_lossy(bytes).into_owned()
}

/// The bytes before the first line feed.
pub open spec fn first_line_bytes(bytes: Seq<u8>) -> Seq<u8>
    decreases bytes.len(),
{
    if bytes.len() == 0 || bytes[0] == LINE_FEED {
        Seq::empty()
    } else {
        seq![bytes[0]] + first_line_bytes(bytes.drop_first())
    }
}

/// The first line of a text.
pub open spec fn first_line(s: Seq<char>) -> Seq<char> {
    s.take(text::first_index(s, '\n'))
}

/// The number that a text reports: its first line, without white space around it, read as one.
pub open spec fn reported(s: Seq<char>) -> Update {
    match number::read_float64(text::trimmed(first_line(s))) {
        Some(x) => Update::Value(x),
        None => Update::Missing,
    }
}

/// The number that a text reports.
pub fn read_report(stdout: &str) -> (update: Update)
    ensures
        update == reported(stdout@),
        number::read_float64(text::trimmed(first_line(stdout@))) matches Some(x) ==> update
            == Update::Value(x),
        number::read_float64(text::trimmed(first_line(stdout@))) is None ==> update
            == Update::Missing,
{
    let line = match text::split_once_text(stdout, '\n') {
        Some((before, _)) => text::trim(before.as_str()),
        None => text::trim(stdout),
    };
    assert(stdout@.take(stdout@.len() as int) =~= stdout@);
    match number::parse_float64(line.as_str()) {
        Some(value) => Update::Value(value),
        None => Update::Missing,
    }
}

/// What a run of a command gives that ended, with success or without, and printed some bytes. Only
/// those before the first line feed count.
pub fn read_output(success: bool, stdout: &Vec<u8>) -> (update: Update)
    ensures
        !success ==> update == Update::Missing,
        success ==> update == reported(lossy_text(stdout@)),
        success ==> update == reported(lossy_text(first_line_bytes(stdout@))),
        success && utf8::valid_utf8(stdout@) ==> update == reported(utf8::decode_utf8(stdout@)),
        success && utf8::valid_utf8(first_line_bytes(stdout@)) ==> update == reported(
            utf8::decode_utf8(first_line_bytes(stdout@)),
        ),
{
    if !success {
        return Update::Missing;
    }
    let printed = decode_lossy(stdout);
    proof {
        let line = first_line_bytes(stdout@);
        lemma_first_line_bytes(stdout@);
        if line != stdout@ {
            let rest = stdout@.skip(line.len() as int + 1);
            assert(stdout@ == line.push(LINE_FEED) + rest);
            assert(printed@ == lossy_text(line).push('\n') + lossy_text(rest));
            lemma_first_line_counts(lossy_text(line), lossy_text(rest));
            lemma_first_line_counts(utf8::decode_utf8(line), lossy_text(rest));
        }
    }
    read_report(printed.as_str())
}

/// The bytes are those of the first line alone, or those of the first line, a line feed, and the
/// rest.
pub proof fn lemma_first_line_bytes(bytes: Seq<u8>)
    ensures
        ({
            let line = first_line_bytes(bytes);
            &&& !line.contains(LINE_FEED)
            &&& line.len() <= bytes.len()
            &&& bytes == line || (line.len() < bytes.len() && bytes == line.push(LINE_FEED)
                + bytes.skip(line.len() as int + 1))
        }),
    decreases bytes.len(),
{
    let line = first_line_bytes(bytes);
    if bytes.len() == 0 {
        assert(bytes =~= line);
    } else if bytes[0] == LINE_FEED {
        assert(bytes =~= line.push(LINE_FEED) + bytes.skip(1));
    } else {
        let tail = bytes.drop_first();
        let most = first_line_bytes(tail);
        lemma_first_line_bytes(tail);
        assert forall|i: int| 0 <= i < line.len() implies line[i] != LINE_FEED by {
            if i > 0 {
                assert(line[i] == most[i - 1]);
                assert(most.contains(most[i - 1]));
            }
        }
        if tail == most {
            assert(bytes =~= line);
        } else {
            assert(tail.skip(most.len() as int + 1) =~= bytes.skip(line.len() as int + 1));
            assert(bytes =~= seq![bytes[0]] + tail);
            assert(bytes =~= line.push(LINE_FEED) + bytes.skip(line.len() as int + 1));
        }
    }
}

/// Only the first line counts.
pub proof fn lemma_first_line_counts(s: Seq<char>, rest: Seq<char>)
    ensures
        reported(s.push('\n') + rest) == reported(s),
{
    lemma_first_line_pushed(s, rest);
    assert(first_line(s.push('\n') + rest) =~= first_line(s));
}

proof fn lemma_first_line_pushed(s: Seq<char>, rest: Seq<char>)
    ensures
        0 <= text::first_index(s, '\n') <= s.len(),
        text::first_index(s.push('\n') + rest, '\n') == text::first_index(s, '\n'),
    decreases s.len(),
{
    let all = s.push('\n') + rest;
    if s.len() > 0 && s[0] != '\n' {
        lemma_first_line_pushed(s.drop_first(), rest);
        assert(all.drop_first() =~= s.drop_first().push('\n') + rest);
    }
}

proof fn lemma_line_end(line: Seq<char>, rest: Seq<char>)
    requires
        !line.contains('\n'),
    ensures
        text::first_index(line, '\n') == line.len(),
        text::first_index(line.push('\n') + rest, '\n') == line.len(),
    decreases line.len(),
{
    let all = line.push('\n') + rest;
    if line.len() > 0 {
        assert(line.contains(line[0]));
        assert(all[0] == line[0]);
        let tail = line.drop_first();
        assert(!tail.contains('\n')) by {
            assert forall|i: int| 0 <= i < tail.len() implies tail[i] != '\n' by {
                assert(line.contains(line[i + 1]));
            }
        }
        lemma_line_end(tail, rest);
        assert(all.drop_first() =~= tail.push('\n') + rest);
    }
}

/// White space around the number does not count.
pub proof fn lemma_space_around_ignored(line: Seq<char>)
    requires
        !line.contains('\n'),
    ensures
        reported(text::trimmed(line)) == reported(line),
{
    lemma_line_end(line, Seq::empty());
    assert(first_line(line) =~= line);
    text::lemma_trimmed_twice(line);
    text::lemma_trimmed_part(line);
    assert(!text::trimmed(line).contains('\n')) by {
        assert forall|i: int| 0 <= i < text::trimmed(line).len() implies text::trimmed(line)[i]
            != '\n' by {
            assert(line.contains(text::trimmed(line)[i]));
        }
    }
    lemma_line_end(text::trimmed(line), Seq::empty());
    assert(first_line(text::trimmed(line)) =~= text::trimmed(line));
}

/// A first line with nothing on it reports nothing.
pub proof fn lemma_blank_line_missing(s: Seq<char>)
    requires
        text::trimmed(first_line(s)).len() == 0,
    ensures
        reported(s) == Update::Missing,
{
    reveal_strlit("inf");
    reveal_strlit("infinity");
    reveal_strlit("nan");
    let t = text::trimmed(first_line(s));
    assert(number::without_sign(t) == t);
    assert(text::lowered(t).len() == 0);
}

/// A report is a number exactly where the first line, without white space around it, is read as
/// that number.
pub proof fn lemma_reported(line: Seq<char>, rest: Seq<char>, x: Float64)
    requires
        !line.contains('\n'),
    ensures
        reported(line) == Update::Value(x) <==> number::read_float64(text::trimmed(line)) == Some(x),
        reported(line.push('\n') + rest) == Update::Value(x) <==> number::read_float64(
            text::trimmed(line),
        ) == Some(x),
        reported(line) == Update::Missing <==> number::read_float64(text::trimmed(line)) is None,
        reported(line.push('\n') + rest) == Update::Missing <==> number::read_float64(
            text::trimmed(line),
        ) is None,
{
    lemma_line_end(line, rest);
    assert(first_line(line) =~= line);
    assert(first_line(line.push('\n') + rest) =~= line);
}

/// A number between white space is reported, whatever lines are behind it.
pub proof fn lemma_number_reported(
    before: Seq<char>,
    s: Seq<char>,
    after: Seq<char>,
    rest: Seq<char>,
    x: Float64,
)
    requires
        forall|i: int|
            0 <= i < before.len() ==> text::white_space(#[trigger] before[i]) && before[i] != '\n',
        forall|i: int|
            0 <= i < after.len() ==> text::white_space(#[trigger] after[i]) && after[i] != '\n',
        s.len() > 0,
        forall|i: int| 0 <= i < s.len() ==> !text::white_space(#[trigger] s[i]),
        number::read_float64(s) == Some(x),
    ensures
        reported(before + s + after) == Update::Value(x),
        reported((before + s + after).push('\n') + rest) == Update::Value(x),
{
    let line = before + s + after;
    assert(!line.contains('\n')) by {
        assert forall|i: int| 0 <= i < line.len() implies line[i] != '\n' by {
            let b = before.len() as int;
            let n = s.len() as int;
            if i < b {
                assert(line[i] == before[i]);
            } else if i < b + n {
                assert(line[i] == s[i - b]);
                assert(text::white_space('\n'));
            } else {
                assert(line[i] == after[i - b - n]);
            }
        }
    }
    assert(!text::white_space(s[0]));
    assert(!text::white_space(s[s.len() - 1]));
    text::lemma_trimmed_between(before, s, after);
    lemma_reported(line, rest, x);
}

/// The digits of a whole number, zero as well, are reported as that number, with white space
/// around them or without, whatever lines are behind them, and with a minus as its opposite.
pub proof fn lemma_whole_reported(
    before: Seq<char>,
    n: nat,
    after: Seq<char>,
    rest: Seq<char>,
)
    requires
        forall|i: int|
            0 <= i < before.len() ==> text::white_space(#[trigger] before[i]) && before[i] != '\n',
        forall|i: int|
            0 <= i < after.len() ==> text::white_space(#[trigger] after[i]) && after[i] != '\n',
    ensures
        ({
            let plain = before + decimal::digits(n) + after;
            let minus = before + (seq!['-'] + decimal::digits(n)) + after;
            let x = float::from_whole(n as int);
            &&& reported(plain) == Update::Value(x)
            &&& reported(plain.push('\n') + rest) == Update::Value(x)
            &&& reported(minus) == Update::Value(float::negated(x))
            &&& reported(minus.push('\n') + rest) == Update::Value(float::negated(x))
            &&& n <= pow2(53) ==> x.value() == n * float::one_in_units()
            &&& n <= pow2(53) ==> float::negated(x).value() == -(n * float::one_in_units())
        }),
{
    let d = decimal::digits(n);
    let m = seq!['-'] + d;
    let x = float::from_whole(n as int);
    number::lemma_number_of_digits(n);
    number::lemma_digits_are_read(n);
    assert(number::is_digit(d[0]));
    number::lemma_sign_read(d);
    assert forall|i: int| 0 <= i < d.len() implies !text::white_space(#[trigger] d[i]) by {
        assert(number::is_digit(d[i]));
    }
    assert forall|i: int| 0 <= i < m.len() implies !text::white_space(#[trigger] m[i]) by {
        if i > 0 {
            assert(m[i] == d[i - 1]);
        }
    }
    lemma_number_reported(before, d, after, rest, x);
    lemma_number_reported(before, m, after, rest, float::negated(x));
    if n <= pow2(53) {
        arithmetic::lemma_whole_exact(n as int);
        arithmetic::lemma_negated(x);
    }
}

} // verus!
