//! Spectra as channel counts, and the text format they are read from.

use crate::text::{
    chars_of, decimal, is_blank, is_blank_chars, is_comment, is_white_space,
    joined, lemma_decimal_u32, lemma_first_word_starts, lemma_joined_words, lemma_next_word, lemma_padded_numeral, spaces, lemma_single_word, lemma_words_of_non_blank, parse_u32,
    starts_with_hash, u32_parse, u32_text, word_bounds, words,
};
use std::num::ParseIntError;
use vstd::prelude::*;
use vstd::string::StrSliceExecFns;

verus! {

/// Channel counts of a measured spectrum, one value per channel.
#[derive(PartialEq, Debug)]
pub struct Spectrum {
    pub data: Vec<u32>,
}

/// Why a text could not be read as a spectrum.
#[derive(PartialEq, Eq, Debug)]
pub enum SpectrumError {
    /// A word that should be a count is not a `u32`; the index is that of
    /// the offending line.
    NaN(ParseIntError, usize),
    /// A line holds more than two words.
    ValueOverflow,
}

/// What is wrong with a single data line.
pub enum LineFault {
    /// One of the words read is not a `u32`.
    BadNumber,
    /// The line holds more than two words.
    TooManyValues,
}

/// The value a non-blank data line stands for. A line holds the count alone,
/// or a channel number followed by the count; both words must be `u32`s.
pub open spec fn line_value(l: Seq<char>) -> Result<u32, LineFault> {
    let w = words(l);
    if u32_text(w[0]) is None {
        Err(LineFault::BadNumber)
    } else if w.len() == 1 {
        Ok(u32_text(w[0]).unwrap())
    } else if w.len() > 2 {
        Err(LineFault::TooManyValues)
    } else if u32_text(w[1]) is None {
        Err(LineFault::BadNumber)
    } else {
        Ok(u32_text(w[1]).unwrap())
    }
}

/// The index of the first line at or after `i` that is not a comment.
pub open spec fn header_end(lines: Seq<Seq<char>>, i: int) -> int
    decreases lines.len() - i,
{
    if 0 <= i < lines.len() && is_comment(lines[i]) {
        header_end(lines, i + 1)
    } else {
        i
    }
}

/// The counts of lines `i..` (blank lines give none), or the index and fault
/// of the first bad line among them.
pub open spec fn values_from(lines: Seq<Seq<char>>, i: int) -> Result<Seq<u32>, (int, LineFault)>
    decreases lines.len() - i,
{
    if i < 0 || i >= lines.len() {
        Ok(Seq::empty())
    } else if is_blank(lines[i]) {
        values_from(lines, i + 1)
    } else {
        match line_value(lines[i]) {
            Err(f) => Err((i, f)),
            Ok(v) => prepend(seq![v], values_from(lines, i + 1)),
        }
    }
}

/// `vs` put in front of the counts of `r`; an error stays as it is.
pub open spec fn prepend(vs: Seq<u32>, r: Result<Seq<u32>, (int, LineFault)>) -> Result<
    Seq<u32>,
    (int, LineFault),
> {
    match r {
        Ok(rest) => Ok(vs + rest),
        Err(e) => Err(e),
    }
}

/// What a text, given by its lines, stands for: the leading comment lines
/// are skipped, then every non-blank line gives one count.
pub open spec fn spectrum_values(lines: Seq<Seq<char>>) -> Result<Seq<u32>, (int, LineFault)> {
    values_from(lines, header_end(lines, 0))
}

/// The characters of each line.
pub open spec fn lines_view(lines: Seq<&str>) -> Seq<Seq<char>> {
    lines.map_values(|l: &str| l@)
}

/// The first word of a data line that is not a `u32`.
pub open spec fn bad_word(l: Seq<char>) -> Seq<char> {
    if u32_text(words(l)[0]) is None {
        words(l)[0]
    } else {
        words(l)[1]
    }
}

/// Whether `r` is the outcome that `spectrum_values` describes for `lines`:
/// the counts, or the fault of the first bad line with, for a bad number,
/// the line's index and the error of parsing its bad word.
pub open spec fn reports(r: Result<Spectrum, SpectrumError>, lines: Seq<Seq<char>>) -> bool {
    let v = spectrum_values(lines);
    match r {
        Ok(s) => v == Ok::<Seq<u32>, (int, LineFault)>(s.data@),
        Err(SpectrumError::NaN(e, i)) => {
            &&& v matches Err((j, LineFault::BadNumber)) && j == i
            &&& u32_parse(bad_word(lines[i as int])) == Err::<u32, ParseIntError>(e)
        },
        Err(SpectrumError::ValueOverflow) => v matches Err((_, LineFault::TooManyValues)),
    }
}

impl Spectrum {
    /// Reads a spectrum from the lines of a text: leading lines that start
    /// with `#` are skipped, blank lines are skipped, and every other line
    /// holds a count, or a channel number and a count, separated by spaces.
    pub fn try_get_from(value: &[&str]) -> (r: Result<Self, SpectrumError>)
        ensures
            reports(r, lines_view(value@)),
    {
        let ghost lines = lines_view(value@);
        let n: usize = value.len();
        let mut i: usize = 0;
        while i < n && starts_with_hash(value[i])
            invariant
                0 <= i <= n,
                n == value@.len(),
                lines == lines_view(value@),
                header_end(lines, 0) == header_end(lines, i as int),
            decreases n - i,
        {
            i += 1;
        }
        let mut data: Vec<u32> = Vec::new();
        while i < n
            invariant
                0 <= i <= n,
                n == value@.len(),
                lines == lines_view(value@),
                spectrum_values(lines) == prepend(data@, values_from(lines, i as int)),
            decreases n - i,
        {
            let line: &str = value[i];
            assert(lines[i as int] == line@);
            let cs = chars_of(line);
            if !is_blank_chars(&cs) {
                match Self::parse_line(line, &cs, i) {
                    Ok(v) => {
                        let ghost rest = values_from(lines, i + 1)->Ok_0;
                        assert(data@ + (seq![v] + rest) == data@.push(v) + rest);
                        data.push(v);
                    },
                    Err(e) => {
                        return Err(e);
                    },
                }
            }
            i += 1;
        }
        assert(data@ + Seq::<u32>::empty() == data@);
        Ok(Spectrum { data })
    }

    /// Reads the count of a non-blank line with the given index, whose
    /// characters are `cs`.
    fn parse_line(line: &str, cs: &Vec<char>, index: usize) -> (r: Result<u32, SpectrumError>)
        requires
            cs@ == line@,
            !is_blank(line@),
        ensures
            match r {
                Ok(v) => line_value(line@) == Ok::<u32, LineFault>(v),
                Err(SpectrumError::NaN(e, i)) => {
                    &&& i == index
                    &&& line_value(line@) matches Err(LineFault::BadNumber)
                    &&& u32_parse(bad_word(line@)) == Err::<u32, ParseIntError>(e)
                },
                Err(SpectrumError::ValueOverflow) => line_value(line@) matches Err(LineFault::TooManyValues),
            },
    {
        let b = word_bounds(cs);
        proof {
            lemma_words_of_non_blank(line@);
        }
        let first = line.substring_char(b[0].0, b[0].1);
        match parse_u32(first) {
            Err(e) => Err(SpectrumError::NaN(e, index)),
            Ok(v) => {
                if b.len() == 1 {
                    Ok(v)
                } else if b.len() > 2 {
                    Err(SpectrumError::ValueOverflow)
                } else {
                    let second = line.substring_char(b[1].0, b[1].1);
                    match parse_u32(second) {
                        Err(e) => Err(SpectrumError::NaN(e, index)),
                        Ok(w) => Ok(w),
                    }
                }
            },
        }
    }

    /// Wraps already known channel counts.
    pub fn new(arg: Vec<u32>) -> (s: Self)
        ensures
            s.data@ == arg@,
    {
        Spectrum { data: arg }
    }
}


/// The lines of a text that holds one decimal count per line.
pub open spec fn count_lines(data: Seq<u32>) -> Seq<Seq<char>> {
    Seq::new(data.len(), |i: int| decimal(data[i] as nat))
}

/// `r` with the index of a bad line moved down by `d` lines.
pub open spec fn shift_errors(r: Result<Seq<u32>, (int, LineFault)>, d: int) -> Result<
    Seq<u32>,
    (int, LineFault),
> {
    match r {
        Ok(v) => Ok(v),
        Err((i, f)) => Err((i + d, f)),
    }
}

/// `r` with the index of a bad line at or below line `p` moved down by one.
pub open spec fn shift_errors_from(r: Result<Seq<u32>, (int, LineFault)>, p: int) -> Result<
    Seq<u32>,
    (int, LineFault),
> {
    match r {
        Ok(v) => Ok(v),
        Err((i, f)) => Err(
            (
                if i >= p {
                    i + 1
                } else {
                    i
                },
                f,
            ),
        ),
    }
}

/// Counts written one per line in decimal read back as the same counts.
pub proof fn law_counts_read_back(data: Seq<u32>)
    ensures
        spectrum_values(count_lines(data)) == Ok::<Seq<u32>, (int, LineFault)>(data),
{
    if data.len() > 0 {
        lemma_decimal_u32(data[0]);
    }
    lemma_counts_from(data, 0);
    assert(data.skip(0) =~= data);
}

proof fn lemma_counts_from(data: Seq<u32>, i: int)
    requires
        0 <= i <= data.len(),
    ensures
        values_from(count_lines(data), i) == Ok::<Seq<u32>, (int, LineFault)>(data.skip(i)),
    decreases data.len() - i,
{
    if i < data.len() {
        lemma_counts_from(data, i + 1);
        lemma_decimal_u32(data[i]);
        lemma_single_word(decimal(data[i] as nat));
        assert(seq![data[i]] + data.skip(i + 1) =~= data.skip(i));
    } else {
        assert(data.skip(i) =~= Seq::<u32>::empty());
    }
}

/// Where the comment header that starts at line `j` ends.
proof fn lemma_header_end_bounds(lines: Seq<Seq<char>>, j: int)
    requires
        0 <= j <= lines.len(),
    ensures
        j <= header_end(lines, j) <= lines.len(),
        forall|k: int| j <= k < header_end(lines, j) ==> is_comment(#[trigger] lines[k]),
        header_end(lines, j) < lines.len() ==> !is_comment(lines[header_end(lines, j)]),
    decreases lines.len() - j,
{
    if j < lines.len() && is_comment(lines[j]) {
        lemma_header_end_bounds(lines, j + 1);
    }
}

/// A run of comment lines from `j` up to a line `e` that is not one (or the
/// end) is the header that starts at `j`.
proof fn lemma_header_end_is(lines: Seq<Seq<char>>, j: int, e: int)
    requires
        0 <= j <= e <= lines.len(),
        forall|k: int| j <= k < e ==> is_comment(#[trigger] lines[k]),
        e < lines.len() ==> !is_comment(lines[e]),
    ensures
        header_end(lines, j) == e,
    decreases e - j,
{
    if j < e {
        lemma_header_end_is(lines, j + 1, e);
    }
}

proof fn lemma_prepend_shift(vs: Seq<u32>, r: Result<Seq<u32>, (int, LineFault)>, d: int, p: int)
    ensures
        prepend(vs, shift_errors(r, d)) == shift_errors(prepend(vs, r), d),
        prepend(vs, shift_errors_from(r, p)) == shift_errors_from(prepend(vs, r), p),
{
}

/// Lines that start with `#`, whatever follows it, put in front of a text
/// are skipped: the counts stay the same, and a bad line is reported as many
/// lines further down.
pub proof fn law_leading_comments(comments: Seq<Seq<char>>, lines: Seq<Seq<char>>)
    requires
        forall|k: int|
            0 <= k < comments.len() ==> (#[trigger] comments[k]).len() > 0 && comments[k][0]
                == '#',
    ensures
        spectrum_values(comments + lines) == shift_errors(
            spectrum_values(lines),
            comments.len() as int,
        ),
{
    let all = comments + lines;
    let c: int = comments.len() as int;
    lemma_header_end_bounds(lines, 0);
    let h: int = header_end(lines, 0);
    assert forall|k: int| 0 <= k < c + h implies is_comment(#[trigger] all[k]) by {
        if k >= c {
            assert(all[k] == lines[k - c]);
        }
    }
    if c + h < all.len() {
        assert(all[c + h] == lines[h]);
    }
    lemma_header_end_is(all, 0, c + h);
    lemma_values_shift(comments, lines, h);
}

proof fn lemma_values_shift(comments: Seq<Seq<char>>, lines: Seq<Seq<char>>, j: int)
    requires
        0 <= j <= lines.len(),
    ensures
        values_from(comments + lines, comments.len() + j) == shift_errors(
            values_from(lines, j),
            comments.len() as int,
        ),
    decreases lines.len() - j,
{
    let all = comments + lines;
    let c: int = comments.len() as int;
    if j < lines.len() {
        assert(all[c + j] == lines[j]);
        lemma_values_shift(comments, lines, j + 1);
        lemma_prepend_shift(seq![line_value(lines[j])->Ok_0], values_from(lines, j + 1), c, 0);
    }
}

/// A blank line put anywhere below the leading comments changes no count;
/// a bad line below it is reported one line further down.
pub proof fn law_blank_line(lines: Seq<Seq<char>>, p: int, blank: Seq<char>)
    requires
        header_end(lines, 0) <= p <= lines.len(),
        is_blank(blank),
    ensures
        spectrum_values(lines.insert(p, blank)) == shift_errors_from(spectrum_values(lines), p),
{
    let more = lines.insert(p, blank);
    lemma_header_end_bounds(lines, 0);
    let h: int = header_end(lines, 0);
    assert forall|k: int| 0 <= k < h implies is_comment(#[trigger] more[k]) by {
        assert(more[k] == lines[k]);
    }
    if h < p {
        assert(more[h] == lines[h]);
    } else if blank.len() > 0 {
        assert(is_white_space(blank[0]));
    }
    lemma_header_end_is(more, 0, h);
    lemma_values_before_blank(lines, p, blank, h);
}

proof fn lemma_values_before_blank(lines: Seq<Seq<char>>, p: int, blank: Seq<char>, j: int)
    requires
        0 <= j <= p <= lines.len(),
        is_blank(blank),
    ensures
        values_from(lines.insert(p, blank), j) == shift_errors_from(values_from(lines, j), p),
    decreases p - j,
{
    let more = lines.insert(p, blank);
    if j < p {
        assert(more[j] == lines[j]);
        lemma_values_before_blank(lines, p, blank, j + 1);
        lemma_prepend_shift(seq![line_value(lines[j])->Ok_0], values_from(lines, j + 1), 0, p);
    } else {
        lemma_values_after_blank(lines, p, blank, p);
    }
}

proof fn lemma_values_after_blank(lines: Seq<Seq<char>>, p: int, blank: Seq<char>, j: int)
    requires
        0 <= p <= j <= lines.len(),
        is_blank(blank),
    ensures
        values_from(lines.insert(p, blank), j + 1) == shift_errors_from(values_from(lines, j), p),
        j == p ==> values_from(lines.insert(p, blank), j) == values_from(
            lines.insert(p, blank),
            j + 1,
        ),
    decreases lines.len() - j,
{
    let more = lines.insert(p, blank);
    assert(more[p] == blank);
    if j < lines.len() {
        assert(more[j + 1] == lines[j]);
        lemma_values_after_blank(lines, p, blank, j + 1);
        lemma_prepend_shift(seq![line_value(lines[j])->Ok_0], values_from(lines, j + 1), 0, p);
    }
}

/// A line that holds a channel number and a count stands for the count.
pub proof fn law_channel_and_count(channel: u32, count: u32)
    ensures
        line_value(decimal(channel as nat).push(' ') + decimal(count as nat)) == Ok::<
            u32,
            LineFault,
        >(count),
{
    lemma_decimal_u32(channel);
    lemma_decimal_u32(count);
    lemma_single_word(decimal(channel as nat));
    lemma_next_word(decimal(channel as nat), decimal(count as nat));
}

/// A line that holds three numbers is refused.
pub proof fn law_three_numbers(a: u32, b: u32, c: u32)
    ensures
        line_value(
            (decimal(a as nat).push(' ') + decimal(b as nat)).push(' ') + decimal(c as nat),
        ) == Err::<u32, LineFault>(LineFault::TooManyValues),
{
    lemma_decimal_u32(a);
    lemma_decimal_u32(b);
    lemma_decimal_u32(c);
    lemma_single_word(decimal(a as nat));
    lemma_next_word(decimal(a as nat), decimal(b as nat));
    lemma_next_word(decimal(a as nat).push(' ') + decimal(b as nat), decimal(c as nat));
}

/// The number of non-blank lines among lines `i..`.
pub open spec fn data_line_count(lines: Seq<Seq<char>>, i: int) -> nat
    decreases lines.len() - i,
{
    if i < 0 || i >= lines.len() {
        0
    } else if is_blank(lines[i]) {
        data_line_count(lines, i + 1)
    } else {
        1 + data_line_count(lines, i + 1)
    }
}

/// A text that reads gives one count for each non-blank line below its
/// comment header.
pub proof fn law_one_count_per_data_line(lines: Seq<Seq<char>>)
    requires
        spectrum_values(lines) is Ok,
    ensures
        spectrum_values(lines)->Ok_0.len() == data_line_count(lines, header_end(lines, 0)),
{
    lemma_header_end_bounds(lines, 0);
    lemma_count_from(lines, header_end(lines, 0));
}

proof fn lemma_count_from(lines: Seq<Seq<char>>, i: int)
    requires
        0 <= i <= lines.len(),
    ensures
        values_from(lines, i) is Ok ==> values_from(lines, i)->Ok_0.len() == data_line_count(
            lines,
            i,
        ),
    decreases lines.len() - i,
{
    if i < lines.len() {
        lemma_count_from(lines, i + 1);
    }
}

/// The lines of a text that holds one decimal count per line, count `i`
/// after `pad[i]` spaces.
pub open spec fn padded_count_lines(data: Seq<u32>, pad: Seq<nat>) -> Seq<Seq<char>> {
    Seq::new(data.len(), |i: int| spaces(pad[i]) + decimal(data[i] as nat))
}

/// Counts written one per line in decimal, each after any number of spaces,
/// read back as the same counts: a line is skipped only when it is all
/// whitespace.
pub proof fn law_padded_counts_read_back(data: Seq<u32>, pad: Seq<nat>)
    requires
        pad.len() == data.len(),
    ensures
        spectrum_values(padded_count_lines(data, pad)) == Ok::<Seq<u32>, (int, LineFault)>(
            data,
        ),
{
    if data.len() > 0 {
        lemma_padded_numeral(pad[0], data[0]);
    }
    lemma_padded_counts_from(data, pad, 0);
    assert(data.skip(0) =~= data);
}

proof fn lemma_padded_counts_from(data: Seq<u32>, pad: Seq<nat>, i: int)
    requires
        pad.len() == data.len(),
        0 <= i <= data.len(),
    ensures
        values_from(padded_count_lines(data, pad), i) == Ok::<Seq<u32>, (int, LineFault)>(
            data.skip(i),
        ),
    decreases data.len() - i,
{
    if i < data.len() {
        lemma_padded_counts_from(data, pad, i + 1);
        lemma_padded_numeral(pad[i], data[i]);
        lemma_decimal_u32(data[i]);
        assert(seq![data[i]] + data.skip(i + 1) =~= data.skip(i));
    } else {
        assert(data.skip(i) =~= Seq::<u32>::empty());
    }
}

/// A line of more than two numbers is refused, and a text made of it fails
/// on its first line; a line of one number stands for it.
pub proof fn law_many_numbers(nums: Seq<u32>)
    requires
        nums.len() > 0,
    ensures
        nums.len() > 2 ==> line_value(joined(nums)) == Err::<u32, LineFault>(
            LineFault::TooManyValues,
        ),
        nums.len() > 2 ==> spectrum_values(seq![joined(nums)]) == Err::<
            Seq<u32>,
            (int, LineFault),
        >((0, LineFault::TooManyValues)),
        nums.len() == 1 ==> line_value(joined(nums)) == Ok::<u32, LineFault>(nums[0]),
        nums.len() == 2 ==> line_value(joined(nums)) == Ok::<u32, LineFault>(nums[1]),
{
    lemma_joined_words(nums);
    lemma_decimal_u32(nums[0]);
    if nums.len() > 1 {
        lemma_decimal_u32(nums[1]);
    }
    let l = joined(nums);
    let lines = seq![l];
    assert(lines[0] == l);
    assert(!is_comment(l));
    assert(!is_blank(l));
    assert(header_end(lines, 1) == 1);
}

/// Whatever words follow, a line whose words are more than two and whose
/// first word is a `u32` is refused for holding too many values.
pub proof fn law_more_than_two_words(l: Seq<char>)
    requires
        words(l).len() > 2,
        u32_text(words(l)[0]) is Some,
    ensures
        line_value(l) == Err::<u32, LineFault>(LineFault::TooManyValues),
{
}

/// Below the header a line that starts with `#` is no comment: after counts
/// written one per line it is reported as a bad number, at its own index.
pub proof fn law_late_hash_line(data: Seq<u32>, c: Seq<char>)
    requires
        c.len() > 0,
        c[0] == '#',
        data.len() > 0,
    ensures
        spectrum_values(count_lines(data).push(c)) == Err::<Seq<u32>, (int, LineFault)>(
            (data.len() as int, LineFault::BadNumber),
        ),
{
    let lines = count_lines(data).push(c);
    lemma_decimal_u32(data[0]);
    assert(lines[0] == decimal(data[0] as nat));
    lemma_first_word_starts(c);
    assert(lines[data.len() as int] == c);
    assert(!is_blank(c)) by {
        assert(!is_white_space(c[0]));
    }
    lemma_counts_then(data, c, 0);
}

proof fn lemma_counts_then(data: Seq<u32>, c: Seq<char>, i: int)
    requires
        0 <= i <= data.len(),
        c.len() > 0,
        c[0] == '#',
        words(c).len() > 0,
        words(c)[0].len() > 0,
        words(c)[0][0] == '#',
    ensures
        values_from(count_lines(data).push(c), i) == Err::<Seq<u32>, (int, LineFault)>(
            (data.len() as int, LineFault::BadNumber),
        ),
    decreases data.len() - i,
{
    let lines = count_lines(data).push(c);
    if i < data.len() {
        lemma_counts_then(data, c, i + 1);
        assert(lines[i] == decimal(data[i] as nat));
        lemma_decimal_u32(data[i]);
        lemma_single_word(decimal(data[i] as nat));
    } else {
        assert(lines[i] == c);
        assert(!is_white_space(c[0]));
        assert(!crate::text::is_digit(words(c)[0][0]));
    }
}

/// A data line whose first word is not a `u32` is a bad number, whatever
/// follows; so is a two-word line whose second word is not a `u32`.
pub proof fn law_bad_words(l: Seq<char>)
    ensures
        words(l).len() > 0 && u32_text(words(l)[0]) is None ==> line_value(l) == Err::<
            u32,
            LineFault,
        >(LineFault::BadNumber),
        words(l).len() == 2 && u32_text(words(l)[1]) is None ==> line_value(l) == Err::<
            u32,
            LineFault,
        >(LineFault::BadNumber),
{
}
} // verus!
