//! Character-level views of the text formats read by the library: blank
//! lines, space-separated words and unsigned decimal numbers.

use std::num::ParseIntError;
use vstd::prelude::*;

verus! {

/// `std::num::ParseIntError`, the error of `str::parse` for integers.
#[verifier::external_type_specification]
#[verifier::external_body]
pub struct ExParseIntError(ParseIntError);

/// The Unicode `White_Space` property (PropList.txt), the whitespace of
/// `char::is_whitespace` and `str::trim`.
pub open spec fn is_white_space(c: char) -> bool {
    let u: u32 = c as u32;
    ||| 0x9 <= u <= 0xd
    ||| u == 0x20
    ||| u == 0x85
    ||| u == 0xa0
    ||| u == 0x1680
    ||| 0x2000 <= u <= 0x200a
    ||| u == 0x2028
    ||| u == 0x2029
    ||| u == 0x202f
    ||| u == 0x205f
    ||| u == 0x3000
}

/// A line that `trim` turns into the empty string.
pub open spec fn is_blank(s: Seq<char>) -> bool {
    forall|i: int| 0 <= i < s.len() ==> is_white_space(#[trigger] s[i])
}

/// A line that starts with `#`.
pub open spec fn is_comment(s: Seq<char>) -> bool {
    s.len() > 0 && s[0] == '#'
}

/// Reading `s` from the left: the words finished so far, and the run of
/// non-space characters still open at the end.
pub open spec fn scan_words(s: Seq<char>) -> (Seq<Seq<char>>, Seq<char>)
    decreases s.len(),
{
    if s.len() == 0 {
        (Seq::empty(), Seq::empty())
    } else {
        let (done, cur) = scan_words(s.drop_last());
        if s.last() == ' ' {
            if cur.len() > 0 {
                (done.push(cur), Seq::empty())
            } else {
                (done, Seq::empty())
            }
        } else {
            (done, cur.push(s.last()))
        }
    }
}

/// The maximal runs of characters other than `' '` in `s`, in order: the
/// non-empty pieces of `s.split(' ')`.
pub open spec fn words(s: Seq<char>) -> Seq<Seq<char>> {
    let (done, cur) = scan_words(s);
    if cur.len() > 0 {
        done.push(cur)
    } else {
        done
    }
}

pub open spec fn is_digit(c: char) -> bool {
    '0' <= c && c <= '9'
}

pub open spec fn all_digits(s: Seq<char>) -> bool {
    forall|i: int| 0 <= i < s.len() ==> is_digit(#[trigger] s[i])
}

/// The number written by the decimal digits `s`.
pub open spec fn digits_value(s: Seq<char>) -> nat
    decreases s.len(),
{
    if s.len() == 0 {
        0
    } else {
        digits_value(s.drop_last()) * 10 + ((s.last() as u32) - ('0' as u32)) as nat
    }
}

/// What `str::parse::<u32>` accepts and gives back: an optional `+`, then
/// one or more ASCII digits whose value fits in a `u32`.
pub open spec fn u32_text(s: Seq<char>) -> Option<u32> {
    let d = if s.len() > 0 && s[0] == '+' {
        s.drop_first()
    } else {
        s
    };
    if d.len() > 0 && all_digits(d) && digits_value(d) <= u32::MAX {
        Some(digits_value(d) as u32)
    } else {
        None
    }
}

pub open spec fn digit_char(d: nat) -> char
    recommends
        d < 10,
{
    (d + 48) as char
}

/// The decimal representation of `n`, without sign and leading zeros, as
/// `Display` writes it for unsigned integers.
pub open spec fn decimal(n: nat) -> Seq<char>
    decreases n,
{
    if n < 10 {
        seq![digit_char(n)]
    } else {
        decimal(n / 10).push(digit_char(n % 10))
    }
}

/// Calls `char::is_whitespace`, which the standard library documents as the
/// Unicode `White_Space` property.
#[verifier::external_body]
fn char_is_whitespace(c: char) -> (b: bool)
    ensures
        b == is_white_space(c),
{
    c.is_whitespace()
}

/// What `str::parse::<u32>` gives for the text `s`, error included.
pub uninterp spec fn u32_parse(s: Seq<char>) -> Result<u32, ParseIntError>;

/// Calls `str::parse::<u32>`. Claimed: the result depends on the text alone
/// (`u32_parse`); it is `Ok` exactly on the texts of `u32_text`, with their
/// value. Which `ParseIntError` a failure carries is only named.
#[verifier::external_body]
pub(crate) fn parse_u32(s: &str) -> (r: Result<u32, ParseIntError>)
    ensures
        r == u32_parse(s@),
        r is Ok <==> u32_text(s@) is Some,
        r matches Ok(v) ==> u32_text(s@) == Some(v),
{
    s.parse::<u32>()
}

/// The characters of `s`, in order.
pub(crate) fn chars_of(s: &str) -> (v: Vec<char>)
    ensures
        v@ == s@,
{
    broadcast use vstd::string::group_string_axioms;

    let mut v: Vec<char> = Vec::new();
    for c in it: s.chars()
        invariant
            it.seq() == s@,
            v@ == it.seq().take(it.index()),
    {
        v.push(c);
        assert(v@ == it.seq().take(it.index() + 1));
    }
    v
}

/// Whether `s` starts with `#`.
pub(crate) fn starts_with_hash(s: &str) -> (b: bool)
    ensures
        b == is_comment(s@),
{
    let cs = chars_of(s);
    cs.len() > 0 && cs[0] == '#'
}

/// Whether every character of `cs` is whitespace.
pub(crate) fn is_blank_chars(cs: &Vec<char>) -> (b: bool)
    ensures
        b == is_blank(cs@),
{
    let mut i: usize = 0;
    while i < cs.len()
        invariant
            0 <= i <= cs.len(),
            forall|j: int| 0 <= j < i ==> is_white_space(#[trigger] cs@[j]),
        decreases cs.len() - i,
    {
        if !char_is_whitespace(cs[i]) {
            return false;
        }
        i += 1;
    }
    true
}

/// The positions of the words of `cs`: word `k` is `cs[b[k].0 .. b[k].1]`.
pub(crate) fn word_bounds(cs: &Vec<char>) -> (b: Vec<(usize, usize)>)
    ensures
        b.len() == words(cs@).len(),
        forall|k: int|
            #![trigger b[k]]
            0 <= k < b.len() ==> {
                &&& b[k].0 <= b[k].1 <= cs.len()
                &&& words(cs@)[k] == cs@.subrange(b[k].0 as int, b[k].1 as int)
            },
{
    let mut b: Vec<(usize, usize)> = Vec::new();
    let mut start: usize = 0;
    let mut i: usize = 0;
    while i < cs.len()
        invariant
            0 <= start <= i <= cs.len(),
            scan_words(cs@.take(i as int)).1 == cs@.subrange(start as int, i as int),
            scan_words(cs@.take(i as int)).0.len() == b.len(),
            forall|k: int|
                #![trigger b[k]]
                0 <= k < b.len() ==> {
                    &&& b[k].0 <= b[k].1 <= i
                    &&& scan_words(cs@.take(i as int)).0[k] == cs@.subrange(
                        b[k].0 as int,
                        b[k].1 as int,
                    )
                },
        decreases cs.len() - i,
    {
        let ghost old_b = b@;
        let ghost sc = scan_words(cs@.take(i as int));
        assert(cs@.take(i + 1).drop_last() == cs@.take(i as int));
        assert(cs@.take(i + 1).last() == cs@[i as int]);
        if cs[i] == ' ' {
            if start < i {
                b.push((start, i));
            }
            start = i + 1;
            assert(cs@.subrange(start as int, (i + 1) as int) =~= Seq::<char>::empty());
        } else {
            assert(cs@.subrange(start as int, (i + 1) as int) =~= cs@.subrange(
                start as int,
                i as int,
            ).push(cs@[i as int]));
        }
        let ghost nsc = scan_words(cs@.take(i + 1));
        assert(nsc.0.len() == b.len());
        assert forall|k: int| #![trigger b[k]] 0 <= k < b.len() implies {
            &&& b[k].0 <= b[k].1 <= i + 1
            &&& nsc.0[k] == cs@.subrange(b[k].0 as int, b[k].1 as int)
        } by {
            if k < old_b.len() {
                assert(b[k] == old_b[k]);
                assert(nsc.0[k] == sc.0[k]);
            }
        }
        i += 1;
    }
    assert(cs@.take(cs.len() as int) =~= cs@);
    let ghost old_b = b@;
    if start < cs.len() {
        b.push((start, cs.len()));
    }
    assert forall|k: int| #![trigger b[k]] 0 <= k < b.len() implies {
        &&& b[k].0 <= b[k].1 <= cs.len()
        &&& words(cs@)[k] == cs@.subrange(b[k].0 as int, b[k].1 as int)
    } by {
        if k < old_b.len() {
            assert(b[k] == old_b[k]);
        }
    }
    b
}

/// A line with a character other than whitespace has at least one word.
pub proof fn lemma_words_of_non_blank(s: Seq<char>)
    requires
        !is_blank(s),
    ensures
        words(s).len() > 0,
{
    let i: int = choose|i: int| 0 <= i < s.len() && !is_white_space(#[trigger] s[i]);
    lemma_scan_keeps_word(s, i);
}

proof fn lemma_scan_keeps_word(s: Seq<char>, i: int)
    requires
        0 <= i < s.len(),
        s[i] != ' ',
    ensures
        scan_words(s).0.len() > 0 || scan_words(s).1.len() > 0,
    decreases s.len(),
{
    if i < s.len() - 1 {
        lemma_scan_keeps_word(s.drop_last(), i);
    }
}


/// No character of `s` is a space.
pub open spec fn no_space(s: Seq<char>) -> bool {
    forall|i: int| 0 <= i < s.len() ==> #[trigger] s[i] != ' '
}

/// A space closes the open word.
pub proof fn lemma_scan_space(s: Seq<char>)
    ensures
        scan_words(s.push(' ')) == (words(s), Seq::<char>::empty()),
{
    assert(s.push(' ').drop_last() =~= s);
}

/// Characters other than spaces extend the open word.
pub proof fn lemma_scan_run(x: Seq<char>, t: Seq<char>)
    requires
        no_space(t),
    ensures
        scan_words(x + t) == (scan_words(x).0, scan_words(x).1 + t),
    decreases t.len(),
{
    if t.len() == 0 {
        assert(x + t =~= x);
        assert(scan_words(x).1 + t =~= scan_words(x).1);
    } else {
        assert((x + t).drop_last() =~= x + t.drop_last());
        lemma_scan_run(x, t.drop_last());
        assert(scan_words(x).1 + t =~= (scan_words(x).1 + t.drop_last()).push(t.last()));
    }
}

/// A non-empty text without spaces is a single word.
pub proof fn lemma_single_word(t: Seq<char>)
    requires
        t.len() > 0,
        no_space(t),
    ensures
        words(t) == seq![t],
{
    lemma_scan_run(Seq::empty(), t);
    assert(Seq::<char>::empty() + t =~= t);
    assert(Seq::<Seq<char>>::empty().push(t) =~= seq![t]);
}

/// Appending a space and a word appends that word.
pub proof fn lemma_next_word(s: Seq<char>, t: Seq<char>)
    requires
        t.len() > 0,
        no_space(t),
    ensures
        words(s.push(' ') + t) == words(s).push(t),
{
    lemma_scan_space(s);
    lemma_scan_run(s.push(' '), t);
    assert(Seq::<char>::empty() + t =~= t);
}

/// `decimal(n)` is a non-empty run of digits whose value is `n`.
pub proof fn lemma_decimal(n: nat)
    ensures
        decimal(n).len() > 0,
        all_digits(decimal(n)),
        digits_value(decimal(n)) == n,
    decreases n,
{
    if n >= 10 {
        lemma_decimal(n / 10);
        let d = decimal(n);
        assert(d.drop_last() =~= decimal(n / 10));
        assert(d.last() == digit_char(n % 10));
        assert((digit_char(n % 10) as u32) == n % 10 + 48);
        assert(digits_value(d) == digits_value(decimal(n / 10)) * 10 + n % 10);
        assert(n == (n / 10) * 10 + n % 10);
        assert forall|i: int| 0 <= i < d.len() implies is_digit(#[trigger] d[i]) by {
            if i < d.len() - 1 {
                assert(d[i] == decimal(n / 10)[i]);
            }
        }
    } else {
        let d = decimal(n);
        assert(d.drop_last() =~= Seq::<char>::empty());
        assert(digits_value(Seq::<char>::empty()) == 0);
        assert((digit_char(n) as u32) == n + 48);
    }
}

/// A decimal numeral has no spaces and reads back, through `u32_text`, as
/// the number it writes.
pub proof fn lemma_decimal_u32(v: u32)
    ensures
        decimal(v as nat).len() > 0,
        no_space(decimal(v as nat)),
        !is_comment(decimal(v as nat)),
        !is_blank(decimal(v as nat)),
        u32_text(decimal(v as nat)) == Some(v),
{
    lemma_decimal(v as nat);
    let d = decimal(v as nat);
    assert(is_digit(d[0]));
    assert forall|i: int| 0 <= i < d.len() implies #[trigger] d[i] != ' ' by {
        assert(is_digit(d[i]));
    }
}

/// `k` spaces.
pub open spec fn spaces(k: nat) -> Seq<char> {
    Seq::new(k, |i: int| ' ')
}

/// The numbers `nums` written in decimal, separated by single spaces.
pub open spec fn joined(nums: Seq<u32>) -> Seq<char>
    decreases nums.len(),
{
    if nums.len() == 0 {
        Seq::empty()
    } else if nums.len() == 1 {
        decimal(nums[0] as nat)
    } else {
        joined(nums.drop_last()).push(' ') + decimal(nums.last() as nat)
    }
}

/// Spaces alone leave no word, finished or open.
pub proof fn lemma_scan_spaces(k: nat)
    ensures
        scan_words(spaces(k)) == (Seq::<Seq<char>>::empty(), Seq::<char>::empty()),
    decreases k,
{
    if k > 0 {
        assert(spaces(k).drop_last() =~= spaces((k - 1) as nat));
        lemma_scan_spaces((k - 1) as nat);
    }
}

/// Leading spaces do not change the words of a numeral.
pub proof fn lemma_padded_numeral(k: nat, v: u32)
    ensures
        words(spaces(k) + decimal(v as nat)) == seq![decimal(v as nat)],
        !is_blank(spaces(k) + decimal(v as nat)),
        !is_comment(spaces(k) + decimal(v as nat)),
{
    let d = decimal(v as nat);
    let l = spaces(k) + d;
    lemma_decimal_u32(v);
    lemma_decimal(v as nat);
    lemma_scan_spaces(k);
    lemma_scan_run(spaces(k), d);
    assert(Seq::<char>::empty() + d =~= d);
    assert(Seq::<Seq<char>>::empty().push(d) =~= seq![d]);
    assert(l[l.len() - 1] == d[d.len() - 1]);
    assert(is_digit(d[d.len() - 1]));
    if k > 0 {
        assert(l[0] == ' ');
    } else {
        assert(l[0] == d[0]);
        assert(is_digit(d[0]));
    }
}

/// The words of numbers joined by spaces are their numerals, and the text
/// starts with a digit.
pub proof fn lemma_joined_words(nums: Seq<u32>)
    requires
        nums.len() > 0,
    ensures
        words(joined(nums)) == nums.map_values(|v: u32| decimal(v as nat)),
        joined(nums).len() > 0,
        is_digit(joined(nums)[0]),
    decreases nums.len(),
{
    lemma_decimal_u32(nums[0]);
    lemma_decimal(nums[0] as nat);
    if nums.len() == 1 {
        lemma_single_word(decimal(nums[0] as nat));
        assert(is_digit(decimal(nums[0] as nat)[0]));
        assert(seq![decimal(nums[0] as nat)] =~= nums.map_values(|v: u32| decimal(v as nat)));
    } else {
        let front = nums.drop_last();
        lemma_joined_words(front);
        lemma_decimal_u32(nums.last());
        lemma_next_word(joined(front), decimal(nums.last() as nat));
        assert(front[0] == nums[0]);
        assert(joined(nums)[0] == joined(front)[0]);
        assert(front.map_values(|v: u32| decimal(v as nat)).push(decimal(nums.last() as nat))
            =~= nums.map_values(|v: u32| decimal(v as nat)));
    }
}

/// Different numbers have different decimal numerals.
pub proof fn lemma_decimal_injective(a: nat, b: nat)
    requires
        decimal(a) == decimal(b),
    ensures
        a == b,
{
    lemma_decimal(a);
    lemma_decimal(b);
}

/// The first word of a text that does not start with a space starts with
/// the text's first character.
pub proof fn lemma_first_word_starts(s: Seq<char>)
    requires
        s.len() > 0,
        s[0] != ' ',
    ensures
        words(s).len() > 0,
        words(s)[0].len() > 0,
        words(s)[0][0] == s[0],
{
    lemma_scan_first(s);
}

proof fn lemma_scan_first(s: Seq<char>)
    requires
        s.len() > 0,
        s[0] != ' ',
    ensures
        scan_words(s).0.len() > 0 ==> scan_words(s).0[0].len() > 0 && scan_words(s).0[0][0]
            == s[0],
        scan_words(s).0.len() == 0 ==> scan_words(s).1.len() > 0 && scan_words(s).1[0] == s[0],
    decreases s.len(),
{
    let prev = s.drop_last();
    if s.len() > 1 {
        assert(prev[0] == s[0]);
        lemma_scan_first(prev);
        let done = scan_words(prev).0;
        let cur = scan_words(prev).1;
        if s.last() == ' ' {
            if cur.len() > 0 {
                assert(scan_words(s).0 == done.push(cur));
                if done.len() > 0 {
                    assert(done.push(cur)[0] == done[0]);
                } else {
                    assert(done.push(cur)[0] == cur);
                }
            } else {
                assert(scan_words(s).0 == done);
            }
        } else {
            assert(scan_words(s) == (done, cur.push(s.last())));
            if done.len() == 0 {
                assert(cur.push(s.last())[0] == cur[0]);
            }
        }
    } else {
        assert(prev =~= Seq::<char>::empty());
        assert(scan_words(prev) == (Seq::<Seq<char>>::empty(), Seq::<char>::empty()));
        assert(scan_words(s) == (Seq::<Seq<char>>::empty(), Seq::<char>::empty().push(s[0])));
    }
}
} // verus!
