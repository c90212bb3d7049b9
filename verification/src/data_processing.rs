//! The integer side of background estimation and peak fitting: which shape
//! the step background takes and from which sums, and how the parameters of
//! a multi-peak fit are laid out.

use crate::text::{all_digits, decimal, digits_value, lemma_decimal, lemma_decimal_injective};
use vstd::prelude::*;

verus! {

/// Why a fit cannot be set up.
#[derive(Debug)]
pub enum DataError {
    /// The number of peaks differs from the number of initial positions.
    FittingSizeError,
}

/// The sum of the counts in `s`.
pub open spec fn sum_counts(s: Seq<u32>) -> int
    decreases s.len(),
{
    if s.len() == 0 {
        0
    } else {
        sum_counts(s.drop_last()) + s.last()
    }
}

/// Sums add up over concatenation, and a single count sums to itself.
pub proof fn law_sum_counts(s: Seq<u32>, t: Seq<u32>, x: u32)
    ensures
        sum_counts(s + t) == sum_counts(s) + sum_counts(t),
        sum_counts(seq![x]) == x,
        sum_counts(Seq::<u32>::empty()) == 0,
    decreases t.len(),
{
    assert(seq![x].drop_last() =~= Seq::<u32>::empty());
    assert(sum_counts(Seq::<u32>::empty()) == 0);
    assert(sum_counts(seq![x]) == sum_counts(seq![x].drop_last()) + x);
    if t.len() == 0 {
        assert(s + t =~= s);
    } else {
        law_sum_counts(s, t.drop_last(), x);
        assert((s + t).drop_last() =~= s + t.drop_last());
    }
}

/// The shape of the step background of a region of interest.
#[derive(PartialEq, Eq, Debug)]
pub enum StepBackground {
    /// Fewer than ten channels: the background is the first count everywhere.
    Flat(u32),
    /// The background steps from the mean of the first five counts to the
    /// mean of the last five; the sums of those counts are given.
    Sloped { head_sum: u64, tail_sum: u64 },
}

/// Decides the shape of the step background of `data` and computes, exactly,
/// the sums its end levels come from.
pub fn step_background_plan(data: &[u32]) -> (p: StepBackground)
    requires
        data.len() > 0,
    ensures
        data.len() < 10 ==> p == StepBackground::Flat(data[0]),
        data.len() >= 10 ==> (p matches StepBackground::Sloped { head_sum, tail_sum } && head_sum
            == sum_counts(data@.take(5)) && tail_sum == sum_counts(data@.skip(data.len() - 5))),
{
    let l: usize = data.len();
    if l < 10 {
        return StepBackground::Flat(data[0]);
    }
    let head_sum: u64 = sum_range(data, 0, 5);
    let tail_sum: u64 = sum_range(data, l - 5, l);
    assert(data@.subrange(0, 5) =~= data@.take(5));
    assert(data@.subrange(l - 5, l as int) =~= data@.skip(l - 5));
    StepBackground::Sloped { head_sum, tail_sum }
}

/// The sum of `data[from..to]`, for at most five channels.
fn sum_range(data: &[u32], from: usize, to: usize) -> (s: u64)
    requires
        from <= to <= data.len(),
        to - from <= 5,
    ensures
        s == sum_counts(data@.subrange(from as int, to as int)),
{
    let mut s: u64 = 0;
    let mut j: usize = from;
    while j < to
        invariant
            from <= j <= to <= data.len(),
            to - from <= 5,
            s == sum_counts(data@.subrange(from as int, j as int)),
            s <= (j - from) * 0xffff_ffff,
        decreases to - j,
    {
        assert(data@.subrange(from as int, j + 1).drop_last() =~= data@.subrange(
            from as int,
            j as int,
        ));
        s = s + data[j] as u64;
        j += 1;
    }
    s
}

/// Name of the position parameter of peak `k` (counted from one).
pub open spec fn mu_name(k: nat) -> Seq<char> {
    seq!['m', 'u'] + decimal(k)
}

/// Name of the width parameter of peak `k` (counted from one).
pub open spec fn sigma_name(k: nat) -> Seq<char> {
    seq!['s', 'i', 'g', 'm', 'a'] + decimal(k)
}

/// The number in a parameter name reads back as the peak's number: a
/// position name is `mu` then the decimal digits of `k`, a width name is
/// `sigma` then those digits.
pub proof fn law_parameter_name_number(k: nat)
    ensures
        mu_name(k).take(2) == seq!['m', 'u'],
        all_digits(mu_name(k).skip(2)),
        mu_name(k).len() > 2,
        digits_value(mu_name(k).skip(2)) == k,
        sigma_name(k).take(5) == seq!['s', 'i', 'g', 'm', 'a'],
        all_digits(sigma_name(k).skip(5)),
        sigma_name(k).len() > 5,
        digits_value(sigma_name(k).skip(5)) == k,
{
    lemma_decimal(k);
    assert(mu_name(k).take(2) =~= seq!['m', 'u']);
    assert(mu_name(k).skip(2) =~= decimal(k));
    assert(sigma_name(k).take(5) =~= seq!['s', 'i', 'g', 'm', 'a']);
    assert(sigma_name(k).skip(5) =~= decimal(k));
}

/// Parameter names never clash: different peaks get different position
/// names and different width names, and no position name is a width name.
pub proof fn law_parameter_names_distinct(k: nat, m: nat)
    ensures
        k != m ==> mu_name(k) != mu_name(m),
        k != m ==> sigma_name(k) != sigma_name(m),
        mu_name(k) != sigma_name(m),
{
    law_parameter_name_number(k);
    law_parameter_name_number(m);
    if mu_name(k) == mu_name(m) {
        lemma_decimal_injective(k, m);
    }
    if sigma_name(k) == sigma_name(m) {
        lemma_decimal_injective(k, m);
    }
    assert(mu_name(k)[0] == 'm');
    assert(sigma_name(m)[0] == 's');
}

/// Calls `format!("{}{}", prefix, k)`: `prefix` followed by `k` as `Display`
/// writes an unsigned integer, in decimal.
#[verifier::external_body]
fn numbered(prefix: &str, k: usize) -> (s: String)
    ensures
        s@ == prefix@ + decimal(k as nat),
{
    format!("{}{}", prefix, k)
}

/// The names of the nonlinear parameters of a fit of `n` peaks from
/// `n_initial` initial positions: position and width of each peak in turn,
/// so that peak `i` owns parameters `2 i` and `2 i + 1`. The fit cannot be
/// set up when the two numbers differ.
pub fn fit_parameter_names(n: usize, n_initial: usize) -> (r: Result<Vec<String>, DataError>)
    ensures
        r is Err <==> n != n_initial,
        r matches Ok(names) ==> {
            &&& names.len() == 2 * n
            &&& forall|i: int, j: int|
                0 <= i < names.len() && 0 <= j < names.len() && i != j ==> #[trigger] names[i]@
                    != #[trigger] names[j]@
            &&& forall|i: int|
                #![trigger names@[2 * i]] #![trigger names@[2 * i + 1]]
                0 <= i < n ==> (names[2 * i]@ == mu_name((i + 1) as nat) && names[2 * i
                    + 1]@ == sigma_name((i + 1) as nat))
        },
{
    if n != n_initial {
        return Err(DataError::FittingSizeError);
    }
    let mut names: Vec<String> = Vec::new();
    let mut i: usize = 0;
    while i < n
        invariant
            0 <= i <= n,
            names.len() == 2 * i,
            forall|k: int|
                #![trigger names@[2 * k]] #![trigger names@[2 * k + 1]]
                0 <= k < i ==> (names[2 * k]@ == mu_name((k + 1) as nat) && names[2 * k
                    + 1]@ == sigma_name((k + 1) as nat)),
        decreases n - i,
    {
        proof {
            reveal_strlit("mu");
            reveal_strlit("sigma");
        }
        let ghost before = names@;
        names.push(numbered("mu", i + 1));
        names.push(numbered("sigma", i + 1));
        assert forall|k: int| #![trigger names@[2 * k]] #![trigger names@[2 * k + 1]] 0 <= k < i + 1 implies (names[2 * k]@ == mu_name(
            (k + 1) as nat,
        ) && names[2 * k + 1]@ == sigma_name((k + 1) as nat)) by {
            if k < i {
                assert(names[2 * k] == before[2 * k]);
                assert(names[2 * k + 1] == before[2 * k + 1]);
                assert(before[2 * k]@ == mu_name((k + 1) as nat));
                assert(before[2 * k + 1]@ == sigma_name((k + 1) as nat));
            } else {
                assert(names[2 * k]@ =~= mu_name((k + 1) as nat));
                assert(names[2 * k + 1]@ =~= sigma_name((k + 1) as nat));
            }
        }
        i += 1;
    }
    assert forall|a: int, b: int|
        0 <= a < names.len() && 0 <= b < names.len() && a != b implies #[trigger] names[a]@
        != #[trigger] names[b]@ by {
        let ka: int = a / 2;
        let kb: int = b / 2;
        assert(names[2 * ka]@ == mu_name((ka + 1) as nat));
        assert(names[2 * kb]@ == mu_name((kb + 1) as nat));
        law_parameter_names_distinct((ka + 1) as nat, (kb + 1) as nat);
        law_parameter_names_distinct((kb + 1) as nat, (ka + 1) as nat);
    }
    Ok(names)
}

} // verus!
