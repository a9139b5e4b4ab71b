//! How well predicted outputs agree with the labels of a boolean task.

use vstd::prelude::*;

verus! {

/// The rows of a matrix.
pub open spec fn rows(m: Seq<Vec<bool>>) -> Seq<Seq<bool>> {
    Seq::new(m.len(), |r: int| m[r]@)
}

/// How many of the first `k` bits of two rows agree.
pub open spec fn matches_in_row(a: Seq<bool>, b: Seq<bool>, k: nat) -> nat
    decreases k,
{
    if k == 0 {
        0
    } else {
        matches_in_row(a, b, (k - 1) as nat) + if a[k - 1] == b[k - 1] {
            1nat
        } else {
            0nat
        }
    }
}

/// How many bits of the first `r` rows of two matrices agree.
pub open spec fn matches_in_rows(output: Seq<Seq<bool>>, labels: Seq<Seq<bool>>, r: nat) -> nat
    decreases r,
{
    if r == 0 {
        0
    } else {
        matches_in_rows(output, labels, (r - 1) as nat) + matches_in_row(
            output[r - 1],
            labels[r - 1],
            labels[r - 1].len(),
        )
    }
}

/// How many bits the first `r` rows of a matrix hold.
pub open spec fn bits_in_rows(labels: Seq<Seq<bool>>, r: nat) -> nat
    decreases r,
{
    if r == 0 {
        0
    } else {
        bits_in_rows(labels, (r - 1) as nat) + labels[r - 1].len()
    }
}

/// How many bits of two matrices of one shape agree.
pub open spec fn count_matches(output: Seq<Seq<bool>>, labels: Seq<Seq<bool>>) -> nat {
    matches_in_rows(output, labels, labels.len())
}

/// How many bits a matrix holds.
pub open spec fn count_bits(labels: Seq<Seq<bool>>) -> nat {
    bits_in_rows(labels, labels.len())
}

/// No more bits agree than there are.
pub proof fn lemma_matches_in_row_bound(a: Seq<bool>, b: Seq<bool>, k: nat)
    ensures
        matches_in_row(a, b, k) <= k,
    decreases k,
{
    if k > 0 {
        lemma_matches_in_row_bound(a, b, (k - 1) as nat);
    }
}

/// No more bits agree than there are, and the counts grow with the rows.
pub proof fn lemma_matches_in_rows_bound(output: Seq<Seq<bool>>, labels: Seq<Seq<bool>>, r: nat, s: nat)
    requires
        r <= s,
    ensures
        matches_in_rows(output, labels, r) <= bits_in_rows(labels, r),
        bits_in_rows(labels, r) <= bits_in_rows(labels, s),
    decreases s,
{
    if r > 0 {
        lemma_matches_in_rows_bound(output, labels, (r - 1) as nat, (r - 1) as nat);
        lemma_matches_in_row_bound(output[r - 1], labels[r - 1], labels[r - 1].len());
    }
    if r < s {
        lemma_matches_in_rows_bound(output, labels, r, (s - 1) as nat);
    }
}

/// The number of bits in which `output` agrees with `labels`. The boolean
/// fitness of a graph is one minus this number over the number of label bits.
pub fn fitness_boolean(output: &Vec<Vec<bool>>, labels: &Vec<Vec<bool>>) -> (matches: usize)
    requires
        output@.len() == labels@.len(),
        forall|r: int| 0 <= r < labels@.len() ==> (#[trigger] output@[r])@.len() == labels@[r]@.len(),
        count_bits(rows(labels@)) <= usize::MAX,
    ensures
        matches == count_matches(rows(output@), rows(labels@)),
        matches <= count_bits(rows(labels@)),
{
    let ghost out = rows(output@);
    let ghost lab = rows(labels@);
    let mut matches: usize = 0;
    let mut r: usize = 0;
    while r < labels.len()
        invariant
            out == rows(output@),
            lab == rows(labels@),
            output@.len() == labels@.len(),
            forall|q: int| 0 <= q < labels@.len() ==> (#[trigger] output@[q])@.len() == labels@[q]@.len(),
            count_bits(lab) <= usize::MAX,
            r <= labels@.len(),
            matches == matches_in_rows(out, lab, r as nat),
        decreases labels@.len() - r,
    {
        let ghost before = matches;
        proof {
            lemma_matches_in_rows_bound(out, lab, (r + 1) as nat, labels@.len());
            assert(lab[r as int] == labels@[r as int]@);
            assert(out[r as int] == output@[r as int]@);
        }
        let mut c: usize = 0;
        while c < labels[r].len()
            invariant
                r < labels@.len(),
                output@.len() == labels@.len(),
                output@[r as int]@.len() == labels@[r as int]@.len(),
                lab[r as int] == labels@[r as int]@,
                out[r as int] == output@[r as int]@,
                c <= labels@[r as int]@.len(),
                matches == before + matches_in_row(out[r as int], lab[r as int], c as nat),
                before + matches_in_row(out[r as int], lab[r as int], lab[r as int].len()) <= usize::MAX,
            decreases labels@[r as int]@.len() - c,
        {
            proof {
                lemma_matches_in_row_mono(out[r as int], lab[r as int], (c + 1) as nat, lab[r as int].len());
            }
            if output[r][c] == labels[r][c] {
                matches += 1;
            }
            c += 1;
        }
        r += 1;
    }
    proof {
        lemma_matches_in_rows_bound(out, lab, labels@.len(), labels@.len());
    }
    matches
}

/// The count of agreeing bits grows with the bits looked at.
pub proof fn lemma_matches_in_row_mono(a: Seq<bool>, b: Seq<bool>, k: nat, m: nat)
    requires
        k <= m,
    ensures
        matches_in_row(a, b, k) <= matches_in_row(a, b, m),
    decreases m,
{
    if k < m {
        lemma_matches_in_row_mono(a, b, k, (m - 1) as nat);
    }
}

/// How many of the first `n` samples have the class they are predicted to
/// have.
pub open spec fn count_correct(predicted: Seq<usize>, actual: Seq<usize>, n: nat) -> nat
    decreases n,
{
    if n == 0 {
        0
    } else {
        count_correct(predicted, actual, (n - 1) as nat) + if predicted[n - 1] == actual[n - 1] {
            1nat
        } else {
            0nat
        }
    }
}

/// How many of the first `n` samples have class `k`.
pub open spec fn count_class(classes: Seq<usize>, k: int, n: nat) -> nat
    decreases n,
{
    if n == 0 {
        0
    } else {
        count_class(classes, k, (n - 1) as nat) + if classes[n - 1] == k {
            1nat
        } else {
            0nat
        }
    }
}

/// The sum over the first `k` classes of the products of two histograms.
pub open spec fn histogram_product(a: Seq<usize>, b: Seq<usize>, k: nat) -> int
    decreases k,
{
    if k == 0 {
        0
    } else {
        histogram_product(a, b, (k - 1) as nat) + a[k - 1] * b[k - 1]
    }
}

/// The whole numbers of the multi-class correlation score: the score is one
/// minus the absolute value of the quotient of `covariance` and the square
/// root of the product of `predicted_spread` and `actual_spread`; where that
/// product is zero, the quotient counts as zero.
#[derive(Clone, Copy, Debug)]
pub struct CorrelationCounts {
    /// The correct samples times all samples, less the products of the
    /// numbers of samples that have and that are predicted to have a class.
    pub covariance: i128,
    /// The square of all samples, less the squares of the numbers of samples
    /// predicted to have a class.
    pub predicted_spread: i128,
    /// The square of all samples, less the squares of the numbers of samples
    /// that have a class.
    pub actual_spread: i128,
}

/// For each of `nbr_classes` classes, how many samples have it.
pub open spec fn histogram_of(classes: Seq<usize>, nbr_classes: nat) -> Seq<usize> {
    Seq::new(nbr_classes, |k: int| count_class(classes, k, classes.len()) as usize)
}

/// `histogram` holds, for each class, how many of the first `n` samples have
/// it.
pub open spec fn is_histogram(histogram: Seq<usize>, classes: Seq<usize>, n: nat) -> bool {
    forall|k: int| 0 <= k < histogram.len() ==> (#[trigger] histogram[k]) == count_class(classes, k, n)
}

/// No more samples have a class than there are.
pub proof fn lemma_count_class_bound(classes: Seq<usize>, k: int, n: nat)
    ensures
        count_class(classes, k, n) <= n,
    decreases n,
{
    if n > 0 {
        lemma_count_class_bound(classes, k, (n - 1) as nat);
    }
}

/// The products of two histograms of `n` samples add up to at most `k` times
/// the square of `n`.
pub proof fn lemma_histogram_product_bound(a: Seq<usize>, b: Seq<usize>, k: nat, n: nat)
    requires
        k <= a.len(),
        k <= b.len(),
        forall|i: int| 0 <= i < a.len() ==> (#[trigger] a[i]) <= n,
        forall|i: int| 0 <= i < b.len() ==> (#[trigger] b[i]) <= n,
    ensures
        0 <= histogram_product(a, b, k) <= k * (n * n),
    decreases k,
{
    if k > 0 {
        lemma_histogram_product_bound(a, b, (k - 1) as nat, n);
        let x = a[k - 1] as int;
        let y = b[k - 1] as int;
        assert(0 <= x * y <= n * n) by (nonlinear_arith)
            requires
                0 <= x <= n,
                0 <= y <= n,
        ;
        assert((k - 1) * (n * n) + n * n == k * (n * n)) by (nonlinear_arith);
    }
}

/// The histogram of the classes of the samples, over `nbr_classes` classes.
pub fn class_histogram(classes: &Vec<usize>, nbr_classes: usize) -> (histogram: Vec<usize>)
    requires
        forall|i: int| 0 <= i < classes@.len() ==> (#[trigger] classes@[i]) < nbr_classes,
    ensures
        histogram@ == histogram_of(classes@, nbr_classes as nat),
        forall|k: int| 0 <= k < histogram@.len() ==> (#[trigger] histogram@[k]) <= classes@.len(),
{
    let mut histogram: Vec<usize> = Vec::with_capacity(nbr_classes);
    let mut k: usize = 0;
    while k < nbr_classes
        invariant
            k <= nbr_classes,
            histogram@.len() == k,
            forall|j: int| 0 <= j < k ==> histogram@[j] == 0,
        decreases nbr_classes - k,
    {
        histogram.push(0);
        k += 1;
    }
    let mut i: usize = 0;
    while i < classes.len()
        invariant
            forall|j: int| 0 <= j < classes@.len() ==> (#[trigger] classes@[j]) < nbr_classes,
            i <= classes@.len(),
            histogram@.len() == nbr_classes,
            is_histogram(histogram@, classes@, i as nat),
        decreases classes@.len() - i,
    {
        let class = classes[i];
        proof {
            lemma_count_class_bound(classes@, class as int, i as nat);
        }
        let ghost before = histogram@;
        let count = histogram[class];
        histogram[class] = count + 1;
        proof {
            assert forall|k: int| 0 <= k < histogram@.len() implies (#[trigger] histogram@[k]) == count_class(
                classes@,
                k,
                (i + 1) as nat,
            ) by {
                assert(before[k] == count_class(classes@, k, i as nat));
            }
        }
        i += 1;
    }
    proof {
        assert forall|k: int| 0 <= k < histogram@.len() implies (#[trigger] histogram@[k]) <= classes@.len()
            && histogram@[k] == histogram_of(classes@, nbr_classes as nat)[k] by {
            lemma_count_class_bound(classes@, k, classes@.len());
        }
        assert(histogram@ =~= histogram_of(classes@, nbr_classes as nat));
    }
    histogram
}

/// The correct samples times all samples, less the products of the numbers
/// of samples that have and that are predicted to have a class.
pub open spec fn spec_covariance(predicted: Seq<usize>, actual: Seq<usize>, nbr_classes: nat) -> int {
    count_correct(predicted, actual, predicted.len()) * predicted.len() - histogram_product(
        histogram_of(actual, nbr_classes),
        histogram_of(predicted, nbr_classes),
        nbr_classes,
    )
}

/// The square of all samples, less the squares of the numbers of samples of
/// each class.
pub open spec fn spec_spread(classes: Seq<usize>, nbr_classes: nat) -> int {
    classes.len() * classes.len() - histogram_product(
        histogram_of(classes, nbr_classes),
        histogram_of(classes, nbr_classes),
        nbr_classes,
    )
}

/// The whole numbers of the multi-class correlation score, from the class
/// that each sample is predicted to have and the class that it has.
pub fn correlation_counts(predicted: &Vec<usize>, actual: &Vec<usize>, nbr_classes: usize) -> (r:
    CorrelationCounts)
    requires
        predicted@.len() == actual@.len(),
        predicted@.len() <= 0xffff_ffff,
        nbr_classes <= 0xffff_ffff,
        forall|i: int| 0 <= i < predicted@.len() ==> (#[trigger] predicted@[i]) < nbr_classes,
        forall|i: int| 0 <= i < actual@.len() ==> (#[trigger] actual@[i]) < nbr_classes,
    ensures
        r.covariance == spec_covariance(predicted@, actual@, nbr_classes as nat),
        r.predicted_spread == spec_spread(predicted@, nbr_classes as nat),
        r.actual_spread == spec_spread(actual@, nbr_classes as nat),
{
    let n = predicted.len();
    let pk = class_histogram(predicted, nbr_classes);
    let tk = class_histogram(actual, nbr_classes);
    let mut correct: usize = 0;
    let mut i: usize = 0;
    while i < n
        invariant
            n == predicted@.len(),
            n == actual@.len(),
            i <= n,
            correct == count_correct(predicted@, actual@, i as nat),
            correct <= i,
        decreases n - i,
    {
        if predicted[i] == actual[i] {
            correct += 1;
        }
        i += 1;
    }
    let mut mixed: i128 = 0;
    let mut predicted_squares: i128 = 0;
    let mut actual_squares: i128 = 0;
    let mut k: usize = 0;
    while k < nbr_classes
        invariant
            n <= 0xffff_ffff,
            nbr_classes <= 0xffff_ffff,
            pk@.len() == nbr_classes,
            tk@.len() == nbr_classes,
            forall|j: int| 0 <= j < pk@.len() ==> (#[trigger] pk@[j]) <= n,
            forall|j: int| 0 <= j < tk@.len() ==> (#[trigger] tk@[j]) <= n,
            k <= nbr_classes,
            mixed == histogram_product(tk@, pk@, k as nat),
            predicted_squares == histogram_product(pk@, pk@, k as nat),
            actual_squares == histogram_product(tk@, tk@, k as nat),
        decreases nbr_classes - k,
    {
        proof {
            lemma_histogram_product_bound(tk@, pk@, k as nat, n as nat);
            lemma_histogram_product_bound(pk@, pk@, k as nat, n as nat);
            lemma_histogram_product_bound(tk@, tk@, k as nat, n as nat);
            lemma_histogram_product_bound(tk@, pk@, (k + 1) as nat, n as nat);
            lemma_histogram_product_bound(pk@, pk@, (k + 1) as nat, n as nat);
            lemma_histogram_product_bound(tk@, tk@, (k + 1) as nat, n as nat);
            assert((k + 1) * (n * n) <= 0xffff_ffff * (0xffff_ffff * 0xffff_ffff)) by (nonlinear_arith)
                requires
                    0 <= k + 1 <= 0xffff_ffff,
                    0 <= n <= 0xffff_ffff,
            ;
        }
        let p = pk[k] as i128;
        let t = tk[k] as i128;
        assert(0 <= t * p <= 0xffff_ffff * 0xffff_ffff) by (nonlinear_arith)
            requires
                0 <= t <= 0xffff_ffff,
                0 <= p <= 0xffff_ffff,
        ;
        assert(0 <= p * p <= 0xffff_ffff * 0xffff_ffff) by (nonlinear_arith)
            requires
                0 <= p <= 0xffff_ffff,
        ;
        assert(0 <= t * t <= 0xffff_ffff * 0xffff_ffff) by (nonlinear_arith)
            requires
                0 <= t <= 0xffff_ffff,
        ;
        mixed = mixed + t * p;
        predicted_squares = predicted_squares + p * p;
        actual_squares = actual_squares + t * t;
        k += 1;
    }
    proof {
        lemma_histogram_product_bound(tk@, pk@, nbr_classes as nat, n as nat);
        lemma_histogram_product_bound(pk@, pk@, nbr_classes as nat, n as nat);
        lemma_histogram_product_bound(tk@, tk@, nbr_classes as nat, n as nat);
        assert(nbr_classes * (n * n) <= 0xffff_ffff * (0xffff_ffff * 0xffff_ffff)) by (nonlinear_arith)
            requires
                0 <= nbr_classes <= 0xffff_ffff,
                0 <= n <= 0xffff_ffff,
        ;
    }
    let samples = n as i128;
    let hits = correct as i128;
    assert(0 <= hits * samples <= 0xffff_ffff * 0xffff_ffff) by (nonlinear_arith)
        requires
            0 <= hits <= samples,
            samples <= 0xffff_ffff,
    ;
    assert(0 <= samples * samples <= 0xffff_ffff * 0xffff_ffff) by (nonlinear_arith)
        requires
            0 <= samples <= 0xffff_ffff,
    ;
    let r = CorrelationCounts {
        covariance: hits * samples - mixed,
        predicted_spread: samples * samples - predicted_squares,
        actual_spread: samples * samples - actual_squares,
    };
    r
}

} // verus!
