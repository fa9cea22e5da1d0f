use vstd::prelude::*;

verus! {

/// The elements of `from` that `other` lacks, in the order of `from`.
pub open spec fn lacking(from: Seq<usize>, other: Seq<usize>) -> Seq<usize> {
    from.filter(|x: usize| !other.contains(x))
}

/// How a candidate's primes differ from the baseline's.
#[derive(Debug, PartialEq, Eq)]
pub struct VerificationReport {
    /// Primes of the baseline that the candidate did not find.
    pub missing: Vec<usize>,
    /// Numbers that the candidate found but the baseline does not hold.
    pub spurious: Vec<usize>,
}

impl VerificationReport {
    /// The candidate matched the baseline: nothing missing, nothing spurious.
    pub fn is_clean(&self) -> (r: bool)
        ensures
            r == (self.missing@.len() == 0 && self.spurious@.len() == 0),
    {
        self.missing.len() == 0 && self.spurious.len() == 0
    }
}

/// `x` occurs in `v`.
fn holds(v: &Vec<usize>, x: usize) -> (r: bool)
    ensures
        r == v@.contains(x),
{
    let mut i: usize = 0;
    while i < v.len()
        invariant
            i <= v.len(),
            forall|j: int| 0 <= j < i ==> v@[j] != x,
        decreases v.len() - i,
    {
        if v[i] == x {
            return true;
        }
        i = i + 1;
    }
    false
}

/// The elements of `from` that `other` lacks, in the order of `from`.
fn difference(from: &Vec<usize>, other: &Vec<usize>) -> (r: Vec<usize>)
    ensures
        r@ == lacking(from@, other@),
{
    let mut out: Vec<usize> = Vec::new();
    let mut i: usize = 0;
    while i < from.len()
        invariant
            i <= from.len(),
            out@ == lacking(from@.take(i as int), other@),
        decreases from.len() - i,
    {
        let x = from[i];
        proof {
            let pre = from@.take(i as int);
            assert(from@.take(i + 1).drop_last() =~= pre);
            assert(from@.take(i + 1).last() == x);
            reveal(Seq::filter);
        }
        if !holds(other, x) {
            out.push(x);
        }
        i = i + 1;
    }
    assert(from@.take(from.len() as int) =~= from@);
    out
}

/// Compares a candidate's primes with the baseline's: `missing` holds the baseline's
/// entries that the candidate lacks, `spurious` the candidate's entries that the
/// baseline lacks, each in the order of the list it comes from.
pub fn verify(baseline: &Vec<usize>, candidate: &Vec<usize>) -> (r: VerificationReport)
    ensures
        r.missing@ == lacking(baseline@, candidate@),
        r.spurious@ == lacking(candidate@, baseline@),
{
    VerificationReport { missing: difference(baseline, candidate), spurious: difference(candidate, baseline) }
}

/// Comparing any list with itself reports nothing missing and nothing spurious.
pub proof fn lemma_verify_self_is_clean(s: Seq<usize>)
    ensures
        lacking(s, s).len() == 0,
{
    let pred = |x: usize| !s.contains(x);
    assert forall|i: int| 0 <= i < s.len() implies #[trigger] s[i] == s[i] && !pred(s[i]) by {
        assert(s.contains(s[i]));
    }
    assert(s.all(|x: usize| !pred(x)));
    s.lemma_all_neg_filter_empty(pred);
}

/// Whatever `lacking(from, other)` holds comes from `from` and is not in `other`.
proof fn lemma_lacking_members(from: Seq<usize>, other: Seq<usize>, x: usize)
    requires
        lacking(from, other).contains(x),
    ensures
        from.contains(x),
        !other.contains(x),
    decreases from.len(),
{
    reveal(Seq::filter);
    let rest = from.drop_last();
    if lacking(rest, other).contains(x) {
        lemma_lacking_members(rest, other, x);
        let i = choose|i: int| 0 <= i < rest.len() && rest[i] == x;
        assert(from[i] == x);
    } else {
        assert(x == from.last());
    }
}

/// An entry is reported missing exactly when the baseline holds it and the candidate
/// does not, and spurious exactly when the candidate holds it and the baseline does not.
pub proof fn lemma_verify_reports_differences(baseline: Seq<usize>, candidate: Seq<usize>, x: usize)
    ensures
        lacking(baseline, candidate).contains(x) <==> (baseline.contains(x) && !candidate.contains(x)),
        lacking(candidate, baseline).contains(x) <==> (candidate.contains(x) && !baseline.contains(x)),
{
    lemma_lacking_direction(baseline, candidate, x);
    lemma_lacking_direction(candidate, baseline, x);
}

/// Membership in `lacking(from, other)`, both ways.
proof fn lemma_lacking_direction(from: Seq<usize>, other: Seq<usize>, x: usize)
    ensures
        lacking(from, other).contains(x) <==> (from.contains(x) && !other.contains(x)),
{
    if lacking(from, other).contains(x) {
        lemma_lacking_members(from, other, x);
    }
    if from.contains(x) && !other.contains(x) {
        let i = choose|i: int| 0 <= i < from.len() && from[i] == x;
        from.lemma_filter_contains(|y: usize| !other.contains(y), i);
    }
}

} // verus!
