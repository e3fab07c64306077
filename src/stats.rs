//! Statistics of a benchmark run over many programs.
use vstd::prelude::*;

verus! {

/// The outcome of one test on a program.
#[derive(Clone, Debug)]
pub struct TestResult {
    pub filename: String,
    pub passed: bool,
}

/// The outcome of translating, building and testing one program.
#[derive(Debug)]
pub struct ProgramEvalStats {
    pub program_name: String,
    pub translation_success: bool,
    pub rust_build_success: bool,
    pub total_tests: usize,
    pub passed_tests: usize,
    pub error_message: Option<String>,
    pub test_results: Vec<TestResult>,
}

impl ProgramEvalStats {
    /// Whether the program had an issue: a failed translation or build, no tests,
    /// or a test that did not pass.
    pub open spec fn spec_has_issues(&self) -> bool {
        !self.translation_success || !self.rust_build_success || self.total_tests == 0
            || self.passed_tests < self.total_tests
    }

    /// Whether the program had an issue.
    pub fn has_issues(&self) -> (r: bool)
        ensures
            r == self.spec_has_issues(),
    {
        !self.translation_success || !self.rust_build_success || self.total_tests == 0
            || self.passed_tests < self.total_tests
    }
}

/// Totals over all programs.
#[derive(Clone, Copy, PartialEq, Eq, Structural, Debug)]
pub struct SummaryStats {
    pub num_programs: usize,
    pub successful_translations: usize,
    pub successful_rust_builds: usize,
    pub total_tests: usize,
    pub total_passed_tests: usize,
}

/// How many of `results` translated successfully.
pub open spec fn count_translations(results: Seq<ProgramEvalStats>) -> nat
    decreases results.len(),
{
    if results.len() == 0 { 0 } else {
        count_translations(results.drop_last()) + if results.last().translation_success { 1nat } else { 0nat }
    }
}

/// How many of `results` built successfully.
pub open spec fn count_builds(results: Seq<ProgramEvalStats>) -> nat
    decreases results.len(),
{
    if results.len() == 0 { 0 } else {
        count_builds(results.drop_last()) + if results.last().rust_build_success { 1nat } else { 0nat }
    }
}

/// The number of tests over `results`.
pub open spec fn sum_tests(results: Seq<ProgramEvalStats>) -> nat
    decreases results.len(),
{
    if results.len() == 0 { 0 } else { sum_tests(results.drop_last()) + results.last().total_tests as nat }
}

/// The number of passed tests over `results`.
pub open spec fn sum_passed(results: Seq<ProgramEvalStats>) -> nat
    decreases results.len(),
{
    if results.len() == 0 { 0 } else { sum_passed(results.drop_last()) + results.last().passed_tests as nat }
}

proof fn lemma_counts_bounded(results: Seq<ProgramEvalStats>)
    ensures
        count_translations(results) <= results.len(),
        count_builds(results) <= results.len(),
    decreases results.len(),
{
    if results.len() > 0 {
        lemma_counts_bounded(results.drop_last());
    }
}

proof fn lemma_sums_monotone(results: Seq<ProgramEvalStats>, i: int)
    requires
        0 <= i <= results.len(),
    ensures
        sum_tests(results.subrange(0, i)) <= sum_tests(results),
        sum_passed(results.subrange(0, i)) <= sum_passed(results),
    decreases results.len() - i,
{
    if i < results.len() {
        lemma_sums_monotone(results, i + 1);
        assert(results.subrange(0, i + 1).drop_last() =~= results.subrange(0, i));
    } else {
        assert(results.subrange(0, i) =~= results);
    }
}

impl SummaryStats {
    /// The totals over `results`.
    pub fn from_results(results: &[ProgramEvalStats]) -> (r: SummaryStats)
        requires
            sum_tests(results@) <= usize::MAX,
            sum_passed(results@) <= usize::MAX,
        ensures
            r.num_programs == results@.len(),
            r.successful_translations == count_translations(results@),
            r.successful_rust_builds == count_builds(results@),
            r.total_tests == sum_tests(results@),
            r.total_passed_tests == sum_passed(results@),
    {
        let mut r = SummaryStats {
            num_programs: results.len(),
            successful_translations: 0,
            successful_rust_builds: 0,
            total_tests: 0,
            total_passed_tests: 0,
        };
        let mut i: usize = 0;
        while i < results.len()
            invariant
                i <= results@.len(),
                r.num_programs == results@.len(),
                sum_tests(results@) <= usize::MAX,
                sum_passed(results@) <= usize::MAX,
                r.successful_translations == count_translations(results@.subrange(0, i as int)),
                r.successful_rust_builds == count_builds(results@.subrange(0, i as int)),
                r.total_tests == sum_tests(results@.subrange(0, i as int)),
                r.total_passed_tests == sum_passed(results@.subrange(0, i as int)),
            decreases results@.len() - i,
        {
            let p = &results[i];
            proof {
                let s = results@.subrange(0, i + 1);
                assert(s.drop_last() =~= results@.subrange(0, i as int));
                lemma_counts_bounded(s);
                lemma_sums_monotone(results@, i + 1);
            }
            if p.translation_success {
                r.successful_translations = r.successful_translations + 1;
            }
            if p.rust_build_success {
                r.successful_rust_builds = r.successful_rust_builds + 1;
            }
            r.total_tests = r.total_tests + p.total_tests;
            r.total_passed_tests = r.total_passed_tests + p.passed_tests;
            i = i + 1;
        }
        assert(results@.subrange(0, i as int) =~= results@);
        r
    }
}

/// The positions, in order, of the programs that had an issue.
pub open spec fn failing_positions(results: Seq<ProgramEvalStats>) -> Seq<usize>
    decreases results.len(),
{
    if results.len() == 0 {
        Seq::empty()
    } else if results.last().spec_has_issues() {
        failing_positions(results.drop_last()).push((results.len() - 1) as usize)
    } else {
        failing_positions(results.drop_last())
    }
}

/// The positions, in order, of the programs that had an issue.
pub fn failing_programs(results: &[ProgramEvalStats]) -> (r: Vec<usize>)
    ensures
        r@ == failing_positions(results@),
{
    let mut r: Vec<usize> = Vec::new();
    let mut i: usize = 0;
    while i < results.len()
        invariant
            i <= results@.len(),
            r@ == failing_positions(results@.subrange(0, i as int)),
        decreases results@.len() - i,
    {
        assert(results@.subrange(0, i + 1).drop_last() =~= results@.subrange(0, i as int));
        if results[i].has_issues() {
            r.push(i);
        }
        i = i + 1;
    }
    assert(results@.subrange(0, i as int) =~= results@);
    r
}

} // verus!
