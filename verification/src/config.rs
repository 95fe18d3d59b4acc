//! The fixed settings of a crawl.
use vstd::prelude::*;

verus! {

/// Number of languages requested for each repository.
pub const NUM_LANGUAGES: i64 = 10;

/// Edge length, in pixels, of the owner avatar that is requested.
pub const AVATAR_SIZE: i64 = 80;

/// Page size of one search request.
pub const NUM_REPOSITORIES_PER_REQUEST: i64 = 50;

/// A repository with fewer issues than this is not collected.
pub const MIN_NUM_ISSUES: i64 = 10;

/// A crawl stops as soon as it holds at least this many repositories.
pub const NUM_REPOSITORIES: usize = 20;

/// A crawl stops after this many page attempts, whatever it holds.
pub const NUM_RETRIES: i64 = 100;

/// The status with which the search service answers when its rate limit is
/// exceeded.
pub const RATE_LIMITED: u16 = 403;

/// The status of a page that was served.
pub const SUCCESS: u16 = 200;

/// The issue labels that mark an issue as fit for a newcomer.
pub const LABELS: [&'static str; 27] = [
    "help wanted",
    "beginner",
    "beginners",
    "easy",
    "Good First Bug",
    "starter",
    "status: ideal-for-contribution",
    "low-hanging-fruit",
    "E-easy",
    "newbie",
    "easy fix",
    "easy-fix",
    "beginner friendly",
    "easy-pick",
    "Good for New Contributors",
    "first-timers-only",
    "contribution-starter",
    "good for beginner",
    "starter bug",
    "good-for-beginner",
    "your-first-pr",
    "first timers only",
    "first time contributor",
    "up-for-grabs",
    "good first issue",
    "Contribute: Good First Issue",
    "D - easy",
];

/// The label vocabulary as a sequence of texts, in the order of `LABELS`.
pub open spec fn vocabulary() -> Seq<Seq<char>> {
    Seq::new(27, |i: int| LABELS[i]@)
}

/// The label vocabulary as owned strings, in the order of `LABELS`.
pub fn labels() -> (v: Vec<String>)
    ensures
        v.deep_view() == vocabulary(),
{
    let mut v: Vec<String> = Vec::new();
    let mut i: usize = 0;
    while i < 27
        invariant
            i <= 27,
            v.len() == i,
            forall|k: int| 0 <= k < i ==> (#[trigger] v[k])@ == LABELS[k]@,
        decreases 27 - i,
    {
        v.push(String::from_str(LABELS[i]));
        i = i + 1;
    }
    assert(v.deep_view() == vocabulary());
    v
}

} // verus!
