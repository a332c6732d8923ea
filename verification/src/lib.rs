//! Matching engine that pairs survey participants with the participant whose
//! answers are most opposite.
//!
//! Core concepts:
//! - [`User`]: a participant identified by a token, with answers on a 1-7 scale.
//! - [`Match`]: a committed pairing of two participants and its opposition score.
//! - [`ScoringStrategy`]: pluggable ways to compute "opposite-ness".
//! - [`GreedyMatcher`]: the greedy maximum-opposition pairing algorithm.
//!
//! Scores are exact fixed-point numbers in ten-thousandths: a score of `s`
//! stands for the real value `s / 10000`. Per-question weights and conviction
//! multipliers are fixed-point hundredths (`100` stands for `1.0`). This
//! keeps every score an integer that contracts can speak about exactly.

use vstd::prelude::*;

pub mod matching;
pub mod scoring;

pub use matching::GreedyMatcher;
pub use scoring::EuclideanDistanceScorer;
pub use scoring::PolarizationScorer;
pub use scoring::SimpleDifferenceScorer;
pub use scoring::WeightedScorer;

verus! {

/// Every response lies on the closed 1-7 survey scale.
pub open spec fn valid_responses(s: Seq<i32>) -> bool {
    forall|k: int| 0 <= k < s.len() ==> 1 <= #[trigger] s[k] <= 7
}

/// A participant and their questionnaire responses.
///
/// Each participant has a unique identifier and a vector of responses,
/// one per question, each on the closed 1-7 scale.
#[derive(Debug, Clone)]
pub struct User {
    /// Unique participant identifier.
    pub id: String,

    /// Questionnaire responses; every value lies between 1 and 7.
    pub responses: Vec<i32>,
}

impl User {
    /// All responses lie on the 1-7 scale. `User::new` establishes this and
    /// every scoring function requires it.
    pub open spec fn wf(self) -> bool {
        valid_responses(self.responses@)
    }

    /// Create a participant, validating that every response is between 1 and 7.
    ///
    /// Returns the participant exactly when all responses are in range, and a
    /// descriptive error otherwise.
    pub fn new(id: String, responses: Vec<i32>) -> (r: Result<User, String>)
        ensures
            r is Ok <==> (forall|k: int| 0 <= k < responses@.len() ==> 1 <= #[trigger] responses@[k] <= 7),
            r matches Ok(u) ==> u.id@ == id@ && u.responses@ == responses@ && u.wf(),
            r matches Err(e) ==> e@ == "All responses must be between 1 and 7"@,
    {
        let mut k: usize = 0;
        while k < responses.len()
            invariant
                0 <= k <= responses@.len(),
                forall|m: int| 0 <= m < k ==> 1 <= #[trigger] responses@[m] <= 7,
            decreases responses@.len() - k,
        {
            let v = responses[k];
            if v < 1 || v > 7 {
                return Err(String::from_str("All responses must be between 1 and 7"));
            }
            k = k + 1;
        }
        Ok(User { id, responses })
    }

    /// The number of questions this participant answered.
    pub fn num_questions(&self) -> (n: usize)
        ensures
            n == self.responses@.len(),
    {
        self.responses.len()
    }
}

/// A committed pairing of two participants.
///
/// Holds both participant identifiers and the opposition score that produced
/// the pairing (higher means more opposite). The meaning of the score depends
/// on the scoring strategy that computed it; scores of different strategies
/// are not comparable.
#[derive(Debug, Clone)]
pub struct Match {
    /// First participant's identifier.
    pub user1_id: String,

    /// Second participant's identifier.
    pub user2_id: String,

    /// Opposition score, in ten-thousandths (a value of `10000` stands for
    /// a real score of `1.0`).
    pub score: u64,
}

impl Match {
    /// Create a pairing of two participants with the score that justified it.
    pub fn new(user1_id: String, user2_id: String, score: u64) -> (m: Match)
        ensures
            m.user1_id@ == user1_id@,
            m.user2_id@ == user2_id@,
            m.score == score,
    {
        Match { user1_id, user2_id, score }
    }
}

/// A way of measuring how opposite two participants' opinions are.
///
/// An implementation carries a mathematical description of its score
/// (`spec_score`, in ten-thousandths) and must prove the laws every
/// conforming strategy owes its callers: the score is symmetric in the two
/// participants, identical response vectors score zero, and scores of valid
/// responses are non-negative and fit in `u64`. `compatible` says which
/// question counts the strategy can score without its fixed-point arithmetic
/// leaving `u64` (and, for parameterized strategies, which counts its
/// parameters fit).
pub trait ScoringStrategy: Sized {
    /// The exact opposition score, in ten-thousandths, as a mathematical
    /// function of the two response vectors.
    spec fn spec_score(&self, a: Seq<i32>, b: Seq<i32>) -> int;

    /// The strategy can score response vectors of length `len`: any
    /// parameter vector matches that length, and the resulting score of
    /// valid responses fits in `u64`.
    spec fn compatible(&self, len: int) -> bool;

    /// The strategy's display name, as a sequence of characters.
    spec fn spec_name(&self) -> Seq<char>;

    /// Compute the opposition score between two participants.
    ///
    /// Higher scores mean more opposite opinions. Both participants must have
    /// answered the same number of questions; mismatched survey versions are
    /// a caller bug, excluded here rather than recovered from.
    fn calculate_score(&self, user1: &User, user2: &User) -> (r: u64)
        requires
            user1.wf(),
            user2.wf(),
            user1.responses@.len() == user2.responses@.len(),
            self.compatible(user1.responses@.len() as int),
        ensures
            r as int == self.spec_score(user1.responses@, user2.responses@),
    ;

    /// A human-readable name for this strategy.
    fn name(&self) -> (r: &'static str)
        ensures
            r@ == self.spec_name(),
    ;

    /// The score does not depend on the order of the two participants.
    proof fn lemma_symmetric(&self, a: Seq<i32>, b: Seq<i32>)
        requires
            a.len() == b.len(),
        ensures
            self.spec_score(a, b) == self.spec_score(b, a),
    ;

    /// Identical response vectors always score zero.
    proof fn lemma_identical_zero(&self, a: Seq<i32>)
        ensures
            self.spec_score(a, a) == 0,
    ;

    /// Opposition scores are never negative, and whenever the strategy is
    /// compatible with the question count, the score of valid responses
    /// fits in `u64`.
    proof fn lemma_score_bounds(&self, a: Seq<i32>, b: Seq<i32>)
        requires
            valid_responses(a),
            valid_responses(b),
            a.len() == b.len(),
            self.compatible(a.len() as int),
        ensures
            0 <= self.spec_score(a, b) <= u64::MAX as int,
    ;
}

} // verus!
