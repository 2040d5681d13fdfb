//! What a classifier decides about a request.

use vstd::prelude::*;

use crate::binary64::{Binary64, ONE};
use crate::model::ModelId;

verus! {

/// One target with the confidence placed in it.
#[derive(Debug, PartialEq)]
pub struct Score {
    pub target: ModelId,
    pub confidence: Binary64,
}

/// A classifier's decision.
#[derive(Debug, PartialEq)]
pub enum Classification {
    /// Usable scores.
    Scores(Vec<Score>),
    /// No usable decision; the surrounding router applies its fallback.
    Ambiguous(Vec<Score>),
}

/// What a classification holds.
pub enum Ruling {
    Scores(Seq<(Seq<char>, Binary64)>),
    Ambiguous(Seq<(Seq<char>, Binary64)>),
}

/// What several scores hold.
pub open spec fn scores_of(scores: Seq<Score>) -> Seq<(Seq<char>, Binary64)> {
    scores.map_values(|score: Score| (score.target@, score.confidence))
}

impl View for Classification {
    type V = Ruling;

    open spec fn view(&self) -> Ruling {
        match *self {
            Classification::Scores(scores) => Ruling::Scores(scores_of(scores@)),
            Classification::Ambiguous(scores) => Ruling::Ambiguous(scores_of(scores@)),
        }
    }
}

/// The decision for one target with full confidence.
pub open spec fn decides(target: Seq<char>) -> Ruling {
    Ruling::Scores(seq![(target, Binary64::of(ONE))])
}

/// The decision to leave the request to the fallback.
pub open spec fn abstains() -> Ruling {
    Ruling::Ambiguous(Seq::empty())
}

/// The decision for one target with full confidence.
pub fn decisive(target: &ModelId) -> (classification: Classification)
    ensures
        classification@ == decides(target@),
{
    let mut scores: Vec<Score> = Vec::new();
    scores.push(Score { target: target.clone(), confidence: Binary64::of(ONE) });
    assert(scores_of(scores@) =~= seq![(target@, Binary64::of(ONE))]);
    Classification::Scores(scores)
}

/// The decision to leave the request to the fallback.
pub fn abstention() -> (classification: Classification)
    ensures
        classification@ == abstains(),
{
    let scores: Vec<Score> = Vec::new();
    assert(scores_of(scores@) =~= Seq::<(Seq<char>, Binary64)>::empty());
    Classification::Ambiguous(scores)
}

/// The position of the score with the highest confidence, the first of equals; negative if there
/// is none.
pub open spec fn best_score(scores: Seq<(Seq<char>, Binary64)>) -> int
    decreases scores.len(),
{
    if scores.len() == 0 {
        -1
    } else {
        let best = best_score(scores.drop_last());
        if best < 0 || scores[best].1.less(scores.last().1) {
            scores.len() - 1
        } else {
            best
        }
    }
}

/// The target that a decision is for: the best-scored one of a usable decision.
pub open spec fn chosen(ruling: Ruling) -> Option<Seq<char>> {
    match ruling {
        Ruling::Scores(scores) => if best_score(scores) < 0 {
            None
        } else {
            Some(scores[best_score(scores)].0)
        },
        Ruling::Ambiguous(_) => None,
    }
}

/// There is a best score as soon as there is a score.
pub proof fn lemma_best_score(scores: Seq<(Seq<char>, Binary64)>)
    ensures
        -1 <= best_score(scores) < scores.len(),
        scores.len() > 0 ==> best_score(scores) >= 0,
    decreases scores.len(),
{
    if scores.len() > 0 {
        lemma_best_score(scores.drop_last());
    }
}

impl Classification {
    /// The best-scored target of a usable decision, the first of equals.
    pub fn choice(&self) -> (target: Option<&ModelId>)
        ensures
            match target {
                Some(target) => chosen(self@) == Some(target@),
                None => chosen(self@) is None,
            },
    {
        match self {
            Classification::Scores(scores) => {
                let ghost all = scores_of(scores@);
                let mut best: Option<usize> = None;
                let mut i: usize = 0;
                assert(all.take(0) =~= Seq::<(Seq<char>, Binary64)>::empty());
                while i < scores.len()
                    invariant
                        i <= scores@.len(),
                        all == scores_of(scores@),
                        match best {
                            Some(at) => at < i && at == best_score(all.take(i as int)),
                            None => best_score(all.take(i as int)) < 0,
                        },
                    decreases scores.len() - i,
                {
                    proof {
                        lemma_best_score(all.take(i as int));
                        assert(all.take(i + 1).drop_last() =~= all.take(i as int));
                        assert(all.take(i + 1).last() == all[i as int]);
                    }
                    let better = match best {
                        Some(at) => {
                            assert(all.take(i as int)[at as int] == all[at as int]);
                            assert(all.take(i + 1)[at as int] == all[at as int]);
                            scores[at].confidence.lt(scores[i].confidence)
                        },
                        None => true,
                    };
                    if better {
                        best = Some(i);
                    }
                    i = i + 1;
                }
                assert(all.take(i as int) =~= all);
                match best {
                    Some(at) => {
                        assert(all[at as int].0 == scores@[at as int].target@);
                        Some(&scores[at].target)
                    },
                    None => None,
                }
            },
            Classification::Ambiguous(_) => None,
        }
    }
}

/// The chosen target is scored at least as high as every other.
pub proof fn law_choice_is_the_best_score(scores: Seq<(Seq<char>, Binary64)>, i: int)
    requires
        0 <= i < scores.len(),
        forall|k: int| 0 <= k < scores.len() ==> !(#[trigger] scores[k]).1.nan(),
    ensures
        0 <= best_score(scores) < scores.len(),
        scores[i].1.at_most(scores[best_score(scores)].1),
        i < best_score(scores) ==> scores[i].1.less(scores[best_score(scores)].1),
    decreases scores.len(),
{
    lemma_best_score(scores);
    let front = scores.drop_last();
    lemma_best_score(front);
    assert(forall|k: int| 0 <= k < front.len() ==> #[trigger] front[k] == scores[k]);
    if i < front.len() {
        law_choice_is_the_best_score(front, i);
    }
}

/// A decision for a target is for that target alone, with full confidence; an abstention is for
/// none.
pub proof fn law_decisions_are_for_their_target(target: Seq<char>)
    ensures
        chosen(decides(target)) == Some(target),
        decides(target)->Scores_0.len() == 1,
        decides(target)->Scores_0[0].1 == Binary64::of(ONE),
        chosen(abstains()) is None,
        abstains() is Ambiguous,
{
    let scores = decides(target)->Scores_0;
    reveal_with_fuel(best_score, 2);
    assert(scores.drop_last() =~= Seq::<(Seq<char>, Binary64)>::empty());
}

/// An ambiguous classification is for no target, whatever its scores.
pub proof fn law_ambiguous_scores_choose_nothing(scores: Seq<(Seq<char>, Binary64)>)
    ensures
        chosen(Ruling::Ambiguous(scores)) is None,
        scores.len() > 0 ==> chosen(Ruling::Scores(scores)) is Some,
        scores.len() == 0 ==> chosen(Ruling::Scores(scores)) is None,
        chosen(Ruling::Scores(scores)) matches Some(target) ==> target == scores[best_score(
            scores,
        )].0,
{
    lemma_best_score(scores);
}

/// What a classification holds: its kind, and each score's target and confidence in order.
pub proof fn law_views_of_classifications(scores: Vec<Score>, i: int)
    ensures
        Classification::Scores(scores)@ == Ruling::Scores(scores_of(scores@)),
        Classification::Ambiguous(scores)@ == Ruling::Ambiguous(scores_of(scores@)),
        scores_of(scores@).len() == scores@.len(),
        0 <= i < scores@.len() ==> scores_of(scores@)[i] == (
            scores@[i].target@,
            scores@[i].confidence,
        ),
{
}

/// A further score becomes the best one only if the best so far is below it.
pub proof fn law_the_best_score_is_kept_unless_beaten(
    scores: Seq<(Seq<char>, Binary64)>,
    score: (Seq<char>, Binary64),
)
    ensures
        best_score(scores.push(score)) == if scores.len() == 0 || scores[best_score(
            scores,
        )].1.less(score.1) {
            scores.len() as int
        } else {
            best_score(scores)
        },
{
    lemma_best_score(scores);
    assert(scores.push(score).drop_last() =~= scores);
    if scores.len() > 0 {
        assert(scores.push(score)[best_score(scores)] == scores[best_score(scores)]);
    }
}

} // verus!
