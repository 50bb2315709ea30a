//! The shape of the scorer of a boolean query: which of the scorers of its
//! clauses are united, intersected and excluded. The scorers themselves
//! belong to the query engine.

use vstd::prelude::*;

verus! {

/// How a clause of a boolean query takes part in it.
#[derive(Clone, Copy, Debug, PartialEq, Eq, Structural)]
pub enum Occur {
    /// A document may match the clause, and scores higher if it does.
    Should,
    /// A document has to match the clause.
    Must,
    /// A document must not match the clause.
    MustNot,
}

/// How the scores of the clauses are combined.
#[derive(Clone, Copy, Debug, PartialEq, Eq, Structural)]
pub enum Combiner {
    /// The scores are summed and weighted by the number of clauses matched.
    SumWithCoords,
    /// No score is computed.
    DoNothing,
}

/// How the scorers of one group of clauses become one scorer.
#[derive(Clone, Copy, Debug, PartialEq, Eq, Structural)]
pub enum UnionPlan {
    /// The group has one scorer, which is taken as it is.
    Single,
    /// Every scorer of the group scores a term: they are united as such.
    TermUnion,
    /// The scorers are united as scorers of any kind.
    Union,
}

/// The scorer that yields the documents of a query of several clauses.
#[derive(Clone, Copy, Debug, PartialEq, Eq, Structural)]
pub enum Positive {
    /// The intersection of the clauses that must match.
    Must,
    /// The union of the clauses that should match.
    Should,
    /// The intersection of the clauses that must match, scored with the
    /// help of the union of those that should.
    RequiredOptional,
}

/// The scorer of a query of several clauses.
#[derive(Clone, Copy, Debug, PartialEq, Eq, Structural)]
pub enum ComplexPlan {
    /// No clause yields documents: the scorer matches nothing.
    Empty,
    /// The positive scorer alone.
    Only(Positive),
    /// The positive scorer, without the documents of the union of the
    /// clauses that must not match.
    Excluding(Positive),
}

/// The scorer of a boolean query.
#[derive(Clone, Copy, Debug, PartialEq, Eq, Structural)]
pub enum ScorerPlan {
    /// The scorer matches nothing.
    Empty,
    /// The scorer is that of the only clause.
    Single,
    /// The scorer is made of the scorers of the clauses, with this combiner.
    Complex(Combiner),
}

/// Whether every scorer of a group scores a term.
pub open spec fn all_term_scorers(is_term_scorer: Seq<bool>) -> bool {
    forall|at: int| 0 <= at < is_term_scorer.len() ==> is_term_scorer[at]
}

/// How a group of scorers is united, given of each whether it scores a term.
pub open spec fn union_plan(is_term_scorer: Seq<bool>) -> UnionPlan {
    if is_term_scorer.len() == 1 {
        UnionPlan::Single
    } else if all_term_scorers(is_term_scorer) {
        UnionPlan::TermUnion
    } else {
        UnionPlan::Union
    }
}

/// Decides how the scorers of one group are united. The group is not empty.
pub fn scorer_union(is_term_scorer: &[bool]) -> (plan: UnionPlan)
    requires
        is_term_scorer@.len() > 0,
    ensures
        plan == union_plan(is_term_scorer@),
{
    if is_term_scorer.len() == 1 {
        return UnionPlan::Single;
    }
    let mut at: usize = 0;
    while at < is_term_scorer.len()
        invariant
            is_term_scorer@.len() != 1,
            at <= is_term_scorer@.len(),
            forall|seen: int| 0 <= seen < at ==> is_term_scorer@[seen],
        decreases is_term_scorer@.len() - at,
    {
        if !is_term_scorer[at] {
            assert(!is_term_scorer@[at as int]);
            return UnionPlan::Union;
        }
        at += 1;
    }
    UnionPlan::TermUnion
}

/// The places of the clauses of `occurs` that take part as `occur`, in
/// rising order.
pub open spec fn places_of(occurs: Seq<Occur>, occur: Occur) -> Seq<usize>
    decreases occurs.len(),
{
    if occurs.len() == 0 {
        Seq::empty()
    } else if occurs.last() == occur {
        places_of(occurs.drop_last(), occur).push((occurs.len() - 1) as usize)
    } else {
        places_of(occurs.drop_last(), occur)
    }
}

/// The scorer of a query of several clauses, given which groups of
/// clauses it has.
pub open spec fn complex_plan(
    has_should: bool,
    has_must: bool,
    has_must_not: bool,
    scoring_enabled: bool,
) -> ComplexPlan {
    if !has_should && !has_must {
        ComplexPlan::Empty
    } else {
        let positive = if has_should && has_must {
            if scoring_enabled {
                Positive::RequiredOptional
            } else {
                Positive::Must
            }
        } else if has_must {
            Positive::Must
        } else {
            Positive::Should
        };
        if has_must_not {
            ComplexPlan::Excluding(positive)
        } else {
            ComplexPlan::Only(positive)
        }
    }
}

/// The scorer of a boolean query, given how its clauses take part.
pub open spec fn scorer_plan(occurs: Seq<Occur>, scoring_enabled: bool) -> ScorerPlan {
    if occurs.len() == 0 {
        ScorerPlan::Empty
    } else if occurs.len() == 1 {
        if occurs[0] == Occur::MustNot {
            ScorerPlan::Empty
        } else {
            ScorerPlan::Single
        }
    } else if scoring_enabled {
        ScorerPlan::Complex(Combiner::SumWithCoords)
    } else {
        ScorerPlan::Complex(Combiner::DoNothing)
    }
}

/// The clauses of a query of several clauses, by the way they take part.
pub struct Groups {
    /// The places of the clauses that should match.
    pub should: Vec<usize>,
    /// The places of the clauses that must match.
    pub must: Vec<usize>,
    /// The places of the clauses that must not match.
    pub must_not: Vec<usize>,
}

/// A boolean query over the weights of its clauses.
pub struct BooleanWeight<W> {
    weights: Vec<(Occur, W)>,
    scoring_enabled: bool,
}

impl<W> BooleanWeight<W> {
    /// The clauses: how each takes part, and its weight.
    pub closed spec fn weights(&self) -> Seq<(Occur, W)> {
        self.weights@
    }

    /// Whether scores are computed.
    pub closed spec fn scoring_enabled(&self) -> bool {
        self.scoring_enabled
    }

    /// How each clause takes part.
    pub open spec fn occurs(&self) -> Seq<Occur> {
        Seq::new(self.weights().len(), |at: int| self.weights()[at].0)
    }

    /// The query of the given clauses.
    pub fn new(weights: Vec<(Occur, W)>, scoring_enabled: bool) -> (weight: BooleanWeight<W>)
        ensures
            weight.weights() == weights@,
            weight.scoring_enabled() == scoring_enabled,
    {
        BooleanWeight { weights, scoring_enabled }
    }

    /// The weight of the clause at `place`.
    pub fn weight(&self, place: usize) -> (weight: &W)
        requires
            place < self.weights().len(),
        ensures
            *weight == self.weights()[place as int].1,
    {
        &self.weights[place].1
    }

    /// Decides of what kind the scorer of the query is.
    pub fn scorer(&self) -> (plan: ScorerPlan)
        ensures
            plan == scorer_plan(self.occurs(), self.scoring_enabled()),
    {
        if self.weights.len() == 0 {
            ScorerPlan::Empty
        } else if self.weights.len() == 1 {
            match self.weights[0].0 {
                Occur::MustNot => ScorerPlan::Empty,
                _ => ScorerPlan::Single,
            }
        } else if self.scoring_enabled {
            ScorerPlan::Complex(Combiner::SumWithCoords)
        } else {
            ScorerPlan::Complex(Combiner::DoNothing)
        }
    }

    /// Sorts the clauses by the way they take part, and decides how the
    /// scorers of the groups make the scorer of the query.
    pub fn complex_scorer(&self) -> (grouped: (Groups, ComplexPlan))
        ensures
            grouped.0.should@ == places_of(self.occurs(), Occur::Should),
            grouped.0.must@ == places_of(self.occurs(), Occur::Must),
            grouped.0.must_not@ == places_of(self.occurs(), Occur::MustNot),
            grouped.1 == complex_plan(
                grouped.0.should@.len() > 0,
                grouped.0.must@.len() > 0,
                grouped.0.must_not@.len() > 0,
                self.scoring_enabled(),
            ),
    {
        let mut should: Vec<usize> = Vec::new();
        let mut must: Vec<usize> = Vec::new();
        let mut must_not: Vec<usize> = Vec::new();
        let mut place: usize = 0;
        while place < self.weights.len()
            invariant
                place <= self.weights@.len(),
                should@ == places_of(self.occurs().take(place as int), Occur::Should),
                must@ == places_of(self.occurs().take(place as int), Occur::Must),
                must_not@ == places_of(self.occurs().take(place as int), Occur::MustNot),
            decreases self.weights@.len() - place,
        {
            proof {
                assert(self.occurs().take(place + 1).drop_last() =~= self.occurs().take(
                    place as int,
                ));
            }
            match self.weights[place].0 {
                Occur::Should => should.push(place),
                Occur::Must => must.push(place),
                Occur::MustNot => must_not.push(place),
            }
            place += 1;
        }
        proof {
            assert(self.occurs().take(place as int) =~= self.occurs());
        }
        let has_should = should.len() > 0;
        let has_must = must.len() > 0;
        let plan = if !has_should && !has_must {
            ComplexPlan::Empty
        } else {
            let positive = if has_should && has_must {
                if self.scoring_enabled {
                    Positive::RequiredOptional
                } else {
                    Positive::Must
                }
            } else if has_must {
                Positive::Must
            } else {
                Positive::Should
            };
            if must_not.len() > 0 {
                ComplexPlan::Excluding(positive)
            } else {
                ComplexPlan::Only(positive)
            }
        };
        (Groups { should, must, must_not }, plan)
    }
}

} // verus!
