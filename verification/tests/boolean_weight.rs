use stacker::boolean_weight::{
    scorer_union, BooleanWeight, Combiner, ComplexPlan, Occur, Positive, ScorerPlan, UnionPlan,
};

fn weight(occurs: &[Occur], scoring_enabled: bool) -> BooleanWeight<u32> {
    let weights: Vec<(Occur, u32)> = occurs
        .iter()
        .enumerate()
        .map(|(place, occur)| (*occur, place as u32 * 10))
        .collect();
    BooleanWeight::new(weights, scoring_enabled)
}

#[test]
fn test_union_of_one_scorer_is_that_scorer() {
    assert_eq!(scorer_union(&[true]), UnionPlan::Single);
    assert_eq!(scorer_union(&[false]), UnionPlan::Single);
}

#[test]
fn test_union_of_term_scorers() {
    assert_eq!(scorer_union(&[true, true]), UnionPlan::TermUnion);
    assert_eq!(scorer_union(&[true, true, true, true]), UnionPlan::TermUnion);
}

#[test]
fn test_union_of_mixed_scorers() {
    assert_eq!(scorer_union(&[true, false]), UnionPlan::Union);
    assert_eq!(scorer_union(&[false, true, true]), UnionPlan::Union);
    assert_eq!(scorer_union(&[true, true, false]), UnionPlan::Union);
    assert_eq!(scorer_union(&[false, false]), UnionPlan::Union);
}

#[test]
fn test_scorer_of_no_clause() {
    assert_eq!(weight(&[], true).scorer(), ScorerPlan::Empty);
    assert_eq!(weight(&[], false).scorer(), ScorerPlan::Empty);
}

#[test]
fn test_scorer_of_one_clause() {
    assert_eq!(weight(&[Occur::Must], true).scorer(), ScorerPlan::Single);
    assert_eq!(weight(&[Occur::Should], false).scorer(), ScorerPlan::Single);
    assert_eq!(weight(&[Occur::MustNot], true).scorer(), ScorerPlan::Empty);
}

#[test]
fn test_scorer_of_several_clauses() {
    let occurs = [Occur::Must, Occur::Should];
    assert_eq!(
        weight(&occurs, true).scorer(),
        ScorerPlan::Complex(Combiner::SumWithCoords)
    );
    assert_eq!(
        weight(&occurs, false).scorer(),
        ScorerPlan::Complex(Combiner::DoNothing)
    );
}

#[test]
fn test_weight_by_place() {
    let clauses = weight(&[Occur::Must, Occur::Should, Occur::MustNot], true);
    assert_eq!(*clauses.weight(0), 0);
    assert_eq!(*clauses.weight(2), 20);
}

#[test]
fn test_groups_keep_the_order_of_the_clauses() {
    let clauses = weight(
        &[
            Occur::Should,
            Occur::Must,
            Occur::MustNot,
            Occur::Should,
            Occur::Must,
            Occur::Should,
        ],
        true,
    );
    let (groups, plan) = clauses.complex_scorer();
    assert_eq!(groups.should, vec![0, 3, 5]);
    assert_eq!(groups.must, vec![1, 4]);
    assert_eq!(groups.must_not, vec![2]);
    assert_eq!(plan, ComplexPlan::Excluding(Positive::RequiredOptional));
}

#[test]
fn test_complex_plans() {
    let must_and_should = [Occur::Must, Occur::Should];
    assert_eq!(
        weight(&must_and_should, true).complex_scorer().1,
        ComplexPlan::Only(Positive::RequiredOptional)
    );
    assert_eq!(
        weight(&must_and_should, false).complex_scorer().1,
        ComplexPlan::Only(Positive::Must)
    );
    assert_eq!(
        weight(&[Occur::Must, Occur::Must], true).complex_scorer().1,
        ComplexPlan::Only(Positive::Must)
    );
    assert_eq!(
        weight(&[Occur::Should, Occur::Should], true).complex_scorer().1,
        ComplexPlan::Only(Positive::Should)
    );
    assert_eq!(
        weight(&[Occur::Should, Occur::MustNot], false).complex_scorer().1,
        ComplexPlan::Excluding(Positive::Should)
    );
    assert_eq!(
        weight(&[Occur::Must, Occur::MustNot], true).complex_scorer().1,
        ComplexPlan::Excluding(Positive::Must)
    );
    assert_eq!(
        weight(&[Occur::MustNot, Occur::MustNot], true).complex_scorer().1,
        ComplexPlan::Empty
    );
}
