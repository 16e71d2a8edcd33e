use type_chart::analysis::{
    absorb, analyze, coverage, record, report_if_matched, tally, Analysis, Match, BUCKET_COUNT,
    MATCH_SIZE, SELECTION_SIZE,
};
use type_chart::chart::{RelationKind, Type};
use type_chart::combinations::enumerate_combinations;
use type_chart::type_set::TypeSet;

fn kinds() -> [RelationKind; 4] {
    [
        RelationKind::EffectiveAgainst,
        RelationKind::IneffectiveAgainst,
        RelationKind::ResilientTo,
        RelationKind::WeakTo,
    ]
}

fn union_by_hand(members: &[Type], kind: RelationKind) -> usize {
    let mut seen: Vec<Type> = Vec::new();
    for m in members {
        for t in m.relations_of(kind) {
            if !seen.contains(t) {
                seen.push(*t);
            }
        }
    }
    seen.len()
}

#[test]
fn constants_are_those_of_the_analysis() {
    assert_eq!(SELECTION_SIZE, 5);
    assert_eq!(BUCKET_COUNT, 13);
    assert_eq!(MATCH_SIZE, 7);
}

#[test]
fn coverage_of_the_first_five_categories() {
    let members = [Type::Nature, Type::Air, Type::Water, Type::Light, Type::Energy];
    assert_eq!(coverage(&members, RelationKind::EffectiveAgainst), 7);
    assert_eq!(coverage(&members, RelationKind::WeakTo), 9);
}

#[test]
fn coverage_of_no_members_is_zero() {
    for kind in kinds() {
        assert_eq!(coverage(&[], kind), 0);
    }
}

#[test]
fn coverage_of_one_member_is_the_length_of_its_list() {
    assert_eq!(coverage(&[Type::Light], RelationKind::WeakTo), 1);
    assert_eq!(coverage(&[Type::Psi], RelationKind::IneffectiveAgainst), 6);
    assert_eq!(coverage(&[Type::Stone], RelationKind::EffectiveAgainst), 2);
    assert_eq!(coverage(&[Type::Ice], RelationKind::ResilientTo), 5);
}

#[test]
fn coverage_counts_a_shared_category_once() {
    assert_eq!(coverage(&[Type::Nature, Type::Chaos], RelationKind::EffectiveAgainst), 3);
    assert_eq!(coverage(&[Type::Nature, Type::Nature], RelationKind::EffectiveAgainst), 2);
}

#[test]
fn coverage_of_all_categories_is_at_most_twelve() {
    let all: [Type; 12] = Type::all();
    for kind in kinds() {
        assert_eq!(coverage(&all, kind), 12);
    }
}

#[test]
fn coverage_is_between_zero_and_twelve_for_every_selection() {
    let all: [Type; 12] = Type::all();
    for members in enumerate_combinations(&all, 5) {
        for kind in kinds() {
            let size: usize = coverage(&members, kind);
            assert!(size <= 12);
            assert_eq!(size, union_by_hand(&members, kind));
        }
    }
}

#[test]
fn a_selection_with_the_broadest_coverage_reaches_the_top_bucket() {
    let members = [Type::Nature, Type::Air, Type::Water, Type::Psi, Type::Ice];
    assert_eq!(coverage(&members, RelationKind::EffectiveAgainst), 12);
    let analysis: Analysis = analyze();
    let top: usize = analysis
        .effective_against
        .iter()
        .rposition(|count| *count > 0)
        .unwrap();
    assert_eq!(top, 12);
    assert_eq!(analysis.effective_against[12], 44);
}

#[test]
fn replacing_a_member_loses_no_more_than_its_own_contribution() {
    let members = [Type::Nature, Type::Air, Type::Water, Type::Psi, Type::Ice];
    let kind = RelationKind::EffectiveAgainst;
    let whole: usize = coverage(&members, kind);
    for i in 0..members.len() {
        let mut others: Vec<Type> = members.to_vec();
        others.remove(i);
        let alone: usize = whole - coverage(&others, kind);
        for replacement in Type::all() {
            let mut replaced = members;
            replaced[i] = replacement;
            assert!(coverage(&replaced, kind) + alone >= whole);
        }
    }
}

#[test]
fn absorb_adds_to_what_the_set_holds() {
    let mut acc = TypeSet::new();
    acc.insert(Type::Nature);
    absorb(&mut acc, &[Type::Stone], RelationKind::EffectiveAgainst);
    assert_eq!(acc.len(), 3);
    assert!(acc.contains(Type::Nature));
    assert!(acc.contains(Type::Air));
    assert!(acc.contains(Type::Energy));
    absorb(&mut acc, &[Type::Ice], RelationKind::EffectiveAgainst);
    assert_eq!(acc.len(), 4);
    assert!(acc.contains(Type::Water));
}

#[test]
fn record_raises_one_bucket_by_one() {
    let mut histogram: [u64; 13] = [0; 13];
    record(&mut histogram, 7);
    record(&mut histogram, 7);
    record(&mut histogram, 0);
    record(&mut histogram, 12);
    assert_eq!(histogram, [1, 0, 0, 0, 0, 0, 0, 2, 0, 0, 0, 0, 1]);
}

#[test]
fn report_if_matched_keeps_only_size_seven() {
    let members = [Type::Nature, Type::Air, Type::Water, Type::Light, Type::Energy];
    let mut matches: Vec<Match> = Vec::new();
    report_if_matched(&mut matches, &members, 6, 9);
    report_if_matched(&mut matches, &members, 8, 9);
    assert!(matches.is_empty());
    report_if_matched(&mut matches, &members, 7, 9);
    assert_eq!(matches, vec![Match { members: members.to_vec(), weak_to: 9 }]);
}

#[test]
fn tally_of_no_selections_is_empty() {
    let analysis: Analysis = tally(&[]);
    for kind in kinds() {
        assert_eq!(analysis.histogram(kind), [0u64; 13]);
    }
    assert!(analysis.matches.is_empty());
}

#[test]
fn tally_counts_each_selection_once_per_relation() {
    let first = vec![Type::Nature, Type::Air, Type::Water, Type::Light, Type::Energy];
    let second = vec![Type::Light];
    let analysis: Analysis = tally(&[first.clone(), second, first.clone()]);
    let mut effective: [u64; 13] = [0; 13];
    effective[7] = 2;
    effective[4] = 1;
    assert_eq!(analysis.effective_against, effective);
    let mut weak: [u64; 13] = [0; 13];
    weak[9] = 2;
    weak[1] = 1;
    assert_eq!(analysis.weak_to, weak);
    for kind in kinds() {
        assert_eq!(analysis.histogram(kind).iter().sum::<u64>(), 3);
    }
    assert_eq!(
        analysis.matches,
        vec![
            Match { members: first.clone(), weak_to: 9 },
            Match { members: first, weak_to: 9 },
        ]
    );
}

#[test]
fn histogram_picks_the_field_of_the_relation() {
    let analysis: Analysis = analyze();
    assert_eq!(analysis.histogram(RelationKind::EffectiveAgainst), analysis.effective_against);
    assert_eq!(
        analysis.histogram(RelationKind::IneffectiveAgainst),
        analysis.ineffective_against
    );
    assert_eq!(analysis.histogram(RelationKind::ResilientTo), analysis.resilient_to);
    assert_eq!(analysis.histogram(RelationKind::WeakTo), analysis.weak_to);
}

#[test]
fn analyze_gives_the_four_histograms() {
    let analysis: Analysis = analyze();
    assert_eq!(analysis.effective_against, [0, 0, 0, 0, 0, 0, 3, 21, 93, 210, 280, 141, 44]);
    assert_eq!(analysis.ineffective_against, [0, 0, 0, 0, 0, 0, 0, 5, 25, 96, 247, 297, 122]);
    assert_eq!(analysis.resilient_to, [0, 0, 0, 0, 0, 0, 0, 5, 27, 102, 306, 264, 88]);
    assert_eq!(analysis.weak_to, [0, 0, 0, 0, 0, 0, 3, 18, 64, 126, 261, 241, 79]);
}

#[test]
fn every_histogram_sums_to_792() {
    let analysis: Analysis = analyze();
    for kind in kinds() {
        assert_eq!(analysis.histogram(kind).iter().sum::<u64>(), 792);
    }
}

#[test]
fn bucket_seven_of_effective_against_is_not_empty() {
    let analysis: Analysis = analyze();
    assert!(analysis.effective_against[7] > 0);
    assert_eq!(analysis.effective_against[7], 21);
    assert_eq!(analysis.matches.len(), 21);
}

#[test]
fn every_match_has_size_seven_and_its_own_weak_to_size() {
    let analysis: Analysis = analyze();
    for found in analysis.matches.iter() {
        assert_eq!(found.members.len(), 5);
        assert_eq!(union_by_hand(&found.members, RelationKind::EffectiveAgainst), 7);
        assert_eq!(found.weak_to, union_by_hand(&found.members, RelationKind::WeakTo));
        assert_eq!(found.weak_to, coverage(&found.members, RelationKind::WeakTo));
    }
}

#[test]
fn matches_come_in_the_order_of_the_selections() {
    let analysis: Analysis = analyze();
    assert_eq!(
        analysis.matches[0],
        Match {
            members: vec![Type::Nature, Type::Air, Type::Water, Type::Light, Type::Energy],
            weak_to: 9,
        }
    );
    assert_eq!(
        analysis.matches[1],
        Match {
            members: vec![Type::Nature, Type::Air, Type::Water, Type::Light, Type::Chaos],
            weak_to: 11,
        }
    );
    assert_eq!(
        analysis.matches[20],
        Match {
            members: vec![Type::Stone, Type::Ice, Type::Dark, Type::Chaos, Type::Metal],
            weak_to: 9,
        }
    );
    let all: [Type; 12] = Type::all();
    let expected: Vec<Vec<Type>> = enumerate_combinations(&all, 5)
        .into_iter()
        .filter(|members| union_by_hand(members, RelationKind::EffectiveAgainst) == 7)
        .collect();
    let found: Vec<Vec<Type>> = analysis.matches.iter().map(|m| m.members.clone()).collect();
    assert_eq!(found, expected);
}

#[test]
fn a_selection_of_another_size_is_no_match() {
    let members = vec![Type::Nature, Type::Air, Type::Water, Type::Light, Type::Psi];
    assert_eq!(union_by_hand(&members, RelationKind::EffectiveAgainst), 9);
    let analysis: Analysis = analyze();
    assert!(analysis.matches.iter().all(|m| m.members != members));
}

#[test]
fn analyze_twice_gives_the_same_result() {
    let first: Analysis = analyze();
    let second: Analysis = analyze();
    assert_eq!(first, second);
}

#[test]
fn analyze_is_the_tally_over_the_selections_of_five() {
    let all: [Type; 12] = Type::all();
    let combinations: Vec<Vec<Type>> = enumerate_combinations(&all, SELECTION_SIZE);
    assert_eq!(analyze(), tally(&combinations));
}
