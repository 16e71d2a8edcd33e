use type_chart::chart::{RelationKind, Type, TYPE_COUNT};

fn kinds() -> [RelationKind; 4] {
    [
        RelationKind::EffectiveAgainst,
        RelationKind::IneffectiveAgainst,
        RelationKind::ResilientTo,
        RelationKind::WeakTo,
    ]
}

#[test]
fn effective_against_rows_are_the_chart() {
    assert_eq!(Type::Nature.effective_against(), &[Type::Psi, Type::Chaos]);
    assert_eq!(Type::Air.effective_against(), &[Type::Water, Type::Psi, Type::Chaos, Type::Metal]);
    assert_eq!(Type::Water.effective_against(), &[Type::Fire, Type::Dark, Type::Metal]);
    assert_eq!(Type::Light.effective_against(), &[Type::Stone, Type::Fire, Type::Dark, Type::Chaos]);
    assert_eq!(Type::Energy.effective_against(), &[Type::Water, Type::Psi, Type::Metal]);
    assert_eq!(Type::Psi.effective_against(), &[Type::Light, Type::Stone, Type::Ice]);
    assert_eq!(Type::Stone.effective_against(), &[Type::Air, Type::Energy]);
    assert_eq!(Type::Ice.effective_against(), &[Type::Nature, Type::Air, Type::Water, Type::Energy]);
    assert_eq!(Type::Fire.effective_against(), &[Type::Nature, Type::Air, Type::Ice, Type::Chaos]);
    assert_eq!(Type::Dark.effective_against(), &[Type::Air, Type::Psi, Type::Stone, Type::Fire]);
    assert_eq!(Type::Chaos.effective_against(), &[Type::Water, Type::Psi]);
    assert_eq!(Type::Metal.effective_against(), &[Type::Nature, Type::Psi, Type::Fire]);
}

#[test]
fn ineffective_against_rows_are_the_chart() {
    assert_eq!(Type::Nature.ineffective_against(), &[Type::Ice, Type::Fire, Type::Dark, Type::Metal]);
    assert_eq!(Type::Air.ineffective_against(), &[Type::Energy, Type::Stone, Type::Ice, Type::Fire, Type::Dark]);
    assert_eq!(Type::Water.ineffective_against(), &[Type::Air, Type::Energy, Type::Ice, Type::Chaos]);
    assert_eq!(Type::Light.ineffective_against(), &[Type::Psi, Type::Metal]);
    assert_eq!(Type::Energy.ineffective_against(), &[Type::Stone, Type::Ice]);
    assert_eq!(Type::Psi.ineffective_against(), &[Type::Nature, Type::Air, Type::Energy, Type::Dark, Type::Chaos, Type::Metal]);
    assert_eq!(Type::Stone.ineffective_against(), &[Type::Light, Type::Psi, Type::Dark]);
    assert_eq!(Type::Ice.ineffective_against(), &[Type::Psi, Type::Stone, Type::Fire]);
    assert_eq!(Type::Fire.ineffective_against(), &[Type::Water, Type::Light, Type::Dark, Type::Metal]);
    assert_eq!(Type::Dark.ineffective_against(), &[Type::Water, Type::Light]);
    assert_eq!(Type::Chaos.ineffective_against(), &[Type::Nature, Type::Air, Type::Light, Type::Fire]);
    assert_eq!(Type::Metal.ineffective_against(), &[Type::Air, Type::Water, Type::Energy, Type::Ice]);
}

#[test]
fn resilient_to_rows_are_the_chart() {
    assert_eq!(Type::Nature.resilient_to(), &[Type::Psi, Type::Chaos]);
    assert_eq!(Type::Air.resilient_to(), &[Type::Water, Type::Psi, Type::Chaos, Type::Metal]);
    assert_eq!(Type::Water.resilient_to(), &[Type::Fire, Type::Dark, Type::Metal]);
    assert_eq!(Type::Light.resilient_to(), &[Type::Stone, Type::Fire, Type::Dark, Type::Chaos]);
    assert_eq!(Type::Energy.resilient_to(), &[Type::Air, Type::Water, Type::Psi, Type::Metal]);
    assert_eq!(Type::Psi.resilient_to(), &[Type::Light, Type::Stone, Type::Ice]);
    assert_eq!(Type::Stone.resilient_to(), &[Type::Air, Type::Energy, Type::Ice]);
    assert_eq!(Type::Ice.resilient_to(), &[Type::Nature, Type::Air, Type::Water, Type::Energy, Type::Metal]);
    assert_eq!(Type::Fire.resilient_to(), &[Type::Nature, Type::Air, Type::Ice, Type::Chaos]);
    assert_eq!(Type::Dark.resilient_to(), &[Type::Nature, Type::Air, Type::Psi, Type::Stone, Type::Fire]);
    assert_eq!(Type::Chaos.resilient_to(), &[Type::Water, Type::Psi]);
    assert_eq!(Type::Metal.resilient_to(), &[Type::Nature, Type::Light, Type::Psi, Type::Fire]);
}

#[test]
fn weak_to_rows_are_the_chart() {
    assert_eq!(Type::Nature.weak_to(), &[Type::Ice, Type::Fire, Type::Metal]);
    assert_eq!(Type::Air.weak_to(), &[Type::Stone, Type::Ice, Type::Fire, Type::Dark]);
    assert_eq!(Type::Water.weak_to(), &[Type::Air, Type::Energy, Type::Ice, Type::Chaos]);
    assert_eq!(Type::Light.weak_to(), &[Type::Psi]);
    assert_eq!(Type::Energy.weak_to(), &[Type::Stone, Type::Ice]);
    assert_eq!(Type::Psi.weak_to(), &[Type::Nature, Type::Air, Type::Energy, Type::Dark, Type::Chaos, Type::Metal]);
    assert_eq!(Type::Stone.weak_to(), &[Type::Light, Type::Psi, Type::Dark]);
    assert_eq!(Type::Ice.weak_to(), &[Type::Psi, Type::Fire]);
    assert_eq!(Type::Fire.weak_to(), &[Type::Water, Type::Light, Type::Dark, Type::Metal]);
    assert_eq!(Type::Dark.weak_to(), &[Type::Water, Type::Light]);
    assert_eq!(Type::Chaos.weak_to(), &[Type::Nature, Type::Air, Type::Light, Type::Fire]);
    assert_eq!(Type::Metal.weak_to(), &[Type::Air, Type::Water, Type::Energy, Type::Ice]);
}

#[test]
fn all_lists_the_twelve_categories_in_chart_order() {
    let all: [Type; 12] = Type::all();
    assert_eq!(
        all,
        [
            Type::Nature,
            Type::Air,
            Type::Water,
            Type::Light,
            Type::Energy,
            Type::Psi,
            Type::Stone,
            Type::Ice,
            Type::Fire,
            Type::Dark,
            Type::Chaos,
            Type::Metal,
        ]
    );
    assert_eq!(TYPE_COUNT, 12);
}

#[test]
fn index_is_the_position_in_chart_order() {
    let all: [Type; 12] = Type::all();
    for (position, t) in all.iter().enumerate() {
        assert_eq!(t.index(), position);
    }
    assert_eq!(Type::Nature.index(), 0);
    assert_eq!(Type::Metal.index(), 11);
}

#[test]
fn relations_of_is_defined_for_every_category_and_relation() {
    let mut lookups: usize = 0;
    for t in Type::all() {
        for kind in kinds() {
            let row: &[Type] = t.relations_of(kind);
            assert!(row.len() <= 6);
            assert!(!row.is_empty());
            lookups += 1;
        }
    }
    assert_eq!(lookups, 48);
}

#[test]
fn relations_of_picks_the_list_of_the_relation() {
    for t in Type::all() {
        assert_eq!(t.relations_of(RelationKind::EffectiveAgainst), t.effective_against());
        assert_eq!(t.relations_of(RelationKind::IneffectiveAgainst), t.ineffective_against());
        assert_eq!(t.relations_of(RelationKind::ResilientTo), t.resilient_to());
        assert_eq!(t.relations_of(RelationKind::WeakTo), t.weak_to());
    }
}

#[test]
fn no_category_is_related_to_itself_twice_in_a_list() {
    for t in Type::all() {
        for kind in kinds() {
            let row: &[Type] = t.relations_of(kind);
            for (i, a) in row.iter().enumerate() {
                for b in row[i + 1..].iter() {
                    assert_ne!(a, b);
                }
            }
        }
    }
}

#[test]
fn resilience_is_no_mirror_of_effectiveness() {
    assert_eq!(
        Type::Energy.resilient_to(),
        &[Type::Air, Type::Water, Type::Psi, Type::Metal]
    );
    assert_eq!(Type::Energy.effective_against(), &[Type::Water, Type::Psi, Type::Metal]);
    assert!(!Type::Air.effective_against().contains(&Type::Energy));
}
