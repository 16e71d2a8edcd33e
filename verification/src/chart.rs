//! The affinity chart: twelve categories and their four relation lists.

use vstd::prelude::*;

verus! {

/// The number of categories in the chart.
pub const TYPE_COUNT: usize = 12;

/// One of the twelve categories of the chart.
#[derive(Copy, Clone, Debug, PartialEq, Eq, Hash, Structural)]
pub enum Type {
    Nature,
    Air,
    Water,
    Light,
    Energy,
    Psi,
    Stone,
    Ice,
    Fire,
    Dark,
    Chaos,
    Metal,
}

/// One of the four directed relations that the chart records.
#[derive(Copy, Clone, Debug, PartialEq, Eq, Hash, Structural)]
pub enum RelationKind {
    EffectiveAgainst,
    IneffectiveAgainst,
    ResilientTo,
    WeakTo,
}

/// The twelve categories in chart order.
pub open spec fn all_types() -> Seq<Type> {
    seq![
        Type::Nature,
        Type::Air,
        Type::Water,
        Type::Light,
        Type::Energy,
        Type::Psi,
        Type::Stone,
        Type::Ice,
        Type::Fire,
        Type::Dark,
        Type::Chaos,
        Type::Metal,
    ]
}

/// The categories that `t` deals bonus impact to.
pub open spec fn effective_against_row(t: Type) -> Seq<Type> {
    match t {
        Type::Nature => seq![Type::Psi, Type::Chaos],
        Type::Air => seq![Type::Water, Type::Psi, Type::Chaos, Type::Metal],
        Type::Water => seq![Type::Fire, Type::Dark, Type::Metal],
        Type::Light => seq![Type::Stone, Type::Fire, Type::Dark, Type::Chaos],
        Type::Energy => seq![Type::Water, Type::Psi, Type::Metal],
        Type::Psi => seq![Type::Light, Type::Stone, Type::Ice],
        Type::Stone => seq![Type::Air, Type::Energy],
        Type::Ice => seq![Type::Nature, Type::Air, Type::Water, Type::Energy],
        Type::Fire => seq![Type::Nature, Type::Air, Type::Ice, Type::Chaos],
        Type::Dark => seq![Type::Air, Type::Psi, Type::Stone, Type::Fire],
        Type::Chaos => seq![Type::Water, Type::Psi],
        Type::Metal => seq![Type::Nature, Type::Psi, Type::Fire],
    }
}

/// The categories that `t` deals reduced impact to.
pub open spec fn ineffective_against_row(t: Type) -> Seq<Type> {
    match t {
        Type::Nature => seq![Type::Ice, Type::Fire, Type::Dark, Type::Metal],
        Type::Air => seq![Type::Energy, Type::Stone, Type::Ice, Type::Fire, Type::Dark],
        Type::Water => seq![Type::Air, Type::Energy, Type::Ice, Type::Chaos],
        Type::Light => seq![Type::Psi, Type::Metal],
        Type::Energy => seq![Type::Stone, Type::Ice],
        Type::Psi => seq![
            Type::Nature,
            Type::Air,
            Type::Energy,
            Type::Dark,
            Type::Chaos,
            Type::Metal,
        ],
        Type::Stone => seq![Type::Light, Type::Psi, Type::Dark],
        Type::Ice => seq![Type::Psi, Type::Stone, Type::Fire],
        Type::Fire => seq![Type::Water, Type::Light, Type::Dark, Type::Metal],
        Type::Dark => seq![Type::Water, Type::Light],
        Type::Chaos => seq![Type::Nature, Type::Air, Type::Light, Type::Fire],
        Type::Metal => seq![Type::Air, Type::Water, Type::Energy, Type::Ice],
    }
}

/// The categories from which `t` takes reduced impact.
pub open spec fn resilient_to_row(t: Type) -> Seq<Type> {
    match t {
        Type::Nature => seq![Type::Psi, Type::Chaos],
        Type::Air => seq![Type::Water, Type::Psi, Type::Chaos, Type::Metal],
        Type::Water => seq![Type::Fire, Type::Dark, Type::Metal],
        Type::Light => seq![Type::Stone, Type::Fire, Type::Dark, Type::Chaos],
        Type::Energy => seq![Type::Air, Type::Water, Type::Psi, Type::Metal],
        Type::Psi => seq![Type::Light, Type::Stone, Type::Ice],
        Type::Stone => seq![Type::Air, Type::Energy, Type::Ice],
        Type::Ice => seq![Type::Nature, Type::Air, Type::Water, Type::Energy, Type::Metal],
        Type::Fire => seq![Type::Nature, Type::Air, Type::Ice, Type::Chaos],
        Type::Dark => seq![Type::Nature, Type::Air, Type::Psi, Type::Stone, Type::Fire],
        Type::Chaos => seq![Type::Water, Type::Psi],
        Type::Metal => seq![Type::Nature, Type::Light, Type::Psi, Type::Fire],
    }
}

/// The categories from which `t` takes bonus impact.
pub open spec fn weak_to_row(t: Type) -> Seq<Type> {
    match t {
        Type::Nature => seq![Type::Ice, Type::Fire, Type::Metal],
        Type::Air => seq![Type::Stone, Type::Ice, Type::Fire, Type::Dark],
        Type::Water => seq![Type::Air, Type::Energy, Type::Ice, Type::Chaos],
        Type::Light => seq![Type::Psi],
        Type::Energy => seq![Type::Stone, Type::Ice],
        Type::Psi => seq![
            Type::Nature,
            Type::Air,
            Type::Energy,
            Type::Dark,
            Type::Chaos,
            Type::Metal,
        ],
        Type::Stone => seq![Type::Light, Type::Psi, Type::Dark],
        Type::Ice => seq![Type::Psi, Type::Fire],
        Type::Fire => seq![Type::Water, Type::Light, Type::Dark, Type::Metal],
        Type::Dark => seq![Type::Water, Type::Light],
        Type::Chaos => seq![Type::Nature, Type::Air, Type::Light, Type::Fire],
        Type::Metal => seq![Type::Air, Type::Water, Type::Energy, Type::Ice],
    }
}

/// The chart itself: the list that relation `kind` gives category `t`.
pub open spec fn relation_row(t: Type, kind: RelationKind) -> Seq<Type> {
    match kind {
        RelationKind::EffectiveAgainst => effective_against_row(t),
        RelationKind::IneffectiveAgainst => ineffective_against_row(t),
        RelationKind::ResilientTo => resilient_to_row(t),
        RelationKind::WeakTo => weak_to_row(t),
    }
}

impl Type {
    /// The position of the category in chart order.
    pub open spec fn ordinal(self) -> nat {
        match self {
            Type::Nature => 0,
            Type::Air => 1,
            Type::Water => 2,
            Type::Light => 3,
            Type::Energy => 4,
            Type::Psi => 5,
            Type::Stone => 6,
            Type::Ice => 7,
            Type::Fire => 8,
            Type::Dark => 9,
            Type::Chaos => 10,
            Type::Metal => 11,
        }
    }

    /// The position of the category in chart order, from 0 to 11.
    pub fn index(self) -> (r: usize)
        ensures
            r == self.ordinal(),
            r < TYPE_COUNT,
            all_types()[r as int] == self,
    {
        match self {
            Type::Nature => 0,
            Type::Air => 1,
            Type::Water => 2,
            Type::Light => 3,
            Type::Energy => 4,
            Type::Psi => 5,
            Type::Stone => 6,
            Type::Ice => 7,
            Type::Fire => 8,
            Type::Dark => 9,
            Type::Chaos => 10,
            Type::Metal => 11,
        }
    }

    /// The twelve categories in chart order.
    pub fn all() -> (r: [Type; 12])
        ensures
            r@ == all_types(),
    {
        let r = [
            Type::Nature,
            Type::Air,
            Type::Water,
            Type::Light,
            Type::Energy,
            Type::Psi,
            Type::Stone,
            Type::Ice,
            Type::Fire,
            Type::Dark,
            Type::Chaos,
            Type::Metal,
        ];
        assert(r@ =~= all_types());
        r
    }

    /// The categories that this one deals bonus impact to.
    pub fn effective_against(self) -> (r: &'static [Type])
        ensures
            r@ == effective_against_row(self),
    {
        match self {
            Type::Nature => &[Type::Psi, Type::Chaos],
            Type::Air => &[Type::Water, Type::Psi, Type::Chaos, Type::Metal],
            Type::Water => &[Type::Fire, Type::Dark, Type::Metal],
            Type::Light => &[Type::Stone, Type::Fire, Type::Dark, Type::Chaos],
            Type::Energy => &[Type::Water, Type::Psi, Type::Metal],
            Type::Psi => &[Type::Light, Type::Stone, Type::Ice],
            Type::Stone => &[Type::Air, Type::Energy],
            Type::Ice => &[Type::Nature, Type::Air, Type::Water, Type::Energy],
            Type::Fire => &[Type::Nature, Type::Air, Type::Ice, Type::Chaos],
            Type::Dark => &[Type::Air, Type::Psi, Type::Stone, Type::Fire],
            Type::Chaos => &[Type::Water, Type::Psi],
            Type::Metal => &[Type::Nature, Type::Psi, Type::Fire],
        }
    }

    /// The categories that this one deals reduced impact to.
    pub fn ineffective_against(self) -> (r: &'static [Type])
        ensures
            r@ == ineffective_against_row(self),
    {
        match self {
            Type::Nature => &[Type::Ice, Type::Fire, Type::Dark, Type::Metal],
            Type::Air => &[Type::Energy, Type::Stone, Type::Ice, Type::Fire, Type::Dark],
            Type::Water => &[Type::Air, Type::Energy, Type::Ice, Type::Chaos],
            Type::Light => &[Type::Psi, Type::Metal],
            Type::Energy => &[Type::Stone, Type::Ice],
            Type::Psi => &[
                Type::Nature,
                Type::Air,
                Type::Energy,
                Type::Dark,
                Type::Chaos,
                Type::Metal,
            ],
            Type::Stone => &[Type::Light, Type::Psi, Type::Dark],
            Type::Ice => &[Type::Psi, Type::Stone, Type::Fire],
            Type::Fire => &[Type::Water, Type::Light, Type::Dark, Type::Metal],
            Type::Dark => &[Type::Water, Type::Light],
            Type::Chaos => &[Type::Nature, Type::Air, Type::Light, Type::Fire],
            Type::Metal => &[Type::Air, Type::Water, Type::Energy, Type::Ice],
        }
    }

    /// The categories from which this one takes reduced impact.
    pub fn resilient_to(self) -> (r: &'static [Type])
        ensures
            r@ == resilient_to_row(self),
    {
        match self {
            Type::Nature => &[Type::Psi, Type::Chaos],
            Type::Air => &[Type::Water, Type::Psi, Type::Chaos, Type::Metal],
            Type::Water => &[Type::Fire, Type::Dark, Type::Metal],
            Type::Light => &[Type::Stone, Type::Fire, Type::Dark, Type::Chaos],
            Type::Energy => &[Type::Air, Type::Water, Type::Psi, Type::Metal],
            Type::Psi => &[Type::Light, Type::Stone, Type::Ice],
            Type::Stone => &[Type::Air, Type::Energy, Type::Ice],
            Type::Ice => &[Type::Nature, Type::Air, Type::Water, Type::Energy, Type::Metal],
            Type::Fire => &[Type::Nature, Type::Air, Type::Ice, Type::Chaos],
            Type::Dark => &[Type::Nature, Type::Air, Type::Psi, Type::Stone, Type::Fire],
            Type::Chaos => &[Type::Water, Type::Psi],
            Type::Metal => &[Type::Nature, Type::Light, Type::Psi, Type::Fire],
        }
    }

    /// The categories from which this one takes bonus impact.
    pub fn weak_to(self) -> (r: &'static [Type])
        ensures
            r@ == weak_to_row(self),
    {
        match self {
            Type::Nature => &[Type::Ice, Type::Fire, Type::Metal],
            Type::Air => &[Type::Stone, Type::Ice, Type::Fire, Type::Dark],
            Type::Water => &[Type::Air, Type::Energy, Type::Ice, Type::Chaos],
            Type::Light => &[Type::Psi],
            Type::Energy => &[Type::Stone, Type::Ice],
            Type::Psi => &[
                Type::Nature,
                Type::Air,
                Type::Energy,
                Type::Dark,
                Type::Chaos,
                Type::Metal,
            ],
            Type::Stone => &[Type::Light, Type::Psi, Type::Dark],
            Type::Ice => &[Type::Psi, Type::Fire],
            Type::Fire => &[Type::Water, Type::Light, Type::Dark, Type::Metal],
            Type::Dark => &[Type::Water, Type::Light],
            Type::Chaos => &[Type::Nature, Type::Air, Type::Light, Type::Fire],
            Type::Metal => &[Type::Air, Type::Water, Type::Energy, Type::Ice],
        }
    }

    /// The list that relation `kind` gives this category. Defined for every
    /// category and every relation.
    pub fn relations_of(self, kind: RelationKind) -> (r: &'static [Type])
        ensures
            r@ == relation_row(self, kind),
    {
        match kind {
            RelationKind::EffectiveAgainst => self.effective_against(),
            RelationKind::IneffectiveAgainst => self.ineffective_against(),
            RelationKind::ResilientTo => self.resilient_to(),
            RelationKind::WeakTo => self.weak_to(),
        }
    }
}

} // verus!
