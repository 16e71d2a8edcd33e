//! The coverage of a selection of categories, and the tally of coverage
//! sizes over all selections of five.

use crate::chart::{all_types, relation_row, RelationKind, Type, TYPE_COUNT};
use crate::combinations::{
    combination_listing, enumerate_combinations, lemma_combinations_from_len,
    lemma_listing_complete, lemma_twelve_choose_five, lex_combinations, rows,
};
use crate::type_set::{lemma_type_set_bounded, TypeSet};
use vstd::prelude::*;

verus! {

/// The number of categories in a selection.
pub const SELECTION_SIZE: usize = 5;

/// The number of buckets of a histogram: one for each size from 0 to 12.
pub const BUCKET_COUNT: usize = 13;

/// The size of the effective-against union that makes a selection a match.
pub const MATCH_SIZE: usize = 7;

/// One of the first `upto` members lists `t` under relation `kind`.
pub open spec fn listed_by_some(members: Seq<Type>, kind: RelationKind, upto: int, t: Type) -> bool {
    exists|m: int| 0 <= m < upto && m < members.len() && #[trigger] relation_row(
        members[m],
        kind,
    ).contains(t)
}

/// The union of the lists that relation `kind` gives the members.
pub open spec fn union_of(members: Seq<Type>, kind: RelationKind) -> Set<Type> {
    Set::new(|t: Type| listed_by_some(members, kind, members.len() as int, t))
}

/// The number of categories in the union of the members' lists.
pub open spec fn union_size(members: Seq<Type>, kind: RelationKind) -> nat {
    union_of(members, kind).len()
}

/// The union of the members' lists has between 0 and 12 categories.
pub proof fn lemma_union_size_bounded(members: Seq<Type>, kind: RelationKind)
    ensures
        union_of(members, kind).finite(),
        0 <= union_size(members, kind) <= TYPE_COUNT,
{
    lemma_type_set_bounded(union_of(members, kind));
}

/// Adds to `acc` every category that relation `kind` lists for a member.
pub fn absorb(acc: &mut TypeSet, members: &[Type], kind: RelationKind)
    ensures
        final(acc)@ == old(acc)@.union(union_of(members@, kind)),
{
    let mut i: usize = 0;
    while i < members.len()
        invariant
            i <= members@.len(),
            forall|t: Type|
                acc@.contains(t) <==> old(acc)@.contains(t) || listed_by_some(
                    members@,
                    kind,
                    i as int,
                    t,
                ),
        decreases members@.len() - i,
    {
        let row = members[i].relations_of(kind);
        let mut j: usize = 0;
        while j < row.len()
            invariant
                i < members@.len(),
                j <= row@.len(),
                row@ == relation_row(members@[i as int], kind),
                forall|t: Type|
                    acc@.contains(t) <==> old(acc)@.contains(t) || listed_by_some(
                        members@,
                        kind,
                        i as int,
                        t,
                    ) || row@.take(j as int).contains(t),
            decreases row@.len() - j,
        {
            let ghost before = acc@;
            acc.insert(row[j]);
            proof {
                let shorter = row@.take(j as int);
                let longer = row@.take(j + 1);
                assert forall|t: Type|
                    longer.contains(t) <==> shorter.contains(t) || t == row@[j as int] by {
                    if longer.contains(t) {
                        let q = choose|q: int| 0 <= q < longer.len() && longer[q] == t;
                        if q < j {
                            assert(shorter[q] == t);
                        }
                    }
                    if shorter.contains(t) {
                        let q = choose|q: int| 0 <= q < shorter.len() && shorter[q] == t;
                        assert(longer[q] == t);
                    }
                    if t == row@[j as int] {
                        assert(longer[j as int] == t);
                    }
                }
            }
            j = j + 1;
        }
        proof {
            assert(row@.take(j as int) =~= row@);
            assert forall|t: Type|
                listed_by_some(members@, kind, i + 1, t) <==> listed_by_some(
                    members@,
                    kind,
                    i as int,
                    t,
                ) || row@.contains(t) by {
                if listed_by_some(members@, kind, i + 1, t) {
                    let m = choose|m: int|
                        0 <= m < i + 1 && m < members@.len() && #[trigger] relation_row(
                            members@[m],
                            kind,
                        ).contains(t);
                    if m < i {
                        assert(listed_by_some(members@, kind, i as int, t));
                    }
                }
                if row@.contains(t) {
                    assert(relation_row(members@[i as int], kind).contains(t));
                }
            }
        }
        i = i + 1;
    }
    assert(acc@ =~= old(acc)@.union(union_of(members@, kind)));
}

/// The number of categories that relation `kind` lists for at least one of
/// the members.
pub fn coverage(members: &[Type], kind: RelationKind) -> (r: usize)
    ensures
        r == union_size(members@, kind),
        r <= TYPE_COUNT,
{
    let mut acc = TypeSet::new();
    absorb(&mut acc, members, kind);
    assert(acc@ =~= union_of(members@, kind));
    acc.len()
}

/// How many of the selections have a union of exactly `size` categories
/// under relation `kind`.
pub open spec fn count_of_size(combos: Seq<Seq<Type>>, kind: RelationKind, size: nat) -> nat
    decreases combos.len(),
{
    if combos.len() == 0 {
        0
    } else {
        count_of_size(combos.drop_last(), kind, size) + if union_size(combos.last(), kind)
            == size {
            1nat
        } else {
            0nat
        }
    }
}

/// The histogram of union sizes under relation `kind`: bucket `size`
/// counts the selections whose union has `size` categories.
pub open spec fn spread(combos: Seq<Seq<Type>>, kind: RelationKind) -> Seq<nat> {
    Seq::new(BUCKET_COUNT as nat, |size: int| count_of_size(combos, kind, size as nat))
}

/// The sum of the entries of `s`.
pub open spec fn total(s: Seq<nat>) -> nat
    decreases s.len(),
{
    if s.len() == 0 {
        0
    } else {
        total(s.drop_last()) + s.last()
    }
}

/// The counts that a histogram holds.
pub open spec fn counts(histogram: [u64; 13]) -> Seq<nat> {
    Seq::new(BUCKET_COUNT as nat, |size: int| histogram@[size] as nat)
}

/// A selection is a match when its effective-against union has exactly
/// seven categories.
pub open spec fn is_match(members: Seq<Type>) -> bool {
    union_size(members, RelationKind::EffectiveAgainst) == MATCH_SIZE
}

/// The matches among the selections, in the order of the selections, each
/// with the size of its weak-to union.
pub open spec fn matches_of(combos: Seq<Seq<Type>>) -> Seq<(Seq<Type>, nat)>
    decreases combos.len(),
{
    if combos.len() == 0 {
        Seq::empty()
    } else if is_match(combos.last()) {
        matches_of(combos.drop_last()).push(
            (combos.last(), union_size(combos.last(), RelationKind::WeakTo)),
        )
    } else {
        matches_of(combos.drop_last())
    }
}

/// A selection whose effective-against union has exactly seven categories.
#[derive(Clone, Debug, PartialEq, Eq)]
pub struct Match {
    /// The selection, in the order in which it was given.
    pub members: Vec<Type>,
    /// The size of the selection's weak-to union.
    pub weak_to: usize,
}

impl View for Match {
    type V = (Seq<Type>, nat);

    open spec fn view(&self) -> (Seq<Type>, nat) {
        (self.members@, self.weak_to as nat)
    }
}

/// What the matches of `v` hold.
pub open spec fn match_rows(v: Seq<Match>) -> Seq<(Seq<Type>, nat)> {
    Seq::new(v.len(), |i: int| v[i]@)
}

/// The tally over a sequence of selections: one histogram of union sizes
/// for each relation, and the matches.
#[derive(Clone, Debug, PartialEq, Eq)]
pub struct Analysis {
    pub effective_against: [u64; 13],
    pub ineffective_against: [u64; 13],
    pub resilient_to: [u64; 13],
    pub weak_to: [u64; 13],
    pub matches: Vec<Match>,
}

impl Analysis {
    /// The histogram of relation `kind`.
    pub open spec fn spec_histogram(&self, kind: RelationKind) -> [u64; 13] {
        match kind {
            RelationKind::EffectiveAgainst => self.effective_against,
            RelationKind::IneffectiveAgainst => self.ineffective_against,
            RelationKind::ResilientTo => self.resilient_to,
            RelationKind::WeakTo => self.weak_to,
        }
    }

    /// This is the tally over `combos`: every histogram counts the
    /// selections by the size of their union, and the matches are those of
    /// `combos`, in order.
    pub open spec fn tallies(&self, combos: Seq<Seq<Type>>) -> bool {
        &&& forall|kind: RelationKind| #[trigger]
            counts(self.spec_histogram(kind)) == spread(combos, kind)
        &&& match_rows(self.matches@) == matches_of(combos)
    }

    /// The histogram of relation `kind`.
    #[verifier::when_used_as_spec(spec_histogram)]
    pub fn histogram(&self, kind: RelationKind) -> (r: [u64; 13])
        ensures
            r == self.spec_histogram(kind),
    {
        match kind {
            RelationKind::EffectiveAgainst => self.effective_against,
            RelationKind::IneffectiveAgainst => self.ineffective_against,
            RelationKind::ResilientTo => self.resilient_to,
            RelationKind::WeakTo => self.weak_to,
        }
    }
}

/// No more selections have a given union size than there are selections.
pub proof fn lemma_count_of_size_bounded(combos: Seq<Seq<Type>>, kind: RelationKind, size: nat)
    ensures
        count_of_size(combos, kind, size) <= combos.len(),
    decreases combos.len(),
{
    if combos.len() > 0 {
        lemma_count_of_size_bounded(combos.drop_last(), kind, size);
    }
}

/// Raising one entry by one raises the sum by one.
pub proof fn lemma_total_after_increment(s: Seq<nat>, i: int)
    requires
        0 <= i < s.len(),
    ensures
        total(s.update(i, s[i] + 1)) == total(s) + 1,
    decreases s.len(),
{
    let u = s.update(i, s[i] + 1);
    if i == s.len() - 1 {
        assert(u.drop_last() =~= s.drop_last());
    } else {
        lemma_total_after_increment(s.drop_last(), i);
        assert(u.drop_last() =~= s.drop_last().update(i, s[i] + 1));
    }
}

/// One more selection raises the bucket of its union size by one and
/// leaves the other buckets as they are.
pub proof fn lemma_spread_step(combos: Seq<Seq<Type>>, kind: RelationKind)
    requires
        combos.len() > 0,
    ensures
        union_size(combos.last(), kind) < BUCKET_COUNT,
        spread(combos, kind) == spread(combos.drop_last(), kind).update(
            union_size(combos.last(), kind) as int,
            spread(combos.drop_last(), kind)[union_size(combos.last(), kind) as int] + 1,
        ),
{
    lemma_union_size_bounded(combos.last(), kind);
    let size = union_size(combos.last(), kind) as int;
    let before = spread(combos.drop_last(), kind);
    assert(spread(combos, kind) =~= before.update(size, before[size] + 1));
}

/// The buckets of a histogram sum to the number of selections: every
/// selection is counted in exactly one bucket.
pub proof fn lemma_spread_total(combos: Seq<Seq<Type>>, kind: RelationKind)
    ensures
        total(spread(combos, kind)) == combos.len(),
    decreases combos.len(),
{
    if combos.len() == 0 {
        lemma_total_of_zeros(13);
        assert(spread(combos, kind) =~= Seq::new(13, |i: int| 0nat));
    } else {
        lemma_spread_total(combos.drop_last(), kind);
        lemma_spread_step(combos, kind);
        lemma_total_after_increment(
            spread(combos.drop_last(), kind),
            union_size(combos.last(), kind) as int,
        );
    }
}

/// Zeros sum to zero.
pub proof fn lemma_total_of_zeros(len: nat)
    ensures
        total(Seq::new(len, |i: int| 0nat)) == 0,
    decreases len,
{
    if len > 0 {
        lemma_total_of_zeros((len - 1) as nat);
        assert(Seq::new(len, |i: int| 0nat).drop_last() =~= Seq::new(
            (len - 1) as nat,
            |i: int| 0nat,
        ));
    }
}

/// Counts one selection with a union of `size` categories: bucket `size`
/// goes up by one.
pub fn record(histogram: &mut [u64; 13], size: usize)
    requires
        size < BUCKET_COUNT,
        old(histogram)@[size as int] < u64::MAX,
    ensures
        final(histogram)@ == old(histogram)@.update(
            size as int,
            (old(histogram)@[size as int] + 1) as u64,
        ),
{
    histogram[size] = histogram[size] + 1;
}

/// Keeps a selection as a match where its effective-against union has
/// exactly seven categories, together with the size of its weak-to union.
/// A selection with a union of any other size is passed over.
pub fn report_if_matched(matches: &mut Vec<Match>, members: &[Type], effective: usize, weak: usize)
    ensures
        effective == MATCH_SIZE ==> match_rows(final(matches)@) == match_rows(old(matches)@).push(
            (members@, weak as nat),
        ),
        effective != MATCH_SIZE ==> final(matches)@ == old(matches)@,
{
    if effective == MATCH_SIZE {
        matches.push(Match { members: vstd::slice::slice_to_vec(members), weak_to: weak });
        assert(match_rows(matches@) =~= match_rows(old(matches)@).push((members@, weak as nat)));
    }
}

/// The tally over the given selections, taken one after the other: every
/// selection is counted once in each of the four histograms, in the bucket
/// of its union size, and the matches are kept in the order in which they
/// come.
pub fn tally(combinations: &[Vec<Type>]) -> (r: Analysis)
    ensures
        r.tallies(rows(combinations@)),
        forall|kind: RelationKind| #[trigger]
            total(counts(r.spec_histogram(kind))) == combinations@.len(),
{
    let mut r = Analysis {
        effective_against: [0; 13],
        ineffective_against: [0; 13],
        resilient_to: [0; 13],
        weak_to: [0; 13],
        matches: Vec::new(),
    };
    let mut effective_set = TypeSet::new();
    let mut ineffective_set = TypeSet::new();
    let mut resilient_set = TypeSet::new();
    let mut weak_set = TypeSet::new();
    let ghost combos = rows(combinations@);
    let n = combinations.len();
    let mut i: usize = 0;
    proof {
        assert forall|kind: RelationKind| #[trigger]
            counts(r.spec_histogram(kind)) == spread(combos.take(0), kind) by {
            assert(counts(r.spec_histogram(kind)) =~= spread(combos.take(0), kind));
        }
        assert(match_rows(r.matches@) =~= matches_of(combos.take(0)));
    }
    while i < n
        invariant
            i <= n,
            n == combinations@.len(),
            combos == rows(combinations@),
            r.tallies(combos.take(i as int)),
            effective_set@ == Set::<Type>::empty(),
            ineffective_set@ == Set::<Type>::empty(),
            resilient_set@ == Set::<Type>::empty(),
            weak_set@ == Set::<Type>::empty(),
        decreases n - i,
    {
        let members = combinations[i].as_slice();
        let ghost seen = combos.take(i as int);
        let ghost next = combos.take(i + 1);
        proof {
            assert(next.drop_last() =~= seen);
            assert(next.last() == members@);
            assert forall|kind: RelationKind|
                (#[trigger] r.spec_histogram(kind))@[union_size(members@, kind) as int]
                    < u64::MAX by {
                lemma_union_size_bounded(members@, kind);
                let size = union_size(members@, kind);
                lemma_count_of_size_bounded(seen, kind, size);
                assert(counts(r.spec_histogram(kind)) == spread(seen, kind));
                assert(counts(r.spec_histogram(kind))[size as int] == count_of_size(
                    seen,
                    kind,
                    size,
                ));
            }
            assert(r.spec_histogram(RelationKind::EffectiveAgainst) == r.effective_against);
            assert(r.spec_histogram(RelationKind::IneffectiveAgainst) == r.ineffective_against);
            assert(r.spec_histogram(RelationKind::ResilientTo) == r.resilient_to);
            assert(r.spec_histogram(RelationKind::WeakTo) == r.weak_to);
        }
        let ghost before = r;
        absorb(&mut effective_set, members, RelationKind::EffectiveAgainst);
        absorb(&mut ineffective_set, members, RelationKind::IneffectiveAgainst);
        absorb(&mut resilient_set, members, RelationKind::ResilientTo);
        absorb(&mut weak_set, members, RelationKind::WeakTo);
        proof {
            assert(effective_set@ =~= union_of(members@, RelationKind::EffectiveAgainst));
            assert(ineffective_set@ =~= union_of(members@, RelationKind::IneffectiveAgainst));
            assert(resilient_set@ =~= union_of(members@, RelationKind::ResilientTo));
            assert(weak_set@ =~= union_of(members@, RelationKind::WeakTo));
        }
        record(&mut r.effective_against, effective_set.len());
        record(&mut r.ineffective_against, ineffective_set.len());
        record(&mut r.resilient_to, resilient_set.len());
        record(&mut r.weak_to, weak_set.len());
        report_if_matched(&mut r.matches, members, effective_set.len(), weak_set.len());
        effective_set.clear();
        ineffective_set.clear();
        resilient_set.clear();
        weak_set.clear();
        proof {
            assert forall|kind: RelationKind| #[trigger]
                counts(r.spec_histogram(kind)) == spread(next, kind) by {
                lemma_spread_step(next, kind);
                let size = union_size(members@, kind) as int;
                assert(counts(before.spec_histogram(kind)) == spread(seen, kind));
                assert(counts(before.spec_histogram(kind))[size] == spread(seen, kind)[size]);
                assert(counts(r.spec_histogram(kind)) =~= spread(seen, kind).update(
                    size,
                    spread(seen, kind)[size] + 1,
                ));
            }
            assert(match_rows(r.matches@) =~= matches_of(next));
        }
        i = i + 1;
    }
    proof {
        assert(combos.take(n as int) =~= combos);
        assert forall|kind: RelationKind| #[trigger]
            total(counts(r.spec_histogram(kind))) == combinations@.len() by {
            lemma_spread_total(combos, kind);
        }
    }
    r
}

/// The selections of five categories out of the twelve, in the order in
/// which the analysis takes them.
pub open spec fn selections_of_five() -> Seq<Seq<Type>> {
    combination_listing(all_types(), SELECTION_SIZE as nat)
}

/// The analysis takes every selection of five categories exactly once:
/// there are 792 selections; each holds five different categories; no two
/// hold the same five; and every set of five categories is held by one.
pub proof fn lemma_selections_of_five_complete()
    ensures
        selections_of_five().len() == 792,
        forall|i: int|
            0 <= i < selections_of_five().len() ==> (#[trigger] selections_of_five()[i]).len() == 5
                && selections_of_five()[i].no_duplicates(),
        forall|i: int, j: int|
            0 <= i < j < selections_of_five().len() ==> (#[trigger] selections_of_five()[i]).to_set()
                != (#[trigger] selections_of_five()[j]).to_set(),
        forall|s: Set<Type>|
            s.finite() && s.len() == 5 ==> exists|i: int|
                0 <= i < selections_of_five().len() && (#[trigger] selections_of_five()[i]).to_set()
                    == s,
{
    let pool = all_types();
    assert forall|t: Type| pool.to_set().contains(t) by {
        assert(pool[t.ordinal() as int] == t);
    }
    lemma_listing_complete(pool, 5);
    lemma_twelve_choose_five();
    assert forall|s: Set<Type>| s.finite() && s.len() == 5 implies exists|i: int|
        0 <= i < selections_of_five().len() && (#[trigger] selections_of_five()[i]).to_set()
            == s by {
        assert(s.subset_of(pool.to_set()));
        let i = choose|i: int|
            0 <= i < combination_listing(pool, 5).len() && (#[trigger] combination_listing(
                pool,
                5,
            )[i]).to_set() == s;
        assert(selections_of_five()[i].to_set() == s);
    }
}

/// The analysis of the chart: the tally over all 792 selections of five
/// categories out of the twelve, taken in lexicographic order of the
/// positions that their members have in the chart. Each histogram sums to
/// 792.
pub fn analyze() -> (r: Analysis)
    ensures
        r.tallies(selections_of_five()),
        selections_of_five().len() == 792,
        forall|kind: RelationKind| #[trigger] total(counts(r.spec_histogram(kind))) == 792,
{
    let types = Type::all();
    let combinations = enumerate_combinations(types.as_slice(), SELECTION_SIZE);
    proof {
        lemma_combinations_from_len(0, 12, 5);
        lemma_twelve_choose_five();
        assert(rows(combinations@).len() == lex_combinations(12, 5).len());
    }
    tally(combinations.as_slice())
}

/// What member `i` alone adds to the union: the categories of the union
/// that the other members do not list.
pub open spec fn unique_contribution(members: Seq<Type>, kind: RelationKind, i: int) -> Set<
    Type,
> {
    union_of(members, kind).difference(union_of(members.remove(i), kind))
}

/// Replacing one member of a selection lowers the size of the union by no
/// more than the number of categories that the member alone added.
pub proof fn lemma_replacement_loss_bounded(
    members: Seq<Type>,
    kind: RelationKind,
    i: int,
    replacement: Type,
)
    requires
        0 <= i < members.len(),
    ensures
        union_size(members.update(i, replacement), kind) + unique_contribution(
            members,
            kind,
            i,
        ).len() >= union_size(members, kind),
{
    let whole = union_of(members, kind);
    let others = members.remove(i);
    let rest = union_of(others, kind);
    let replaced = members.update(i, replacement);
    let after = union_of(replaced, kind);
    lemma_type_set_bounded(whole);
    lemma_type_set_bounded(rest);
    lemma_type_set_bounded(after);
    assert forall|t: Type| rest.contains(t) implies whole.contains(t) && after.contains(t) by {
        let m = choose|m: int|
            0 <= m < others.len() && m < others.len() && #[trigger] relation_row(
                others[m],
                kind,
            ).contains(t);
        let at = if m < i {
            m
        } else {
            m + 1
        };
        assert(others[m] == members[at]);
        assert(relation_row(members[at], kind).contains(t));
        assert(replaced[at] == members[at]);
        assert(relation_row(replaced[at], kind).contains(t));
    }
    assert(whole.intersect(rest) =~= rest);
    vstd::set_lib::lemma_set_difference_len(whole, rest);
    vstd::set_lib::lemma_len_subset(rest, after);
}

/// The selections determine the tally: two tallies over the same
/// selections have the same four histograms and the same matches in the
/// same order.
pub proof fn lemma_tally_determined(a: Analysis, b: Analysis, combos: Seq<Seq<Type>>)
    requires
        a.tallies(combos),
        b.tallies(combos),
    ensures
        a.effective_against == b.effective_against,
        a.ineffective_against == b.ineffective_against,
        a.resilient_to == b.resilient_to,
        a.weak_to == b.weak_to,
        match_rows(a.matches@) == match_rows(b.matches@),
{
    assert forall|kind: RelationKind| #[trigger]
        a.spec_histogram(kind) == b.spec_histogram(kind) by {
        let x = a.spec_histogram(kind);
        let y = b.spec_histogram(kind);
        assert(counts(x) == counts(y));
        assert forall|size: int| 0 <= size < 13 implies x[size] == y[size] by {
            assert(counts(x)[size] == counts(y)[size]);
        }
        assert(x =~= y);
    }
    assert(a.spec_histogram(RelationKind::EffectiveAgainst) == b.spec_histogram(
        RelationKind::EffectiveAgainst,
    ));
    assert(a.spec_histogram(RelationKind::IneffectiveAgainst) == b.spec_histogram(
        RelationKind::IneffectiveAgainst,
    ));
    assert(a.spec_histogram(RelationKind::ResilientTo) == b.spec_histogram(
        RelationKind::ResilientTo,
    ));
    assert(a.spec_histogram(RelationKind::WeakTo) == b.spec_histogram(RelationKind::WeakTo));
}

} // verus!
