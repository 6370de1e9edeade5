//! Laws of the category registry, stated over the models that the
//! registry's operations are specified with.

use crate::categories::{
    composite, distinct_objects, equal_morphisms, has_morphism, has_object, homset_at,
    homsets_with, with_morphism, with_object, Morphism, Object,
};
use vstd::prelude::*;
use vstd::std_specs::cmp::PartialEqSpec;

verus! {

/// The objects obtained by offering each element of `added`, in order, to
/// `objects`.
pub open spec fn with_objects<O: Object>(objects: Seq<O>, added: Seq<O>) -> Seq<O>
    decreases added.len(),
{
    if added.len() == 0 {
        objects
    } else {
        with_object(with_objects(objects, added.drop_last()), added.last())
    }
}

/// Offering the same object a second time changes nothing.
pub proof fn lemma_add_object_idempotent<O: Object>(objects: Seq<O>, o: O)
    ensures
        with_object(with_object(objects, o), o) == with_object(objects, o),
{
    O::equality_laws();
    if !has_object(objects, o) {
        assert(objects.push(o)[objects.len() as int].eq_spec(&o));
    }
}

/// Offering an object to a sequence without equal elements yields a
/// sequence without equal elements.
pub proof fn lemma_add_object_keeps_distinct<O: Object>(objects: Seq<O>, o: O)
    requires
        distinct_objects(objects),
    ensures
        distinct_objects(with_object(objects, o)),
{
    O::equality_laws();
}

/// Starting from no objects, any sequence of additions leaves no two
/// elements equal.
pub proof fn lemma_objects_stay_distinct<O: Object>(added: Seq<O>)
    ensures
        distinct_objects(with_objects(Seq::empty(), added)),
    decreases added.len(),
{
    if added.len() > 0 {
        lemma_objects_stay_distinct(added.drop_last());
        lemma_add_object_keeps_distinct(
            with_objects(Seq::empty(), added.drop_last()),
            added.last(),
        );
    }
}

/// Morphism equality is reflexive, symmetric and transitive.
pub proof fn lemma_equal_morphisms_is_equivalence<A: Object, B: Object, M: Morphism<A, B> + ?Sized>(
    f: &Box<M>,
    g: &Box<M>,
    h: &Box<M>,
)
    ensures
        equal_morphisms(f, f),
        equal_morphisms(f, g) ==> equal_morphisms(g, f),
        equal_morphisms(f, g) && equal_morphisms(g, h) ==> equal_morphisms(f, h),
{
    A::equality_laws();
    B::equality_laws();
}

/// Offering a morphism equal to one offered just before changes nothing:
/// of two equal morphisms only the first is kept.
pub proof fn lemma_add_morphism_dedup<A: Object, B: Object, M: Morphism<A, B> + ?Sized>(
    homset: Seq<Box<M>>,
    m1: &Box<M>,
    m2: &Box<M>,
)
    requires
        equal_morphisms(m1, m2),
    ensures
        with_morphism(with_morphism(homset, m1), m2) == with_morphism(homset, m1),
{
    let once = with_morphism(homset, m1);
    if has_morphism(homset, m1) {
        let i = choose|i: int|
            #![trigger homset[i]]
            0 <= i < homset.len() && equal_morphisms(&homset[i], m1);
        lemma_equal_morphisms_is_equivalence(&homset[i], m1, m2);
        assert(equal_morphisms(&once[i], m2));
    } else {
        assert(once[homset.len() as int] == *m1);
        assert(equal_morphisms(&once[homset.len() as int], m2));
    }
}

/// Offering a morphism that equals no member grows the homset by exactly
/// that morphism; offering one that equals a member leaves it as it is.
pub proof fn lemma_homset_growth<A: Object, B: Object, M: Morphism<A, B> + ?Sized>(
    homset: Seq<Box<M>>,
    m: &Box<M>,
)
    ensures
        !has_morphism(homset, m) ==> with_morphism(homset, m) == homset.push(*m) && with_morphism(
            homset,
            m,
        ).len() == homset.len() + 1,
        has_morphism(homset, m) ==> with_morphism(homset, m) == homset,
{
}

/// Adding a morphism and then one equal to it, under the same key, leaves
/// the homsets as they were after the first addition. Where the key had no
/// homset before, its homset then holds the first morphism and nothing else.
pub proof fn lemma_add_morphism_twice<O: Object, M: Morphism<O, O> + ?Sized>(
    homsets: Map<(usize, usize), Seq<Box<M>>>,
    key: (usize, usize),
    m1: &Box<M>,
    m2: &Box<M>,
)
    requires
        equal_morphisms(m1, m2),
    ensures
        homsets_with(homsets_with(homsets, key, m1), key, m2) == homsets_with(homsets, key, m1),
        !homsets.dom().contains(key) ==> homsets_with(homsets_with(homsets, key, m1), key, m2)[key]
            == Seq::<Box<M>>::empty().push(*m1) && homsets_with(
            homsets_with(homsets, key, m1),
            key,
            m2,
        )[key].len() == 1,
{
    lemma_add_morphism_dedup(homset_at(homsets, key), m1, m2);
    let once = homsets_with(homsets, key, m1);
    assert(homsets_with(once, key, m2) =~= once);
}

/// Adding a morphism that equals no member of its homset makes that homset
/// one longer, with the new morphism last, and changes no other homset.
pub proof fn lemma_add_morphism_grows<O: Object, M: Morphism<O, O> + ?Sized>(
    homsets: Map<(usize, usize), Seq<Box<M>>>,
    key: (usize, usize),
    m: &Box<M>,
)
    requires
        !has_morphism(homset_at(homsets, key), m),
    ensures
        homset_at(homsets_with(homsets, key, m), key) == homset_at(homsets, key).push(*m),
        homset_at(homsets_with(homsets, key, m), key).len() == homset_at(homsets, key).len() + 1,
        forall|other: (usize, usize)|
            other != key ==> #[trigger] homset_at(homsets_with(homsets, key, m), other)
                == homset_at(homsets, other),
{
}

/// Composition is associative at every value: sending `a` through `f` and
/// `g` and then applying `h` gives what sending `f`'s value at `a` through
/// `g` and `h` gives.
pub proof fn lemma_compose_associative<
    A: Object,
    B: Object,
    C: Object,
    D: Object,
    F: Morphism<A, B> + ?Sized,
    G: Morphism<B, C> + ?Sized,
    H: Morphism<C, D> + ?Sized,
>(a: A, f: &Box<F>, g: &Box<G>, h: &Box<H>)
    ensures
        h.image(composite(a, f, g)) == composite(f.image(a), g, h),
{
}

} // verus!
