//! Objects, morphisms and the category registry.
//!
//! A category keeps an insertion-ordered sequence of objects and, for each
//! ordered pair of object indices, the homset of morphisms between them.
//! Morphisms are compared extensionally at a single point: their declared
//! domain. This is a deliberate simplification, not a general law of
//! morphism equality.

use std::fmt::Debug;
use std::hash::Hash;
use vstd::prelude::*;
use vstd::std_specs::cmp::PartialEqSpec;

verus! {

/// A value that can serve as an object of a category.
///
/// Objects are compared with `==`. Implementations promise that this
/// comparison is an equivalence relation and that a clone equals its source.
pub trait Object: Clone + Eq + Hash + Debug {
    /// `==` agrees with `eq_spec`, which is reflexive, symmetric and
    /// transitive, and relates every value to its clones.
    proof fn equality_laws()
        ensures
            Self::obeys_eq_spec(),
            forall|x: Self| #[trigger] x.eq_spec(&x),
            forall|x: Self, y: Self| #[trigger] x.eq_spec(&y) ==> y.eq_spec(&x),
            forall|x: Self, y: Self, z: Self|
                #[trigger] x.eq_spec(&y) && #[trigger] y.eq_spec(&z) ==> x.eq_spec(&z),
            forall|x: Self, y: Self| #[trigger] cloned(x, y) ==> x.eq_spec(&y),
    ;
}

/// A map from one object to another, with a fixed domain and codomain.
pub trait Morphism<A: Object, B: Object> {
    /// The object this morphism starts at.
    spec fn source(&self) -> A;

    /// The object this morphism ends at.
    spec fn target(&self) -> B;

    /// The value this morphism sends `x` to.
    spec fn image(&self, x: A) -> B;

    fn domain(&self) -> (d: &A)
        ensures
            *d == self.source(),
    ;

    fn codomain(&self) -> (c: &B)
        ensures
            *c == self.target(),
    ;

    /// Applies the morphism. It is only defined at values equal to the
    /// domain, and it is deterministic there.
    fn map(&self, domain: &A) -> (r: B)
        requires
            domain.eq_spec(&self.source()),
        ensures
            r == self.image(*domain),
    ;
}

/// Two morphisms count as equal when their domains are equal, their
/// codomains are equal, and they send their own domains to equal values.
pub open spec fn equal_morphisms<A: Object, B: Object, M: Morphism<A, B> + ?Sized>(
    first: &Box<M>,
    second: &Box<M>,
) -> bool {
    &&& first.source().eq_spec(&second.source())
    &&& first.target().eq_spec(&second.target())
    &&& first.image(first.source()).eq_spec(&second.image(second.source()))
}

/// The value obtained by sending `a` through `first` and then `second`.
pub open spec fn composite<
    A: Object,
    B: Object,
    C: Object,
    F: Morphism<A, B> + ?Sized,
    G: Morphism<B, C> + ?Sized,
>(a: A, first: &Box<F>, second: &Box<G>) -> C {
    second.image(first.image(a))
}

/// `first` may be applied to `a`, and `second` to what `first` yields.
pub open spec fn composable_at<
    A: Object,
    B: Object,
    C: Object,
    F: Morphism<A, B> + ?Sized,
    G: Morphism<B, C> + ?Sized,
>(a: A, first: &Box<F>, second: &Box<G>) -> bool {
    &&& a.eq_spec(&first.source())
    &&& first.image(a).eq_spec(&second.source())
}

/// Decides whether two morphisms are equal, by comparing their domains,
/// their codomains and the values they give at their own domains.
pub fn check_eq_morphisms<A: Object, B: Object, M: Morphism<A, B> + ?Sized>(
    first: &Box<M>,
    second: &Box<M>,
) -> (r: bool)
    ensures
        r == equal_morphisms(first, second),
{
    proof {
        A::equality_laws();
        B::equality_laws();
    }
    if *first.domain() == *second.domain() && *first.codomain() == *second.codomain()
        && first.map(first.domain()) == second.map(second.domain()) {
        return true;
    }
    false
}

/// Sends `domain` through `first` and then through `second`.
pub fn compose<
    A: Object,
    B: Object,
    C: Object,
    F: Morphism<A, B> + ?Sized,
    G: Morphism<B, C> + ?Sized,
>(domain: &A, first: &Box<F>, second: &Box<G>) -> (r: C)
    requires
        composable_at(*domain, first, second),
    ensures
        r == composite(*domain, first, second),
{
    second.map(&first.map(domain))
}

/// Some element of `objects` equals `o`.
pub open spec fn has_object<O: Object>(objects: Seq<O>, o: O) -> bool {
    exists|i: int| 0 <= i < objects.len() && (#[trigger] objects[i]).eq_spec(&o)
}

/// What a sequence of objects becomes when `o` is offered to it: unchanged if
/// some element already equals `o`, otherwise extended by `o`.
pub open spec fn with_object<O: Object>(objects: Seq<O>, o: O) -> Seq<O> {
    if has_object(objects, o) {
        objects
    } else {
        objects.push(o)
    }
}

/// `copies` holds, position by position, a clone of each element of
/// `objects`, equal to it.
pub open spec fn copies_of<O: Object>(objects: Seq<O>, copies: Seq<O>) -> bool {
    &&& copies.len() == objects.len()
    &&& forall|i: int|
        #![trigger copies[i]]
        0 <= i < objects.len() ==> cloned(objects[i], copies[i]) && objects[i].eq_spec(&copies[i])
}

/// No two elements at different positions are equal.
pub open spec fn distinct_objects<O: Object>(objects: Seq<O>) -> bool {
    forall|i: int, j: int|
        #![trigger objects[i], objects[j]]
        0 <= i < objects.len() && 0 <= j < objects.len() && i != j ==> !objects[i].eq_spec(&objects[j])
}

/// Some member of `homset` equals `m`.
pub open spec fn has_morphism<A: Object, B: Object, M: Morphism<A, B> + ?Sized>(
    homset: Seq<Box<M>>,
    m: &Box<M>,
) -> bool {
    exists|i: int| #![trigger homset[i]] 0 <= i < homset.len() && equal_morphisms(&homset[i], m)
}

/// What a homset becomes when `m` is offered to it: unchanged if some member
/// already equals `m`, otherwise extended by `m`.
pub open spec fn with_morphism<A: Object, B: Object, M: Morphism<A, B> + ?Sized>(
    homset: Seq<Box<M>>,
    m: &Box<M>,
) -> Seq<Box<M>> {
    if has_morphism(homset, m) {
        homset
    } else {
        homset.push(*m)
    }
}

/// The homset stored under `key`, or the empty homset where there is none.
pub open spec fn homset_at<O: Object, M: Morphism<O, O> + ?Sized>(
    homsets: Map<(usize, usize), Seq<Box<M>>>,
    key: (usize, usize),
) -> Seq<Box<M>> {
    if homsets.dom().contains(key) {
        homsets[key]
    } else {
        Seq::empty()
    }
}

/// The homsets after `m` is offered to the homset stored under `key`.
pub open spec fn homsets_with<O: Object, M: Morphism<O, O> + ?Sized>(
    homsets: Map<(usize, usize), Seq<Box<M>>>,
    key: (usize, usize),
    m: &Box<M>,
) -> Map<(usize, usize), Seq<Box<M>>> {
    homsets.insert(key, with_morphism(homset_at(homsets, key), m))
}

/// One homset together with the pair of object indices it belongs to.
#[verifier::reject_recursive_types(M)]
struct HomEntry<M: ?Sized> {
    domain: usize,
    codomain: usize,
    homset: Vec<Box<M>>,
}

impl<M: ?Sized> HomEntry<M> {
    spec fn key(self) -> (usize, usize) {
        (self.domain, self.codomain)
    }
}

/// Every pair of indices keys at most one entry.
spec fn keys_unique<M: ?Sized>(entries: Seq<HomEntry<M>>) -> bool {
    forall|i: int, j: int|
        #![trigger entries[i], entries[j]]
        0 <= i < entries.len() && 0 <= j < entries.len() && i != j ==> entries[i].key()
            != entries[j].key()
}

/// `entries[i]` is stored under `key`.
spec fn stored_at<M: ?Sized>(entries: Seq<HomEntry<M>>, key: (usize, usize), i: int) -> bool {
    0 <= i < entries.len() && entries[i].key() == key
}

/// The mapping from keys to homsets that a list of entries stands for.
spec fn homsets_of<M: ?Sized>(entries: Seq<HomEntry<M>>) -> Map<
    (usize, usize),
    Seq<Box<M>>,
> {
    Map::new(
        |k: (usize, usize)| exists|i: int| stored_at(entries, k, i),
        |k: (usize, usize)| entries[choose|i: int| stored_at(entries, k, i)].homset@,
    )
}

/// Under unique keys, the mapping holds exactly the homset of each entry
/// under that entry's key.
proof fn lemma_homsets_of_entry<M: ?Sized>(entries: Seq<HomEntry<M>>, i: int)
    requires
        keys_unique(entries),
        0 <= i < entries.len(),
    ensures
        homsets_of(entries).dom().contains(entries[i].key()),
        homsets_of(entries)[entries[i].key()] == entries[i].homset@,
{
    let k = entries[i].key();
    assert(stored_at(entries, k, i));
    let j = choose|j: int| stored_at(entries, k, j);
    assert(j == i);
}

/// Appending an entry under a fresh key adds exactly that key.
proof fn lemma_homsets_of_push<M: ?Sized>(entries: Seq<HomEntry<M>>, e: HomEntry<M>)
    requires
        keys_unique(entries),
        forall|i: int| 0 <= i < entries.len() ==> (#[trigger] entries[i]).key() != e.key(),
    ensures
        keys_unique(entries.push(e)),
        !homsets_of(entries).dom().contains(e.key()),
        homsets_of(entries.push(e)) == homsets_of(entries).insert(e.key(), e.homset@),
{
    let after = entries.push(e);
    let expected = homsets_of(entries).insert(e.key(), e.homset@);
    assert forall|k: (usize, usize)| #[trigger]
        homsets_of(after).dom().contains(k) implies expected.dom().contains(k) by {
        let i = choose|i: int| stored_at(after, k, i);
        if i < entries.len() {
            assert(stored_at(entries, k, i));
        }
    }
    assert forall|k: (usize, usize)| #[trigger]
        expected.dom().contains(k) implies homsets_of(after).dom().contains(k) && homsets_of(
        after,
    )[k] == expected[k] by {
        if k == e.key() {
            assert(after[entries.len() as int] == e);
            lemma_homsets_of_entry(after, entries.len() as int);
        } else {
            let i = choose|i: int| stored_at(entries, k, i);
            assert(after[i] == entries[i]);
            lemma_homsets_of_entry(after, i);
            lemma_homsets_of_entry(entries, i);
        }
    }
    assert(homsets_of(after) =~= expected);
}

/// Replacing an entry by one with the same key replaces that key's homset.
proof fn lemma_homsets_of_update<M: ?Sized>(entries: Seq<HomEntry<M>>, at: int, e: HomEntry<M>)
    requires
        keys_unique(entries),
        0 <= at < entries.len(),
        entries[at].key() == e.key(),
    ensures
        keys_unique(entries.update(at, e)),
        homsets_of(entries.update(at, e)) == homsets_of(entries).insert(e.key(), e.homset@),
{
    let after = entries.update(at, e);
    let expected = homsets_of(entries).insert(e.key(), e.homset@);
    assert forall|k: (usize, usize)| #[trigger]
        homsets_of(after).dom().contains(k) implies expected.dom().contains(k) by {
        let i = choose|i: int| stored_at(after, k, i);
        assert(stored_at(entries, k, i));
    }
    assert forall|k: (usize, usize)| #[trigger]
        expected.dom().contains(k) implies homsets_of(after).dom().contains(k) && homsets_of(
        after,
    )[k] == expected[k] by {
        if k == e.key() {
            lemma_homsets_of_entry(after, at);
        } else {
            let i = choose|i: int| stored_at(entries, k, i);
            assert(after[i] == entries[i]);
            lemma_homsets_of_entry(after, i);
            lemma_homsets_of_entry(entries, i);
        }
    }
    assert(homsets_of(after) =~= expected);
}

/// Under unique keys, there are as many keys as entries.
proof fn lemma_homsets_of_size<M: ?Sized>(entries: Seq<HomEntry<M>>)
    requires
        keys_unique(entries),
    ensures
        homsets_of(entries).dom().finite(),
        homsets_of(entries).dom().len() == entries.len(),
    decreases entries.len(),
{
    if entries.len() == 0 {
        assert(homsets_of(entries).dom() =~= Set::empty());
    } else {
        let front = entries.drop_last();
        let e = entries.last();
        assert(entries =~= front.push(e));
        assert forall|i: int, j: int|
            #![trigger front[i], front[j]]
            0 <= i < front.len() && 0 <= j < front.len() && i != j implies front[i].key()
            != front[j].key() by {
            assert(front[i] == entries[i] && front[j] == entries[j]);
        }
        assert forall|i: int| 0 <= i < front.len() implies (#[trigger] front[i]).key()
            != e.key() by {
            assert(front[i] == entries[i] && e == entries[entries.len() - 1]);
        }
        lemma_homsets_of_size(front);
        lemma_homsets_of_push(front, e);
        assert(homsets_of(entries).dom() =~= homsets_of(front).dom().insert(e.key()));
    }
}

/// A `Category` of a single class of object
/// e.g. Vect_k, Hilb_k
///
/// `M` is the kind of morphism it holds: by default any implementation of
/// [`Morphism`], behind a trait object.
#[verifier::reject_recursive_types(O)]
#[verifier::reject_recursive_types(M)]
pub struct Category<O: Object, M: Morphism<O, O> + ?Sized = dyn Morphism<O, O>> {
    objects: Vec<O>,
    morphisms: Vec<HomEntry<M>>,
}

impl<O: Object, M: Morphism<O, O> + ?Sized> Category<O, M> {
    /// Well-formedness: every pair of indices keys at most one stored homset.
    pub closed spec fn wf(&self) -> bool {
        keys_unique(self.morphisms@)
    }

    /// The objects, in insertion order.
    pub closed spec fn object_seq(&self) -> Seq<O> {
        self.objects@
    }

    /// The homsets, keyed by (domain index, codomain index).
    pub closed spec fn homsets(&self) -> Map<(usize, usize), Seq<Box<M>>> {
        homsets_of(self.morphisms@)
    }

    /// An empty category: no objects, no morphisms.
    pub fn create() -> (c: Self)
        ensures
            c.wf(),
            c.object_seq() == Seq::<O>::empty(),
            c.homsets() == Map::<(usize, usize), Seq<Box<M>>>::empty(),
    {
        let c = Category { objects: Vec::new(), morphisms: Vec::new() };
        assert(c.homsets() =~= Map::empty());
        c
    }

    /// A category of copies of `objects`, in the same order, without
    /// morphisms. Equal objects are not merged.
    pub fn from_object_list(objects: &[O]) -> (c: Self)
        ensures
            c.wf(),
            copies_of(objects@, c.object_seq()),
            c.homsets() == Map::<(usize, usize), Seq<Box<M>>>::empty(),
    {
        proof {
            O::equality_laws();
        }
        let mut copies: Vec<O> = Vec::new();
        let mut i: usize = 0;
        while i < objects.len()
            invariant
                i <= objects@.len(),
                forall|x: O, y: O| #[trigger] cloned(x, y) ==> x.eq_spec(&y),
                copies_of(objects@.take(i as int), copies@),
            decreases objects@.len() - i,
        {
            let copy = objects[i].clone();
            assert(cloned(objects@[i as int], copy));
            copies.push(copy);
            i += 1;
        }
        assert(objects@.take(i as int) =~= objects@);
        let c = Category { objects: copies, morphisms: Vec::new() };
        assert(c.homsets() =~= Map::empty());
        c
    }

    /// The objects, in insertion order.
    pub fn objects(&self) -> (r: &Vec<O>)
        ensures
            r@ == self.object_seq(),
    {
        &self.objects
    }

    /// The homset stored for the pair `(domain, codomain)`, if there is one.
    pub fn homset(&self, domain: usize, codomain: usize) -> (r: Option<&Vec<Box<M>>>)
        requires
            self.wf(),
        ensures
            match r {
                Some(members) => self.homsets().dom().contains((domain, codomain)) && members@
                    == self.homsets()[(domain, codomain)],
                None => !self.homsets().dom().contains((domain, codomain)),
            },
    {
        match self.find_homset(domain, codomain) {
            Some(at) => {
                proof {
                    lemma_homsets_of_entry(self.morphisms@, at as int);
                }
                Some(&self.morphisms[at].homset)
            },
            None => None,
        }
    }

    /// The number of pairs that have a homset.
    pub fn homset_count(&self) -> (n: usize)
        requires
            self.wf(),
        ensures
            self.homsets().dom().finite(),
            n == self.homsets().dom().len(),
    {
        proof {
            lemma_homsets_of_size(self.morphisms@);
        }
        self.morphisms.len()
    }

    /// Appends `object` unless an equal object is already there. Objects
    /// that were distinct before stay distinct.
    pub fn add_object(&mut self, object: O)
        requires
            old(self).wf(),
        ensures
            final(self).wf(),
            distinct_objects(old(self).object_seq()) ==> distinct_objects(final(self).object_seq()),
            final(self).object_seq() == with_object(old(self).object_seq(), object),
            final(self).homsets() == old(self).homsets(),
    {
        proof {
            O::equality_laws();
        }
        let mut i: usize = 0;
        while i < self.objects.len()
            invariant
                O::obeys_eq_spec(),
                *self == *old(self),
                old(self).wf(),
                i <= self.objects.len(),
                forall|k: int| 0 <= k < i ==> !(#[trigger] self.objects@[k]).eq_spec(&object),
            decreases self.objects.len() - i,
        {
            if self.objects[i] == object {
                return ;
            }
            i += 1;
        }
        self.objects.push(object);
    }
    /// The position of the homset stored for `(domain, codomain)`, if any.
    fn find_homset(&self, domain: usize, codomain: usize) -> (found: Option<usize>)
        ensures
            match found {
                Some(at) => stored_at(self.morphisms@, (domain, codomain), at as int),
                None => forall|i: int|
                    0 <= i < self.morphisms.len() ==> (#[trigger] self.morphisms@[i]).key() != (
                        domain,
                        codomain,
                    ),
            },
    {
        let mut i: usize = 0;
        while i < self.morphisms.len()
            invariant
                i <= self.morphisms.len(),
                forall|k: int|
                    0 <= k < i ==> (#[trigger] self.morphisms@[k]).key() != (domain, codomain),
            decreases self.morphisms.len() - i,
        {
            if self.morphisms[i].domain == domain && self.morphisms[i].codomain == codomain {
                return Some(i);
            }
            i += 1;
        }
        None
    }

    /// Offers `map` to the homset of `(domain, codomain)`, creating the
    /// homset if there is none yet; a morphism equal to a member is not
    /// stored again. Neither the indices nor the morphism's own domain and
    /// codomain are checked against the objects.
    pub fn add_morphism(&mut self, domain: usize, codomain: usize, map: Box<M>)
        requires
            old(self).wf(),
        ensures
            final(self).wf(),
            final(self).object_seq() == old(self).object_seq(),
            final(self).homsets() == homsets_with(old(self).homsets(), (domain, codomain), &map),
    {
        let result = self.find_homset(domain, codomain);
        if result.is_none() {
            let entry = HomEntry { domain, codomain, homset: vec![map] };
            proof {
                lemma_homsets_of_push(self.morphisms@, entry);
                assert(entry.homset@ =~= Seq::<Box<M>>::empty().push(map));
            }
            self.morphisms.push(entry);
            return ;
        }
        let at: usize = result.unwrap();
        proof {
            lemma_homsets_of_entry(self.morphisms@, at as int);
        }
        let mut insert = true;
        let mut i: usize = 0;
        while i < self.morphisms[at].homset.len()
            invariant
                *self == *old(self),
                at < self.morphisms.len(),
                i <= self.morphisms[at as int].homset.len(),
                insert <==> forall|k: int|
                    #![trigger self.morphisms[at as int].homset@[k]]
                    0 <= k < i ==> !equal_morphisms(&self.morphisms[at as int].homset@[k], &map),
            decreases self.morphisms[at as int].homset.len() - i,
        {
            if check_eq_morphisms(&self.morphisms[at].homset[i], &map) {
                insert = false;
            }
            i += 1;
        }
        if insert {
            let ghost before = self.morphisms@;
            self.morphisms[at].homset.push(map);
            proof {
                assert(self.morphisms@ =~= before.update(at as int, self.morphisms@[at as int]));
                lemma_homsets_of_update(before, at as int, self.morphisms@[at as int]);
            }
        } else {
            proof {
                let homset = self.morphisms@[at as int].homset@;
                assert(old(self).homsets().insert((domain, codomain), homset) =~= old(self).homsets());
            }
        }
    }
}

} // verus!
