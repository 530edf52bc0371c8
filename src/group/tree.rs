//! Straight-line programs record how an element was formed from generators
//! instead of computing it. A morphism evaluates the record into a word of a
//! free group when it is needed.
use std::collections::HashMap;
use std::marker::PhantomData;
use std::rc::Rc;
use vstd::prelude::*;

use super::free::Word;
use super::text::{decimal, identity_text, new_identity_text, push_char, push_text, u64_text};
use super::{times_total, GroupAction, GroupElement, Morphism};

verus! {

/// Single Line Program (SLP): an expression over tagged generators that can
/// be evaluated to actual group elements.
#[derive(Debug, Eq, Hash)]
pub enum SLP {
    /// The identity element of a SLP.
    Identity,
    /// A generator, indexed by an integer.
    Generator(u64),
    /// Product of two SLPs.
    Product(Box<SLP>, Box<SLP>),
    /// Inverse of a SLP.
    Inverse(Box<SLP>),
}

impl View for SLP {
    type V = SLP;

    open spec fn view(&self) -> SLP {
        *self
    }
}

impl PartialEq for SLP {
    fn eq(&self, other: &SLP) -> (r: bool)
        ensures
            r == (*self == *other),
        decreases self,
    {
        match (self, other) {
            (SLP::Identity, SLP::Identity) => true,
            (SLP::Generator(a), SLP::Generator(b)) => *a == *b,
            (SLP::Product(l1, r1), SLP::Product(l2, r2)) => (**l1).eq(&**l2) && (**r1).eq(&**r2),
            (SLP::Inverse(t1), SLP::Inverse(t2)) => (**t1).eq(&**t2),
            _ => false,
        }
    }
}

impl vstd::std_specs::cmp::PartialEqSpecImpl for SLP {
    open spec fn obeys_eq_spec() -> bool {
        true
    }

    open spec fn eq_spec(&self, other: &SLP) -> bool {
        *self == *other
    }
}

impl Clone for SLP {
    fn clone(&self) -> (r: SLP)
        ensures
            r == *self,
        decreases self,
    {
        match self {
            SLP::Identity => SLP::Identity,
            SLP::Generator(n) => SLP::Generator(*n),
            SLP::Product(left, right) => SLP::Product(
                Box::new((**left).clone()),
                Box::new((**right).clone()),
            ),
            SLP::Inverse(term) => SLP::Inverse(Box::new((**term).clone())),
        }
    }
}

/// The word that `s` denotes once each generator tag is replaced by its image,
/// and products and inverses are taken in the free group.
pub open spec fn transform_view(s: SLP, m: Map<u64, Word>) -> Seq<(char, int)>
    decreases s,
{
    match s {
        SLP::Identity => Seq::empty(),
        SLP::Generator(tag) => m[tag]@,
        SLP::Product(left, right) => Word::times_view(
            transform_view(*left, m),
            transform_view(*right, m),
        ),
        SLP::Inverse(term) => Word::inverse_view(transform_view(*term, m)),
    }
}

/// Every generator tag of `s` has an image, and every product along the way
/// stays within machine exponents.
pub open spec fn transform_defined(s: SLP, m: Map<u64, Word>) -> bool
    decreases s,
{
    match s {
        SLP::Identity => true,
        SLP::Generator(tag) => m.contains_key(tag),
        SLP::Product(left, right) => transform_defined(*left, m) && transform_defined(*right, m)
            && Word::times_defined(transform_view(*left, m), transform_view(*right, m)),
        SLP::Inverse(term) => transform_defined(*term, m),
    }
}

/// The text of an SLP: `Id`, `G_n`, `(left) * (right)` or `(term)^-1`.
pub open spec fn slp_text(s: SLP) -> Seq<char>
    decreases s,
{
    match s {
        SLP::Identity => identity_text(),
        SLP::Generator(n) => seq!['G', '_'] + decimal(n as int),
        SLP::Product(left, right) => seq!['('] + slp_text(*left) + seq![')', ' ', '*', ' ', '(']
            + slp_text(*right) + seq![')'],
        SLP::Inverse(term) => seq!['('] + slp_text(*term) + seq![')', '^', '-', '1'],
    }
}

impl SLP {
    /// Map the `SLP` in to a `Word` according to the `Morphism`, checking on
    /// the way: `None` when a generator tag has no image or a product's
    /// exponents would leave machine integers.
    pub fn try_transform(&self, morphism: &Morphism) -> (r: Option<Word>)
        ensures
            r is Some <==> transform_defined(*self, morphism@),
            r matches Some(w) ==> w@ == transform_view(*self, morphism@),
        decreases self,
    {
        match self {
            SLP::Identity => Some(Word::identity()),
            SLP::Generator(tag) => {
                if morphism.has_image(*tag) {
                    Some(morphism.transform(self))
                } else {
                    None
                }
            },
            SLP::Product(left, right) => {
                let l = match (**left).try_transform(morphism) {
                    Some(w) => w,
                    None => {
                        return None;
                    },
                };
                let r = match (**right).try_transform(morphism) {
                    Some(w) => w,
                    None => {
                        return None;
                    },
                };
                let a = l.weight();
                let b = r.weight();
                if a as u128 + b as u128 > i64::MAX as u128 {
                    return None;
                }
                Some(l.times(&r))
            },
            SLP::Inverse(term) => match (**term).try_transform(morphism) {
                Some(w) => Some(w.inverse()),
                None => None,
            },
        }
    }

    /// Renders the expression, such as `(G_1) * (G_2)`.
    pub fn to_string(&self) -> (r: String)
        ensures
            r@ == slp_text(*self),
        decreases self,
    {
        match self {
            SLP::Identity => new_identity_text(),
            SLP::Generator(n) => {
                let mut out = String::new();
                push_char(&mut out, 'G');
                push_char(&mut out, '_');
                let digits = u64_text(*n);
                push_text(&mut out, &digits);
                assert(out@ =~= slp_text(*self));
                out
            },
            SLP::Product(left, right) => {
                let mut out = String::new();
                push_char(&mut out, '(');
                let l = (**left).to_string();
                push_text(&mut out, &l);
                push_char(&mut out, ')');
                push_char(&mut out, ' ');
                push_char(&mut out, '*');
                push_char(&mut out, ' ');
                push_char(&mut out, '(');
                let r = (**right).to_string();
                push_text(&mut out, &r);
                push_char(&mut out, ')');
                assert(out@ =~= slp_text(*self));
                out
            },
            SLP::Inverse(term) => {
                let mut out = String::new();
                push_char(&mut out, '(');
                let t = (**term).to_string();
                push_text(&mut out, &t);
                push_char(&mut out, ')');
                push_char(&mut out, '^');
                push_char(&mut out, '-');
                push_char(&mut out, '1');
                assert(out@ =~= slp_text(*self));
                out
            },
        }
    }

    /// Map the `SLP` in to a `Word` according to the `Morphism`.
    pub fn transform(&self, morphism: &Morphism) -> (r: Word)
        requires
            transform_defined(*self, morphism@),
        ensures
            r@ == transform_view(*self, morphism@),
        decreases self,
    {
        match self {
            SLP::Identity => Word::identity(),
            SLP::Generator(_) => morphism.transform(self),
            SLP::Product(left, right) => {
                let l = (**left).transform(morphism);
                let r = (**right).transform(morphism);
                l.times(&r)
            },
            SLP::Inverse(term) => (**term).transform(morphism).inverse(),
        }
    }
}

impl GroupElement for SLP {
    open spec fn identity_view(v: SLP) -> bool {
        v is Identity
    }

    open spec fn times_view(a: SLP, b: SLP) -> SLP {
        SLP::Product(Box::new(a), Box::new(b))
    }

    open spec fn inverse_view(a: SLP) -> SLP {
        SLP::Inverse(Box::new(a))
    }

    open spec fn times_defined(a: SLP, b: SLP) -> bool {
        true
    }

    fn is_identity(&self) -> (r: bool) {
        match self {
            SLP::Identity => true,
            _ => false,
        }
    }

    fn times(&self, multiplicant: &SLP) -> (r: SLP) {
        SLP::Product(Box::new(self.clone()), Box::new(multiplicant.clone()))
    }

    fn inverse(&self) -> (r: SLP) {
        SLP::Inverse(Box::new(self.clone()))
    }
}

/// Transforming commutes with the operations: the word of a product of SLPs
/// is the product of their words, the word of an inverse is the inverse word,
/// and the identity gives the empty word.
pub proof fn lemma_transform_commutes(left: SLP, right: SLP, m: Map<u64, Word>)
    ensures
        transform_view(SLP::times_view(left, right), m) == Word::times_view(
            transform_view(left, m),
            transform_view(right, m),
        ),
        transform_view(SLP::inverse_view(left), m) == Word::inverse_view(transform_view(left, m)),
        transform_view(SLP::Identity, m) == Seq::<(char, int)>::empty(),
        transform_defined(SLP::times_view(left, right), m) <==> transform_defined(left, m)
            && transform_defined(right, m) && Word::times_defined(
            transform_view(left, m),
            transform_view(right, m),
        ),
{
}

/// Cloning an element of `G` keeps its model.
pub open spec fn clone_keeps_view<G: Clone + View>() -> bool {
    forall|a: G, b: G| #[trigger] cloned::<G>(a, b) ==> b@ == a@
}

/// A `SLPElement` keeps track of how a word is formed in a `SLPCollection`.
#[derive(Clone, Copy, Debug, PartialEq, Eq)]
pub enum SLPElement {
    /// The base element, will evaluate to a group element.
    Generator(u64),
    /// A product of other words, which will be looked up by id in a `SLPCollection`.
    Product(u64, u64),
    /// An inverse of an other word, looked up by id in a `SLPCollection`.
    Inverse(u64),
}

/// The value of entry `id` of a collection with entries `elements` and
/// generator values `values`; `None` where an entry is missing or refers to
/// an entry that is not older than itself.
pub open spec fn collection_value<G: GroupElement>(
    elements: Map<u64, SLPElement>,
    values: Map<u64, G::V>,
    id: u64,
) -> Option<G::V>
    decreases id,
{
    if !elements.contains_key(id) {
        None
    } else {
        match elements[id] {
            SLPElement::Generator(g) => if values.contains_key(g) {
                Some(values[g])
            } else {
                None
            },
            SLPElement::Product(l, r) => if l < id && r < id {
                match (collection_value::<G>(elements, values, l), collection_value::<G>(elements, values, r)) {
                    (Some(a), Some(b)) => Some(G::times_view(a, b)),
                    _ => None,
                }
            } else {
                None
            },
            SLPElement::Inverse(t) => if t < id {
                match collection_value::<G>(elements, values, t) {
                    Some(a) => Some(G::inverse_view(a)),
                    None => None,
                }
            } else {
                None
            },
        }
    }
}

/// An entry may join a collection whose next id is `next` when it refers to
/// entries already there (a generator, to a value already there).
pub open spec fn element_fits<V>(
    elements: Map<u64, SLPElement>,
    values: Map<u64, V>,
    element: SLPElement,
) -> bool {
    match element {
        SLPElement::Generator(g) => values.contains_key(g),
        SLPElement::Product(l, r) => elements.contains_key(l) && elements.contains_key(r),
        SLPElement::Inverse(t) => elements.contains_key(t),
    }
}

/// A `SLPCollection` keeps track of words that are built up from each other,
/// each under an id; ids are handed out in increasing order and entries are
/// never changed once registered.
pub struct SLPCollection<G> where G: GroupElement {
    next_id: u64,
    associations: HashMap<u64, SLPElement>,
    evaluator: HashMap<u64, G>,
}

impl<G> SLPCollection<G> where G: GroupElement {
    /// The id the next registration gets.
    pub closed spec fn next(&self) -> u64 {
        self.next_id
    }

    /// The registered entries by id.
    pub closed spec fn elements(&self) -> Map<u64, SLPElement> {
        self.associations@
    }

    /// The models of the generator values by id.
    pub closed spec fn values(&self) -> Map<u64, G::V> {
        self.evaluator@.map_values(|g: G| g@)
    }

    /// Every entry has an id below the next one and refers only to older
    /// entries; every generator entry has its value.
    pub open spec fn wf(&self) -> bool {
        &&& forall|id: u64| #[trigger] self.elements().contains_key(id) ==> id < self.next()
        &&& forall|id: u64| #[trigger]
            self.elements().contains_key(id) ==> match self.elements()[id] {
                SLPElement::Generator(g) => self.values().contains_key(g),
                SLPElement::Product(l, r) => l < id && r < id && self.elements().contains_key(l)
                    && self.elements().contains_key(r),
                SLPElement::Inverse(t) => t < id && self.elements().contains_key(t),
            }
    }
}

impl<G> SLPCollection<G> where G: GroupElement + Clone {
    /// Create an empty `SLPCollection`.
    pub fn new() -> (r: SLPCollection<G>)
        ensures
            r.next() == 0,
            r.elements() == Map::<u64, SLPElement>::empty(),
            r.values() == Map::<u64, G::V>::empty(),
            r.wf(),
    {
        let r = SLPCollection { next_id: 0, associations: HashMap::new(), evaluator: HashMap::new() };
        assert(r.values() =~= Map::<u64, G::V>::empty());
        r
    }

    /// Register a new word in the collection; it may refer only to entries
    /// already registered. Returns the id with which this element can be
    /// looked up.
    pub fn register(&mut self, element: SLPElement) -> (id: u64)
        requires
            old(self).wf(),
            old(self).next() < u64::MAX,
            element_fits(old(self).elements(), old(self).values(), element),
        ensures
            id == old(self).next(),
            final(self).next() == id + 1,
            final(self).elements() == old(self).elements().insert(id, element),
            final(self).values() == old(self).values(),
            final(self).wf(),
    {
        broadcast use vstd::std_specs::hash::group_hash_axioms;

        let id = self.next_id;
        self.associations.insert(id, element);
        self.next_id = id + 1;
        id
    }

    /// Registers a generator that will evaluate to the group element `g`.
    /// Return the id with which this `Generator` element can be looked up.
    pub fn generator(&mut self, g: G) -> (id: u64)
        requires
            old(self).wf(),
            old(self).next() < u64::MAX,
        ensures
            id == old(self).next(),
            final(self).next() == id + 1,
            final(self).elements() == old(self).elements().insert(id, SLPElement::Generator(id)),
            final(self).values() == old(self).values().insert(id, g@),
            final(self).wf(),
    {
        broadcast use vstd::std_specs::hash::group_hash_axioms;


        let id = self.next_id;
        let ghost old_values = self.values();
        self.associations.insert(id, SLPElement::Generator(id));
        self.evaluator.insert(id, g);
        self.next_id = id + 1;
        assert(self.values() =~= old_values.insert(id, g@));
        id
    }

    /// Evaluates entry `id`: `None` when there is no such entry.
    pub fn evaluate(&self, id: &u64) -> (r: Option<G>)
        requires
            self.wf(),
            times_total::<G>(),
            clone_keeps_view::<G>(),
        ensures
            match r {
                Some(g) => collection_value::<G>(self.elements(), self.values(), *id) == Some(g@),
                None => collection_value::<G>(self.elements(), self.values(), *id) is None,
            },
            self.elements().contains_key(*id) <==> r is Some,
        decreases *id,
    {
        proof {
            if self.elements().contains_key(*id) {
                lemma_registered_entries_evaluate(self, *id);
            }
        }
        broadcast use vstd::std_specs::hash::group_hash_axioms;

        match self.associations.get(id) {
            None => None,
            Some(element) => match *element {
                SLPElement::Generator(g_id) => match self.evaluator.get(&g_id) {
                    Some(g) => {
                        let c = g.clone();
                        assert(cloned::<G>(*g, c));
                        assert(self.values()[g_id] == g@);
                        Some(c)
                    },
                    None => None,
                },
                SLPElement::Product(left_id, right_id) => {
                    if left_id >= *id || right_id >= *id {
                        return None;
                    }
                    let left = self.evaluate(&left_id);
                    let right = self.evaluate(&right_id);
                    match (left, right) {
                        (Some(left), Some(right)) => {
                            proof {
                                assert(G::times_defined(left@, right@));
                            }
                            Some(left.times(&right))
                        },
                        _ => None,
                    }
                },
                SLPElement::Inverse(t_id) => {
                    if t_id >= *id {
                        return None;
                    }
                    match self.evaluate(&t_id) {
                        Some(g) => Some(g.inverse()),
                        None => None,
                    }
                },
            },
        }
    }
}

/// In a well-formed collection every registered entry has a value.
pub proof fn lemma_registered_entries_evaluate<G: GroupElement + Clone>(c: &SLPCollection<G>, id: u64)
    requires
        c.wf(),
        c.elements().contains_key(id),
    ensures
        collection_value::<G>(c.elements(), c.values(), id) is Some,
    decreases id,
{
    match c.elements()[id] {
        SLPElement::Generator(_) => {},
        SLPElement::Product(l, r) => {
            lemma_registered_entries_evaluate(c, l);
            lemma_registered_entries_evaluate(c, r);
        },
        SLPElement::Inverse(t) => {
            lemma_registered_entries_evaluate(c, t);
        },
    }
}

/// A node of a shared expression: sub-expressions are held by reference
/// count, so products and inverses share the nodes they are built from and no
/// node changes once built.
pub enum SLPNode<G> {
    /// A generator, holding the element it stands for.
    Generator(G),
    /// The product of two expressions.
    Product(Rc<SLPNode<G>>, Rc<SLPNode<G>>),
    /// The inverse of an expression.
    Inverse(Rc<SLPNode<G>>),
}

/// The element an expression evaluates to.
pub open spec fn node_value<G: GroupElement>(n: SLPNode<G>) -> G::V
    decreases n,
{
    match n {
        SLPNode::Generator(g) => g@,
        SLPNode::Product(l, r) => G::times_view(node_value(*l), node_value(*r)),
        SLPNode::Inverse(t) => G::inverse_view(node_value(*t)),
    }
}

/// How an expression (or, when `inverted`, its inverse) acts on `p`, computed
/// from the actions of the generators and their inverses.
pub open spec fn node_act<G: GroupElement + GroupAction>(
    n: SLPNode<G>,
    p: G::Domain,
    inverted: bool,
) -> G::Domain
    decreases n,
{
    match n {
        SLPNode::Generator(g) => if inverted {
            G::act_view(G::inverse_view(g@), p)
        } else {
            G::act_view(g@, p)
        },
        SLPNode::Product(l, r) => if inverted {
            node_act(*l, node_act(*r, p, true), true)
        } else {
            node_act(*r, node_act(*l, p, false), false)
        },
        SLPNode::Inverse(t) => node_act(*t, p, !inverted),
    }
}

/// `SLPWord`s for the actual group elements of a SLP: a handle on a shared
/// expression. Products and inverses take constant time; the element is
/// computed only by `evaluate`.
pub struct SLPWord<G> where G: GroupElement + Clone {
    node: Rc<SLPNode<G>>,
}

impl<G> View for SLPWord<G> where G: GroupElement + Clone {
    type V = SLPNode<G>;

    closed spec fn view(&self) -> SLPNode<G> {
        *self.node
    }
}

/// Computes the element an expression evaluates to.
fn evaluate_node<G>(n: &SLPNode<G>) -> (r: G)
    where
        G: GroupElement + Clone,
    requires
        times_total::<G>(),
        clone_keeps_view::<G>(),
    ensures
        r@ == node_value(*n),
    decreases n,
{
    match n {
        SLPNode::Generator(g) => {
            let c = g.clone();
            assert(cloned::<G>(*g, c));
            c
        },
        SLPNode::Product(l, r) => {
            let left = evaluate_node(&**l);
            let right = evaluate_node(&**r);
            proof {
                assert(G::times_defined(left@, right@));
            }
            left.times(&right)
        },
        SLPNode::Inverse(t) => evaluate_node(&**t).inverse(),
    }
}

/// Computes how an expression (or, when `inverted`, its inverse) acts on `p`.
fn act_node<G>(n: &SLPNode<G>, p: &G::Domain, inverted: bool) -> (r: G::Domain)
    where
        G: GroupElement + GroupAction + Clone,
    ensures
        r == node_act(*n, *p, inverted),
    decreases n,
{
    match n {
        SLPNode::Generator(g) => if inverted {
            g.inverse().act_on(p)
        } else {
            g.act_on(p)
        },
        SLPNode::Product(l, r) => if inverted {
            let q = act_node(&**r, p, true);
            act_node(&**l, &q, true)
        } else {
            let q = act_node(&**l, p, false);
            act_node(&**r, &q, false)
        },
        SLPNode::Inverse(t) => act_node(&**t, p, !inverted),
    }
}

impl<G> SLPWord<G> where G: GroupElement + Clone {
    /// Evaluate this `SLPWord` to the element it stands for.
    pub fn evaluate(&self) -> (r: G)
        requires
            times_total::<G>(),
            clone_keeps_view::<G>(),
        ensures
            r@ == node_value(self@),
    {
        evaluate_node(&*self.node)
    }
}

impl<G> GroupElement for SLPWord<G> where G: GroupElement + Clone {
    /// An expression has no literal identity node.
    open spec fn identity_view(v: SLPNode<G>) -> bool {
        false
    }

    open spec fn times_view(a: SLPNode<G>, b: SLPNode<G>) -> SLPNode<G> {
        SLPNode::Product(Rc::new(a), Rc::new(b))
    }

    open spec fn inverse_view(a: SLPNode<G>) -> SLPNode<G> {
        SLPNode::Inverse(Rc::new(a))
    }

    open spec fn times_defined(a: SLPNode<G>, b: SLPNode<G>) -> bool {
        true
    }

    fn is_identity(&self) -> (r: bool) {
        false
    }

    fn times(&self, multiplicant: &Self) -> (r: Self) {
        SLPWord { node: Rc::new(SLPNode::Product(self.node.clone(), multiplicant.node.clone())) }
    }

    fn inverse(&self) -> (r: Self) {
        SLPWord { node: Rc::new(SLPNode::Inverse(self.node.clone())) }
    }
}

impl<G> GroupAction for SLPWord<G> where G: GroupElement + GroupAction + Clone {
    type Domain = G::Domain;

    open spec fn act_view(v: SLPNode<G>, p: G::Domain) -> G::Domain {
        node_act(v, p, false)
    }

    fn act_on(&self, element: &G::Domain) -> (r: G::Domain) {
        act_node(&*self.node, element, false)
    }
}

/// An `SLPFactory` creates `SLPWord`s that correspond with generators.
pub struct SLPFactory<G> where G: GroupElement {
    marker: PhantomData<G>,
}

impl<G> SLPFactory<G> where G: GroupElement + Clone {
    /// Create a new `SLPFactory`.
    pub fn new() -> (r: SLPFactory<G>) {
        SLPFactory { marker: PhantomData }
    }

    /// Create an `SLPWord` that evaluates to the group element `g`.
    pub fn generator(&self, g: G) -> (r: SLPWord<G>)
        ensures
            r@ == SLPNode::Generator(g),
    {
        SLPWord { node: Rc::new(SLPNode::Generator(g)) }
    }
}

} // verus!
