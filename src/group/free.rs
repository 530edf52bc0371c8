//! Free groups: words over symbols with non-zero exponents, where no two
//! adjacent terms share a symbol.
use vstd::prelude::*;

use super::text::{decimal, i64_text, identity_text, new_identity_text, push_char, push_text};
use super::GroupElement;

verus! {

/// Appends one term to a reduced word, merging it with the last term when the
/// symbols agree and dropping terms whose exponent becomes zero.
pub open spec fn push_term(stack: Seq<(char, int)>, t: (char, int)) -> Seq<(char, int)> {
    if stack.len() > 0 && stack.last().0 == t.0 {
        let e = stack.last().1 + t.1;
        if e == 0 {
            stack.drop_last()
        } else {
            stack.drop_last().push((t.0, e))
        }
    } else if t.1 == 0 {
        stack
    } else {
        stack.push(t)
    }
}

/// Free reduction of `s`, starting from the already reduced word `start`.
pub open spec fn reduce_from(start: Seq<(char, int)>, s: Seq<(char, int)>) -> Seq<(char, int)>
    decreases s.len(),
{
    if s.len() == 0 {
        start
    } else {
        push_term(reduce_from(start, s.drop_last()), s.last())
    }
}

/// The free reduction of a sequence of terms.
pub open spec fn reduce(s: Seq<(char, int)>) -> Seq<(char, int)> {
    reduce_from(seq![], s)
}

/// No zero exponent and no two adjacent terms with the same symbol.
pub open spec fn is_reduced(s: Seq<(char, int)>) -> bool {
    &&& forall|i: int| 0 <= i < s.len() ==> #[trigger] s[i].1 != 0
    &&& forall|i: int| 0 < i < s.len() ==> #[trigger] s[i].0 != s[i - 1].0
}

/// The inverse of a word: terms reversed, exponents negated.
pub open spec fn invert(s: Seq<(char, int)>) -> Seq<(char, int)> {
    Seq::new(s.len(), |i: int| (s[s.len() - 1 - i].0, -s[s.len() - 1 - i].1))
}

/// Sum of the absolute values of the exponents.
pub open spec fn abs_total(s: Seq<(char, int)>) -> int
    decreases s.len(),
{
    if s.len() == 0 {
        0
    } else {
        abs_total(s.drop_last()) + if s.last().1 < 0 {
            -s.last().1
        } else {
            s.last().1
        }
    }
}

/// Terms with machine exponents, read as mathematical integers.
pub open spec fn terms_view(s: Seq<(char, i64)>) -> Seq<(char, int)> {
    s.map_values(|t: (char, i64)| (t.0, t.1 as int))
}

/// The element of a free group.
#[derive(Debug, PartialEq, Eq, Hash)]
pub struct Word {
    terms: Vec<(char, i64)>,
}

impl View for Word {
    type V = Seq<(char, int)>;

    closed spec fn view(&self) -> Seq<(char, int)> {
        terms_view(self.terms@)
    }
}

impl Word {
    /// A word is reduced and its exponents add up, in absolute value, to a
    /// machine integer.
    #[verifier::type_invariant]
    pub closed spec fn wf(self) -> bool {
        is_reduced(terms_view(self.terms@)) && abs_total(terms_view(self.terms@)) <= i64::MAX
    }
}

impl Word {
    /// The terms of the word, in order.
    pub fn terms(&self) -> (r: &Vec<(char, i64)>)
        ensures
            terms_view(r@) == self@,
            is_reduced(self@),
            abs_total(self@) <= i64::MAX,
    {
        proof {
            use_type_invariant(self);
        }
        &self.terms
    }

    /// The sum of the absolute values of the exponents.
    pub fn weight(&self) -> (r: u64)
        ensures
            r == abs_total(self@),
            is_reduced(self@),
    {
        proof {
            use_type_invariant(self);
        }
        let ghost s = self@;
        let mut total: u64 = 0;
        let mut i: usize = 0;
        assert(s.take(0) =~= Seq::<(char, int)>::empty());
        while i < self.terms.len()
            invariant
                s == self@,
                s.len() == self.terms@.len(),
                abs_total(s) <= i64::MAX,
                i <= s.len(),
                total == abs_total(s.take(i as int)),
            decreases s.len() - i,
        {
            let e = self.terms[i].1;
            proof {
                assert(s.take(i + 1).drop_last() =~= s.take(i as int));
                assert(s.take(i + 1).last() == s[i as int]);
                lemma_abs_prefix(s, i + 1);
                lemma_abs_nonneg(s.take(i as int));
            }
            let magnitude: u64 = if e < 0 {
                (-(e as i128)) as u64
            } else {
                e as u64
            };
            total = total + magnitude;
            i += 1;
        }
        assert(s.take(i as int) =~= s);
        total
    }

    /// Create the identity element in a free group.
    pub fn identity() -> (r: Word)
        ensures
            r@ == Seq::<(char, int)>::empty(),
    {
        let r = Word::new(vec![]);
        assert(terms_view(seq![]) =~= Seq::<(char, int)>::empty());
        r
    }

    /// Constructor which creates a single generator.
    pub fn generator(symbol: char) -> (r: Word)
        ensures
            r@ == seq![(symbol, 1int)],
    {
        let ghost one = seq![(symbol, 1i64)];
        proof {
            assert(terms_view(one) =~= seq![(symbol, 1int)]);
            assert(seq![(symbol, 1int)].drop_last() =~= Seq::<(char, int)>::empty());
            assert(abs_total(Seq::<(char, int)>::empty()) == 0);
            assert(abs_total(seq![(symbol, 1int)]) == 1);
            lemma_reduce_of_reduced(seq![(symbol, 1int)]);
        }
        let v = vec![(symbol, 1)];
        assert(v@ =~= one);
        Word::new(v)
    }

    /// Create a word with prescribed terms, in free-reduced form.
    pub fn new(elements: Vec<(char, i64)>) -> (r: Word)
        requires
            abs_total(terms_view(elements@)) <= i64::MAX,
        ensures
            r@ == reduce(terms_view(elements@)),
            is_reduced(r@),
    {
        Word { terms: normalize(&elements) }
    }
}

/// The text of a sequence of terms: each symbol, `^`, and its exponent.
pub open spec fn terms_text(s: Seq<(char, int)>) -> Seq<char>
    decreases s.len(),
{
    if s.len() == 0 {
        Seq::empty()
    } else {
        terms_text(s.drop_last()) + seq![s.last().0, '^'] + decimal(s.last().1)
    }
}

/// The text of a word: `Id` for the identity, else its terms.
pub open spec fn word_text(s: Seq<(char, int)>) -> Seq<char> {
    if s.len() == 0 {
        identity_text()
    } else {
        terms_text(s)
    }
}

impl Word {
    /// Renders the word, such as `x^2y^-3`, or `Id` for the identity.
    pub fn to_string(&self) -> (r: String)
        ensures
            r@ == word_text(self@),
    {
        if self.terms.len() == 0 {
            return new_identity_text();
        }
        let ghost s = self@;
        let mut out = String::new();
        let mut i: usize = 0;
        assert(s.take(0) =~= Seq::<(char, int)>::empty());
        while i < self.terms.len()
            invariant
                s == self@,
                s.len() == self.terms@.len(),
                i <= s.len(),
                out@ == terms_text(s.take(i as int)),
            decreases s.len() - i,
        {
            let t = self.terms[i];
            push_char(&mut out, t.0);
            push_char(&mut out, '^');
            let e = i64_text(t.1);
            push_text(&mut out, &e);
            proof {
                assert(s.take(i + 1).drop_last() =~= s.take(i as int));
                assert(s.take(i + 1).last() == (t.0, t.1 as int));
                assert(out@ =~= terms_text(s.take(i + 1)));
            }
            i += 1;
        }
        assert(s.take(i as int) =~= s);
        out
    }
}

impl Clone for Word {
    fn clone(&self) -> (r: Word)
        ensures
            r@ == self@,
    {
        proof {
            use_type_invariant(self);
        }
        let mut terms: Vec<(char, i64)> = Vec::new();
        let mut i: usize = 0;
        while i < self.terms.len()
            invariant
                i <= self.terms@.len(),
                terms@ =~= self.terms@.take(i as int),
            decreases self.terms@.len() - i,
        {
            terms.push(self.terms[i]);
            i += 1;
            assert(terms@ =~= self.terms@.take(i as int));
        }
        assert(self.terms@.take(i as int) =~= self.terms@);
        Word { terms }
    }
}

impl GroupElement for Word {
    open spec fn identity_view(v: Seq<(char, int)>) -> bool {
        v.len() == 0
    }

    open spec fn times_view(a: Seq<(char, int)>, b: Seq<(char, int)>) -> Seq<(char, int)> {
        reduce(a + b)
    }

    open spec fn inverse_view(a: Seq<(char, int)>) -> Seq<(char, int)> {
        invert(a)
    }

    open spec fn times_defined(a: Seq<(char, int)>, b: Seq<(char, int)>) -> bool {
        abs_total(a) + abs_total(b) <= i64::MAX
    }

    fn is_identity(&self) -> (r: bool) {
        self.terms.len() == 0
    }

    fn times(&self, multiplicant: &Word) -> (r: Word) {
        let mut terms: Vec<(char, i64)> = Vec::new();
        let mut i: usize = 0;
        while i < self.terms.len()
            invariant
                i <= self.terms@.len(),
                terms@ =~= self.terms@.take(i as int),
            decreases self.terms@.len() - i,
        {
            terms.push(self.terms[i]);
            i += 1;
            assert(terms@ =~= self.terms@.take(i as int));
        }
        let mut j: usize = 0;
        while j < multiplicant.terms.len()
            invariant
                i == self.terms@.len(),
                j <= multiplicant.terms@.len(),
                terms@ =~= self.terms@ + multiplicant.terms@.take(j as int),
            decreases multiplicant.terms@.len() - j,
        {
            terms.push(multiplicant.terms[j]);
            j += 1;
            assert(terms@ =~= self.terms@ + multiplicant.terms@.take(j as int));
        }
        proof {
            assert(multiplicant.terms@.take(j as int) =~= multiplicant.terms@);
            assert(terms_view(terms@) =~= self@ + multiplicant@);
            lemma_abs_concat(self@, multiplicant@);
        }
        Word { terms: normalize(&terms) }
    }

    fn inverse(&self) -> (r: Word) {
        proof {
            use_type_invariant(self);
        }
        let ghost s = self@;
        let n = self.terms.len();
        let mut terms: Vec<(char, i64)> = Vec::new();
        let mut i: usize = 0;
        while i < n
            invariant
                n == self.terms@.len(),
                s == terms_view(self.terms@),
                abs_total(s) <= i64::MAX,
                i <= n,
                terms_view(terms@) =~= invert(s).take(i as int),
            decreases n - i,
        {
            let t = self.terms[n - 1 - i];
            proof {
                lemma_abs_term_bound(s, n - 1 - i);
            }
            let ghost before = terms@;
            let neg: (char, i64) = (t.0, -t.1);
            terms.push(neg);
            i += 1;
            proof {
                lemma_view_push(before, neg);
                assert(s[n - 1 - (i - 1)] == (t.0, t.1 as int));
                assert(terms_view(terms@) =~= invert(s).take(i as int));
            }
        }
        proof {
            assert(invert(s).take(n as int) =~= invert(s));
            lemma_invert_reduced(s);
        }
        Word { terms }
    }
}

/// `terms_view` of a pushed sequence is the pushed view.
proof fn lemma_view_push(s: Seq<(char, i64)>, t: (char, i64))
    ensures
        terms_view(s.push(t)) == terms_view(s).push((t.0, t.1 as int)),
{
    assert(terms_view(s.push(t)) =~= terms_view(s).push((t.0, t.1 as int)));
}

/// Free reduction of a sequence of terms: adjacent terms with equal symbols
/// are merged, zero exponents dropped, and cancellations cascade.
pub fn normalize(elements: &Vec<(char, i64)>) -> (r: Vec<(char, i64)>)
    requires
        abs_total(terms_view(elements@)) <= i64::MAX,
    ensures
        terms_view(r@) == reduce(terms_view(elements@)),
        is_reduced(terms_view(r@)),
        abs_total(terms_view(r@)) <= abs_total(terms_view(elements@)),
{
    let ghost inp = terms_view(elements@);
    let n = elements.len();
    if n == 0 {
        assert(terms_view(Seq::<(char, i64)>::empty()) =~= Seq::<(char, int)>::empty());
        return vec![];
    }
    let mut normalized: Vec<(char, i64)> = vec![];
    let mut current: (char, i64) = elements[0];
    let mut index: usize = 1;
    proof {
        assert(inp.take(1).drop_last() =~= Seq::<(char, int)>::empty());
        assert(reduce_from(seq![], Seq::<(char, int)>::empty()) == Seq::<(char, int)>::empty());
        assert(inp.take(1).last() == inp[0]);
        assert(inp[0] == (current.0, current.1 as int));
        if current.1 != 0 {
            assert(Seq::<(char, int)>::empty().push(inp[0]) =~= Seq::<(char, int)>::empty() + seq![inp[0]]);
        } else {
            assert(Seq::<(char, int)>::empty() + Seq::<(char, int)>::empty() =~= Seq::<(char, int)>::empty());
        }
        assert(terms_view(normalized@) =~= Seq::<(char, int)>::empty());
        lemma_abs_prefix(inp, 1);
        assert(abs_total(inp.take(1)) == abs_total(inp.take(1).drop_last()) + if inp[0].1 < 0 {
            -inp[0].1
        } else {
            inp[0].1
        });
    }
    while index < n
        invariant
            n == elements@.len(),
            inp == terms_view(elements@),
            abs_total(inp) <= i64::MAX,
            1 <= index <= n,
            is_reduced(terms_view(normalized@)),
            normalized@.len() > 0 ==> normalized@.last().0 != current.0,
            reduce(inp.take(index as int)) == terms_view(normalized@) + if current.1 != 0 {
                seq![(current.0, current.1 as int)]
            } else {
                Seq::<(char, int)>::empty()
            },
            abs_total(terms_view(normalized@)) + (if current.1 < 0 {
                -current.1
            } else {
                current.1 as int
            }) <= abs_total(inp.take(index as int)),
        decreases 2 * (n - index) + normalized@.len(),
    {
        let primitive = elements[index];
        let ghost stack = terms_view(normalized@);
        let ghost cur = (current.0, current.1 as int);
        let ghost p = (primitive.0, primitive.1 as int);
        proof {
            assert(inp.take(index + 1).drop_last() =~= inp.take(index as int));
            assert(inp.take(index + 1).last() == p);
            lemma_abs_prefix(inp, index + 1);
            lemma_abs_nonneg(stack);
        }
        if current.0 == primitive.0 {
            proof {
                if current.1 != 0 {
                    assert((stack + seq![cur]).last() == cur);
                    assert((stack + seq![cur]).drop_last() =~= stack);
                } else {
                    assert(stack + Seq::<(char, int)>::empty() =~= stack);
                }
            }
            current = (current.0, current.1 + primitive.1);
            proof {
                if current.1 == 0 {
                    assert(stack + Seq::<(char, int)>::empty() =~= stack);
                }
            }
            index += 1;
        } else {
            if current.1 != 0 {
                proof {
                    lemma_view_push(normalized@, current);
                    assert(stack + seq![cur] =~= stack.push(cur));
                    assert(stack.push(cur).drop_last() =~= stack);
                    lemma_abs_concat(stack, seq![cur]);
                    assert(seq![cur].drop_last() =~= Seq::<(char, int)>::empty());
                }
                normalized.push(current);
                proof {
                    if primitive.1 == 0 {
                        assert(terms_view(normalized@) + Seq::<(char, int)>::empty() =~= terms_view(normalized@));
                    } else {
                        assert(terms_view(normalized@) + seq![p] =~= terms_view(normalized@).push(p));
                    }
                }
            } else {
                if normalized.len() > 0 {
                    proof {
                        assert(stack + Seq::<(char, int)>::empty() =~= stack);
                    }
                    let last = normalized.pop().unwrap();
                    proof {
                        let ns = terms_view(normalized@);
                        let lv = (last.0, last.1 as int);
                        assert(stack =~= ns.push(lv));
                        assert(stack.drop_last() =~= ns);
                        assert(ns + seq![lv] =~= stack);
                        assert(is_reduced(ns));
                        if ns.len() > 0 {
                            assert(ns.last() == stack[stack.len() - 2]);
                        }
                    }
                    current = last;
                    continue;
                }
                proof {
                    assert(stack =~= Seq::<(char, int)>::empty());
                    if primitive.1 == 0 {
                        assert(Seq::<(char, int)>::empty() + Seq::<(char, int)>::empty() =~= Seq::<(char, int)>::empty());
                    } else {
                        assert(Seq::<(char, int)>::empty() + seq![p] =~= seq![p]);
                    }
                }
            }
            current = primitive;
            index += 1;
        }
    }
    proof {
        assert(inp.take(n as int) =~= inp);
    }
    if current.1 != 0 {
        proof {
            lemma_view_push(normalized@, current);
            let stack = terms_view(normalized@);
            let cur = (current.0, current.1 as int);
            assert(stack + seq![cur] =~= stack.push(cur));
            lemma_abs_concat(stack, seq![cur]);
            assert(seq![cur].drop_last() =~= Seq::<(char, int)>::empty());
        }
        normalized.push(current);
    } else {
        proof {
            assert(terms_view(normalized@) + Seq::<(char, int)>::empty() =~= terms_view(normalized@));
        }
    }
    normalized
}

/// Each term of a sequence is bounded, in absolute value, by the sum of all.
pub proof fn lemma_abs_term_bound(s: Seq<(char, int)>, i: int)
    requires
        0 <= i < s.len(),
    ensures
        -abs_total(s) <= s[i].1 <= abs_total(s),
        abs_total(s) >= 0,
    decreases s.len(),
{
    lemma_abs_nonneg(s.drop_last());
    if i < s.len() - 1 {
        lemma_abs_term_bound(s.drop_last(), i);
    }
}

/// The sum of absolute exponents is never negative.
pub proof fn lemma_abs_nonneg(s: Seq<(char, int)>)
    ensures
        abs_total(s) >= 0,
    decreases s.len(),
{
    if s.len() > 0 {
        lemma_abs_nonneg(s.drop_last());
    }
}

/// The sum of absolute exponents is additive over concatenation.
pub proof fn lemma_abs_concat(a: Seq<(char, int)>, b: Seq<(char, int)>)
    ensures
        abs_total(a + b) == abs_total(a) + abs_total(b),
    decreases b.len(),
{
    if b.len() == 0 {
        assert(a + b =~= a);
    } else {
        assert((a + b).drop_last() =~= a + b.drop_last());
        lemma_abs_concat(a, b.drop_last());
    }
}

/// A prefix has no larger sum of absolute exponents.
pub proof fn lemma_abs_prefix(s: Seq<(char, int)>, k: int)
    requires
        0 <= k <= s.len(),
    ensures
        abs_total(s.take(k)) <= abs_total(s),
    decreases s.len() - k,
{
    if k < s.len() {
        lemma_abs_prefix(s, k + 1);
        assert(s.take(k + 1).drop_last() =~= s.take(k));
    } else {
        assert(s.take(k) =~= s);
    }
}

/// Pushing a term keeps a word reduced and does not raise the sum of absolute
/// exponents by more than the term's own.
pub proof fn lemma_push_term(stack: Seq<(char, int)>, t: (char, int))
    requires
        is_reduced(stack),
    ensures
        is_reduced(push_term(stack, t)),
        abs_total(push_term(stack, t)) <= abs_total(stack) + if t.1 < 0 {
            -t.1
        } else {
            t.1
        },
{
    if stack.len() > 0 && stack.last().0 == t.0 {
        let e = stack.last().1 + t.1;
        if e != 0 {
            assert(stack.drop_last().push((t.0, e)).drop_last() =~= stack.drop_last());
        }
    } else if t.1 != 0 {
        assert(stack.push(t).drop_last() =~= stack);
    }
}

/// Free reduction of a reduced start yields a reduced word.
pub proof fn lemma_reduce_from_reduced(start: Seq<(char, int)>, s: Seq<(char, int)>)
    requires
        is_reduced(start),
    ensures
        is_reduced(reduce_from(start, s)),
        abs_total(reduce_from(start, s)) <= abs_total(start) + abs_total(s),
    decreases s.len(),
{
    if s.len() > 0 {
        lemma_reduce_from_reduced(start, s.drop_last());
        lemma_push_term(reduce_from(start, s.drop_last()), s.last());
    }
}

/// Reducing a concatenation is reducing the second part after the first.
pub proof fn lemma_reduce_from_concat(
    start: Seq<(char, int)>,
    a: Seq<(char, int)>,
    b: Seq<(char, int)>,
)
    ensures
        reduce_from(start, a + b) == reduce_from(reduce_from(start, a), b),
    decreases b.len(),
{
    if b.len() == 0 {
        assert(a + b =~= a);
    } else {
        assert((a + b).drop_last() =~= a + b.drop_last());
        assert((a + b).last() == b.last());
        lemma_reduce_from_concat(start, a, b.drop_last());
    }
}

/// A reduced word is its own free reduction.
pub proof fn lemma_reduce_of_reduced(s: Seq<(char, int)>)
    requires
        is_reduced(s),
    ensures
        reduce(s) == s,
    decreases s.len(),
{
    if s.len() > 0 {
        let d = s.drop_last();
        assert(is_reduced(d));
        lemma_reduce_of_reduced(d);
        assert(d.push(s.last()) =~= s);
    }
}

/// The inverse of a word is the inverse of its last term followed by the
/// inverse of the rest.
proof fn lemma_invert_unfold(s: Seq<(char, int)>)
    requires
        s.len() > 0,
    ensures
        invert(s) =~= seq![(s.last().0, -s.last().1)] + invert(s.drop_last()),
{
}

/// Inverting keeps a word reduced and keeps its sum of absolute exponents.
pub proof fn lemma_invert_reduced(s: Seq<(char, int)>)
    ensures
        is_reduced(s) ==> is_reduced(invert(s)),
        abs_total(invert(s)) == abs_total(s),
    decreases s.len(),
{
    if s.len() > 0 {
        lemma_invert_unfold(s);
        lemma_invert_reduced(s.drop_last());
        let h = seq![(s.last().0, -s.last().1)];
        lemma_abs_concat(h, invert(s.drop_last()));
        assert(h.drop_last() =~= Seq::<(char, int)>::empty());
        assert(abs_total(Seq::<(char, int)>::empty()) == 0);
        assert(h.last() == (s.last().0, -s.last().1));
        assert(abs_total(h) == abs_total(h.drop_last()) + if s.last().1 < 0 {
            s.last().1 * -1
        } else {
            s.last().1
        });
    } else {
        assert(invert(s) =~= s);
    }
    if is_reduced(s) {
        let r = invert(s);
        assert forall|i: int| 0 < i < r.len() implies #[trigger] r[i].0 != r[i - 1].0 by {
            assert(s[s.len() - i].0 != s[s.len() - i - 1].0);
        }
    }
}

/// A reduced word followed by its inverse reduces to the empty word, from any
/// prefix.
proof fn lemma_cancel_inverse(p: Seq<(char, int)>, w: Seq<(char, int)>)
    requires
        is_reduced(w),
    ensures
        reduce_from(p + w, invert(w)) == p,
    decreases w.len(),
{
    if w.len() == 0 {
        assert(p + w =~= p);
        assert(invert(w) =~= Seq::<(char, int)>::empty());
    } else {
        let d = w.drop_last();
        let x = w.last();
        let nx = (x.0, -x.1);
        lemma_invert_unfold(w);
        lemma_reduce_from_concat(p + w, seq![nx], invert(d));
        assert(seq![nx].drop_last() =~= Seq::<(char, int)>::empty());
        assert(reduce_from(p + w, Seq::<(char, int)>::empty()) == p + w);
        assert((p + w).last() == x);
        assert((p + w).drop_last() =~= p + d);
        assert(reduce_from(p + w, seq![nx]) == push_term(p + w, nx));
        assert(is_reduced(d));
        lemma_cancel_inverse(p, d);
    }
}

/// Pushing two terms with the same symbol is pushing their sum, onto a
/// reduced word.
proof fn lemma_push_twice(y: Seq<(char, int)>, c: char, e: int, f: int)
    requires
        is_reduced(y),
        e != 0,
    ensures
        push_term(push_term(y, (c, e)), (c, f)) == push_term(y, (c, e + f)),
{
    if y.len() > 0 && y.last().0 == c {
        let d = y.drop_last();
        assert(is_reduced(d));
        if d.len() > 0 {
            assert(d.last() == y[y.len() - 2]);
        }
        if y.last().1 + e != 0 {
            assert(d.push((c, y.last().1 + e)).drop_last() =~= d);
        }
    } else {
        assert(y.push((c, e)).drop_last() =~= y);
    }
}

/// Pushing a term that does not merge with the last one of a reduced word and
/// has exponent zero changes nothing.
proof fn lemma_push_zero(y: Seq<(char, int)>, c: char)
    requires
        is_reduced(y),
    ensures
        push_term(y, (c, 0)) == y,
{
    if y.len() > 0 && y.last().0 == c {
        assert(y.drop_last().push((c, y.last().1)) =~= y);
    }
}

/// Reducing the result of one push onto a reduced word, from any reduced
/// start, is pushing onto the reduction of the word.
proof fn lemma_reduce_from_push(st: Seq<(char, int)>, w: Seq<(char, int)>, x: (char, int))
    requires
        is_reduced(st),
        is_reduced(w),
    ensures
        reduce_from(st, push_term(w, x)) == push_term(reduce_from(st, w), x),
{
    lemma_reduce_from_reduced(st, w);
    let y = reduce_from(st, w);
    if w.len() > 0 && w.last().0 == x.0 {
        let d = w.drop_last();
        let e = w.last().1;
        assert(is_reduced(d));
        assert(d.push(w.last()) =~= w);
        lemma_reduce_from_reduced(st, d);
        let z = reduce_from(st, d);
        assert(y == push_term(z, (x.0, e)));
        lemma_push_twice(z, x.0, e, x.1);
        if e + x.1 == 0 {
            lemma_push_zero(z, x.0);
        } else {
            assert(d.push((x.0, e + x.1)).drop_last() =~= d);
        }
    } else if x.1 == 0 {
        lemma_push_zero(y, x.0);
    } else {
        assert(w.push(x).drop_last() =~= w);
    }
}

/// Reducing a sequence first does not change its reduction from a reduced
/// start.
pub proof fn lemma_reduce_from_reduce(st: Seq<(char, int)>, s: Seq<(char, int)>)
    requires
        is_reduced(st),
    ensures
        reduce_from(st, reduce(s)) == reduce_from(st, s),
    decreases s.len(),
{
    if s.len() == 0 {
        assert(reduce(s) == Seq::<(char, int)>::empty());
    } else {
        lemma_reduce_from_reduce(st, s.drop_last());
        lemma_reduce_from_reduced(seq![], s.drop_last());
        lemma_reduce_from_push(st, reduce(s.drop_last()), s.last());
    }
}

/// Multiplication of words is associative.
pub proof fn lemma_times_associative(a: Seq<(char, int)>, b: Seq<(char, int)>, c: Seq<(char, int)>)
    ensures
        Word::times_view(Word::times_view(a, b), c) == Word::times_view(a, Word::times_view(b, c)),
{
    let e = Seq::<(char, int)>::empty();
    lemma_reduce_from_reduced(e, a + b);
    lemma_reduce_from_concat(e, reduce(a + b), c);
    lemma_reduce_of_reduced(reduce(a + b));
    lemma_reduce_from_concat(e, a + b, c);
    lemma_reduce_from_concat(e, a, reduce(b + c));
    lemma_reduce_from_reduced(e, a);
    lemma_reduce_from_reduce(reduce(a), b + c);
    lemma_reduce_from_concat(e, a, b + c);
    assert(a + b + c =~= a + (b + c));
}

/// Normalizing is idempotent: a normalized sequence is left as it is.
pub proof fn lemma_normalize_idempotent(s: Seq<(char, int)>)
    ensures
        reduce(reduce(s)) == reduce(s),
{
    lemma_reduce_from_reduced(seq![], s);
    lemma_reduce_of_reduced(reduce(s));
}

/// A reduced word times its inverse is the identity word.
pub proof fn lemma_times_inverse_is_identity(w: Seq<(char, int)>)
    requires
        is_reduced(w),
    ensures
        reduce(w + invert(w)) == Seq::<(char, int)>::empty(),
{
    lemma_reduce_from_concat(seq![], w, invert(w));
    lemma_reduce_of_reduced(w);
    assert(Seq::<(char, int)>::empty() + w =~= w);
    lemma_cancel_inverse(seq![], w);
}

} // verus!
