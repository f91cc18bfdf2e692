//! The document tree model: plain values exposing exactly what the engine
//! reads of a parsed document (tag name, optional namespace URI, ordered
//! attributes, text content, child elements).

use vstd::prelude::*;

verus! {

broadcast use vstd::std_specs::vec::group_vec_axioms;

/// One attribute of an element: its name and its captured value.
pub struct Attribute {
    pub name: String,
    pub value: String,
}

/// One element of a document tree.
pub struct Element {
    /// The local tag name, without any namespace prefix.
    pub name: String,
    /// The namespace URI the tag is bound to, if any.
    pub namespace: Option<String>,
    /// The attributes, in document order.
    pub attributes: Vec<Attribute>,
    /// The text content; an element without text carries the empty string.
    pub text: String,
    /// The child elements, in document order.
    pub children: Vec<Element>,
}

/// The mathematical value of an [`Attribute`].
#[verifier::ext_equal]
pub ghost struct AttributeV {
    pub name: Seq<char>,
    pub value: Seq<char>,
}

/// The mathematical value of an [`Element`]: the same tree over sequences.
#[verifier::ext_equal]
pub ghost struct ElementV {
    pub name: Seq<char>,
    pub namespace: Option<Seq<char>>,
    pub attributes: Seq<AttributeV>,
    pub text: Seq<char>,
    pub children: Seq<ElementV>,
}

impl View for Attribute {
    type V = AttributeV;

    open spec fn view(&self) -> AttributeV {
        AttributeV { name: self.name@, value: self.value@ }
    }
}

/// The views of a sequence of elements, element by element.
pub open spec fn elems_view(s: Seq<Element>) -> Seq<ElementV>
    decreases s,
{
    if s.len() == 0 {
        Seq::empty()
    } else {
        elems_view(s.drop_last()).push(elem_view(s.last()))
    }
}

pub open spec fn elem_view(e: Element) -> ElementV
    decreases e,
{
    ElementV {
        name: e.name@,
        namespace: match e.namespace {
            Some(uri) => Some(uri@),
            None => None,
        },
        attributes: Seq::new(e.attributes@.len(), |i: int| e.attributes@[i]@),
        text: e.text@,
        children: elems_view(e.children@),
    }
}

impl View for Element {
    type V = ElementV;

    open spec fn view(&self) -> ElementV {
        elem_view(*self)
    }
}

impl DeepView for Element {
    type V = ElementV;

    open spec fn deep_view(&self) -> ElementV {
        elem_view(*self)
    }
}

/// The two ways to read a vector of elements agree.
pub broadcast proof fn lemma_deep_view_elems(v: Vec<Element>)
    ensures
        #[trigger] v.deep_view() == elems_view(v@),
{
    broadcast use lemma_elems_view_len, lemma_elems_view_index;

    assert(v.deep_view() =~= elems_view(v@));
}

pub broadcast proof fn lemma_elems_view_len(s: Seq<Element>)
    ensures
        (#[trigger] elems_view(s)).len() == s.len(),
    decreases s,
{
    if s.len() > 0 {
        lemma_elems_view_len(s.drop_last());
    }
}

pub broadcast proof fn lemma_elems_view_index(s: Seq<Element>, i: int)
    requires
        0 <= i < s.len(),
    ensures
        #[trigger] elems_view(s)[i] == elem_view(s[i]),
    decreases s,
{
    lemma_elems_view_len(s);
    lemma_elems_view_len(s.drop_last());
    if i < s.len() - 1 {
        lemma_elems_view_index(s.drop_last(), i);
    }
}

/// The size of an element: itself plus all its descendants.  The measure
/// that bounds the engine's recursion.
pub open spec fn elem_size(e: ElementV) -> nat
    decreases e,
{
    1 + elems_size(e.children)
}

/// The total size of a forest of elements.
pub open spec fn elems_size(s: Seq<ElementV>) -> nat
    decreases s,
{
    if s.len() == 0 {
        0
    } else {
        elem_size(s[0]) + elems_size(s.drop_first())
    }
}

/// The total size of a sequence of sibling runs.
pub open spec fn runs_size(rs: Seq<Seq<ElementV>>) -> nat
    decreases rs,
{
    if rs.len() == 0 {
        0
    } else {
        elems_size(rs[0]) + runs_size(rs.drop_first())
    }
}

/// Peeling one element off the front of a forest suffix.
pub proof fn lemma_elems_size_suffix(s: Seq<ElementV>, i: int)
    requires
        0 <= i < s.len(),
    ensures
        elems_size(s.subrange(i, s.len() as int)) == elem_size(s[i]) + elems_size(
            s.subrange(i + 1, s.len() as int),
        ),
{
    let suf = s.subrange(i, s.len() as int);
    assert(suf[0] == s[i]);
    assert(suf.drop_first() =~= s.subrange(i + 1, s.len() as int));
}

/// A later suffix of a forest is no larger than an earlier one.
pub proof fn lemma_elems_size_suffix_le(s: Seq<ElementV>, i: int, j: int)
    requires
        0 <= i <= j <= s.len(),
    ensures
        elems_size(s.subrange(j, s.len() as int)) <= elems_size(s.subrange(i, s.len() as int)),
    decreases j - i,
{
    if i < j {
        lemma_elems_size_suffix(s, i);
        lemma_elems_size_suffix_le(s, i + 1, j);
    }
}

/// A whole forest weighs as much as its suffix from the start.
pub proof fn lemma_elems_size_whole(s: Seq<ElementV>)
    ensures
        elems_size(s.subrange(0, s.len() as int)) == elems_size(s),
{
    assert(s.subrange(0, s.len() as int) =~= s);
}

/// Prepending one element to a forest adds its size.
pub proof fn lemma_elems_size_cons(x: ElementV, r: Seq<ElementV>)
    ensures
        elems_size(seq![x] + r) == elem_size(x) + elems_size(r),
{
    let c = seq![x] + r;
    assert(c[0] == x);
    assert(c.drop_first() =~= r);
}

/// Peeling one run off the front of a run-sequence suffix.
pub proof fn lemma_runs_size_suffix(rs: Seq<Seq<ElementV>>, i: int)
    requires
        0 <= i < rs.len(),
    ensures
        runs_size(rs.subrange(i, rs.len() as int)) == elems_size(rs[i]) + runs_size(
            rs.subrange(i + 1, rs.len() as int),
        ),
{
    let suf = rs.subrange(i, rs.len() as int);
    assert(suf[0] == rs[i]);
    assert(suf.drop_first() =~= rs.subrange(i + 1, rs.len() as int));
}

/// Appending one run to a run sequence adds its size.
pub proof fn lemma_runs_size_push(rs: Seq<Seq<ElementV>>, r: Seq<ElementV>)
    ensures
        runs_size(rs.push(r)) == runs_size(rs) + elems_size(r),
    decreases rs,
{
    if rs.len() == 0 {
        assert(rs.push(r)[0] == r);
        assert(rs.push(r).drop_first() =~= Seq::<Seq<ElementV>>::empty());
        assert(runs_size(Seq::<Seq<ElementV>>::empty()) == 0);
    } else {
        assert(rs.push(r)[0] == rs[0]);
        assert(rs.push(r).drop_first() =~= rs.drop_first().push(r));
        lemma_runs_size_push(rs.drop_first(), r);
    }
}

impl Element {
    /// A deep copy: the result denotes the same tree.
    pub fn duplicate(&self) -> (r: Element)
        ensures
            r@ == self@,
        decreases *self,
    {
        let mut attributes: Vec<Attribute> = Vec::new();
        let mut i: usize = 0;
        while i < self.attributes.len()
            invariant
                i <= self.attributes.len(),
                attributes@.len() == i as int,
                forall|j: int| 0 <= j < i ==> attributes@[j]@ == self.attributes@[j]@,
            decreases self.attributes.len() - i,
        {
            let a = &self.attributes[i];
            attributes.push(Attribute { name: a.name.clone(), value: a.value.clone() });
            i = i + 1;
        }
        let mut children: Vec<Element> = Vec::new();
        let mut k: usize = 0;
        while k < self.children.len()
            invariant
                k <= self.children.len(),
                children@.len() == k as int,
                forall|j: int| 0 <= j < k ==> elem_view(#[trigger] children@[j]) == elem_view(
                    self.children@[j],
                ),
            decreases self.children.len() - k,
        {
            let c = self.children[k].duplicate();
            children.push(c);
            k = k + 1;
        }
        let namespace = match &self.namespace {
            Some(u) => Some(u.clone()),
            None => None,
        };
        let r = Element {
            name: self.name.clone(),
            namespace,
            attributes,
            text: self.text.clone(),
            children,
        };
        proof {
            broadcast use lemma_elems_view_len, lemma_elems_view_index;

            assert(elems_view(r.children@) =~= elems_view(self.children@));
            assert(r@.attributes =~= self@.attributes);
            assert(r@ =~= self@);
        }
        r
    }
}

} // verus!
