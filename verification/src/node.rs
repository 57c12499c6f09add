//! The abstract document tree the parsers consume.
//!
//! The tree-walking collaborator reads the definition files and hands
//! the library one [`Element`] per document: a tag, the attributes in
//! document order, the text of the first text child if any, and the
//! child elements in document order.

use vstd::prelude::*;

use crate::text::str_eq;

verus! {

/// One XML element, already freed of parsing concerns.
#[derive(Debug)]
pub struct Element {
    pub tag: String,
    pub attrs: Vec<(String, String)>,
    pub text: Option<String>,
    pub children: Vec<Element>,
}

/// The mathematical shape of an [`Element`].
pub struct SpecElement {
    pub tag: Seq<char>,
    pub attrs: Seq<(Seq<char>, Seq<char>)>,
    pub text: Option<Seq<char>>,
    pub children: Seq<SpecElement>,
}

/// The shape of an element: each field replaced by its view.
pub open spec fn elem_view(e: Element) -> SpecElement
    decreases e,
{
    SpecElement {
        tag: e.tag@,
        attrs: e.attrs.deep_view(),
        text: e.text.deep_view(),
        children: elems_view(e.children@),
    }
}

/// The shapes of a sequence of elements.
pub open spec fn elems_view(s: Seq<Element>) -> Seq<SpecElement>
    decreases s,
{
    if s.len() == 0 {
        Seq::empty()
    } else {
        elems_view(s.drop_last()).push(elem_view(s.last()))
    }
}

pub broadcast proof fn lemma_elems_view_len(s: Seq<Element>)
    ensures
        #[trigger] elems_view(s).len() == s.len(),
    decreases s.len(),
{
    if s.len() > 0 {
        lemma_elems_view_len(s.drop_last());
    }
}

pub broadcast proof fn lemma_elems_view_index(s: Seq<Element>, i: int)
    requires
        0 <= i < s.len(),
    ensures
        elems_view(s).len() == s.len(),
        #[trigger] elems_view(s)[i] == elem_view(s[i]),
    decreases s.len(),
{
    lemma_elems_view_len(s);
    if i < s.len() - 1 {
        lemma_elems_view_index(s.drop_last(), i);
    }
}

impl View for Element {
    type V = SpecElement;

    open spec fn view(&self) -> SpecElement {
        elem_view(*self)
    }
}

impl DeepView for Element {
    type V = SpecElement;

    open spec fn deep_view(&self) -> SpecElement {
        elem_view(*self)
    }
}

/// First value among `attrs` recorded under `name`.
pub open spec fn spec_attr_in(
    attrs: Seq<(Seq<char>, Seq<char>)>,
    name: Seq<char>,
) -> Option<Seq<char>>
    decreases attrs.len(),
{
    if attrs.len() == 0 {
        None
    } else if attrs[0].0 == name {
        Some(attrs[0].1)
    } else {
        spec_attr_in(attrs.drop_first(), name)
    }
}

/// Value of the attribute `name` on `e`, if any.
pub open spec fn spec_attr(e: SpecElement, name: Seq<char>) -> Option<Seq<char>> {
    spec_attr_in(e.attrs, name)
}

/// First child of `e` whose tag is `tag`.
pub open spec fn spec_first_child(e: SpecElement, tag: Seq<char>) -> Option<SpecElement> {
    spec_first_child_in(e.children, tag)
}

/// First element of `s` whose tag is `tag`.
pub open spec fn spec_first_child_in(s: Seq<SpecElement>, tag: Seq<char>) -> Option<SpecElement>
    decreases s.len(),
{
    if s.len() == 0 {
        None
    } else if s[0].tag == tag {
        Some(s[0])
    } else {
        spec_first_child_in(s.drop_first(), tag)
    }
}

impl Element {
    /// Looks up an attribute by name.
    pub fn attr(&self, name: &str) -> (r: Option<&String>)
        ensures
            r.deep_view() == spec_attr(self@, name@),
    {
        let r = self.attr_from(0, name);
        proof {
            assert(self.attrs.deep_view().subrange(0, self.attrs@.len() as int)
                =~= self.attrs.deep_view());
        }
        r
    }

    /// Looks up an attribute by name among `self.attrs[i..]`.
    fn attr_from(&self, i: usize, name: &str) -> (r: Option<&String>)
        requires
            i <= self.attrs@.len(),
        ensures
            r.deep_view() == spec_attr_in(
                self.attrs.deep_view().subrange(i as int, self.attrs@.len() as int),
                name@,
            ),
        decreases self.attrs@.len() - i,
    {
        let ghost suffix = self.attrs.deep_view().subrange(i as int, self.attrs@.len() as int);
        if i == self.attrs.len() {
            None
        } else {
            proof {
                assert(suffix[0] == self.attrs.deep_view()[i as int]);
                assert(suffix.drop_first() =~= self.attrs.deep_view().subrange(
                    i as int + 1,
                    self.attrs@.len() as int,
                ));
            }
            if str_eq(self.attrs[i].0.as_str(), name) {
                Some(&self.attrs[i].1)
            } else {
                self.attr_from(i + 1, name)
            }
        }
    }

    /// Finds the first child element with the given tag.
    pub fn find_child(&self, tag: &str) -> (r: Option<&Element>)
        ensures
            r.deep_view() == spec_first_child(self@, tag@),
    {
        let r = self.find_child_from(0, tag);
        proof {
            broadcast use lemma_elems_view_len;

            assert(elems_view(self.children@).subrange(0, self.children@.len() as int)
                =~= elems_view(self.children@));
        }
        r
    }

    /// Finds the first child element with the given tag at or after `i`.
    fn find_child_from(&self, i: usize, tag: &str) -> (r: Option<&Element>)
        requires
            i <= self.children@.len(),
        ensures
            r.deep_view() == spec_first_child_in(
                elems_view(self.children@).subrange(i as int, self.children@.len() as int),
                tag@,
            ),
        decreases self.children@.len() - i,
    {
        proof {
            broadcast use lemma_elems_view_len, lemma_elems_view_index;

        }
        let ghost suffix = elems_view(self.children@).subrange(
            i as int,
            self.children@.len() as int,
        );
        if i == self.children.len() {
            None
        } else {
            proof {
                assert(suffix[0] == elems_view(self.children@)[i as int]);
                assert(suffix.drop_first() =~= elems_view(self.children@).subrange(
                    i as int + 1,
                    self.children@.len() as int,
                ));
            }
            if str_eq(self.children[i].tag.as_str(), tag) {
                Some(&self.children[i])
            } else {
                self.find_child_from(i + 1, tag)
            }
        }
    }

    /// Whether some child element has the given tag.
    pub fn has_child(&self, tag: &str) -> (r: bool)
        ensures
            r == (spec_first_child(self@, tag@) is Some),
    {
        self.find_child(tag).is_some()
    }
}

} // verus!
