//! The query engine: a selector matches nodes by tag name or by class
//! membership, and a selection is the materialized, ordered result of one
//! query over a tree.

use vstd::prelude::*;
use vstd::string::StringExecFns;

use crate::attrs::AttrsView;
use crate::attrs::attrs_get;
use crate::html::HtmlElement;
use crate::html::SpecElement;
use crate::html::elem_model;
use crate::html::elems_model;
use crate::html::lemma_elems_model;
use crate::text::contains_word;
use crate::text::split_spaces;

verus! {

/// Whether a node's tag equals the selector's tag: both must be present;
/// the synthetic root, which has no tag, never matches.
pub open spec fn tag_matches(tag: Option<Seq<char>>, e: SpecElement) -> bool {
    match (tag, e.tag_name) {
        (Option::Some(t), Option::Some(n)) => t == n,
        _ => false,
    }
}

/// Whether the `class` attribute of `attrs`, split on whitespace, contains
/// the class `c` exactly.
pub open spec fn has_class(attrs: AttrsView, c: Seq<char>) -> bool {
    match attrs_get(attrs, "class"@) {
        Option::Some(classes) => split_spaces(classes).contains(c),
        Option::None => false,
    }
}

/// Whether a node carries the selector's class: a node with no `class`
/// attribute never matches.
pub open spec fn class_matches(cls: Option<Seq<char>>, e: SpecElement) -> bool {
    match cls {
        Option::Some(c) => has_class(e.attributes, c),
        Option::None => false,
    }
}

/// Whether a node matches the selector: by tag, or by class.
pub open spec fn sel_matches(
    tag: Option<Seq<char>>,
    cls: Option<Seq<char>>,
    e: SpecElement,
) -> bool {
    tag_matches(tag, e) || class_matches(cls, e)
}

/// The nodes selected from the subtree rooted at `e`, in pre-order: a
/// matching node comes before its matching descendants, and traversal
/// continues into the children of a match.
pub open spec fn select_from(
    tag: Option<Seq<char>>,
    cls: Option<Seq<char>>,
    e: SpecElement,
) -> Seq<SpecElement>
    decreases e,
{
    let rest = select_from_list(tag, cls, e.children);
    if sel_matches(tag, cls, e) {
        seq![e] + rest
    } else {
        rest
    }
}

/// The nodes selected from a forest, siblings left to right.
pub open spec fn select_from_list(
    tag: Option<Seq<char>>,
    cls: Option<Seq<char>>,
    es: Seq<SpecElement>,
) -> Seq<SpecElement>
    decreases es,
{
    if es.len() == 0 {
        Seq::empty()
    } else {
        select_from(tag, cls, es[0]) + select_from_list(tag, cls, es.drop_first())
    }
}

/// Selecting from a forest treats the last tree separately.
pub proof fn lemma_select_list_push(
    tag: Option<Seq<char>>,
    cls: Option<Seq<char>>,
    es: Seq<SpecElement>,
    e: SpecElement,
)
    ensures
        select_from_list(tag, cls, es.push(e)) =~= select_from_list(tag, cls, es) + select_from(
            tag,
            cls,
            e,
        ),
    decreases es.len(),
{
    if es.len() == 0 {
        assert(es.push(e)[0] == e);
        assert(es.push(e).drop_first() =~= Seq::<SpecElement>::empty());
        assert(select_from_list(tag, cls, es.push(e)) == select_from(tag, cls, e)
            + select_from_list(tag, cls, es.push(e).drop_first()));
        assert(select_from_list(tag, cls, es.push(e).drop_first())
            =~= Seq::<SpecElement>::empty());
        assert(select_from_list(tag, cls, es) =~= Seq::<SpecElement>::empty());
    } else {
        lemma_select_list_push(tag, cls, es.drop_first(), e);
        assert(es.push(e).drop_first() =~= es.drop_first().push(e));
        assert(es.push(e)[0] == es[0]);
        assert(select_from_list(tag, cls, es.push(e)) == select_from(tag, cls, es[0])
            + select_from_list(tag, cls, es.push(e).drop_first()));
        assert(select_from_list(tag, cls, es.push(e).drop_first()) == select_from_list(
            tag,
            cls,
            es.drop_first().push(e),
        ));
        assert(select_from_list(tag, cls, es) == select_from(tag, cls, es[0])
            + select_from_list(tag, cls, es.drop_first()));
    }
}

/// The models of a sequence of borrowed elements.
pub open spec fn refs_model(es: Seq<&HtmlElement>) -> Seq<SpecElement>
    decreases es.len(),
{
    if es.len() == 0 {
        Seq::empty()
    } else {
        seq![elem_model(*es[0])] + refs_model(es.drop_first())
    }
}

/// `refs_model` maps the sequence index by index.
pub proof fn lemma_refs_model(es: Seq<&HtmlElement>)
    ensures
        refs_model(es).len() == es.len(),
        forall|i: int| 0 <= i < es.len() ==> #[trigger] refs_model(es)[i] == elem_model(*es[i]),
    decreases es.len(),
{
    if es.len() > 0 {
        lemma_refs_model(es.drop_first());
    }
}

/// A match rule: by tag name, by class name, or both at once, in which case
/// either suffices.
pub struct Selector {
    tag_name: Option<String>,
    class_name: Option<String>,
}

impl Selector {
    /// The tag criterion, as a model.
    pub closed spec fn spec_tag(&self) -> Option<Seq<char>> {
        match self.tag_name {
            Option::Some(n) => Option::Some(n@),
            Option::None => Option::None,
        }
    }

    /// The class criterion, as a model.
    pub closed spec fn spec_class(&self) -> Option<Seq<char>> {
        match self.class_name {
            Option::Some(n) => Option::Some(n@),
            Option::None => Option::None,
        }
    }

    /// A selector with no criterion set; it matches nothing until one is.
    pub fn new() -> (s: Selector)
        ensures
            s.spec_tag() is None,
            s.spec_class() is None,
    {
        Selector { tag_name: None, class_name: None }
    }

    /// This selector, now matching nodes whose tag is `tag_name`.
    pub fn from_tag_name(self, tag_name: &str) -> (s: Selector)
        ensures
            s.spec_tag() == Option::Some(tag_name@),
            s.spec_class() == self.spec_class(),
    {
        Selector { tag_name: Some(String::from_str(tag_name)), class_name: self.class_name }
    }

    /// This selector, now matching nodes whose `class` attribute contains
    /// `class_name`.
    pub fn from_class_name(self, class_name: &str) -> (s: Selector)
        ensures
            s.spec_class() == Option::Some(class_name@),
            s.spec_tag() == self.spec_tag(),
    {
        Selector { tag_name: self.tag_name, class_name: Some(String::from_str(class_name)) }
    }

    /// Whether `element`'s tag equals this selector's tag criterion.
    fn matches_tag(&self, element: &HtmlElement) -> (r: bool)
        ensures
            r == tag_matches(self.spec_tag(), element@),
    {
        match &self.tag_name {
            Some(t) => match &element.tag_name {
                Some(n) => *t == *n,
                None => false,
            },
            None => false,
        }
    }

    /// Whether `element`'s `class` attribute, split on whitespace, contains
    /// this selector's class criterion exactly.
    pub fn matches_class(&self, element: &HtmlElement) -> (r: bool)
        ensures
            r == class_matches(self.spec_class(), element@),
    {
        match &self.class_name {
            Some(class_name) => {
                match element.attributes.get("class") {
                    Some(classes) => contains_word(classes.as_str(), class_name.as_str()),
                    None => false,
                }
            },
            None => false,
        }
    }

    /// Selects from the subtree rooted at `element`, in pre-order, into a
    /// materialized selection.
    pub fn select<'a>(&self, element: &'a HtmlElement) -> (r: Selection<'a>)
        ensures
            r@ == select_from(self.spec_tag(), self.spec_class(), element@),
    {
        let mut selected: Vec<&'a HtmlElement> = Vec::new();
        proof {
            assert(refs_model(selected@) =~= Seq::<SpecElement>::empty());
        }
        self.select_recursive(element, &mut selected);
        Selection::new(selected)
    }

    /// The first selected node of the subtree rooted at `element`, in
    /// pre-order, if any node is selected at all.
    pub fn select_first<'a>(&self, element: &'a HtmlElement) -> (r: Option<&'a HtmlElement>)
        ensures
            match r {
                Some(e) => select_from(self.spec_tag(), self.spec_class(), element@).len() > 0
                    && e@ == select_from(self.spec_tag(), self.spec_class(), element@)[0],
                None => select_from(self.spec_tag(), self.spec_class(), element@).len() == 0,
            },
    {
        let mut selected: Vec<&'a HtmlElement> = Vec::new();
        proof {
            assert(refs_model(selected@) =~= Seq::<SpecElement>::empty());
        }
        self.select_recursive(element, &mut selected);
        proof {
            lemma_refs_model(selected@);
        }
        if selected.len() > 0 {
            Some(selected[0])
        } else {
            None
        }
    }

    /// Walks the subtree rooted at `element` in pre-order and appends every
    /// matching node to `selected`.
    pub fn select_recursive<'a>(
        &self,
        element: &'a HtmlElement,
        selected: &mut Vec<&'a HtmlElement>,
    )
        ensures
            refs_model(final(selected)@) == refs_model(old(selected)@) + select_from(
                self.spec_tag(),
                self.spec_class(),
                elem_model(*element),
            ),
        decreases *element,
    {
        let ghost tag = self.spec_tag();
        let ghost cls = self.spec_class();
        let ghost sel0 = selected@;
        if self.matches_tag(element) || self.matches_class(element) {
            selected.push(element);
            proof {
                lemma_refs_model(sel0);
                lemma_refs_model(selected@);
                assert(refs_model(selected@) =~= refs_model(sel0) + seq![elem_model(*element)]);
            }
        }
        let ghost base = selected@;
        let ghost cmodel = elem_model(*element).children;
        proof {
            assert(cmodel == elems_model(element.children@));
            lemma_elems_model(element.children@);
            assert(cmodel.take(0) =~= Seq::<SpecElement>::empty());
        }
        let n: usize = element.children.len();
        let mut i: usize = 0;
        while i < n
            invariant
                0 <= i <= n,
                n == element.children@.len(),
                cmodel == elem_model(*element).children,
                cmodel.len() == n,
                tag == self.spec_tag(),
                cls == self.spec_class(),
                refs_model(selected@) == refs_model(base) + select_from_list(
                    tag,
                    cls,
                    cmodel.take(i as int),
                ),
            decreases n - i,
        {
            proof {
                assert(decreases_to!(element.children => element.children@));
                assert(decreases_to!(element.children@ => element.children@[i as int]));
            }
            let ghost cur = selected@;
            self.select_recursive(&element.children[i], selected);
            proof {
                lemma_elems_model(element.children@);
                assert(cmodel[i as int] == elem_model(element.children@[i as int]));
                lemma_select_list_push(tag, cls, cmodel.take(i as int), cmodel[i as int]);
                assert(cmodel.take(i as int).push(cmodel[i as int]) =~= cmodel.take(i as int + 1));
                assert(refs_model(selected@) =~= refs_model(base) + select_from_list(
                    tag,
                    cls,
                    cmodel.take(i as int + 1),
                ));
            }
            i = i + 1;
        }
        proof {
            assert(cmodel.take(n as int) =~= cmodel);
            assert(refs_model(selected@) =~= refs_model(sel0) + select_from(
                tag,
                cls,
                elem_model(*element),
            ));
        }
    }
}

/// Selects by tag name alone: shorthand for a fresh selector with only the
/// tag criterion set.
pub fn select_by_tag_name<'a>(element: &'a HtmlElement, tag_name: &str) -> (r: Selection<'a>)
    ensures
        r@ == select_from(Option::Some(tag_name@), Option::None, element@),
{
    Selector::new().from_tag_name(tag_name).select(element)
}

/// Selects by class name alone: shorthand for a fresh selector with only
/// the class criterion set.
pub fn select_by_class<'a>(element: &'a HtmlElement, class_name: &str) -> (r: Selection<'a>)
    ensures
        r@ == select_from(Option::None, Option::Some(class_name@), element@),
{
    Selector::new().from_class_name(class_name).select(element)
}

/// The texts of a node sequence joined with single spaces, in order. Every
/// node contributes, an empty text no less than any other.
pub open spec fn joined_text(es: Seq<SpecElement>) -> Seq<char>
    decreases es.len(),
{
    if es.len() == 0 {
        Seq::empty()
    } else if es.len() == 1 {
        es[0].text
    } else {
        es[0].text + seq![' '] + joined_text(es.drop_first())
    }
}

/// Joining distributes over appending one more node.
pub proof fn lemma_joined_text_push(es: Seq<SpecElement>, e: SpecElement)
    requires
        es.len() >= 1,
    ensures
        joined_text(es.push(e)) =~= joined_text(es) + seq![' '] + e.text,
    decreases es.len(),
{
    assert(es.push(e)[0] == es[0]);
    if es.len() == 1 {
        assert(es.push(e).drop_first() =~= seq![e]);
        assert(joined_text(es.push(e)) == es[0].text + seq![' '] + joined_text(
            es.push(e).drop_first(),
        ));
        assert(joined_text(seq![e]) == e.text);
    } else {
        lemma_joined_text_push(es.drop_first(), e);
        assert(es.push(e).drop_first() =~= es.drop_first().push(e));
        assert(joined_text(es.push(e)) == es[0].text + seq![' '] + joined_text(
            es.push(e).drop_first(),
        ));
        assert(joined_text(es) == es[0].text + seq![' '] + joined_text(es.drop_first()));
    }
}

/// The tag of the first node in `es` that has one, or `None`.
pub open spec fn first_tag(es: Seq<SpecElement>) -> Option<Seq<char>>
    decreases es.len(),
{
    if es.len() == 0 {
        Option::None
    } else if es[0].tag_name is Some {
        es[0].tag_name
    } else {
        first_tag(es.drop_first())
    }
}

/// The value of attribute `k` on the first node in `es` that carries it, or
/// `None`.
pub open spec fn first_attr(es: Seq<SpecElement>, k: Seq<char>) -> Option<Seq<char>>
    decreases es.len(),
{
    if es.len() == 0 {
        Option::None
    } else {
        match attrs_get(es[0].attributes, k) {
            Option::Some(v) => Option::Some(v),
            Option::None => first_attr(es.drop_first(), k),
        }
    }
}

/// The ordered, materialized result of one query: references into the tree
/// that produced them, in pre-order. It never outlives that tree.
#[derive(Debug)]
pub struct Selection<'a> {
    /// The selected nodes, in selection order.
    pub elements: Vec<&'a HtmlElement>,
}

impl<'a> View for Selection<'a> {
    type V = Seq<SpecElement>;

    open spec fn view(&self) -> Seq<SpecElement> {
        refs_model(self.elements@)
    }
}

impl<'a> Selection<'a> {
    /// A selection over the given nodes.
    pub fn new(elements: Vec<&'a HtmlElement>) -> (s: Selection<'a>)
        ensures
            s@ == refs_model(elements@),
    {
        Selection { elements }
    }

    /// How many nodes were selected.
    pub fn len(&self) -> (n: usize)
        ensures
            n == self@.len(),
    {
        proof {
            lemma_refs_model(self.elements@);
        }
        self.elements.len()
    }

    /// The `i`-th selected node in selection order, while `i` is in range.
    /// The selection is materialized: reading it repeatedly is free.
    pub fn get(&self, i: usize) -> (r: Option<&'a HtmlElement>)
        ensures
            match r {
                Some(e) => i < self@.len() && e@ == self@[i as int],
                None => i >= self@.len(),
            },
    {
        proof {
            lemma_refs_model(self.elements@);
        }
        if i < self.elements.len() {
            Some(self.elements[i])
        } else {
            None
        }
    }

    /// The `text` of every selected node, joined with single spaces, in
    /// selection order.
    pub fn text(&self) -> (r: String)
        ensures
            r@ == joined_text(self@),
    {
        let ghost sel = refs_model(self.elements@);
        let mut out = String::new();
        let n: usize = self.elements.len();
        let mut i: usize = 0;
        proof {
            lemma_refs_model(self.elements@);
            assert(sel.take(0) =~= Seq::<SpecElement>::empty());
        }
        while i < n
            invariant
                0 <= i <= n,
                n == self.elements@.len(),
                sel == refs_model(self.elements@),
                sel.len() == n,
                out@ == joined_text(sel.take(i as int)),
            decreases n - i,
        {
            if i > 0 {
                out.append(" ");
            }
            let elem: &HtmlElement = self.elements[i];
            out.append(elem.text.as_str());
            proof {
                reveal_strlit(" ");
                assert(" "@ =~= seq![' ']);
                lemma_refs_model(self.elements@);
                assert(sel[i as int] == elem_model(*elem));
                assert(sel[i as int].text == elem.text@);
                assert(sel.take(i as int).push(sel[i as int]) =~= sel.take(i as int + 1));
                if i == 0 {
                    assert(sel.take(1) =~= seq![sel[0]]);
                    assert(joined_text(seq![sel[0]]) == sel[0].text);
                } else {
                    lemma_joined_text_push(sel.take(i as int), sel[i as int]);
                }
            }
            i = i + 1;
        }
        proof {
            assert(sel.take(n as int) =~= sel);
        }
        out
    }

    /// The tag of the first selected node that has one; `None` when no
    /// selected node has a tag.
    pub fn tag_name(&self) -> (r: Option<String>)
        ensures
            match r {
                Some(t) => first_tag(self@) == Option::Some(t@),
                None => first_tag(self@) is None,
            },
    {
        let ghost sel = refs_model(self.elements@);
        let n: usize = self.elements.len();
        let mut i: usize = 0;
        proof {
            lemma_refs_model(self.elements@);
            assert(sel.subrange(0, n as int) =~= sel);
        }
        while i < n
            invariant
                0 <= i <= n,
                n == self.elements@.len(),
                sel == refs_model(self.elements@),
                sel.len() == n,
                first_tag(sel) == first_tag(sel.subrange(i as int, n as int)),
            decreases n - i,
        {
            let elem: &HtmlElement = self.elements[i];
            proof {
                lemma_refs_model(self.elements@);
                assert(sel.subrange(i as int, n as int)[0] == sel[i as int]);
                assert(sel[i as int] == elem_model(*elem));
            }
            match &elem.tag_name {
                Some(tag) => {
                    return Some(tag.clone());
                },
                None => {
                    proof {
                        assert(sel.subrange(i as int, n as int).drop_first() =~= sel.subrange(
                            i as int + 1,
                            n as int,
                        ));
                    }
                },
            }
            i = i + 1;
        }
        proof {
            assert(sel.subrange(n as int, n as int) =~= Seq::<SpecElement>::empty());
        }
        None
    }

    /// The value of `key` on the first selected node that carries that
    /// attribute; `None` when no selected node does.
    fn first_attribute(&self, key: &str) -> (r: Option<String>)
        ensures
            match r {
                Some(v) => first_attr(self@, key@) == Option::Some(v@),
                None => first_attr(self@, key@) is None,
            },
    {
        let ghost sel = refs_model(self.elements@);
        let n: usize = self.elements.len();
        let mut i: usize = 0;
        proof {
            lemma_refs_model(self.elements@);
            assert(sel.subrange(0, n as int) =~= sel);
        }
        while i < n
            invariant
                0 <= i <= n,
                n == self.elements@.len(),
                sel == refs_model(self.elements@),
                sel.len() == n,
                first_attr(sel, key@) == first_attr(sel.subrange(i as int, n as int), key@),
            decreases n - i,
        {
            let elem: &HtmlElement = self.elements[i];
            proof {
                lemma_refs_model(self.elements@);
                assert(sel.subrange(i as int, n as int)[0] == sel[i as int]);
                assert(sel[i as int] == elem_model(*elem));
            }
            match elem.attributes.get(key) {
                Some(v) => {
                    return Some(v.clone());
                },
                None => {
                    proof {
                        assert(sel.subrange(i as int, n as int).drop_first() =~= sel.subrange(
                            i as int + 1,
                            n as int,
                        ));
                    }
                },
            }
            i = i + 1;
        }
        proof {
            assert(sel.subrange(n as int, n as int) =~= Seq::<SpecElement>::empty());
        }
        None
    }

    /// The `class` attribute of the first selected node that has one.
    pub fn class(&self) -> (r: Option<String>)
        ensures
            match r {
                Some(v) => first_attr(self@, "class"@) == Option::Some(v@),
                None => first_attr(self@, "class"@) is None,
            },
    {
        self.first_attribute("class")
    }

    /// The `id` attribute of the first selected node that has one.
    pub fn id(&self) -> (r: Option<String>)
        ensures
            match r {
                Some(v) => first_attr(self@, "id"@) == Option::Some(v@),
                None => first_attr(self@, "id"@) is None,
            },
    {
        self.first_attribute("id")
    }

    /// The `href` attribute of the first selected node that has one.
    pub fn href(&self) -> (r: Option<String>)
        ensures
            match r {
                Some(v) => first_attr(self@, "href"@) == Option::Some(v@),
                None => first_attr(self@, "href"@) is None,
            },
    {
        self.first_attribute("href")
    }

    /// The `src` attribute of the first selected node that has one.
    pub fn src(&self) -> (r: Option<String>)
        ensures
            match r {
                Some(v) => first_attr(self@, "src"@) == Option::Some(v@),
                None => first_attr(self@, "src"@) is None,
            },
    {
        self.first_attribute("src")
    }
}

} // verus!
