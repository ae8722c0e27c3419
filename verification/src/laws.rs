//! The library's general laws, stated over the same models its contracts
//! use and proved once and for all: what the builder makes of balanced
//! markup, and how a query relates to the document order of the tree.

use vstd::prelude::*;

use crate::attrs::AttrsView;
use crate::html::SpecElement;
use crate::html::build_stack;
use crate::html::build_step;
use crate::html::empty_root;
use crate::html::open_element;
use crate::html::spec_build;
use crate::html::with_child;
use crate::html::with_text;
use crate::parser::SpecToken;
use crate::selector::has_class;
use crate::selector::sel_matches;
use crate::selector::select_from;
use crate::selector::select_from_list;

verus! {

/// One item of well-formed balanced markup: an element whose opening and
/// closing tags enclose its own balanced parts, or a run of text.
pub enum MarkupItem {
    /// An element: tag name, attributes, and the parts between its tags.
    Element(Seq<char>, AttrsView, Seq<MarkupItem>),
    /// A run of text (as the tokenizer emits it: trimmed and non-empty).
    Text(Seq<char>),
}

/// The token stream of one balanced item.
pub open spec fn flatten_item(it: MarkupItem) -> Seq<SpecToken>
    decreases it,
{
    match it {
        MarkupItem::Element(name, attrs, parts) => seq![SpecToken::StartTag(name, attrs)]
            + flatten_items(parts) + seq![SpecToken::EndTag(name)],
        MarkupItem::Text(t) => seq![SpecToken::Text(t)],
    }
}

/// The token stream of a run of balanced items, in document order.
pub open spec fn flatten_items(items: Seq<MarkupItem>) -> Seq<SpecToken>
    decreases items,
{
    if items.len() == 0 {
        Seq::empty()
    } else {
        flatten_item(items[0]) + flatten_items(items.drop_first())
    }
}

/// The element `e` after its balanced parts are played over it, left to
/// right: each text part joins `e`'s text, each element part — itself built
/// from its own parts — becomes `e`'s next child.
pub open spec fn absorb(e: SpecElement, items: Seq<MarkupItem>) -> SpecElement
    decreases items,
{
    if items.len() == 0 {
        e
    } else {
        proof {
            assert(decreases_to!(items => items[0]));
        }
        match items[0] {
            MarkupItem::Text(t) => absorb(with_text(e, t), items.drop_first()),
            MarkupItem::Element(name, attrs, parts) => absorb(
                with_child(e, absorb(open_element(name, attrs), parts)),
                items.drop_first(),
            ),
        }
    }
}

/// The open-element stack after the tokens of `ts` are applied in order.
pub open spec fn run_tokens(stack: Seq<SpecElement>, ts: Seq<SpecToken>) -> Seq<SpecElement>
    decreases ts.len(),
{
    if ts.len() == 0 {
        stack
    } else {
        run_tokens(build_step(stack, ts[0]), ts.drop_first())
    }
}

/// Running a concatenation of token streams runs them one after the other.
pub proof fn lemma_run_append(stack: Seq<SpecElement>, a: Seq<SpecToken>, b: Seq<SpecToken>)
    ensures
        run_tokens(stack, a + b) == run_tokens(run_tokens(stack, a), b),
    decreases a.len(),
{
    if a.len() == 0 {
        assert(a + b =~= b);
        assert(run_tokens(stack, a) == stack);
    } else {
        assert((a + b)[0] == a[0]);
        assert((a + b).drop_first() =~= a.drop_first() + b);
        lemma_run_append(build_step(stack, a[0]), a.drop_first(), b);
    }
}

/// Running a single token is one step.
pub proof fn lemma_run_one(stack: Seq<SpecElement>, t: SpecToken)
    ensures
        run_tokens(stack, seq![t]) == build_step(stack, t),
{
    assert(seq![t][0] == t);
    assert(seq![t].drop_first() =~= Seq::<SpecToken>::empty());
    assert(run_tokens(stack, seq![t]) == run_tokens(build_step(stack, t), seq![t].drop_first()));
    assert(run_tokens(build_step(stack, t), seq![t].drop_first()) == build_step(stack, t));
}

/// The builder's stack is the fold of `build_step` over the tokens in
/// order, from the seeded root.
pub proof fn lemma_build_stack_is_run(ts: Seq<SpecToken>)
    ensures
        build_stack(ts) == run_tokens(seq![empty_root()], ts),
    decreases ts.len(),
{
    if ts.len() > 0 {
        lemma_build_stack_is_run(ts.drop_last());
        assert(ts =~= ts.drop_last() + seq![ts.last()]);
        lemma_run_append(seq![empty_root()], ts.drop_last(), seq![ts.last()]);
        lemma_run_one(run_tokens(seq![empty_root()], ts.drop_last()), ts.last());
    }
}

/// Playing the token stream of balanced items over any stack keeps the
/// stack's shape and absorbs the items into its top element.
pub proof fn lemma_run_balanced(stack: Seq<SpecElement>, items: Seq<MarkupItem>)
    requires
        stack.len() >= 1,
    ensures
        run_tokens(stack, flatten_items(items)) =~= stack.update(
            stack.len() - 1,
            absorb(stack.last(), items),
        ),
    decreases items,
{
    if items.len() == 0 {
        assert(run_tokens(stack, flatten_items(items)) == stack);
        assert(stack.update(stack.len() - 1, stack.last()) =~= stack);
    } else {
        assert(decreases_to!(items => items[0]));
        let first = items[0];
        let rest = items.drop_first();
        assert(flatten_items(items) == flatten_item(first) + flatten_items(rest));
        lemma_run_append(stack, flatten_item(first), flatten_items(rest));
        match first {
            MarkupItem::Text(t) => {
                lemma_run_one(stack, SpecToken::Text(t));
                let st1 = build_step(stack, SpecToken::Text(t));
                assert(st1 == stack.update(stack.len() - 1, with_text(stack.last(), t)));
                assert(st1.len() == stack.len());
                lemma_run_balanced(st1, rest);
                assert(st1.last() == with_text(stack.last(), t));
                assert(absorb(stack.last(), items) == absorb(with_text(stack.last(), t), rest));
                assert(st1.update(st1.len() - 1, absorb(st1.last(), rest)) =~= stack.update(
                    stack.len() - 1,
                    absorb(stack.last(), items),
                ));
            },
            MarkupItem::Element(name, attrs, parts) => {
                let start = SpecToken::StartTag(name, attrs);
                let end = SpecToken::EndTag(name);
                assert(flatten_item(first) == seq![start] + flatten_items(parts) + seq![end]);
                lemma_run_append(stack, seq![start] + flatten_items(parts), seq![end]);
                lemma_run_append(stack, seq![start], flatten_items(parts));
                lemma_run_one(stack, start);
                let st1 = build_step(stack, start);
                assert(st1 == stack.push(open_element(name, attrs)));
                lemma_run_balanced(st1, parts);
                let absorbed = absorb(open_element(name, attrs), parts);
                assert(st1.last() == open_element(name, attrs));
                assert(st1.update(st1.len() - 1, absorbed) =~= stack.push(absorbed));
                let st2 = stack.push(absorbed);
                assert(run_tokens(st1, flatten_items(parts)) == st2);
                lemma_run_one(st2, end);
                let st3 = build_step(st2, end);
                assert(st2.len() > 1);
                assert(st2.drop_last() =~= stack);
                assert(st2.last() == absorbed);
                assert(st3 == st2.drop_last().update(
                    st2.drop_last().len() - 1,
                    with_child(st2.drop_last().last(), st2.last()),
                ));
                let st3b = stack.update(stack.len() - 1, with_child(stack.last(), absorbed));
                assert(st3 == st3b);
                assert(st3b.len() == stack.len());
                lemma_run_balanced(st3b, rest);
                assert(st3b.last() == with_child(stack.last(), absorbed));
                assert(absorb(stack.last(), items) == absorb(
                    with_child(stack.last(), absorbed),
                    rest,
                ));
                assert(run_tokens(stack, flatten_item(first)) == st3);
                assert(st3b.update(st3b.len() - 1, absorb(st3b.last(), rest)) =~= stack.update(
                    stack.len() - 1,
                    absorb(stack.last(), items),
                ));
            },
        }
    }
}

/// Well-formed balanced markup builds the expected tree: the token stream
/// of any run of balanced items, folded by the builder, yields exactly the
/// synthetic root with those items played over it — every element part a
/// child in document order with its own subtree built the same way, and
/// every text part joined, in document order, into the text of the element
/// that directly holds it.
pub proof fn lemma_build_balanced(items: Seq<MarkupItem>)
    ensures
        spec_build(flatten_items(items)) == absorb(empty_root(), items),
{
    lemma_build_stack_is_run(flatten_items(items));
    lemma_run_balanced(seq![empty_root()], items);
    assert(seq![empty_root()].update(0, absorb(empty_root(), items))[0] == absorb(
        empty_root(),
        items,
    ));
}

/// All nodes of the subtree rooted at `e`, in pre-order: document order.
pub open spec fn descendants(e: SpecElement) -> Seq<SpecElement>
    decreases e,
{
    seq![e] + descendants_list(e.children)
}

/// All nodes of a forest, siblings left to right.
pub open spec fn descendants_list(es: Seq<SpecElement>) -> Seq<SpecElement>
    decreases es,
{
    if es.len() == 0 {
        Seq::empty()
    } else {
        descendants(es[0]) + descendants_list(es.drop_first())
    }
}

/// The match test of a selector, as a predicate on nodes.
pub open spec fn match_pred(tag: Option<Seq<char>>, cls: Option<Seq<char>>) -> spec_fn(
    SpecElement,
) -> bool {
    |x: SpecElement| sel_matches(tag, cls, x)
}

/// A query returns exactly the nodes of the tree that match, in document
/// order: selection is pre-order traversal filtered by the match test. A
/// matching ancestor hides none of its matching descendants.
pub proof fn lemma_select_is_filter(tag: Option<Seq<char>>, cls: Option<Seq<char>>, e: SpecElement)
    ensures
        select_from(tag, cls, e) == descendants(e).filter(match_pred(tag, cls)),
    decreases e,
{
    let p = match_pred(tag, cls);
    lemma_select_list_is_filter(tag, cls, e.children);
    assert((seq![e] + descendants_list(e.children)).filter(p) == seq![e].filter(p)
        + descendants_list(e.children).filter(p));
    assert(seq![e].filter(p) =~= if p(e) {
        seq![e]
    } else {
        Seq::<SpecElement>::empty()
    }) by {
        reveal_with_fuel(Seq::filter, 2);
        assert(seq![e].drop_last() =~= Seq::<SpecElement>::empty());
    }
    if sel_matches(tag, cls, e) {
        assert(select_from(tag, cls, e) =~= seq![e].filter(p) + descendants_list(
            e.children,
        ).filter(p));
    } else {
        assert(select_from(tag, cls, e) =~= seq![e].filter(p) + descendants_list(
            e.children,
        ).filter(p));
    }
}

/// Selection over a forest is filtering its document-order nodes.
pub proof fn lemma_select_list_is_filter(
    tag: Option<Seq<char>>,
    cls: Option<Seq<char>>,
    es: Seq<SpecElement>,
)
    ensures
        select_from_list(tag, cls, es) == descendants_list(es).filter(match_pred(tag, cls)),
    decreases es,
{
    let p = match_pred(tag, cls);
    if es.len() == 0 {
        assert(descendants_list(es).filter(p) =~= Seq::<SpecElement>::empty()) by {
            reveal_with_fuel(Seq::filter, 1);
        }
    } else {
        lemma_select_is_filter(tag, cls, es[0]);
        lemma_select_list_is_filter(tag, cls, es.drop_first());
        assert((descendants(es[0]) + descendants_list(es.drop_first())).filter(p) == descendants(
            es[0],
        ).filter(p) + descendants_list(es.drop_first()).filter(p));
    }
}

/// A query by class alone returns a node exactly when that node stands in
/// the tree and its `class` attribute, split on whitespace, contains the
/// class.
pub proof fn lemma_select_by_class_membership(c: Seq<char>, e: SpecElement, x: SpecElement)
    ensures
        select_from(Option::None, Option::Some(c), e).contains(x) <==> (descendants(e).contains(x)
            && has_class(x.attributes, c)),
{
    let tag = Option::<Seq<char>>::None;
    let cls = Option::Some(c);
    let p = match_pred(tag, cls);
    lemma_select_is_filter(tag, cls, e);
    assert(p(x) == has_class(x.attributes, c));
    if select_from(tag, cls, e).contains(x) {
        assert(descendants(e).filter(p).contains(x));
        descendants(e).lemma_filter_contains_rev(p, x);
        let i = choose|i: int|
            0 <= i < descendants(e).filter(p).len() && descendants(e).filter(p)[i] == x;
        assert(p(descendants(e).filter(p)[i]));
    }
    if descendants(e).contains(x) && has_class(x.attributes, c) {
        let i = choose|i: int| 0 <= i < descendants(e).len() && descendants(e)[i] == x;
        assert(p(descendants(e)[i]));
        assert(descendants(e).filter(p).contains(descendants(e)[i]));
    }
}

/// Selecting twice with the same criteria over the same tree yields the
/// same nodes in the same order: a query has no state to vary on.
pub proof fn lemma_select_idempotent(
    tag: Option<Seq<char>>,
    cls: Option<Seq<char>>,
    e: SpecElement,
    s1: Seq<SpecElement>,
    s2: Seq<SpecElement>,
)
    requires
        s1 == select_from(tag, cls, e),
        s2 == select_from(tag, cls, e),
    ensures
        s1 == s2,
{
}

} // verus!
