//! The tree builder: tokens are folded over a stack of open elements,
//! seeded with a synthetic root, into a single owned tree.

use vstd::prelude::*;
use vstd::string::StringExecFns;

use crate::attrs::AttrMap;
use crate::attrs::AttrsView;
use crate::parser::Parser;
use crate::parser::SpecToken;
use crate::parser::Token;
use crate::parser::spec_tokenize;
use crate::parser::tokens_view;

verus! {

/// The mathematical model of a tree node.
pub struct SpecElement {
    /// The tag label; `None` only for the synthetic document root.
    pub tag_name: Option<Seq<char>>,
    /// The node's direct text runs, joined with single spaces.
    pub text: Seq<char>,
    /// The child elements, in document order.
    pub children: Seq<SpecElement>,
    /// The attributes captured from the opening tag.
    pub attributes: AttrsView,
}

/// One node of the parsed tree: a tag occurrence, or the synthetic root.
///
/// Each node exclusively owns its children; releasing the root releases the
/// whole tree.
#[derive(Debug)]
pub struct HtmlElement {
    /// The tag label; `None` only for the synthetic document root.
    pub tag_name: Option<String>,
    /// The node's direct text runs, joined with single spaces.
    pub text: String,
    /// The child elements, in document order.
    pub children: Vec<HtmlElement>,
    /// The attributes captured from the opening tag.
    pub attributes: AttrMap,
}

/// The model of one element, fields taken to their models recursively.
pub open spec fn elem_model(e: HtmlElement) -> SpecElement
    decreases e,
{
    SpecElement {
        tag_name: match e.tag_name {
            Option::Some(n) => Option::Some(n@),
            Option::None => Option::None,
        },
        text: e.text@,
        children: ({
            proof {
                assert(decreases_to!(e.children => e.children@));
            }
            elems_model(e.children@)
        }),
        attributes: e.attributes@,
    }
}

/// The models of a sequence of elements.
pub open spec fn elems_model(es: Seq<HtmlElement>) -> Seq<SpecElement>
    decreases es,
{
    if es.len() == 0 {
        Seq::empty()
    } else {
        seq![elem_model(es[0])] + elems_model(es.drop_first())
    }
}

impl View for HtmlElement {
    type V = SpecElement;

    open spec fn view(&self) -> SpecElement {
        elem_model(*self)
    }
}

/// `elems_model` maps the sequence index by index.
pub proof fn lemma_elems_model(es: Seq<HtmlElement>)
    ensures
        elems_model(es).len() == es.len(),
        forall|i: int| 0 <= i < es.len() ==> #[trigger] elems_model(es)[i] == elem_model(es[i]),
    decreases es,
{
    if es.len() > 0 {
        lemma_elems_model(es.drop_first());
    }
}

/// The synthetic document root: no tag, no text, no attributes, no children
/// yet.
pub open spec fn empty_root() -> SpecElement {
    SpecElement {
        tag_name: Option::None,
        text: Seq::empty(),
        children: Seq::empty(),
        attributes: Seq::empty(),
    }
}

/// A fresh element opened by a start tag.
pub open spec fn open_element(name: Seq<char>, attrs: AttrsView) -> SpecElement {
    SpecElement {
        tag_name: Option::Some(name),
        text: Seq::empty(),
        children: Seq::empty(),
        attributes: attrs,
    }
}

/// Text accumulated on a node: disjoint runs are joined with a single
/// space, never concatenated directly.
pub open spec fn join_text(old_text: Seq<char>, content: Seq<char>) -> Seq<char> {
    if old_text.len() == 0 {
        content
    } else {
        old_text + seq![' '] + content
    }
}

/// `e` with one more run of direct text.
pub open spec fn with_text(e: SpecElement, content: Seq<char>) -> SpecElement {
    SpecElement { text: join_text(e.text, content), ..e }
}

/// `e` with one more child appended.
pub open spec fn with_child(e: SpecElement, c: SpecElement) -> SpecElement {
    SpecElement { children: e.children.push(c), ..e }
}

/// One token applied to the stack of open elements.
///
/// A start tag opens a new element; text goes to the top of the stack; an
/// end tag closes the top element into its parent, by stack depth alone —
/// its name is never compared — and is dropped when only the root is open.
pub open spec fn build_step(stack: Seq<SpecElement>, t: SpecToken) -> Seq<SpecElement>
    recommends
        stack.len() >= 1,
{
    match t {
        SpecToken::StartTag(name, attrs) => stack.push(open_element(name, attrs)),
        SpecToken::Text(content) => stack.update(
            stack.len() - 1,
            with_text(stack.last(), content),
        ),
        SpecToken::EndTag(_) => {
            if stack.len() > 1 {
                let rest = stack.drop_last();
                rest.update(rest.len() - 1, with_child(rest.last(), stack.last()))
            } else {
                stack
            }
        },
    }
}

/// The stack of open elements after processing `ts`, seeded with the
/// synthetic root.
pub open spec fn build_stack(ts: Seq<SpecToken>) -> Seq<SpecElement>
    decreases ts.len(),
{
    if ts.len() == 0 {
        seq![empty_root()]
    } else {
        build_step(build_stack(ts.drop_last()), ts.last())
    }
}

/// The root is never popped: the stack stays non-empty.
pub proof fn lemma_build_stack_nonempty(ts: Seq<SpecToken>)
    ensures
        build_stack(ts).len() >= 1,
    decreases ts.len(),
{
    if ts.len() > 0 {
        lemma_build_stack_nonempty(ts.drop_last());
    }
}

/// The tree described by a token sequence: the synthetic root at the bottom
/// of the stack. Elements still open when the tokens run out are discarded,
/// not attached.
pub open spec fn spec_build(ts: Seq<SpecToken>) -> SpecElement {
    build_stack(ts)[0]
}

/// The parser facade: tokenize, then build.
pub struct HtmlParser {}

impl HtmlParser {
    /// A new parser.
    pub fn new() -> (p: HtmlParser) {
        HtmlParser {  }
    }

    /// Parses a whole document: the token stream of `input`, folded into a
    /// tree rooted at the synthetic document root.
    pub fn parse_html(&self, input: &str) -> (root: HtmlElement)
        ensures
            root@ == spec_build(spec_tokenize(input@)),
    {
        let parser = Parser::new();
        let tokens = parser.tokenize(input);
        self.build(tokens)
    }

    /// Folds a token sequence into a tree, as [`spec_build`] describes:
    /// start tags push, text joins onto the top element, end tags pop by
    /// depth, and whatever is still open at the end is dropped except the
    /// root.
    pub fn build(&self, tokens: Vec<Token>) -> (root: HtmlElement)
        ensures
            root@ == spec_build(tokens_view(tokens@)),
    {
        let ghost all: Seq<SpecToken> = tokens_view(tokens@);
        let mut toks = tokens;
        let mut stack: Vec<HtmlElement> = Vec::new();
        stack.push(
            HtmlElement {
                tag_name: None,
                text: String::new(),
                children: Vec::new(),
                attributes: AttrMap::new(),
            },
        );
        let ghost mut k: int = 0;
        proof {
            lemma_elems_model(stack@);
            assert(elem_model(stack@[0]).children =~= Seq::<SpecElement>::empty());
            assert(elem_model(stack@[0]) == empty_root());
            assert(elems_model(stack@) =~= seq![empty_root()]);
            assert(all.take(0) =~= Seq::<SpecToken>::empty());
        }
        while toks.len() > 0
            invariant
                0 <= k <= all.len(),
                tokens_view(toks@) =~= all.subrange(k, all.len() as int),
                stack@.len() >= 1,
                elems_model(stack@) == build_stack(all.take(k)),
            decreases toks@.len(),
        {
            let ghost stack0 = stack@;
            let ghost tv0 = toks@;
            let t = toks.remove(0);
            proof {
                assert(tokens_view(tv0).len() == tv0.len());
                assert(tv0.len() > 0);
                assert(k < all.len());
                assert(t == tv0[0]);
                assert(t@ == tokens_view(tv0)[0]);
                assert(all.subrange(k, all.len() as int)[0] == all[k]);
                assert(t@ == all[k]);
                assert(toks@ =~= tv0.drop_first());
                assert forall|i: int|
                    0 <= i < toks@.len() implies tokens_view(toks@)[i] == all.subrange(
                    k + 1,
                    all.len() as int,
                )[i] by {
                    assert(tokens_view(toks@)[i] == toks@[i]@);
                    assert(toks@[i] == tv0[i + 1]);
                    assert(tokens_view(tv0)[i + 1] == tv0[i + 1]@);
                    assert(all.subrange(k, all.len() as int)[i + 1] == all[k + 1 + i]);
                    assert(all.subrange(k + 1, all.len() as int)[i] == all[k + 1 + i]);
                }
                assert(tokens_view(toks@) =~= all.subrange(k + 1, all.len() as int));
                assert(all.take(k + 1).drop_last() =~= all.take(k));
                assert(all.take(k + 1).last() == all[k]);
                lemma_elems_model(stack0);
            }
            match t {
                Token::StartTag(name, attrs) => {
                    let e = HtmlElement {
                        tag_name: Some(name),
                        text: String::new(),
                        children: Vec::new(),
                        attributes: attrs,
                    };
                    proof {
                        assert(elem_model(e).children =~= Seq::<SpecElement>::empty());
                    }
                    stack.push(e);
                    proof {
                        lemma_elems_model(stack@);
                        assert(elems_model(stack@) =~= build_step(elems_model(stack0), all[k]));
                    }
                },
                Token::Text(content) => {
                    let mut top = stack.pop().unwrap();
                    let ghost top0 = top;
                    if top.text.as_str().is_empty() {
                        top.text = content;
                    } else {
                        top.text.append(" ");
                        top.text.append(content.as_str());
                    }
                    proof {
                        reveal_strlit(" ");
                        assert(" "@ =~= seq![' ']);
                        assert(elem_model(top) == with_text(elem_model(top0), content@));
                    }
                    stack.push(top);
                    proof {
                        lemma_elems_model(stack@);
                        assert(elems_model(stack@) =~= build_step(elems_model(stack0), all[k]));
                    }
                },
                Token::EndTag(_) => {
                    if stack.len() > 1 {
                        let top = stack.pop().unwrap();
                        let mut parent = stack.pop().unwrap();
                        let ghost parent0 = parent;
                        parent.children.push(top);
                        proof {
                            assert(parent.children@ =~= parent0.children@.push(top));
                            lemma_elems_model(parent0.children@);
                            lemma_elems_model(parent.children@);
                            assert(elems_model(parent.children@) =~= elems_model(
                                parent0.children@,
                            ).push(elem_model(top)));
                            assert(elem_model(parent) == with_child(
                                elem_model(parent0),
                                elem_model(top),
                            ));
                        }
                        stack.push(parent);
                        proof {
                            lemma_elems_model(stack@);
                            assert(elems_model(stack@) =~= build_step(elems_model(stack0), all[k]));
                        }
                    } else {
                        proof {
                            assert(elems_model(stack@) =~= build_step(elems_model(stack0), all[k]));
                        }
                    }
                },
            }
            proof {
                k = k + 1;
            }
        }
        proof {
            assert(all.take(all.len() as int) =~= all);
            lemma_build_stack_nonempty(all);
            lemma_elems_model(stack@);
        }
        let root = stack.remove(0);
        root
    }
}

} // verus!
