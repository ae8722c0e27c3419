//! The tokenizer: a single left-to-right scan that turns raw markup text
//! into a stream of start-tag, end-tag and text tokens.

use vstd::prelude::*;
use vstd::string::StrSliceExecFns;
use vstd::string::StringExecFns;

use crate::attrs::AttrMap;
use crate::attrs::AttrsView;
use crate::attrs::attrs_upsert;
use crate::text::char_is_space;
use crate::text::find_from;
use crate::text::find_space;
use crate::text::is_space;
use crate::text::lemma_find_from;
use crate::text::lemma_find_space;
use crate::text::scan_to_char;
use crate::text::scan_to_space;
use crate::text::str_strip_quotes;
use crate::text::str_trim;
use crate::text::strip_quotes;
use crate::text::trim;

verus! {

/// The mathematical model of a token.
pub enum SpecToken {
    /// An opening tag: its name and its attributes.
    StartTag(Seq<char>, AttrsView),
    /// A closing tag: the text between `</` and `>`, taken verbatim.
    EndTag(Seq<char>),
    /// A run of text between tags, trimmed, and non-empty.
    Text(Seq<char>),
}

/// One structural unit of a markup document.
#[derive(Debug, PartialEq)]
pub enum Token {
    /// An opening tag: its name and its attributes.
    StartTag(String, AttrMap),
    /// A closing tag: the text between `</` and `>`, taken verbatim.
    EndTag(String),
    /// A run of text between tags, trimmed, and non-empty.
    Text(String),
}

impl View for Token {
    type V = SpecToken;

    open spec fn view(&self) -> SpecToken {
        match self {
            Token::StartTag(name, attrs) => SpecToken::StartTag(name@, attrs@),
            Token::EndTag(name) => SpecToken::EndTag(name@),
            Token::Text(content) => SpecToken::Text(content@),
        }
    }
}

/// The token models of a token sequence.
pub open spec fn tokens_view(ts: Seq<Token>) -> Seq<SpecToken> {
    ts.map_values(|t: Token| t@)
}

/// Mapping a token sequence commutes with appending one token.
pub proof fn lemma_tokens_view_push(ts: Seq<Token>, t: Token)
    ensures
        tokens_view(ts.push(t)) =~= tokens_view(ts).push(t@),
{
}

/// One whitespace-separated word of the attribute text folded into the
/// accumulated pairs: `key=value` upserts the pair with quotes stripped from
/// the value; a word without `=` is discarded.
pub open spec fn attr_word_step(ps: AttrsView, w: Seq<char>) -> AttrsView {
    let e = find_from(w, 0, '=');
    if e < w.len() {
        attrs_upsert(ps, w.subrange(0, e), strip_quotes(w.subrange(e + 1, w.len() as int)))
    } else {
        ps
    }
}

/// The attribute pairs accumulated from the attribute text `s`, scanning
/// from position `i` with `ps` already collected: words are the maximal
/// whitespace-free runs.
pub open spec fn attrs_from(s: Seq<char>, i: int, ps: AttrsView) -> AttrsView
    decreases s.len() - i,
{
    if i < 0 || i >= s.len() {
        ps
    } else if char_is_space(s[i]) {
        attrs_from(s, i + 1, ps)
    } else {
        let j = find_space(s, i);
        proof {
            lemma_find_space(s, i);
        }
        attrs_from(s, j, attr_word_step(ps, s.subrange(i, j)))
    }
}

/// The attribute map described by the attribute text of an opening tag.
pub open spec fn parse_attrs(s: Seq<char>) -> AttrsView {
    attrs_from(s, 0, Seq::empty())
}

/// The start-tag token described by the text between `<` and `>`: the name
/// is everything before the first space, the rest is attribute text.
pub open spec fn start_token(contents: Seq<char>) -> SpecToken {
    let sp = find_from(contents, 0, ' ');
    if sp < contents.len() {
        SpecToken::StartTag(
            contents.subrange(0, sp),
            parse_attrs(contents.subrange(sp + 1, contents.len() as int)),
        )
    } else {
        SpecToken::StartTag(contents, Seq::empty())
    }
}

/// The tokens of the document `s` from position `i` on.
///
/// At `<` the scan runs to the next `>` (or the end) and yields an end tag
/// if `/` follows the `<`, a start tag otherwise; a lone `<` at the very end
/// yields nothing. Anywhere else it runs to the next `<` and yields the run
/// as text if anything is left of it after trimming.
pub open spec fn tokens_from(s: Seq<char>, i: int) -> Seq<SpecToken>
    decreases s.len() - i,
{
    if i < 0 || i >= s.len() {
        Seq::empty()
    } else if s[i] == '<' {
        if i + 1 == s.len() {
            Seq::empty()
        } else if s[i + 1] == '/' {
            let j = find_from(s, i + 2, '>');
            proof {
                lemma_find_from(s, i + 2, '>');
            }
            let nxt = if j < s.len() {
                j + 1
            } else {
                j
            };
            seq![SpecToken::EndTag(s.subrange(i + 2, j))] + tokens_from(s, nxt)
        } else {
            let j = find_from(s, i + 1, '>');
            proof {
                lemma_find_from(s, i + 1, '>');
            }
            let nxt = if j < s.len() {
                j + 1
            } else {
                j
            };
            seq![start_token(s.subrange(i + 1, j))] + tokens_from(s, nxt)
        }
    } else {
        let j = find_from(s, i, '<');
        proof {
            lemma_find_from(s, i, '<');
        }
        let t = trim(s.subrange(i, j));
        if t.len() == 0 {
            tokens_from(s, j)
        } else {
            seq![SpecToken::Text(t)] + tokens_from(s, j)
        }
    }
}

/// The full token stream of the document `s`.
pub open spec fn spec_tokenize(s: Seq<char>) -> Seq<SpecToken> {
    tokens_from(s, 0)
}

/// The tokenizer. It holds no state: each call scans its input afresh.
pub struct Parser {}

impl Parser {
    /// A new tokenizer.
    pub fn new() -> (p: Parser) {
        Parser {  }
    }

    /// Splits attribute text into whitespace-separated words, keeps the
    /// words with an `=`, and builds the map of names to quote-stripped
    /// values.
    pub fn parse_attributes(attributes_string: &str) -> (r: AttrMap)
        ensures
            r@ == parse_attrs(attributes_string@),
            r.wf(),
    {
        let s = attributes_string;
        let n: usize = s.unicode_len();
        let mut m = AttrMap::new();
        let mut i: usize = 0;
        while i < n
            invariant
                0 <= i <= n,
                n == s@.len(),
                m.wf(),
                parse_attrs(s@) == attrs_from(s@, i as int, m@),
            decreases n - i,
        {
            if is_space(s.get_char(i)) {
                i = i + 1;
            } else {
                let ghost m0 = m@;
                let j = scan_to_space(s, i);
                proof {
                    lemma_find_space(s@, i as int);
                }
                let word = s.substring_char(i, j);
                let wn: usize = word.unicode_len();
                let e = scan_to_char(word, 0, '=');
                if e < wn {
                    let key = word.substring_char(0, e);
                    let raw = word.substring_char(e + 1, wn);
                    let val = str_strip_quotes(raw);
                    m.insert(String::from_str(key), val);
                }
                proof {
                    assert(m@ == attr_word_step(m0, s@.subrange(i as int, j as int)));
                }
                i = j;
            }
        }
        m
    }

    /// Scans `html` left to right and returns its tokens, as
    /// [`spec_tokenize`] describes them. Malformed input never fails: an
    /// unterminated tag is cut at the end of the input, and a lone `<` at
    /// the very end stops the scan.
    pub fn tokenize(&self, html: &str) -> (r: Vec<Token>)
        ensures
            tokens_view(r@) == spec_tokenize(html@),
    {
        let mut tokens: Vec<Token> = Vec::new();
        let n: usize = html.unicode_len();
        let mut i: usize = 0;
        proof {
            assert(tokens_view(tokens@) =~= Seq::<SpecToken>::empty());
        }
        while i < n
            invariant
                0 <= i <= n,
                n == html@.len(),
                spec_tokenize(html@) == tokens_view(tokens@) + tokens_from(html@, i as int),
            decreases n - i,
        {
            let ghost toks0 = tokens@;
            let c = html.get_char(i);
            if c == '<' {
                if i + 1 == n {
                    proof {
                        assert(spec_tokenize(html@) =~= tokens_view(tokens@));
                    }
                    return tokens;
                } else if html.get_char(i + 1) == '/' {
                    let j = scan_to_char(html, i + 2, '>');
                    let name = html.substring_char(i + 2, j);
                    let tok = Token::EndTag(String::from_str(name));
                    proof {
                        lemma_tokens_view_push(toks0, tok);
                    }
                    tokens.push(tok);
                    i = if j < n {
                        j + 1
                    } else {
                        j
                    };
                } else {
                    let j = scan_to_char(html, i + 1, '>');
                    let contents = html.substring_char(i + 1, j);
                    let tok = Self::start_tag_token(contents);
                    proof {
                        lemma_tokens_view_push(toks0, tok);
                    }
                    tokens.push(tok);
                    i = if j < n {
                        j + 1
                    } else {
                        j
                    };
                }
            } else {
                let j = scan_to_char(html, i, '<');
                proof {
                    lemma_find_from(html@, i + 1, '<');
                    assert(find_from(html@, i as int, '<') == find_from(html@, i + 1, '<'));
                }
                let run = html.substring_char(i, j);
                let content = str_trim(run);
                if !content.as_str().is_empty() {
                    let tok = Token::Text(content);
                    proof {
                        lemma_tokens_view_push(toks0, tok);
                    }
                    tokens.push(tok);
                }
                i = j;
            }
        }
        tokens
    }

    /// Builds the start-tag token for the text between `<` and `>`.
    fn start_tag_token(contents: &str) -> (t: Token)
        ensures
            t@ == start_token(contents@),
    {
        let n: usize = contents.unicode_len();
        let sp = scan_to_char(contents, 0, ' ');
        if sp < n {
            let name = contents.substring_char(0, sp);
            let attr_text = contents.substring_char(sp + 1, n);
            let attrs = Self::parse_attributes(attr_text);
            Token::StartTag(String::from_str(name), attrs)
        } else {
            let attrs = AttrMap::new();
            Token::StartTag(String::from_str(contents), attrs)
        }
    }
}

} // verus!
