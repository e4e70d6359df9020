//! The tree builder: an insertion-mode state machine that consumes markup
//! tokens and grows the document tree.
use vstd::prelude::*;
use std::collections::VecDeque;
use crate::dom::{Attribute, Element, Node, NodeKind, Window};

verus! {

/// A markup token as handed over by the tokenizer.
#[derive(Debug, Clone)]
pub enum HtmlToken {
    StartTag { tag: String, self_closing: bool, attributes: Vec<Attribute> },
    EndTag { tag: String },
    Char(char),
    Eof,
}

/// A finite sequence of tokens, handed out one at a time.
#[derive(Debug, Clone)]
pub struct TokenStream {
    tokens: VecDeque<HtmlToken>,
}

impl TokenStream {
    /// The tokens not yet handed out, in order.
    pub closed spec fn remaining(&self) -> Seq<HtmlToken> {
        self.tokens@
    }

    /// A stream that hands out `tokens` in order.
    pub fn from_tokens(tokens: Vec<HtmlToken>) -> (s: TokenStream)
        ensures
            s.remaining() == tokens@,
    {
        let ghost all = tokens@;
        let mut tokens = tokens;
        let mut q: VecDeque<HtmlToken> = VecDeque::new();
        while tokens.len() > 0
            invariant
                tokens@ + q@ == all,
            decreases tokens@.len(),
        {
            let t = tokens.pop().unwrap();
            q.push_front(t);
            assert(tokens@ + q@ =~= all);
        }
        assert(q@ =~= all);
        TokenStream { tokens: q }
    }

    /// The next token, or `None` once all have been handed out.
    pub fn next(&mut self) -> (t: Option<HtmlToken>)
        ensures
            old(self).remaining().len() == 0 ==> t is None && final(self).remaining().len() == 0,
            old(self).remaining().len() > 0 ==> t == Some(old(self).remaining()[0])
                && final(self).remaining() == old(self).remaining().drop_first(),
    {
        let t = self.tokens.pop_front();
        proof {
            if old(self).tokens@.len() > 0 {
                assert(self.tokens@ =~= old(self).tokens@.drop_first());
            }
        }
        t
    }
}

/// The tree builder's state.
#[derive(Debug, Copy, Clone, PartialEq, Eq, Structural)]
pub enum InsertionMode {
    Initial,
    BeforeHtml,
    BeforeHead,
    InHead,
    AfterHead,
    InBody,
    Text,
    AfterBody,
    AfterAfterBody,
}

/// An element as the tree builder inserts it: tag and attributes.
pub type ElementSpec = (Seq<char>, Seq<Attribute>);

/// Whitespace skipped between tags.
pub open spec fn is_inter_tag_space(t: HtmlToken) -> bool {
    t matches HtmlToken::Char(c) && (c == ' ' || c == '\n')
}

/// `t` is a start tag named `name`.
pub open spec fn is_start_of(t: HtmlToken, name: Seq<char>) -> bool {
    t matches HtmlToken::StartTag { tag, .. } && tag@ == name
}

/// The element that a start tag inserts.
pub open spec fn element_of(t: HtmlToken) -> ElementSpec {
    match t {
        HtmlToken::StartTag { tag, attributes, .. } => (tag@, attributes@),
        _ => (Seq::empty(), Seq::empty()),
    }
}

/// Rank of a mode for termination: `Initial` hands its token on unconsumed.
pub open spec fn mode_rank(m: InsertionMode) -> nat {
    if m == InsertionMode::Initial {
        1
    } else {
        0
    }
}

/// The elements that the state machine inserts, in order, when it reads
/// `toks` starting in `mode`. `Initial` drops character tokens and hands
/// any other token on to `BeforeHtml`. `BeforeHtml` and `BeforeHead` skip
/// spaces and newlines, stop at `Eof`, and insert `html` / `head`: from a
/// matching start tag, or an implied one in place of any other token,
/// which is then dropped. The later modes insert nothing.
pub open spec fn run(mode: InsertionMode, toks: Seq<HtmlToken>) -> Seq<ElementSpec>
    decreases toks.len(), mode_rank(mode),
{
    if toks.len() == 0 {
        Seq::empty()
    } else {
        let t = toks[0];
        let rest = toks.drop_first();
        match mode {
            InsertionMode::Initial => {
                if t is Char {
                    run(InsertionMode::Initial, rest)
                } else {
                    run(InsertionMode::BeforeHtml, toks)
                }
            },
            InsertionMode::BeforeHtml => {
                if is_inter_tag_space(t) {
                    run(mode, rest)
                } else if t is Eof {
                    Seq::empty()
                } else if is_start_of(t, "html"@) {
                    seq![element_of(t)] + run(InsertionMode::BeforeHead, rest)
                } else {
                    seq![("html"@, Seq::empty())] + run(InsertionMode::BeforeHead, rest)
                }
            },
            InsertionMode::BeforeHead => {
                if is_inter_tag_space(t) {
                    run(mode, rest)
                } else if t is Eof {
                    Seq::empty()
                } else if is_start_of(t, "head"@) {
                    seq![element_of(t)] + run(InsertionMode::InHead, rest)
                } else {
                    seq![("head"@, Seq::empty())] + run(InsertionMode::InHead, rest)
                }
            },
            _ => Seq::empty(),
        }
    }
}

/// The elements of a window below its Document root, in creation order.
pub open spec fn elements(w: Window) -> Seq<ElementSpec> {
    Seq::new(
        (w.nodes@.len() - 1) as nat,
        |i: int|
            match w.nodes@[i + 1].kind {
                NodeKind::Element(e) => (e.tag@, e.attributes@),
                _ => (Seq::empty(), Seq::empty()),
            },
    )
}

/// Each node is the only child of the one before it, and all but the
/// root are elements.
pub open spec fn is_chain(w: Window) -> bool {
    let n = w.nodes@;
    forall|i: int|
        0 <= i < n.len() ==> {
            &&& #[trigger] n[i].first_child == if i + 1 < n.len() {
                Some((i + 1) as usize)
            } else {
                None
            }
            &&& n[i].last_child == n[i].first_child
            &&& n[i].next_sibling is None
            &&& n[i].previous_sibling is None
            &&& (i > 0 ==> n[i].kind is Element && n[i].parent == Some((i - 1) as usize))
        }
}

/// Character tokens at the start of the input are discarded one by one
/// without inserting anything, and the builder then meets the first other
/// token in mode `BeforeHtml`.
pub proof fn leading_characters_are_discarded(chars: Seq<HtmlToken>, rest: Seq<HtmlToken>)
    requires
        forall|i: int| 0 <= i < chars.len() ==> #[trigger] chars[i] is Char,
        rest.len() > 0 ==> !(rest[0] is Char),
    ensures
        run(InsertionMode::Initial, chars + rest) == run(InsertionMode::BeforeHtml, rest),
    decreases chars.len(),
{
    if chars.len() == 0 {
        assert(chars + rest =~= rest);
    } else {
        let tail = chars.drop_first();
        assert((chars + rest)[0] == chars[0]);
        assert((chars + rest).drop_first() =~= tail + rest);
        assert forall|i: int| 0 <= i < tail.len() implies #[trigger] tail[i] is Char by {
            assert(tail[i] == chars[i + 1]);
        }
        leading_characters_are_discarded(tail, rest);
    }
}

/// The tokens still to be read: the one in hand, if any, then the rest.
pub open spec fn pending(token: Option<HtmlToken>, rest: Seq<HtmlToken>) -> Seq<HtmlToken> {
    match token {
        Some(t) => seq![t] + rest,
        None => rest,
    }
}

/// Builds a document tree from a token stream.
#[derive(Debug, Clone)]
pub struct HtmlParser {
    window: Window,
    mode: InsertionMode,
    stack_of_open_elements: Vec<usize>,
    t: TokenStream,
}

impl HtmlParser {
    /// The current insertion mode.
    pub closed spec fn spec_mode(&self) -> InsertionMode {
        self.mode
    }

    /// The tree built so far.
    pub closed spec fn spec_window(&self) -> Window {
        self.window
    }

    /// The stack of open elements.
    pub closed spec fn spec_stack(&self) -> Seq<usize> {
        self.stack_of_open_elements@
    }

    /// The tokens not yet consumed.
    pub closed spec fn spec_tokens(&self) -> Seq<HtmlToken> {
        self.t.remaining()
    }

    /// The tree is a chain whose open elements are all its elements, and
    /// the mode says how many of them have been inserted.
    pub closed spec fn wf(&self) -> bool {
        let n = self.window.nodes@;
        let s = self.stack_of_open_elements@;
        &&& self.window.wf()
        &&& is_chain(self.window)
        &&& s.len() + 1 == n.len()
        &&& forall|i: int| 0 <= i < s.len() ==> #[trigger] s[i] == i + 1
        &&& (self.mode == InsertionMode::Initial || self.mode == InsertionMode::BeforeHtml) ==> n.len()
            == 1
        &&& self.mode == InsertionMode::BeforeHead ==> n.len() == 2
        &&& n.len() <= 3
    }

    /// A builder in mode `Initial` with an empty document, reading `t`.
    pub fn new(t: TokenStream) -> (p: HtmlParser)
        ensures
            p.wf(),
            p.spec_mode() == InsertionMode::Initial,
            p.spec_window().nodes@ == seq![crate::dom::detached(NodeKind::Document)],
            p.spec_stack().len() == 0,
            p.spec_tokens() == t.remaining(),
    {
        let p = HtmlParser {
            window: Window::new(),
            mode: InsertionMode::Initial,
            stack_of_open_elements: Vec::new(),
            t,
        };
        p
    }

    /// A new element node for `tag` and `attributes`, not yet linked.
    fn create_element(&self, tag: String, attributes: Vec<Attribute>) -> (k: NodeKind)
        ensures
            k == NodeKind::Element(Element { tag, attributes }),
    {
        NodeKind::Element(Element { tag, attributes })
    }

    /// Drains the token stream through the state machine and returns the
    /// document tree. A premature end of input yields what was built so far.
    pub fn construct_tree(self) -> (w: Window)
        requires
            self.wf(),
        ensures
            w.wf(),
            is_chain(w),
            elements(w) == elements(self.spec_window()) + run(
                self.spec_mode(),
                self.spec_tokens(),
            ),
    {
        let mut p = self;
        let ghost target = elements(p.window) + run(p.mode, p.t.remaining());
        let ghost toks0 = p.t.remaining();
        let mut token = p.t.next();
        assert(pending(token, p.t.remaining()) =~= toks0);
        while token.is_some()
            invariant
                p.wf(),
                token is None ==> p.t.remaining().len() == 0,
                target == elements(self.spec_window()) + run(self.spec_mode(), self.spec_tokens()),
                elements(p.window) + run(p.mode, pending(token, p.t.remaining())) == target,
            decreases p.t.remaining().len() + (if token is Some {
                1int
            } else {
                0int
            }), mode_rank(p.mode),
        {
            let ghost before = p.window;
            let ghost rest = p.t.remaining();
            let tok = token.unwrap();
            assert((seq![tok] + rest)[0] == tok);
            assert((seq![tok] + rest).drop_first() =~= rest);
            match p.mode {
                InsertionMode::Initial => {
                    match tok {
                        HtmlToken::Char(_) => {
                            token = p.t.next();
                            assert(pending(token, p.t.remaining()) =~= rest);
                        },
                        _ => {
                            p.mode = InsertionMode::BeforeHtml;
                            token = Some(tok);
                        },
                    }
                },
                InsertionMode::BeforeHtml => {
                    match tok {
                        HtmlToken::Eof => {
                            assert(pending(token, rest) == seq![tok] + rest);
                            assert(run(p.mode, seq![tok] + rest) == Seq::<ElementSpec>::empty());
                            assert(elements(p.window) + Seq::<ElementSpec>::empty() =~= elements(p.window));
                            return p.window;
                        },
                        HtmlToken::Char(c) => {
                            if c != ' ' && c != '\n' {
                                proof {
                                    reveal_strlit("html");
                                }
                                p.insert_element(String::from_str("html"), Vec::new());
                                p.mode = InsertionMode::BeforeHead;
                                assert(elements(p.window) =~= elements(before) + seq![("html"@, Seq::<Attribute>::empty())]);
                            }
                            token = p.t.next();
                            assert(pending(token, p.t.remaining()) =~= rest);
                        },
                        HtmlToken::StartTag { tag, self_closing: _, attributes } => {
                            if tag == String::from_str("html") {
                                p.insert_element(tag, attributes);
                            } else {
                                p.insert_element(String::from_str("html"), Vec::new());
                            }
                            p.mode = InsertionMode::BeforeHead;
                            token = p.t.next();
                            assert(pending(token, p.t.remaining()) =~= rest);
                        },
                        _ => {
                            p.insert_element(String::from_str("html"), Vec::new());
                            p.mode = InsertionMode::BeforeHead;
                            token = p.t.next();
                            assert(pending(token, p.t.remaining()) =~= rest);
                        },
                    }
                },
                InsertionMode::BeforeHead => {
                    match tok {
                        HtmlToken::Eof => {
                            assert(pending(token, rest) == seq![tok] + rest);
                            assert(run(p.mode, seq![tok] + rest) == Seq::<ElementSpec>::empty());
                            assert(elements(p.window) + Seq::<ElementSpec>::empty() =~= elements(p.window));
                            return p.window;
                        },
                        HtmlToken::Char(c) => {
                            if c != ' ' && c != '\n' {
                                p.insert_element(String::from_str("head"), Vec::new());
                                p.mode = InsertionMode::InHead;
                            }
                            token = p.t.next();
                            assert(pending(token, p.t.remaining()) =~= rest);
                        },
                        HtmlToken::StartTag { tag, self_closing: _, attributes } => {
                            if tag == String::from_str("head") {
                                p.insert_element(tag, attributes);
                            } else {
                                p.insert_element(String::from_str("head"), Vec::new());
                            }
                            p.mode = InsertionMode::InHead;
                            token = p.t.next();
                            assert(pending(token, p.t.remaining()) =~= rest);
                        },
                        _ => {
                            p.insert_element(String::from_str("head"), Vec::new());
                            p.mode = InsertionMode::InHead;
                            token = p.t.next();
                            assert(pending(token, p.t.remaining()) =~= rest);
                        },
                    }
                },
                _ => {
                    token = p.t.next();
                    assert(pending(token, p.t.remaining()) =~= rest);
                },
            }
        }
        assert(pending(token, p.t.remaining()) =~= Seq::<HtmlToken>::empty());
        assert(elements(p.window) + Seq::<ElementSpec>::empty() =~= elements(p.window));
        p.window
    }

    /// The node that elements are inserted under: the top of the stack of
    /// open elements, else the Document root.
    pub open spec fn current_of(stack: Seq<usize>) -> usize {
        if stack.len() == 0 {
            0
        } else {
            stack.last()
        }
    }

    /// The window and open elements are in step and the tree is a chain.
    closed spec fn is_stacked_chain(&self) -> bool {
        let n = self.window.nodes@;
        let s = self.stack_of_open_elements@;
        &&& is_chain(self.window)
        &&& s.len() + 1 == n.len()
        &&& forall|i: int| 0 <= i < s.len() ==> #[trigger] s[i] == i + 1
    }

    /// Inserts an element under the current node (the top of the stack of
    /// open elements, else the Document) and pushes it on the stack. The
    /// new node becomes the current node's last child: it follows the tail
    /// of the current node's sibling chain, and its previous sibling is the
    /// current node's former last child.
    fn insert_element(&mut self, tag: String, attributes: Vec<Attribute>)
        requires
            old(self).window.wf(),
            forall|i: int|
                0 <= i < old(self).stack_of_open_elements@.len()
                    ==> #[trigger] old(self).stack_of_open_elements@[i] < old(self).window.nodes@.len(),
            old(self).window.nodes@.len() + 1 < usize::MAX,
        ensures
            ({
                let n0 = old(self).window.nodes@;
                let n = final(self).window.nodes@;
                let cur = Self::current_of(old(self).stack_of_open_elements@);
                let r = n0.len();
                &&& final(self).window.wf()
                &&& n.len() == r + 1
                &&& n[r as int] == (Node {
                    kind: NodeKind::Element(Element { tag, attributes }),
                    parent: Some(cur),
                    first_child: None,
                    last_child: None,
                    previous_sibling: n0[cur as int].last_child,
                    next_sibling: None,
                })
                &&& n[cur as int] == (Node {
                    first_child: if n0[cur as int].first_child is None {
                        Some(r as usize)
                    } else {
                        n0[cur as int].first_child
                    },
                    last_child: Some(r as usize),
                    ..n0[cur as int]
                })
                &&& (n0[cur as int].last_child matches Some(l) ==> n[l as int] == (Node {
                    next_sibling: Some(r as usize),
                    ..n0[l as int]
                }))
                &&& forall|i: int|
                    0 <= i < r && i != cur && Some(i as usize) != n0[cur as int].last_child
                        ==> n[i] == n0[i]
                &&& final(self).stack_of_open_elements@ == old(self).stack_of_open_elements@.push(
                    r as usize,
                )
            }),
            elements(final(self).window) == elements(old(self).window).push((tag@, attributes@)),
            final(self).mode == old(self).mode,
            final(self).t == old(self).t,
            old(self).is_stacked_chain() ==> final(self).is_stacked_chain(),
    {
        let ghost old_w = self.window;
        let ghost old_s = self.stack_of_open_elements@;
        let current = match self.stack_of_open_elements.last() {
            Some(n) => *n,
            None => self.window.document(),
        };
        let ghost chain = self.is_stacked_chain();
        assert(current == Self::current_of(self.stack_of_open_elements@));
        let kind = self.create_element(tag, attributes);
        let r = self.window.append_child(current, kind);
        self.stack_of_open_elements.push(r);
        proof {
            let n = self.window.nodes@;
            assert(elements(self.window) =~= elements(old_w).push((tag@, attributes@))) by {
                assert forall|i: int| 0 <= i < old_w.nodes@.len() - 1 implies elements(self.window)[i]
                    == elements(old_w)[i] by {
                    assert(n[i + 1].kind == old_w.nodes@[i + 1].kind);
                }
            }
            if chain {
                assert(current + 1 == old_w.nodes@.len());
                assert(old_w.nodes@[current as int].first_child is None);
                assert forall|i: int| 0 <= i < n.len() implies {
                    &&& #[trigger] n[i].first_child == if i + 1 < n.len() {
                        Some((i + 1) as usize)
                    } else {
                        None
                    }
                    &&& n[i].last_child == n[i].first_child
                    &&& n[i].next_sibling is None
                    &&& n[i].previous_sibling is None
                    &&& (i > 0 ==> n[i].kind is Element && n[i].parent == Some((i - 1) as usize))
                } by {
                    if i < current {
                        assert(old_w.nodes@[i].first_child == Some((i + 1) as usize));
                    }
                }
                assert(self.stack_of_open_elements@ =~= old_s.push(r));
            }
        }
    }
}

} // verus!
