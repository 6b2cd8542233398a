use vstd::prelude::*;
use vstd::string::*;
use crate::text::{is_word_char, lower, spec_is_word_char, spec_lower};

verus! {

// Query parsing: a raw query string becomes an ordered sequence of nodes,
// each a single term or a quoted phrase.  A `"` opens a phrase that runs to
// the matching quote, or to the end of the input when unterminated.  Nodes
// keep their left-to-right order and duplicate terms stay distinct.

/// Mathematical form of a query node.
pub ghost enum SpecNode {
    Term(Seq<char>),
    Phrase(Seq<Seq<char>>),
}

impl SpecNode {
    pub open spec fn is_phrase(self) -> bool {
        match self {
            SpecNode::Term(_) => false,
            SpecNode::Phrase(_) => true,
        }
    }

    /// The words of the node, in order.
    pub open spec fn words(self) -> Seq<Seq<char>> {
        match self {
            SpecNode::Term(w) => seq![w],
            SpecNode::Phrase(ws) => ws,
        }
    }
}

/// One node of a parsed query.
pub enum QueryNode {
    Term(Vec<char>),
    Phrase(Vec<Vec<char>>),
}

pub open spec fn word_views(ws: Seq<Vec<char>>) -> Seq<Seq<char>> {
    ws.map_values(|w: Vec<char>| w@)
}

impl QueryNode {
    pub open spec fn view(&self) -> SpecNode {
        match self {
            QueryNode::Term(w) => SpecNode::Term(w@),
            QueryNode::Phrase(ws) => SpecNode::Phrase(word_views(ws@)),
        }
    }
}

pub open spec fn node_views(ns: Seq<QueryNode>) -> Seq<SpecNode> {
    ns.map_values(|n: QueryNode| n.view())
}

/// State of the parser scan.
pub ghost struct ParseState {
    pub nodes: Seq<SpecNode>,
    pub word: Seq<char>,
    pub in_quote: bool,
    pub ph: Seq<Seq<char>>,
}

pub open spec fn parse_init() -> ParseState {
    ParseState { nodes: Seq::empty(), word: Seq::empty(), in_quote: false, ph: Seq::empty() }
}

/// Close the word being read, if any: inside quotes it joins the pending
/// phrase, outside it becomes a term node.
pub open spec fn parse_finish_word(st: ParseState) -> ParseState {
    if st.word.len() > 0 {
        if st.in_quote {
            ParseState { word: Seq::empty(), ph: st.ph.push(st.word), ..st }
        } else {
            ParseState { word: Seq::empty(), nodes: st.nodes.push(SpecNode::Term(st.word)), ..st }
        }
    } else {
        st
    }
}

/// Close the pending phrase, if it holds at least one word.
pub open spec fn parse_close_phrase(st: ParseState) -> ParseState {
    if st.ph.len() > 0 {
        ParseState { nodes: st.nodes.push(SpecNode::Phrase(st.ph)), ph: Seq::empty(), ..st }
    } else {
        st
    }
}

pub open spec fn parse_step(st: ParseState, c: char) -> ParseState {
    if c == '"' {
        let st1 = parse_finish_word(st);
        if st1.in_quote {
            let st2 = parse_close_phrase(st1);
            ParseState { in_quote: false, ..st2 }
        } else {
            ParseState { in_quote: true, ..st1 }
        }
    } else if spec_is_word_char(c) {
        ParseState { word: st.word.push(spec_lower(c)), ..st }
    } else {
        parse_finish_word(st)
    }
}

pub open spec fn parse_scan(s: Seq<char>) -> ParseState
    decreases s.len(),
{
    if s.len() == 0 {
        parse_init()
    } else {
        parse_step(parse_scan(s.drop_last()), s.last())
    }
}

/// The query graph of a raw query string.  An unterminated quote still closes
/// its phrase at the end of the input.
pub open spec fn spec_parse(s: Seq<char>) -> Seq<SpecNode> {
    parse_close_phrase(parse_finish_word(parse_scan(s))).nodes
}

proof fn lemma_parse_scan_take(s: Seq<char>, i: int)
    requires
        0 <= i < s.len(),
    ensures
        parse_scan(s.take(i + 1)) == parse_step(parse_scan(s.take(i)), s[i]),
{
    let t = s.take(i + 1);
    assert(t.drop_last() =~= s.take(i));
    assert(t.last() == s[i]);
}

/// Parse a raw query string into its query graph.
pub fn parse(s: &str) -> (r: Vec<QueryNode>)
    ensures
        node_views(r@) == spec_parse(s@),
{
    let len: usize = s.unicode_len();
    let mut nodes: Vec<QueryNode> = Vec::new();
    let mut word: Vec<char> = Vec::new();
    let mut in_quote: bool = false;
    let mut ph: Vec<Vec<char>> = Vec::new();
    let mut i: usize = 0;
    proof {
        assert(s@.take(0) =~= Seq::<char>::empty());
        assert(node_views(nodes@) =~= Seq::<SpecNode>::empty());
        assert(word_views(ph@) =~= Seq::<Seq<char>>::empty());
    }
    while i < len
        invariant
            len == s@.len(),
            i <= len,
            parse_scan(s@.take(i as int)) == (ParseState {
                nodes: node_views(nodes@),
                word: word@,
                in_quote: in_quote,
                ph: word_views(ph@),
            }),
        decreases len - i,
    {
        proof {
            lemma_parse_scan_take(s@, i as int);
        }
        let c = s.get_char(i);
        if c == '"' {
            if word.len() > 0 {
                if in_quote {
                    let ghost old_ph = ph@;
                    ph.push(word);
                    proof {
                        assert(word_views(ph@) =~= word_views(old_ph).push(ph@[ph@.len()
                            - 1]@));
                    }
                } else {
                    let ghost old_nodes = nodes@;
                    nodes.push(QueryNode::Term(word));
                    proof {
                        assert(node_views(nodes@) =~= node_views(old_nodes).push(nodes@[nodes@.len()
                            - 1].view()));
                    }
                }
                word = Vec::new();
            }
            if in_quote {
                if ph.len() > 0 {
                    let ghost old_nodes = nodes@;
                    nodes.push(QueryNode::Phrase(ph));
                    proof {
                        assert(node_views(nodes@) =~= node_views(old_nodes).push(nodes@[nodes@.len()
                            - 1].view()));
                    }
                    ph = Vec::new();
                    proof {
                        assert(word_views(ph@) =~= Seq::<Seq<char>>::empty());
                    }
                }
                in_quote = false;
            } else {
                in_quote = true;
            }
        } else if is_word_char(c) {
            word.push(lower(c));
        } else {
            if word.len() > 0 {
                if in_quote {
                    let ghost old_ph = ph@;
                    ph.push(word);
                    proof {
                        assert(word_views(ph@) =~= word_views(old_ph).push(ph@[ph@.len()
                            - 1]@));
                    }
                } else {
                    let ghost old_nodes = nodes@;
                    nodes.push(QueryNode::Term(word));
                    proof {
                        assert(node_views(nodes@) =~= node_views(old_nodes).push(nodes@[nodes@.len()
                            - 1].view()));
                    }
                }
                word = Vec::new();
            }
        }
        i = i + 1;
    }
    proof {
        assert(s@.take(len as int) =~= s@);
    }
    if word.len() > 0 {
        if in_quote {
            let ghost old_ph = ph@;
            ph.push(word);
            proof {
                assert(word_views(ph@) =~= word_views(old_ph).push(ph@[ph@.len() - 1]@));
            }
        } else {
            let ghost old_nodes = nodes@;
            nodes.push(QueryNode::Term(word));
            proof {
                assert(node_views(nodes@) =~= node_views(old_nodes).push(nodes@[nodes@.len()
                    - 1].view()));
            }
        }
    }
    if ph.len() > 0 {
        let ghost old_nodes = nodes@;
        nodes.push(QueryNode::Phrase(ph));
        proof {
            assert(node_views(nodes@) =~= node_views(old_nodes).push(nodes@[nodes@.len()
                - 1].view()));
        }
    }
    nodes
}

/// Copy a character vector.
pub fn clone_chars(v: &Vec<char>) -> (r: Vec<char>)
    ensures
        r@ == v@,
{
    let mut r: Vec<char> = Vec::new();
    let mut i: usize = 0;
    while i < v.len()
        invariant
            i <= v@.len(),
            r@ == v@.take(i as int),
        decreases v@.len() - i,
    {
        r.push(v[i]);
        proof {
            assert(r@ =~= v@.take(i + 1));
        }
        i = i + 1;
    }
    proof {
        assert(v@.take(v@.len() as int) =~= v@);
    }
    r
}

/// Copy a vector of words.
pub fn clone_words(v: &Vec<Vec<char>>) -> (r: Vec<Vec<char>>)
    ensures
        word_views(r@) == word_views(v@),
{
    let mut r: Vec<Vec<char>> = Vec::new();
    let mut i: usize = 0;
    proof {
        assert(word_views(r@) =~= word_views(v@).take(0));
    }
    while i < v.len()
        invariant
            i <= v@.len(),
            word_views(r@) == word_views(v@).take(i as int),
        decreases v@.len() - i,
    {
        let ghost old_r = r@;
        r.push(clone_chars(&v[i]));
        proof {
            assert(word_views(r@) =~= word_views(old_r).push(r@[r@.len() - 1]@));
            assert(word_views(r@) =~= word_views(v@).take(i + 1));
        }
        i = i + 1;
    }
    proof {
        assert(word_views(v@).take(v@.len() as int) =~= word_views(v@));
    }
    r
}

/// Copy a query node.
pub fn clone_node(n: &QueryNode) -> (r: QueryNode)
    ensures
        r.view() == n.view(),
{
    match n {
        QueryNode::Term(w) => QueryNode::Term(clone_chars(w)),
        QueryNode::Phrase(ws) => QueryNode::Phrase(clone_words(ws)),
    }
}

} // verus!
