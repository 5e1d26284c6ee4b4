//! The parser turns a flat stream of lexical tokens into a tree of
//! renderable nodes.

use vstd::prelude::*;
use vstd::string::StrSliceExecFns;
use vstd::string::StringExecFns;

verus! {

broadcast use {
    vstd::std_specs::vec::axiom_vec_decreases_to_view,
    vstd::seq::axiom_seq_index_decreases,
    vstd::seq::axiom_seq_subrange_decreases,
};

/// A lexical token produced by the host's tokenizer.
#[derive(Debug, PartialEq)]
pub enum Token {
    /// Literal template text.
    Text(String),
    /// An escaped variable reference: name and verbatim tag text.
    Variable(String, String),
    /// An unescaped (raw) variable reference: name and verbatim tag text.
    Raw(String, String),
    /// A section-open tag: name, inverted flag, verbatim tag text.
    OTag(String, bool, String),
    /// A section-close tag: name and verbatim tag text.
    CTag(String, String),
    /// A partial reference: name and verbatim tag text.
    Partial(String, String),
}

/// The mathematical value of a `Token`.
pub enum TokenModel {
    Text(Seq<char>),
    Variable(Seq<char>, Seq<char>),
    Raw(Seq<char>, Seq<char>),
    OTag(Seq<char>, bool, Seq<char>),
    CTag(Seq<char>, Seq<char>),
    Partial(Seq<char>, Seq<char>),
}

impl View for Token {
    type V = TokenModel;

    open spec fn view(&self) -> TokenModel {
        match self {
            Token::Text(t) => TokenModel::Text(t@),
            Token::Variable(name, raw) => TokenModel::Variable(name@, raw@),
            Token::Raw(name, raw) => TokenModel::Raw(name@, raw@),
            Token::OTag(name, inverted, raw) => TokenModel::OTag(name@, *inverted, raw@),
            Token::CTag(name, raw) => TokenModel::CTag(name@, raw@),
            Token::Partial(name, raw) => TokenModel::Partial(name@, raw@),
        }
    }
}

/// A renderable node of the parsed template tree.
#[derive(Debug, PartialEq)]
pub enum Node {
    /// Literal passthrough text.
    Static(String),
    /// HTML-escaped scalar substitution: key and verbatim tag text.
    Value(String, String),
    /// Conditional/repeated block: key, children, inverted flag,
    /// verbatim open-tag text and close-tag text.
    Section(String, Vec<Node>, bool, String, String),
    /// Raw (unescaped) scalar substitution: key and verbatim tag text.
    Unescaped(String, String),
    /// Named sub-template inclusion point: key and verbatim tag text.
    Part(String, String),
}

/// The mathematical value of a `Node`.
pub enum NodeModel {
    Static(Seq<char>),
    Value(Seq<char>, Seq<char>),
    Section(Seq<char>, Seq<NodeModel>, bool, Seq<char>, Seq<char>),
    Unescaped(Seq<char>, Seq<char>),
    Part(Seq<char>, Seq<char>),
}

/// The mathematical value of a node.
pub open spec fn node_model(n: Node) -> NodeModel
    decreases n,
{
    match n {
        Node::Static(t) => NodeModel::Static(t@),
        Node::Value(key, raw) => NodeModel::Value(key@, raw@),
        Node::Section(key, children, inverted, otag, ctag) => NodeModel::Section(
            key@,
            nodes_model(children@),
            inverted,
            otag@,
            ctag@,
        ),
        Node::Unescaped(key, raw) => NodeModel::Unescaped(key@, raw@),
        Node::Part(key, raw) => NodeModel::Part(key@, raw@),
    }
}

/// The mathematical value of a sequence of nodes, element by element.
pub open spec fn nodes_model(nodes: Seq<Node>) -> Seq<NodeModel>
    decreases nodes,
{
    if nodes.len() == 0 {
        Seq::empty()
    } else {
        seq![node_model(nodes[0])] + nodes_model(nodes.drop_first())
    }
}

impl View for Node {
    type V = NodeModel;

    open spec fn view(&self) -> NodeModel {
        node_model(*self)
    }
}

/// The mathematical value of a sequence of tokens, element by element.
pub open spec fn tokens_model(toks: Seq<Token>) -> Seq<TokenModel> {
    Seq::new(toks.len(), |i: int| toks[i]@)
}

/// Whether the character sequence contains a path separator.
pub open spec fn has_dot(s: Seq<char>) -> bool {
    exists|i: int| 0 <= i < s.len() && s[i] == '.'
}

/// Whether the character sequence contains an ampersand.
pub open spec fn has_amp(s: Seq<char>) -> bool {
    exists|i: int| 0 <= i < s.len() && s[i] == '&'
}

/// Index of the first path separator; `s.len()` if there is none.
pub open spec fn first_dot(s: Seq<char>) -> int
    decreases s.len(),
{
    if s.len() == 0 {
        0
    } else if s[0] == '.' {
        0
    } else {
        1 + first_dot(s.drop_first())
    }
}

/// Index of the last path separator; `-1` if there is none.
pub open spec fn last_dot(s: Seq<char>) -> int
    decreases s.len(),
{
    if s.len() == 0 {
        -1
    } else if s.last() == '.' {
        s.len() - 1
    } else {
        last_dot(s.drop_last())
    }
}

/// The first segment of a dotted path: everything before the first separator.
pub open spec fn first_seg(s: Seq<char>) -> Seq<char> {
    s.subrange(0, first_dot(s))
}

/// The last segment of a dotted path: everything after the last separator.
pub open spec fn last_seg(s: Seq<char>) -> Seq<char> {
    s.subrange(last_dot(s) + 1, s.len() as int)
}

/// On a sequence with a separator, `first_dot` is the first one.
pub proof fn lemma_first_dot(s: Seq<char>)
    requires
        has_dot(s),
    ensures
        0 <= first_dot(s) < s.len(),
        s[first_dot(s)] == '.',
        forall|j: int| 0 <= j < first_dot(s) ==> s[j] != '.',
    decreases s.len(),
{
    if s[0] != '.' {
        assert(has_dot(s.drop_first())) by {
            let w = choose|i: int| 0 <= i < s.len() && s[i] == '.';
            assert(s.drop_first()[w - 1] == '.');
        }
        lemma_first_dot(s.drop_first());
        assert(s[1 + first_dot(s.drop_first())] == s.drop_first()[first_dot(s.drop_first())]);
        assert forall|j: int| 0 <= j < first_dot(s) implies s[j] != '.' by {
            if j > 0 {
                assert(s[j] == s.drop_first()[j - 1]);
            }
        }
    }
}

/// On a sequence with a separator, `last_dot` is the last one.
pub proof fn lemma_last_dot(s: Seq<char>)
    requires
        has_dot(s),
    ensures
        0 <= last_dot(s) < s.len(),
        s[last_dot(s)] == '.',
        forall|j: int| last_dot(s) < j < s.len() ==> s[j] != '.',
    decreases s.len(),
{
    if s.last() != '.' {
        assert(has_dot(s.drop_last())) by {
            let w = choose|i: int| 0 <= i < s.len() && s[i] == '.';
            assert(s.drop_last()[w] == '.');
        }
        lemma_last_dot(s.drop_last());
        assert(s[last_dot(s.drop_last())] == s.drop_last()[last_dot(s.drop_last())]);
        assert forall|j: int| last_dot(s) < j < s.len() implies s[j] != '.' by {
            if j < s.len() - 1 {
                assert(s[j] == s.drop_last()[j]);
            }
        }
    }
}

/// The last segment of a dotted path contains no separator itself.
pub proof fn lemma_last_seg_no_dot(s: Seq<char>)
    requires
        has_dot(s),
    ensures
        !has_dot(last_seg(s)),
{
    lemma_last_dot(s);
}

/// The verbatim text of a section-close token.
pub open spec fn ctag_text(t: TokenModel) -> Seq<char> {
    match t {
        TokenModel::CTag(_name, raw) => raw,
        _ => Seq::empty(),
    }
}

/// The node produced by an escaped variable token, desugaring a dotted
/// path into a synthetic single-child section.
pub open spec fn variable_node(name: Seq<char>, raw: Seq<char>) -> NodeModel {
    if has_dot(name) {
        NodeModel::Section(
            first_seg(name),
            seq![NodeModel::Value(last_seg(name), "{{"@ + last_seg(name) + "}}"@)],
            false,
            "{{#"@ + first_seg(name) + "}}"@,
            "{{/"@ + first_seg(name) + "}}"@,
        )
    } else {
        NodeModel::Value(name, raw)
    }
}

/// The synthesized inner tag text for a desugared raw reference: it
/// keeps the source tag's ampersand style.
pub open spec fn raw_inner_tag(name: Seq<char>, raw: Seq<char>) -> Seq<char> {
    if has_amp(raw) {
        "{{&"@ + last_seg(name) + "}}"@
    } else {
        "{{{"@ + last_seg(name) + "}}}"@
    }
}

/// The node produced by a raw (unescaped) variable token.
pub open spec fn raw_node(name: Seq<char>, raw: Seq<char>) -> NodeModel {
    if has_dot(name) {
        NodeModel::Section(
            first_seg(name),
            seq![NodeModel::Unescaped(last_seg(name), raw_inner_tag(name, raw))],
            false,
            "{{#"@ + first_seg(name) + "}}"@,
            "{{/"@ + first_seg(name) + "}}"@,
        )
    } else {
        NodeModel::Unescaped(name, raw)
    }
}

/// Shifts an optional index by `d`.
pub open spec fn opt_shift(o: Option<int>, d: int) -> Option<int> {
    match o {
        Option::Some(i) => Option::Some(i + d),
        Option::None => Option::None,
    }
}

/// Index of the close tag that matches an already-open section named
/// `name`, with `count` same-name opens outstanding; `None` if the
/// stream ends first.
pub open spec fn match_close(toks: Seq<TokenModel>, name: Seq<char>, count: nat) -> Option<int>
    decreases toks.len(),
{
    if toks.len() == 0 {
        Option::None
    } else {
        match toks[0] {
            TokenModel::OTag(n, _inverted, _raw) => if n == name {
                opt_shift(match_close(toks.drop_first(), name, count + 1), 1)
            } else {
                opt_shift(match_close(toks.drop_first(), name, count), 1)
            },
            TokenModel::CTag(n, _raw) => if n == name {
                if count == 1 {
                    Option::Some(0)
                } else {
                    opt_shift(match_close(toks.drop_first(), name, (count - 1) as nat), 1)
                }
            } else {
                opt_shift(match_close(toks.drop_first(), name, count), 1)
            },
            _ => opt_shift(match_close(toks.drop_first(), name, count), 1),
        }
    }
}

/// A matched close index lies in the stream and names a close tag for
/// the section.
pub proof fn lemma_match_close_bounds(toks: Seq<TokenModel>, name: Seq<char>, count: nat)
    ensures
        match_close(toks, name, count) matches Option::Some(j) ==> 0 <= j < toks.len() && (toks[j]
            matches TokenModel::CTag(n, _raw) && n == name),
    decreases toks.len(),
{
    if toks.len() > 0 {
        let rest = toks.drop_first();
        let inner_count: nat = match toks[0] {
            TokenModel::OTag(n, _inverted, _raw) => if n == name {
                count + 1
            } else {
                count
            },
            TokenModel::CTag(n, _raw) => if n == name && count != 1 {
                (count - 1) as nat
            } else {
                count
            },
            _ => count,
        };
        lemma_match_close_bounds(rest, name, inner_count);
        if match_close(toks, name, count) is Some {
            let j = match_close(toks, name, count)->Some_0;
            if !(toks[0] matches TokenModel::CTag(n, _raw) && n == name && count == 1) {
                assert(match_close(rest, name, inner_count) == Option::Some(j - 1));
                assert(0 <= j - 1 < rest.len());
                assert(toks[j] == rest[j - 1]);
            }
        }
    }
}

/// The parse of a token stream: literal text, variable, raw and partial
/// tokens map to single nodes (dotted paths desugared); a section-open
/// collects everything up to its matching close into a recursively
/// parsed child list; a dangling close is dropped; a section-open with
/// no matching close drops itself and everything after it.
pub open spec fn spec_parse(toks: Seq<TokenModel>) -> Seq<NodeModel>
    decreases toks.len(),
    via spec_parse_decreases
{
    if toks.len() == 0 {
        Seq::empty()
    } else {
        let rest = toks.drop_first();
        match toks[0] {
            TokenModel::Text(t) => seq![NodeModel::Static(t)] + spec_parse(rest),
            TokenModel::Variable(name, raw) => seq![variable_node(name, raw)] + spec_parse(rest),
            TokenModel::Raw(name, raw) => seq![raw_node(name, raw)] + spec_parse(rest),
            TokenModel::Partial(name, raw) => seq![NodeModel::Part(name, raw)] + spec_parse(rest),
            TokenModel::CTag(_name, _raw) => spec_parse(rest),
            TokenModel::OTag(name, inverted, raw) => match match_close(rest, name, 1) {
                Option::Some(j) => seq![
                    NodeModel::Section(
                        name,
                        spec_parse(rest.take(j)),
                        inverted,
                        raw,
                        ctag_text(rest[j]),
                    ),
                ] + spec_parse(rest.skip(j + 1)),
                Option::None => Seq::empty(),
            },
        }
    }
}

#[via_fn]
proof fn spec_parse_decreases(toks: Seq<TokenModel>) {
    if toks.len() > 0 {
        match toks[0] {
            TokenModel::OTag(name, _inverted, _raw) => {
                lemma_match_close_bounds(toks.drop_first(), name, 1);
            },
            _ => {},
        }
    }
}

/// `nodes_model` maps the sequence pointwise.
pub proof fn lemma_nodes_model_index(nodes: Seq<Node>)
    ensures
        nodes_model(nodes).len() == nodes.len(),
        forall|i: int| 0 <= i < nodes.len() ==> nodes_model(nodes)[i] == node_model(nodes[i]),
    decreases nodes.len(),
{
    if nodes.len() > 0 {
        lemma_nodes_model_index(nodes.drop_first());
    }
}

/// Appending a node to a sequence appends its model.
pub proof fn lemma_nodes_model_push(nodes: Seq<Node>, n: Node)
    ensures
        nodes_model(nodes.push(n)) == nodes_model(nodes).push(node_model(n)),
    decreases nodes.len(),
{
    if nodes.len() == 0 {
        assert(nodes.push(n).drop_first() =~= Seq::<Node>::empty());
        assert(nodes.push(n)[0] == n);
        assert(nodes_model(nodes.push(n)) == seq![node_model(n)] + nodes_model(
            Seq::<Node>::empty(),
        ));
        assert(nodes_model(nodes.push(n)) =~= nodes_model(nodes).push(node_model(n)));
    } else {
        assert(nodes.push(n).drop_first() =~= nodes.drop_first().push(n));
        assert(nodes.push(n)[0] == nodes[0]);
        lemma_nodes_model_push(nodes.drop_first(), n);
        assert(nodes_model(nodes.push(n)) == seq![node_model(nodes[0])] + nodes_model(
            nodes.drop_first().push(n),
        ));
        assert(nodes_model(nodes.push(n)) =~= nodes_model(nodes).push(node_model(n)));
    }
}

/// The model of a one-node sequence is the one-model sequence.
proof fn lemma_nodes_model_singleton(n: Node)
    ensures
        nodes_model(seq![n]) == seq![node_model(n)],
{
    assert(seq![n].drop_first() =~= Seq::<Node>::empty());
    assert(nodes_model(Seq::<Node>::empty()) =~= Seq::<NodeModel>::empty());
    assert(seq![n][0] == n);
    assert(nodes_model(seq![n]) =~= seq![node_model(n)]);
}

/// A position that is a separator with none before it is `first_dot`.
proof fn lemma_first_dot_at(s: Seq<char>, i: int)
    requires
        0 <= i < s.len(),
        s[i] == '.',
        forall|j: int| 0 <= j < i ==> s[j] != '.',
    ensures
        first_dot(s) == i,
{
    assert(has_dot(s));
    lemma_first_dot(s);
    if first_dot(s) < i {
        assert(s[first_dot(s)] != '.');
    }
    if first_dot(s) > i {
        assert(s[i] != '.');
    }
}

/// A position that is a separator with none after it is `last_dot`.
proof fn lemma_last_dot_at(s: Seq<char>, i: int)
    requires
        0 <= i < s.len(),
        s[i] == '.',
        forall|j: int| i < j < s.len() ==> s[j] != '.',
    ensures
        last_dot(s) == i,
{
    assert(has_dot(s));
    lemma_last_dot(s);
    if last_dot(s) < i {
        assert(s[i] != '.');
    }
    if last_dot(s) > i {
        assert(s[last_dot(s)] != '.');
    }
}

/// Scans for path separators: whether one occurs, and the positions of
/// the first and the last one.
fn scan_dots(s: &str) -> (r: (bool, usize, usize))
    ensures
        r.0 == has_dot(s@),
        r.0 ==> r.1 as int == first_dot(s@) && r.2 as int == last_dot(s@),
{
    let n = s.unicode_len();
    let mut i: usize = 0;
    let mut found = false;
    let mut first: usize = 0;
    let mut last: usize = 0;
    while i < n
        invariant
            i <= n,
            n == s@.len(),
            found == exists|j: int| 0 <= j < i && s@[j] == '.',
            found ==> 0 <= first < i && s@[first as int] == '.' && (forall|j: int|
                0 <= j < first ==> s@[j] != '.'),
            found ==> 0 <= last < i && s@[last as int] == '.' && (forall|j: int|
                last < j < i ==> s@[j] != '.'),
        decreases n - i,
    {
        let c = s.get_char(i);
        if c == '.' {
            if !found {
                first = i;
            }
            last = i;
            found = true;
        }
        i = i + 1;
    }
    proof {
        if found {
            lemma_first_dot_at(s@, first as int);
            lemma_last_dot_at(s@, last as int);
        }
    }
    (found, first, last)
}

/// Scans for an ampersand.
fn scan_amp(s: &str) -> (r: bool)
    ensures
        r == has_amp(s@),
{
    let n = s.unicode_len();
    let mut i: usize = 0;
    let mut found = false;
    while i < n
        invariant
            i <= n,
            n == s@.len(),
            found == exists|j: int| 0 <= j < i && s@[j] == '&',
        decreases n - i,
    {
        if s.get_char(i) == '&' {
            found = true;
        }
        i = i + 1;
    }
    found
}

/// Builds the node for an escaped variable token, desugaring a dotted
/// path into a synthetic single-child section.
fn make_variable_node(name: &String, raw: &String) -> (n: Node)
    ensures
        node_model(n) == variable_node(name@, raw@),
{
    let (found, fd, ld) = scan_dots(name.as_str());
    if !found {
        Node::Value(name.clone(), raw.clone())
    } else {
        proof {
            lemma_first_dot(name@);
            lemma_last_dot(name@);
        }
        let n_chars = name.as_str().unicode_len();
        let seg_first = name.as_str().substring_char(0, fd);
        let seg_last = name.as_str().substring_char(ld + 1, n_chars);
        let mut var = String::from_str("{{");
        var.append(seg_last);
        var.append("}}");
        let mut otag = String::from_str("{{#");
        otag.append(seg_first);
        otag.append("}}");
        let mut ctag = String::from_str("{{/");
        ctag.append(seg_first);
        ctag.append("}}");
        let child = Node::Value(String::from_str(seg_last), var);
        let ghost child_m = node_model(child);
        let mut children: Vec<Node> = Vec::new();
        children.push(child);
        proof {
            assert(children@ =~= seq![children@[0]]);
            lemma_nodes_model_singleton(children@[0]);
            assert(node_model(children@[0]) == child_m);
            assert(child_m == NodeModel::Value(last_seg(name@), "{{"@ + last_seg(name@) + "}}"@));
        }
        Node::Section(String::from_str(seg_first), children, false, otag, ctag)
    }
}

/// Builds the node for a raw (unescaped) variable token, desugaring a
/// dotted path and keeping the tag's ampersand style.
fn make_raw_node(name: &String, raw: &String) -> (n: Node)
    ensures
        node_model(n) == raw_node(name@, raw@),
{
    let (found, fd, ld) = scan_dots(name.as_str());
    if !found {
        Node::Unescaped(name.clone(), raw.clone())
    } else {
        proof {
            lemma_first_dot(name@);
            lemma_last_dot(name@);
        }
        let n_chars = name.as_str().unicode_len();
        let seg_first = name.as_str().substring_char(0, fd);
        let seg_last = name.as_str().substring_char(ld + 1, n_chars);
        let amp = scan_amp(raw.as_str());
        let mut var = if amp {
            String::from_str("{{&")
        } else {
            String::from_str("{{{")
        };
        var.append(seg_last);
        if amp {
            var.append("}}");
        } else {
            var.append("}}}");
        }
        let mut otag = String::from_str("{{#");
        otag.append(seg_first);
        otag.append("}}");
        let mut ctag = String::from_str("{{/");
        ctag.append(seg_first);
        ctag.append("}}");
        let child = Node::Unescaped(String::from_str(seg_last), var);
        let ghost child_m = node_model(child);
        let mut children: Vec<Node> = Vec::new();
        children.push(child);
        proof {
            assert(children@ =~= seq![children@[0]]);
            lemma_nodes_model_singleton(children@[0]);
            assert(node_model(children@[0]) == child_m);
            assert(child_m == NodeModel::Unescaped(last_seg(name@), raw_inner_tag(name@, raw@)));
        }
        Node::Section(String::from_str(seg_first), children, false, otag, ctag)
    }
}

/// One parsing step inside a token subrange.
proof fn lemma_subrange_step(tm: Seq<TokenModel>, i: int, end: int)
    requires
        0 <= i < end <= tm.len(),
    ensures
        tm.subrange(i, end).len() == end - i,
        tm.subrange(i, end)[0] == tm[i],
        tm.subrange(i, end).drop_first() == tm.subrange(i + 1, end),
{
    assert(tm.subrange(i, end).drop_first() =~= tm.subrange(i + 1, end));
}

/// Concatenation after a push regroups.
proof fn lemma_push_concat(m: Seq<NodeModel>, x: NodeModel, s: Seq<NodeModel>)
    ensures
        m.push(x) + s == m + (seq![x] + s),
{
    assert(m.push(x) + s =~= m + (seq![x] + s));
}

/// Scans forward from the token after `i` (a section-open named `name`)
/// for the matching close, keeping a same-name nesting count; returns
/// the absolute index of the match and its verbatim tag text.
fn find_close(list: &Vec<Token>, i: usize, end: usize, name: &String) -> (r: Option<
    (usize, String),
>)
    requires
        i < end <= list@.len(),
    ensures
        match r {
            Option::Some(pair) => {
                &&& i + 1 <= pair.0 < end
                &&& match_close(
                    tokens_model(list@).subrange(i as int + 1, end as int),
                    name@,
                    1,
                ) == Option::Some(pair.0 as int - i - 1)
                &&& pair.1@ == ctag_text(tokens_model(list@)[pair.0 as int])
            },
            Option::None => match_close(
                tokens_model(list@).subrange(i as int + 1, end as int),
                name@,
                1,
            ) is None,
        },
{
    let ghost tm = tokens_model(list@);
    let ghost target = match_close(tm.subrange(i as int + 1, end as int), name@, 1);
    let mut k: usize = i + 1;
    let mut count: usize = 1;
    let mut result: Option<(usize, String)> = None;
    while k < end && result.is_none()
        invariant
            i + 1 <= k <= end <= list@.len(),
            tm == tokens_model(list@),
            target == match_close(tm.subrange(i as int + 1, end as int), name@, 1),
            match result {
                Option::Some(pair) => {
                    &&& i + 1 <= pair.0 < end
                    &&& target == Option::Some(pair.0 as int - i - 1)
                    &&& pair.1@ == ctag_text(tm[pair.0 as int])
                },
                Option::None => {
                    &&& 1 <= count <= k - i
                    &&& target == opt_shift(
                        match_close(tm.subrange(k as int, end as int), name@, count as nat),
                        k as int - i - 1,
                    )
                },
            },
        decreases end - k,
    {
        proof {
            lemma_subrange_step(tm, k as int, end as int);
            assert(tm[k as int] == list@[k as int]@);
        }
        let ghost sub_here = tm.subrange(k as int, end as int);
        let ghost sub_next = tm.subrange(k as int + 1, end as int);
        match &list[k] {
            Token::OTag(title, _inverted2, _raw2) => {
                if title.eq(name) {
                    proof {
                        assert(match_close(sub_here, name@, count as nat) == opt_shift(
                            match_close(sub_next, name@, count as nat + 1),
                            1,
                        ));
                    }
                    count = count + 1;
                } else {
                    proof {
                        assert(match_close(sub_here, name@, count as nat) == opt_shift(
                            match_close(sub_next, name@, count as nat),
                            1,
                        ));
                    }
                }
                k = k + 1;
            },
            Token::CTag(title, craw) => {
                if title.eq(name) {
                    if count == 1 {
                        proof {
                            assert(match_close(sub_here, name@, 1) == Option::Some(0int));
                        }
                        result = Some((k, craw.clone()));
                        k = k + 1;
                    } else {
                        proof {
                            assert(match_close(sub_here, name@, count as nat) == opt_shift(
                                match_close(sub_next, name@, (count - 1) as nat),
                                1,
                            ));
                        }
                        count = count - 1;
                        k = k + 1;
                    }
                } else {
                    proof {
                        assert(match_close(sub_here, name@, count as nat) == opt_shift(
                            match_close(sub_next, name@, count as nat),
                            1,
                        ));
                    }
                    k = k + 1;
                }
            },
            _ => {
                proof {
                    assert(match_close(sub_here, name@, count as nat) == opt_shift(
                        match_close(sub_next, name@, count as nat),
                        1,
                    ));
                }
                k = k + 1;
            },
        }
    }
    proof {
        if result is None {
            assert(k == end);
            assert(tm.subrange(end as int, end as int).len() == 0);
        }
    }
    result
}

/// Parses a flat token stream into a tree of renderable nodes: the
/// result is exactly `spec_parse` of the stream's mathematical value.
pub fn parse_nodes(list: &Vec<Token>) -> (nodes: Vec<Node>)
    ensures
        nodes_model(nodes@) == spec_parse(tokens_model(list@)),
{
    let n = list.len();
    let nodes = parse_range(list, 0, n);
    proof {
        assert(tokens_model(list@).subrange(0, n as int) =~= tokens_model(list@));
    }
    nodes
}

/// Parses the tokens of `list` between `start` and `end`.
fn parse_range(list: &Vec<Token>, start: usize, end: usize) -> (nodes: Vec<Node>)
    requires
        start <= end <= list@.len(),
    ensures
        nodes_model(nodes@) == spec_parse(
            tokens_model(list@).subrange(start as int, end as int),
        ),
    decreases end - start,
{
    let ghost tm = tokens_model(list@);
    let mut nodes: Vec<Node> = Vec::new();
    let mut i: usize = start;
    proof {
        assert(nodes_model(nodes@) =~= Seq::<NodeModel>::empty());
    }
    while i < end
        invariant
            start <= i <= end <= list@.len(),
            tm == tokens_model(list@),
            nodes_model(nodes@) + spec_parse(tm.subrange(i as int, end as int)) == spec_parse(
                tm.subrange(start as int, end as int),
            ),
        decreases end - i,
    {
        proof {
            lemma_subrange_step(tm, i as int, end as int);
            assert(tm[i as int] == list@[i as int]@);
        }
        let ghost sub_here = tm.subrange(i as int, end as int);
        let ghost sub_next = tm.subrange(i as int + 1, end as int);
        let ghost prev = nodes@;
        match &list[i] {
            Token::Text(text) => {
                let node = Node::Static(text.clone());
                proof {
                    assert(spec_parse(sub_here) == seq![node_model(node)] + spec_parse(sub_next));
                    lemma_nodes_model_push(prev, node);
                    lemma_push_concat(nodes_model(prev), node_model(node), spec_parse(sub_next));
                }
                nodes.push(node);
                i = i + 1;
            },
            Token::Variable(name, raw) => {
                let node = make_variable_node(name, raw);
                proof {
                    assert(spec_parse(sub_here) == seq![node_model(node)] + spec_parse(sub_next));
                    lemma_nodes_model_push(prev, node);
                    lemma_push_concat(nodes_model(prev), node_model(node), spec_parse(sub_next));
                }
                nodes.push(node);
                i = i + 1;
            },
            Token::Raw(name, raw) => {
                let node = make_raw_node(name, raw);
                proof {
                    assert(spec_parse(sub_here) == seq![node_model(node)] + spec_parse(sub_next));
                    lemma_nodes_model_push(prev, node);
                    lemma_push_concat(nodes_model(prev), node_model(node), spec_parse(sub_next));
                }
                nodes.push(node);
                i = i + 1;
            },
            Token::Partial(name, raw) => {
                let node = Node::Part(name.clone(), raw.clone());
                proof {
                    assert(spec_parse(sub_here) == seq![node_model(node)] + spec_parse(sub_next));
                    lemma_nodes_model_push(prev, node);
                    lemma_push_concat(nodes_model(prev), node_model(node), spec_parse(sub_next));
                }
                nodes.push(node);
                i = i + 1;
            },
            Token::CTag(_name, _raw) => {
                // A close with no open in scope is silently dropped.
                proof {
                    assert(spec_parse(sub_here) == spec_parse(sub_next));
                }
                i = i + 1;
            },
            Token::OTag(name, inverted, raw) => {
                let fc = find_close(list, i, end, name);
                match fc {
                    Some(pair) => {
                        let (k, craw) = pair;
                        let ghost j = k as int - i - 1;
                        let children = parse_range(list, i + 1, k);
                        let node = Node::Section(
                            name.clone(),
                            children,
                            *inverted,
                            raw.clone(),
                            craw,
                        );
                        proof {
                            assert(sub_next.take(j) =~= tm.subrange(i as int + 1, k as int));
                            assert(sub_next.skip(j + 1) =~= tm.subrange(k as int + 1, end as int));
                            assert(sub_next[j] == tm[k as int]);
                            assert(spec_parse(sub_here) == seq![node_model(node)] + spec_parse(
                                tm.subrange(k as int + 1, end as int),
                            ));
                            lemma_nodes_model_push(prev, node);
                            lemma_push_concat(
                                nodes_model(prev),
                                node_model(node),
                                spec_parse(tm.subrange(k as int + 1, end as int)),
                            );
                        }
                        nodes.push(node);
                        i = k + 1;
                    },
                    None => {
                        // An unterminated section drops itself and
                        // everything after it.
                        proof {
                            assert(spec_parse(sub_here) =~= Seq::<NodeModel>::empty());
                            assert(tm.subrange(end as int, end as int).len() == 0);
                            assert(spec_parse(tm.subrange(end as int, end as int))
                                =~= Seq::<NodeModel>::empty());
                            assert(nodes_model(nodes@) + spec_parse(
                                tm.subrange(end as int, end as int),
                            ) =~= nodes_model(nodes@) + spec_parse(sub_here));
                        }
                        i = end;
                    },
                }
            },
        }
    }
    proof {
        assert(tm.subrange(end as int, end as int).len() == 0);
        assert(nodes_model(nodes@) + spec_parse(tm.subrange(end as int, end as int))
            =~= nodes_model(nodes@));
    }
    nodes
}

/// Whether a token opens or closes a section.
pub open spec fn is_section_tag(t: TokenModel) -> bool {
    t is OTag || t is CTag
}

/// The single node produced by a non-section token.
pub open spec fn direct_node(t: TokenModel) -> NodeModel {
    match t {
        TokenModel::Text(text) => NodeModel::Static(text),
        TokenModel::Variable(name, raw) => variable_node(name, raw),
        TokenModel::Raw(name, raw) => raw_node(name, raw),
        TokenModel::Partial(name, raw) => NodeModel::Part(name, raw),
        _ => NodeModel::Static(Seq::empty()),
    }
}

/// On a stream without section tags, parsing is an order-preserving
/// identity mapping: one node per token.
pub proof fn lemma_parse_no_sections(toks: Seq<TokenModel>)
    requires
        forall|i: int| 0 <= i < toks.len() ==> !is_section_tag(#[trigger] toks[i]),
    ensures
        spec_parse(toks).len() == toks.len(),
        forall|i: int| 0 <= i < toks.len() ==> spec_parse(toks)[i] == direct_node(toks[i]),
    decreases toks.len(),
{
    if toks.len() > 0 {
        assert(forall|i: int| 0 <= i < toks.drop_first().len() ==> !is_section_tag(
            #[trigger] toks.drop_first()[i],
        ));
        lemma_parse_no_sections(toks.drop_first());
        assert(!is_section_tag(toks[0]));
        assert(spec_parse(toks) == seq![direct_node(toks[0])] + spec_parse(toks.drop_first()));
        assert forall|i: int| 0 <= i < toks.len() implies spec_parse(toks)[i] == direct_node(
            toks[i],
        ) by {
            if i > 0 {
                assert(spec_parse(toks)[i] == spec_parse(toks.drop_first())[i - 1]);
                assert(toks.drop_first()[i - 1] == toks[i]);
            }
        }
    }
}

/// A dotted variable reference parses to the same tree as the explicit
/// section form written around the path's last segment.
pub proof fn lemma_dotted_path_desugar(name: Seq<char>, raw: Seq<char>)
    requires
        has_dot(name),
    ensures
        spec_parse(seq![TokenModel::Variable(name, raw)]) == spec_parse(
            seq![
                TokenModel::OTag(first_seg(name), false, "{{#"@ + first_seg(name) + "}}"@),
                TokenModel::Variable(last_seg(name), "{{"@ + last_seg(name) + "}}"@),
                TokenModel::CTag(first_seg(name), "{{/"@ + first_seg(name) + "}}"@),
            ],
        ),
{
    lemma_last_seg_no_dot(name);
    let single = seq![TokenModel::Variable(name, raw)];
    let open_tok = TokenModel::OTag(first_seg(name), false, "{{#"@ + first_seg(name) + "}}"@);
    let var_tok = TokenModel::Variable(last_seg(name), "{{"@ + last_seg(name) + "}}"@);
    let close_tok = TokenModel::CTag(first_seg(name), "{{/"@ + first_seg(name) + "}}"@);
    let explicit = seq![open_tok, var_tok, close_tok];

    assert(single.drop_first() =~= Seq::<TokenModel>::empty());
    assert(spec_parse(Seq::<TokenModel>::empty()) =~= Seq::<NodeModel>::empty());
    assert(spec_parse(single) =~= seq![variable_node(name, raw)]);

    let rest = explicit.drop_first();
    assert(rest =~= seq![var_tok, close_tok]);
    assert(rest.drop_first() =~= seq![close_tok]);
    assert(match_close(seq![close_tok], first_seg(name), 1) == Option::Some(0int));
    assert(match_close(rest, first_seg(name), 1) == Option::Some(1int));

    assert(rest.take(1) =~= seq![var_tok]);
    assert(seq![var_tok].drop_first() =~= Seq::<TokenModel>::empty());
    assert(spec_parse(seq![var_tok]) =~= seq![variable_node(last_seg(name), "{{"@ + last_seg(name)
        + "}}"@)]);
    assert(variable_node(last_seg(name), "{{"@ + last_seg(name) + "}}"@) == NodeModel::Value(
        last_seg(name),
        "{{"@ + last_seg(name) + "}}"@,
    ));

    assert(rest.skip(2) =~= Seq::<TokenModel>::empty());
    assert(rest[1] == close_tok);
    assert(spec_parse(explicit) =~= seq![
        NodeModel::Section(
            first_seg(name),
            seq![NodeModel::Value(last_seg(name), "{{"@ + last_seg(name) + "}}"@)],
            false,
            "{{#"@ + first_seg(name) + "}}"@,
            "{{/"@ + first_seg(name) + "}}"@,
        ),
    ]);
    assert(spec_parse(single) =~= spec_parse(explicit));
}

/// A section-open token with no matching close before the stream ends
/// contributes nothing: the section and everything after it are
/// dropped, while the (section-free) tokens before it still parse.
pub proof fn lemma_unterminated_section(
    pre: Seq<TokenModel>,
    name: Seq<char>,
    inverted: bool,
    raw: Seq<char>,
    rest: Seq<TokenModel>,
)
    requires
        forall|i: int| 0 <= i < pre.len() ==> !is_section_tag(#[trigger] pre[i]),
        match_close(rest, name, 1) is None,
    ensures
        spec_parse(pre + seq![TokenModel::OTag(name, inverted, raw)] + rest) == spec_parse(pre),
    decreases pre.len(),
{
    let whole = pre + seq![TokenModel::OTag(name, inverted, raw)] + rest;
    if pre.len() == 0 {
        assert(whole[0] == TokenModel::OTag(name, inverted, raw));
        assert(whole.drop_first() =~= rest);
        assert(spec_parse(whole) =~= Seq::<NodeModel>::empty());
        assert(spec_parse(pre) =~= Seq::<NodeModel>::empty());
    } else {
        assert(forall|i: int| 0 <= i < pre.drop_first().len() ==> !is_section_tag(
            #[trigger] pre.drop_first()[i],
        ));
        lemma_unterminated_section(pre.drop_first(), name, inverted, raw, rest);
        assert(whole[0] == pre[0]);
        assert(!is_section_tag(pre[0]));
        assert(whole.drop_first() =~= pre.drop_first() + seq![
            TokenModel::OTag(name, inverted, raw),
        ] + rest);
        assert(spec_parse(whole) == seq![direct_node(pre[0])] + spec_parse(pre.drop_first()));
        assert(spec_parse(pre) == seq![direct_node(pre[0])] + spec_parse(pre.drop_first()));
    }
}

} // verus!
