//! The renderer walks a parsed node tree against a scoped data
//! context and produces the output text.

use vstd::prelude::*;
use vstd::string::StrSliceExecFns;
use vstd::string::StringExecFns;

use crate::Data;
use crate::DataModel;
use crate::Lambda;
use crate::RustacheError;
use crate::data_model;
use crate::datas_model;
use crate::entries_model;
use crate::lemma_datas_model_index;
use crate::lemma_entries_model_index;
use crate::parser::Node;
use crate::parser::NodeModel;
use crate::parser::node_model;
use crate::parser::nodes_model;
use crate::parser::lemma_nodes_model_index;

verus! {

broadcast use {
    vstd::std_specs::vec::axiom_vec_decreases_to_view,
    vstd::seq::axiom_seq_index_decreases,
    vstd::seq::axiom_seq_subrange_decreases,
};

/// An error raised while rendering.
#[derive(Debug, PartialEq)]
pub enum TemplateError {
    /// A node that must produce scalar text resolved to an
    /// incompatible shape, or a lambda was compared for equality.
    RenderTypeError(String),
}

impl TemplateError {
    /// The description of this error.
    pub open spec fn description_model(&self) -> Seq<char> {
        match self {
            TemplateError::RenderTypeError(val) => val@,
        }
    }

    /// Returns the description of this error.
    pub fn description(&self) -> (r: String)
        ensures
            r@ == self.description_model(),
    {
        match self {
            TemplateError::RenderTypeError(val) => val.clone(),
        }
    }
}

/// The escape of one character: `&`, `<`, `>` and `"` become entity
/// references, every other character stands unchanged.
pub open spec fn escape_char(c: char) -> Seq<char> {
    if c == '<' {
        "&lt;"@
    } else if c == '>' {
        "&gt;"@
    } else if c == '&' {
        "&amp;"@
    } else if c == '"' {
        "&quot;"@
    } else {
        seq![c]
    }
}

/// The HTML escape of a character sequence, character by character.
pub open spec fn escaped(s: Seq<char>) -> Seq<char>
    decreases s.len(),
{
    if s.len() == 0 {
        Seq::empty()
    } else {
        escape_char(s[0]) + escaped(s.drop_first())
    }
}

/// Escaping a one-longer sequence appends the escape of the new
/// character.
pub proof fn lemma_escaped_push(s: Seq<char>, c: char)
    ensures
        escaped(s.push(c)) == escaped(s) + escape_char(c),
    decreases s.len(),
{
    if s.len() == 0 {
        assert(s.push(c).drop_first() =~= Seq::<char>::empty());
        assert(s.push(c)[0] == c);
        assert(escaped(Seq::<char>::empty()) =~= Seq::<char>::empty());
        assert(escaped(s.push(c)) =~= escaped(s) + escape_char(c));
    } else {
        assert(s.push(c).drop_first() =~= s.drop_first().push(c));
        assert(s.push(c)[0] == s[0]);
        lemma_escaped_push(s.drop_first(), c);
        assert(escaped(s.push(c)) =~= escaped(s) + escape_char(c));
    }
}

/// A template: parsed once, rendered against per-call data contexts.
pub struct Template {}

impl Template {
    /// Replaces `<`, `>`, `&` and `"` in `input` by entity references,
    /// leaving every other character (including `'`) untouched.
    pub fn escape_html(input: &str) -> (r: String)
        ensures
            r@ == escaped(input@),
    {
        let n = input.unicode_len();
        let mut rv = String::new();
        let mut i: usize = 0;
        while i < n
            invariant
                i <= n,
                n == input@.len(),
                rv@ == escaped(input@.subrange(0, i as int)),
            decreases n - i,
        {
            let c = input.get_char(i);
            if c == '<' {
                rv.append("&lt;");
            } else if c == '>' {
                rv.append("&gt;");
            } else if c == '&' {
                rv.append("&amp;");
            } else if c == '"' {
                rv.append("&quot;");
            } else {
                let piece = input.substring_char(i, i + 1);
                rv.append(piece);
                proof {
                    assert(input@.subrange(i as int, i as int + 1) =~= seq![input@[i as int]]);
                }
            }
            proof {
                assert(input@.subrange(0, i as int + 1) =~= input@.subrange(0, i as int).push(
                    input@[i as int],
                ));
                lemma_escaped_push(input@.subrange(0, i as int), input@[i as int]);
            }
            i = i + 1;
        }
        proof {
            assert(input@.subrange(0, n as int) =~= input@);
        }
        rv
    }
}

/// The character for one decimal digit.
pub open spec fn digit_char(d: nat) -> char {
    if d == 0 {
        '0'
    } else if d == 1 {
        '1'
    } else if d == 2 {
        '2'
    } else if d == 3 {
        '3'
    } else if d == 4 {
        '4'
    } else if d == 5 {
        '5'
    } else if d == 6 {
        '6'
    } else if d == 7 {
        '7'
    } else if d == 8 {
        '8'
    } else {
        '9'
    }
}

/// The decimal digits of a natural number, most significant first.
pub open spec fn dec_digits(n: nat) -> Seq<char>
    decreases n,
{
    if n < 10 {
        seq![digit_char(n)]
    } else {
        dec_digits(n / 10) + seq![digit_char(n % 10)]
    }
}

/// The decimal text of an integer.
pub open spec fn int_text(i: int) -> Seq<char> {
    if i < 0 {
        seq!['-'] + dec_digits((-i) as nat)
    } else {
        dec_digits(i as nat)
    }
}

/// Appends the decimal digits of `n`.
fn push_digits(out: &mut String, n: u64)
    ensures
        final(out)@ == old(out)@ + dec_digits(n as nat),
    decreases n,
{
    if n >= 10 {
        push_digits(out, n / 10);
    }
    let d = n % 10;
    if d == 0 {
        out.append("0");
        proof {
            assert("0"@ =~= seq![digit_char(0)]) by {
                reveal_strlit("0");
            }
        }
    } else if d == 1 {
        out.append("1");
        proof {
            assert("1"@ =~= seq![digit_char(1)]) by {
                reveal_strlit("1");
            }
        }
    } else if d == 2 {
        out.append("2");
        proof {
            assert("2"@ =~= seq![digit_char(2)]) by {
                reveal_strlit("2");
            }
        }
    } else if d == 3 {
        out.append("3");
        proof {
            assert("3"@ =~= seq![digit_char(3)]) by {
                reveal_strlit("3");
            }
        }
    } else if d == 4 {
        out.append("4");
        proof {
            assert("4"@ =~= seq![digit_char(4)]) by {
                reveal_strlit("4");
            }
        }
    } else if d == 5 {
        out.append("5");
        proof {
            assert("5"@ =~= seq![digit_char(5)]) by {
                reveal_strlit("5");
            }
        }
    } else if d == 6 {
        out.append("6");
        proof {
            assert("6"@ =~= seq![digit_char(6)]) by {
                reveal_strlit("6");
            }
        }
    } else if d == 7 {
        out.append("7");
        proof {
            assert("7"@ =~= seq![digit_char(7)]) by {
                reveal_strlit("7");
            }
        }
    } else if d == 8 {
        out.append("8");
        proof {
            assert("8"@ =~= seq![digit_char(8)]) by {
                reveal_strlit("8");
            }
        }
    } else {
        out.append("9");
        proof {
            assert("9"@ =~= seq![digit_char(9)]) by {
                reveal_strlit("9");
            }
        }
    }
    proof {
        if n >= 10 {
            assert(dec_digits(n as nat) == dec_digits(n as nat / 10) + seq![
                digit_char(n as nat % 10),
            ]);
        }
        assert(final(out)@ =~= old(out)@ + dec_digits(n as nat));
    }
}

/// Returns the decimal text of an integer.
fn int_to_text(i: i32) -> (r: String)
    ensures
        r@ == int_text(i as int),
{
    let mut out = String::new();
    let wide: i64 = i as i64;
    if wide < 0 {
        out.append("-");
        proof {
            assert("-"@ =~= seq!['-']) by {
                reveal_strlit("-");
            }
        }
        push_digits(&mut out, (-wide) as u64);
    } else {
        push_digits(&mut out, wide as u64);
    }
    out
}

/// The scalar text of a data value: strings stand as they are,
/// booleans as `true` or `false`, numbers in decimal; lists, maps and
/// lambdas have none.
pub open spec fn scalar_text(d: DataModel) -> Option<Seq<char>> {
    match d {
        DataModel::Strng(s) => Option::Some(s),
        DataModel::Bool(b) => Option::Some(
            if b {
                "true"@
            } else {
                "false"@
            },
        ),
        DataModel::Integer(i) => Option::Some(int_text(i as int)),
        DataModel::Float(t) => Option::Some(t),
        _ => Option::None,
    }
}

/// Builds the type-mismatch error for a non-scalar value.
fn scalar_type_error<L>(data: &Data<L>) -> (r: RustacheError)
    ensures
        r is TemplateErrorType,
{
    match data {
        Data::Vector(_) => RustacheError::TemplateErrorType(
            TemplateError::RenderTypeError(String::from_str("expecting text, found vector data")),
        ),
        Data::Hash(_) => RustacheError::TemplateErrorType(
            TemplateError::RenderTypeError(String::from_str("expecting text, found hash data")),
        ),
        _ => RustacheError::TemplateErrorType(
            TemplateError::RenderTypeError(String::from_str("expecting text, found lambda data")),
        ),
    }
}

impl Template {
    /// Renders the text of a raw (unescaped) substitution: the scalar
    /// text of the value, byte for byte; a list, map or lambda value
    /// is the fatal type mismatch.
    pub fn handle_unescaped_node<L>(data: &Data<L>) -> (r: Result<String, RustacheError>)
        ensures
            match r {
                Ok(s) => scalar_text(data_model(*data)) == Option::Some(s@),
                Err(e) => scalar_text(data_model(*data)) is None && e is TemplateErrorType,
            },
    {
        match data {
            Data::Strng(s) => Ok(s.clone()),
            Data::Bool(b) => if *b {
                Ok(String::from_str("true"))
            } else {
                Ok(String::from_str("false"))
            },
            Data::Integer(i) => Ok(int_to_text(*i)),
            Data::Float(t) => Ok(t.clone()),
            _ => Err(scalar_type_error(data)),
        }
    }

    /// Renders the text of an escaped substitution: the scalar text of
    /// the value, HTML-escaped; a list, map or lambda value is the
    /// fatal type mismatch.
    pub fn handle_value_node<L>(data: &Data<L>) -> (r: Result<String, RustacheError>)
        ensures
            match r {
                Ok(s) => scalar_text(data_model(*data)) matches Option::Some(t) && s@ == escaped(
                    t,
                ),
                Err(e) => scalar_text(data_model(*data)) is None && e is TemplateErrorType,
            },
    {
        let text = Self::handle_unescaped_node(data)?;
        Ok(Self::escape_html(text.as_str()))
    }
}

/// The mathematical value of one scope: ordered key/value entries.
pub type ScopeModel = Seq<(Seq<char>, DataModel)>;

/// Looks a key up in one scope: the first entry with that key wins.
pub open spec fn scope_lookup(scope: ScopeModel, key: Seq<char>) -> Option<DataModel>
    decreases scope.len(),
{
    if scope.len() == 0 {
        Option::None
    } else if scope[0].0 == key {
        Option::Some(scope[0].1)
    } else {
        scope_lookup(scope.drop_first(), key)
    }
}

/// Looks a key up in a scope chain, innermost (last pushed) first.
pub open spec fn ctx_lookup(scopes: Seq<ScopeModel>, key: Seq<char>) -> Option<DataModel>
    decreases scopes.len(),
{
    if scopes.len() == 0 {
        Option::None
    } else {
        match scope_lookup(scopes.last(), key) {
            Option::Some(d) => Option::Some(d),
            Option::None => ctx_lookup(scopes.drop_last(), key),
        }
    }
}

/// Looks a partial name up: the first entry with that name wins.
pub open spec fn partial_lookup(
    partials: Seq<(Seq<char>, Seq<NodeModel>)>,
    key: Seq<char>,
) -> Option<Seq<NodeModel>>
    decreases partials.len(),
{
    if partials.len() == 0 {
        Option::None
    } else if partials[0].0 == key {
        Option::Some(partials[0].1)
    } else {
        partial_lookup(partials.drop_first(), key)
    }
}

/// The verbatim source text of a node.
pub open spec fn node_raw_text(n: NodeModel) -> Seq<char>
    decreases n,
{
    match n {
        NodeModel::Static(t) => t,
        NodeModel::Value(_key, raw) => raw,
        NodeModel::Unescaped(_key, raw) => raw,
        NodeModel::Part(_key, raw) => raw,
        NodeModel::Section(_key, children, _inverted, otag, ctag) => otag + raw_text(children)
            + ctag,
    }
}

/// The verbatim source text of a node sequence.
pub open spec fn raw_text(nodes: Seq<NodeModel>) -> Seq<char>
    decreases nodes,
{
    if nodes.len() == 0 {
        Seq::empty()
    } else {
        node_raw_text(nodes[0]) + raw_text(nodes.drop_first())
    }
}

/// Whether a value contains no lambda anywhere.
pub open spec fn lambda_free(d: DataModel) -> bool
    decreases d,
{
    match d {
        DataModel::Lambda => false,
        DataModel::Vector(v) => lambda_free_seq(v),
        DataModel::Hash(h) => lambda_free_entries(h),
        _ => true,
    }
}

/// Whether a value sequence contains no lambda anywhere.
pub open spec fn lambda_free_seq(v: Seq<DataModel>) -> bool
    decreases v,
{
    v.len() == 0 || (lambda_free(v[0]) && lambda_free_seq(v.drop_first()))
}

/// Whether an entry sequence contains no lambda anywhere.
pub open spec fn lambda_free_entries(h: ScopeModel) -> bool
    decreases h,
{
    h.len() == 0 || (lambda_free(h[0].1) && lambda_free_entries(h.drop_first()))
}

/// Whether a scope chain contains no lambda anywhere.
pub open spec fn lambda_free_scopes(scopes: Seq<ScopeModel>) -> bool
    decreases scopes,
{
    scopes.len() == 0 || (lambda_free_entries(scopes[0]) && lambda_free_scopes(
        scopes.drop_first(),
    ))
}

/// A lookup in a lambda-free scope chain yields a lambda-free value.
pub proof fn lemma_lookup_lambda_free(scopes: Seq<ScopeModel>, key: Seq<char>)
    requires
        lambda_free_scopes(scopes),
    ensures
        ctx_lookup(scopes, key) matches Option::Some(d) ==> lambda_free(d),
    decreases scopes.len(),
{
    if scopes.len() > 0 {
        assert(lambda_free_scopes(scopes.drop_last())) by {
            lemma_lambda_free_scopes_index(scopes);
            lemma_lambda_free_scopes_all(scopes.drop_last());
        }
        lemma_lookup_lambda_free(scopes.drop_last(), key);
        assert(lambda_free_entries(scopes.last())) by {
            lemma_lambda_free_scopes_index(scopes);
        }
        lemma_scope_lookup_lambda_free(scopes.last(), key);
    }
}

/// Pointwise reading of `lambda_free_scopes`.
pub proof fn lemma_lambda_free_scopes_index(scopes: Seq<ScopeModel>)
    requires
        lambda_free_scopes(scopes),
    ensures
        forall|i: int| 0 <= i < scopes.len() ==> lambda_free_entries(#[trigger] scopes[i]),
    decreases scopes.len(),
{
    if scopes.len() > 0 {
        lemma_lambda_free_scopes_index(scopes.drop_first());
        assert forall|i: int| 0 <= i < scopes.len() implies lambda_free_entries(
            #[trigger] scopes[i],
        ) by {
            if i > 0 {
                assert(scopes.drop_first()[i - 1] == scopes[i]);
            }
        }
    }
}

/// Pointwise construction of `lambda_free_scopes`.
pub proof fn lemma_lambda_free_scopes_all(scopes: Seq<ScopeModel>)
    requires
        forall|i: int| 0 <= i < scopes.len() ==> lambda_free_entries(#[trigger] scopes[i]),
    ensures
        lambda_free_scopes(scopes),
    decreases scopes.len(),
{
    if scopes.len() > 0 {
        assert forall|i: int| 0 <= i < scopes.drop_first().len() implies lambda_free_entries(
            #[trigger] scopes.drop_first()[i],
        ) by {
            assert(scopes.drop_first()[i] == scopes[i + 1]);
        }
        lemma_lambda_free_scopes_all(scopes.drop_first());
    }
}

/// A lookup in a lambda-free scope yields a lambda-free value.
pub proof fn lemma_scope_lookup_lambda_free(scope: ScopeModel, key: Seq<char>)
    requires
        lambda_free_entries(scope),
    ensures
        scope_lookup(scope, key) matches Option::Some(d) ==> lambda_free(d),
    decreases scope.len(),
{
    if scope.len() > 0 && scope[0].0 != key {
        lemma_scope_lookup_lambda_free(scope.drop_first(), key);
    }
}

/// Concatenates a known prefix onto an optional rendering.
pub open spec fn opt_concat(prefix: Seq<char>, o: Option<Seq<char>>) -> Option<Seq<char>> {
    match o {
        Option::Some(b) => Option::Some(prefix + b),
        Option::None => Option::None,
    }
}

/// The output of one node. `None` is the fatal type mismatch. A
/// section bound to a scalar string or number is truthy: its children
/// render once against the current context. The output of an invoked
/// lambda is not modeled: its chunk stands here as empty text, and
/// the implementation appends the callback's output verbatim in its
/// place.
pub open spec fn render_one(
    n: NodeModel,
    scopes: Seq<ScopeModel>,
    partials: Seq<(Seq<char>, Seq<NodeModel>)>,
    fuel: nat,
) -> Option<Seq<char>>
    decreases fuel, n, 1nat,
{
    match n {
        NodeModel::Static(t) => Option::Some(t),
        NodeModel::Value(key, _raw) => match ctx_lookup(scopes, key) {
            Option::None => Option::Some(Seq::empty()),
            Option::Some(d) => match scalar_text(d) {
                Option::Some(t) => Option::Some(escaped(t)),
                Option::None => Option::None,
            },
        },
        NodeModel::Unescaped(key, _raw) => match ctx_lookup(scopes, key) {
            Option::None => Option::Some(Seq::empty()),
            Option::Some(d) => scalar_text(d),
        },
        NodeModel::Part(key, _raw) => match partial_lookup(partials, key) {
            Option::None => Option::Some(Seq::empty()),
            Option::Some(pnodes) => if fuel == 0 {
                Option::Some(Seq::empty())
            } else {
                spec_render(pnodes, scopes, partials, (fuel - 1) as nat)
            },
        },
        NodeModel::Section(key, children, inverted, _otag, _ctag) => match ctx_lookup(
            scopes,
            key,
        ) {
            Option::None => if inverted {
                spec_render(children, scopes, partials, fuel)
            } else {
                Option::Some(Seq::empty())
            },
            Option::Some(DataModel::Bool(b)) => if b != inverted {
                spec_render(children, scopes, partials, fuel)
            } else {
                Option::Some(Seq::empty())
            },
            Option::Some(DataModel::Vector(elems)) => if !inverted {
                spec_render_list(children, elems, scopes, partials, fuel)
            } else if elems.len() == 0 {
                spec_render(children, scopes, partials, fuel)
            } else {
                Option::Some(Seq::empty())
            },
            Option::Some(DataModel::Hash(h)) => if !inverted {
                spec_render(children, scopes.push(h), partials, fuel)
            } else {
                Option::Some(Seq::empty())
            },
            Option::Some(DataModel::Lambda) => Option::Some(Seq::empty()),
            Option::Some(_) => if !inverted {
                spec_render(children, scopes, partials, fuel)
            } else {
                Option::Some(Seq::empty())
            },
        },
    }
}

/// The output of a node sequence, depth first and left to right.
pub open spec fn spec_render(
    nodes: Seq<NodeModel>,
    scopes: Seq<ScopeModel>,
    partials: Seq<(Seq<char>, Seq<NodeModel>)>,
    fuel: nat,
) -> Option<Seq<char>>
    decreases fuel, nodes, 0nat,
{
    if nodes.len() == 0 {
        Option::Some(Seq::empty())
    } else {
        match render_one(nodes[0], scopes, partials, fuel) {
            Option::Some(a) => opt_concat(
                a,
                spec_render(nodes.drop_first(), scopes, partials, fuel),
            ),
            Option::None => Option::None,
        }
    }
}

/// The scope a list element contributes: the element itself if it is
/// a map, otherwise an empty scope.
pub open spec fn elem_scope(d: DataModel) -> ScopeModel {
    match d {
        DataModel::Hash(h) => h,
        _ => Seq::empty(),
    }
}

/// The output of a list-valued section: the children once per
/// element, each under the element's scope.
pub open spec fn spec_render_list(
    children: Seq<NodeModel>,
    elems: Seq<DataModel>,
    scopes: Seq<ScopeModel>,
    partials: Seq<(Seq<char>, Seq<NodeModel>)>,
    fuel: nat,
) -> Option<Seq<char>>
    decreases fuel, children, 2 + elems.len(),
{
    if elems.len() == 0 {
        Option::Some(Seq::empty())
    } else {
        match spec_render(children, scopes.push(elem_scope(elems[0])), partials, fuel) {
            Option::Some(a) => opt_concat(
                a,
                spec_render_list(children, elems.drop_first(), scopes, partials, fuel),
            ),
            Option::None => Option::None,
        }
    }
}

/// The mathematical value of one executable scope; `None` stands for
/// the empty scope pushed for a non-map list element.
pub open spec fn opt_scope_model<L>(o: Option<&Vec<(String, Data<L>)>>) -> ScopeModel {
    match o {
        Option::Some(v) => entries_model(v@),
        Option::None => Seq::empty(),
    }
}

/// The mathematical value of an executable scope chain.
pub open spec fn scopes_model<L>(s: Seq<Option<&Vec<(String, Data<L>)>>>) -> Seq<ScopeModel> {
    Seq::new(s.len(), |i: int| opt_scope_model(s[i]))
}

/// The mathematical value of an executable partial table.
pub open spec fn partials_model(p: Seq<(String, Vec<Node>)>) -> Seq<(Seq<char>, Seq<NodeModel>)> {
    Seq::new(p.len(), |i: int| (p[i].0@, nodes_model(p[i].1@)))
}

/// One step of a front-to-back scan of a sequence.
proof fn lemma_seq_skip_step<T>(s: Seq<T>, i: int)
    requires
        0 <= i < s.len(),
    ensures
        s.skip(i).len() == s.len() - i,
        s.skip(i)[0] == s[i],
        s.skip(i).drop_first() == s.skip(i + 1),
{
    assert(s.skip(i).drop_first() =~= s.skip(i + 1));
}

/// One step of scanning map entries.
proof fn lemma_entries_skip_unfold<L>(h: Seq<(String, Data<L>)>, t: int)
    requires
        0 <= t < h.len(),
    ensures
        entries_model(h.skip(t)).len() == h.len() - t,
        entries_model(h.skip(t))[0] == (h[t].0@, data_model(h[t].1)),
        entries_model(h.skip(t)).drop_first() == entries_model(h.skip(t + 1)),
{
    lemma_seq_skip_step(h, t);
    lemma_entries_model_index(h.skip(t));
    assert(entries_model(h.skip(t)) == seq![(h[t].0@, data_model(h[t].1))] + entries_model(
        h.skip(t).drop_first(),
    ));
    assert((seq![(h[t].0@, data_model(h[t].1))] + entries_model(h.skip(t + 1))).drop_first()
        =~= entries_model(h.skip(t + 1)));
}

/// Scans one scope for the first entry with the key.
fn scope_find<'a, L>(scope: &'a Vec<(String, Data<L>)>, key: &String) -> (r: Option<&'a Data<L>>)
    ensures
        match r {
            Option::Some(d) => scope_lookup(entries_model(scope@), key@) == Option::Some(
                data_model(*d),
            ),
            Option::None => scope_lookup(entries_model(scope@), key@) is None,
        },
{
    let ghost em = entries_model(scope@);
    let n = scope.len();
    let mut t: usize = 0;
    proof {
        assert(scope@.skip(0) =~= scope@);
    }
    while t < n
        invariant
            t <= n,
            n == scope@.len(),
            em == entries_model(scope@),
            scope_lookup(em, key@) == scope_lookup(entries_model(scope@.skip(t as int)), key@),
        decreases n - t,
    {
        proof {
            lemma_entries_skip_unfold(scope@, t as int);
        }
        if scope[t].0.eq(key) {
            return Some(&scope[t].1);
        }
        t = t + 1;
    }
    proof {
        assert(scope@.skip(n as int) =~= Seq::<(String, Data<L>)>::empty());
        assert(entries_model(scope@.skip(n as int)).len() == 0);
    }
    None
}

/// Resolves a key in the scope chain, innermost scope first.
fn lookup_scopes<'a, L>(scopes: &Vec<Option<&'a Vec<(String, Data<L>)>>>, key: &String) -> (r:
    Option<&'a Data<L>>)
    ensures
        match r {
            Option::Some(d) => ctx_lookup(scopes_model(scopes@), key@) == Option::Some(
                data_model(*d),
            ),
            Option::None => ctx_lookup(scopes_model(scopes@), key@) is None,
        },
{
    let ghost sm = scopes_model(scopes@);
    let mut j: usize = scopes.len();
    proof {
        assert(sm.take(scopes@.len() as int) =~= sm);
    }
    while j > 0
        invariant
            j <= scopes.len(),
            sm == scopes_model(scopes@),
            ctx_lookup(sm, key@) == ctx_lookup(sm.take(j as int), key@),
        decreases j,
    {
        j = j - 1;
        proof {
            assert(sm.take(j as int + 1).last() == sm[j as int]);
            assert(sm.take(j as int + 1).drop_last() =~= sm.take(j as int));
        }
        match &scopes[j] {
            Some(v) => {
                match scope_find(v, key) {
                    Some(d) => {
                        return Some(d);
                    },
                    None => {
                    },
                }
            },
            None => {
                proof {
                    assert(scope_lookup(sm[j as int], key@) is None);
                }
            },
        }
    }
    proof {
        assert(sm.take(0) =~= Seq::<ScopeModel>::empty());
    }
    None
}

/// Scans the partial table for the first entry with the name.
fn find_partial<'a>(partials: &'a Vec<(String, Vec<Node>)>, key: &String) -> (r: Option<
    &'a Vec<Node>,
>)
    ensures
        match r {
            Option::Some(v) => partial_lookup(partials_model(partials@), key@) == Option::Some(
                nodes_model(v@),
            ),
            Option::None => partial_lookup(partials_model(partials@), key@) is None,
        },
{
    let ghost pm = partials_model(partials@);
    let n = partials.len();
    let mut t: usize = 0;
    proof {
        assert(pm.skip(0) =~= pm);
    }
    while t < n
        invariant
            t <= n,
            n == partials@.len(),
            pm == partials_model(partials@),
            partial_lookup(pm, key@) == partial_lookup(pm.skip(t as int), key@),
        decreases n - t,
    {
        proof {
            lemma_seq_skip_step(pm, t as int);
        }
        if partials[t].0.eq(key) {
            return Some(&partials[t].1);
        }
        t = t + 1;
    }
    proof {
        assert(pm.skip(n as int).len() == 0);
    }
    None
}

/// Concatenating the raw text of a one-longer node sequence.
proof fn lemma_raw_text_push(s: Seq<NodeModel>, x: NodeModel)
    ensures
        raw_text(s.push(x)) == raw_text(s) + node_raw_text(x),
    decreases s.len(),
{
    if s.len() == 0 {
        assert(s.push(x).drop_first() =~= Seq::<NodeModel>::empty());
        assert(s.push(x)[0] == x);
        assert(raw_text(Seq::<NodeModel>::empty()) =~= Seq::<char>::empty());
        assert(raw_text(s.push(x)) =~= raw_text(s) + node_raw_text(x));
    } else {
        assert(s.push(x).drop_first() =~= s.drop_first().push(x));
        assert(s.push(x)[0] == s[0]);
        lemma_raw_text_push(s.drop_first(), x);
        assert(raw_text(s.push(x)) =~= raw_text(s) + node_raw_text(x));
    }
}

/// Reconstructs the verbatim source text of a node sequence, for the
/// argument of a lambda.
fn raw_text_of(nodes: &Vec<Node>) -> (r: String)
    ensures
        r@ == raw_text(nodes_model(nodes@)),
    decreases nodes,
{
    let ghost nm = nodes_model(nodes@);
    proof {
        lemma_nodes_model_index(nodes@);
    }
    let mut out = String::new();
    let n = nodes.len();
    let mut i: usize = 0;
    while i < n
        invariant
            i <= n,
            n == nodes@.len(),
            nm == nodes_model(nodes@),
            nm.len() == n,
            forall|k: int| 0 <= k < n ==> nm[k] == node_model(nodes@[k]),
            out@ == raw_text(nm.take(i as int)),
        decreases n - i,
    {
        let ghost prev = out@;
        match &nodes[i] {
            Node::Static(t) => {
                out.append(t.as_str());
            },
            Node::Value(_key, raw) => {
                out.append(raw.as_str());
            },
            Node::Unescaped(_key, raw) => {
                out.append(raw.as_str());
            },
            Node::Part(_key, raw) => {
                out.append(raw.as_str());
            },
            Node::Section(_key, children, _inverted, otag, ctag) => {
                proof {
                    assert(decreases_to!(nodes => nodes@));
                    assert(decreases_to!(nodes@ => nodes@[i as int]));
                }
                out.append(otag.as_str());
                let inner = raw_text_of(children);
                out.append(inner.as_str());
                out.append(ctag.as_str());
                proof {
                    assert(out@ == prev + node_raw_text(nm[i as int]));
                }
            },
        }
        proof {
            assert(nm.take(i as int + 1) =~= nm.take(i as int).push(nm[i as int]));
            lemma_raw_text_push(nm.take(i as int), nm[i as int]);
        }
        i = i + 1;
    }
    proof {
        assert(nm.take(n as int) =~= nm);
    }
    out
}

/// A known prefix distributes over `opt_concat`.
proof fn lemma_opt_concat_assoc(p: Seq<char>, a: Seq<char>, o: Option<Seq<char>>)
    ensures
        opt_concat(p, opt_concat(a, o)) == opt_concat(p + a, o),
{
    match o {
        Option::Some(b) => {
            assert((p + a) + b =~= p + (a + b));
        },
        Option::None => {
        },
    }
}

/// Unfolds `spec_render` at position `i` of a scan.
proof fn lemma_render_unfold_at(
    nm: Seq<NodeModel>,
    sm: Seq<ScopeModel>,
    pm: Seq<(Seq<char>, Seq<NodeModel>)>,
    f: nat,
    i: int,
)
    requires
        0 <= i < nm.len(),
    ensures
        spec_render(nm.skip(i), sm, pm, f) == (match render_one(nm[i], sm, pm, f) {
            Option::Some(a) => opt_concat(a, spec_render(nm.skip(i + 1), sm, pm, f)),
            Option::None => Option::None,
        }),
{
    lemma_seq_skip_step(nm, i);
}

/// Unfolds `spec_render_list` at position `t` of a scan.
proof fn lemma_render_list_unfold_at(
    chm: Seq<NodeModel>,
    em: Seq<DataModel>,
    sm: Seq<ScopeModel>,
    pm: Seq<(Seq<char>, Seq<NodeModel>)>,
    f: nat,
    t: int,
)
    requires
        0 <= t < em.len(),
    ensures
        spec_render_list(chm, em.skip(t), sm, pm, f) == (match spec_render(
            chm,
            sm.push(elem_scope(em[t])),
            pm,
            f,
        ) {
            Option::Some(a) => opt_concat(
                a,
                spec_render_list(chm, em.skip(t + 1), sm, pm, f),
            ),
            Option::None => Option::None,
        }),
{
    lemma_seq_skip_step(em, t);
}

/// Pointwise reading of `lambda_free_seq`.
proof fn lemma_lambda_free_seq_index(v: Seq<DataModel>)
    requires
        lambda_free_seq(v),
    ensures
        forall|i: int| 0 <= i < v.len() ==> lambda_free(#[trigger] v[i]),
    decreases v.len(),
{
    if v.len() > 0 {
        lemma_lambda_free_seq_index(v.drop_first());
        assert forall|i: int| 0 <= i < v.len() implies lambda_free(#[trigger] v[i]) by {
            if i > 0 {
                assert(v.drop_first()[i - 1] == v[i]);
            }
        }
    }
}

/// A lambda-free scope pushed onto a lambda-free chain keeps the
/// chain lambda-free.
proof fn lemma_lambda_free_scopes_push(sm: Seq<ScopeModel>, e: ScopeModel)
    requires
        lambda_free_scopes(sm),
        lambda_free_entries(e),
    ensures
        lambda_free_scopes(sm.push(e)),
{
    lemma_lambda_free_scopes_index(sm);
    assert forall|i: int| 0 <= i < sm.push(e).len() implies lambda_free_entries(
        #[trigger] sm.push(e)[i],
    ) by {
        if i < sm.len() {
            assert(sm.push(e)[i] == sm[i]);
        } else {
            assert(sm.push(e)[i] == e);
        }
    }
    lemma_lambda_free_scopes_all(sm.push(e));
}

/// Renders a node sequence against the scope chain, appending the
/// output depth first and left to right; fails on the first type
/// mismatch. The scope chain is restored before returning.
fn render_nodes<'a, L: Lambda>(
    nodes: &Vec<Node>,
    scopes: &mut Vec<Option<&'a Vec<(String, Data<L>)>>>,
    partials: &Vec<(String, Vec<Node>)>,
    fuel: usize,
) -> (r: Result<String, RustacheError>)
    ensures
        final(scopes)@ == old(scopes)@,
        match r {
            Ok(out) => spec_render(
                nodes_model(nodes@),
                scopes_model(old(scopes)@),
                partials_model(partials@),
                fuel as nat,
            ) is Some && (lambda_free_scopes(scopes_model(old(scopes)@)) ==> Option::Some(out@)
                == spec_render(
                nodes_model(nodes@),
                scopes_model(old(scopes)@),
                partials_model(partials@),
                fuel as nat,
            )),
            Err(e) => spec_render(
                nodes_model(nodes@),
                scopes_model(old(scopes)@),
                partials_model(partials@),
                fuel as nat,
            ) is None && e is TemplateErrorType,
        },
    decreases fuel, nodes, 0nat,
{
    let ghost nm = nodes_model(nodes@);
    let ghost sm = scopes_model(old(scopes)@);
    let ghost pm = partials_model(partials@);
    let ghost f = fuel as nat;
    proof {
        lemma_nodes_model_index(nodes@);
        assert(nm.skip(0) =~= nm);
    }
    let mut out = String::new();
    let n = nodes.len();
    let mut i: usize = 0;
    while i < n
        invariant
            i <= n,
            n == nodes@.len(),
            scopes@ == old(scopes)@,
            nm == nodes_model(nodes@),
            sm == scopes_model(scopes@),
            pm == partials_model(partials@),
            f == fuel as nat,
            nm.len() == n,
            forall|k: int| 0 <= k < n ==> nm[k] == node_model(nodes@[k]),
            spec_render(nm, sm, pm, f) is Some <==> spec_render(nm.skip(i as int), sm, pm, f)
                is Some,
            lambda_free_scopes(sm) ==> spec_render(nm, sm, pm, f) == opt_concat(
                out@,
                spec_render(nm.skip(i as int), sm, pm, f),
            ),
        decreases n - i,
    {
        proof {
            lemma_render_unfold_at(nm, sm, pm, f, i as int);
        }
        let ghost cur = nm[i as int];
        let ghost rest = spec_render(nm.skip(i as int + 1), sm, pm, f);
        let ghost prev_out = out@;
        match &nodes[i] {
            Node::Static(t) => {
                out.append(t.as_str());
                proof {
                    assert(render_one(cur, sm, pm, f) == Option::Some(t@));
                    lemma_opt_concat_assoc(prev_out, t@, rest);
                }
            },
            Node::Value(key, _raw) => {
                match lookup_scopes(scopes, key) {
                    Some(d) => {
                        match Template::handle_value_node(d) {
                            Ok(s) => {
                                out.append(s.as_str());
                                proof {
                                    assert(render_one(cur, sm, pm, f) == Option::Some(s@));
                                    lemma_opt_concat_assoc(prev_out, s@, rest);
                                }
                            },
                            Err(e) => {
                                proof {
                                    assert(render_one(cur, sm, pm, f) is None);
                                }
                                return Err(e);
                            },
                        }
                    },
                    None => {
                        proof {
                            assert(render_one(cur, sm, pm, f) == Option::Some(
                                Seq::<char>::empty(),
                            ));
                            lemma_opt_concat_assoc(prev_out, Seq::<char>::empty(), rest);
                            assert(prev_out + Seq::<char>::empty() =~= prev_out);
                        }
                    },
                }
            },
            Node::Unescaped(key, _raw) => {
                match lookup_scopes(scopes, key) {
                    Some(d) => {
                        match Template::handle_unescaped_node(d) {
                            Ok(s) => {
                                out.append(s.as_str());
                                proof {
                                    assert(render_one(cur, sm, pm, f) == Option::Some(s@));
                                    lemma_opt_concat_assoc(prev_out, s@, rest);
                                }
                            },
                            Err(e) => {
                                proof {
                                    assert(render_one(cur, sm, pm, f) is None);
                                }
                                return Err(e);
                            },
                        }
                    },
                    None => {
                        proof {
                            assert(render_one(cur, sm, pm, f) == Option::Some(
                                Seq::<char>::empty(),
                            ));
                            lemma_opt_concat_assoc(prev_out, Seq::<char>::empty(), rest);
                            assert(prev_out + Seq::<char>::empty() =~= prev_out);
                        }
                    },
                }
            },
            Node::Part(key, _raw) => {
                match find_partial(partials, key) {
                    Some(pnodes) => {
                        if fuel > 0 {
                            let sub = render_nodes(pnodes, scopes, partials, fuel - 1);
                            match sub {
                                Ok(s) => {
                                    out.append(s.as_str());
                                    proof {
                                        assert(render_one(cur, sm, pm, f) == spec_render(
                                            nodes_model(pnodes@),
                                            sm,
                                            pm,
                                            (f - 1) as nat,
                                        ));
                                        if lambda_free_scopes(sm) {
                                            assert(render_one(cur, sm, pm, f) == Option::Some(
                                                s@,
                                            ));
                                        }
                                        assert(render_one(cur, sm, pm, f) is Some);
                                        lemma_opt_concat_assoc(prev_out, s@, rest);
                                    }
                                },
                                Err(e) => {
                                    proof {
                                        assert(render_one(cur, sm, pm, f) is None);
                                    }
                                    return Err(e);
                                },
                            }
                        } else {
                            proof {
                                assert(render_one(cur, sm, pm, f) == Option::Some(
                                    Seq::<char>::empty(),
                                ));
                                lemma_opt_concat_assoc(prev_out, Seq::<char>::empty(), rest);
                                assert(prev_out + Seq::<char>::empty() =~= prev_out);
                            }
                        }
                    },
                    None => {
                        proof {
                            assert(render_one(cur, sm, pm, f) == Option::Some(
                                Seq::<char>::empty(),
                            ));
                            lemma_opt_concat_assoc(prev_out, Seq::<char>::empty(), rest);
                            assert(prev_out + Seq::<char>::empty() =~= prev_out);
                        }
                    },
                }
            },
            Node::Section(key, children, inverted, _otag, _ctag) => {
                proof {
                    assert(decreases_to!(nodes => nodes@));
                    assert(decreases_to!(nodes@ => nodes@[i as int]));
                }
                let inv = *inverted;
                let looked = lookup_scopes(scopes, key);
                let mut render_here = false;
                match &looked {
                    None => {
                        render_here = inv;
                    },
                    Some(d) => {
                        match d {
                            Data::Bool(b) => {
                                render_here = *b != inv;
                            },
                            Data::Vector(elems) => {
                                render_here = inv && elems.len() == 0;
                            },
                            Data::Hash(_h) => {
                                render_here = false;
                            },
                            Data::Lambda(_l) => {
                                render_here = false;
                            },
                            _ => {
                                render_here = !inv;
                            },
                        }
                    },
                }
                if render_here {
                    // Render the children once against the current chain.
                    let sub = render_nodes(children, scopes, partials, fuel);
                    match sub {
                        Ok(s) => {
                            out.append(s.as_str());
                            proof {
                                assert(render_one(cur, sm, pm, f) == spec_render(
                                    nodes_model(children@),
                                    sm,
                                    pm,
                                    f,
                                ));
                                if lambda_free_scopes(sm) {
                                    assert(render_one(cur, sm, pm, f) == Option::Some(s@));
                                }
                                lemma_opt_concat_assoc(prev_out, s@, rest);
                            }
                        },
                        Err(e) => {
                            proof {
                                assert(render_one(cur, sm, pm, f) is None);
                            }
                            return Err(e);
                        },
                    }
                } else {
                    match &looked {
                        Some(d) => {
                            match d {
                                Data::Vector(elems) => {
                                    if !inv {
                                        let res = render_section_list(
                                            children,
                                            elems,
                                            scopes,
                                            partials,
                                            fuel,
                                        );
                                        match res {
                                            Ok(s) => {
                                                out.append(s.as_str());
                                                proof {
                                                    assert(render_one(cur, sm, pm, f)
                                                        == spec_render_list(
                                                        nodes_model(children@),
                                                        datas_model(elems@),
                                                        sm,
                                                        pm,
                                                        f,
                                                    ));
                                                    if lambda_free_scopes(sm) {
                                                        lemma_lookup_lambda_free(sm, key@);
                                                        assert(lambda_free_seq(
                                                            datas_model(elems@),
                                                        ));
                                                        assert(render_one(cur, sm, pm, f)
                                                            == Option::Some(s@));
                                                    }
                                                    lemma_opt_concat_assoc(prev_out, s@, rest);
                                                }
                                            },
                                            Err(e) => {
                                                proof {
                                                    assert(render_one(cur, sm, pm, f) is None);
                                                }
                                                return Err(e);
                                            },
                                        }
                                    } else {
                                        proof {
                                            assert(render_one(cur, sm, pm, f) == Option::Some(
                                                Seq::<char>::empty(),
                                            ));
                                            lemma_opt_concat_assoc(
                                                prev_out,
                                                Seq::<char>::empty(),
                                                rest,
                                            );
                                            assert(prev_out + Seq::<char>::empty() =~= prev_out);
                                        }
                                    }
                                },
                                Data::Hash(h) => {
                                    if !inv {
                                        scopes.push(Some(h));
                                        proof {
                                            assert(scopes_model(scopes@) =~= sm.push(
                                                entries_model(h@),
                                            ));
                                        }
                                        let sub = render_nodes(children, scopes, partials, fuel);
                                        let _popped = scopes.pop();
                                        proof {
                                            assert(scopes@ =~= old(scopes)@);
                                        }
                                        match sub {
                                            Ok(s) => {
                                                out.append(s.as_str());
                                                proof {
                                                    assert(render_one(cur, sm, pm, f)
                                                        == spec_render(
                                                        nodes_model(children@),
                                                        sm.push(entries_model(h@)),
                                                        pm,
                                                        f,
                                                    ));
                                                    if lambda_free_scopes(sm) {
                                                        lemma_lookup_lambda_free(sm, key@);
                                                        lemma_lambda_free_scopes_push(
                                                            sm,
                                                            entries_model(h@),
                                                        );
                                                        assert(render_one(cur, sm, pm, f)
                                                            == Option::Some(s@));
                                                    }
                                                    lemma_opt_concat_assoc(prev_out, s@, rest);
                                                }
                                            },
                                            Err(e) => {
                                                proof {
                                                    assert(render_one(cur, sm, pm, f) is None);
                                                }
                                                return Err(e);
                                            },
                                        }
                                    } else {
                                        proof {
                                            assert(render_one(cur, sm, pm, f) == Option::Some(
                                                Seq::<char>::empty(),
                                            ));
                                            lemma_opt_concat_assoc(
                                                prev_out,
                                                Seq::<char>::empty(),
                                                rest,
                                            );
                                            assert(prev_out + Seq::<char>::empty() =~= prev_out);
                                        }
                                    }
                                },
                                Data::Lambda(l) => {
                                    if !inv {
                                        // The callback's output is appended
                                        // verbatim; the model holds an empty
                                        // chunk in its place.
                                        let text = raw_text_of(children);
                                        let s = l.call(text);
                                        out.append(s.as_str());
                                        proof {
                                            assert(render_one(cur, sm, pm, f) == Option::Some(
                                                Seq::<char>::empty(),
                                            ));
                                            if lambda_free_scopes(sm) {
                                                lemma_lookup_lambda_free(sm, key@);
                                                assert(false);
                                            }
                                        }
                                    } else {
                                        proof {
                                            assert(render_one(cur, sm, pm, f) == Option::Some(
                                                Seq::<char>::empty(),
                                            ));
                                            lemma_opt_concat_assoc(
                                                prev_out,
                                                Seq::<char>::empty(),
                                                rest,
                                            );
                                            assert(prev_out + Seq::<char>::empty() =~= prev_out);
                                        }
                                    }
                                },
                                _ => {
                                    proof {
                                        assert(render_one(cur, sm, pm, f) == Option::Some(
                                            Seq::<char>::empty(),
                                        ));
                                        lemma_opt_concat_assoc(
                                            prev_out,
                                            Seq::<char>::empty(),
                                            rest,
                                        );
                                        assert(prev_out + Seq::<char>::empty() =~= prev_out);
                                    }
                                },
                            }
                        },
                        None => {
                            proof {
                                assert(render_one(cur, sm, pm, f) == Option::Some(
                                    Seq::<char>::empty(),
                                ));
                                lemma_opt_concat_assoc(prev_out, Seq::<char>::empty(), rest);
                                assert(prev_out + Seq::<char>::empty() =~= prev_out);
                            }
                        },
                    }
                }
            },
        }
        i = i + 1;
    }
    proof {
        assert(nm.skip(n as int) =~= Seq::<NodeModel>::empty());
        assert(spec_render(Seq::<NodeModel>::empty(), sm, pm, f) == Option::Some(
            Seq::<char>::empty(),
        ));
        assert(out@ + Seq::<char>::empty() =~= out@);
    }
    Ok(out)
}

/// Renders a list-valued section: the children once per element, each
/// under the element's own scope. The scope chain is restored before
/// returning.
fn render_section_list<'a, L: Lambda>(
    children: &Vec<Node>,
    elems: &'a Vec<Data<L>>,
    scopes: &mut Vec<Option<&'a Vec<(String, Data<L>)>>>,
    partials: &Vec<(String, Vec<Node>)>,
    fuel: usize,
) -> (r: Result<String, RustacheError>)
    ensures
        final(scopes)@ == old(scopes)@,
        match r {
            Ok(out) => spec_render_list(
                nodes_model(children@),
                datas_model(elems@),
                scopes_model(old(scopes)@),
                partials_model(partials@),
                fuel as nat,
            ) is Some && ((lambda_free_scopes(scopes_model(old(scopes)@)) && lambda_free_seq(
                datas_model(elems@),
            )) ==> Option::Some(out@) == spec_render_list(
                nodes_model(children@),
                datas_model(elems@),
                scopes_model(old(scopes)@),
                partials_model(partials@),
                fuel as nat,
            )),
            Err(e) => spec_render_list(
                nodes_model(children@),
                datas_model(elems@),
                scopes_model(old(scopes)@),
                partials_model(partials@),
                fuel as nat,
            ) is None && e is TemplateErrorType,
        },
    decreases fuel, children, 1nat,
{
    let ghost chm = nodes_model(children@);
    let ghost em = datas_model(elems@);
    let ghost sm = scopes_model(old(scopes)@);
    let ghost pm = partials_model(partials@);
    let ghost f = fuel as nat;
    proof {
        lemma_datas_model_index(elems@);
        assert(em.skip(0) =~= em);
    }
    let mut out = String::new();
    let m = elems.len();
    let mut t: usize = 0;
    while t < m
        invariant
            t <= m,
            m == elems@.len(),
            scopes@ == old(scopes)@,
            chm == nodes_model(children@),
            em == datas_model(elems@),
            sm == scopes_model(scopes@),
            pm == partials_model(partials@),
            f == fuel as nat,
            em.len() == m,
            forall|k: int| 0 <= k < m ==> em[k] == data_model(elems@[k]),
            spec_render_list(chm, em, sm, pm, f) is Some <==> spec_render_list(
                chm,
                em.skip(t as int),
                sm,
                pm,
                f,
            ) is Some,
            lambda_free_scopes(sm) && lambda_free_seq(em) ==> spec_render_list(chm, em, sm, pm, f)
                == opt_concat(out@, spec_render_list(chm, em.skip(t as int), sm, pm, f)),
        decreases m - t,
    {
        proof {
            lemma_render_list_unfold_at(chm, em, sm, pm, f, t as int);
        }
        let ghost prev_out = out@;
        let ghost rest = spec_render_list(chm, em.skip(t as int + 1), sm, pm, f);
        let elem = &elems[t];
        let scope_opt: Option<&Vec<(String, Data<L>)>> = match elem {
            Data::Hash(h) => Some(h),
            _ => None,
        };
        proof {
            assert(opt_scope_model(scope_opt) == elem_scope(em[t as int]));
        }
        scopes.push(scope_opt);
        proof {
            assert(scopes_model(scopes@) =~= sm.push(elem_scope(em[t as int])));
        }
        let sub = render_nodes(children, scopes, partials, fuel);
        let _popped = scopes.pop();
        proof {
            assert(scopes@ =~= old(scopes)@);
        }
        match sub {
            Ok(s) => {
                out.append(s.as_str());
                proof {
                    if lambda_free_scopes(sm) && lambda_free_seq(em) {
                        lemma_elem_scope_lambda_free(em, t as int, sm);
                        assert(Option::Some(s@) == spec_render(
                            chm,
                            sm.push(elem_scope(em[t as int])),
                            pm,
                            f,
                        ));
                    }
                    lemma_opt_concat_assoc(prev_out, s@, rest);
                }
            },
            Err(e) => {
                return Err(e);
            },
        }
        t = t + 1;
    }
    proof {
        assert(em.skip(m as int) =~= Seq::<DataModel>::empty());
        assert(spec_render_list(chm, Seq::<DataModel>::empty(), sm, pm, f) == Option::Some(
            Seq::<char>::empty(),
        ));
        assert(out@ + Seq::<char>::empty() =~= out@);
    }
    Ok(out)
}

/// The bound on nested partial expansion: a cycle of partials
/// exhausts it, and the reference then renders as unresolved.
pub const PARTIAL_DEPTH: usize = 64;

impl Template {
    /// Creates a template engine value.
    pub fn new() -> Template {
        Template {  }
    }

    /// Renders a parsed node tree against a data context whose root
    /// scope is `data`, resolving partial references in `partials`.
    /// The output is exactly `spec_render` of the models; the chunk an
    /// invoked lambda writes is the callback's own output and is not
    /// modeled, so the output equation is stated for lambda-free
    /// contexts. Fails if and only if a scalar substitution resolves
    /// to a list, map or lambda value.
    pub fn render_data<L: Lambda>(
        nodes: &Vec<Node>,
        data: &Vec<(String, Data<L>)>,
        partials: &Vec<(String, Vec<Node>)>,
    ) -> (r: Result<String, RustacheError>)
        ensures
            match r {
                Ok(out) => spec_render(
                    nodes_model(nodes@),
                    seq![entries_model(data@)],
                    partials_model(partials@),
                    PARTIAL_DEPTH as nat,
                ) is Some && (lambda_free_entries(entries_model(data@)) ==> Option::Some(out@)
                    == spec_render(
                    nodes_model(nodes@),
                    seq![entries_model(data@)],
                    partials_model(partials@),
                    PARTIAL_DEPTH as nat,
                )),
                Err(e) => spec_render(
                    nodes_model(nodes@),
                    seq![entries_model(data@)],
                    partials_model(partials@),
                    PARTIAL_DEPTH as nat,
                ) is None && e is TemplateErrorType,
            },
    {
        let mut scopes: Vec<Option<&Vec<(String, Data<L>)>>> = Vec::new();
        scopes.push(Some(data));
        proof {
            assert(scopes_model(scopes@) =~= seq![entries_model(data@)]);
            assert(lambda_free_entries(entries_model(data@))
                ==> lambda_free_scopes(seq![entries_model(data@)])) by {
                if lambda_free_entries(entries_model(data@)) {
                    assert(seq![entries_model(data@)][0] == entries_model(data@));
                    assert(seq![entries_model(data@)].drop_first()
                        =~= Seq::<ScopeModel>::empty());
                    assert(lambda_free_scopes(Seq::<ScopeModel>::empty()));
                }
            }
        }
        render_nodes(nodes, &mut scopes, partials, PARTIAL_DEPTH)
    }
}

/// A list element of a lambda-free chain contributes a lambda-free
/// scope, so the extended chain stays lambda-free.
proof fn lemma_elem_scope_lambda_free(em: Seq<DataModel>, t: int, sm: Seq<ScopeModel>)
    requires
        0 <= t < em.len(),
        lambda_free_scopes(sm),
        lambda_free_seq(em),
    ensures
        lambda_free_scopes(sm.push(elem_scope(em[t]))),
{
    lemma_lambda_free_seq_index(em);
    assert(lambda_free(em[t]));
    match em[t] {
        DataModel::Hash(h) => {
            lemma_lambda_free_scopes_push(sm, h);
        },
        _ => {
            lemma_lambda_free_scopes_push(sm, Seq::empty());
        },
    }
}

/// Whether a character is escaped to an entity reference.
pub open spec fn is_special(c: char) -> bool {
    c == '&' || c == '<' || c == '>' || c == '"'
}

/// Whether the text contains a character that escaping rewrites.
pub open spec fn has_special(s: Seq<char>) -> bool {
    exists|i: int| 0 <= i < s.len() && is_special(s[i])
}

/// Escaping never shortens a text.
pub proof fn lemma_escaped_len_ge(s: Seq<char>)
    ensures
        escaped(s).len() >= s.len(),
    decreases s.len(),
{
    if s.len() > 0 {
        lemma_escaped_len_ge(s.drop_first());
        assert(escape_char(s[0]).len() >= 1) by {
            reveal_strlit("&lt;");
            reveal_strlit("&gt;");
            reveal_strlit("&amp;");
            reveal_strlit("&quot;");
        }
    }
}

/// Escaping a text with a special character strictly lengthens it.
pub proof fn lemma_escaped_longer(s: Seq<char>)
    requires
        has_special(s),
    ensures
        escaped(s).len() > s.len(),
    decreases s.len(),
{
    lemma_escaped_len_ge(s.drop_first());
    if is_special(s[0]) {
        assert(escape_char(s[0]).len() >= 4) by {
            reveal_strlit("&lt;");
            reveal_strlit("&gt;");
            reveal_strlit("&amp;");
            reveal_strlit("&quot;");
        }
    } else {
        assert(has_special(s.drop_first())) by {
            let w = choose|i: int| 0 <= i < s.len() && is_special(s[i]);
            assert(s.drop_first()[w - 1] == s[w]);
        }
        lemma_escaped_longer(s.drop_first());
    }
}

/// The escape of a text with a special character itself contains an
/// ampersand, which is special.
pub proof fn lemma_escaped_keeps_special(s: Seq<char>)
    requires
        has_special(s),
    ensures
        has_special(escaped(s)),
    decreases s.len(),
{
    if is_special(s[0]) {
        assert(escape_char(s[0]).len() >= 4 && escape_char(s[0])[0] == '&') by {
            reveal_strlit("&lt;");
            reveal_strlit("&gt;");
            reveal_strlit("&amp;");
            reveal_strlit("&quot;");
        }
        assert(escaped(s) == escape_char(s[0]) + escaped(s.drop_first()));
        assert(escaped(s)[0] == '&');
        assert(0 < escaped(s).len() && is_special(escaped(s)[0]));
    } else {
        assert(has_special(s.drop_first())) by {
            let w = choose|i: int| 0 <= i < s.len() && is_special(s[i]);
            assert(s.drop_first()[w - 1] == s[w]);
        }
        lemma_escaped_keeps_special(s.drop_first());
        assert(escape_char(s[0]) =~= seq![s[0]]);
        assert(escaped(s) == escape_char(s[0]) + escaped(s.drop_first()));
        let w = choose|i: int| 0 <= i < escaped(s.drop_first()).len() && is_special(
            escaped(s.drop_first())[i],
        );
        assert(escaped(s)[1 + w] == escaped(s.drop_first())[w]);
        assert(0 <= 1 + w < escaped(s).len() && is_special(escaped(s)[1 + w]));
    }
}

/// Escaping is not idempotent on any text holding one of the four
/// escaped characters: the second pass escapes the ampersands the
/// first pass introduced, so the result differs.
pub proof fn lemma_escape_not_idempotent(s: Seq<char>)
    requires
        has_special(s),
    ensures
        escaped(escaped(s)) != escaped(s),
{
    lemma_escaped_keeps_special(s);
    lemma_escaped_longer(escaped(s));
}

/// An inverted section over an absent key renders its children once
/// against the unchanged context; a plain section over an absent key
/// renders nothing.
pub proof fn lemma_section_missing_key(
    key: Seq<char>,
    children: Seq<NodeModel>,
    otag: Seq<char>,
    ctag: Seq<char>,
    scopes: Seq<ScopeModel>,
    partials: Seq<(Seq<char>, Seq<NodeModel>)>,
    fuel: nat,
)
    requires
        ctx_lookup(scopes, key) is None,
    ensures
        render_one(NodeModel::Section(key, children, true, otag, ctag), scopes, partials, fuel)
            == spec_render(children, scopes, partials, fuel),
        render_one(NodeModel::Section(key, children, false, otag, ctag), scopes, partials, fuel)
            == Option::Some(Seq::<char>::empty()),
{
}

/// A scalar substitution whose key resolves to a list, map or lambda
/// value is the fatal type mismatch: rendering fails and produces no
/// output.
pub proof fn lemma_value_type_mismatch(
    key: Seq<char>,
    raw: Seq<char>,
    scopes: Seq<ScopeModel>,
    partials: Seq<(Seq<char>, Seq<NodeModel>)>,
    fuel: nat,
)
    requires
        ctx_lookup(scopes, key) matches Option::Some(d) && scalar_text(d) is None,
    ensures
        render_one(NodeModel::Value(key, raw), scopes, partials, fuel) is None,
        render_one(NodeModel::Unescaped(key, raw), scopes, partials, fuel) is None,
{
}

} // verus!
