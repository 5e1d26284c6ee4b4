//! Rustache: a logic-less template engine.
//!
//! A template is tokenized by the host into a flat stream of lexical
//! tokens; the parser turns that stream into a tree of renderable
//! nodes, and the renderer walks the tree against a scoped data
//! context, writing escaped or raw substitutions, repeating or
//! suppressing sections, and splicing in named partials.

use vstd::prelude::*;
use vstd::string::StringExecFns;

pub mod parser;
pub mod template;

verus! {

broadcast use {
    vstd::std_specs::vec::axiom_vec_decreases_to_view,
    vstd::seq::axiom_seq_index_decreases,
    vstd::seq::axiom_seq_subrange_decreases,
};

/// Alias for `Result<T, RustacheError>`.
pub type RustacheResult<T> = Result<T, RustacheError>;

/// An error from the library.
#[derive(Debug, PartialEq)]
pub enum RustacheError {
    /// Malformed external data handed to the host's builder.
    JsonError(String),
    /// A template or partial file could not be read.
    FileError(String),
    /// An error from the template module.
    TemplateErrorType(crate::template::TemplateError),
}

impl RustacheError {
    /// The description of this error.
    pub open spec fn description_model(&self) -> Seq<char> {
        match self {
            RustacheError::JsonError(val) => val@,
            RustacheError::FileError(val) => val@,
            RustacheError::TemplateErrorType(e) => e.description_model(),
        }
    }

    /// Returns the description of this error.
    pub fn description(&self) -> (r: String)
        ensures
            r@ == self.description_model(),
    {
        match self {
            RustacheError::JsonError(val) => val.clone(),
            RustacheError::FileError(val) => val.clone(),
            RustacheError::TemplateErrorType(e) => e.description(),
        }
    }
}

/// A template lambda: the capability interface the host implements for
/// callback values. The renderer hands `call` the raw text between the
/// section's open and close tags and writes the returned text to the
/// output verbatim. A lambda value owns whatever state it mutates and
/// must not be shared between concurrent renders.
pub trait Lambda {
    /// Maps the section's raw inner text to the text to emit.
    fn call(&self, text: String) -> String;
}

/// A typed value of the data context. The host formats floating-point
/// values into their decimal text before building the context, so a
/// `Float` carries that text. A `Hash` keeps its entries in insertion
/// order; lookup returns the first entry with a matching key.
pub enum Data<L> {
    /// A string scalar.
    Strng(String),
    /// A boolean scalar, rendered as `true` or `false`.
    Bool(bool),
    /// An integer scalar, rendered in decimal.
    Integer(i32),
    /// A floating-point scalar, carried as its decimal text.
    Float(String),
    /// An ordered list of values.
    Vector(Vec<Data<L>>),
    /// An ordered map from keys to values.
    Hash(Vec<(String, Data<L>)>),
    /// A host callback.
    Lambda(L),
}

/// The mathematical value of a `Data`; a lambda is opaque.
pub enum DataModel {
    Strng(Seq<char>),
    Bool(bool),
    Integer(i32),
    Float(Seq<char>),
    Vector(Seq<DataModel>),
    Hash(Seq<(Seq<char>, DataModel)>),
    Lambda,
}

/// The mathematical value of a data value.
pub open spec fn data_model<L>(d: Data<L>) -> DataModel
    decreases d,
{
    match d {
        Data::Strng(s) => DataModel::Strng(s@),
        Data::Bool(b) => DataModel::Bool(b),
        Data::Integer(i) => DataModel::Integer(i),
        Data::Float(t) => DataModel::Float(t@),
        Data::Vector(v) => DataModel::Vector(datas_model(v@)),
        Data::Hash(h) => DataModel::Hash(entries_model(h@)),
        Data::Lambda(_) => DataModel::Lambda,
    }
}

/// The mathematical value of a sequence of data values.
pub open spec fn datas_model<L>(v: Seq<Data<L>>) -> Seq<DataModel>
    decreases v,
{
    if v.len() == 0 {
        Seq::empty()
    } else {
        seq![data_model(v[0])] + datas_model(v.drop_first())
    }
}

/// The mathematical value of a sequence of map entries.
pub open spec fn entries_model<L>(h: Seq<(String, Data<L>)>) -> Seq<(Seq<char>, DataModel)>
    decreases h,
{
    if h.len() == 0 {
        Seq::empty()
    } else {
        seq![(h[0].0@, data_model(h[0].1))] + entries_model(h.drop_first())
    }
}

/// `datas_model` maps the sequence pointwise.
pub proof fn lemma_datas_model_index<L>(v: Seq<Data<L>>)
    ensures
        datas_model(v).len() == v.len(),
        forall|i: int| 0 <= i < v.len() ==> datas_model(v)[i] == data_model(v[i]),
    decreases v.len(),
{
    if v.len() > 0 {
        lemma_datas_model_index(v.drop_first());
    }
}

/// `entries_model` maps the sequence pointwise.
pub proof fn lemma_entries_model_index<L>(h: Seq<(String, Data<L>)>)
    ensures
        entries_model(h).len() == h.len(),
        forall|i: int| 0 <= i < h.len() ==> entries_model(h)[i] == (h[i].0@, data_model(h[i].1)),
    decreases h.len(),
{
    if h.len() > 0 {
        lemma_entries_model_index(h.drop_first());
    }
}

/// Structural equality of two data values; `None` marks that two
/// lambdas were compared, which is forbidden.
pub open spec fn eq_model(a: DataModel, b: DataModel) -> Option<bool>
    decreases a,
{
    match (a, b) {
        (DataModel::Strng(x), DataModel::Strng(y)) => Option::Some(x == y),
        (DataModel::Bool(x), DataModel::Bool(y)) => Option::Some(x == y),
        (DataModel::Integer(x), DataModel::Integer(y)) => Option::Some(x == y),
        (DataModel::Float(x), DataModel::Float(y)) => Option::Some(x == y),
        (DataModel::Vector(x), DataModel::Vector(y)) => eq_model_seq(x, y),
        (DataModel::Hash(x), DataModel::Hash(y)) => eq_model_entries(x, y),
        (DataModel::Lambda, DataModel::Lambda) => Option::None,
        _ => Option::Some(false),
    }
}

/// Elementwise equality of two value sequences, stopping at the first
/// difference; `None` propagates a forbidden lambda comparison met
/// before any difference.
pub open spec fn eq_model_seq(x: Seq<DataModel>, y: Seq<DataModel>) -> Option<bool>
    decreases x,
{
    if x.len() != y.len() {
        Option::Some(false)
    } else if x.len() == 0 {
        Option::Some(true)
    } else {
        match eq_model(x[0], y[0]) {
            Option::None => Option::None,
            Option::Some(false) => Option::Some(false),
            Option::Some(true) => eq_model_seq(x.drop_first(), y.drop_first()),
        }
    }
}

/// Entrywise equality of two maps: the entries must agree, key and
/// value, in order.
pub open spec fn eq_model_entries(
    x: Seq<(Seq<char>, DataModel)>,
    y: Seq<(Seq<char>, DataModel)>,
) -> Option<bool>
    decreases x,
{
    if x.len() != y.len() {
        Option::Some(false)
    } else if x.len() == 0 {
        Option::Some(true)
    } else if x[0].0 != y[0].0 {
        Option::Some(false)
    } else {
        match eq_model(x[0].1, y[0].1) {
            Option::None => Option::None,
            Option::Some(false) => Option::Some(false),
            Option::Some(true) => eq_model_entries(x.drop_first(), y.drop_first()),
        }
    }
}

/// The error for a forbidden lambda comparison.
fn lambda_compare_error() -> (r: RustacheError)
    ensures
        r is TemplateErrorType,
{
    RustacheError::TemplateErrorType(
        crate::template::TemplateError::RenderTypeError(
            String::from_str("cannot compare lambdas"),
        ),
    )
}

impl<L> Data<L> {
    /// Compares two data values structurally. Comparing two lambdas is
    /// undefined and fails fast instead of returning a wrong answer.
    #[verifier::loop_isolation(false)]
    pub fn data_eq(&self, other: &Data<L>) -> (r: Result<bool, RustacheError>)
        ensures
            match r {
                Ok(b) => eq_model(data_model(*self), data_model(*other)) == Option::Some(b),
                Err(e) => eq_model(data_model(*self), data_model(*other)) is None
                    && e is TemplateErrorType,
            },
        decreases self,
    {
        match self {
            Data::Strng(x) => match other {
                Data::Strng(y) => Ok(x.eq(y)),
                _ => Ok(false),
            },
            Data::Bool(x) => match other {
                Data::Bool(y) => Ok(*x == *y),
                _ => Ok(false),
            },
            Data::Integer(x) => match other {
                Data::Integer(y) => Ok(*x == *y),
                _ => Ok(false),
            },
            Data::Float(x) => match other {
                Data::Float(y) => Ok(x.eq(y)),
                _ => Ok(false),
            },
            Data::Vector(x) => match other {
                Data::Vector(y) => {

                let ghost xm = datas_model(x@);
                let ghost ym = datas_model(y@);
                proof {
                    lemma_datas_model_index(x@);
                    lemma_datas_model_index(y@);
                }
                if x.len() != y.len() {
                    return Ok(false);
                }
                let n = x.len();
                let mut t: usize = 0;
                proof {
                    assert(xm.skip(0) =~= xm);
                    assert(ym.skip(0) =~= ym);
                }
                while t < n
                    invariant
                        t <= n,
                        n == x@.len() == y@.len(),
                        xm == datas_model(x@),
                        ym == datas_model(y@),
                        xm.len() == n,
                        ym.len() == n,
                        forall|k: int| 0 <= k < n ==> xm[k] == data_model(x@[k]),
                        forall|k: int| 0 <= k < n ==> ym[k] == data_model(y@[k]),
                        eq_model_seq(xm, ym) == eq_model_seq(
                            xm.skip(t as int),
                            ym.skip(t as int),
                        ),
                    decreases n - t,
                {
                    proof {
                        assert(xm.skip(t as int).len() == n - t);
                        assert(ym.skip(t as int).len() == n - t);
                        assert(xm.skip(t as int)[0] == xm[t as int]);
                        assert(ym.skip(t as int)[0] == ym[t as int]);
                        assert(xm.skip(t as int).drop_first() =~= xm.skip(t as int + 1));
                        assert(ym.skip(t as int).drop_first() =~= ym.skip(t as int + 1));
                    }
                    proof {
                        assert(decreases_to!(self => x));
                        assert(decreases_to!(x => x@));
                        assert(decreases_to!(x@ => x@[t as int]));
                    }
                    let res = x[t].data_eq(&y[t]);
                    match res {
                        Ok(true) => {
                        },
                        Ok(false) => {
                            return Ok(false);
                        },
                        Err(e) => {
                            return Err(e);
                        },
                    }
                    t = t + 1;
                }
                proof {
                    assert(xm.skip(n as int).len() == 0);
                    assert(ym.skip(n as int).len() == 0);
                }
                Ok(true)
                },
                _ => Ok(false),
            },
            Data::Hash(x) => match other {
                Data::Hash(y) => {

                let ghost xm = entries_model(x@);
                let ghost ym = entries_model(y@);
                proof {
                    lemma_entries_model_index(x@);
                    lemma_entries_model_index(y@);
                }
                if x.len() != y.len() {
                    return Ok(false);
                }
                let n = x.len();
                let mut t: usize = 0;
                proof {
                    assert(xm.skip(0) =~= xm);
                    assert(ym.skip(0) =~= ym);
                }
                while t < n
                    invariant
                        t <= n,
                        n == x@.len() == y@.len(),
                        xm == entries_model(x@),
                        ym == entries_model(y@),
                        xm.len() == n,
                        ym.len() == n,
                        forall|k: int| 0 <= k < n ==> xm[k] == (x@[k].0@, data_model(x@[k].1)),
                        forall|k: int| 0 <= k < n ==> ym[k] == (y@[k].0@, data_model(y@[k].1)),
                        eq_model_entries(xm, ym) == eq_model_entries(
                            xm.skip(t as int),
                            ym.skip(t as int),
                        ),
                    decreases n - t,
                {
                    proof {
                        assert(xm.skip(t as int).len() == n - t);
                        assert(ym.skip(t as int).len() == n - t);
                        assert(xm.skip(t as int)[0] == xm[t as int]);
                        assert(ym.skip(t as int)[0] == ym[t as int]);
                        assert(xm.skip(t as int).drop_first() =~= xm.skip(t as int + 1));
                        assert(ym.skip(t as int).drop_first() =~= ym.skip(t as int + 1));
                    }
                    if !x[t].0.eq(&y[t].0) {
                        return Ok(false);
                    }
                    proof {
                        assert(decreases_to!(self => x));
                        assert(decreases_to!(x => x@));
                        assert(decreases_to!(x@ => x@[t as int]));
                        assert(decreases_to!(x@[t as int] => x@[t as int].1));
                    }
                    let res = x[t].1.data_eq(&y[t].1);
                    match res {
                        Ok(true) => {
                        },
                        Ok(false) => {
                            return Ok(false);
                        },
                        Err(e) => {
                            return Err(e);
                        },
                    }
                    t = t + 1;
                }
                proof {
                    assert(xm.skip(n as int).len() == 0);
                    assert(ym.skip(n as int).len() == 0);
                }
                Ok(true)
                },
                _ => Ok(false),
            },
            Data::Lambda(_) => match other {
                Data::Lambda(_) => Err(lambda_compare_error()),
                _ => Ok(false),
            },
        }
    }
}


} // verus!
