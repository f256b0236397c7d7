use vstd::prelude::*;

verus! {

broadcast use vstd::std_specs::vec::group_vec_axioms;

/// The mathematical model of a document tree.
pub enum Doc {
    Null,
    Bool(bool),
    /// A number, held as its canonical decimal text.
    Number(Seq<char>),
    Str(Seq<char>),
    /// A tagged value, held as its YAML text.
    Tagged(Seq<char>),
    List(Seq<Doc>),
    /// The keys and the values of a mapping, in insertion order, paired by position;
    /// the two have the same length.
    Dict(Seq<Doc>, Seq<Doc>),
}

/// A structured document: a tree of scalars, sequences and mappings.
/// Each node owns its children.
#[derive(Debug, PartialEq)]
pub enum Document {
    Null,
    Bool(bool),
    /// A number, held as its canonical decimal text (`42`, `-7`, `1.5`).
    Number(String),
    String(String),
    /// A value with a YAML tag, held as its YAML text (`!tag value`); it is kept as it is.
    Tagged(String),
    Sequence(Vec<Document>),
    /// The keys and the values of a mapping, in insertion order: the key at an index
    /// goes with the value at the same index.
    Mapping(Vec<Document>, Vec<Document>),
}

/// The number of key/value pairs of a mapping: keys and values pair up by position, and
/// one without a partner is not part of it.
pub open spec fn pair_count(keys: Seq<Document>, values: Seq<Document>) -> nat {
    if keys.len() <= values.len() {
        keys.len()
    } else {
        values.len()
    }
}

impl View for Document {
    type V = Doc;

    open spec fn view(&self) -> Doc
        decreases self,
    {
        match self {
            Document::Null => Doc::Null,
            Document::Bool(b) => Doc::Bool(*b),
            Document::Number(n) => Doc::Number(n@),
            Document::String(s) => Doc::Str(s@),
            Document::Tagged(t) => Doc::Tagged(t@),
            Document::Sequence(items) => Doc::List(
                Seq::new(
                    items.len() as nat,
                    |i: int|
                        if 0 <= i < items.len() {
                            items[i].view()
                        } else {
                            Doc::Null
                        },
                ),
            ),
            Document::Mapping(keys, values) => Doc::Dict(
                Seq::new(
                    pair_count(keys@, values@),
                    |i: int|
                        if 0 <= i < keys.len() {
                            keys[i].view()
                        } else {
                            Doc::Null
                        },
                ),
                Seq::new(
                    pair_count(keys@, values@),
                    |i: int|
                        if 0 <= i < values.len() {
                            values[i].view()
                        } else {
                            Doc::Null
                        },
                ),
            ),
        }
    }
}

/// The number of key/value pairs of a mapping.
pub fn pair_len(keys: &Vec<Document>, values: &Vec<Document>) -> (r: usize)
    ensures
        r == pair_count(keys@, values@),
{
    if keys.len() <= values.len() {
        keys.len()
    } else {
        values.len()
    }
}

/// Copies of the first `n` documents.
pub fn copy_docs(items: &Vec<Document>, n: usize) -> (r: Vec<Document>)
    requires
        n <= items@.len(),
    ensures
        r@.len() == n,
        forall|k: int| 0 <= k < n ==> (#[trigger] r@[k])@ == items@[k]@,
    decreases items, 0nat,
{
    let mut out: Vec<Document> = Vec::new();
    let mut i: usize = 0;
    #[verifier::loop_isolation(false)]
    while i < n
        invariant
            i <= n,
            out@.len() == i,
            forall|k: int| 0 <= k < i ==> (#[trigger] out@[k])@ == items@[k]@,
        decreases n - i,
    {
        let c = copy_doc(&items[i]);
        out.push(c);
        i = i + 1;
    }
    out
}

/// A copy of a document.
pub fn copy_doc(d: &Document) -> (r: Document)
    ensures
        r@ == d@,
    decreases d, 1nat,
{
    match d {
        Document::Null => Document::Null,
        Document::Bool(b) => Document::Bool(*b),
        Document::Tagged(t) => Document::Tagged(t.clone()),
        Document::Number(n) => Document::Number(n.clone()),
        Document::String(s) => Document::String(s.clone()),
        Document::Sequence(items) => {
            let out = copy_docs(items, items.len());
            let r = Document::Sequence(out);
            assert(r@->List_0 =~= d@->List_0);
            r
        },
        Document::Mapping(keys, values) => {
            let n = pair_len(keys, values);
            let ks = copy_docs(keys, n);
            let vs = copy_docs(values, n);
            let r = Document::Mapping(ks, vs);
            assert(r@->Dict_0 =~= d@->Dict_0);
            assert(r@->Dict_1 =~= d@->Dict_1);
            r
        },
    }
}

fn docs_eq(a: &Vec<Document>, b: &Vec<Document>, n: usize, av: Ghost<Seq<Doc>>, bv: Ghost<Seq<Doc>>) -> (r: bool)
    requires
        n <= a@.len(),
        n <= b@.len(),
        av@.len() == n,
        bv@.len() == n,
        forall|i: int| 0 <= i < n ==> av@[i] == a@[i]@,
        forall|i: int| 0 <= i < n ==> bv@[i] == b@[i]@,
    ensures
        r == (av@ == bv@),
    decreases a, 0nat,
{
    let mut i: usize = 0;
    #[verifier::loop_isolation(false)]
    while i < n
        invariant
            i <= n,
            forall|k: int| 0 <= k < i ==> av@[k] == bv@[k],
        decreases n - i,
    {
        if !doc_eq(&a[i], &b[i]) {
            assert(av@[i as int] != bv@[i as int]);
            return false;
        }
        i = i + 1;
    }
    assert(av@ =~= bv@);
    true
}

/// Whether two documents are equal: same kind, same scalar, same children in order.
pub fn doc_eq(a: &Document, b: &Document) -> (r: bool)
    ensures
        r == (a@ == b@),
    decreases a, 1nat,
{
    match (a, b) {
        (Document::Null, Document::Null) => true,
        (Document::Bool(x), Document::Bool(y)) => *x == *y,
        (Document::Tagged(x), Document::Tagged(y)) => *x == *y,
        (Document::Number(x), Document::Number(y)) => *x == *y,
        (Document::String(x), Document::String(y)) => *x == *y,
        (Document::Sequence(xs), Document::Sequence(ys)) => {
            if xs.len() != ys.len() {
                assert(a@->List_0.len() != b@->List_0.len());
                return false;
            }
            docs_eq(xs, ys, xs.len(), Ghost(a@->List_0), Ghost(b@->List_0))
        },
        (Document::Mapping(xk, xv), Document::Mapping(yk, yv)) => {
            let n = pair_len(xk, xv);
            let m = pair_len(yk, yv);
            if n != m {
                assert(a@->Dict_0.len() != b@->Dict_0.len());
                return false;
            }
            let same_keys = docs_eq(xk, yk, n, Ghost(a@->Dict_0), Ghost(b@->Dict_0));
            if !same_keys {
                return false;
            }
            docs_eq(xv, yv, n, Ghost(a@->Dict_1), Ghost(b@->Dict_1))
        },
        _ => false,
    }
}

/// Every mapping of the document pairs each key with a value.
pub open spec fn well_formed(d: Doc) -> bool
    decreases d,
{
    match d {
        Doc::List(items) => forall|k: int| 0 <= k < items.len() ==> well_formed(#[trigger] items[k]),
        Doc::Dict(keys, values) => keys.len() == values.len() && forall|k: int|
            0 <= k < values.len() ==> well_formed(#[trigger] values[k]),
        _ => true,
    }
}

/// The model of every document is well formed.
pub proof fn lemma_view_well_formed(d: &Document)
    ensures
        well_formed(d@),
    decreases d,
{
    match d {
        Document::Sequence(items) => {
            assert forall|k: int| 0 <= k < items@.len() implies well_formed(#[trigger] d@->List_0[k]) by {
                lemma_view_well_formed(&items@[k]);
            }
        },
        Document::Mapping(keys, values) => {
            assert forall|k: int| 0 <= k < d@->Dict_1.len() implies well_formed(#[trigger] d@->Dict_1[k]) by {
                lemma_view_well_formed(&values@[k]);
            }
        },
        _ => {},
    }
}

} // verus!
