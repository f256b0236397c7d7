use crate::document::{pair_len, Doc, Document};
use crate::error::YageError;
use vstd::prelude::*;

verus! {

broadcast use vstd::std_specs::vec::group_vec_axioms;

/// The text of a plain value: a string as it is, a number as its decimal text.
pub open spec fn plain_text(d: Doc) -> Option<Seq<char>> {
    match d {
        Doc::Str(s) => Some(s),
        Doc::Number(n) => Some(n),
        _ => None,
    }
}

/// The text of a string or a number; any other value fails with `NotAStringOrNumber`.
pub fn plain_value_to_string(data: &Document) -> (r: Result<String, YageError>)
    ensures
        match plain_text(data@) {
            Some(t) => r is Ok && r->Ok_0@ == t,
            None => r is Err && r->Err_0 is NotAStringOrNumber,
        },
{
    match data {
        Document::String(s) => Ok(s.clone()),
        Document::Number(n) => Ok(n.clone()),
        _ => Err(YageError::NotAStringOrNumber),
    }
}

/// The environment variables that a mapping defines, in its order: each key and value
/// as text. A document that is not a mapping fails with `NotAMap`, a key or value that is
/// neither a string nor a number with `NotAStringOrNumber`.
pub fn build_env(data: &Document) -> (r: Result<Vec<(String, String)>, YageError>)
    ensures
        !(data@ is Dict) ==> r is Err && r->Err_0 is NotAMap,
        r is Ok ==> data@ is Dict && r->Ok_0@.len() == data@->Dict_0.len() && forall|i: int|
            0 <= i < r->Ok_0@.len() ==> plain_text(data@->Dict_0[i]) == Some((#[trigger] r->Ok_0@[i]).0@)
                && plain_text(data@->Dict_1[i]) == Some(r->Ok_0@[i].1@),
        r is Err && data@ is Dict ==> r->Err_0 is NotAStringOrNumber && exists|i: int|
            0 <= i < data@->Dict_0.len() && (plain_text(#[trigger] data@->Dict_0[i]) is None
                || plain_text(data@->Dict_1[i]) is None),
{
    match data {
        Document::Mapping(keys, values) => {
            let n = pair_len(keys, values);
            let mut env: Vec<(String, String)> = Vec::new();
            let mut i: usize = 0;
            #[verifier::loop_isolation(false)]
            while i < n
                invariant
                    i <= n,
                    env@.len() == i,
                    forall|k: int|
                        0 <= k < i ==> plain_text(data@->Dict_0[k]) == Some((#[trigger] env@[k]).0@)
                            && plain_text(data@->Dict_1[k]) == Some(env@[k].1@),
                decreases n - i,
            {
                assert(data@->Dict_0[i as int] == keys@[i as int]@);
                assert(data@->Dict_1[i as int] == values@[i as int]@);
                let key = plain_value_to_string(&keys[i])?;
                let value = plain_value_to_string(&values[i])?;
                env.push((key, value));
                i = i + 1;
            }
            Ok(env)
        },
        _ => Err(YageError::NotAMap),
    }
}

} // verus!
