use crate::codec::{is_token, YageEncodedValue};
use crate::document::{Doc, Document};
use vstd::prelude::*;

verus! {

broadcast use vstd::std_specs::vec::group_vec_axioms;

/// How much of a document is encrypted.
#[derive(Debug, Clone, Copy, PartialEq, Eq, Structural)]
pub enum EncryptionStatus {
    Encrypted,
    NotEncrypted,
    Mixed,
    NoValue,
}

/// The combination of two statuses: `Mixed` absorbs, `NoValue` is neutral, and
/// `Encrypted` with `NotEncrypted` is `Mixed`.
pub open spec fn combine(acc: EncryptionStatus, s: EncryptionStatus) -> EncryptionStatus {
    match s {
        EncryptionStatus::Encrypted => match acc {
            EncryptionStatus::Encrypted | EncryptionStatus::NoValue => EncryptionStatus::Encrypted,
            _ => EncryptionStatus::Mixed,
        },
        EncryptionStatus::NotEncrypted => match acc {
            EncryptionStatus::NotEncrypted | EncryptionStatus::NoValue => {
                EncryptionStatus::NotEncrypted
            },
            _ => EncryptionStatus::Mixed,
        },
        EncryptionStatus::Mixed => EncryptionStatus::Mixed,
        EncryptionStatus::NoValue => acc,
    }
}

/// The statuses combined from left to right, starting from `NoValue`.
pub open spec fn fold_statuses(s: Seq<EncryptionStatus>) -> EncryptionStatus
    decreases s.len(),
{
    if s.len() == 0 {
        EncryptionStatus::NoValue
    } else {
        combine(fold_statuses(s.drop_last()), s.last())
    }
}

/// The status of a document: a token is `Encrypted`, any other scalar `NotEncrypted`,
/// null `NoValue`; a sequence or a mapping folds the statuses of its values.
pub open spec fn status_of(d: Doc) -> EncryptionStatus
    decreases d, 0nat,
{
    match d {
        Doc::Null => EncryptionStatus::NoValue,
        Doc::Str(s) => if is_token(s) {
            EncryptionStatus::Encrypted
        } else {
            EncryptionStatus::NotEncrypted
        },
        Doc::List(items) => status_of_first(items, items.len()),
        Doc::Dict(_, values) => status_of_first(values, values.len()),
        _ => EncryptionStatus::NotEncrypted,
    }
}

/// The statuses of the first `n` documents combined from left to right, starting from
/// `NoValue`.
pub open spec fn status_of_first(items: Seq<Doc>, n: nat) -> EncryptionStatus
    decreases items, n,
{
    if n == 0 || n > items.len() {
        EncryptionStatus::NoValue
    } else {
        combine(status_of_first(items, (n - 1) as nat), status_of(items[n - 1]))
    }
}

fn combine_status(acc: EncryptionStatus, s: EncryptionStatus) -> (r: EncryptionStatus)
    ensures
        r == combine(acc, s),
{
    match s {
        EncryptionStatus::Encrypted => match acc {
            EncryptionStatus::Encrypted | EncryptionStatus::NoValue => EncryptionStatus::Encrypted,
            _ => EncryptionStatus::Mixed,
        },
        EncryptionStatus::NotEncrypted => match acc {
            EncryptionStatus::NotEncrypted | EncryptionStatus::NoValue => {
                EncryptionStatus::NotEncrypted
            },
            _ => EncryptionStatus::Mixed,
        },
        EncryptionStatus::Mixed => EncryptionStatus::Mixed,
        EncryptionStatus::NoValue => acc,
    }
}

/// The statuses of the first `n` of `values` combined from left to right.
fn check_encrypted_iter(values: &Vec<Document>, n: usize, views: Ghost<Seq<Doc>>) -> (r:
    EncryptionStatus)
    requires
        n <= values@.len(),
        n <= views@.len(),
        forall|i: int| 0 <= i < n ==> views@[i] == values@[i]@,
    ensures
        r == status_of_first(views@, n as nat),
    decreases values, 0nat,
{
    let mut acc = EncryptionStatus::NoValue;
    let mut i: usize = 0;
    #[verifier::loop_isolation(false)]
    while i < n
        invariant
            i <= n,
            acc == status_of_first(views@, i as nat),
        decreases n - i,
    {
        let s = check_encrypted(&values[i]);
        acc = combine_status(acc, s);
        i = i + 1;
    }
    acc
}

/// The encryption status of a document.
pub fn check_encrypted(value: &Document) -> (r: EncryptionStatus)
    ensures
        r == status_of(value@),
    decreases value, 1nat,
{
    match value {
        Document::Null => EncryptionStatus::NoValue,
        Document::String(s) => {
            if YageEncodedValue::from_str(s.as_str()).is_ok() {
                EncryptionStatus::Encrypted
            } else {
                EncryptionStatus::NotEncrypted
            }
        },
        Document::Sequence(items) => check_encrypted_iter(items, items.len(), Ghost(value@->List_0)),
        Document::Mapping(keys, values) => {
            let n = if keys.len() <= values.len() {
                keys.len()
            } else {
                values.len()
            };
            check_encrypted_iter(values, n, Ghost(value@->Dict_1))
        },
        _ => EncryptionStatus::NotEncrypted,
    }
}

} // verus!
