use crate::document::{
    copy_doc, copy_docs, doc_eq, lemma_view_well_formed, pair_len, well_formed, Doc, Document,
};
use crate::engine::{
    decrypted_from, encrypted_from, has_sealable, has_token, is_sealable, lemma_decrypt_succeeds,
    lemma_round_trip, opened_leaf, opens_all, yaml_round_trips,
};
use crate::provider::keys_match;
use crate::error::YageError;
use vstd::prelude::*;

verus! {

broadcast use vstd::std_specs::vec::group_vec_axioms;

/// The views of a sequence of documents.
pub open spec fn doc_views(v: Seq<Document>) -> Seq<Doc> {
    v.map_values(|d: Document| d@)
}

/// The view of an optional document.
pub open spec fn opt_view(e: Option<&Document>) -> Option<Doc> {
    match e {
        Some(d) => Some(d@),
        None => None,
    }
}

/// The first position among the first `n` keys that holds `key`.
pub open spec fn key_position(keys: Seq<Doc>, key: Doc, n: nat) -> Option<int>
    decreases n,
{
    if n == 0 || n > keys.len() {
        None
    } else {
        match key_position(keys, key, (n - 1) as nat) {
            Some(p) => Some(p),
            None => if keys[n - 1] == key {
                Some(n - 1)
            } else {
                None
            },
        }
    }
}

/// The item at index `k` of a sequence.
pub open spec fn item_of(e: Option<Doc>, k: int) -> Option<Doc> {
    match e {
        Some(Doc::List(items)) => if 0 <= k < items.len() {
            Some(items[k])
        } else {
            None
        },
        _ => None,
    }
}

/// The value under `key` in a mapping.
pub open spec fn value_of(e: Option<Doc>, key: Doc) -> Option<Doc> {
    match e {
        Some(Doc::Dict(keys, values)) => match key_position(keys, key, keys.len()) {
            Some(j) => if 0 <= j < values.len() {
                Some(values[j])
            } else {
                None
            },
            None => None,
        },
        _ => None,
    }
}

// The structural comparison of an edit is written and proved here rather than called from
// `treediff`: that crate walks `serde_yaml` values through its own traits, while this
// library holds documents as its own `Document`, on which the comparison is a short
// recursion by index and by key.

/// The document to encrypt after an edit, from the original `e` (still encrypted), its
/// decrypted form `b` and the edited form `a`. Where `b` and `a` agree, the original is
/// taken as it is; where both are sequences, items are merged by index; where both are
/// mappings, values are merged by key; anything else keeps the edited value. `None` where
/// an unchanged part has no counterpart in the original.
pub open spec fn merge_doc(e: Option<Doc>, b: Doc, a: Doc) -> Option<Doc>
    decreases a, 0nat,
{
    if b == a {
        e
    } else {
        match a {
            Doc::List(items) => if b is List {
                match merge_items(e, b->List_0, items, items.len()) {
                    Some(s) => Some(Doc::List(s)),
                    None => None,
                }
            } else {
                Some(a)
            },
            Doc::Dict(keys, values) => if b is Dict {
                match merge_values(e, b->Dict_0, b->Dict_1, keys, values, values.len()) {
                    Some(s) => Some(Doc::Dict(keys, s)),
                    None => None,
                }
            } else {
                Some(a)
            },
            _ => Some(a),
        }
    }
}

/// The first `n` edited items merged by index.
pub open spec fn merge_items(e: Option<Doc>, before: Seq<Doc>, after: Seq<Doc>, n: nat) -> Option<
    Seq<Doc>,
>
    decreases after, n,
{
    if n == 0 || n > after.len() {
        Some(Seq::empty())
    } else {
        match merge_items(e, before, after, (n - 1) as nat) {
            Some(prefix) => {
                let k = n - 1;
                let item = if k < before.len() {
                    merge_doc(item_of(e, k), before[k], after[k])
                } else {
                    Some(after[k])
                };
                match item {
                    Some(x) => Some(prefix.push(x)),
                    None => None,
                }
            },
            None => None,
        }
    }
}

/// The first `n` edited values merged by key.
pub open spec fn merge_values(
    e: Option<Doc>,
    before_keys: Seq<Doc>,
    before_values: Seq<Doc>,
    keys: Seq<Doc>,
    values: Seq<Doc>,
    n: nat,
) -> Option<Seq<Doc>>
    decreases values, n,
{
    if n == 0 || n > values.len() || n > keys.len() {
        Some(Seq::empty())
    } else {
        match merge_values(e, before_keys, before_values, keys, values, (n - 1) as nat) {
            Some(prefix) => {
                let k = n - 1;
                let item = match key_position(before_keys, keys[k], before_keys.len()) {
                    Some(j) => if 0 <= j < before_values.len() {
                        merge_doc(value_of(e, keys[k]), before_values[j], values[k])
                    } else {
                        Some(values[k])
                    },
                    None => Some(values[k]),
                };
                match item {
                    Some(x) => Some(prefix.push(x)),
                    None => None,
                }
            },
            None => None,
        }
    }
}

proof fn lemma_merge_items_fails_on(e: Option<Doc>, before: Seq<Doc>, after: Seq<Doc>, m: nat, n: nat)
    requires
        merge_items(e, before, after, m) is None,
        m <= n <= after.len(),
    ensures
        merge_items(e, before, after, n) is None,
    decreases n,
{
    if n > m {
        lemma_merge_items_fails_on(e, before, after, m, (n - 1) as nat);
    }
}

proof fn lemma_merge_values_fails_on(
    e: Option<Doc>,
    bk: Seq<Doc>,
    bv: Seq<Doc>,
    keys: Seq<Doc>,
    values: Seq<Doc>,
    m: nat,
    n: nat,
)
    requires
        merge_values(e, bk, bv, keys, values, m) is None,
        m <= n <= values.len(),
        n <= keys.len(),
    ensures
        merge_values(e, bk, bv, keys, values, n) is None,
    decreases n,
{
    if n > m {
        lemma_merge_values_fails_on(e, bk, bv, keys, values, m, (n - 1) as nat);
    }
}

/// The first position among the first `n` keys that holds `key`.
fn find_key(keys: &Vec<Document>, n: usize, key: &Document, views: Ghost<Seq<Doc>>) -> (r: Option<usize>)
    requires
        n <= keys@.len(),
        views@.len() == n,
        forall|i: int| 0 <= i < n ==> views@[i] == keys@[i]@,
    ensures
        match key_position(views@, key@, n as nat) {
            Some(p) => 0 <= p < n && r == Some(p as usize),
            None => r is None,
        },
        r matches Some(j) ==> j < n,
{
    proof {
        lemma_key_position_bound(views@, key@, n as nat);
    }
    let mut i: usize = 0;
    while i < n
        invariant
            i <= n,
            n <= keys@.len(),
            views@.len() == n,
            forall|k: int| 0 <= k < n ==> views@[k] == keys@[k]@,
            key_position(views@, key@, i as nat) is None,
            forall|m: nat| i <= m <= n ==> key_position(views@, key@, m) == key_position(views@, key@, i as nat) || (
                #[trigger] key_position(views@, key@, m)) is Some,
        decreases n - i,
    {
        if doc_eq(&keys[i], key) {
            proof {
                lemma_key_position_stays(views@, key@, (i + 1) as nat, n as nat);
            }
            return Some(i);
        }
        i = i + 1;
    }
    None
}

proof fn lemma_key_position_bound(keys: Seq<Doc>, key: Doc, n: nat)
    ensures
        key_position(keys, key, n) matches Some(p) ==> 0 <= p < n,
    decreases n,
{
    if n > 0 {
        lemma_key_position_bound(keys, key, (n - 1) as nat);
    }
}

proof fn lemma_key_position_stays(keys: Seq<Doc>, key: Doc, m: nat, n: nat)
    requires
        key_position(keys, key, m) is Some,
        m <= n <= keys.len(),
    ensures
        key_position(keys, key, n) == key_position(keys, key, m),
    decreases n,
{
    if n > m {
        lemma_key_position_stays(keys, key, m, (n - 1) as nat);
    }
}

fn item_ref<'a>(e: Option<&'a Document>, k: usize) -> (r: Option<&'a Document>)
    ensures
        opt_view(r) == item_of(opt_view(e), k as int),
{
    match e {
        Some(Document::Sequence(items)) => {
            if k < items.len() {
                Some(&items[k])
            } else {
                None
            }
        },
        _ => None,
    }
}

fn value_ref<'a>(e: Option<&'a Document>, key: &Document) -> (r: Option<&'a Document>)
    ensures
        opt_view(r) == value_of(opt_view(e), key@),
{
    match e {
        Some(d) => match d {
            Document::Mapping(keys, values) => {
                let n = pair_len(keys, values);
                let ghost kv = d@->Dict_0;
                assert(kv.len() == n);
                match find_key(keys, n, key, Ghost(kv)) {
                    Some(j) => {
                        assert(d@->Dict_1[j as int] == values@[j as int]@);
                        Some(&values[j])
                    },
                    None => None,
                }
            },
            _ => None,
        },
        None => None,
    }
}

fn merge_node(e: Option<&Document>, b: &Document, a: &Document) -> (r: Result<Document, YageError>)
    ensures
        match merge_doc(opt_view(e), b@, a@) {
            Some(m) => r is Ok && r->Ok_0@ == m,
            None => r is Err && r->Err_0 is KeyNotFound,
        },
    decreases a,
{
    if doc_eq(b, a) {
        return match e {
            Some(x) => Ok(copy_doc(x)),
            None => Err(YageError::KeyNotFound),
        };
    }
    match (b, a) {
        (Document::Sequence(bs), Document::Sequence(items)) => {
            let ghost ev = opt_view(e);
            let ghost bv = b@->List_0;
            let ghost av = a@->List_0;
            let mut out: Vec<Document> = Vec::new();
            let mut k: usize = 0;
            proof {
                assert(doc_views(out@) =~= Seq::<Doc>::empty());
            }
            #[verifier::loop_isolation(false)]
            while k < items.len()
                invariant
                    k <= items@.len(),
                    merge_items(ev, bv, av, k as nat) == Some(doc_views(out@)),
                decreases items@.len() - k,
            {
                let ghost prev = doc_views(out@);
                let child = if k < bs.len() {
                    match merge_node(item_ref(e, k), &bs[k], &items[k]) {
                        Ok(c) => c,
                        Err(err) => {
                            proof {
                                lemma_merge_items_fails_on(ev, bv, av, (k + 1) as nat, av.len());
                            }
                            return Err(err);
                        },
                    }
                } else {
                    copy_doc(&items[k])
                };
                out.push(child);
                proof {
                    assert(doc_views(out@) =~= prev.push(child@));
                }
                k = k + 1;
            }
            let r = Document::Sequence(out);
            proof {
                assert(r@->List_0 =~= doc_views(out@));
            }
            Ok(r)
        },
        (Document::Mapping(bk, bvals), Document::Mapping(keys, values)) => {
            let ghost ev = opt_view(e);
            let ghost bkv = b@->Dict_0;
            let ghost bvv = b@->Dict_1;
            let ghost akv = a@->Dict_0;
            let ghost avv = a@->Dict_1;
            let n = pair_len(keys, values);
            let bn = pair_len(bk, bvals);
            let mut out: Vec<Document> = Vec::new();
            let mut k: usize = 0;
            proof {
                assert(doc_views(out@) =~= Seq::<Doc>::empty());
            }
            #[verifier::loop_isolation(false)]
            while k < n
                invariant
                    k <= n,
                    out@.len() == k,
                    merge_values(ev, bkv, bvv, akv, avv, k as nat) == Some(doc_views(out@)),
                decreases n - k,
            {
                let ghost prev = doc_views(out@);
                proof {
                    assert(akv[k as int] == keys@[k as int]@);
                    assert(avv[k as int] == values@[k as int]@);
                    assert(bkv.len() == bn);
                }
                let child = match find_key(bk, bn, &keys[k], Ghost(bkv)) {
                    Some(j) => match merge_node(value_ref(e, &keys[k]), &bvals[j], &values[k]) {
                        Ok(c) => c,
                        Err(err) => {
                            proof {
                                lemma_merge_values_fails_on(ev, bkv, bvv, akv, avv, (k + 1) as nat, n as nat);
                            }
                            return Err(err);
                        },
                    },
                    None => copy_doc(&values[k]),
                };
                out.push(child);
                proof {
                    assert(doc_views(out@) =~= prev.push(child@));
                }
                k = k + 1;
            }
            let copied = copy_docs(keys, n);
            let r = Document::Mapping(copied, out);
            proof {
                assert(r@->Dict_0 =~= akv);
                assert(r@->Dict_1 =~= doc_views(out@));
            }
            Ok(r)
        },
        _ => Ok(copy_doc(a)),
    }
}

/// The document to encrypt after an edit: `after` where it differs from `before`, and the
/// still encrypted `original` wherever `after` leaves `before` unchanged, so that unchanged
/// values keep their ciphertext. Fails with `KeyNotFound` where an unchanged part of
/// `before` has no counterpart in `original`.
pub fn merge_for_edit(original: &Document, before: &Document, after: &Document) -> (r: Result<
    Document,
    YageError,
>)
    ensures
        match merge_doc(Some(original@), before@, after@) {
            Some(m) => r is Ok && r->Ok_0@ == m,
            None => r is Err && r->Err_0 is KeyNotFound,
        },
        r is Ok ==> forall|path: Seq<Step>|
            at_path(before@, path) is Some && at_path(before@, path) == at_path(after@, path)
                ==> #[trigger] at_path(r->Ok_0@, path) == at_path(original@, path),
{
    let r = merge_node(Some(original), before, after);
    proof {
        if r is Ok {
            lemma_view_well_formed(after);
            assert forall|path: Seq<Step>|
                at_path(before@, path) is Some && at_path(before@, path) == at_path(after@, path)
                    implies #[trigger] at_path(r->Ok_0@, path) == at_path(original@, path) by {
                lemma_merge_at_path(Some(original@), before@, after@, r->Ok_0@, path);
            }
        }
    }
    r
}

proof fn lemma_merge_items_at(e: Option<Doc>, before: Seq<Doc>, after: Seq<Doc>, n: nat, s: Seq<Doc>)
    requires
        n <= after.len(),
        merge_items(e, before, after, n) == Some(s),
    ensures
        s.len() == n,
        forall|k: int|
            0 <= k < n ==> Some(#[trigger] s[k]) == (if k < before.len() {
                merge_doc(item_of(e, k), before[k], after[k])
            } else {
                Some(after[k])
            }),
    decreases n,
{
    if n > 0 {
        let prefix = merge_items(e, before, after, (n - 1) as nat)->Some_0;
        lemma_merge_items_at(e, before, after, (n - 1) as nat, prefix);
        assert forall|k: int| 0 <= k < n implies Some(#[trigger] s[k]) == (if k < before.len() {
            merge_doc(item_of(e, k), before[k], after[k])
        } else {
            Some(after[k])
        }) by {
            if k < n - 1 {
                assert(s[k] == prefix[k]);
            }
        }
    }
}

proof fn lemma_merge_values_at(
    e: Option<Doc>,
    bk: Seq<Doc>,
    bv: Seq<Doc>,
    keys: Seq<Doc>,
    values: Seq<Doc>,
    n: nat,
    s: Seq<Doc>,
)
    requires
        n <= values.len(),
        n <= keys.len(),
        merge_values(e, bk, bv, keys, values, n) == Some(s),
    ensures
        s.len() == n,
        forall|k: int|
            0 <= k < n ==> Some(#[trigger] s[k]) == match key_position(bk, keys[k], bk.len()) {
                Some(j) => if 0 <= j < bv.len() {
                    merge_doc(value_of(e, keys[k]), bv[j], values[k])
                } else {
                    Some(values[k])
                },
                None => Some(values[k]),
            },
    decreases n,
{
    if n > 0 {
        let prefix = merge_values(e, bk, bv, keys, values, (n - 1) as nat)->Some_0;
        lemma_merge_values_at(e, bk, bv, keys, values, (n - 1) as nat, prefix);
        assert forall|k: int| 0 <= k < n implies Some(#[trigger] s[k]) == match key_position(
            bk,
            keys[k],
            bk.len(),
        ) {
            Some(j) => if 0 <= j < bv.len() {
                merge_doc(value_of(e, keys[k]), bv[j], values[k])
            } else {
                Some(values[k])
            },
            None => Some(values[k]),
        } by {
            if k < n - 1 {
                assert(s[k] == prefix[k]);
            }
        }
    }
}

/// Encrypting a document without a leaf to encrypt keeps it as it is.
pub proof fn lemma_encrypt_keeps_encrypted(d: Doc, x: Doc, fps: Seq<Seq<char>>)
    requires
        !has_sealable(d),
        encrypted_from(d, x, fps),
    ensures
        x == d,
    decreases d,
{
    match d {
        Doc::List(items) => {
            assert forall|k: int| 0 <= k < items.len() implies x->List_0[k] == items[k] by {
                if has_sealable(items[k]) {
                    assert(has_sealable(d));
                }
                lemma_encrypt_keeps_encrypted(items[k], x->List_0[k], fps);
            }
            assert(x->List_0 =~= items);
        },
        Doc::Dict(keys, values) => {
            assert forall|k: int| 0 <= k < values.len() implies x->Dict_1[k] == values[k] by {
                if has_sealable(values[k]) {
                    assert(has_sealable(d));
                }
                lemma_encrypt_keeps_encrypted(values[k], x->Dict_1[k], fps);
            }
            assert(x->Dict_1 =~= values);
        },
        _ => {},
    }
}

/// Decryption gives one result: two decryptions of the same document are equal.
pub proof fn lemma_decrypt_unique(e: Doc, r1: Doc, r2: Doc)
    requires
        decrypted_from(e, r1),
        decrypted_from(e, r2),
    ensures
        r1 == r2,
    decreases e,
{
    match e {
        Doc::List(items) => {
            assert forall|k: int| 0 <= k < items.len() implies r1->List_0[k] == r2->List_0[k] by {
                lemma_decrypt_unique(items[k], r1->List_0[k], r2->List_0[k]);
            }
            assert(r1->List_0 =~= r2->List_0);
        },
        Doc::Dict(keys, values) => {
            assert forall|k: int| 0 <= k < values.len() implies r1->Dict_1[k] == r2->Dict_1[k] by {
                lemma_decrypt_unique(values[k], r1->Dict_1[k], r2->Dict_1[k]);
            }
            assert(r1->Dict_1 =~= r2->Dict_1);
        },
        _ => {},
    }
}

/// Re-encrypting the merge of an edit and decrypting it again gives the edited document:
/// the original, fully encrypted, decrypts to `before`; the edit `after` holds no text
/// that reads as a token; and `serde_yaml` reads back the scalars it writes.
pub proof fn lemma_merge_decrypts_to_edit(
    original: Option<Doc>,
    before: Doc,
    after: Doc,
    merged: Doc,
    encrypted: Doc,
    decrypted: Doc,
    fps: Seq<Seq<char>>,
)
    requires
        original matches Some(o) ==> !has_sealable(o) && decrypted_from(o, before),
        well_formed(after),
        !has_token(after),
        merge_doc(original, before, after) == Some(merged),
        encrypted_from(merged, encrypted, fps),
        decrypted_from(encrypted, decrypted),
        yaml_round_trips(after),
    ensures
        decrypted == after,
    decreases after, 0nat,
{
    if before == after {
        let o = original->Some_0;
        lemma_encrypt_keeps_encrypted(o, encrypted, fps);
        lemma_decrypt_unique(o, before, decrypted);
    } else {
        match after {
            Doc::List(items) => {
                if before is List {
                    let bs = before->List_0;
                    let s = merge_items(original, bs, items, items.len())->Some_0;
                    lemma_merge_items_at(original, bs, items, items.len(), s);
                    let xs = encrypted->List_0;
                    let ds = decrypted->List_0;
                    assert forall|k: int| 0 <= k < items.len() implies ds[k] == items[k] by {
                        if has_token(items[k]) {
                            assert(has_token(after));
                        }
                        assert(merged->List_0[k] == s[k]);
                        if k < bs.len() {
                            let child = item_of(original, k);
                            if original is Some {
                                let o = original->Some_0;
                                if o is List {
                                    assert(decrypted_from(o->List_0[k], bs[k]));
                                    if has_sealable(o->List_0[k]) {
                                        assert(has_sealable(o));
                                    }
                                } else {
                                    assert(child is None);
                                }
                            }
                            lemma_merge_decrypts_to_edit(child, bs[k], items[k], s[k], xs[k], ds[k], fps);
                        } else {
                            lemma_round_trip(items[k], xs[k], ds[k], fps);
                        }
                    }
                    assert(ds =~= items);
                } else {
                    lemma_round_trip(after, encrypted, decrypted, fps);
                }
            },
            Doc::Dict(keys, values) => {
                if before is Dict {
                    let bk = before->Dict_0;
                    let bv = before->Dict_1;
                    let s = merge_values(original, bk, bv, keys, values, values.len())->Some_0;
                    lemma_merge_values_at(original, bk, bv, keys, values, values.len(), s);
                    let xs = encrypted->Dict_1;
                    let ds = decrypted->Dict_1;
                    assert forall|k: int| 0 <= k < values.len() implies ds[k] == values[k] by {
                        if has_token(values[k]) {
                            assert(has_token(after));
                        }
                        assert(merged->Dict_1[k] == s[k]);
                        match key_position(bk, keys[k], bk.len()) {
                            Some(j) => {
                                lemma_key_position_bound(bk, keys[k], bk.len());
                                if j < bv.len() {
                                    let child = value_of(original, keys[k]);
                                    if original is Some {
                                        let o = original->Some_0;
                                        if o is Dict {
                                            assert(o->Dict_0 == bk);
                                            assert(child == Some(o->Dict_1[j]));
                                            assert(decrypted_from(o->Dict_1[j], bv[j]));
                                            if has_sealable(o->Dict_1[j]) {
                                                assert(has_sealable(o));
                                            }
                                        } else {
                                            assert(child is None);
                                        }
                                    }
                                    lemma_merge_decrypts_to_edit(child, bv[j], values[k], s[k], xs[k], ds[k], fps);
                                } else {
                                    lemma_round_trip(values[k], xs[k], ds[k], fps);
                                }
                            },
                            None => {
                                lemma_round_trip(values[k], xs[k], ds[k], fps);
                            },
                        }
                    }
                    assert(ds =~= values);
                } else {
                    lemma_round_trip(after, encrypted, decrypted, fps);
                }
            },
            _ => {
                lemma_round_trip(after, encrypted, decrypted, fps);
            },
        }
    }
}

/// One step down a document: an index into a sequence or a key of a mapping.
pub enum Step {
    Index(int),
    Key(Doc),
}

/// The child that a step leads to.
pub open spec fn child_at(d: Doc, step: Step) -> Option<Doc> {
    match step {
        Step::Index(k) => item_of(Some(d), k),
        Step::Key(key) => value_of(Some(d), key),
    }
}

/// The part of a document at the end of a path.
pub open spec fn at_path(d: Doc, path: Seq<Step>) -> Option<Doc>
    decreases path.len(),
{
    if path.len() == 0 {
        Some(d)
    } else {
        match child_at(d, path[0]) {
            Some(c) => at_path(c, path.drop_first()),
            None => None,
        }
    }
}

proof fn lemma_key_position_found(keys: Seq<Doc>, key: Doc, n: nat)
    ensures
        key_position(keys, key, n) matches Some(p) ==> keys[p] == key,
    decreases n,
{
    if n > 0 {
        lemma_key_position_found(keys, key, (n - 1) as nat);
    }
}

proof fn lemma_merge_at_path(e: Option<Doc>, before: Doc, after: Doc, merged: Doc, path: Seq<Step>)
    requires
        merge_doc(e, before, after) == Some(merged),
        well_formed(after),
        at_path(before, path) is Some,
        at_path(before, path) == at_path(after, path),
    ensures
        e is Some,
        at_path(merged, path) == at_path(e->Some_0, path),
    decreases path.len(),
{
    if before == after {
    } else if path.len() == 0 {
    } else {
        let rest = path.drop_first();
        match path[0] {
            Step::Index(k) => {
                let bs = before->List_0;
                let items = after->List_0;
                let s = merge_items(e, bs, items, items.len())->Some_0;
                lemma_merge_items_at(e, bs, items, items.len(), s);
                assert(merged == Doc::List(s));
                lemma_merge_at_path(item_of(e, k), bs[k], items[k], s[k], rest);
                assert(child_at(merged, path[0]) == Some(s[k]));
            },
            Step::Key(key) => {
                let bk = before->Dict_0;
                let bv = before->Dict_1;
                let keys = after->Dict_0;
                let values = after->Dict_1;
                let j = key_position(bk, key, bk.len())->Some_0;
                let k = key_position(keys, key, keys.len())->Some_0;
                lemma_key_position_bound(bk, key, bk.len());
                lemma_key_position_bound(keys, key, keys.len());
                lemma_key_position_found(keys, key, keys.len());
                let s = merge_values(e, bk, bv, keys, values, values.len())->Some_0;
                lemma_merge_values_at(e, bk, bv, keys, values, values.len(), s);
                assert(merged == Doc::Dict(keys, s));
                assert(keys[k] == key);
                lemma_merge_at_path(value_of(e, key), bv[j], values[k], s[k], rest);
                assert(child_at(merged, path[0]) == Some(s[k]));
            },
        }
    }
}

proof fn lemma_encrypt_at_path(d: Doc, x: Doc, fps: Seq<Seq<char>>, path: Seq<Step>)
    requires
        encrypted_from(d, x, fps),
    ensures
        at_path(x, path) is Some <==> at_path(d, path) is Some,
        at_path(d, path) is Some ==> encrypted_from(
            at_path(d, path)->Some_0,
            at_path(x, path)->Some_0,
            fps,
        ),
    decreases path.len(),
{
    if path.len() > 0 {
        let rest = path.drop_first();
        match path[0] {
            Step::Index(k) => {
                if d is List && 0 <= k < d->List_0.len() {
                    assert(child_at(x, path[0]) == Some(x->List_0[k]));
                    lemma_encrypt_at_path(d->List_0[k], x->List_0[k], fps, rest);
                } else {
                    assert(child_at(d, path[0]) is None);
                    assert(child_at(x, path[0]) is None);
                }
            },
            Step::Key(key) => {
                if d is Dict {
                    match key_position(d->Dict_0, key, d->Dict_0.len()) {
                        Some(j) => {
                            if 0 <= j < d->Dict_1.len() {
                                assert(child_at(x, path[0]) == Some(x->Dict_1[j]));
                                lemma_encrypt_at_path(d->Dict_1[j], x->Dict_1[j], fps, rest);
                            } else {
                                assert(child_at(x, path[0]) is None);
                            }
                        },
                        None => {
                            assert(child_at(x, path[0]) is None);
                        },
                    }
                } else {
                    assert(child_at(d, path[0]) is None);
                    assert(child_at(x, path[0]) is None);
                }
            },
        }
    }
}

/// After an edit, re-encrypting the merge keeps the original ciphertext wherever the edit
/// left a value unchanged: at every path where `before` and `after` hold the same value,
/// the result holds exactly what the original holds there, provided that part of the
/// original is fully encrypted.
pub proof fn lemma_merge_keeps_unchanged_ciphertext(
    original: Doc,
    before: Doc,
    after: Doc,
    merged: Doc,
    encrypted: Doc,
    fps: Seq<Seq<char>>,
    path: Seq<Step>,
)
    requires
        merge_doc(Some(original), before, after) == Some(merged),
        well_formed(after),
        encrypted_from(merged, encrypted, fps),
        at_path(before, path) is Some,
        at_path(before, path) == at_path(after, path),
        at_path(original, path) matches Some(t) ==> !has_sealable(t),
    ensures
        at_path(encrypted, path) == at_path(original, path),
{
    lemma_merge_at_path(Some(original), before, after, merged, path);
    lemma_encrypt_at_path(merged, encrypted, fps, path);
    if at_path(merged, path) is Some {
        lemma_encrypt_keeps_encrypted(
            at_path(merged, path)->Some_0,
            at_path(encrypted, path)->Some_0,
            fps,
        );
    }
}

/// A part of a document that the keys open, and that holds nothing to encrypt, passes both
/// properties on to each of its children.
proof fn lemma_child_inherits(o: Doc, c: Doc, keys: Seq<Seq<char>>)
    requires
        opens_all(o, keys),
        !has_sealable(o),
        (o is List && o->List_0.contains(c)) || (o is Dict && o->Dict_1.contains(c)),
    ensures
        opens_all(c, keys),
        !has_sealable(c),
{
    if o is List {
        let k = choose|k: int| 0 <= k < o->List_0.len() && o->List_0[k] == c;
        if has_sealable(c) {
            assert(has_sealable(o->List_0[k]));
        }
    } else {
        let k = choose|k: int| 0 <= k < o->Dict_1.len() && o->Dict_1[k] == c;
        if has_sealable(c) {
            assert(has_sealable(o->Dict_1[k]));
        }
    }
}

/// The keys that opened the original open the re-encrypted merge of an edit too, when one
/// of them belongs to one of the recipients: so decrypting the written file succeeds, and
/// by `lemma_merge_decrypts_to_edit` gives the edited document.
pub proof fn lemma_merge_reopens(
    original: Option<Doc>,
    before: Doc,
    after: Doc,
    merged: Doc,
    encrypted: Doc,
    fps: Seq<Seq<char>>,
    keys: Seq<Seq<char>>,
)
    requires
        original matches Some(o) ==> !has_sealable(o) && opens_all(o, keys),
        well_formed(after),
        !has_token(after),
        merge_doc(original, before, after) == Some(merged),
        encrypted_from(merged, encrypted, fps),
        yaml_round_trips(after),
        keys_match(keys, fps),
    ensures
        opens_all(encrypted, keys),
    decreases after, 0nat,
{
    if before == after {
        let o = original->Some_0;
        lemma_encrypt_keeps_encrypted(o, encrypted, fps);
    } else {
        match after {
            Doc::List(items) => {
                if before is List {
                    let bs = before->List_0;
                    let s = merge_items(original, bs, items, items.len())->Some_0;
                    lemma_merge_items_at(original, bs, items, items.len(), s);
                    let xs = encrypted->List_0;
                    assert forall|k: int| 0 <= k < items.len() implies opens_all(#[trigger] xs[k], keys) by {
                        if has_token(items[k]) {
                            assert(has_token(after));
                        }
                        assert(merged->List_0[k] == s[k]);
                        if k < bs.len() {
                            let child = item_of(original, k);
                            if child is Some {
                                let o = original->Some_0;
                                assert(o->List_0[k] == child->Some_0);
                                lemma_child_inherits(o, child->Some_0, keys);
                            }
                            lemma_merge_reopens(child, bs[k], items[k], s[k], xs[k], fps, keys);
                        } else {
                            lemma_decrypt_succeeds(items[k], xs[k], fps, keys);
                        }
                    }
                } else {
                    lemma_decrypt_succeeds(after, encrypted, fps, keys);
                }
            },
            Doc::Dict(keys_a, values) => {
                if before is Dict {
                    let bk = before->Dict_0;
                    let bv = before->Dict_1;
                    let s = merge_values(original, bk, bv, keys_a, values, values.len())->Some_0;
                    lemma_merge_values_at(original, bk, bv, keys_a, values, values.len(), s);
                    let xs = encrypted->Dict_1;
                    assert forall|k: int| 0 <= k < values.len() implies opens_all(#[trigger] xs[k], keys) by {
                        if has_token(values[k]) {
                            assert(has_token(after));
                        }
                        assert(merged->Dict_1[k] == s[k]);
                        match key_position(bk, keys_a[k], bk.len()) {
                            Some(j) => {
                                if 0 <= j < bv.len() {
                                    let child = value_of(original, keys_a[k]);
                                    if child is Some {
                                        let o = original->Some_0;
                                        let p = key_position(o->Dict_0, keys_a[k], o->Dict_0.len())->Some_0;
                                        assert(o->Dict_1[p] == child->Some_0);
                                        lemma_child_inherits(o, child->Some_0, keys);
                                    }
                                    lemma_merge_reopens(child, bv[j], values[k], s[k], xs[k], fps, keys);
                                } else {
                                    lemma_decrypt_succeeds(values[k], xs[k], fps, keys);
                                }
                            },
                            None => {
                                lemma_decrypt_succeeds(values[k], xs[k], fps, keys);
                            },
                        }
                    }
                } else {
                    lemma_decrypt_succeeds(after, encrypted, fps, keys);
                }
            },
            _ => {
                lemma_decrypt_succeeds(after, encrypted, fps, keys);
            },
        }
    }
}

} // verus!
