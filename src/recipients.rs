use crate::codec::{decode_token, YageEncodedValue};
use crate::document::{Doc, Document};
use crate::error::YageError;
use crate::engine::canonical_texts;
use crate::provider::{parse_recipient, recipient_parses, recipient_text_of};
use crate::text::{same_elements, same_texts, sorted_unique, strictly_sorted, texts};
use vstd::prelude::*;

verus! {

broadcast use vstd::std_specs::vec::group_vec_axioms;

/// The model of a token: its payload and its recipient list.
pub type TokenView = (Seq<char>, Seq<Seq<char>>);

/// The views of a sequence of decoded tokens.
pub open spec fn token_views(v: Seq<YageEncodedValue>) -> Seq<TokenView> {
    v.map_values(|e: YageEncodedValue| e@)
}

/// Every token of a document, in document order; mapping keys are not searched.
pub open spec fn encoded_values(d: Doc) -> Seq<TokenView>
    decreases d, 0nat,
{
    match d {
        Doc::Str(s) => match decode_token(s) {
            Some(v) => seq![v],
            None => Seq::empty(),
        },
        Doc::List(items) => encoded_values_first(items, items.len()),
        Doc::Dict(_, values) => encoded_values_first(values, values.len()),
        _ => Seq::empty(),
    }
}

/// The tokens of the first `n` documents, in order.
pub open spec fn encoded_values_first(items: Seq<Doc>, n: nat) -> Seq<TokenView>
    decreases items, n,
{
    if n == 0 || n > items.len() {
        Seq::empty()
    } else {
        encoded_values_first(items, (n - 1) as nat) + encoded_values(items[n - 1])
    }
}

/// All the tokens that record recipients record the same set of them.
pub open spec fn recipients_consistent(d: Doc) -> bool {
    let vs = encoded_values(d);
    forall|i: int, j: int|
        0 <= i < vs.len() && 0 <= j < vs.len() && #[trigger] vs[i].1.len() > 0
            && #[trigger] vs[j].1.len() > 0 ==> same_elements(vs[i].1, vs[j].1)
}

/// The recipient lists of the tokens put end to end.
pub open spec fn listed_recipients(vs: Seq<TokenView>) -> Seq<Seq<char>>
    decreases vs.len(),
{
    if vs.len() == 0 {
        Seq::empty()
    } else {
        listed_recipients(vs.drop_last()) + vs.last().1
    }
}

/// The texts that age writes for the recipients that the tokens of a document list.
pub open spec fn canonical_recipients(d: Doc) -> Seq<Seq<char>> {
    canonical_texts(listed_recipients(encoded_values(d)))
}

/// Whether `x` is the text that age writes for a recipient that a token of the document
/// lists.
pub open spec fn recorded_recipient(d: Doc, x: Seq<char>) -> bool {
    canonical_recipients(d).contains(x)
}

/// Whether a token of the document lists `x` among its recipients.
pub open spec fn recipient_listed(d: Doc, x: Seq<char>) -> bool {
    listed_recipients(encoded_values(d)).contains(x)
}

fn flatten_iter(values: &Vec<Document>, n: usize, views: Ghost<Seq<Doc>>) -> (r: Vec<
    YageEncodedValue,
>)
    requires
        n <= values@.len(),
        n <= views@.len(),
        forall|i: int| 0 <= i < n ==> views@[i] == values@[i]@,
    ensures
        token_views(r@) == encoded_values_first(views@, n as nat),
    decreases values, 0nat,
{
    let mut out: Vec<YageEncodedValue> = Vec::new();
    let mut i: usize = 0;
    proof {
        assert(token_views(out@) =~= Seq::<TokenView>::empty());
    }
    #[verifier::loop_isolation(false)]
    while i < n
        invariant
            i <= n,
            token_views(out@) == encoded_values_first(views@, i as nat),
        decreases n - i,
    {
        let ghost before = token_views(out@);
        let mut more = flatten_yage_encrypted_values(&values[i]);
        let ghost added = token_views(more@);
        out.append(&mut more);
        proof {
            assert(token_views(out@) =~= before + added);
        }
        i = i + 1;
    }
    out
}

/// Every token of a document, decoded, in document order.
pub fn flatten_yage_encrypted_values(value: &Document) -> (r: Vec<YageEncodedValue>)
    ensures
        token_views(r@) == encoded_values(value@),
    decreases value, 1nat,
{
    match value {
        Document::String(s) => {
            let mut out: Vec<YageEncodedValue> = Vec::new();
            match YageEncodedValue::from_str(s.as_str()) {
                Ok(v) => {
                    out.push(v);
                },
                Err(_) => {},
            }
            assert(token_views(out@) =~= encoded_values(value@));
            out
        },
        Document::Sequence(items) => flatten_iter(items, items.len(), Ghost(value@->List_0)),
        Document::Mapping(keys, values) => {
            let n = if keys.len() <= values.len() {
                keys.len()
            } else {
                values.len()
            };
            flatten_iter(values, n, Ghost(value@->Dict_1))
        },
        _ => {
            let out: Vec<YageEncodedValue> = Vec::new();
            assert(token_views(out@) =~= encoded_values(value@));
            out
        },
    }
}

/// Whether every token that records recipients records the same set of them. Tokens
/// with no recipient list are left out; order and repetition within a list do not count.
pub fn check_recipients(value: &Document) -> (r: bool)
    ensures
        r == recipients_consistent(value@),
{
    let flat = flatten_yage_encrypted_values(value);
    let ghost vs = encoded_values(value@);
    assert forall|k: int| 0 <= k < flat@.len() implies #[trigger] vs[k] == flat@[k]@ by {
        assert(token_views(flat@)[k] == flat@[k]@);
    }
    let mut reference: Option<usize> = None;
    let mut i: usize = 0;
    #[verifier::loop_isolation(false)]
    while i < flat.len()
        invariant
            i <= flat@.len(),
            vs.len() == flat@.len(),
            forall|k: int| 0 <= k < flat@.len() ==> #[trigger] vs[k] == flat@[k]@,
            match reference {
                None => forall|k: int| 0 <= k < i ==> (#[trigger] vs[k]).1.len() == 0,
                Some(f) => f < i && vs[f as int].1.len() > 0 && forall|k: int|
                    0 <= k < i && (#[trigger] vs[k]).1.len() > 0 ==> same_elements(
                        vs[k].1,
                        vs[f as int].1,
                    ),
            },
        decreases flat@.len() - i,
    {
        if flat[i].recipients.len() > 0 {
            match reference {
                None => {
                    reference = Some(i);
                },
                Some(f) => {
                    if !same_texts(&flat[i].recipients, &flat[f].recipients) {
                        assert(vs[i as int].1.len() > 0 && vs[f as int].1.len() > 0);
                        assert(!same_elements(vs[i as int].1, vs[f as int].1));
                        return false;
                    }
                },
            }
        }
        i = i + 1;
    }
    proof {
        assert forall|a: int, b: int|
            0 <= a < vs.len() && 0 <= b < vs.len() && #[trigger] vs[a].1.len() > 0
                && #[trigger] vs[b].1.len() > 0 implies same_elements(vs[a].1, vs[b].1) by {
            if reference is None {
                assert(vs[a].1.len() == 0);
            }
            let f = reference->Some_0;
            assert(same_elements(vs[a].1, vs[f as int].1));
            assert(same_elements(vs[b].1, vs[f as int].1));
            assert forall|x: Seq<char>| vs[a].1.contains(x) <==> vs[b].1.contains(x) by {
                assert(vs[a].1.contains(x) <==> vs[f as int].1.contains(x));
                assert(vs[b].1.contains(x) <==> vs[f as int].1.contains(x));
            }
        }
    }
    true
}

/// The recipients recorded in a document's tokens, as the texts that age writes for them,
/// sorted and each once. Fails with `RecipientParse` where one of them is not a valid
/// public key.
pub fn get_yaml_recipients(value: &Document) -> (r: Result<Vec<String>, YageError>)
    ensures
        r is Ok <==> forall|x: Seq<char>| #[trigger]
            recipient_listed(value@, x) ==> recipient_parses(x),
        r is Ok ==> strictly_sorted(texts(r->Ok_0@)) && forall|x: Seq<char>|
            #[trigger] texts(r->Ok_0@).contains(x) <==> recorded_recipient(value@, x),
        r matches Err(YageError::RecipientParse { recipient, .. }) ==> recipient_listed(
            value@,
            recipient@,
        ) && !recipient_parses(recipient@),
        r is Err ==> r->Err_0 is RecipientParse,
{
    let flat = flatten_yage_encrypted_values(value);
    let ghost vs = encoded_values(value@);
    let mut all: Vec<String> = Vec::new();
    let mut i: usize = 0;
    proof {
        assert(vs.subrange(0, 0) =~= Seq::<TokenView>::empty());
        assert(texts(all@) =~= Seq::<Seq<char>>::empty());
    }
    while i < flat.len()
        invariant
            i <= flat@.len(),
            vs == token_views(flat@),
            texts(all@) == listed_recipients(vs.subrange(0, i as int)),
        decreases flat@.len() - i,
    {
        let rs = &flat[i].recipients;
        let mut j: usize = 0;
        let ghost base = texts(all@);
        assert(vs[i as int] == flat@[i as int]@);
        proof {
            assert(texts(rs@).subrange(0, 0) =~= Seq::<Seq<char>>::empty());
            assert(base + texts(rs@).subrange(0, 0) =~= base);
        }
        while j < rs.len()
            invariant
                i < flat@.len(),
                rs == flat@[i as int].recipients,
                j <= rs@.len(),
                texts(all@) == base + texts(rs@).subrange(0, j as int),
            decreases rs@.len() - j,
        {
            let ghost prev = texts(all@);
            all.push(rs[j].clone());
            proof {
                assert(texts(all@) =~= prev.push(rs@[j as int]@));
                assert(texts(all@) =~= base + texts(rs@).subrange(0, j + 1));
            }
            j = j + 1;
        }
        proof {
            assert(texts(rs@).subrange(0, j as int) =~= texts(rs@));
            assert(vs.subrange(0, i + 1).drop_last() =~= vs.subrange(0, i as int));
            assert(vs.subrange(0, i + 1).last() == vs[i as int]);
        }
        i = i + 1;
    }
    proof {
        assert(vs.subrange(0, i as int) =~= vs);
    }
    let mut canon: Vec<String> = Vec::new();
    let mut k: usize = 0;
    proof {
        assert(all@.subrange(0, 0) =~= Seq::<String>::empty());
        assert(texts(canon@) =~= canonical_texts(texts(all@.subrange(0, 0))));
    }
    #[verifier::loop_isolation(false)]
    while k < all.len()
        invariant
            k <= all@.len(),
            texts(canon@) == canonical_texts(texts(all@.subrange(0, k as int))),
            forall|m: int| 0 <= m < k ==> recipient_parses(#[trigger] all@[m]@),
        decreases all@.len() - k,
    {
        match parse_recipient(all[k].as_str()) {
            Ok(text) => {
                let ghost prev = texts(canon@);
                canon.push(text);
                proof {
                    assert(texts(canon@) =~= prev.push(recipient_text_of(all@[k as int]@)));
                    assert(canonical_texts(texts(all@.subrange(0, k + 1))) =~= canonical_texts(
                        texts(all@.subrange(0, k as int)),
                    ).push(recipient_text_of(all@[k as int]@)));
                }
            },
            Err(message) => {
                proof {
                    assert(texts(all@)[k as int] == all@[k as int]@);
                    assert(texts(all@).contains(all@[k as int]@));
                    assert(recipient_listed(value@, all@[k as int]@));
                }
                return Err(
                    YageError::RecipientParse {
                        recipient: all[k].clone(),
                        message: message.to_string(),
                    },
                );
            },
        }
        k = k + 1;
    }
    let sorted = sorted_unique(&canon);
    proof {
        assert(all@.subrange(0, k as int) =~= all@);
        assert forall|x: Seq<char>| #[trigger] recipient_listed(value@, x) implies recipient_parses(
            x,
        ) by {
            assert(texts(all@).contains(x));
            let m = choose|m: int| 0 <= m < texts(all@).len() && texts(all@)[m] == x;
            assert(all@[m]@ == x);
        }
        assert forall|x: Seq<char>| #[trigger] texts(sorted@).contains(x) <==> recorded_recipient(value@, x) by {
            assert(texts(canon@).contains(x) <==> texts(sorted@).contains(x));
            assert(canonical_texts(texts(all@)) == canonical_recipients(value@));
        }
    }
    Ok(sorted)
}

/// For a document with two tokens that both record recipients, the recipients are
/// consistent exactly when the two lists hold the same fingerprints, in whatever order.
pub proof fn lemma_two_tokens_consistency(d: Doc, first: TokenView, second: TokenView)
    requires
        encoded_values(d) == seq![first, second],
        first.1.len() > 0,
        second.1.len() > 0,
    ensures
        recipients_consistent(d) <==> same_elements(first.1, second.1),
{
    let vs = encoded_values(d);
    assert(vs[0] == first && vs[1] == second);
    if same_elements(first.1, second.1) {
        assert forall|i: int, j: int|
            0 <= i < vs.len() && 0 <= j < vs.len() && #[trigger] vs[i].1.len() > 0
                && #[trigger] vs[j].1.len() > 0 implies same_elements(vs[i].1, vs[j].1) by {
        }
    }
}

} // verus!
