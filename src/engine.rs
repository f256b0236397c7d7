use crate::codec::{decode_token, encodable, is_token, lemma_decode_encode, YageEncodedValue};
use crate::document::{copy_docs, pair_len, Doc, Document};
use crate::error::YageError;
use crate::provider::{
    age_open, age_opens, age_payload_of, age_seal, base64_bytes_of, base64_decode, base64_encode,
    base64_text_of, identity_parses, is_ascii_alphanumeric, is_base64_char, is_contributory,
    keys_match, opens_for, parse_identity, parse_recipient, recipient_contributory,
    recipient_parses, recipient_text_of, yaml_bytes_of, yaml_parse, yaml_render, yaml_renders,
    yaml_value_of,
};
use crate::text::{same_elements, sorted_unique, strictly_sorted, texts};
use vstd::prelude::*;

verus! {

broadcast use vstd::std_specs::vec::group_vec_axioms;

/// A leaf that encryption replaces: a number, or a string that is not already a token.
pub open spec fn is_sealable(d: Doc) -> bool {
    d is Number || (d is Str && !is_token(d->Str_0))
}

/// `e` is a token for the value `d` encrypted to the recipients `fps`: it records them
/// sorted and each once, and its payload is the base64 text of a ciphertext that holds the
/// YAML text of `d` and that opens with an identity of any of the recipients.
pub open spec fn sealed_leaf(d: Doc, e: Doc, fps: Seq<Seq<char>>) -> bool {
    e is Str && match decode_token(e->Str_0) {
        Some(v) => strictly_sorted(v.1) && same_elements(v.1, fps) && match base64_bytes_of(v.0) {
            Some(ct) => v.0 == base64_text_of(ct) && age_payload_of(ct) == yaml_bytes_of(d)
                && opens_for(ct, fps),
            None => false,
        },
        None => false,
    }
}

/// `e` is `d` encrypted to the recipients `fps`: the same tree with the same keys, where
/// each number and each string that is not a token is replaced by a token for it, and
/// every other leaf is kept.
pub open spec fn encrypted_from(d: Doc, e: Doc, fps: Seq<Seq<char>>) -> bool
    decreases d,
{
    match d {
        Doc::List(items) => e is List && e->List_0.len() == items.len() && forall|k: int|
            0 <= k < items.len() ==> encrypted_from(items[k], #[trigger] e->List_0[k], fps),
        Doc::Dict(keys, values) => e is Dict && e->Dict_0 == keys && e->Dict_1.len()
            == values.len() && forall|k: int|
            0 <= k < values.len() ==> encrypted_from(values[k], #[trigger] e->Dict_1[k], fps),
        _ => if is_sealable(d) {
            sealed_leaf(d, e, fps)
        } else {
            e == d
        },
    }
}

/// Whether a document has a leaf that encryption replaces.
pub open spec fn has_sealable(d: Doc) -> bool
    decreases d,
{
    match d {
        Doc::List(items) => exists|k: int| 0 <= k < items.len() && has_sealable(#[trigger] items[k]),
        Doc::Dict(_, values) => exists|k: int|
            0 <= k < values.len() && has_sealable(#[trigger] values[k]),
        _ => is_sealable(d),
    }
}

/// `r` is what the token `s` holds: its payload decodes from base64 to a ciphertext whose
/// plaintext reads as the YAML text of `r`.
pub open spec fn opened_leaf(s: Seq<char>, r: Doc) -> bool {
    match decode_token(s) {
        Some(v) => match base64_bytes_of(v.0) {
            Some(ct) => yaml_value_of(age_payload_of(ct)) == Some(r),
            None => false,
        },
        None => false,
    }
}

/// `r` is `e` decrypted: the same tree with the same keys, where each token is replaced
/// by what it holds, and every other leaf is kept.
pub open spec fn decrypted_from(e: Doc, r: Doc) -> bool
    decreases e,
{
    match e {
        Doc::List(items) => r is List && r->List_0.len() == items.len() && forall|k: int|
            0 <= k < items.len() ==> decrypted_from(items[k], #[trigger] r->List_0[k]),
        Doc::Dict(keys, values) => r is Dict && r->Dict_0 == keys && r->Dict_1.len()
            == values.len() && forall|k: int|
            0 <= k < values.len() ==> decrypted_from(values[k], #[trigger] r->Dict_1[k]),
        Doc::Str(s) => if is_token(s) {
            opened_leaf(s, r)
        } else {
            r == e
        },
        _ => r == e,
    }
}

/// Whether a document holds a token among its values.
pub open spec fn has_token(d: Doc) -> bool
    decreases d,
{
    match d {
        Doc::List(items) => exists|k: int| 0 <= k < items.len() && has_token(#[trigger] items[k]),
        Doc::Dict(_, values) => exists|k: int| 0 <= k < values.len() && has_token(#[trigger] values[k]),
        Doc::Str(s) => is_token(s),
        _ => false,
    }
}

/// Whether `serde_yaml` can write every leaf that encryption replaces.
pub open spec fn leaves_render(d: Doc) -> bool
    decreases d,
{
    match d {
        Doc::List(items) => forall|k: int| 0 <= k < items.len() ==> leaves_render(#[trigger] items[k]),
        Doc::Dict(_, values) => forall|k: int| 0 <= k < values.len() ==> leaves_render(#[trigger] values[k]),
        _ => is_sealable(d) ==> yaml_renders(d),
    }
}

/// Whether the keys open every token of a document, each to a YAML text.
pub open spec fn opens_all(d: Doc, keys: Seq<Seq<char>>) -> bool
    decreases d,
{
    match d {
        Doc::List(items) => forall|k: int| 0 <= k < items.len() ==> opens_all(#[trigger] items[k], keys),
        Doc::Dict(_, values) => forall|k: int| 0 <= k < values.len() ==> opens_all(#[trigger] values[k], keys),
        Doc::Str(s) => is_token(s) ==> token_opens(s, keys),
        _ => true,
    }
}

/// The payload of the token decodes from base64 to a ciphertext that the keys open, and
/// whose plaintext reads as YAML.
pub open spec fn token_opens(s: Seq<char>, keys: Seq<Seq<char>>) -> bool {
    match decode_token(s) {
        Some(v) => match base64_bytes_of(v.0) {
            Some(ct) => age_opens(ct, keys) && yaml_value_of(age_payload_of(ct)) is Some,
            None => false,
        },
        None => false,
    }
}

/// The token's payload decodes from base64, and what the keys open reads as YAML: the
/// only way left for opening it to fail is that the keys do not open it.
pub open spec fn token_well_formed(s: Seq<char>, keys: Seq<Seq<char>>) -> bool {
    match decode_token(s) {
        Some(v) => match base64_bytes_of(v.0) {
            Some(ct) => age_opens(ct, keys) ==> yaml_value_of(age_payload_of(ct)) is Some,
            None => false,
        },
        None => false,
    }
}

/// Every token of a document is well formed for the keys.
pub open spec fn tokens_well_formed(d: Doc, keys: Seq<Seq<char>>) -> bool
    decreases d,
{
    match d {
        Doc::List(items) => forall|k: int| 0 <= k < items.len() ==> tokens_well_formed(#[trigger] items[k], keys),
        Doc::Dict(_, values) => forall|k: int|
            0 <= k < values.len() ==> tokens_well_formed(#[trigger] values[k], keys),
        Doc::Str(s) => is_token(s) ==> token_well_formed(s, keys),
        _ => true,
    }
}

/// A recipient that encryption accepts: it parses, and its key has large order.
pub open spec fn recipient_usable(s: Seq<char>) -> bool {
    recipient_parses(s) && recipient_contributory(recipient_text_of(s))
}

/// The texts that age writes for the recipients.
pub open spec fn canonical_texts(s: Seq<Seq<char>>) -> Seq<Seq<char>> {
    s.map_values(|x: Seq<char>| recipient_text_of(x))
}

/// Every key text parses as a private key.
pub open spec fn keys_parse(keys: Seq<Seq<char>>) -> bool {
    forall|j: int| 0 <= j < keys.len() ==> identity_parses(#[trigger] keys[j])
}

proof fn lemma_no_sealable_renders(d: Doc)
    requires
        !has_sealable(d),
    ensures
        leaves_render(d),
    decreases d,
{
    match d {
        Doc::List(items) => {
            assert forall|k: int| 0 <= k < items.len() implies leaves_render(#[trigger] items[k]) by {
                if has_sealable(items[k]) {
                    assert(has_sealable(d));
                }
                lemma_no_sealable_renders(items[k]);
            }
        },
        Doc::Dict(_, values) => {
            assert forall|k: int| 0 <= k < values.len() implies leaves_render(#[trigger] values[k]) by {
                if has_sealable(values[k]) {
                    assert(has_sealable(d));
                }
                lemma_no_sealable_renders(values[k]);
            }
        },
        _ => {},
    }
}

proof fn lemma_no_token_opens(d: Doc, keys: Seq<Seq<char>>)
    requires
        !has_token(d),
    ensures
        opens_all(d, keys),
    decreases d,
{
    match d {
        Doc::List(items) => {
            assert forall|k: int| 0 <= k < items.len() implies opens_all(#[trigger] items[k], keys) by {
                if has_token(items[k]) {
                    assert(has_token(d));
                }
                lemma_no_token_opens(items[k], keys);
            }
        },
        Doc::Dict(_, values) => {
            assert forall|k: int| 0 <= k < values.len() implies opens_all(#[trigger] values[k], keys) by {
                if has_token(values[k]) {
                    assert(has_token(d));
                }
                lemma_no_token_opens(values[k], keys);
            }
        },
        _ => {},
    }
}

/// Checks that each recipient can be encrypted to, and returns the text that age writes
/// for each. Fails with `RecipientParse` on the first that does not parse or whose key has
/// low order.
pub fn parse_recipients(recipients: &Vec<String>) -> (r: Result<Vec<String>, YageError>)
    ensures
        r is Ok <==> forall|i: int| 0 <= i < recipients@.len() ==> recipient_usable(#[trigger] recipients@[i]@),
        r is Ok ==> texts(r->Ok_0@) == canonical_texts(texts(recipients@)),
        r is Ok ==> forall|i: int|
            0 <= i < r->Ok_0@.len() ==> recipient_parses(#[trigger] r->Ok_0@[i]@) && recipient_contributory(
                r->Ok_0@[i]@,
            ),
        r is Ok ==> forall|i: int, j: int|
            0 <= i < r->Ok_0@.len() && 0 <= j < r->Ok_0@[i]@.len() ==> is_ascii_alphanumeric(
                #[trigger] r->Ok_0@[i]@[j],
            ),
        r matches Err(YageError::RecipientParse { recipient, .. }) ==> exists|i: int|
            0 <= i < recipients@.len() && recipients@[i]@ == recipient@ && !recipient_usable(
                recipients@[i]@,
            ) && forall|k: int| 0 <= k < i ==> recipient_usable(#[trigger] recipients@[k]@),
        r is Err ==> r->Err_0 is RecipientParse,
{
    let mut out: Vec<String> = Vec::new();
    let mut i: usize = 0;
    while i < recipients.len()
        invariant
            i <= recipients@.len(),
            texts(out@) == canonical_texts(texts(recipients@.subrange(0, i as int))),
            forall|k: int| 0 <= k < i ==> recipient_usable(#[trigger] recipients@[k]@),
            forall|k: int|
                0 <= k < out@.len() ==> recipient_parses(#[trigger] out@[k]@) && recipient_contributory(
                    out@[k]@,
                ),
            forall|k: int, j: int|
                0 <= k < out@.len() && 0 <= j < out@[k]@.len() ==> is_ascii_alphanumeric(
                    #[trigger] out@[k]@[j],
                ),
        decreases recipients@.len() - i,
    {
        let text = match parse_recipient(recipients[i].as_str()) {
            Ok(t) => t,
            Err(message) => {
                return Err(
                    YageError::RecipientParse {
                        recipient: recipients[i].clone(),
                        message: message.to_string(),
                    },
                );
            },
        };
        if !is_contributory(text.as_str()) {
            return Err(
                YageError::RecipientParse {
                    recipient: recipients[i].clone(),
                    message: "the key has low order".to_string(),
                },
            );
        }
        let ghost prev = texts(out@);
        out.push(text);
        proof {
            assert(texts(out@) =~= prev.push(recipient_text_of(recipients@[i as int]@)));
            assert(canonical_texts(texts(recipients@.subrange(0, i + 1))) =~= canonical_texts(
                texts(recipients@.subrange(0, i as int)),
            ).push(recipient_text_of(recipients@[i as int]@)));
        }
        i = i + 1;
    }
    proof {
        assert(recipients@.subrange(0, i as int) =~= recipients@);
    }
    Ok(out)
}

proof fn lemma_canonical_encodable(data: Seq<char>, canon: Seq<Seq<char>>, fps: Seq<Seq<char>>)
    requires
        forall|i: int| 0 <= i < data.len() ==> is_base64_char(#[trigger] data[i]),
        same_elements(canon, fps),
        fps.len() > 0,
        forall|i: int, j: int|
            0 <= i < fps.len() && 0 <= j < fps[i].len() ==> is_ascii_alphanumeric(#[trigger] fps[i][j]),
    ensures
        encodable(data, canon),
{
    assert(!data.contains('|')) by {
        if data.contains('|') {
            let k = choose|k: int| 0 <= k < data.len() && data[k] == '|';
            assert(is_base64_char(data[k]));
        }
    }
    assert(fps.contains(fps[0]));
    assert(canon.contains(fps[0]));
    assert forall|i: int| 0 <= i < canon.len() implies !(#[trigger] canon[i]).contains('|')
        && !canon[i].contains(',') by {
        assert(canon.contains(canon[i]));
        assert(fps.contains(canon[i]));
        let m = choose|m: int| 0 <= m < fps.len() && fps[m] == canon[i];
        if canon[i].contains('|') {
            let k = choose|k: int| 0 <= k < canon[i].len() && canon[i][k] == '|';
            assert(is_ascii_alphanumeric(fps[m][k]));
        }
        if canon[i].contains(',') {
            let k = choose|k: int| 0 <= k < canon[i].len() && canon[i][k] == ',';
            assert(is_ascii_alphanumeric(fps[m][k]));
        }
    }
}

/// Encrypts one value to recipients given by the texts that age writes for them, and wraps
/// it in a token.
fn seal_leaf(value: &Document, fingerprints: &Vec<String>) -> (r: Result<String, YageError>)
    requires
        fingerprints@.len() > 0,
        forall|i: int|
            0 <= i < fingerprints@.len() ==> recipient_parses(#[trigger] fingerprints@[i]@)
                && recipient_contributory(fingerprints@[i]@),
        forall|i: int, j: int|
            0 <= i < fingerprints@.len() && 0 <= j < fingerprints@[i]@.len()
                ==> is_ascii_alphanumeric(#[trigger] fingerprints@[i]@[j]),
    ensures
        r is Ok <==> yaml_renders(value@),
        r is Ok ==> sealed_leaf(value@, Doc::Str(r->Ok_0@), texts(fingerprints@)),
        r is Err ==> r->Err_0 is Yaml,
{
    let plain = match yaml_render(value) {
        Ok(p) => p,
        Err(e) => {
            return Err(YageError::Yaml(e));
        },
    };
    let ciphertext = match age_seal(&plain, fingerprints) {
        Ok(c) => c,
        Err(e) => {
            return Err(YageError::Encrypt(e));
        },
    };
    let data = base64_encode(&ciphertext);
    let canon = sorted_unique(fingerprints);
    let token = YageEncodedValue { data, recipients: canon };
    let t = token.to_string();
    proof {
        let fps = texts(fingerprints@);
        assert forall|i: int, j: int|
            0 <= i < fps.len() && 0 <= j < fps[i].len() implies is_ascii_alphanumeric(
            #[trigger] fps[i][j],
        ) by {
            assert(fps[i] == fingerprints@[i]@);
        }
        lemma_canonical_encodable(token.data@, texts(token.recipients@), fps);
        lemma_decode_encode(token.data@, texts(token.recipients@));
    }
    Ok(t)
}

/// Encrypts `value` to the recipients and returns its token, which records the texts that
/// age writes for them.
pub fn encrypt_value(value: &Document, recipients: &Vec<String>) -> (r: Result<String, YageError>)
    ensures
        (r is Err && r->Err_0 is NoRecipients) <==> recipients@.len() == 0,
        (r is Err && r->Err_0 is RecipientParse) <==> (recipients@.len() > 0 && exists|i: int|
            0 <= i < recipients@.len() && !recipient_usable(#[trigger] recipients@[i]@)),
        r is Ok ==> sealed_leaf(value@, Doc::Str(r->Ok_0@), canonical_texts(texts(recipients@))),
        (recipients@.len() > 0 && (forall|i: int|
            0 <= i < recipients@.len() ==> recipient_usable(#[trigger] recipients@[i]@))
            && yaml_renders(value@)) ==> r is Ok,
        r is Err ==> r->Err_0 is NoRecipients || r->Err_0 is RecipientParse || (r->Err_0 is Yaml
            && !yaml_renders(value@)),
{
    if recipients.len() == 0 {
        return Err(YageError::NoRecipients);
    }
    let canon = parse_recipients(recipients)?;
    assert(texts(canon@).len() == recipients@.len());
    seal_leaf(value, &canon)
}

fn encrypt_iter(
    values: &Vec<Document>,
    n: usize,
    fingerprints: &Vec<String>,
    views: Ghost<Seq<Doc>>,
) -> (r: Result<Vec<Document>, YageError>)
    requires
        n <= values@.len(),
        n == views@.len(),
        forall|i: int| 0 <= i < n ==> views@[i] == values@[i]@,
        fingerprints@.len() > 0,
        forall|i: int|
            0 <= i < fingerprints@.len() ==> recipient_parses(#[trigger] fingerprints@[i]@)
                && recipient_contributory(fingerprints@[i]@),
        forall|i: int, j: int|
            0 <= i < fingerprints@.len() && 0 <= j < fingerprints@[i]@.len()
                ==> is_ascii_alphanumeric(#[trigger] fingerprints@[i]@[j]),
    ensures
        r is Ok ==> r->Ok_0@.len() == n && forall|k: int|
            0 <= k < n ==> encrypted_from(views@[k], (#[trigger] r->Ok_0@[k])@, texts(fingerprints@)),
        r is Ok ==> (!exists|k: int| 0 <= k < n && has_sealable(#[trigger] views@[k])) ==> forall|k: int|
            0 <= k < n ==> (#[trigger] r->Ok_0@[k])@ == views@[k],
        r is Ok <==> forall|k: int| 0 <= k < n ==> leaves_render(#[trigger] views@[k]),
        r is Err ==> r->Err_0 is Yaml,
    decreases values, 0nat,
{
    let mut out: Vec<Document> = Vec::new();
    let mut i: usize = 0;
    #[verifier::loop_isolation(false)]
    while i < n
        invariant
            i <= n,
            out@.len() == i,
            forall|k: int|
                0 <= k < i ==> encrypted_from(views@[k], (#[trigger] out@[k])@, texts(fingerprints@)),
            forall|k: int| 0 <= k < i && !has_sealable(views@[k]) ==> (#[trigger] out@[k])@ == views@[k],
            forall|k: int| 0 <= k < i ==> leaves_render(#[trigger] views@[k]),
        decreases n - i,
    {
        match encrypt_tree(&values[i], fingerprints) {
            Ok(e) => {
                out.push(e);
            },
            Err(e) => {
                assert(!leaves_render(views@[i as int]));
                return Err(e);
            },
        }
        i = i + 1;
    }
    Ok(out)
}

fn encrypt_tree(value: &Document, fingerprints: &Vec<String>) -> (r: Result<Document, YageError>)
    requires
        fingerprints@.len() > 0,
        forall|i: int|
            0 <= i < fingerprints@.len() ==> recipient_parses(#[trigger] fingerprints@[i]@)
                && recipient_contributory(fingerprints@[i]@),
        forall|i: int, j: int|
            0 <= i < fingerprints@.len() && 0 <= j < fingerprints@[i]@.len()
                ==> is_ascii_alphanumeric(#[trigger] fingerprints@[i]@[j]),
    ensures
        r is Ok ==> encrypted_from(value@, r->Ok_0@, texts(fingerprints@)),
        !has_sealable(value@) ==> r is Ok && r->Ok_0@ == value@,
        r is Ok <==> leaves_render(value@),
        r is Err ==> r->Err_0 is Yaml,
    decreases value, 1nat,
{
    proof {
        if !has_sealable(value@) {
            lemma_no_sealable_renders(value@);
        }
    }
    match value {
        Document::Sequence(items) => {
            let out = encrypt_iter(items, items.len(), fingerprints, Ghost(value@->List_0))?;
            let r = Document::Sequence(out);
            proof {
                if !has_sealable(value@) {
                    assert(r@->List_0 =~= value@->List_0);
                }
            }
            Ok(r)
        },
        Document::Mapping(ks, vs) => {
            let n = pair_len(ks, vs);
            let out = encrypt_iter(vs, n, fingerprints, Ghost(value@->Dict_1))?;
            let copied = copy_docs(ks, n);
            let r = Document::Mapping(copied, out);
            proof {
                assert(r@->Dict_0 =~= value@->Dict_0);
                if !has_sealable(value@) {
                    assert(r@->Dict_1 =~= value@->Dict_1);
                }
            }
            Ok(r)
        },
        Document::String(s) => {
            if YageEncodedValue::from_str(s.as_str()).is_ok() {
                Ok(Document::String(s.clone()))
            } else {
                let t = seal_leaf(value, fingerprints)?;
                Ok(Document::String(t))
            }
        },
        Document::Number(_) => {
            let t = seal_leaf(value, fingerprints)?;
            Ok(Document::String(t))
        },
        Document::Null => Ok(Document::Null),
        Document::Bool(b) => Ok(Document::Bool(*b)),
        Document::Tagged(t) => Ok(Document::Tagged(t.clone())),
    }
}

/// Encrypts every number and every string that is not already a token, to the recipients,
/// recorded in each token as the texts that age writes for them. Tokens, nulls, booleans
/// and mapping keys are kept.
pub fn encrypt_yaml(value: &Document, recipients: &Vec<String>) -> (r: Result<Document, YageError>)
    ensures
        (r is Err && r->Err_0 is NoRecipients) <==> recipients@.len() == 0,
        (r is Err && r->Err_0 is RecipientParse) <==> (recipients@.len() > 0 && exists|i: int|
            0 <= i < recipients@.len() && !recipient_usable(#[trigger] recipients@[i]@)),
        r is Ok ==> encrypted_from(value@, r->Ok_0@, canonical_texts(texts(recipients@))),
        (recipients@.len() > 0 && forall|i: int|
            0 <= i < recipients@.len() ==> recipient_usable(#[trigger] recipients@[i]@)) ==> ((r is Ok
            <==> leaves_render(value@)) && (!has_sealable(value@) ==> r is Ok && r->Ok_0@ == value@)),
        r is Err ==> r->Err_0 is NoRecipients || r->Err_0 is RecipientParse || (r->Err_0 is Yaml
            && !leaves_render(value@)),
{
    if recipients.len() == 0 {
        return Err(YageError::NoRecipients);
    }
    let canon = parse_recipients(recipients)?;
    assert(texts(canon@).len() == recipients@.len());
    encrypt_tree(value, &canon)
}

/// Checks that each key text parses as a private key. Fails with `KeyParse` on the first
/// that does not.
pub fn check_keys(keys: &Vec<String>) -> (r: Result<(), YageError>)
    ensures
        r is Ok <==> keys_parse(texts(keys@)),
        r is Err ==> r->Err_0 is KeyParse,
{
    let mut i: usize = 0;
    while i < keys.len()
        invariant
            i <= keys@.len(),
            forall|k: int| 0 <= k < i ==> identity_parses(#[trigger] keys@[k]@),
        decreases keys@.len() - i,
    {
        match parse_identity(keys[i].as_str()) {
            Ok(()) => {},
            Err(message) => {
                assert(texts(keys@)[i as int] == keys@[i as int]@);
                return Err(YageError::KeyParse { message: message.to_string() });
            },
        }
        i = i + 1;
    }
    proof {
        assert forall|j: int| 0 <= j < texts(keys@).len() implies identity_parses(#[trigger] texts(keys@)[j]) by {
            assert(texts(keys@)[j] == keys@[j]@);
        }
    }
    Ok(())
}

fn open_value(s: &str, keys: &Vec<String>) -> (r: Result<Document, YageError>)
    requires
        keys_parse(texts(keys@)),
    ensures
        r is Ok <==> (is_token(s@) ==> token_opens(s@, texts(keys@))),
        r is Ok ==> decrypted_from(Doc::Str(s@), r->Ok_0@),
        !is_token(s@) ==> r is Ok && r->Ok_0@ == Doc::Str(s@),
        (match decode_token(s@) {
            Some(v) => match base64_bytes_of(v.0) {
                Some(ct) => !age_opens(ct, texts(keys@)),
                None => false,
            },
            None => false,
        }) ==> r is Err && (r->Err_0 is Decrypt || r->Err_0 is PassphraseUnsupported),
        r is Err && token_well_formed(s@, texts(keys@)) ==> r->Err_0 is Decrypt
            || r->Err_0 is PassphraseUnsupported,
        r is Err ==> r->Err_0 is Decrypt || r->Err_0 is PassphraseUnsupported || r->Err_0 is Base64Decode
            || r->Err_0 is Yaml,
{
    match YageEncodedValue::from_str(s) {
        Ok(token) => {
            let ciphertext = match base64_decode(token.data.as_str()) {
                Ok(c) => c,
                Err(e) => {
                    return Err(YageError::Base64Decode(e));
                },
            };
            proof {
                assert forall|j: int| 0 <= j < keys@.len() implies identity_parses(#[trigger] keys@[j]@) by {
                    assert(texts(keys@)[j] == keys@[j]@);
                }
            }
            let plain = age_open(&ciphertext, keys)?;
            match yaml_parse(&plain) {
                Ok(d) => Ok(d),
                Err(e) => Err(YageError::Yaml(e)),
            }
        },
        Err(_) => {
            let copy = s.to_string();
            Ok(Document::String(copy))
        },
    }
}

/// Decrypts one string with the private keys given as text: a token gives what it holds,
/// any other string is returned as a string document. A key that does not parse fails with
/// `KeyParse`; a token that the keys do not open fails with `Decrypt` (or
/// `PassphraseUnsupported` for a passphrase ciphertext).
pub fn decrypt_value(s: &str, keys: &Vec<String>) -> (r: Result<Document, YageError>)
    ensures
        r is Ok <==> keys_parse(texts(keys@)) && (is_token(s@) ==> token_opens(s@, texts(keys@))),
        r is Ok ==> decrypted_from(Doc::Str(s@), r->Ok_0@),
        keys_parse(texts(keys@)) && !is_token(s@) ==> r is Ok && r->Ok_0@ == Doc::Str(s@),
        (r is Err && r->Err_0 is KeyParse) <==> !keys_parse(texts(keys@)),
        keys_parse(texts(keys@)) && (match decode_token(s@) {
            Some(v) => match base64_bytes_of(v.0) {
                Some(ct) => !age_opens(ct, texts(keys@)),
                None => false,
            },
            None => false,
        }) ==> r is Err && (r->Err_0 is Decrypt || r->Err_0 is PassphraseUnsupported),
        r is Err ==> r->Err_0 is KeyParse || r->Err_0 is Decrypt || r->Err_0 is PassphraseUnsupported
            || r->Err_0 is Base64Decode || r->Err_0 is Yaml,
{
    check_keys(keys)?;
    open_value(s, keys)
}

fn decrypt_iter(values: &Vec<Document>, n: usize, keys: &Vec<String>, views: Ghost<Seq<Doc>>) -> (r:
    Result<Vec<Document>, YageError>)
    requires
        n <= values@.len(),
        n == views@.len(),
        forall|i: int| 0 <= i < n ==> views@[i] == values@[i]@,
        keys_parse(texts(keys@)),
    ensures
        r is Ok ==> r->Ok_0@.len() == n && forall|k: int|
            0 <= k < n ==> decrypted_from(views@[k], (#[trigger] r->Ok_0@[k])@),
        r is Ok ==> (!exists|k: int| 0 <= k < n && has_token(#[trigger] views@[k])) ==> forall|k: int|
            0 <= k < n ==> (#[trigger] r->Ok_0@[k])@ == views@[k],
        r is Ok <==> forall|k: int| 0 <= k < n ==> opens_all(#[trigger] views@[k], texts(keys@)),
        r is Err && (forall|k: int| 0 <= k < n ==> tokens_well_formed(#[trigger] views@[k], texts(keys@)))
            ==> r->Err_0 is Decrypt || r->Err_0 is PassphraseUnsupported,
        r is Err ==> r->Err_0 is Decrypt || r->Err_0 is PassphraseUnsupported || r->Err_0 is Base64Decode
            || r->Err_0 is Yaml,
    decreases values, 0nat,
{
    let mut out: Vec<Document> = Vec::new();
    let mut i: usize = 0;
    #[verifier::loop_isolation(false)]
    while i < n
        invariant
            i <= n,
            out@.len() == i,
            forall|k: int| 0 <= k < i ==> decrypted_from(views@[k], (#[trigger] out@[k])@),
            forall|k: int| 0 <= k < i && !has_token(views@[k]) ==> (#[trigger] out@[k])@ == views@[k],
            forall|k: int| 0 <= k < i ==> opens_all(#[trigger] views@[k], texts(keys@)),
        decreases n - i,
    {
        match decrypt_tree(&values[i], keys) {
            Ok(d) => {
                out.push(d);
            },
            Err(e) => {
                assert(!opens_all(views@[i as int], texts(keys@)));
                assert((forall|k: int| 0 <= k < n ==> tokens_well_formed(#[trigger] views@[k], texts(keys@)))
                    ==> tokens_well_formed(views@[i as int], texts(keys@)));
                return Err(e);
            },
        }
        i = i + 1;
    }
    Ok(out)
}

fn decrypt_tree(value: &Document, keys: &Vec<String>) -> (r: Result<Document, YageError>)
    requires
        keys_parse(texts(keys@)),
    ensures
        r is Ok <==> opens_all(value@, texts(keys@)),
        r is Ok ==> decrypted_from(value@, r->Ok_0@),
        !has_token(value@) ==> r is Ok && r->Ok_0@ == value@,
        r is Err && tokens_well_formed(value@, texts(keys@)) ==> r->Err_0 is Decrypt
            || r->Err_0 is PassphraseUnsupported,
        r is Err ==> r->Err_0 is Decrypt || r->Err_0 is PassphraseUnsupported || r->Err_0 is Base64Decode
            || r->Err_0 is Yaml,
    decreases value, 1nat,
{
    proof {
        if !has_token(value@) {
            lemma_no_token_opens(value@, texts(keys@));
        }
    }
    match value {
        Document::Sequence(items) => {
            let out = decrypt_iter(items, items.len(), keys, Ghost(value@->List_0))?;
            let r = Document::Sequence(out);
            proof {
                if !has_token(value@) {
                    assert(r@->List_0 =~= value@->List_0);
                }
            }
            Ok(r)
        },
        Document::Mapping(ks, vs) => {
            let n = pair_len(ks, vs);
            let out = decrypt_iter(vs, n, keys, Ghost(value@->Dict_1))?;
            let copied = copy_docs(ks, n);
            let r = Document::Mapping(copied, out);
            proof {
                assert(r@->Dict_0 =~= value@->Dict_0);
                if !has_token(value@) {
                    assert(r@->Dict_1 =~= value@->Dict_1);
                }
            }
            Ok(r)
        },
        Document::String(s) => open_value(s.as_str(), keys),
        Document::Number(n) => Ok(Document::Number(n.clone())),
        Document::Null => Ok(Document::Null),
        Document::Bool(b) => Ok(Document::Bool(*b)),
        Document::Tagged(t) => Ok(Document::Tagged(t.clone())),
    }
}

/// Replaces every token of a document by what it holds, opened with the private keys
/// given as text. Other leaves and mapping keys are kept. It succeeds exactly when every
/// key parses and the keys open every token to a YAML text; a key that does not parse
/// fails with `KeyParse`, and where every token is well formed, a token that the keys do
/// not open fails with `Decrypt` (or `PassphraseUnsupported` for a passphrase ciphertext).
pub fn decrypt_yaml(value: &Document, keys: &Vec<String>) -> (r: Result<Document, YageError>)
    ensures
        r is Ok <==> keys_parse(texts(keys@)) && opens_all(value@, texts(keys@)),
        r is Ok ==> decrypted_from(value@, r->Ok_0@),
        keys_parse(texts(keys@)) && !has_token(value@) ==> r is Ok && r->Ok_0@ == value@,
        (r is Err && r->Err_0 is KeyParse) <==> !keys_parse(texts(keys@)),
        keys_parse(texts(keys@)) && tokens_well_formed(value@, texts(keys@)) && !opens_all(
            value@,
            texts(keys@),
        ) ==> r is Err && (r->Err_0 is Decrypt || r->Err_0 is PassphraseUnsupported),
        r is Err ==> r->Err_0 is KeyParse || r->Err_0 is Decrypt || r->Err_0 is PassphraseUnsupported
            || r->Err_0 is Base64Decode || r->Err_0 is Yaml,
{
    check_keys(keys)?;
    decrypt_tree(value, keys)
}

/// Encrypting an encrypted document again changes nothing: whatever `encrypt_yaml`
/// returns for `d`, encrypting that result to the same recipients returns it unchanged.
pub proof fn lemma_encrypt_idempotent(d: Doc, e: Doc, e2: Doc, fps: Seq<Seq<char>>)
    requires
        encrypted_from(d, e, fps),
        encrypted_from(e, e2, fps),
    ensures
        e2 == e,
    decreases d,
{
    match d {
        Doc::List(items) => {
            let es = e->List_0;
            let e2s = e2->List_0;
            assert forall|k: int| 0 <= k < es.len() implies e2s[k] == es[k] by {
                lemma_encrypt_idempotent(items[k], es[k], e2s[k], fps);
            }
            assert(e2s =~= es);
        },
        Doc::Dict(keys, values) => {
            let es = e->Dict_1;
            let e2s = e2->Dict_1;
            assert forall|k: int| 0 <= k < es.len() implies e2s[k] == es[k] by {
                lemma_encrypt_idempotent(values[k], es[k], e2s[k], fps);
            }
            assert(e2s =~= es);
        },
        _ => {
            if is_sealable(d) {
                assert(is_token(e->Str_0));
            }
        },
    }
}

/// `serde_yaml` reads back each number and each string of `d` that is not a token from
/// the text it writes for it.
pub open spec fn yaml_round_trips(d: Doc) -> bool
    decreases d,
{
    match d {
        Doc::List(items) => forall|k: int| 0 <= k < items.len() ==> yaml_round_trips(#[trigger] items[k]),
        Doc::Dict(_, values) => forall|k: int|
            0 <= k < values.len() ==> yaml_round_trips(#[trigger] values[k]),
        _ => is_sealable(d) ==> yaml_value_of(yaml_bytes_of(d)) == Some(d),
    }
}

/// Decrypting what encryption made gives the document back. A document without tokens,
/// encrypted by `encrypt_yaml`, then decrypted by `decrypt_yaml` (which succeeds when an
/// identity matches one of the recipients), is the document it started from, provided
/// that `serde_yaml` reads its own text of a scalar back as that scalar.
pub proof fn lemma_round_trip(d: Doc, e: Doc, r: Doc, fps: Seq<Seq<char>>)
    requires
        !has_token(d),
        encrypted_from(d, e, fps),
        decrypted_from(e, r),
        yaml_round_trips(d),
    ensures
        r == d,
    decreases d,
{
    match d {
        Doc::List(items) => {
            let es = e->List_0;
            let rs = r->List_0;
            assert forall|k: int| 0 <= k < items.len() implies rs[k] == items[k] by {
                if has_token(items[k]) {
                    assert(has_token(d));
                }
                lemma_round_trip(items[k], es[k], rs[k], fps);
            }
            assert(rs =~= items);
        },
        Doc::Dict(keys, values) => {
            let es = e->Dict_1;
            let rs = r->Dict_1;
            assert forall|k: int| 0 <= k < values.len() implies rs[k] == values[k] by {
                if has_token(values[k]) {
                    assert(has_token(d));
                }
                lemma_round_trip(values[k], es[k], rs[k], fps);
            }
            assert(rs =~= values);
        },
        _ => {
            if is_sealable(d) {
                let s = e->Str_0;
                assert(is_token(s));
            }
        },
    }
}

/// Decryption succeeds on what encryption made. A document without tokens, encrypted by
/// `encrypt_yaml` to some recipients, is opened by every key set whose keys parse and one
/// of which is the private key of one of those recipients, provided that `serde_yaml` reads
/// its own text of a scalar back; so `decrypt_yaml` returns `Ok` there.
pub proof fn lemma_decrypt_succeeds(d: Doc, e: Doc, fps: Seq<Seq<char>>, keys: Seq<Seq<char>>)
    requires
        !has_token(d),
        encrypted_from(d, e, fps),
        yaml_round_trips(d),
        keys_match(keys, fps),
    ensures
        opens_all(e, keys),
    decreases d,
{
    match d {
        Doc::List(items) => {
            assert forall|k: int| 0 <= k < items.len() implies opens_all(#[trigger] e->List_0[k], keys) by {
                if has_token(items[k]) {
                    assert(has_token(d));
                }
                lemma_decrypt_succeeds(items[k], e->List_0[k], fps, keys);
            }
        },
        Doc::Dict(_, values) => {
            assert forall|k: int| 0 <= k < values.len() implies opens_all(#[trigger] e->Dict_1[k], keys) by {
                if has_token(values[k]) {
                    assert(has_token(d));
                }
                lemma_decrypt_succeeds(values[k], e->Dict_1[k], fps, keys);
            }
        },
        _ => {
            if is_sealable(d) {
                let s = e->Str_0;
                let v = decode_token(s)->Some_0;
                let ct = base64_bytes_of(v.0)->Some_0;
                assert(opens_for(ct, fps));
                assert(age_opens(ct, keys));
                assert(token_opens(s, keys));
            }
        },
    }
}

} // verus!
