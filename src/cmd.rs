use crate::cli::{DecryptArgs, EncryptArgs, ReEncryptArgs};
use crate::merge::{merge_doc, merge_for_edit};
use crate::document::{Doc, Document};
use crate::engine::{
    canonical_texts, check_keys, decrypt_yaml, decrypted_from, encrypt_yaml, encrypted_from,
    has_token, keys_parse, leaves_render, opens_all, parse_recipients, recipient_usable,
    tokens_well_formed,
};
use crate::error::YageError;
use crate::provider::{
    identity_parses, parse_recipient, public_key_of, public_key_text, recipient_parses,
    recipient_text_of,
};
use crate::recipients::{
    canonical_recipients, check_recipients, get_yaml_recipients, recipient_listed,
    recipients_consistent, recorded_recipient,
};
use crate::status::{check_encrypted, status_of, EncryptionStatus};
use crate::text::{contains_text, same_elements, same_texts, sorted_unique, strictly_sorted, texts};
use vstd::prelude::*;
use vstd::string::StrSliceExecFns;

verus! {

/// The path `-`, which stands for standard input or output.
pub open spec fn is_stdio(p: Seq<char>) -> bool {
    p == seq!['-']
}

/// Whether one of the files is standard input.
pub open spec fn names_stdin(files: Seq<String>) -> bool {
    exists|i: int| 0 <= i < files.len() && is_stdio(#[trigger] files[i]@)
}

/// Whether a path is `-`.
pub fn is_stdio_path(p: &String) -> (r: bool)
    ensures
        r == is_stdio(p@),
{
    let s = p.as_str();
    let r = s.unicode_len() == 1 && s.get_char(0) == '-';
    proof {
        if r {
            assert(p@ =~= seq!['-']);
        }
    }
    r
}

/// Checks the input files of a command: writing in place is refused for standard input,
/// and without it exactly one file is allowed where `single` holds.
pub fn check_file_args(in_place: bool, files: &Vec<String>, single: bool) -> (r: Result<(), YageError>)
    ensures
        in_place && names_stdin(files@) ==> r is Err && r->Err_0 is InPlaceStdin,
        !(in_place && names_stdin(files@)) && single && !in_place && files@.len() != 1 ==> r is Err
            && r->Err_0 is InvalidNumberOfInputFiles,
        !(in_place && names_stdin(files@)) && !(single && !in_place && files@.len() != 1) ==> r is Ok,
{
    if in_place {
        let mut i: usize = 0;
        #[verifier::loop_isolation(false)]
        while i < files.len()
            invariant
                i <= files@.len(),
                forall|k: int| 0 <= k < i ==> !is_stdio(#[trigger] files@[k]@),
            decreases files@.len() - i,
        {
            if is_stdio_path(&files[i]) {
                assert(is_stdio(files@[i as int]@));
                assert(names_stdin(files@));
                return Err(YageError::InPlaceStdin);
            }
            i = i + 1;
        }
    }
    if single && !in_place && files.len() != 1 {
        return Err(YageError::InvalidNumberOfInputFiles);
    }
    Ok(())
}

/// What checking one document found.
pub struct CheckOutcome {
    pub consistent: bool,
    pub status: EncryptionStatus,
}

/// Checks one document: whether its recipients are consistent, and its status.
pub fn check_document(doc: &Document) -> (r: CheckOutcome)
    ensures
        r.consistent == recipients_consistent(doc@),
        r.status == status_of(doc@),
{
    CheckOutcome { consistent: check_recipients(doc), status: check_encrypted(doc) }
}

/// A document passes the check when its recipients are consistent and it is fully
/// encrypted or holds no value.
pub open spec fn passes_check(d: Doc) -> bool {
    recipients_consistent(d) && (status_of(d) is Encrypted || status_of(d) is NoValue)
}

/// The exit code of `check`: 0 when every document passes, 1 otherwise.
pub fn check(docs: &Vec<Document>) -> (r: i32)
    ensures
        r == 0 <==> forall|i: int| 0 <= i < docs@.len() ==> passes_check(#[trigger] docs@[i]@),
        r == 0 || r == 1,
{
    let mut ok = true;
    let mut i: usize = 0;
    while i < docs.len()
        invariant
            i <= docs@.len(),
            ok <==> forall|k: int| 0 <= k < i ==> passes_check(#[trigger] docs@[k]@),
        decreases docs@.len() - i,
    {
        let outcome = check_document(&docs[i]);
        let passed = outcome.consistent && match outcome.status {
            EncryptionStatus::Encrypted | EncryptionStatus::NoValue => true,
            _ => false,
        };
        if !passed {
            ok = false;
        }
        i = i + 1;
    }
    if ok {
        0
    } else {
        1
    }
}

/// Checks private keys given as text and returns them. Fails with `KeyParse` on the first
/// that does not parse.
pub fn load_identities(keys: &Vec<String>) -> (r: Result<Vec<String>, YageError>)
    ensures
        r is Ok <==> keys_parse(texts(keys@)),
        r is Ok ==> texts(r->Ok_0@) == texts(keys@),
        r is Err ==> r->Err_0 is KeyParse,
{
    check_keys(keys)?;
    Ok(copy_texts(keys))
}

/// Checks that each recipient parses as a public key, and returns the texts that age
/// writes for them, sorted, each once. Fails with `RecipientParse` on the first that does
/// not parse.
pub fn load_recipients(recipients: &Vec<String>) -> (r: Result<Vec<String>, YageError>)
    ensures
        r is Ok <==> forall|i: int|
            0 <= i < recipients@.len() ==> recipient_parses(#[trigger] recipients@[i]@),
        r is Ok ==> strictly_sorted(texts(r->Ok_0@)) && same_elements(
            texts(r->Ok_0@),
            canonical_texts(texts(recipients@)),
        ),
        r matches Err(YageError::RecipientParse { recipient, .. }) ==> exists|i: int|
            0 <= i < recipients@.len() && recipients@[i]@ == recipient@ && !recipient_parses(
                recipients@[i]@,
            ) && forall|k: int| 0 <= k < i ==> recipient_parses(#[trigger] recipients@[k]@),
        r is Err ==> r->Err_0 is RecipientParse,
{
    let mut canon: Vec<String> = Vec::new();
    let mut i: usize = 0;
    while i < recipients.len()
        invariant
            i <= recipients@.len(),
            texts(canon@) == canonical_texts(texts(recipients@.subrange(0, i as int))),
            forall|k: int| 0 <= k < i ==> recipient_parses(#[trigger] recipients@[k]@),
        decreases recipients@.len() - i,
    {
        let text = match parse_recipient(recipients[i].as_str()) {
            Ok(t) => t,
            Err(message) => {
                return Err(
                    YageError::RecipientParse {
                        recipient: recipients[i].clone(),
                        message: message.to_string(),
                    },
                );
            },
        };
        let ghost prev = texts(canon@);
        canon.push(text);
        proof {
            assert(texts(canon@) =~= prev.push(recipient_text_of(recipients@[i as int]@)));
            assert(canonical_texts(texts(recipients@.subrange(0, i + 1))) =~= canonical_texts(
                texts(recipients@.subrange(0, i as int)),
            ).push(recipient_text_of(recipients@[i as int]@)));
        }
        i = i + 1;
    }
    proof {
        assert(recipients@.subrange(0, i as int) =~= recipients@);
    }
    Ok(sorted_unique(&canon))
}

/// The public keys of the private keys given as text, in the same order. Fails with
/// `KeyParse` where a key does not parse.
pub fn pubkey(keys: &Vec<String>) -> (r: Result<Vec<String>, YageError>)
    ensures
        r is Ok <==> keys_parse(texts(keys@)),
        r is Ok ==> r->Ok_0@.len() == keys@.len() && forall|i: int|
            0 <= i < keys@.len() ==> (#[trigger] r->Ok_0@[i])@ == public_key_of(keys@[i]@),
        r is Err ==> r->Err_0 is KeyParse,
{
    check_keys(keys)?;
    let mut out: Vec<String> = Vec::new();
    let mut i: usize = 0;
    while i < keys.len()
        invariant
            i <= keys@.len(),
            out@.len() == i,
            keys_parse(texts(keys@)),
            forall|k: int| 0 <= k < i ==> (#[trigger] out@[k])@ == public_key_of(keys@[k]@),
        decreases keys@.len() - i,
    {
        assert(texts(keys@)[i as int] == keys@[i as int]@);
        out.push(public_key_text(keys[i].as_str()));
        i = i + 1;
    }
    Ok(out)
}

/// The command's file arguments are acceptable: no standard input when writing in place,
/// and exactly one file otherwise.
pub open spec fn single_file_args(in_place: bool, files: Seq<String>) -> bool {
    !(in_place && names_stdin(files)) && !(!in_place && files.len() != 1)
}

/// Decrypts each input document with the private keys given as text, after checking the
/// command's file arguments. It succeeds exactly when the arguments are acceptable, every
/// key parses, and the keys open every token of every document; otherwise the error comes
/// from the first document that the keys do not open.
pub fn decrypt(args: &DecryptArgs, inputs: &Vec<Document>, keys: &Vec<String>) -> (r: Result<
    Vec<Document>,
    YageError,
>)
    ensures
        args.in_place && names_stdin(args.files@) ==> r is Err && r->Err_0 is InPlaceStdin,
        !(args.in_place && names_stdin(args.files@)) && !args.in_place && args.files@.len() != 1
            ==> r is Err && r->Err_0 is InvalidNumberOfInputFiles,
        single_file_args(args.in_place, args.files@) ==> ((r is Ok) <==> (keys_parse(texts(keys@))
            && forall|i: int| 0 <= i < inputs@.len() ==> opens_all(#[trigger] inputs@[i]@, texts(keys@)))),
        r is Ok ==> r->Ok_0@.len() == inputs@.len() && forall|i: int|
            0 <= i < inputs@.len() ==> decrypted_from(inputs@[i]@, #[trigger] r->Ok_0@[i]@),
        single_file_args(args.in_place, args.files@) && keys_parse(texts(keys@)) && (forall|i: int|
            0 <= i < inputs@.len() ==> !has_token(#[trigger] inputs@[i]@)) ==> r is Ok && forall|i: int|
            0 <= i < inputs@.len() ==> (#[trigger] r->Ok_0@[i])@ == inputs@[i]@,
        single_file_args(args.in_place, args.files@) && keys_parse(texts(keys@)) && r is Err
            ==> exists|i: int|
            0 <= i < inputs@.len() && !opens_all(#[trigger] inputs@[i]@, texts(keys@)) && forall|k: int|
                0 <= k < i ==> opens_all(#[trigger] inputs@[k]@, texts(keys@)),
        single_file_args(args.in_place, args.files@) && keys_parse(texts(keys@)) && r is Err && (forall|
            i: int,
        | 0 <= i < inputs@.len() ==> tokens_well_formed(#[trigger] inputs@[i]@, texts(keys@)))
            ==> r->Err_0 is Decrypt || r->Err_0 is PassphraseUnsupported,
{
    check_file_args(args.in_place, &args.files, true)?;
    check_keys(keys)?;
    let mut out: Vec<Document> = Vec::new();
    let mut i: usize = 0;
    #[verifier::loop_isolation(false)]
    while i < inputs.len()
        invariant
            i <= inputs@.len(),
            out@.len() == i,
            forall|k: int| 0 <= k < i ==> decrypted_from(inputs@[k]@, #[trigger] out@[k]@),
            forall|k: int| 0 <= k < i && !has_token(inputs@[k]@) ==> (#[trigger] out@[k])@ == inputs@[k]@,
            forall|k: int| 0 <= k < i ==> opens_all(#[trigger] inputs@[k]@, texts(keys@)),
        decreases inputs@.len() - i,
    {
        match decrypt_yaml(&inputs[i], keys) {
            Ok(d) => {
                out.push(d);
            },
            Err(e) => {
                assert(!opens_all(inputs@[i as int]@, texts(keys@)));
                assert((forall|j: int| 0 <= j < inputs@.len() ==> tokens_well_formed(#[trigger] inputs@[j]@, texts(keys@)))
                    ==> tokens_well_formed(inputs@[i as int]@, texts(keys@)));
                return Err(e);
            },
        }
        i = i + 1;
    }
    Ok(out)
}

/// The recipients to encrypt a document to: those given, or those recorded in the
/// document when none are given. Given and recorded recipients that differ fail with
/// `InvalidRecipients`.
pub fn choose_recipients(given: &Vec<String>, recorded: &Vec<String>) -> (r: Result<
    Vec<String>,
    YageError,
>)
    ensures
        given@.len() == 0 ==> r is Ok && texts(r->Ok_0@) == texts(recorded@),
        given@.len() > 0 && (recorded@.len() == 0 || same_elements(texts(given@), texts(recorded@)))
            ==> r is Ok && texts(r->Ok_0@) == texts(given@),
        given@.len() > 0 && recorded@.len() > 0 && !same_elements(texts(given@), texts(recorded@))
            ==> r is Err && r->Err_0 is InvalidRecipients,
{
    if given.len() == 0 {
        Ok(copy_texts(recorded))
    } else if recorded.len() == 0 || same_texts(given, recorded) {
        Ok(copy_texts(given))
    } else {
        Err(YageError::InvalidRecipients)
    }
}

fn copy_texts(v: &Vec<String>) -> (r: Vec<String>)
    ensures
        texts(r@) == texts(v@),
{
    let mut out: Vec<String> = Vec::new();
    let mut i: usize = 0;
    while i < v.len()
        invariant
            i <= v@.len(),
            texts(out@) == texts(v@.subrange(0, i as int)),
        decreases v@.len() - i,
    {
        let ghost prev = texts(out@);
        out.push(v[i].clone());
        proof {
            assert(texts(out@) =~= prev.push(v@[i as int]@));
            assert(texts(v@.subrange(0, i + 1)) =~= texts(v@.subrange(0, i as int)).push(v@[i as int]@));
        }
        i = i + 1;
    }
    proof {
        assert(v@.subrange(0, i as int) =~= v@);
    }
    out
}

/// `e` is `d` encrypted to the given recipients or, when none are given, to those that
/// `d` records, each as the text that age writes for it.
pub open spec fn encrypted_to_chosen(d: Doc, e: Doc, given: Seq<Seq<char>>) -> bool {
    exists|q: Seq<Seq<char>>|
        #[trigger] encrypted_from(d, e, canonical_texts(q)) && (given.len() > 0 ==> q == given)
            && (given.len() == 0 ==> forall|x: Seq<char>| q.contains(x) <==> recorded_recipient(d, x))
}

/// Whether no token of `d` records a recipient.
pub open spec fn records_none(d: Doc) -> bool {
    forall|x: Seq<char>| !#[trigger] recorded_recipient(d, x)
}

/// `encrypt` can encrypt `d`: the recipients it records parse; given recipients can be
/// encrypted to and agree with the recorded ones, if any; without given recipients, `d`
/// records some, all of which can be encrypted to; and every leaf to encrypt can be
/// written as YAML.
pub open spec fn encryptable(given: Seq<Seq<char>>, d: Doc) -> bool {
    &&& forall|x: Seq<char>| #[trigger] recipient_listed(d, x) ==> recipient_parses(x)
    &&& given.len() > 0 ==> (forall|i: int| 0 <= i < given.len() ==> recipient_usable(#[trigger] given[i]))
        && (records_none(d) || same_elements(given, canonical_recipients(d)))
    &&& given.len() == 0 ==> !records_none(d) && forall|x: Seq<char>|
        #[trigger] recorded_recipient(d, x) ==> recipient_usable(x)
    &&& leaves_render(d)
}

/// The recipients that `d` records all parse.
pub open spec fn recorded_parse(d: Doc) -> bool {
    forall|x: Seq<char>| #[trigger] recipient_listed(d, x) ==> recipient_parses(x)
}

/// Recipients are given, and `d` records others.
pub open spec fn mismatched(given: Seq<Seq<char>>, d: Doc) -> bool {
    recorded_parse(d) && given.len() > 0 && !records_none(d) && !same_elements(
        given,
        canonical_recipients(d),
    )
}

/// No recipient is given, and `d` records none.
pub open spec fn unaddressed(given: Seq<Seq<char>>, d: Doc) -> bool {
    recorded_parse(d) && given.len() == 0 && records_none(d)
}

/// Every document before index `i` is encryptable.
pub open spec fn encryptable_before(given: Seq<Seq<char>>, inputs: Seq<Document>, i: int) -> bool {
    forall|k: int| 0 <= k < i ==> encryptable(given, #[trigger] inputs[k]@)
}

/// Encrypts each input document, after checking that no input is standard input when
/// writing in place. Each is encrypted to the given recipients, or to those it records
/// when none are given. It succeeds where every document is encryptable; given and
/// recorded recipients that differ fail with `InvalidRecipients`, and a document with
/// neither fails with `NoRecipients`.
pub fn encrypt(args: &EncryptArgs, inputs: &Vec<Document>, recipients: &Vec<String>) -> (r: Result<
    Vec<Document>,
    YageError,
>)
    ensures
        args.in_place && names_stdin(args.files@) ==> r is Err && r->Err_0 is InPlaceStdin,
        r is Ok ==> r->Ok_0@.len() == inputs@.len() && forall|i: int|
            0 <= i < inputs@.len() ==> encrypted_to_chosen(
                inputs@[i]@,
                #[trigger] r->Ok_0@[i]@,
                texts(recipients@),
            ),
        !(args.in_place && names_stdin(args.files@)) && (forall|i: int|
            0 <= i < inputs@.len() ==> encryptable(texts(recipients@), #[trigger] inputs@[i]@)) ==> r is Ok,
        !(args.in_place && names_stdin(args.files@)) ==> forall|i: int|
            0 <= i < inputs@.len() && encryptable_before(texts(recipients@), inputs@, i) && mismatched(
                texts(recipients@),
                #[trigger] inputs@[i]@,
            ) ==> r is Err && r->Err_0 is InvalidRecipients,
        !(args.in_place && names_stdin(args.files@)) ==> forall|i: int|
            0 <= i < inputs@.len() && encryptable_before(texts(recipients@), inputs@, i) && unaddressed(
                texts(recipients@),
                #[trigger] inputs@[i]@,
            ) ==> r is Err && r->Err_0 is NoRecipients,
        r matches Err(YageError::InvalidRecipients) ==> recipients@.len() > 0 && exists|i: int|
            0 <= i < inputs@.len() && !records_none(#[trigger] inputs@[i]@) && !same_elements(
                texts(recipients@),
                canonical_recipients(inputs@[i]@),
            ),
        r matches Err(YageError::NoRecipients) ==> recipients@.len() == 0 && exists|i: int|
            0 <= i < inputs@.len() && records_none(#[trigger] inputs@[i]@),
{
    check_file_args(args.in_place, &args.files, false)?;
    let ghost given = texts(recipients@);
    let mut out: Vec<Document> = Vec::new();
    let mut i: usize = 0;
    #[verifier::loop_isolation(false)]
    while i < inputs.len()
        invariant
            i <= inputs@.len(),
            out@.len() == i,
            forall|k: int|
                0 <= k < i ==> encrypted_to_chosen(inputs@[k]@, #[trigger] out@[k]@, given),
            forall|k: int|
                0 <= k < i ==> !mismatched(given, #[trigger] inputs@[k]@) && !unaddressed(
                    given,
                    inputs@[k]@,
                ),
        decreases inputs@.len() - i,
    {
        let ghost d = inputs@[i as int]@;
        let recorded = match get_yaml_recipients(&inputs[i]) {
            Ok(v) => v,
            Err(e) => {
                assert(!encryptable(given, d));
                assert(!recorded_parse(d));
                proof {
                    assert forall|j: int|
                        0 <= j < inputs@.len() && encryptable_before(given, inputs@, j) && (mismatched(
                            given,
                            #[trigger] inputs@[j]@,
                        ) || unaddressed(given, inputs@[j]@)) implies j == i by {
                        if j > i {
                            assert(encryptable(given, inputs@[i as int]@));
                        }
                    }
                }
                return Err(e);
            },
        };
        proof {
            assert(recorded@.len() == 0 <==> records_none(d)) by {
                if recorded@.len() > 0 {
                    assert(texts(recorded@)[0] == recorded@[0]@);
                    assert(texts(recorded@).contains(recorded@[0]@));
                    assert(recorded_recipient(d, recorded@[0]@));
                } else {
                    assert forall|x: Seq<char>| !#[trigger] recorded_recipient(d, x) by {
                        assert(!texts(recorded@).contains(x));
                    }
                }
            }
            assert(same_elements(given, texts(recorded@)) <==> same_elements(
                given,
                canonical_recipients(d),
            )) by {
                assert forall|x: Seq<char>| texts(recorded@).contains(x) <==> canonical_recipients(
                    d,
                ).contains(x) by {
                    assert(texts(recorded@).contains(x) <==> recorded_recipient(d, x));
                }
            }
        }
        let chosen = match choose_recipients(recipients, &recorded) {
            Ok(c) => c,
            Err(e) => {
                assert(!encryptable(given, d));
                assert(!records_none(d));
                assert(!unaddressed(given, d));
                proof {
                    assert forall|j: int|
                        0 <= j < inputs@.len() && encryptable_before(given, inputs@, j) && (mismatched(
                            given,
                            #[trigger] inputs@[j]@,
                        ) || unaddressed(given, inputs@[j]@)) implies j == i by {
                        if j > i {
                            assert(encryptable(given, inputs@[i as int]@));
                        }
                    }
                }
                return Err(e);
            },
        };
        proof {
            if encryptable(given, d) {
                assert(chosen@.len() > 0) by {
                    if given.len() == 0 {
                        assert(recorded@.len() > 0);
                        assert(texts(chosen@).len() == texts(recorded@).len());
                    } else {
                        assert(texts(chosen@).len() == given.len());
                    }
                }
                assert forall|k: int| 0 <= k < chosen@.len() implies recipient_usable(
                    #[trigger] chosen@[k]@,
                ) by {
                    assert(texts(chosen@)[k] == chosen@[k]@);
                    if given.len() == 0 {
                        assert(texts(recorded@).contains(chosen@[k]@));
                        assert(recorded_recipient(d, chosen@[k]@));
                    } else {
                        assert(given[k] == chosen@[k]@);
                    }
                }
            }
        }
        let e = match encrypt_yaml(&inputs[i], &chosen) {
            Ok(e) => e,
            Err(err) => {
                assert(!encryptable(given, d));
                proof {
                    if err is NoRecipients {
                        assert(texts(chosen@).len() == 0);
                        if given.len() > 0 {
                            assert(texts(chosen@) == given);
                        }
                        assert(recorded@.len() == 0);
                    }
                    if unaddressed(given, d) {
                        assert(recorded@.len() == 0);
                        assert(texts(chosen@) == texts(recorded@));
                        assert(texts(chosen@).len() == 0);
                    }
                    assert(!mismatched(given, d));
                }
                proof {
                    assert forall|j: int|
                        0 <= j < inputs@.len() && encryptable_before(given, inputs@, j) && (mismatched(
                            given,
                            #[trigger] inputs@[j]@,
                        ) || unaddressed(given, inputs@[j]@)) implies j == i by {
                        if j > i {
                            assert(encryptable(given, inputs@[i as int]@));
                        }
                    }
                }
                return Err(err);
            },
        };
        proof {
            let q = texts(chosen@);
            assert(encrypted_from(d, e@, canonical_texts(q)));
            assert(!mismatched(given, d));
            if unaddressed(given, d) {
                assert(texts(chosen@) == texts(recorded@));
                assert(texts(chosen@).len() == 0);
            }
            if given.len() == 0 {
                assert forall|x: Seq<char>| q.contains(x) <==> recorded_recipient(d, x) by {
                    assert(texts(recorded@).contains(x) <==> recorded_recipient(d, x));
                }
            }
            assert(encrypted_to_chosen(d, e@, given));
        }
        let ghost prev = out@;
        out.push(e);
        proof {
            assert forall|k: int| 0 <= k < i + 1 implies encrypted_to_chosen(
                inputs@[k]@,
                #[trigger] out@[k]@,
                given,
            ) by {
                if k < i {
                    assert(out@[k] == prev[k]);
                }
            }
        }
        i = i + 1;
    }
    Ok(out)
}

/// The recipients for re-encryption: those given and those recorded, sorted, each once,
/// without the removed ones.
pub fn re_encryption_recipients(given: &Vec<String>, recorded: &Vec<String>, removed: &Vec<String>) -> (r:
    Vec<String>)
    ensures
        strictly_sorted(texts(r@)),
        forall|x: Seq<char>|
            #[trigger] texts(r@).contains(x) <==> ((texts(given@).contains(x) || texts(recorded@).contains(x))
                && !texts(removed@).contains(x)),
{
    let mut all = copy_texts(given);
    let mut i: usize = 0;
    proof {
        assert(texts(recorded@.subrange(0, 0)) =~= Seq::<Seq<char>>::empty());
        assert(texts(all@) =~= texts(given@) + texts(recorded@.subrange(0, 0)));
    }
    while i < recorded.len()
        invariant
            i <= recorded@.len(),
            texts(all@) == texts(given@) + texts(recorded@.subrange(0, i as int)),
        decreases recorded@.len() - i,
    {
        let ghost prev = texts(all@);
        all.push(recorded[i].clone());
        proof {
            assert(texts(all@) =~= prev.push(recorded@[i as int]@));
            assert(texts(recorded@.subrange(0, i + 1)) =~= texts(recorded@.subrange(0, i as int)).push(
                recorded@[i as int]@,
            ));
        }
        i = i + 1;
    }
    proof {
        assert(recorded@.subrange(0, i as int) =~= recorded@);
    }
    let kept = without(&all, removed);
    let r = sorted_unique(&kept);
    proof {
        assert forall|x: Seq<char>| texts(all@).contains(x) <==> (texts(given@).contains(x)
            || texts(recorded@).contains(x)) by {
            let g = texts(given@);
            let c = texts(recorded@);
            assert(texts(all@) == g + c);
            if (g + c).contains(x) {
                let m = choose|m: int| 0 <= m < (g + c).len() && (g + c)[m] == x;
                if m < g.len() {
                    assert(g[m] == x);
                } else {
                    assert(c[m - g.len()] == x);
                }
            }
            if g.contains(x) {
                let m = choose|m: int| 0 <= m < g.len() && g[m] == x;
                assert((g + c)[m] == x);
            }
            if c.contains(x) {
                let m = choose|m: int| 0 <= m < c.len() && c[m] == x;
                assert((g + c)[m + g.len()] == x);
            }
        }
    }
    r
}

/// The texts of `v` that `removed` does not hold, in order.
fn without(v: &Vec<String>, removed: &Vec<String>) -> (r: Vec<String>)
    ensures
        forall|x: Seq<char>|
            #[trigger] texts(r@).contains(x) <==> (texts(v@).contains(x) && !texts(removed@).contains(x)),
{
    let mut out: Vec<String> = Vec::new();
    let mut i: usize = 0;
    while i < v.len()
        invariant
            i <= v@.len(),
            forall|x: Seq<char>|
                #[trigger] texts(out@).contains(x) <==> (texts(v@.subrange(0, i as int)).contains(x)
                    && !texts(removed@).contains(x)),
        decreases v@.len() - i,
    {
        let ghost prev = texts(out@);
        let ghost done = texts(v@.subrange(0, i as int));
        let ghost next = texts(v@.subrange(0, i + 1));
        proof {
            assert(next =~= done.push(v@[i as int]@));
        }
        if !contains_text(removed, &v[i]) {
            out.push(v[i].clone());
            proof {
                assert(texts(out@) =~= prev.push(v@[i as int]@));
            }
        }
        proof {
            assert forall|x: Seq<char>|
                #[trigger] texts(out@).contains(x) <==> (next.contains(x) && !texts(removed@).contains(x)) by {
                if next.contains(x) && !done.contains(x) {
                    let m = choose|m: int| 0 <= m < next.len() && next[m] == x;
                    assert(m == done.len());
                }
                if done.contains(x) {
                    let m = choose|m: int| 0 <= m < done.len() && done[m] == x;
                    assert(next[m] == x);
                }
                if texts(out@).contains(x) && !prev.contains(x) {
                    let m = choose|m: int| 0 <= m < texts(out@).len() && texts(out@)[m] == x;
                    assert(m == prev.len());
                    assert(next[done.len() as int] == x);
                }
                if prev.contains(x) {
                    let m = choose|m: int| 0 <= m < prev.len() && prev[m] == x;
                    assert(texts(out@)[m] == x);
                }
                if next.contains(x) && !texts(removed@).contains(x) && !done.contains(x) {
                    assert(texts(out@)[prev.len() as int] == x);
                }
            }
        }
        i = i + 1;
    }
    proof {
        assert(v@.subrange(0, i as int) =~= v@);
    }
    out
}

/// Whether `x` is one of the recipients that `re_encrypt` encrypts `d` to: a given one or,
/// when they are kept, one recorded in `d`, and not a removed one.
pub open spec fn re_encryption_member(
    x: Seq<char>,
    given: Seq<Seq<char>>,
    keep: bool,
    d: Doc,
    removed: Seq<Seq<char>>,
) -> bool {
    (given.contains(x) || (keep && recorded_recipient(d, x))) && !removed.contains(x)
}

/// Whether `re_encrypt` has no recipient to encrypt `d` to.
pub open spec fn re_encryption_none(
    given: Seq<Seq<char>>,
    keep: bool,
    d: Doc,
    removed: Seq<Seq<char>>,
) -> bool {
    forall|x: Seq<char>| !#[trigger] re_encryption_member(x, given, keep, d, removed)
}

/// Whether `rs` holds exactly the recipients that `re_encrypt` encrypts `d` to.
pub open spec fn re_encryption_set(
    rs: Seq<Seq<char>>,
    given: Seq<Seq<char>>,
    keep: bool,
    d: Doc,
    removed: Seq<Seq<char>>,
) -> bool {
    forall|x: Seq<char>| #[trigger] rs.contains(x) <==> re_encryption_member(x, given, keep, d, removed)
}

/// `e` is `d` decrypted, then encrypted to the re-encryption recipients, each as the text
/// that age writes for it.
pub open spec fn re_encrypted_from(
    d: Doc,
    e: Doc,
    given: Seq<Seq<char>>,
    keep: bool,
    removed: Seq<Seq<char>>,
) -> bool {
    exists|p: Doc, q: Seq<Seq<char>>|
        decrypted_from(d, p) && #[trigger] encrypted_from(p, e, canonical_texts(q))
            && re_encryption_set(q, given, keep, d, removed)
}

/// `re_encrypt` can re-encrypt `d` with the keys: they open every token; recorded
/// recipients that are kept parse; the re-encryption recipients are not none and can all
/// be encrypted to; and every leaf of the decrypted document can be written as YAML.
pub open spec fn re_encryptable(
    d: Doc,
    given: Seq<Seq<char>>,
    keep: bool,
    removed: Seq<Seq<char>>,
    keys: Seq<Seq<char>>,
) -> bool {
    &&& opens_all(d, keys)
    &&& keep ==> forall|x: Seq<char>| #[trigger] recipient_listed(d, x) ==> recipient_parses(x)
    &&& exists|x: Seq<char>| #[trigger] re_encryption_member(x, given, keep, d, removed)
    &&& forall|x: Seq<char>|
        #[trigger] re_encryption_member(x, given, keep, d, removed) ==> recipient_usable(x)
    &&& forall|p: Doc| #[trigger] decrypted_from(d, p) ==> leaves_render(p)
}

/// Decrypts each input document with the private keys given as text and encrypts it again,
/// after checking the command's file arguments and that there is a key, to the given
/// recipients and, with `keep_recipients`, those recorded in it, without the removed ones.
/// It succeeds where every key parses and every document is re-encryptable; a document
/// left with no recipient fails with `NoRecipients`.
pub fn re_encrypt(
    args: &ReEncryptArgs,
    inputs: &Vec<Document>,
    keys: &Vec<String>,
    recipients: &Vec<String>,
    removed: &Vec<String>,
) -> (r: Result<Vec<Document>, YageError>)
    ensures
        args.in_place && names_stdin(args.files@) ==> r is Err && r->Err_0 is InPlaceStdin,
        !(args.in_place && names_stdin(args.files@)) && !args.in_place && args.files@.len() != 1
            ==> r is Err && r->Err_0 is InvalidNumberOfInputFiles,
        single_file_args(args.in_place, args.files@) && keys@.len() == 0 ==> r is Err && r->Err_0 is NoKeys,
        single_file_args(args.in_place, args.files@) && keys@.len() > 0 && !keys_parse(texts(keys@))
            ==> r is Err && r->Err_0 is KeyParse,
        r is Ok ==> r->Ok_0@.len() == inputs@.len() && forall|i: int|
            0 <= i < inputs@.len() ==> re_encrypted_from(
                inputs@[i]@,
                #[trigger] r->Ok_0@[i]@,
                texts(recipients@),
                args.keep_recipients,
                texts(removed@),
            ),
        single_file_args(args.in_place, args.files@) && keys@.len() > 0 && keys_parse(texts(keys@))
            && (forall|i: int|
            0 <= i < inputs@.len() ==> re_encryptable(
                #[trigger] inputs@[i]@,
                texts(recipients@),
                args.keep_recipients,
                texts(removed@),
                texts(keys@),
            )) ==> r is Ok,
        r matches Err(YageError::NoRecipients) ==> exists|i: int|
            0 <= i < inputs@.len() && re_encryption_none(
                texts(recipients@),
                args.keep_recipients,
                #[trigger] inputs@[i]@,
                texts(removed@),
            ),
{
    check_file_args(args.in_place, &args.files, true)?;
    if keys.len() == 0 {
        return Err(YageError::NoKeys);
    }
    check_keys(keys)?;
    let ghost given = texts(recipients@);
    let ghost gone = texts(removed@);
    let ghost ks = texts(keys@);
    let keep = args.keep_recipients;
    let mut out: Vec<Document> = Vec::new();
    let mut i: usize = 0;
    #[verifier::loop_isolation(false)]
    while i < inputs.len()
        invariant
            i <= inputs@.len(),
            out@.len() == i,
            forall|k: int|
                0 <= k < i ==> re_encrypted_from(inputs@[k]@, #[trigger] out@[k]@, given, keep, gone),
        decreases inputs@.len() - i,
    {
        let ghost d = inputs@[i as int]@;
        let decrypted = match decrypt_yaml(&inputs[i], keys) {
            Ok(p) => p,
            Err(e) => {
                assert(!re_encryptable(d, given, keep, gone, ks));
                return Err(e);
            },
        };
        let recorded = if keep {
            match get_yaml_recipients(&inputs[i]) {
                Ok(v) => v,
                Err(e) => {
                    assert(!re_encryptable(d, given, keep, gone, ks));
                    return Err(e);
                },
            }
        } else {
            Vec::new()
        };
        let chosen = re_encryption_recipients(recipients, &recorded, removed);
        proof {
            assert forall|x: Seq<char>| #[trigger] texts(chosen@).contains(x) <==> re_encryption_member(
                x,
                given,
                keep,
                d,
                gone,
            ) by {
                if !keep {
                    assert(texts(recorded@) =~= Seq::<Seq<char>>::empty());
                }
            }
            if re_encryptable(d, given, keep, gone, ks) {
                let x = choose|x: Seq<char>| #[trigger] re_encryption_member(x, given, keep, d, gone);
                assert(texts(chosen@).contains(x));
                assert(chosen@.len() > 0);
                assert forall|k: int| 0 <= k < chosen@.len() implies recipient_usable(
                    #[trigger] chosen@[k]@,
                ) by {
                    assert(texts(chosen@)[k] == chosen@[k]@);
                    assert(texts(chosen@).contains(chosen@[k]@));
                }
                assert(leaves_render(decrypted@));
            }
        }
        let e = match encrypt_yaml(&decrypted, &chosen) {
            Ok(e) => e,
            Err(err) => {
                assert(!re_encryptable(d, given, keep, gone, ks));
                proof {
                    if err is NoRecipients {
                        assert forall|x: Seq<char>| !#[trigger] re_encryption_member(x, given, keep, d, gone) by {
                            assert(!texts(chosen@).contains(x));
                        }
                        assert(re_encryption_none(given, keep, d, gone));
                    }
                }
                return Err(err);
            },
        };
        proof {
            let q = texts(chosen@);
            assert(decrypted_from(d, decrypted@));
            assert(encrypted_from(decrypted@, e@, canonical_texts(q)));
            assert(re_encryption_set(q, given, keep, d, gone));
            assert(re_encrypted_from(d, e@, given, keep, gone));
        }
        let ghost prev = out@;
        out.push(e);
        proof {
            assert forall|k: int| 0 <= k < i + 1 implies re_encrypted_from(
                inputs@[k]@,
                #[trigger] out@[k]@,
                given,
                keep,
                gone,
            ) by {
                if k < i {
                    assert(out@[k] == prev[k]);
                }
            }
        }
        i = i + 1;
    }
    Ok(out)
}

/// The recipients that an edited file is encrypted to again: those that the file records,
/// sorted, each once. A file that records none fails with `NoRecipients`, one with a
/// fingerprint that does not parse with `RecipientParse`.
pub fn edit_recipients(original: &Document) -> (r: Result<Vec<String>, YageError>)
    ensures
        (forall|x: Seq<char>| #[trigger] recipient_listed(original@, x) ==> recipient_parses(x))
            ==> ((r is Err && r->Err_0 is NoRecipients) <==> records_none(original@)),
        r is Ok ==> r->Ok_0@.len() > 0 && forall|x: Seq<char>|
            #[trigger] texts(r->Ok_0@).contains(x) <==> recorded_recipient(original@, x),
        r is Err ==> r->Err_0 is NoRecipients || r->Err_0 is RecipientParse,
        (r is Err && r->Err_0 is RecipientParse) <==> !(forall|x: Seq<char>|
            #[trigger] recipient_listed(original@, x) ==> recipient_parses(x)),
{
    let recipients = get_yaml_recipients(original)?;
    proof {
        if recipients@.len() > 0 {
            assert(texts(recipients@)[0] == recipients@[0]@);
            assert(texts(recipients@).contains(recipients@[0]@));
            assert(recorded_recipient(original@, recipients@[0]@));
        } else {
            assert forall|x: Seq<char>| !#[trigger] recorded_recipient(original@, x) by {
                assert(!texts(recipients@).contains(x));
            }
        }
    }
    if recipients.len() == 0 {
        return Err(YageError::NoRecipients);
    }
    Ok(recipients)
}

/// The file to write after an edit: the merge of the edit (see `merge_for_edit`),
/// encrypted to the recipients that the original records. An original that records no
/// recipient fails with `NoRecipients`. It succeeds where the merge succeeds, the original
/// records recipients that can all be encrypted to, and the merge can be written as YAML.
pub fn edit(original: &Document, before: &Document, after: &Document) -> (r: Result<
    Document,
    YageError,
>)
    ensures
        (forall|x: Seq<char>| #[trigger] recipient_listed(original@, x) ==> recipient_parses(x))
            ==> ((r is Err && r->Err_0 is NoRecipients) <==> records_none(original@)),
        r is Ok ==> merge_doc(Some(original@), before@, after@) is Some && exists|q: Seq<Seq<char>>|
            #[trigger] encrypted_from(
                merge_doc(Some(original@), before@, after@)->Some_0,
                r->Ok_0@,
                canonical_texts(q),
            ) && forall|x: Seq<char>| q.contains(x) <==> recorded_recipient(original@, x),
        merge_doc(Some(original@), before@, after@) is None && !records_none(original@) && (forall|
            x: Seq<char>,
        | #[trigger] recipient_listed(original@, x) ==> recipient_parses(x)) ==> r is Err
            && r->Err_0 is KeyNotFound,
        merge_doc(Some(original@), before@, after@) is Some && !records_none(original@)
            && recorded_parse(original@) && (forall|x: Seq<char>|
            #[trigger] recorded_recipient(original@, x) ==> recipient_usable(x)) && leaves_render(
            merge_doc(Some(original@), before@, after@)->Some_0,
        ) ==> r is Ok,
{
    let recipients = edit_recipients(original)?;
    let merged = merge_for_edit(original, before, after)?;
    proof {
        if forall|x: Seq<char>| #[trigger] recorded_recipient(original@, x) ==> recipient_usable(x) {
            assert forall|k: int| 0 <= k < recipients@.len() implies recipient_usable(
                #[trigger] recipients@[k]@,
            ) by {
                assert(texts(recipients@)[k] == recipients@[k]@);
                assert(texts(recipients@).contains(recipients@[k]@));
            }
        }
    }
    let e = encrypt_yaml(&merged, &recipients)?;
    proof {
        let q = texts(recipients@);
        assert(encrypted_from(merged@, e@, canonical_texts(q)));
        assert forall|x: Seq<char>| q.contains(x) <==> recorded_recipient(original@, x) by {
            assert(texts(recipients@).contains(x) <==> recorded_recipient(original@, x));
        }
    }
    Ok(e)
}

} // verus!
