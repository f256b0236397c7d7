use crate::error::YageError;
use crate::provider::char_range;
use crate::text::{
    join, join_texts, lemma_join_without, lemma_split_concat, lemma_split_join,
    lemma_split_without_sep, split_on, split_text, texts,
};
use vstd::prelude::*;
use vstd::string::StrSliceExecFns;
use vstd::string::StringExecFns;

verus! {

/// The text that opens every token.
pub open spec fn token_open() -> Seq<char> {
    seq!['y', 'a', 'g', 'e', '[']
}

/// The text between a token's payload and its recipient list.
pub open spec fn recipients_marker() -> Seq<char> {
    seq!['|', 'r', ':']
}

/// Whether `s` begins with the token opening and ends with `]`.
pub open spec fn has_token_frame(s: Seq<char>) -> bool {
    s.len() >= 6 && s.subrange(0, 5) == token_open() && s.last() == ']'
}

/// What a text holds as a token, its payload and its recipient list; `None` where it is
/// not a token. The part inside the brackets is either a bare payload or a payload, a
/// `|` and a recipient part that starts with `r:` and lists the recipients separated by
/// commas.
pub open spec fn decode_token(s: Seq<char>) -> Option<(Seq<char>, Seq<Seq<char>>)> {
    if has_token_frame(s) {
        let inner = s.subrange(5, s.len() - 1);
        let parts = split_on(inner, '|');
        if parts.len() == 1 {
            Some((inner, Seq::<Seq<char>>::empty()))
        } else if parts.len() == 2 && parts[1].len() >= 2 && parts[1][0] == 'r' && parts[1][1]
            == ':' {
            Some((parts[0], split_on(parts[1].subrange(2, parts[1].len() as int), ',')))
        } else {
            None
        }
    } else {
        None
    }
}

/// Whether `s` reads as a token.
pub open spec fn is_token(s: Seq<char>) -> bool {
    decode_token(s) is Some
}

/// The token text for a payload and a recipient list.
pub open spec fn encode_token(data: Seq<char>, recipients: Seq<Seq<char>>) -> Seq<char> {
    token_open() + data + recipients_marker() + join(recipients, ',') + seq![']']
}

/// The decoded form of an encrypted leaf: its base64 ciphertext and the fingerprints of
/// the recipients it was encrypted to.
#[derive(Debug, Clone)]
pub struct YageEncodedValue {
    pub data: String,
    pub recipients: Vec<String>,
}

impl View for YageEncodedValue {
    type V = (Seq<char>, Seq<Seq<char>>);

    open spec fn view(&self) -> (Seq<char>, Seq<Seq<char>>) {
        (self.data@, texts(self.recipients@))
    }
}

/// Whether `s` has the frame of a token: it begins with `yage[` and ends with `]`.
pub fn is_yage_encoded(s: &str) -> (r: bool)
    ensures
        r == has_token_frame(s@),
{
    let n = s.unicode_len();
    if n < 6 {
        return false;
    }
    let ok = s.get_char(0) == 'y' && s.get_char(1) == 'a' && s.get_char(2) == 'g' && s.get_char(3)
        == 'e' && s.get_char(4) == '[' && s.get_char(n - 1) == ']';
    proof {
        if ok {
            assert(s@.subrange(0, 5) =~= token_open());
        } else if s@.subrange(0, 5) == token_open() {
            assert(s@.subrange(0, 5)[0] == s@[0]);
            assert(s@.subrange(0, 5)[1] == s@[1]);
            assert(s@.subrange(0, 5)[2] == s@[2]);
            assert(s@.subrange(0, 5)[3] == s@[3]);
            assert(s@.subrange(0, 5)[4] == s@[4]);
        }
    }
    ok
}

impl YageEncodedValue {
    /// Reads a token. A text that is not a token gives `InvalidValueEncoding`.
    pub fn from_str(s: &str) -> (r: Result<YageEncodedValue, YageError>)
        ensures
            match decode_token(s@) {
                Some(v) => r is Ok && r->Ok_0@ == v,
                None => r is Err && r->Err_0 is InvalidValueEncoding,
            },
    {
        if !is_yage_encoded(s) {
            return Err(YageError::InvalidValueEncoding);
        }
        let n = s.unicode_len();
        let inner = char_range(s, 5, n - 1);
        let parts = split_text(inner.as_str(), '|');
        if parts.len() == 1 {
            let r = YageEncodedValue { data: inner, recipients: Vec::new() };
            assert(texts(r.recipients@) =~= Seq::<Seq<char>>::empty());
            return Ok(r);
        }
        if parts.len() != 2 {
            return Err(YageError::InvalidValueEncoding);
        }
        let second = parts[1].as_str();
        let m = second.unicode_len();
        assert(texts(parts@)[1] == parts@[1]@);
        if m < 2 || second.get_char(0) != 'r' || second.get_char(1) != ':' {
            return Err(YageError::InvalidValueEncoding);
        }
        let rest = char_range(second, 2, m);
        let recipients = split_text(rest.as_str(), ',');
        assert(texts(parts@)[0] == parts@[0]@);
        Ok(YageEncodedValue { data: parts[0].clone(), recipients })
    }

    /// The token text: `yage[`, the payload, `|r:`, the recipients joined by commas, `]`.
    pub fn to_string(&self) -> (r: String)
        ensures
            r@ == encode_token(self.data@, texts(self.recipients@)),
    {
        proof {
            reveal_strlit("yage[");
            reveal_strlit("|r:");
            reveal_strlit(",");
            reveal_strlit("]");
        }
        let mut out = String::from_str("yage[");
        out.append(self.data.as_str());
        out.append("|r:");
        let joined = join_texts(&self.recipients, ",");
        out.append(joined.as_str());
        out.append("]");
        proof {
            assert("yage["@ =~= token_open());
            assert("|r:"@ =~= recipients_marker());
        }
        out
    }
}

/// A payload and a recipient list can go into a token: the payload holds no `|`, the list
/// is not empty, and no fingerprint holds a `|` or a comma.
pub open spec fn encodable(data: Seq<char>, recipients: Seq<Seq<char>>) -> bool {
    &&& !data.contains('|')
    &&& recipients.len() >= 1
    &&& forall|i: int|
        0 <= i < recipients.len() ==> !(#[trigger] recipients[i]).contains('|')
            && !recipients[i].contains(',')
}

/// Reading an encoded token gives back its payload and recipient list.
pub proof fn lemma_decode_encode(data: Seq<char>, recipients: Seq<Seq<char>>)
    requires
        encodable(data, recipients),
    ensures
        decode_token(encode_token(data, recipients)) == Some((data, recipients)),
{
    let joined = join(recipients, ',');
    let tail = seq!['r', ':'] + joined;
    let s = encode_token(data, recipients);
    let inner = data.push('|') + tail;
    assert(s =~= token_open() + inner + seq![']']);
    assert(s.subrange(0, 5) =~= token_open());
    assert(s.subrange(5, s.len() - 1) =~= inner);
    assert(s.last() == ']');
    lemma_join_without(recipients, ',', '|');
    assert(!tail.contains('|')) by {
        if tail.contains('|') {
            let k = choose|k: int| 0 <= k < tail.len() && tail[k] == '|';
            assert(joined[k - 2] == '|');
        }
    }
    lemma_split_concat(data, tail, '|');
    lemma_split_without_sep(data, '|');
    lemma_split_without_sep(tail, '|');
    let parts = split_on(inner, '|');
    assert(parts =~= seq![data, tail]);
    assert(parts[1].subrange(2, parts[1].len() as int) =~= joined);
    lemma_split_join(recipients, ',');
}

} // verus!
