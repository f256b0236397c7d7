use crate::provider::char_range;
use vstd::prelude::*;
use vstd::string::StrSliceExecFns;
use vstd::string::StringExecFns;

verus! {

/// The texts of a sequence of strings.
pub open spec fn texts(v: Seq<String>) -> Seq<Seq<char>> {
    v.map_values(|s: String| s@)
}

/// Lexicographic order on character sequences, character by character by code point;
/// a proper prefix comes first.
pub open spec fn lex_lt(a: Seq<char>, b: Seq<char>) -> bool
    decreases a.len(),
{
    if a.len() == 0 {
        b.len() > 0
    } else if b.len() == 0 {
        false
    } else if a[0] != b[0] {
        a[0] < b[0]
    } else {
        lex_lt(a.drop_first(), b.drop_first())
    }
}

/// Every element comes strictly before the elements after it: sorted, without duplicates.
pub open spec fn strictly_sorted(s: Seq<Seq<char>>) -> bool {
    forall|i: int, j: int| 0 <= i < j < s.len() ==> lex_lt(#[trigger] s[i], #[trigger] s[j])
}

/// The two sequences hold the same elements, regardless of order and repetition.
pub open spec fn same_elements(a: Seq<Seq<char>>, b: Seq<Seq<char>>) -> bool {
    forall|x: Seq<char>| a.contains(x) <==> b.contains(x)
}

/// `s` cut at every occurrence of `sep`; the pieces hold no `sep`.
/// An empty text gives one empty piece.
pub open spec fn split_on(s: Seq<char>, sep: char) -> Seq<Seq<char>>
    decreases s.len(),
{
    if s.len() == 0 {
        seq![Seq::<char>::empty()]
    } else {
        let prev = split_on(s.drop_last(), sep);
        if s.last() == sep {
            prev.push(Seq::<char>::empty())
        } else {
            prev.update(prev.len() - 1, prev.last().push(s.last()))
        }
    }
}

/// The pieces put end to end with `sep` between two neighbours.
pub open spec fn join(parts: Seq<Seq<char>>, sep: char) -> Seq<char>
    decreases parts.len(),
{
    if parts.len() == 0 {
        Seq::<char>::empty()
    } else if parts.len() == 1 {
        parts[0]
    } else {
        join(parts.drop_last(), sep).push(sep) + parts.last()
    }
}

pub proof fn lemma_split_len(s: Seq<char>, sep: char)
    ensures
        split_on(s, sep).len() >= 1,
    decreases s.len(),
{
    if s.len() > 0 {
        lemma_split_len(s.drop_last(), sep);
    }
}

pub proof fn lemma_lex_transitive(a: Seq<char>, b: Seq<char>, c: Seq<char>)
    requires
        lex_lt(a, b),
        lex_lt(b, c),
    ensures
        lex_lt(a, c),
    decreases a.len(),
{
    if a.len() > 0 && b.len() > 0 && c.len() > 0 {
        if a[0] == b[0] && b[0] == c[0] {
            lemma_lex_transitive(a.drop_first(), b.drop_first(), c.drop_first());
        }
    }
}

pub proof fn lemma_lex_total(a: Seq<char>, b: Seq<char>)
    requires
        a != b,
    ensures
        lex_lt(a, b) || lex_lt(b, a),
    decreases a.len(),
{
    if a.len() == 0 {
        if b.len() == 0 {
            assert(a =~= b);
        }
    } else if b.len() > 0 && a[0] == b[0] {
        if a.drop_first() == b.drop_first() {
            assert(a =~= seq![a[0]] + a.drop_first());
            assert(b =~= seq![b[0]] + b.drop_first());
        }
        lemma_lex_total(a.drop_first(), b.drop_first());
    }
}

/// Whether `a` comes strictly before `b`.
pub fn text_lt(a: &str, b: &str) -> (r: bool)
    ensures
        r == lex_lt(a@, b@),
{
    let na = a.unicode_len();
    let nb = b.unicode_len();
    let mut i: usize = 0;
    proof {
        assert(a@.subrange(0, na as int) =~= a@);
        assert(b@.subrange(0, nb as int) =~= b@);
    }
    while i < na && i < nb
        invariant
            na == a@.len(),
            nb == b@.len(),
            i <= na,
            i <= nb,
            lex_lt(a@, b@) == lex_lt(a@.subrange(i as int, na as int), b@.subrange(i as int, nb as int)),
        decreases na - i,
    {
        let ca = a.get_char(i);
        let cb = b.get_char(i);
        let ghost sa = a@.subrange(i as int, na as int);
        let ghost sb = b@.subrange(i as int, nb as int);
        if ca != cb {
            assert(sa[0] == ca && sb[0] == cb);
            return ca < cb;
        }
        assert(sa.drop_first() =~= a@.subrange(i + 1, na as int));
        assert(sb.drop_first() =~= b@.subrange(i + 1, nb as int));
        i = i + 1;
    }
    nb > i
}

/// `s` cut at every occurrence of `sep`.
pub fn split_text(s: &str, sep: char) -> (r: Vec<String>)
    ensures
        texts(r@) == split_on(s@, sep),
{
    let n = s.unicode_len();
    let mut pieces: Vec<String> = Vec::new();
    let mut start: usize = 0;
    let mut i: usize = 0;
    proof {
        assert(s@.subrange(0, 0) =~= Seq::<char>::empty());
        assert(texts(pieces@) =~= Seq::<Seq<char>>::empty());
        assert(texts(pieces@).push(s@.subrange(0, 0)) =~= split_on(s@.subrange(0, 0), sep));
    }
    while i < n
        invariant
            n == s@.len(),
            start <= i <= n,
            texts(pieces@).push(s@.subrange(start as int, i as int)) == split_on(
                s@.subrange(0, i as int),
                sep,
            ),
        decreases n - i,
    {
        let c = s.get_char(i);
        let ghost prefix = s@.subrange(0, i + 1);
        let ghost before = texts(pieces@);
        proof {
            assert(prefix.drop_last() =~= s@.subrange(0, i as int));
            assert(prefix.last() == c);
            lemma_split_len(s@.subrange(0, i as int), sep);
        }
        if c == sep {
            let piece = char_range(s, start, i);
            pieces.push(piece);
            start = i + 1;
            proof {
                assert(texts(pieces@) =~= before.push(piece@));
                assert(s@.subrange(start as int, i + 1) =~= Seq::<char>::empty());
                assert(texts(pieces@).push(s@.subrange(start as int, i + 1)) =~= split_on(prefix, sep));
            }
        } else {
            proof {
                assert(s@.subrange(start as int, i + 1) =~= s@.subrange(start as int, i as int).push(c));
                assert(before.push(s@.subrange(start as int, i + 1)) =~= split_on(prefix, sep));
            }
        }
        i = i + 1;
    }
    let last = char_range(s, start, n);
    let ghost before = texts(pieces@);
    pieces.push(last);
    proof {
        assert(s@.subrange(0, n as int) =~= s@);
        assert(texts(pieces@) =~= before.push(last@));
    }
    pieces
}

/// The texts put end to end, with `sep` between two neighbours.
pub fn join_texts(parts: &Vec<String>, sep: &str) -> (r: String)
    requires
        sep@.len() == 1,
    ensures
        r@ == join(texts(parts@), sep@[0]),
{
    let n = parts.len();
    if n == 0 {
        return String::new();
    }
    let mut out = parts[0].clone();
    let mut i: usize = 1;
    proof {
        assert(texts(parts@.subrange(0, 1)) =~= seq![parts@[0]@]);
    }
    while i < n
        invariant
            n == parts@.len(),
            1 <= i <= n,
            sep@.len() == 1,
            out@ == join(texts(parts@.subrange(0, i as int)), sep@[0]),
        decreases n - i,
    {
        let ghost before = out@;
        out.append(sep);
        out.append(parts[i].as_str());
        proof {
            let t = texts(parts@.subrange(0, i + 1));
            assert(t.drop_last() =~= texts(parts@.subrange(0, i as int)));
            assert(t.last() == parts@[i as int]@);
            assert(sep@ =~= seq![sep@[0]]);
            assert(out@ =~= before.push(sep@[0]) + parts@[i as int]@);
        }
        i = i + 1;
    }
    proof {
        assert(parts@.subrange(0, n as int) =~= parts@);
    }
    out
}

/// Whether `x` is one of the texts of `v`.
pub fn contains_text(v: &Vec<String>, x: &String) -> (r: bool)
    ensures
        r == texts(v@).contains(x@),
{
    let mut i: usize = 0;
    while i < v.len()
        invariant
            i <= v@.len(),
            forall|k: int| 0 <= k < i ==> v@[k]@ != x@,
        decreases v@.len() - i,
    {
        if v[i] == *x {
            assert(texts(v@)[i as int] == x@);
            return true;
        }
        i = i + 1;
    }
    proof {
        if texts(v@).contains(x@) {
            let k = choose|k: int| 0 <= k < texts(v@).len() && texts(v@)[k] == x@;
            assert(v@[k]@ == x@);
        }
    }
    false
}

/// Whether both hold the same texts, regardless of order and repetition.
pub fn same_texts(a: &Vec<String>, b: &Vec<String>) -> (r: bool)
    ensures
        r == same_elements(texts(a@), texts(b@)),
{
    let mut i: usize = 0;
    while i < a.len()
        invariant
            i <= a@.len(),
            forall|k: int| 0 <= k < i ==> texts(b@).contains(#[trigger] a@[k]@),
        decreases a@.len() - i,
    {
        if !contains_text(b, &a[i]) {
            assert(texts(a@)[i as int] == a@[i as int]@);
            return false;
        }
        i = i + 1;
    }
    let mut j: usize = 0;
    while j < b.len()
        invariant
            j <= b@.len(),
            forall|k: int| 0 <= k < a@.len() ==> texts(b@).contains(#[trigger] a@[k]@),
            forall|k: int| 0 <= k < j ==> texts(a@).contains(#[trigger] b@[k]@),
        decreases b@.len() - j,
    {
        if !contains_text(a, &b[j]) {
            assert(texts(b@)[j as int] == b@[j as int]@);
            return false;
        }
        j = j + 1;
    }
    proof {
        assert forall|x: Seq<char>| texts(a@).contains(x) <==> texts(b@).contains(x) by {
            if texts(a@).contains(x) {
                let k = choose|k: int| 0 <= k < texts(a@).len() && texts(a@)[k] == x;
                assert(a@[k]@ == x);
            }
            if texts(b@).contains(x) {
                let k = choose|k: int| 0 <= k < texts(b@).len() && texts(b@)[k] == x;
                assert(b@[k]@ == x);
            }
        }
    }
    true
}

/// The texts of `v` sorted, each once.
pub fn sorted_unique(v: &Vec<String>) -> (r: Vec<String>)
    ensures
        strictly_sorted(texts(r@)),
        same_elements(texts(r@), texts(v@)),
{
    let mut out: Vec<String> = Vec::new();
    let mut i: usize = 0;
    while i < v.len()
        invariant
            i <= v@.len(),
            strictly_sorted(texts(out@)),
            same_elements(texts(out@), texts(v@.subrange(0, i as int))),
        decreases v@.len() - i,
    {
        let x = &v[i];
        let ghost prev = texts(out@);
        let ghost done = texts(v@.subrange(0, i as int));
        let mut p: usize = 0;
        while p < out.len() && text_lt(out[p].as_str(), x.as_str())
            invariant
                p <= out@.len(),
                texts(out@) == prev,
                forall|k: int| 0 <= k < p ==> lex_lt(#[trigger] prev[k], x@),
            decreases out@.len() - p,
        {
            p = p + 1;
        }
        let ghost next = texts(v@.subrange(0, i + 1));
        proof {
            assert(next =~= done.push(x@));
        }
        if p < out.len() && out[p] == *x {
            proof {
                assert(prev[p as int] == x@);
                assert forall|y: Seq<char>| prev.contains(y) <==> next.contains(y) by {
                    if next.contains(y) {
                        let k = choose|k: int| 0 <= k < next.len() && next[k] == y;
                        if k < done.len() {
                            assert(done[k] == y);
                        }
                    }
                    if prev.contains(y) {
                        assert(done.contains(y));
                        let k = choose|k: int| 0 <= k < done.len() && done[k] == y;
                        assert(next[k] == y);
                    }
                }
            }
        } else {
            out.insert(p, x.clone());
            proof {
                let cur = texts(out@);
                assert(cur =~= prev.insert(p as int, x@));
                if p < prev.len() {
                    assert(prev[p as int] != x@);
                    lemma_lex_total(prev[p as int], x@);
                }
                assert forall|a: int, b: int| 0 <= a < b < cur.len() implies lex_lt(
                    #[trigger] cur[a],
                    #[trigger] cur[b],
                ) by {
                    if b < p {
                    } else if b == p {
                        assert(lex_lt(prev[a], x@));
                    } else if a < p {
                        assert(cur[b] == prev[b - 1]);
                    } else if a == p {
                        assert(cur[b] == prev[b - 1]);
                        if b - 1 > p {
                            assert(lex_lt(prev[p as int], prev[b - 1]));
                            lemma_lex_transitive(x@, prev[p as int], prev[b - 1]);
                        }
                    } else {
                        assert(cur[a] == prev[a - 1]);
                        assert(cur[b] == prev[b - 1]);
                    }
                }
                assert forall|y: Seq<char>| cur.contains(y) <==> next.contains(y) by {
                    if next.contains(y) {
                        let k = choose|k: int| 0 <= k < next.len() && next[k] == y;
                        if k < done.len() {
                            assert(done[k] == y);
                            assert(prev.contains(y));
                            let m = choose|m: int| 0 <= m < prev.len() && prev[m] == y;
                            if m < p {
                                assert(cur[m] == y);
                            } else {
                                assert(cur[m + 1] == y);
                            }
                        } else {
                            assert(cur[p as int] == y);
                        }
                    }
                    if cur.contains(y) {
                        let k = choose|k: int| 0 <= k < cur.len() && cur[k] == y;
                        if k == p {
                            assert(next[done.len() as int] == y);
                        } else {
                            let m = if k < p { k } else { k - 1 };
                            assert(prev[m] == y);
                            assert(done.contains(y));
                            let d = choose|d: int| 0 <= d < done.len() && done[d] == y;
                            assert(next[d] == y);
                        }
                    }
                }
            }
        }
        i = i + 1;
    }
    proof {
        assert(v@.subrange(0, v@.len() as int) =~= v@);
    }
    out
}

/// A text without `sep` is one piece.
pub proof fn lemma_split_without_sep(s: Seq<char>, sep: char)
    requires
        !s.contains(sep),
    ensures
        split_on(s, sep) == seq![s],
    decreases s.len(),
{
    if s.len() > 0 {
        assert(!s.drop_last().contains(sep)) by {
            if s.drop_last().contains(sep) {
                let k = choose|k: int| 0 <= k < s.drop_last().len() && s.drop_last()[k] == sep;
                assert(s[k] == sep);
            }
        }
        lemma_split_without_sep(s.drop_last(), sep);
        assert(s.last() != sep) by {
            assert(s[s.len() - 1] == s.last());
        }
        assert(s.drop_last().push(s.last()) =~= s);
        assert(split_on(s, sep) =~= seq![s]);
    } else {
        assert(s =~= Seq::<char>::empty());
    }
}

/// Splitting at a separator between two texts splits each of them.
pub proof fn lemma_split_concat(a: Seq<char>, b: Seq<char>, sep: char)
    ensures
        split_on(a.push(sep) + b, sep) == split_on(a, sep) + split_on(b, sep),
    decreases b.len(),
{
    let s = a.push(sep) + b;
    if b.len() == 0 {
        assert(s =~= a.push(sep));
        assert(a.push(sep).drop_last() =~= a);
        assert(split_on(s, sep) =~= split_on(a, sep) + split_on(b, sep));
    } else {
        assert(s.drop_last() =~= a.push(sep) + b.drop_last());
        assert(s.last() == b.last());
        lemma_split_concat(a, b.drop_last(), sep);
        lemma_split_len(b.drop_last(), sep);
        lemma_split_len(a, sep);
        let x = split_on(a, sep);
        let y = split_on(b.drop_last(), sep);
        if b.last() == sep {
            assert((x + y).push(Seq::<char>::empty()) =~= x + y.push(Seq::<char>::empty()));
        } else {
            assert((x + y).update((x + y).len() - 1, (x + y).last().push(b.last())) =~= x + y.update(
                y.len() - 1,
                y.last().push(b.last()),
            ));
        }
    }
}

/// Joined pieces hold a character only where a piece holds it, or where it is the separator.
pub proof fn lemma_join_without(parts: Seq<Seq<char>>, sep: char, c: char)
    requires
        c != sep,
        forall|i: int| 0 <= i < parts.len() ==> !(#[trigger] parts[i]).contains(c),
    ensures
        !join(parts, sep).contains(c),
    decreases parts.len(),
{
    if parts.len() > 1 {
        lemma_join_without(parts.drop_last(), sep, c);
        let j = join(parts.drop_last(), sep).push(sep) + parts.last();
        assert(parts[parts.len() - 1] == parts.last());
        if j.contains(c) {
            let k = choose|k: int| 0 <= k < j.len() && j[k] == c;
            let m = join(parts.drop_last(), sep).len();
            if k < m {
                assert(join(parts.drop_last(), sep)[k] == c);
            } else if k > m {
                assert(parts.last()[k - m - 1] == c);
            }
        }
    } else if parts.len() == 1 {
        assert(parts[0] == join(parts, sep));
    }
}

/// Splitting joined pieces gives them back, where no piece holds the separator.
pub proof fn lemma_split_join(parts: Seq<Seq<char>>, sep: char)
    requires
        parts.len() >= 1,
        forall|i: int| 0 <= i < parts.len() ==> !(#[trigger] parts[i]).contains(sep),
    ensures
        split_on(join(parts, sep), sep) == parts,
    decreases parts.len(),
{
    if parts.len() == 1 {
        lemma_split_without_sep(parts[0], sep);
        assert(seq![parts[0]] =~= parts);
    } else {
        let init = parts.drop_last();
        assert forall|i: int| 0 <= i < init.len() implies !(#[trigger] init[i]).contains(sep) by {
            assert(init[i] == parts[i]);
        }
        lemma_split_join(init, sep);
        lemma_split_concat(join(init, sep), parts.last(), sep);
        assert(parts[parts.len() - 1] == parts.last());
        lemma_split_without_sep(parts.last(), sep);
        assert(init + seq![parts.last()] =~= parts);
    }
}

} // verus!
