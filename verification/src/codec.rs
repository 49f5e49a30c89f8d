//! Decoding a data segment into `(key, value)` pairs and encoding pairs back.
//!
//! The grammar is the `application/x-www-form-urlencoded` convention: entries
//! are separated by `&` (empty entries are skipped), an entry is split at its
//! first `=` (without one, the whole entry is the key and the value is
//! empty), and both halves are percent-decoded. Percent-decoding and
//! -encoding of a single token are the `url` crate's and stand behind the
//! trusted items below; everything around them is verified.

use crate::segment::find_char;
use crate::segment::lemma_find_char;
use crate::segment::lemma_find_char_at;
use crate::segment::lemma_find_char_none;
use vstd::prelude::*;
use vstd::string::StrSliceExecFns;
use vstd::string::StringExecFns;

verus! {

/// View of a decoded pair: the key and the value as character sequences.
pub type PairView = (Seq<char>, Seq<char>);

/// What `url::form_urlencoded`'s percent decoder returns for a token:
/// `+` becomes a space, a valid `%XX` escape becomes a byte, anything else
/// passes through, and the bytes are read as UTF-8 with lossy replacement.
pub uninterp spec fn dec_of(t: Seq<char>) -> Seq<char>;

/// What `url::form_urlencoded`'s byte serializer returns for a token:
/// `*`, `-`, `.`, `_` and ASCII alphanumerics pass through, a space becomes
/// `+`, and every other byte of the token's UTF-8 form becomes an uppercase
/// `%XX` escape.
pub uninterp spec fn enc_of(t: Seq<char>) -> Seq<char>;

/// Decoding of one token, with the empty token decoding to the empty string.
pub open spec fn dec_tok(t: Seq<char>) -> Seq<char> {
    if t.len() == 0 {
        Seq::empty()
    } else {
        dec_of(t)
    }
}

/// The pair one nonempty `&`-free chunk decodes to: split at the first `=`;
/// without one, the whole chunk is the key and the value is empty.
pub open spec fn chunk_pair(c: Seq<char>) -> PairView {
    let j = find_char(c, '=');
    if j == -1 {
        (dec_tok(c), Seq::empty())
    } else {
        (dec_tok(c.take(j)), dec_tok(c.skip(j + 1)))
    }
}

/// The pair sequence a data segment decodes to: chunks between `&`
/// separators, empty chunks skipped, each remaining chunk decoded by
/// `chunk_pair`, in order of appearance.
pub open spec fn decoded_pairs(s: Seq<char>) -> Seq<PairView>
    decreases s.len() via decoded_pairs_decreases
{
    if s.len() == 0 {
        Seq::empty()
    } else {
        let i = find_char(s, '&');
        if i == -1 {
            seq![chunk_pair(s)]
        } else if i == 0 {
            decoded_pairs(s.skip(1))
        } else {
            seq![chunk_pair(s.take(i))] + decoded_pairs(s.skip(i + 1))
        }
    }
}

#[via_fn]
proof fn decoded_pairs_decreases(s: Seq<char>) {
    if s.len() > 0 {
        crate::segment::lemma_find_char(s, '&');
    }
}

/// The encoding of one pair: encoded key, `=`, encoded value.
pub open spec fn encoded_pair(p: PairView) -> Seq<char> {
    enc_of(p.0) + seq!['='] + enc_of(p.1)
}

/// The canonical encoding of a pair sequence: the pairs' encodings joined
/// with `&`, with no trailing separator.
pub open spec fn encoded_pairs(ps: Seq<PairView>) -> Seq<char>
    decreases ps.len(),
{
    if ps.len() == 0 {
        Seq::empty()
    } else if ps.len() == 1 {
        encoded_pair(ps[0])
    } else {
        encoded_pair(ps[0]) + seq!['&'] + encoded_pairs(ps.drop_first())
    }
}

/// Relies on `url::form_urlencoded::byte_serialize`: it maps the token's
/// UTF-8 bytes one by one, passing `*`, `-`, `.`, `_` and alphanumerics
/// through, turning a space into `+` and any other byte into a `%XX` escape.
/// So the output is empty exactly when the token is, it never contains `&`
/// or `=` (both get escaped), and percent-decoding it (`dec_of`, the
/// decoding `url::form_urlencoded::parse` applies) undoes the serialization
/// and gives the token back.
#[verifier::external_body]
pub(crate) fn encode_token(t: &str) -> (r: String)
    ensures
        r@ == enc_of(t@),
        dec_of(r@) == t@,
        r@.len() == 0 <==> t@.len() == 0,
        forall|i: int| 0 <= i < r@.len() ==> r@[i] != '&' && r@[i] != '=',
{
    url::form_urlencoded::byte_serialize(t.as_bytes()).collect()
}

/// Relies on `url::form_urlencoded::parse`: on a nonempty input without `&`
/// it yields exactly one pair, made by splitting the input at its first `=`
/// (without one, the whole input is the name and the value is empty) and
/// percent-decoding both halves, the empty half to the empty string.
#[verifier::external_body]
pub(crate) fn decode_chunk(c: &str) -> (r: (String, String))
    requires
        c@.len() > 0,
        forall|i: int| 0 <= i < c@.len() ==> c@[i] != '&',
    ensures
        (r.0@, r.1@) == chunk_pair(c@),
{
    match url::form_urlencoded::parse(c.as_bytes()).next() {
        Some((key, value)) => (key.into_owned(), value.into_owned()),
        None => (String::new(), String::new()),
    }
}

/// Splitting at an `&` separator distributes over decoding.
pub proof fn lemma_decoded_pairs_append(a: Seq<char>, b: Seq<char>)
    ensures
        decoded_pairs(a + seq!['&'] + b) == decoded_pairs(a) + decoded_pairs(b),
    decreases a.len(),
{
    let s = a + seq!['&'] + b;
    assert(s.len() == a.len() + 1 + b.len());
    assert(s[a.len() as int] == '&');
    if a.len() == 0 {
        assert(s[0] == '&');
        assert(find_char(s, '&') == 0);
        assert(s.skip(1) =~= b);
        assert(decoded_pairs(a) + decoded_pairs(b) =~= decoded_pairs(b));
    } else {
        let i = find_char(a, '&');
        lemma_find_char(a, '&');
        if i == -1 {
            lemma_find_char_at(s, '&', a.len() as int);
            assert(s.take(a.len() as int) =~= a);
            assert(s.skip(a.len() as int + 1) =~= b);
            assert(decoded_pairs(s) == seq![chunk_pair(a)] + decoded_pairs(b));
            assert(decoded_pairs(a) == seq![chunk_pair(a)]);
        } else {
            assert(forall|j: int| 0 <= j < i ==> s[j] == a[j]);
            lemma_find_char_at(s, '&', i);
            if i == 0 {
                assert(s.skip(1) =~= a.skip(1) + seq!['&'] + b);
                lemma_decoded_pairs_append(a.skip(1), b);
            } else {
                assert(s.take(i) =~= a.take(i));
                assert(s.skip(i + 1) =~= a.skip(i + 1) + seq!['&'] + b);
                lemma_decoded_pairs_append(a.skip(i + 1), b);
                assert(decoded_pairs(s) == seq![chunk_pair(a.take(i))] + (decoded_pairs(a.skip(i + 1))
                    + decoded_pairs(b)));
                assert(seq![chunk_pair(a.take(i))] + (decoded_pairs(a.skip(i + 1))
                    + decoded_pairs(b)) =~= (seq![chunk_pair(a.take(i))] + decoded_pairs(a.skip(i + 1)))
                    + decoded_pairs(b));
            }
        }
    }
}

/// A nonempty chunk without `&` decodes to exactly its one pair.
pub proof fn lemma_decoded_pairs_single(c: Seq<char>)
    requires
        c.len() > 0,
        forall|i: int| 0 <= i < c.len() ==> c[i] != '&',
    ensures
        decoded_pairs(c) == seq![chunk_pair(c)],
{
    lemma_find_char_none(c, '&');
}

/// Appending a pair to a nonempty sequence appends `&` and its encoding.
pub proof fn lemma_encoded_pairs_push(ps: Seq<PairView>, p: PairView)
    ensures
        encoded_pairs(ps.push(p)) == (if ps.len() == 0 {
            encoded_pair(p)
        } else {
            encoded_pairs(ps) + seq!['&'] + encoded_pair(p)
        }),
    decreases ps.len(),
{
    let q = ps.push(p);
    if ps.len() == 0 {
        assert(q.len() == 1);
        assert(q[0] == p);
    } else {
        assert(q.len() >= 2);
        assert(q[0] == ps[0]);
        assert(q.drop_first() =~= ps.drop_first().push(p));
        lemma_encoded_pairs_push(ps.drop_first(), p);
        if ps.len() == 1 {
            assert(encoded_pairs(q) == encoded_pair(ps[0]) + seq!['&'] + encoded_pair(p));
            assert(encoded_pairs(ps) == encoded_pair(ps[0]));
        } else {
            assert(encoded_pairs(q) == encoded_pair(ps[0]) + seq!['&'] + (encoded_pairs(
                ps.drop_first(),
            ) + seq!['&'] + encoded_pair(p)));
            assert(encoded_pair(ps[0]) + seq!['&'] + (encoded_pairs(ps.drop_first()) + seq!['&']
                + encoded_pair(p)) =~= (encoded_pair(ps[0]) + seq!['&'] + encoded_pairs(
                ps.drop_first(),
            )) + seq!['&'] + encoded_pair(p));
        }
    }
}

/// Index of the first occurrence of `c` at or after `start`, or `n` if none.
pub(crate) fn find_char_from(s: &str, start: usize, n: usize, c: char) -> (q: usize)
    requires
        start <= n,
        n == s@.len(),
    ensures
        start <= q <= n,
        forall|k: int| start <= k < q ==> s@[k] != c,
        q < n ==> s@[q as int] == c,
{
    let mut q: usize = start;
    loop
        invariant
            start <= q <= n,
            n == s@.len(),
            forall|k: int| start <= k < q ==> s@[k] != c,
        ensures
            start <= q <= n,
            forall|k: int| start <= k < q ==> s@[k] != c,
            q < n ==> s@[q as int] == c,
        decreases n - q,
    {
        if q == n {
            break;
        }
        if s.get_char(q) == c {
            break;
        }
        q = q + 1;
    }
    q
}

/// Decodes a data segment into its pairs, in order of appearance.
pub fn decode_pairs_str(data: &str) -> (r: Vec<(String, String)>)
    ensures
        r.deep_view() == decoded_pairs(data@),
{
    let n = data.unicode_len();
    let mut r: Vec<(String, String)> = Vec::new();
    let mut p: usize = 0;
    proof {
        assert(data@.skip(0) =~= data@);
        assert(r.deep_view() =~= Seq::<PairView>::empty());
        assert(r.deep_view() + decoded_pairs(data@) =~= decoded_pairs(data@));
    }
    while p < n
        invariant
            0 <= p <= n,
            n == data@.len(),
            decoded_pairs(data@) == r.deep_view() + decoded_pairs(data@.skip(p as int)),
        decreases n - p,
    {
        let ghost rest = data@.skip(p as int);
        let q = find_char_from(data, p, n, '&');
        proof {
            assert(forall|k: int| 0 <= k < rest.len() ==> rest[k] == data@[k + p]);
            if q < n {
                lemma_find_char_at(rest, '&', q - p);
            } else {
                lemma_find_char_none(rest, '&');
            }
        }
        if q > p {
            let chunk = data.substring_char(p, q);
            proof {
                assert(chunk@ =~= rest.take(q - p));
            }
            let (k, v) = decode_chunk(chunk);
            let ghost old_r = r.deep_view();
            r.push((k, v));
            proof {
                assert(r.deep_view() =~= old_r.push((k@, v@)));
                if q < n {
                    assert(decoded_pairs(rest) == seq![chunk_pair(chunk@)] + decoded_pairs(
                        rest.skip(q - p + 1),
                    ));
                    assert(rest.skip(q - p + 1) =~= data@.skip(q + 1));
                } else {
                    assert(chunk@ =~= rest);
                    assert(decoded_pairs(rest) == seq![chunk_pair(rest)]);
                    assert(data@.skip(n as int) =~= Seq::<char>::empty());
                    assert(decoded_pairs(rest) =~= seq![chunk_pair(chunk@)] + decoded_pairs(
                        data@.skip(n as int),
                    ));
                }
                let pn: int = if q < n { q as int + 1 } else { n as int };
                assert(old_r + (seq![(k@, v@)] + decoded_pairs(data@.skip(pn))) =~= r.deep_view()
                    + decoded_pairs(data@.skip(pn)));
            }
        } else {
            proof {
                assert(rest[0] == '&');
                assert(find_char(rest, '&') == 0);
                assert(rest.skip(1) =~= data@.skip(p + 1));
            }
        }
        p = if q < n {
            q + 1
        } else {
            n
        };
    }
    proof {
        assert(data@.skip(n as int) =~= Seq::<char>::empty());
        assert(r.deep_view() + Seq::<PairView>::empty() =~= r.deep_view());
        assert(data@.skip(p as int) =~= data@.skip(n as int));
    }
    r
}

/// Serializes pairs to one url-encoded string: each key and value is
/// percent-encoded, joined as `key=value`, and the entries are joined with
/// `&`. Total, and exact: decoding the result gives back exactly the input
/// pairs, and re-encoding that decoding gives back the same string.
pub fn stringify(pairs: &Vec<(String, String)>) -> (r: String)
    ensures
        r@ == encoded_pairs(pairs.deep_view()),
        decoded_pairs(r@) == pairs.deep_view(),
        encoded_pairs(decoded_pairs(r@)) == r@,
{
    let ghost all = pairs.deep_view();
    let mut r = String::new();
    let mut i: usize = 0;
    proof {
        assert(all.take(0) =~= Seq::<PairView>::empty());
    }
    while i < pairs.len()
        invariant
            0 <= i <= pairs.len(),
            all == pairs.deep_view(),
            all.len() == pairs.len(),
            r@ == encoded_pairs(all.take(i as int)),
            decoded_pairs(r@) == all.take(i as int),
            i > 0 ==> r@.len() > 0,
        decreases pairs.len() - i,
    {
        let ghost pv: PairView = (pairs[i as int].0@, pairs[i as int].1@);
        let ek = encode_token(pairs[i].0.as_str());
        let ev = encode_token(pairs[i].1.as_str());
        let ghost chunk = ek@ + seq!['='] + ev@;
        let ghost old_r = r@;
        if i > 0 {
            r.append("&");
        }
        r.append(ek.as_str());
        r.append("=");
        r.append(ev.as_str());
        proof {
            reveal_strlit("&");
            reveal_strlit("=");
            assert("&"@ =~= seq!['&']);
            assert("="@ =~= seq!['=']);
            lemma_chunk_decodes(ek@, ev@, pv.0, pv.1);
            assert(all.take(i + 1) =~= all.take(i as int).push(pv));
            lemma_encoded_pairs_push(all.take(i as int), pv);
            assert(encoded_pair(pv) == chunk);
            lemma_decoded_pairs_single(chunk);
            if i > 0 {
                assert(r@ =~= old_r + seq!['&'] + chunk);
                lemma_decoded_pairs_append(old_r, chunk);
                assert(decoded_pairs(r@) == all.take(i as int) + seq![chunk_pair(chunk)]);
                assert(all.take(i as int) + seq![chunk_pair(chunk)] =~= all.take(i as int).push(
                    chunk_pair(chunk),
                ));
                assert(r@ =~= encoded_pairs(all.take(i as int)) + seq!['&'] + encoded_pair(pv));
            } else {
                assert(r@ =~= chunk);
                assert(decoded_pairs(r@) =~= all.take(i as int).push(chunk_pair(chunk)));
            }
        }
        i = i + 1;
    }
    proof {
        assert(all.take(all.len() as int) =~= all);
    }
    r
}

/// The chunk built from two encoded tokens decodes to the tokens' sources.
proof fn lemma_chunk_decodes(ek: Seq<char>, ev: Seq<char>, k: Seq<char>, v: Seq<char>)
    requires
        dec_of(ek) == k,
        dec_of(ev) == v,
        ek.len() == 0 <==> k.len() == 0,
        ev.len() == 0 <==> v.len() == 0,
        forall|i: int| 0 <= i < ek.len() ==> ek[i] != '&' && ek[i] != '=',
        forall|i: int| 0 <= i < ev.len() ==> ev[i] != '&' && ev[i] != '=',
    ensures
        chunk_pair(ek + seq!['='] + ev) == (k, v),
        (ek + seq!['='] + ev).len() > 0,
        forall|i: int| 0 <= i < (ek + seq!['='] + ev).len() ==> (ek + seq!['='] + ev)[i] != '&',
{
    let c = ek + seq!['='] + ev;
    assert(c[ek.len() as int] == '=');
    assert(forall|j: int| 0 <= j < ek.len() ==> c[j] == ek[j]);
    lemma_find_char_at(c, '=', ek.len() as int);
    assert(c.take(ek.len() as int) =~= ek);
    assert(c.skip(ek.len() as int + 1) =~= ev);
    if ek.len() == 0 {
        assert(dec_tok(ek) =~= k);
    }
    if ev.len() == 0 {
        assert(dec_tok(ev) =~= v);
    }
    assert(chunk_pair(c).0 == k);
    assert(chunk_pair(c).1 == v);
}

} // verus!
