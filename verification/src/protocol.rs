//! The wire protocol: the five requests a client can build, and the reading
//! of their responses.
//!
//! A request is one of four exchanges against the base URL: `GET
//! {base}/{encoded key}`, `POST {base}` with a form body `key=value`, `DELETE
//! {base}/{encoded key}`, and `GET {base}?encode=true&prefix={prefix}`.  A
//! response is a status code and a body; a 2xx status is success, 404 means
//! "absent" where that is meaningful, and any other status is an error whose
//! message is the response body, word for word.

use vstd::prelude::*;
use vstd::string::{StrSliceExecFns, StringExecFns};
use vstd::utf8::{decode_utf8, encode_utf8, encode_utf8_decode_utf8, encode_utf8_valid_utf8,
    valid_utf8};

use crate::codec::{encode, encoded, pct_decode, pct_decoded, DecodeError};

verus! {

/// One of the four wire exchanges, holding its already-encoded pieces.
#[derive(Clone, Debug)]
pub enum Request {
    /// `GET {base}/{key_enc}`: fetch one value.
    Get { key_enc: String },
    /// `POST {base}` with the form body `{key_enc}={val_enc}`.
    Put { key_enc: String, val_enc: String },
    /// `DELETE {base}/{key_enc}`.
    Delete { key_enc: String },
    /// `GET {base}?encode=true&prefix={prefix}`: the prefix travels raw in a
    /// query parameter, which the transport encodes on its own.
    List { prefix: String },
}

/// What came back over the wire.
#[derive(Clone, Debug)]
pub struct Response {
    pub status: u16,
    pub body: String,
}

/// Everything a client operation can fail with.
#[derive(Clone, Debug, PartialEq, Eq)]
pub enum DbError {
    /// The exchange itself failed; the transport's message.
    Transport(String),
    /// A status neither 2xx nor an accepted 404; the response body.
    Remote(String),
    /// A listing line held a malformed percent-escape.
    Decode(DecodeError),
    /// A listed key was gone by the time it was fetched.
    KeyVanished(String),
    /// No base URL was supplied or found.
    Config(String),
}

/// A 2xx status.
pub open spec fn is_success(status: u16) -> bool {
    200 <= status < 300
}

/// Build the request that fetches one key.
pub fn build_get(key: &str) -> (r: Request)
    ensures
        r matches Request::Get { key_enc } && key_enc@ == encoded(key@),
{
    Request::Get { key_enc: encode(key) }
}

/// Build the request that stores one key-value pair.  Key and value are
/// both percent-encoded into the form body, so `=`, `&` and newlines in
/// either travel safely.
pub fn build_set(key: &str, value: &str) -> (r: Request)
    ensures
        r matches Request::Put { key_enc, val_enc } && key_enc@ == encoded(key@) && val_enc@
            == encoded(value@),
{
    Request::Put { key_enc: encode(key), val_enc: encode(value) }
}

/// Build the request that deletes one key.
pub fn build_delete(key: &str) -> (r: Request)
    ensures
        r matches Request::Delete { key_enc } && key_enc@ == encoded(key@),
{
    Request::Delete { key_enc: encode(key) }
}

/// Build the request that lists the keys with the given prefix.
pub fn build_list(prefix: &str) -> (r: Request)
    ensures
        r matches Request::List { prefix: p } && p@ == prefix@,
{
    Request::List { prefix: prefix.to_owned() }
}

/// The URL a request is sent to: the base, with `/{key_enc}` appended for
/// the single-key exchanges.
pub fn url_of(base: &str, req: &Request) -> (r: String)
    ensures
        req matches Request::Get { key_enc } ==> r@ == base@ + seq!['/'] + key_enc@,
        req matches Request::Delete { key_enc } ==> r@ == base@ + seq!['/'] + key_enc@,
        req matches Request::Put { .. } ==> r@ == base@,
        req matches Request::List { .. } ==> r@ == base@,
{
    match req {
        Request::Get { key_enc } => key_url(base, key_enc.as_str()),
        Request::Delete { key_enc } => key_url(base, key_enc.as_str()),
        _ => base.to_owned(),
    }
}

fn key_url(base: &str, key_enc: &str) -> (r: String)
    ensures
        r@ == base@ + seq!['/'] + key_enc@,
{
    let mut u = base.to_owned();
    u.append("/");
    u.append(key_enc);
    proof {
        reveal_strlit("/");
        assert("/"@ =~= seq!['/']);
        assert(u@ =~= base@ + seq!['/'] + key_enc@);
    }
    u
}

/// The form body of a set request: `{key_enc}={val_enc}` in one field.
pub fn form_body(key_enc: &str, val_enc: &str) -> (r: String)
    ensures
        r@ == key_enc@ + seq!['='] + val_enc@,
{
    let mut b = key_enc.to_owned();
    b.append("=");
    b.append(val_enc);
    proof {
        reveal_strlit("=");
        assert("="@ =~= seq!['=']);
        assert(b@ =~= key_enc@ + seq!['='] + val_enc@);
    }
    b
}

/// Read a get response: the body on 2xx, absent on 404, otherwise the body
/// as the error message.
pub fn interpret_get(resp: Response) -> (r: Result<Option<String>, DbError>)
    ensures
        is_success(resp.status) ==> (r matches Ok(v) && v matches Some(t) && t@ == resp.body@),
        resp.status == 404 ==> (r matches Ok(v) && v is None),
        !is_success(resp.status) && resp.status != 404 ==> (r matches Err(e) && e matches
            DbError::Remote(m) && m@ == resp.body@),
{
    if 200 <= resp.status && resp.status < 300 {
        Ok(Some(resp.body))
    } else if resp.status == 404 {
        Ok(None)
    } else {
        Err(DbError::Remote(resp.body))
    }
}

/// Read a set response: unit on 2xx, otherwise the body as the error
/// message.
pub fn interpret_set(resp: Response) -> (r: Result<(), DbError>)
    ensures
        is_success(resp.status) ==> r is Ok,
        !is_success(resp.status) ==> (r matches Err(e) && e matches DbError::Remote(m) && m@
            == resp.body@),
{
    if 200 <= resp.status && resp.status < 300 {
        Ok(())
    } else {
        Err(DbError::Remote(resp.body))
    }
}

/// Read a delete response: unit on 2xx and on 404, so deleting an absent
/// key succeeds; otherwise the body as the error message.
pub fn interpret_delete(resp: Response) -> (r: Result<(), DbError>)
    ensures
        is_success(resp.status) || resp.status == 404 ==> r is Ok,
        !is_success(resp.status) && resp.status != 404 ==> (r matches Err(e) && e matches
            DbError::Remote(m) && m@ == resp.body@),
{
    if (200 <= resp.status && resp.status < 300) || resp.status == 404 {
        Ok(())
    } else {
        Err(DbError::Remote(resp.body))
    }
}

/// The pieces of a byte sequence between its newlines.  Splitting an empty
/// sequence gives one empty piece.
pub open spec fn split_lines(b: Seq<u8>) -> Seq<Seq<u8>>
    decreases b.len(),
{
    if b.len() == 0 {
        seq![Seq::<u8>::empty()]
    } else {
        let rest = split_lines(b.drop_first());
        if b[0] == 10 {
            seq![Seq::<u8>::empty()] + rest
        } else {
            seq![seq![b[0]] + rest[0]] + rest.drop_first()
        }
    }
}

/// The pieces joined back with newlines between them.
pub open spec fn join_lines(ls: Seq<Seq<u8>>) -> Seq<u8>
    decreases ls.len(),
{
    if ls.len() == 0 {
        seq![]
    } else if ls.len() == 1 {
        ls[0]
    } else {
        ls[0] + seq![10u8] + join_lines(ls.drop_first())
    }
}

/// Splitting always yields at least one piece.
pub proof fn lemma_split_lines_len(b: Seq<u8>)
    ensures
        split_lines(b).len() >= 1,
    decreases b.len(),
{
    if b.len() == 0 {
    } else {
        lemma_split_lines_len(b.drop_first());
    }
}

/// Splitting a newline-free sequence yields just that sequence.
pub proof fn lemma_split_lines_whole(b: Seq<u8>)
    requires
        forall|i: int| 0 <= i < b.len() ==> #[trigger] b[i] != 10,
    ensures
        split_lines(b) == seq![b],
    decreases b.len(),
{
    if b.len() == 0 {
        assert(split_lines(b) =~~= seq![b]);
    } else {
        lemma_split_lines_whole(b.drop_first());
        assert(seq![b[0]] + b.drop_first() =~= b);
        assert(split_lines(b) =~~= seq![b]);
    }
}

/// Splitting after a newline-free prefix extends the first piece.
pub proof fn lemma_split_lines_prepend(a: Seq<u8>, b: Seq<u8>)
    requires
        forall|i: int| 0 <= i < a.len() ==> #[trigger] a[i] != 10,
    ensures
        split_lines(a + b) == seq![a + split_lines(b)[0]] + split_lines(b).drop_first(),
    decreases a.len(),
{
    lemma_split_lines_len(b);
    if a.len() == 0 {
        assert(a + b =~= b);
        assert(split_lines(b) =~~= seq![a + split_lines(b)[0]] + split_lines(b).drop_first());
    } else {
        lemma_split_lines_prepend(a.drop_first(), b);
        assert((a + b).drop_first() =~= a.drop_first() + b);
        assert((a + b)[0] == a[0] && a[0] != 10);
        let r = split_lines(a.drop_first() + b);
        assert(r[0] == a.drop_first() + split_lines(b)[0]);
        assert(seq![a[0]] + (a.drop_first() + split_lines(b)[0]) =~= a + split_lines(b)[0]);
        assert(split_lines(a + b) =~~= seq![a + split_lines(b)[0]] + split_lines(b).drop_first());
    }
}

/// Splitting inverts joining, for pieces that hold no newline.
pub proof fn lemma_split_join(ls: Seq<Seq<u8>>)
    requires
        ls.len() >= 1,
        forall|i: int, j: int|
            0 <= i < ls.len() && 0 <= j < ls[i].len() ==> #[trigger] ls[i][j] != 10,
    ensures
        split_lines(join_lines(ls)) == ls,
    decreases ls.len(),
{
    if ls.len() == 1 {
        lemma_split_lines_whole(ls[0]);
        assert(split_lines(join_lines(ls)) =~~= ls);
    } else {
        lemma_split_join(ls.drop_first());
        let tail = seq![10u8] + join_lines(ls.drop_first());
        assert(join_lines(ls) =~= ls[0] + tail);
        assert(tail[0] == 10);
        assert(tail.drop_first() =~= join_lines(ls.drop_first()));
        lemma_split_lines_prepend(ls[0], tail);
        assert(split_lines(tail) =~~= seq![Seq::<u8>::empty()] + ls.drop_first());
        assert(ls[0] + split_lines(tail)[0] =~= ls[0]);
        assert(split_lines(join_lines(ls)) =~~= ls);
    }
}

/// Appending one byte extends the last piece, or opens a new one.
#[verifier::rlimit(50)]
proof fn lemma_split_lines_push(b: Seq<u8>, c: u8)
    ensures
        c == 10 ==> split_lines(b + seq![c]) == split_lines(b) + seq![Seq::<u8>::empty()],
        c != 10 ==> split_lines(b + seq![c]) == split_lines(b).update(
            split_lines(b).len() - 1,
            split_lines(b).last() + seq![c],
        ),
    decreases b.len(),
{
    reveal_with_fuel(split_lines, 2);
    lemma_split_lines_len(b);
    if b.len() == 0 {
        assert((b + seq![c]).drop_first() =~= Seq::<u8>::empty());
        if c == 10 {
            assert(split_lines(b + seq![c]) =~~= split_lines(b) + seq![Seq::<u8>::empty()]);
        } else {
            assert(seq![c] + Seq::<u8>::empty() =~= seq![c]);
            assert(split_lines(b).last() + seq![c] =~= seq![c]);
            assert(split_lines(b + seq![c]) =~~= split_lines(b).update(0, seq![c]));
        }
    } else {
        lemma_split_lines_push(b.drop_first(), c);
        lemma_split_lines_len(b.drop_first());
        assert((b + seq![c]).drop_first() =~= b.drop_first() + seq![c]);
        assert((b + seq![c])[0] == b[0]);
        let r = split_lines(b.drop_first());
        let rx = split_lines(b.drop_first() + seq![c]);
        if c == 10 {
            if b[0] == 10 {
                assert(split_lines(b + seq![c]) =~~= split_lines(b) + seq![Seq::<u8>::empty()]);
            } else {
                assert(rx[0] == r[0]);
                assert(rx.drop_first() =~= r.drop_first() + seq![Seq::<u8>::empty()]);
                assert(split_lines(b + seq![c]) =~~= split_lines(b) + seq![Seq::<u8>::empty()]);
            }
        } else {
            if b[0] == 10 {
                assert(split_lines(b + seq![c]) =~~= split_lines(b).update(
                    split_lines(b).len() - 1,
                    split_lines(b).last() + seq![c],
                ));
            } else {
                if r.len() == 1 {
                    assert(rx[0] == r[0] + seq![c]);
                    assert(split_lines(b + seq![c]) =~~= split_lines(b).update(
                        split_lines(b).len() - 1,
                        split_lines(b).last() + seq![c],
                    ));
                } else {
                    assert(rx[0] == r[0]);
                    assert(rx.drop_first() =~= r.drop_first().update(
                        r.len() - 2,
                        r.last() + seq![c],
                    ));
                    assert(split_lines(b + seq![c]) =~~= split_lines(b).update(
                        split_lines(b).len() - 1,
                        split_lines(b).last() + seq![c],
                    ));
                }
            }
        }
    }
}

/// Split a byte sequence at its newlines.
pub fn split_lines_x(b: &Vec<u8>) -> (r: Vec<Vec<u8>>)
    ensures
        r.deep_view() == split_lines(b@),
{
    let mut out: Vec<Vec<u8>> = Vec::new();
    let mut cur: Vec<u8> = Vec::new();
    let mut i: usize = 0;
    proof {
        assert(b@.take(0int) =~= Seq::<u8>::empty());
        assert(out.deep_view() + seq![cur@] =~~= split_lines(b@.take(0int)));
    }
    while i < b.len()
        invariant
            i <= b@.len(),
            out.deep_view() + seq![cur@] == split_lines(b@.take(i as int)),
        decreases b@.len() - i,
    {
        let ghost pre = b@.take(i as int);
        proof {
            lemma_split_lines_push(pre, b@[i as int]);
            assert(pre + seq![b@[i as int]] =~= b@.take(i as int + 1));
            lemma_split_lines_len(pre);
        }
        let c = b[i];
        if c == 10 {
            out.push(cur);
            cur = Vec::new();
            proof {
                assert(out.deep_view() + seq![cur@] =~~= split_lines(b@.take(i as int + 1)));
            }
        } else {
            cur.push(c);
            proof {
                assert((out.deep_view() + seq![cur@]).last() == cur@);
                assert(out.deep_view() + seq![cur@] =~~= split_lines(pre).update(
                    split_lines(pre).len() - 1,
                    split_lines(pre).last() + seq![c],
                ));
            }
        }
        i = i + 1;
    }
    proof {
        assert(b@.take(b@.len() as int) =~= b@);
    }
    out.push(cur);
    proof {
        assert(out.deep_view() =~~= split_lines(b@));
    }
    out
}

/// How one listing line is read: percent-unescape its bytes, then read them
/// as UTF-8.
pub open spec fn line_decoded(piece: Seq<u8>) -> Result<Seq<char>, DecodeError> {
    match pct_decoded(piece) {
        None => Err(DecodeError::InvalidEscape),
        Some(d) => if valid_utf8(d) {
            Ok(decode_utf8(d))
        } else {
            Err(DecodeError::InvalidUtf8)
        },
    }
}

/// Decode every listing line, stopping at the first bad one.
pub open spec fn decode_lines(pieces: Seq<Seq<u8>>) -> Result<Seq<Seq<char>>, DecodeError>
    decreases pieces.len(),
{
    if pieces.len() == 0 {
        Ok(seq![])
    } else {
        match line_decoded(pieces[0]) {
            Err(e) => Err(e),
            Ok(k) => match decode_lines(pieces.drop_first()) {
                Err(e) => Err(e),
                Ok(rest) => Ok(seq![k] + rest),
            },
        }
    }
}

/// The keys a listing body names: none for an empty body, otherwise its
/// newline-separated pieces, each percent-decoded.
pub open spec fn parse_listing(body: Seq<char>) -> Result<Seq<Seq<char>>, DecodeError> {
    if body.len() == 0 {
        Ok(seq![])
    } else {
        decode_lines(split_lines(encode_utf8(body)))
    }
}

/// The wire form of one listing line: the percent-encoded UTF-8 bytes of a
/// key.
pub open spec fn enc_line(k: Seq<char>) -> Seq<u8> {
    crate::codec::pct_encoded(encode_utf8(k))
}

/// Each key as a listing line.
pub open spec fn enc_lines(ks: Seq<Seq<char>>) -> Seq<Seq<u8>>
    decreases ks.len(),
{
    if ks.len() == 0 {
        seq![]
    } else {
        seq![enc_line(ks[0])] + enc_lines(ks.drop_first())
    }
}

/// The listing body for a sequence of keys: their encoded forms joined with
/// newlines, and nothing at all for no keys.
pub open spec fn listing_bytes(ks: Seq<Seq<char>>) -> Seq<u8>
    decreases ks.len(),
{
    if ks.len() == 0 {
        seq![]
    } else if ks.len() == 1 {
        enc_line(ks[0])
    } else {
        enc_line(ks[0]) + seq![10u8] + listing_bytes(ks.drop_first())
    }
}

/// One more key appends a separator and its encoded form.
pub proof fn lemma_listing_bytes_push(ks: Seq<Seq<char>>, k: Seq<char>)
    ensures
        ks.len() == 0 ==> listing_bytes(ks.push(k)) == enc_line(k),
        ks.len() > 0 ==> listing_bytes(ks.push(k)) == listing_bytes(ks) + seq![10u8] + enc_line(k),
    decreases ks.len(),
{
    reveal_with_fuel(listing_bytes, 3);
    if ks.len() == 0 {
        assert(ks.push(k)[0] =~= k);
    } else if ks.len() == 1 {
        assert(ks.push(k)[0] =~= ks[0]);
        assert(ks.push(k).drop_first() =~~= seq![k]);
        assert(listing_bytes(seq![k]) == enc_line(k));
        assert(listing_bytes(ks.push(k)) =~= listing_bytes(ks) + seq![10u8] + enc_line(k));
    } else {
        lemma_listing_bytes_push(ks.drop_first(), k);
        assert(ks.push(k).drop_first() =~~= ks.drop_first().push(k));
        assert(ks.push(k)[0] =~= ks[0]);
        assert(listing_bytes(ks.push(k)) =~= listing_bytes(ks) + seq![10u8] + enc_line(k));
    }
}

/// The listing body is the joined encoded lines.
proof fn lemma_listing_bytes_join(ks: Seq<Seq<char>>)
    ensures
        listing_bytes(ks) == join_lines(enc_lines(ks)),
        enc_lines(ks).len() == ks.len(),
        forall|i: int| 0 <= i < ks.len() ==> #[trigger] enc_lines(ks)[i] == enc_line(ks[i]),
    decreases ks.len(),
{
    if ks.len() == 0 {
    } else {
        lemma_listing_bytes_join(ks.drop_first());
        assert(enc_lines(ks).drop_first() =~~= enc_lines(ks.drop_first()));
        if ks.len() == 1 {
            assert(join_lines(enc_lines(ks)) == enc_lines(ks)[0]);
        }
    }
}

/// A sequence of encoded lines decodes back to the keys it came from.
proof fn lemma_decode_lines_encoded(ks: Seq<Seq<char>>)
    ensures
        decode_lines(enc_lines(ks)) == Ok::<Seq<Seq<char>>, DecodeError>(ks),
    decreases ks.len(),
{
    if ks.len() == 0 {
        assert(enc_lines(ks) =~~= Seq::<Seq<u8>>::empty());
        assert(enc_lines(ks).len() == 0);
        assert(ks =~~= seq![]);
    } else {
        lemma_decode_lines_encoded(ks.drop_first());
        crate::codec::lemma_pct_roundtrip(encode_utf8(ks[0]));
        encode_utf8_valid_utf8(ks[0]);
        encode_utf8_decode_utf8(ks[0]);
        assert(line_decoded(enc_line(ks[0])) == Ok::<Seq<char>, DecodeError>(ks[0]));
        assert(enc_lines(ks)[0] == enc_line(ks[0]));
        assert(enc_lines(ks).drop_first() =~~= enc_lines(ks.drop_first()));
        assert(enc_lines(ks).len() > 0);
        assert(decode_lines(enc_lines(ks)) == Ok::<Seq<Seq<char>>, DecodeError>(
            seq![ks[0]] + ks.drop_first(),
        ));
        assert(seq![ks[0]] + ks.drop_first() =~~= ks);
    }
}

/// A string whose UTF-8 bytes are empty is empty.
proof fn lemma_empty_bytes_empty_chars(s: Seq<char>)
    requires
        encode_utf8(s).len() == 0,
    ensures
        s.len() == 0,
{
    encode_utf8_decode_utf8(s);
    assert(encode_utf8(s) =~= Seq::<u8>::empty());
    assert(decode_utf8(Seq::<u8>::empty()) =~= Seq::<char>::empty());
}

/// What a listing makes visible: every key, except that a listing holding
/// exactly the empty key has an empty body, which reads back as no keys.
pub open spec fn visible_keys(ks: Seq<Seq<char>>) -> Seq<Seq<char>> {
    if ks.len() == 1 && ks[0].len() == 0 {
        Seq::empty()
    } else {
        ks
    }
}

/// Reading a body that carries a listing gives back its visible keys.
pub proof fn lemma_parse_listing_bytes(body: Seq<char>, ks: Seq<Seq<char>>)
    requires
        encode_utf8(body) == listing_bytes(ks),
    ensures
        parse_listing(body) == Ok::<Seq<Seq<char>>, DecodeError>(visible_keys(ks)),
{
    if listing_bytes(ks).len() == 0 {
        lemma_empty_bytes_empty_chars(body);
        if ks.len() == 1 {
            crate::codec::lemma_pct_roundtrip(encode_utf8(ks[0]));
            if ks[0].len() > 0 {
                lemma_empty_bytes_empty_chars(ks[0]);
            }
            assert(visible_keys(ks) =~~= Seq::<Seq<char>>::empty());
        } else if ks.len() > 1 {
            assert(listing_bytes(ks).len() >= 1);
        } else {
            assert(visible_keys(ks) =~~= Seq::<Seq<char>>::empty());
        }
        assert(Seq::<Seq<char>>::empty() =~~= seq![]);
        assert(parse_listing(body) == Ok::<Seq<Seq<char>>, DecodeError>(visible_keys(ks)));
    } else {
        if ks.len() == 1 && ks[0].len() == 0 {
            assert(encode_utf8(ks[0]) =~= Seq::<u8>::empty());
            assert(listing_bytes(ks).len() == 0);
        }
        assert(body.len() != 0) by {
            if body.len() == 0 {
                assert(encode_utf8(body) =~= Seq::<u8>::empty());
            }
        }
        lemma_listing_bytes_join(ks);
        assert(ks.len() >= 1);
        assert forall|i: int, j: int|
            0 <= i < enc_lines(ks).len() && 0 <= j < enc_lines(ks)[i].len() implies #[trigger] enc_lines(
            ks,
        )[i][j] != 10 by {
            crate::codec::lemma_pct_encoded_safe(encode_utf8(ks[i]));
            assert(crate::codec::url_safe_byte(enc_line(ks[i])[j]));
        }
        lemma_split_join(enc_lines(ks));
        lemma_decode_lines_encoded(ks);
        assert(split_lines(encode_utf8(body)) == enc_lines(ks));
        assert(parse_listing(body) == decode_lines(enc_lines(ks)));
        assert(visible_keys(ks) == ks);
    }
}

/// The keys whose listing lines a store with these keys would send, given a
/// prefix: those the prefix starts.
pub open spec fn with_prefix(ks: Seq<Seq<char>>, p: Seq<char>) -> Seq<Seq<char>> {
    ks.filter(|k: Seq<char>| p.is_prefix_of(k))
}

/// Filtering one more key keeps it exactly when the prefix starts it.
pub proof fn lemma_with_prefix_push(ks: Seq<Seq<char>>, p: Seq<char>, k: Seq<char>)
    ensures
        p.is_prefix_of(k) ==> with_prefix(ks.push(k), p) == with_prefix(ks, p).push(k),
        !p.is_prefix_of(k) ==> with_prefix(ks.push(k), p) == with_prefix(ks, p),
{
    reveal_with_fuel(Seq::filter, 1);
    assert(ks.push(k).drop_last() =~~= ks);
    assert(ks.push(k).last() == k);
}

/// The empty prefix starts every key, so it filters nothing out.
pub proof fn lemma_with_prefix_empty(ks: Seq<Seq<char>>)
    ensures
        with_prefix(ks, Seq::empty()) == ks,
    decreases ks.len(),
{
    reveal_with_fuel(Seq::filter, 1);
    if ks.len() == 0 {
        assert(with_prefix(ks, Seq::empty()) =~~= ks);
    } else {
        lemma_with_prefix_empty(ks.drop_last());
        assert(Seq::<char>::empty().is_prefix_of(ks.last())) by {
            assert(Seq::<char>::empty() =~= ks.last().subrange(0, 0));
        }
        assert(with_prefix(ks, Seq::empty()) =~~= ks.drop_last().push(ks.last()));
        assert(ks.drop_last().push(ks.last()) =~~= ks);
    }
}

/// The keys a listing exchange for this prefix reports.
pub open spec fn listed_keys(ks: Seq<Seq<char>>, p: Seq<char>) -> Seq<Seq<char>> {
    visible_keys(with_prefix(ks, p))
}

/// A key passes the prefix filter exactly when it is present and the
/// prefix starts it.
pub proof fn lemma_with_prefix_members(ks: Seq<Seq<char>>, p: Seq<char>)
    ensures
        forall|k: Seq<char>| #[trigger]
            with_prefix(ks, p).contains(k) <==> (ks.contains(k) && p.is_prefix_of(k)),
    decreases ks.len(),
{
    reveal_with_fuel(Seq::filter, 1);
    if ks.len() == 0 {
        assert forall|k: Seq<char>| #[trigger]
            with_prefix(ks, p).contains(k) <==> (ks.contains(k) && p.is_prefix_of(k)) by {
            assert(!with_prefix(ks, p).contains(k));
            assert(!ks.contains(k));
        }
    } else {
        lemma_with_prefix_members(ks.drop_last(), p);
        let dl = ks.drop_last();
        let last = ks.last();
        assert forall|k: Seq<char>| #[trigger]
            with_prefix(ks, p).contains(k) <==> (ks.contains(k) && p.is_prefix_of(k)) by {
            if with_prefix(ks, p).contains(k) {
                let i = choose|i: int|
                    0 <= i < with_prefix(ks, p).len() && with_prefix(ks, p)[i] == k;
                if p.is_prefix_of(last) && i == with_prefix(ks, p).len() - 1 {
                    assert(k == last);
                    assert(ks[ks.len() - 1] == k);
                } else {
                    assert(with_prefix(dl, p)[i] == k);
                    assert(with_prefix(dl, p).contains(k));
                    let j = choose|j: int| 0 <= j < dl.len() && dl[j] == k;
                    assert(ks[j] == k);
                }
            }
            if ks.contains(k) && p.is_prefix_of(k) {
                let j = choose|j: int| 0 <= j < ks.len() && ks[j] == k;
                if j == ks.len() - 1 {
                    assert(with_prefix(ks, p).last() == k);
                } else {
                    assert(dl[j] == k);
                    assert(with_prefix(dl, p).contains(k));
                    let i = choose|i: int|
                        0 <= i < with_prefix(dl, p).len() && with_prefix(dl, p)[i] == k;
                    assert(with_prefix(ks, p)[i] == k);
                }
            }
        }
    }
}

/// The prefix filter repeats no key, when the store repeats none.
pub proof fn lemma_with_prefix_unique(ks: Seq<Seq<char>>, p: Seq<char>)
    requires
        forall|a: int, b: int| 0 <= a < b < ks.len() ==> ks[a] != ks[b],
    ensures
        forall|a: int, b: int|
            0 <= a < b < with_prefix(ks, p).len() ==> with_prefix(ks, p)[a] != with_prefix(
                ks,
                p,
            )[b],
    decreases ks.len(),
{
    reveal_with_fuel(Seq::filter, 1);
    if ks.len() == 0 {
    } else {
        let dl = ks.drop_last();
        let last = ks.last();
        lemma_with_prefix_unique(dl, p);
        lemma_with_prefix_members(dl, p);
        assert forall|a: int, b: int|
            0 <= a < b < with_prefix(ks, p).len() implies with_prefix(ks, p)[a] != with_prefix(
            ks,
            p,
        )[b] by {
            if p.is_prefix_of(last) && b == with_prefix(ks, p).len() - 1 {
                assert(with_prefix(ks, p)[a] == with_prefix(dl, p)[a]);
                assert(with_prefix(dl, p).contains(with_prefix(dl, p)[a]));
                if with_prefix(ks, p)[a] == last {
                    assert(dl.contains(last));
                    let j = choose|j: int| 0 <= j < dl.len() && dl[j] == last;
                    assert(ks[j] == ks[ks.len() - 1]);
                }
            } else {
                assert(with_prefix(ks, p)[a] == with_prefix(dl, p)[a]);
                assert(with_prefix(ks, p)[b] == with_prefix(dl, p)[b]);
            }
        }
    }
}

/// Read a list response: on 2xx the decoded keys of the body, a decode
/// error if a line refuses, otherwise the body as the error message.
pub fn interpret_list(resp: Response) -> (r: Result<Vec<String>, DbError>)
    ensures
        is_success(resp.status) ==> match parse_listing(resp.body@) {
            Ok(ks) => r matches Ok(v) && v.deep_view() == ks,
            Err(de) => r matches Err(e) && e == DbError::Decode(de),
        },
        !is_success(resp.status) ==> (r matches Err(e) && e matches DbError::Remote(m) && m@
            == resp.body@),
{
    if !(200 <= resp.status && resp.status < 300) {
        return Err(DbError::Remote(resp.body));
    }
    if resp.body.as_str().is_empty() {
        let keys: Vec<String> = Vec::new();
        proof {
            assert(keys.deep_view() =~~= Seq::<Seq<char>>::empty());
        }
        return Ok(keys);
    }
    let bytes = resp.body.as_str().as_bytes_vec();
    let pieces = split_lines_x(&bytes);
    let mut keys: Vec<String> = Vec::new();
    let mut j: usize = 0;
    let ghost all = pieces.deep_view();
    proof {
        assert(bytes@ == encode_utf8(resp.body@));
        assert(resp.body@.len() != 0);
        assert(all.skip(0int) =~~= all);
        assert(keys.deep_view() =~~= Seq::<Seq<char>>::empty());
        match decode_lines(all) {
            Ok(ks) => {
                assert(Seq::<Seq<char>>::empty() + ks =~~= ks);
            },
            Err(_) => {},
        }
    }
    while j < pieces.len()
        invariant
            j <= all.len(),
            is_success(resp.status),
            resp.body@.len() != 0,
            all == split_lines(encode_utf8(resp.body@)),
            all == pieces.deep_view(),
            pieces@.len() == all.len(),
            decode_lines(all) == match decode_lines(all.skip(j as int)) {
                Ok(rest) => Ok::<Seq<Seq<char>>, DecodeError>(keys.deep_view() + rest),
                Err(e) => Err::<Seq<Seq<char>>, DecodeError>(e),
            },
        decreases all.len() - j,
    {
        let ghost remaining = all.skip(j as int);
        proof {
            assert(pieces@[j as int].deep_view() =~= pieces@[j as int]@);
            assert(remaining[0] =~= pieces@[j as int]@);
            assert(remaining.drop_first() =~~= all.skip(j as int + 1));
        }
        let piece = &pieces[j];
        match pct_decode(piece) {
            None => {
                proof {
                    assert(line_decoded(remaining[0]) == Err::<Seq<char>, DecodeError>(
                        DecodeError::InvalidEscape,
                    ));
                    assert(decode_lines(all) == Err::<Seq<Seq<char>>, DecodeError>(
                        DecodeError::InvalidEscape,
                    ));
                }
                return Err(DbError::Decode(DecodeError::InvalidEscape));
            },
            Some(d) => match crate::codec::string_from_utf8(d) {
                None => {
                    proof {
                        assert(line_decoded(remaining[0]) == Err::<Seq<char>, DecodeError>(
                            DecodeError::InvalidUtf8,
                        ));
                        assert(decode_lines(all) == Err::<Seq<Seq<char>>, DecodeError>(
                            DecodeError::InvalidUtf8,
                        ));
                    }
                    return Err(DbError::Decode(DecodeError::InvalidUtf8));
                },
                Some(k) => {
                    let ghost kd = keys.deep_view();
                    proof {
                        assert(line_decoded(remaining[0]) == Ok::<Seq<char>, DecodeError>(k@));
                    }
                    keys.push(k);
                    proof {
                        assert(keys.deep_view() =~~= kd + seq![k@]);
                        match decode_lines(all.skip(j as int + 1)) {
                            Ok(rest) => {
                                assert(decode_lines(remaining) == Ok::<
                                    Seq<Seq<char>>,
                                    DecodeError,
                                >(seq![k@] + rest));
                                assert((kd + seq![k@]) + rest =~~= kd + (seq![k@] + rest));
                            },
                            Err(_) => {},
                        }
                    }
                },
            },
        }
        j = j + 1;
    }
    proof {
        assert(all.skip(all.len() as int) =~~= Seq::<Seq<u8>>::empty());
        assert(keys.deep_view() + Seq::<Seq<char>>::empty() =~~= keys.deep_view());
    }
    Ok(keys)
}

} // verus!
