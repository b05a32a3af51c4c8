//! An in-memory key-value store that answers the wire protocol.
//!
//! The store keeps its pairs in insertion order and its keys unique, as the
//! remote service does, and `handle` answers each `Request` exactly as the
//! wire contract describes: values for 2xx, 404 for an absent key, a
//! newline-separated encoded listing.  Driving the client's request
//! builders and response readers against it verifies a whole exchange end
//! to end.

use vstd::prelude::*;
use vstd::string::StrSliceExecFns;
use vstd::utf8::{encode_utf8, encode_utf8_decode_utf8};

use crate::codec::{decode, decoded, lemma_pct_encoded_safe, lemma_prefix_bytes, pct_encode,
    string_from_utf8, url_safe_byte};
use crate::protocol::{enc_line, lemma_listing_bytes_push, lemma_with_prefix_push, listing_bytes,
    with_prefix, Request, Response};

verus! {

/// The store: parallel vectors of keys and values, keys unique.
pub struct Store {
    pub keys: Vec<String>,
    pub vals: Vec<String>,
}

impl Store {
    /// The keys, in insertion order.
    pub open spec fn keys_view(&self) -> Seq<Seq<char>> {
        Seq::new(self.keys@.len(), |i: int| self.keys@[i]@)
    }

    /// The values, aligned with the keys.
    pub open spec fn vals_view(&self) -> Seq<Seq<char>> {
        Seq::new(self.vals@.len(), |i: int| self.vals@[i]@)
    }

    /// Every key is paired with a value, and no key repeats.
    pub open spec fn wf(&self) -> bool {
        &&& self.keys@.len() == self.vals@.len()
        &&& forall|a: int, b: int|
            0 <= a < b < self.keys_view().len() ==> self.keys_view()[a] != self.keys_view()[b]
    }

    /// Whether a key is present.
    pub open spec fn has_key(&self, k: Seq<char>) -> bool {
        self.keys_view().contains(k)
    }

    /// Where a key sits.
    pub open spec fn key_at(&self, k: Seq<char>) -> int {
        self.keys_view().index_of(k)
    }

    /// The value under a key, if any.
    pub open spec fn lookup(&self, k: Seq<char>) -> Option<Seq<char>> {
        if self.has_key(k) {
            Some(self.vals_view()[self.key_at(k)])
        } else {
            None
        }
    }
}

/// A known index pins down what `lookup` returns.
pub proof fn lemma_lookup_from_index(s: &Store, k: Seq<char>, i: int)
    requires
        s.wf(),
        0 <= i < s.keys_view().len(),
        s.keys_view()[i] == k,
    ensures
        s.has_key(k),
        s.key_at(k) == i,
        s.lookup(k) == Some(s.vals_view()[i]),
{
    assert(s.has_key(k));
    let j = s.key_at(k);
    assert(0 <= j < s.keys_view().len() && s.keys_view()[j] == k);
    if j < i {
        assert(s.keys_view()[j] != s.keys_view()[i]);
    } else if i < j {
        assert(s.keys_view()[i] != s.keys_view()[j]);
    }
}

/// What a successful store of `v` under `k` does: `k` now maps to `v`, a
/// fresh key goes to the end of the order, and every other key is
/// untouched.
pub open spec fn set_effect(pre: Store, post: Store, k: Seq<char>, v: Seq<char>) -> bool {
    &&& post.lookup(k) == Some(v)
    &&& post.keys_view() == if pre.has_key(k) {
        pre.keys_view()
    } else {
        pre.keys_view().push(k)
    }
    &&& forall|k2: Seq<char>| k2 != k ==> post.lookup(k2) == pre.lookup(k2)
}

/// What a delete of `k` does: `k` is gone, the order of the others stands,
/// and every other key is untouched.  Deleting an absent key changes
/// nothing.
pub open spec fn delete_effect(pre: Store, post: Store, k: Seq<char>) -> bool {
    &&& !post.has_key(k)
    &&& post.keys_view() == if pre.has_key(k) {
        pre.keys_view().remove(pre.key_at(k))
    } else {
        pre.keys_view()
    }
    &&& forall|k2: Seq<char>| k2 != k ==> post.lookup(k2) == pre.lookup(k2)
}

/// The response a get request earns: the value for a present key, 404 for
/// an absent one, 400 for a key that does not decode.
pub open spec fn get_response(s: Store, key_enc: Seq<char>, resp: Response) -> bool {
    match decoded(key_enc) {
        Ok(k) => match s.lookup(k) {
            Some(v) => resp.status == 200 && resp.body@ == v,
            None => resp.status == 404,
        },
        Err(_) => resp.status == 400,
    }
}

/// The exchange a put request performs.
pub open spec fn put_wire(
    pre: Store,
    post: Store,
    key_enc: Seq<char>,
    val_enc: Seq<char>,
    resp: Response,
) -> bool {
    match (decoded(key_enc), decoded(val_enc)) {
        (Ok(k), Ok(v)) => resp.status == 200 && set_effect(pre, post, k, v),
        _ => resp.status == 400 && post == pre,
    }
}

/// The exchange a delete request performs.
pub open spec fn delete_wire(pre: Store, post: Store, key_enc: Seq<char>, resp: Response) -> bool {
    match decoded(key_enc) {
        Ok(k) => {
            &&& delete_effect(pre, post, k)
            &&& resp.status == (if pre.has_key(k) {
                200u16
            } else {
                404u16
            })
        },
        Err(_) => resp.status == 400 && post == pre,
    }
}

/// The response a list request earns: always 200, the body carrying the
/// listing of the keys the prefix starts, in insertion order.
pub open spec fn list_response(s: Store, prefix: Seq<char>, resp: Response) -> bool {
    &&& resp.status == 200
    &&& encode_utf8(resp.body@) == listing_bytes(with_prefix(s.keys_view(), prefix))
}

/// Whether two strings spell the same characters, decided on their bytes.
fn str_eq_x(a: &str, b: &str) -> (r: bool)
    ensures
        r == (a@ == b@),
{
    let ab = a.as_bytes_vec();
    let bb = b.as_bytes_vec();
    if ab.len() != bb.len() {
        proof {
            if a@ == b@ {
                assert(encode_utf8(a@) == encode_utf8(b@));
            }
        }
        return false;
    }
    let mut i: usize = 0;
    while i < ab.len()
        invariant
            ab@ == encode_utf8(a@),
            bb@ == encode_utf8(b@),
            ab@.len() == bb@.len(),
            i <= ab@.len(),
            forall|m: int| 0 <= m < i ==> ab@[m] == bb@[m],
        decreases ab@.len() - i,
    {
        if ab[i] != bb[i] {
            proof {
                if a@ == b@ {
                    assert(encode_utf8(a@) == encode_utf8(b@));
                }
            }
            return false;
        }
        i = i + 1;
    }
    proof {
        assert(ab@ =~= bb@);
        encode_utf8_decode_utf8(a@);
        encode_utf8_decode_utf8(b@);
    }
    true
}

/// Whether `prefix` starts `key`, decided on their bytes.
fn has_prefix_x(key: &str, prefix: &str) -> (r: bool)
    ensures
        r == prefix@.is_prefix_of(key@),
{
    proof {
        lemma_prefix_bytes(prefix@, key@);
    }
    let kb = key.as_bytes_vec();
    let pb = prefix.as_bytes_vec();
    if pb.len() > kb.len() {
        return false;
    }
    let mut i: usize = 0;
    while i < pb.len()
        invariant
            kb@ == encode_utf8(key@),
            pb@ == encode_utf8(prefix@),
            pb@.len() <= kb@.len(),
            i <= pb@.len(),
            forall|m: int| 0 <= m < i ==> pb@[m] == kb@[m],
            prefix@.is_prefix_of(key@) <==> pb@.is_prefix_of(kb@),
        decreases pb@.len() - i,
    {
        if pb[i] != kb[i] {
            proof {
                if pb@.is_prefix_of(kb@) {
                    assert(pb@ =~= kb@.subrange(0, pb@.len() as int));
                    assert(pb@[i as int] == kb@[i as int]);
                }
            }
            return false;
        }
        i = i + 1;
    }
    proof {
        assert(pb@ =~= kb@.subrange(0, pb@.len() as int));
    }
    true
}

impl Store {
    /// An empty store.
    pub fn new() -> (s: Store)
        ensures
            s.wf(),
            s.keys_view().len() == 0,
    {
        Store { keys: Vec::new(), vals: Vec::new() }
    }

    /// The index of a key, by linear scan.
    fn find(&self, key: &str) -> (r: Option<usize>)
        requires
            self.wf(),
        ensures
            match r {
                Some(i) => i < self.keys_view().len() && self.keys_view()[i as int] == key@,
                None => !self.has_key(key@),
            },
    {
        let mut i: usize = 0;
        while i < self.keys.len()
            invariant
                i <= self.keys@.len(),
                forall|m: int| 0 <= m < i ==> self.keys_view()[m] != key@,
            decreases self.keys@.len() - i,
        {
            if str_eq_x(self.keys[i].as_str(), key) {
                return Some(i);
            }
            i = i + 1;
        }
        proof {
            if self.has_key(key@) {
                let j = choose|j: int|
                    0 <= j < self.keys_view().len() && self.keys_view()[j] == key@;
                assert(self.keys_view()[j] != key@);
            }
        }
        None
    }

    fn wire_get(&self, key_enc: &str) -> (resp: Response)
        requires
            self.wf(),
        ensures
            get_response(*self, key_enc@, resp),
    {
        match decode(key_enc) {
            Err(_) => Response { status: 400, body: String::new() },
            Ok(k) => match self.find(k.as_str()) {
                Some(i) => {
                    let body = self.vals[i].clone();
                    proof {
                        lemma_lookup_from_index(self, k@, i as int);
                    }
                    Response { status: 200, body }
                },
                None => Response { status: 404, body: String::new() },
            },
        }
    }

    fn wire_put(&mut self, key_enc: &str, val_enc: &str) -> (resp: Response)
        requires
            old(self).wf(),
        ensures
            final(self).wf(),
            put_wire(*old(self), *final(self), key_enc@, val_enc@, resp),
    {
        let k = match decode(key_enc) {
            Ok(k) => k,
            Err(_) => {
                return Response { status: 400, body: String::new() };
            },
        };
        let v = match decode(val_enc) {
            Ok(v) => v,
            Err(_) => {
                return Response { status: 400, body: String::new() };
            },
        };
        let ghost kk = k@;
        let ghost vv = v@;
        let ghost pre = *self;
        match self.find(k.as_str()) {
            Some(i) => {
                self.vals.remove(i);
                self.vals.insert(i, v);
                proof {
                    assert(self.keys_view() =~= pre.keys_view());
                    assert(self.vals_view() =~= pre.vals_view().update(i as int, vv));
                    lemma_lookup_from_index(self, kk, i as int);
                    assert forall|k2: Seq<char>| k2 != kk implies self.lookup(k2) == pre.lookup(
                        k2,
                    ) by {
                        if pre.has_key(k2) {
                            let j = pre.key_at(k2);
                            assert(pre.keys_view()[j] == k2);
                            lemma_lookup_from_index(&pre, k2, j);
                            lemma_lookup_from_index(self, k2, j);
                        } else {
                            assert(!self.has_key(k2));
                        }
                    }
                }
            },
            None => {
                self.keys.push(k);
                self.vals.push(v);
                proof {
                    assert(self.keys_view() =~= pre.keys_view().push(kk));
                    assert(self.vals_view() =~= pre.vals_view().push(vv));
                    assert forall|a: int, b: int|
                        0 <= a < b < self.keys_view().len() implies self.keys_view()[a]
                        != self.keys_view()[b] by {
                        if b == self.keys_view().len() - 1 {
                            assert(self.keys_view()[a] == pre.keys_view()[a]);
                            assert(!pre.has_key(kk));
                        }
                    }
                    lemma_lookup_from_index(self, kk, pre.keys_view().len() as int);
                    assert forall|k2: Seq<char>| k2 != kk implies self.lookup(k2) == pre.lookup(
                        k2,
                    ) by {
                        if pre.has_key(k2) {
                            let j = pre.key_at(k2);
                            assert(pre.keys_view()[j] == k2);
                            lemma_lookup_from_index(&pre, k2, j);
                            lemma_lookup_from_index(self, k2, j);
                        } else {
                            if self.has_key(k2) {
                                let j = self.key_at(k2);
                                assert(self.keys_view()[j] == k2);
                                assert(j == self.keys_view().len() - 1);
                            }
                        }
                    }
                }
            },
        }
        Response { status: 200, body: String::new() }
    }

    fn wire_delete(&mut self, key_enc: &str) -> (resp: Response)
        requires
            old(self).wf(),
        ensures
            final(self).wf(),
            delete_wire(*old(self), *final(self), key_enc@, resp),
    {
        let k = match decode(key_enc) {
            Ok(k) => k,
            Err(_) => {
                return Response { status: 400, body: String::new() };
            },
        };
        let ghost kk = k@;
        let ghost pre = *self;
        match self.find(k.as_str()) {
            Some(i) => {
                self.keys.remove(i);
                self.vals.remove(i);
                proof {
                    assert(self.keys_view() =~= pre.keys_view().remove(i as int));
                    assert(self.vals_view() =~= pre.vals_view().remove(i as int));
                    lemma_lookup_from_index(&pre, kk, i as int);
                    assert forall|a: int, b: int|
                        0 <= a < b < self.keys_view().len() implies self.keys_view()[a]
                        != self.keys_view()[b] by {
                        let a0 = if a < i as int {
                            a
                        } else {
                            a + 1
                        };
                        let b0 = if b < i as int {
                            b
                        } else {
                            b + 1
                        };
                        assert(self.keys_view()[a] == pre.keys_view()[a0]);
                        assert(self.keys_view()[b] == pre.keys_view()[b0]);
                    }
                    assert(!self.has_key(kk)) by {
                        if self.has_key(kk) {
                            let j = self.key_at(kk);
                            assert(self.keys_view()[j] == kk);
                            let j0 = if j < i as int {
                                j
                            } else {
                                j + 1
                            };
                            assert(pre.keys_view()[j0] == kk);
                            assert(pre.keys_view()[i as int] == kk);
                        }
                    }
                    assert forall|k2: Seq<char>| k2 != kk implies self.lookup(k2) == pre.lookup(
                        k2,
                    ) by {
                        if pre.has_key(k2) {
                            let j = pre.key_at(k2);
                            assert(pre.keys_view()[j] == k2);
                            lemma_lookup_from_index(&pre, k2, j);
                            let j1 = if j < i as int {
                                j
                            } else {
                                j - 1
                            };
                            assert(self.keys_view()[j1] == k2);
                            assert(self.vals_view()[j1] == pre.vals_view()[j]);
                            lemma_lookup_from_index(self, k2, j1);
                        } else {
                            if self.has_key(k2) {
                                let j = self.key_at(k2);
                                assert(self.keys_view()[j] == k2);
                                let j0 = if j < i as int {
                                    j
                                } else {
                                    j + 1
                                };
                                assert(pre.keys_view()[j0] == k2);
                            }
                        }
                    }
                }
                Response { status: 200, body: String::new() }
            },
            None => Response { status: 404, body: String::new() },
        }
    }

    fn wire_list(&self, prefix: &str) -> (resp: Response)
        requires
            self.wf(),
        ensures
            list_response(*self, prefix@, resp),
    {
        let mut body: Vec<u8> = Vec::new();
        let mut any: bool = false;
        let mut i: usize = 0;
        proof {
            assert(self.keys_view().take(0int) =~~= Seq::<Seq<char>>::empty());
            assert(with_prefix(Seq::<Seq<char>>::empty(), prefix@).len() == 0) by {
                reveal_with_fuel(Seq::filter, 1);
            }
        }
        while i < self.keys.len()
            invariant
                self.wf(),
                i <= self.keys@.len(),
                any == (with_prefix(self.keys_view().take(i as int), prefix@).len() > 0),
                body@ == listing_bytes(with_prefix(self.keys_view().take(i as int), prefix@)),
                forall|m: int| 0 <= m < body@.len() ==> url_safe_or_sep(#[trigger] body@[m]),
            decreases self.keys@.len() - i,
        {
            let ghost ks = self.keys_view();
            let ghost m0 = with_prefix(ks.take(i as int), prefix@);
            proof {
                lemma_with_prefix_push(ks.take(i as int), prefix@, ks[i as int]);
                assert(ks.take(i as int).push(ks[i as int]) =~~= ks.take(i as int + 1));
            }
            let matched = has_prefix_x(self.keys[i].as_str(), prefix);
            if matched {
                if any {
                    body.push(10);
                }
                let kb = self.keys[i].as_str().as_bytes_vec();
                let mut enc = pct_encode(&kb);
                proof {
                    lemma_pct_encoded_safe(kb@);
                    assert(enc@ == enc_line(ks[i as int]));
                    lemma_listing_bytes_push(m0, ks[i as int]);
                }
                body.append(&mut enc);
                any = true;
                proof {
                    let m1 = with_prefix(ks.take(i as int + 1), prefix@);
                    assert(m1 =~~= m0.push(ks[i as int]));
                    assert(m1.len() > 0);
                    if m0.len() == 0 {
                        assert(body@ =~= listing_bytes(m1));
                    } else {
                        assert(body@ =~= listing_bytes(m0) + seq![10u8] + enc_line(ks[i as int]));
                        assert(body@ =~= listing_bytes(m1));
                    }
                }
            } else {
                proof {
                    assert(with_prefix(ks.take(i as int + 1), prefix@) =~~= m0);
                }
            }
            i = i + 1;
        }
        let ghost bb = body@;
        proof {
            assert(self.keys_view().take(self.keys_view().len() as int) =~~= self.keys_view());
            assert(forall|m: int| 0 <= m < bb.len() ==> #[trigger] bb[m] < 128);
            crate::codec::lemma_ascii_bytes_utf8(bb);
        }
        match string_from_utf8(body) {
            Some(t) => {
                proof {
                    vstd::utf8::decode_utf8_encode_utf8(bb);
                    assert(encode_utf8(t@) == bb);
                }
                Response { status: 200, body: t }
            },
            None => {
                proof {
                    assert(false);
                }
                Response { status: 200, body: String::new() }
            },
        }
    }

    /// Answer one wire request, exactly as the remote service would.
    pub fn handle(&mut self, req: &Request) -> (resp: Response)
        requires
            old(self).wf(),
        ensures
            final(self).wf(),
            req matches Request::Get { key_enc } ==> (*final(self) == *old(self) && get_response(
                *old(self),
                key_enc@,
                resp,
            )),
            req matches Request::Put { key_enc, val_enc } ==> put_wire(
                *old(self),
                *final(self),
                key_enc@,
                val_enc@,
                resp,
            ),
            req matches Request::Delete { key_enc } ==> delete_wire(
                *old(self),
                *final(self),
                key_enc@,
                resp,
            ),
            req matches Request::List { prefix } ==> (*final(self) == *old(self) && list_response(
                *old(self),
                prefix@,
                resp,
            )),
    {
        match req {
            Request::Get { key_enc } => self.wire_get(key_enc.as_str()),
            Request::Put { key_enc, val_enc } => self.wire_put(key_enc.as_str(), val_enc.as_str()),
            Request::Delete { key_enc } => self.wire_delete(key_enc.as_str()),
            Request::List { prefix } => self.wire_list(prefix.as_str()),
        }
    }
}

/// Bytes a listing body is made of: encoded-key bytes and the separator.
pub open spec fn url_safe_or_sep(b: u8) -> bool {
    url_safe_byte(b) || b == 10
}

} // verus!
