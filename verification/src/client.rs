//! The client operations, driven end to end against a [`Store`].
//!
//! Each operation builds its wire request, lets the store answer it, and
//! reads the response — the same path an HTTP client follows, with the
//! network exchange replaced by the in-memory store.  The two composite
//! operations, `empty` and `get_all`, sequence primitive exchanges and
//! stop at the first failure.

use vstd::prelude::*;

use crate::codec::lemma_decode_encode_roundtrip;
use crate::protocol::{build_delete, build_get, build_list, build_set, interpret_delete,
    interpret_get, interpret_list, interpret_set, lemma_parse_listing_bytes,
    lemma_with_prefix_empty, listed_keys, visible_keys, with_prefix, DbError};
use crate::store::{delete_effect, lemma_lookup_from_index, set_effect, Store};

verus! {

/// Fetch the value under a key: the stored value, or absent.
pub fn get(store: &mut Store, key: &str) -> (r: Result<Option<String>, DbError>)
    requires
        old(store).wf(),
    ensures
        final(store).wf(),
        *final(store) == *old(store),
        r matches Ok(o) && (match old(store).lookup(key@) {
            Some(v) => o matches Some(t) && t@ == v,
            None => o is None,
        }),
{
    let req = build_get(key);
    proof {
        lemma_decode_encode_roundtrip(key@);
    }
    let resp = store.handle(&req);
    interpret_get(resp)
}

/// Store a value under a key, overwriting any earlier one.
pub fn set(store: &mut Store, key: &str, value: &str) -> (r: Result<(), DbError>)
    requires
        old(store).wf(),
    ensures
        final(store).wf(),
        r is Ok,
        set_effect(*old(store), *final(store), key@, value@),
{
    let req = build_set(key, value);
    proof {
        lemma_decode_encode_roundtrip(key@);
        lemma_decode_encode_roundtrip(value@);
    }
    let resp = store.handle(&req);
    interpret_set(resp)
}

/// Delete a key; deleting an absent key also succeeds.
pub fn delete(store: &mut Store, key: &str) -> (r: Result<(), DbError>)
    requires
        old(store).wf(),
    ensures
        final(store).wf(),
        r is Ok,
        delete_effect(*old(store), *final(store), key@),
{
    let req = build_delete(key);
    proof {
        lemma_decode_encode_roundtrip(key@);
    }
    let resp = store.handle(&req);
    interpret_delete(resp)
}

/// List the keys a prefix starts, decoded, in insertion order.
pub fn list_prefix(store: &mut Store, prefix: &str) -> (r: Result<Vec<String>, DbError>)
    requires
        old(store).wf(),
    ensures
        final(store).wf(),
        *final(store) == *old(store),
        r matches Ok(v) && v.deep_view() == listed_keys(old(store).keys_view(), prefix@),
{
    let req = build_list(prefix);
    let resp = store.handle(&req);
    proof {
        lemma_parse_listing_bytes(resp.body@, with_prefix(old(store).keys_view(), prefix@));
    }
    interpret_list(resp)
}

/// List every key.
pub fn list(store: &mut Store) -> (r: Result<Vec<String>, DbError>)
    requires
        old(store).wf(),
    ensures
        final(store).wf(),
        *final(store) == *old(store),
        r matches Ok(v) && v.deep_view() == listed_keys(
            old(store).keys_view(),
            Seq::<char>::empty(),
        ),
{
    proof {
        reveal_strlit("");
        assert(""@ =~= Seq::<char>::empty());
    }
    list_prefix(store, "")
}

/// Delete every key: list, then delete each listed key in order.  A store
/// whose one key is the empty string lists as empty and so stays as it is;
/// any other store is left with nothing in it.
pub fn empty(store: &mut Store) -> (r: Result<(), DbError>)
    requires
        old(store).wf(),
    ensures
        final(store).wf(),
        r is Ok,
        old(store).keys_view() == seq![Seq::<char>::empty()] ==> *final(store) == *old(store),
        old(store).keys_view() != seq![Seq::<char>::empty()] ==> final(store).keys_view().len()
            == 0,
{
    let ghost kv = old(store).keys_view();
    let keys = match list(store) {
        Ok(v) => v,
        Err(e) => {
            return Err(e);
        },
    };
    proof {
        lemma_with_prefix_empty(kv);
        assert(keys.deep_view() == visible_keys(kv));
    }
    if keys.len() == 0 {
        proof {
            assert(keys.deep_view().len() == 0);
            if !(kv =~~= seq![Seq::<char>::empty()]) {
                assert(visible_keys(kv) == kv);
            }
        }
        return Ok(());
    }
    proof {
        assert(keys.deep_view().len() > 0);
        assert(visible_keys(kv) == kv);
        assert(store.keys_view() =~~= kv.skip(0int));
    }
    let mut j: usize = 0;
    while j < keys.len()
        invariant
            store.wf(),
            j <= keys@.len(),
            keys.deep_view() == kv,
            forall|a: int, b: int| 0 <= a < b < kv.len() ==> kv[a] != kv[b],
            store.keys_view() == kv.skip(j as int),
        decreases keys@.len() - j,
    {
        let ghost cur = *store;
        proof {
            assert(cur.keys_view()[0] == kv[j as int]);
            assert(keys@[j as int]@ == keys.deep_view()[j as int]);
        }
        let _ = delete(store, keys[j].as_str());
        proof {
            let k = kv[j as int];
            assert(cur.has_key(k));
            let jj = cur.key_at(k);
            assert(cur.keys_view()[jj] == k);
            if jj != 0 {
                assert(cur.keys_view()[0] == kv[0 + j as int]);
                assert(cur.keys_view()[jj] == kv[jj + j as int]);
            }
            assert(jj == 0);
            assert(cur.keys_view().remove(0int) =~~= kv.skip(j as int + 1));
        }
        j = j + 1;
    }
    proof {
        assert(kv.skip(kv.len() as int) =~~= Seq::<Seq<char>>::empty());
        if kv =~~= seq![Seq::<char>::empty()] {
            assert(visible_keys(kv).len() == 0);
        }
    }
    Ok(())
}

/// What `get_all` hands back: one pair per listed key, in listing order,
/// each carrying exactly the stored value.
pub open spec fn pairs_match(s: Store, pairs: Seq<(String, String)>) -> bool {
    let listed = listed_keys(s.keys_view(), Seq::<char>::empty());
    &&& pairs.len() == listed.len()
    &&& forall|i: int|
        0 <= i < listed.len() ==> (#[trigger] pairs[i].0@ == listed[i] && s.lookup(listed[i])
            == Some(pairs[i].1@))
}

/// Fetch every pair: list, then get each listed key in order.  A key that
/// vanished between the listing and its fetch would surface as an error,
/// not a crash; against a store nothing else mutates, that cannot happen.
pub fn get_all(store: &mut Store) -> (r: Result<Vec<(String, String)>, DbError>)
    requires
        old(store).wf(),
    ensures
        final(store).wf(),
        *final(store) == *old(store),
        r matches Ok(pairs) && pairs_match(*old(store), pairs@),
{
    let ghost kv = old(store).keys_view();
    let ghost listed = listed_keys(kv, Seq::<char>::empty());
    let keys = match list(store) {
        Ok(v) => v,
        Err(e) => {
            return Err(e);
        },
    };
    proof {
        lemma_with_prefix_empty(kv);
        assert(keys.deep_view() == listed);
    }
    let mut out: Vec<(String, String)> = Vec::new();
    let mut j: usize = 0;
    while j < keys.len()
        invariant
            store.wf(),
            *store == *old(store),
            j <= keys@.len(),
            keys.deep_view() == listed,
            listed == listed_keys(kv, Seq::<char>::empty()),
            kv == old(store).keys_view(),
            listed == visible_keys(kv),
            with_prefix(kv, Seq::<char>::empty()) == kv,
            out@.len() == j,
            forall|i: int|
                0 <= i < j ==> (#[trigger] out@[i].0@ == listed[i] && old(store).lookup(listed[i])
                    == Some(out@[i].1@)),
        decreases keys@.len() - j,
    {
        proof {
            assert(listed.len() > 0);
            assert(visible_keys(kv) == kv);
            assert(listed[j as int] == kv[j as int]);
            lemma_lookup_from_index(store, kv[j as int], j as int);
            assert(keys@[j as int]@ == keys.deep_view()[j as int]);
        }
        let k = keys[j].clone();
        match get(store, k.as_str()) {
            Ok(Some(v)) => {
                out.push((k, v));
            },
            Ok(None) => {
                proof {
                    assert(false);
                }
                return Err(DbError::KeyVanished(k));
            },
            Err(e) => {
                proof {
                    assert(false);
                }
                return Err(e);
            },
        }
        j = j + 1;
    }
    proof {
        assert(out@.len() == listed.len());
        assert(pairs_match(*old(store), out@));
    }
    Ok(out)
}

} // verus!
