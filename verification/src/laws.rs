//! The laws the library holds itself to, each stated over the same spec
//! functions the operations' contracts use, and proved once and for all.
//! The round-trip law of the codec stands beside them in
//! [`crate::codec::lemma_decode_encode_roundtrip`].

use vstd::prelude::*;

use crate::client::pairs_match;
use crate::protocol::{lemma_with_prefix_empty, lemma_with_prefix_members,
    lemma_with_prefix_unique, listed_keys, visible_keys, with_prefix};
use crate::store::{delete_effect, set_effect, Store};

verus! {

/// Storing a value and then looking the same key up returns that value,
/// byte for byte — for the empty string and for keys and values holding
/// `=`, `&` or newlines as much as for any other.
pub proof fn law_set_then_get(pre: Store, post: Store, k: Seq<char>, v: Seq<char>)
    requires
        set_effect(pre, post, k, v),
    ensures
        post.lookup(k) == Some(v),
{
}

/// A deleted key reads back as absent — not as an error — and no other key
/// is disturbed.
pub proof fn law_deleted_key_absent(pre: Store, post: Store, k: Seq<char>, k2: Seq<char>)
    requires
        delete_effect(pre, post, k),
    ensures
        post.lookup(k) is None,
        k2 != k ==> post.lookup(k2) == pre.lookup(k2),
{
}

/// A store holding nothing answers every lookup with absent: a key never
/// stored reads back as absent.
pub proof fn law_fresh_store_absent(s: Store, k: Seq<char>)
    requires
        s.keys_view().len() == 0,
    ensures
        s.lookup(k) is None,
{
}

/// Deleting is idempotent: deleting a key that is already gone succeeds
/// and changes nothing.
pub proof fn law_delete_idempotent(s0: Store, s1: Store, s2: Store, k: Seq<char>)
    requires
        delete_effect(s0, s1, k),
        delete_effect(s1, s2, k),
    ensures
        s2.keys_view() == s1.keys_view(),
        forall|k2: Seq<char>| s2.lookup(k2) == s1.lookup(k2),
{
    assert forall|k2: Seq<char>| s2.lookup(k2) == s1.lookup(k2) by {
        if k2 == k {
            assert(s2.lookup(k) is None && s1.lookup(k) is None);
        }
    }
}

/// A prefix listing reports exactly the stored keys the prefix starts,
/// each exactly once.  The one store it cannot report faithfully is the
/// one whose only matching key is the empty string: that listing's body is
/// empty on the wire, so it reads back as no keys, and such stores are
/// left out here.
pub proof fn law_list_prefix_exact(s: Store, p: Seq<char>)
    requires
        s.wf(),
        with_prefix(s.keys_view(), p) != seq![Seq::<char>::empty()],
    ensures
        forall|k: Seq<char>| #[trigger]
            listed_keys(s.keys_view(), p).contains(k) <==> (s.has_key(k) && p.is_prefix_of(k)),
        forall|a: int, b: int|
            0 <= a < b < listed_keys(s.keys_view(), p).len() ==> listed_keys(s.keys_view(), p)[a]
                != listed_keys(s.keys_view(), p)[b],
{
    let m = with_prefix(s.keys_view(), p);
    assert(visible_keys(m) == m) by {
        if m.len() == 1 && m[0].len() == 0 {
            assert(m =~~= seq![Seq::<char>::empty()]);
        }
    }
    lemma_with_prefix_members(s.keys_view(), p);
    lemma_with_prefix_unique(s.keys_view(), p);
}

/// After a store has been emptied, a listing reports no keys at all.
pub proof fn law_empty_then_list(s: Store)
    requires
        s.keys_view().len() == 0,
    ensures
        listed_keys(s.keys_view(), Seq::<char>::empty()).len() == 0,
{
    lemma_with_prefix_empty(s.keys_view());
}

/// What `get_all` returns is the store's whole contents: one pair for each
/// stored key, in order, carrying its exact value, with nothing extra and
/// nothing missing.  The one store left out is the one whose only key is
/// the empty string, which lists as empty on the wire.
pub proof fn law_get_all_exact(s: Store, pairs: Seq<(String, String)>)
    requires
        s.wf(),
        pairs_match(s, pairs),
        s.keys_view() != seq![Seq::<char>::empty()],
    ensures
        pairs.len() == s.keys_view().len(),
        forall|i: int|
            0 <= i < pairs.len() ==> (#[trigger] pairs[i].0@ == s.keys_view()[i] && s.lookup(
                s.keys_view()[i],
            ) == Some(pairs[i].1@)),
{
    lemma_with_prefix_empty(s.keys_view());
    let kv = s.keys_view();
    assert(visible_keys(kv) == kv) by {
        if kv.len() == 1 && kv[0].len() == 0 {
            assert(kv =~~= seq![Seq::<char>::empty()]);
        }
    }
}

} // verus!
