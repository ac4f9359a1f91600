//! Properties that relate several operations of the store, stated over the
//! spec functions that the operations' own contracts use.
use vstd::prelude::*;

use crate::records::MessageDraft;
use crate::model::{
    appended, can_append, decrypted, first_from, holds_seq, intern, lemma_draft_addresses_contain, lemma_first_from_at, lemma_first_from_bounds,
    lemma_intern_keeps, names_row, range,
    record_of, seq_of, surrogate, StoreView,
};

verus! {

/// The key table after resolving `a` `n` times in a row.
pub open spec fn intern_times(addrs: Seq<Seq<char>>, a: Seq<char>, n: nat) -> Seq<Seq<char>>
    decreases n,
{
    if n == 0 {
        addrs
    } else {
        intern(intern_times(addrs, a, (n - 1) as nat), a)
    }
}

/// Resolving an address any positive number of times leaves the key table as
/// one resolution does, gives the same surrogate key each time, and leaves
/// exactly one row holding the address.
pub proof fn lemma_resolve_idempotent(v: StoreView, a: Seq<char>, n: nat)
    requires
        v.valid(),
        n >= 1,
    ensures
        intern_times(v.addresses, a, n) == intern(v.addresses, a),
        surrogate(intern_times(v.addresses, a, n), a) == surrogate(intern(v.addresses, a), a),
        intern(v.addresses, a).contains(a),
        forall|i: int, j: int|
            0 <= i < intern(v.addresses, a).len() && 0 <= j < intern(v.addresses, a).len()
                && intern(v.addresses, a)[i] == a && intern(v.addresses, a)[j] == a ==> i == j,
    decreases n,
{
    lemma_intern_keeps(v.addresses, a);
    assert(intern_times(v.addresses, a, 0) == v.addresses);
    if n > 1 {
        lemma_resolve_idempotent(v, a, (n - 1) as nat);
    }
}

/// Two successful appends in a row get append sequences one apart.
pub proof fn lemma_appends_consecutive(
    v0: StoreView,
    d1: MessageDraft,
    v1: StoreView,
    s1: int,
    d2: MessageDraft,
    v2: StoreView,
    s2: int,
)
    requires
        v0.valid(),
        can_append(v0, d1),
        appended(v0, d1, v1, s1),
        appended(v1, d2, v2, s2),
    ensures
        s2 == s1 + 1,
{
    assert(v1.records.last() == record_of(d1, v1.addresses, s1));
}

/// In a valid store every surrogate key a message holds names a key row.
pub proof fn lemma_records_reference_keys(v: StoreView)
    requires
        v.valid(),
    ensures
        forall|i: int|
            0 <= i < v.records.len() ==> {
                let n = v.addresses.len() as int;
                &&& names_row(n, (#[trigger] v.records[i]).key_id)
                &&& names_row(n, v.records[i].author_id)
                &&& names_row(n, v.records[i].root_key_id)
                &&& names_row(n, v.records[i].fork_key_id)
            },
{
}

/// In a valid store, a message stands at position `i` with append sequence
/// `seq_of(ms[i])`, and `first_from` finds it there.
pub proof fn lemma_found_at(v: StoreView, i: int)
    requires
        v.valid(),
        0 <= i < v.records.len(),
    ensures
        first_from(v.records, seq_of(v.records[i]), 0) == i,
        holds_seq(v.records, seq_of(v.records[i])),
{
    let ms = v.records;
    assert forall|j: int| 0 <= j < i implies seq_of(#[trigger] ms[j]) < seq_of(ms[i]) by {}
    lemma_first_from_at(ms, seq_of(ms[i]), 0, i);
}

/// In a valid store, a message stands at append sequence `s` exactly when
/// some stored message carries `s`.
pub proof fn lemma_holds_seq_iff_present(v: StoreView, s: int)
    requires
        v.valid(),
    ensures
        holds_seq(v.records, s) <==> exists|i: int|
            0 <= i < v.records.len() && seq_of(#[trigger] v.records[i]) == s,
{
    if exists|i: int| 0 <= i < v.records.len() && seq_of(#[trigger] v.records[i]) == s {
        let i = choose|i: int| 0 <= i < v.records.len() && seq_of(#[trigger] v.records[i]) == s;
        lemma_found_at(v, i);
    }
    lemma_first_from_bounds(v.records, s, 0);
    if holds_seq(v.records, s) {
        let k = first_from(v.records, s, 0);
        assert(0 <= k < v.records.len() && seq_of(v.records[k]) == s);
    }
}

/// Loading one message from the append sequence that an append returned gives
/// back the appended message: its content, and as author the surrogate key
/// that resolving the author's address yields afterwards.
pub proof fn lemma_append_then_load(v0: StoreView, d: MessageDraft, v1: StoreView, s: int)
    requires
        v0.valid(),
        can_append(v0, d),
        appended(v0, d, v1, s),
        v1.valid(),
    ensures
        range(v1.records, s, 1) == seq![record_of(d, v1.addresses, s)],
        range(v1.records, s, 1)[0].content == d.content,
        range(v1.records, s, 1)[0].content_type == d.content_type,
        d.author is Some ==> {
            let a = d.author->Some_0@;
            &&& intern(v1.addresses, a) == v1.addresses
            &&& range(v1.records, s, 1)[0].author_id == Some(surrogate(v1.addresses, a) as i32)
        },
{
    lemma_draft_addresses_contain(v0.addresses, d);
    let n = v0.records.len() as int;
    assert(v1.records[n] == record_of(d, v1.addresses, s));
    assert(seq_of(v1.records[n]) == s);
    lemma_found_at(v1, n);
    assert(range(v1.records, s, 1) =~= seq![record_of(d, v1.addresses, s)]);
}

/// After the message at append sequence `s` is marked decrypted with
/// `plaintext`, loading one message from `s` shows that plaintext and the flag
/// set.
pub proof fn lemma_decrypt_then_load(v0: StoreView, s: int, plaintext: String, v1: StoreView)
    requires
        v0.valid(),
        holds_seq(v0.records, s),
        v1 == (StoreView {
            addresses: v0.addresses,
            records: v0.records.update(
                first_from(v0.records, s, 0),
                decrypted(v0.records[first_from(v0.records, s, 0)], plaintext),
            ),
        }),
        v1.valid(),
    ensures
        range(v1.records, s, 1).len() == 1,
        range(v1.records, s, 1)[0].content == Some(plaintext),
        range(v1.records, s, 1)[0].is_decrypted == Some(true),
        seq_of(range(v1.records, s, 1)[0]) == s,
{
    lemma_first_from_bounds(v0.records, s, 0);
    let k = first_from(v0.records, s, 0);
    assert(seq_of(v1.records[k]) == s);
    lemma_found_at(v1, k);
}

} // verus!
