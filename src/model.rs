//! The mathematical model of the store: its two tables as sequences, what
//! each operation makes of them, and the lemmas the operations' proofs use.
use vstd::prelude::*;

use crate::records::{Message, MessageDraft, StoreError};

verus! {

/// The largest surrogate key, and so the most rows the key table can hold.
pub const MAX_KEYS: usize = 2147483647;

/// The largest append sequence.
pub const MAX_SEQ: i64 = 9223372036854775807;

/// No address occurs twice.
pub open spec fn distinct(addrs: Seq<Seq<char>>) -> bool {
    forall|i: int, j: int| 0 <= i < j < addrs.len() ==> addrs[i] != addrs[j]
}

/// The addresses after resolving `a`: unchanged if `a` was seen, else `a` appended.
pub open spec fn intern(addrs: Seq<Seq<char>>, a: Seq<char>) -> Seq<Seq<char>> {
    if addrs.contains(a) {
        addrs
    } else {
        addrs.push(a)
    }
}

/// `intern` for an address that may be absent.
pub open spec fn intern_opt(addrs: Seq<Seq<char>>, a: Option<String>) -> Seq<Seq<char>> {
    match a {
        Some(s) => intern(addrs, s@),
        None => addrs,
    }
}

/// The surrogate key of a seen address: its row position, counted from 1.
pub open spec fn surrogate(addrs: Seq<Seq<char>>, a: Seq<char>) -> int {
    addrs.index_of(a) + 1
}

/// `surrogate` for an address that may be absent.
pub open spec fn surrogate_opt(addrs: Seq<Seq<char>>, a: Option<String>) -> Option<i32> {
    match a {
        Some(s) => Some(surrogate(addrs, s@) as i32),
        None => None,
    }
}

/// A surrogate key, if present, names one of `count` key rows.
pub open spec fn names_row(count: int, k: Option<i32>) -> bool {
    match k {
        Some(id) => 1 <= id <= count,
        None => true,
    }
}

/// Every surrogate key of `m` names one of `count` key rows.
pub open spec fn references_ok(m: Message, count: int) -> bool {
    &&& names_row(count, m.key_id)
    &&& names_row(count, m.author_id)
    &&& names_row(count, m.root_key_id)
    &&& names_row(count, m.fork_key_id)
}

/// The append sequence of a stored message.
pub open spec fn seq_of(m: Message) -> int {
    match m.flume_seq {
        Some(s) => s as int,
        None => 0,
    }
}

/// `m` placed at append sequence `s`.
pub open spec fn with_seq(m: Message, s: int) -> Message {
    Message { flume_seq: Some(s as i64), ..m }
}

/// `m` with its content replaced by plaintext.
pub open spec fn decrypted(m: Message, content: String) -> Message {
    Message { content: Some(content), is_decrypted: Some(true), ..m }
}

/// The index of the first message at or after position `i` whose append
/// sequence is at least `start`, or the length if there is none.
pub open spec fn first_from(ms: Seq<Message>, start: int, i: int) -> int
    decreases ms.len() - i,
{
    if i >= ms.len() || seq_of(ms[i]) >= start {
        i
    } else {
        first_from(ms, start, i + 1)
    }
}

/// Up to `limit` messages from the first whose append sequence is at least
/// `start`, in table order.
pub open spec fn range(ms: Seq<Message>, start: int, limit: int) -> Seq<Message> {
    let k = first_from(ms, start, 0);
    let end = if k + limit < ms.len() {
        k + limit
    } else {
        ms.len() as int
    };
    ms.subrange(k, end)
}

/// What `insert` returns: the append sequence the message is stored at, or
/// why it is refused.
pub open spec fn insert_outcome(v: StoreView, m: Message) -> Result<int, StoreError> {
    if !references_ok(m, v.addresses.len() as int) {
        Err(StoreError::ReferentialViolation)
    } else {
        match m.flume_seq {
            Some(s) => if s < v.next_seq() {
                Err(StoreError::SequenceConflict)
            } else {
                Ok(s as int)
            },
            None => if v.next_seq() > MAX_SEQ {
                Err(StoreError::StorageUnavailable)
            } else {
                Ok(v.next_seq())
            },
        }
    }
}

/// The key table after resolving every address a draft names: its own
/// content key, then author, root and fork.
pub open spec fn draft_addresses(addrs: Seq<Seq<char>>, d: MessageDraft) -> Seq<Seq<char>> {
    intern_opt(intern_opt(intern_opt(intern_opt(addrs, d.key), d.author), d.root), d.fork)
}

/// The message a draft becomes at append sequence `s`, given the key table
/// that holds its addresses.
pub open spec fn record_of(d: MessageDraft, addrs: Seq<Seq<char>>, s: int) -> Message {
    Message {
        flume_seq: Some(s as i64),
        key_id: surrogate_opt(addrs, d.key),
        seq: d.seq,
        received_time: d.received_time,
        asserted_time: d.asserted_time,
        root_key_id: surrogate_opt(addrs, d.root),
        fork_key_id: surrogate_opt(addrs, d.fork),
        author_id: surrogate_opt(addrs, d.author),
        content_type: d.content_type,
        content: d.content,
        is_decrypted: d.is_decrypted,
    }
}

/// Whether `append` can take draft `d` in state `v`: its new keys and the
/// next append sequence fit their ranges.
pub open spec fn can_append(v: StoreView, d: MessageDraft) -> bool {
    draft_addresses(v.addresses, d).len() <= MAX_KEYS && v.next_seq() <= MAX_SEQ
}

/// `new` is `old` after a successful append of `d` at append sequence `s`.
pub open spec fn appended(old: StoreView, d: MessageDraft, new: StoreView, s: int) -> bool {
    &&& s == old.next_seq()
    &&& new.addresses == draft_addresses(old.addresses, d)
    &&& new.records == old.records.push(record_of(d, new.addresses, s))
}

/// Whether a message stands at append sequence `s`; if so, it is the one at
/// `first_from(ms, s, 0)`.
pub open spec fn holds_seq(ms: Seq<Message>, s: int) -> bool {
    let k = first_from(ms, s, 0);
    k < ms.len() && seq_of(ms[k]) == s
}

/// What the two tables hold.
pub struct StoreView {
    /// The key table: row `i` holds surrogate key `i + 1`.
    pub addresses: Seq<Seq<char>>,
    /// The message table, in append order.
    pub records: Seq<Message>,
}

impl StoreView {
    /// Addresses are unique and fit the key range; every message has a
    /// non-negative append sequence, larger than those before it, and
    /// refers only to existing keys.
    pub open spec fn valid(self) -> bool {
        &&& distinct(self.addresses)
        &&& self.addresses.len() <= MAX_KEYS
        &&& forall|i: int|
            0 <= i < self.records.len() ==> {
                &&& (#[trigger] self.records[i]).flume_seq is Some
                &&& seq_of(self.records[i]) >= 0
                &&& references_ok(self.records[i], self.addresses.len() as int)
            }
        &&& forall|i: int, j: int|
            0 <= i < j < self.records.len() ==> seq_of(#[trigger] self.records[i]) < seq_of(
                #[trigger] self.records[j],
            )
    }

    /// The append sequence the next message gets: one past the last, or 0.
    pub open spec fn next_seq(self) -> int {
        if self.records.len() == 0 {
            0
        } else {
            seq_of(self.records.last()) + 1
        }
    }
}

/// In a sequence without repeats, an element's `index_of` is its position.
pub proof fn lemma_index_of_distinct(addrs: Seq<Seq<char>>, i: int)
    requires
        distinct(addrs),
        0 <= i < addrs.len(),
    ensures
        addrs.index_of(addrs[i]) == i,
{
    assert(addrs.contains(addrs[i]));
}

/// Interning keeps the addresses without repeats, keeps every row in place,
/// and grows the table by at most one row.
pub proof fn lemma_intern_keeps(addrs: Seq<Seq<char>>, a: Seq<char>)
    requires
        distinct(addrs),
    ensures
        distinct(intern(addrs, a)),
        intern(addrs, a).contains(a),
        addrs.len() <= intern(addrs, a).len() <= addrs.len() + 1,
        forall|i: int| 0 <= i < addrs.len() ==> intern(addrs, a)[i] == addrs[i],
{
    if !addrs.contains(a) {
        assert(intern(addrs, a)[addrs.len() as int] == a);
    }
}

/// Interning another address leaves the surrogate key of a seen one as it was.
pub proof fn lemma_surrogate_stable(addrs: Seq<Seq<char>>, a: Seq<char>, b: Seq<char>)
    requires
        distinct(addrs),
        addrs.contains(a),
    ensures
        intern(addrs, b).contains(a),
        surrogate(intern(addrs, b), a) == surrogate(addrs, a),
{
    let i = choose|i: int| 0 <= i < addrs.len() && addrs[i] == a;
    lemma_index_of_distinct(addrs, i);
    lemma_intern_keeps(addrs, b);
    assert(intern(addrs, b)[i] == a);
    lemma_index_of_distinct(intern(addrs, b), i);
}

/// Interning a draft's addresses one after another never shrinks the table.
pub(crate) proof fn lemma_intern_opt_grows(addrs: Seq<Seq<char>>, d: MessageDraft)
    requires
        distinct(addrs),
    ensures
        addrs.len() <= intern_opt(addrs, d.key).len(),
        intern_opt(addrs, d.key).len() <= intern_opt(intern_opt(addrs, d.key), d.author).len(),
        intern_opt(intern_opt(addrs, d.key), d.author).len() <= intern_opt(
            intern_opt(intern_opt(addrs, d.key), d.author),
            d.root,
        ).len(),
        intern_opt(intern_opt(intern_opt(addrs, d.key), d.author), d.root).len()
            <= draft_addresses(addrs, d).len(),
{
}

/// Each address of a draft keeps, to the end of the draft's interning, the
/// surrogate key it got when it was interned.
pub(crate) proof fn lemma_surrogates_settle(addrs: Seq<Seq<char>>, d: MessageDraft)
    requires
        distinct(addrs),
    ensures
        surrogate_opt(intern_opt(addrs, d.key), d.key) == surrogate_opt(
            draft_addresses(addrs, d),
            d.key,
        ),
        surrogate_opt(intern_opt(intern_opt(addrs, d.key), d.author), d.author) == surrogate_opt(
            draft_addresses(addrs, d),
            d.author,
        ),
        surrogate_opt(
            intern_opt(intern_opt(intern_opt(addrs, d.key), d.author), d.root),
            d.root,
        ) == surrogate_opt(draft_addresses(addrs, d), d.root),
        draft_addresses(addrs, d).len() <= MAX_KEYS ==> forall|s: int|
            references_ok(
                #[trigger] record_of(d, draft_addresses(addrs, d), s),
                draft_addresses(addrs, d).len() as int,
            ),
{
    let a1 = intern_opt(addrs, d.key);
    let a2 = intern_opt(a1, d.author);
    let a3 = intern_opt(a2, d.root);
    lemma_intern_opt_keeps(addrs, d.key);
    lemma_intern_opt_keeps(a1, d.author);
    lemma_intern_opt_keeps(a2, d.root);
    lemma_intern_opt_keeps(a3, d.fork);
    if let Some(k) = d.key {
        lemma_surrogate_opt_stable(a1, k@, d.author);
        lemma_surrogate_opt_stable(a2, k@, d.root);
        lemma_surrogate_opt_stable(a3, k@, d.fork);
    }
    if let Some(k) = d.author {
        lemma_surrogate_opt_stable(a2, k@, d.root);
        lemma_surrogate_opt_stable(a3, k@, d.fork);
    }
    if let Some(k) = d.root {
        lemma_surrogate_opt_stable(a3, k@, d.fork);
    }
    let all = draft_addresses(addrs, d);
    if let Some(k) = d.key {
        lemma_surrogate_in_range(all, k@);
    }
    if let Some(k) = d.author {
        lemma_surrogate_in_range(all, k@);
    }
    if let Some(k) = d.root {
        lemma_surrogate_in_range(all, k@);
    }
    if let Some(k) = d.fork {
        lemma_surrogate_in_range(all, k@);
    }
}

/// Every address a draft names is in the key table after its interning, and
/// the table still has no repeats.
pub proof fn lemma_draft_addresses_contain(addrs: Seq<Seq<char>>, d: MessageDraft)
    requires
        distinct(addrs),
    ensures
        distinct(draft_addresses(addrs, d)),
        d.key is Some ==> draft_addresses(addrs, d).contains(d.key->Some_0@),
        d.author is Some ==> draft_addresses(addrs, d).contains(d.author->Some_0@),
        d.root is Some ==> draft_addresses(addrs, d).contains(d.root->Some_0@),
        d.fork is Some ==> draft_addresses(addrs, d).contains(d.fork->Some_0@),
{
    let a1 = intern_opt(addrs, d.key);
    let a2 = intern_opt(a1, d.author);
    let a3 = intern_opt(a2, d.root);
    lemma_intern_opt_keeps(addrs, d.key);
    lemma_intern_opt_keeps(a1, d.author);
    lemma_intern_opt_keeps(a2, d.root);
    lemma_intern_opt_keeps(a3, d.fork);
    if let Some(k) = d.key {
        lemma_surrogate_opt_stable(a1, k@, d.author);
        lemma_surrogate_opt_stable(a2, k@, d.root);
        lemma_surrogate_opt_stable(a3, k@, d.fork);
    }
    if let Some(k) = d.author {
        lemma_surrogate_opt_stable(a2, k@, d.root);
        lemma_surrogate_opt_stable(a3, k@, d.fork);
    }
    if let Some(k) = d.root {
        lemma_surrogate_opt_stable(a3, k@, d.fork);
    }
}

/// The surrogate key of a seen address names one of the rows.
pub proof fn lemma_surrogate_in_range(addrs: Seq<Seq<char>>, a: Seq<char>)
    requires
        addrs.contains(a),
    ensures
        1 <= surrogate(addrs, a) <= addrs.len(),
        addrs[surrogate(addrs, a) - 1] == a,
{
}

/// `lemma_intern_keeps` for an address that may be absent.
pub(crate) proof fn lemma_intern_opt_keeps(addrs: Seq<Seq<char>>, a: Option<String>)
    requires
        distinct(addrs),
    ensures
        distinct(intern_opt(addrs, a)),
        a is Some ==> intern_opt(addrs, a).contains(a->Some_0@),
        addrs.len() <= intern_opt(addrs, a).len(),
        forall|i: int| 0 <= i < addrs.len() ==> intern_opt(addrs, a)[i] == addrs[i],
{
    if let Some(s) = a {
        lemma_intern_keeps(addrs, s@);
    }
}

/// `lemma_surrogate_stable` for an interned address that may be absent.
pub(crate) proof fn lemma_surrogate_opt_stable(addrs: Seq<Seq<char>>, a: Seq<char>, b: Option<String>)
    requires
        distinct(addrs),
        addrs.contains(a),
    ensures
        intern_opt(addrs, b).contains(a),
        surrogate(intern_opt(addrs, b), a) == surrogate(addrs, a),
{
    if let Some(s) = b {
        lemma_surrogate_stable(addrs, a, s@);
    }
}

/// Where `first_from` stops: every message it passes lies before `start`,
/// and the one it stops at, if any, does not.
pub proof fn lemma_first_from_bounds(ms: Seq<Message>, start: int, i: int)
    requires
        0 <= i <= ms.len(),
    ensures
        i <= first_from(ms, start, i) <= ms.len(),
        forall|j: int| i <= j < first_from(ms, start, i) ==> seq_of(#[trigger] ms[j]) < start,
        first_from(ms, start, i) < ms.len() ==> seq_of(ms[first_from(ms, start, i)]) >= start,
    decreases ms.len() - i,
{
    if i < ms.len() && seq_of(ms[i]) < start {
        lemma_first_from_bounds(ms, start, i + 1);
    }
}

/// `first_from` stops at the first position whose append sequence is not
/// before `start`.
pub proof fn lemma_first_from_at(ms: Seq<Message>, start: int, i: int, k: int)
    requires
        0 <= i <= k <= ms.len(),
        forall|j: int| i <= j < k ==> seq_of(#[trigger] ms[j]) < start,
        k == ms.len() || seq_of(ms[k]) >= start,
    ensures
        first_from(ms, start, i) == k,
    decreases k - i,
{
    if i < k {
        lemma_first_from_at(ms, start, i + 1, k);
    }
}

} // verus!
