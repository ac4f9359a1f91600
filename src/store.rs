//! The store: a key table that interns content addresses and a message table
//! ordered by append sequence.
use vstd::prelude::*;

use crate::model::{
    appended, can_append, decrypted, distinct, first_from, holds_seq, insert_outcome, intern,
    intern_opt, lemma_first_from_at, lemma_index_of_distinct, lemma_intern_keeps,
    lemma_intern_opt_grows, lemma_surrogates_settle, names_row, range, record_of, references_ok,
    seq_of, surrogate, surrogate_opt, with_seq, StoreView, MAX_KEYS, MAX_SEQ,
};
use crate::records::{Key, Message, MessageDraft, StoreError};

verus! {

/// Whether an optional surrogate key names one of `count` rows.
fn refers_within(k: Option<i32>, count: usize) -> (r: bool)
    ensures
        r == names_row(count as int, k),
{
    match k {
        Some(id) => 1 <= id && id as usize <= count,
        None => true,
    }
}

/// An in-memory store of keys and messages.
pub struct Store {
    keys: Vec<Key>,
    messages: Vec<Message>,
}

impl View for Store {
    type V = StoreView;

    closed spec fn view(&self) -> StoreView {
        StoreView { addresses: self.keys@.map_values(|k: Key| k.key@), records: self.messages@ }
    }
}

impl Store {
    /// Each key row carries its own position, counted from 1, as its id.
    pub closed spec fn ids_match(&self) -> bool {
        forall|i: int|
            0 <= i < self.keys@.len() ==> (#[trigger] self.keys@[i]).id == Some((i + 1) as i32)
    }

    /// The store's invariant.
    pub open spec fn wf(&self) -> bool {
        self.ids_match() && self@.valid()
    }

    /// An empty store.
    pub fn new() -> (r: Store)
        ensures
            r.wf(),
            r@.addresses.len() == 0,
            r@.records.len() == 0,
    {
        let r = Store { keys: Vec::new(), messages: Vec::new() };
        assert(r@.addresses =~= Seq::<Seq<char>>::empty());
        r
    }

    /// The row holding `a`, if any.
    fn find(&self, a: &String) -> (r: Option<usize>)
        ensures
            match r {
                Some(i) => i < self@.addresses.len() && self@.addresses[i as int] == a@,
                None => !self@.addresses.contains(a@),
            },
    {
        let mut i: usize = 0;
        while i < self.keys.len()
            invariant
                i <= self.keys@.len(),
                forall|j: int| 0 <= j < i ==> self@.addresses[j] != a@,
            decreases self.keys@.len() - i,
        {
            if self.keys[i].key == *a {
                return Some(i);
            }
            i = i + 1;
        }
        None
    }

    /// The surrogate key of `address`, if it has been seen; no side effects.
    pub fn lookup(&self, address: &str) -> (r: Option<i32>)
        requires
            self.wf(),
        ensures
            r == (if self@.addresses.contains(address@) {
                Some(surrogate(self@.addresses, address@) as i32)
            } else {
                None
            }),
            self@.addresses.contains(address@) ==> {
                &&& 1 <= surrogate(self@.addresses, address@) <= self@.addresses.len()
                &&& self@.addresses[surrogate(self@.addresses, address@) - 1] == address@
            },
    {
        let a = address.to_owned();
        match self.find(&a) {
            Some(i) => {
                proof {
                    lemma_index_of_distinct(self@.addresses, i as int);
                }
                Some((i + 1) as i32)
            },
            None => None,
        }
    }

    /// Resolves `a`, adding a row for it if it is new.
    fn intern(&mut self, a: &String) -> (r: Result<i32, StoreError>)
        requires
            old(self).wf(),
        ensures
            final(self).wf(),
            final(self)@.records == old(self)@.records,
            old(self).keys@.len() <= final(self).keys@.len(),
            final(self).keys@.subrange(0, old(self).keys@.len() as int) == old(self).keys@,
            if intern(old(self)@.addresses, a@).len() <= MAX_KEYS {
                &&& final(self)@.addresses == intern(old(self)@.addresses, a@)
                &&& r == Ok::<i32, StoreError>(surrogate(final(self)@.addresses, a@) as i32)
                &&& 1 <= surrogate(final(self)@.addresses, a@) <= final(self)@.addresses.len()
                &&& final(self)@.addresses[surrogate(final(self)@.addresses, a@) - 1] == a@
            } else {
                &&& final(self).keys@ == old(self).keys@
                &&& r == Err::<i32, StoreError>(StoreError::StorageUnavailable)
            },
    {
        proof {
            lemma_intern_keeps(self@.addresses, a@);
        }
        match self.find(a) {
            Some(i) => {
                proof {
                    lemma_index_of_distinct(self@.addresses, i as int);
                    assert(self.keys@.subrange(0, self.keys@.len() as int) =~= self.keys@);
                }
                Ok((i + 1) as i32)
            },
            None => {
                if self.keys.len() >= MAX_KEYS {
                    return Err(StoreError::StorageUnavailable);
                }
                let ghost before = self@;
                let ghost old_keys = self.keys@;
                let id = (self.keys.len() + 1) as i32;
                self.keys.push(Key { id: Some(id), key: a.clone() });
                proof {
                    assert(self@.addresses =~= before.addresses.push(a@));
                    assert(self.keys@.subrange(0, old_keys.len() as int) =~= old_keys);
                    lemma_index_of_distinct(self@.addresses, old_keys.len() as int);
                }
                Ok(id)
            },
        }
    }

    /// The surrogate key of `address`, creating its key row on first sight.
    /// A second call with the same address returns the same key and adds no row.
    pub fn resolve_or_create(&mut self, address: &str) -> (r: Result<i32, StoreError>)
        requires
            old(self).wf(),
        ensures
            final(self).wf(),
            final(self)@.records == old(self)@.records,
            if intern(old(self)@.addresses, address@).len() <= MAX_KEYS {
                &&& final(self)@.addresses == intern(old(self)@.addresses, address@)
                &&& r == Ok::<i32, StoreError>(
                    surrogate(final(self)@.addresses, address@) as i32,
                )
                &&& 1 <= surrogate(final(self)@.addresses, address@) <= final(self)@.addresses.len()
                &&& final(self)@.addresses[surrogate(final(self)@.addresses, address@) - 1]
                    == address@
            } else {
                &&& final(self)@ == old(self)@
                &&& r == Err::<i32, StoreError>(StoreError::StorageUnavailable)
            },
    {
        let a = address.to_owned();
        self.intern(&a)
    }

    /// Resolves an address that may be absent; see `intern`.
    fn intern_opt(&mut self, a: &Option<String>) -> (r: Result<Option<i32>, StoreError>)
        requires
            old(self).wf(),
        ensures
            final(self).wf(),
            final(self)@.records == old(self)@.records,
            old(self).keys@.len() <= final(self).keys@.len(),
            final(self).keys@.subrange(0, old(self).keys@.len() as int) == old(self).keys@,
            if intern_opt(old(self)@.addresses, *a).len() <= MAX_KEYS {
                &&& final(self)@.addresses == intern_opt(old(self)@.addresses, *a)
                &&& r == Ok::<Option<i32>, StoreError>(surrogate_opt(final(self)@.addresses, *a))
            } else {
                r == Err::<Option<i32>, StoreError>(StoreError::StorageUnavailable)
            },
    {
        match a {
            Some(s) => match self.intern(s) {
                Ok(id) => Ok(Some(id)),
                Err(e) => Err(e),
            },
            None => {
                assert(self.keys@.subrange(0, self.keys@.len() as int) =~= self.keys@);
                Ok(None)
            },
        }
    }

    /// Commits `msg` to the message table. An explicit append sequence must
    /// lie after the last one stored; an absent one is assigned the next.
    /// The message's surrogate keys must name existing key rows.
    pub fn insert(&mut self, msg: Message) -> (r: Result<i64, StoreError>)
        requires
            old(self).wf(),
        ensures
            final(self).wf(),
            match insert_outcome(old(self)@, msg) {
                Ok(s) => {
                    &&& r == Ok::<i64, StoreError>(s as i64)
                    &&& final(self)@ == (StoreView {
                        addresses: old(self)@.addresses,
                        records: old(self)@.records.push(with_seq(msg, s)),
                    })
                },
                Err(e) => r == Err::<i64, StoreError>(e) && final(self)@ == old(self)@,
            },
    {
        let count = self.keys.len();
        if !refers_within(msg.key_id, count) || !refers_within(msg.author_id, count)
            || !refers_within(msg.root_key_id, count) || !refers_within(msg.fork_key_id, count) {
            return Err(StoreError::ReferentialViolation);
        }
        let n = self.messages.len();
        let next: Option<i64> = if n == 0 {
            Some(0)
        } else {
            let last = self.messages[n - 1].flume_seq.unwrap();
            if last == MAX_SEQ {
                None
            } else {
                Some(last + 1)
            }
        };
        let s: i64 = match msg.flume_seq {
            Some(s) => {
                match next {
                    Some(x) => if s < x {
                        return Err(StoreError::SequenceConflict);
                    },
                    None => {
                        return Err(StoreError::SequenceConflict);
                    },
                }
                s
            },
            None => match next {
                Some(x) => x,
                None => {
                    return Err(StoreError::StorageUnavailable);
                },
            },
        };
        let mut m = msg;
        m.flume_seq = Some(s);
        let ghost before = self@;
        self.messages.push(m);
        proof {
            assert(self@.records =~= before.records.push(with_seq(msg, s as int)));
            assert(self@.records[n as int] == with_seq(msg, s as int));
        }
        Ok(s)
    }

    /// Resolves every address of `draft` and appends the resulting message at
    /// the next append sequence, as one unit: on failure neither table changes.
    pub fn append(&mut self, draft: MessageDraft) -> (r: Result<i64, StoreError>)
        requires
            old(self).wf(),
        ensures
            final(self).wf(),
            if can_append(old(self)@, draft) {
                &&& r == Ok::<i64, StoreError>(old(self)@.next_seq() as i64)
                &&& appended(old(self)@, draft, final(self)@, old(self)@.next_seq())
            } else {
                r == Err::<i64, StoreError>(StoreError::StorageUnavailable) && final(self)@ == old(
                    self,
                )@
            },
    {
        let n = self.messages.len();
        let s: i64 = if n == 0 {
            0
        } else {
            let last = self.messages[n - 1].flume_seq.unwrap();
            if last == MAX_SEQ {
                return Err(StoreError::StorageUnavailable);
            }
            last + 1
        };
        let ghost v0 = self@;
        let ghost k0 = self.keys@;
        let mark = self.keys.len();
        proof {
            lemma_intern_opt_grows(v0.addresses, draft);
        }
        let key_id = match self.intern_opt(&draft.key) {
            Ok(k) => k,
            Err(e) => {
                self.keys.truncate(mark);
                assert(self.keys@ =~= k0);
                return Err(e);
            },
        };
        let ghost v1 = self@;
        let ghost k1 = self.keys@;
        let author_id = match self.intern_opt(&draft.author) {
            Ok(k) => k,
            Err(e) => {
                self.keys.truncate(mark);
                assert(self.keys@ =~= k0) by {
                    assert(k1.subrange(0, mark as int) =~= k0);
                }
                return Err(e);
            },
        };
        let ghost v2 = self@;
        let ghost k2 = self.keys@;
        let root_key_id = match self.intern_opt(&draft.root) {
            Ok(k) => k,
            Err(e) => {
                self.keys.truncate(mark);
                assert(self.keys@ =~= k0) by {
                    assert(k1.subrange(0, mark as int) =~= k0);
                    assert(k2.subrange(0, mark as int) =~= k0);
                }
                return Err(e);
            },
        };
        let ghost v3 = self@;
        let ghost k3 = self.keys@;
        let fork_key_id = match self.intern_opt(&draft.fork) {
            Ok(k) => k,
            Err(e) => {
                self.keys.truncate(mark);
                assert(self.keys@ =~= k0) by {
                    assert(k1.subrange(0, mark as int) =~= k0);
                    assert(k2.subrange(0, mark as int) =~= k0);
                    assert(k3.subrange(0, mark as int) =~= k0);
                }
                return Err(e);
            },
        };
        proof {
            lemma_surrogates_settle(v0.addresses, draft);
        }
        let m = Message {
            flume_seq: Some(s),
            key_id,
            seq: draft.seq,
            received_time: draft.received_time,
            asserted_time: draft.asserted_time,
            root_key_id,
            fork_key_id,
            author_id,
            content_type: draft.content_type,
            content: draft.content,
            is_decrypted: draft.is_decrypted,
        };
        let ghost before = self@;
        proof {
            if n > 0 {
                assert forall|i: int| 0 <= i < n implies seq_of(#[trigger] before.records[i]) < s
                    by {
                    if i < n - 1 {
                        assert(seq_of(before.records[i]) < seq_of(before.records[n - 1]));
                    }
                }
            }
        }
        self.messages.push(m);
        proof {
            assert(self@.records =~= before.records.push(m));
            assert(self@.records[n as int] == m);
            assert(m == record_of(draft, self@.addresses, s as int));
        }
        Ok(s)
    }

    /// The position of the first message whose append sequence is at least `start`.
    fn lower_bound(&self, start: i64) -> (r: usize)
        requires
            self.wf(),
        ensures
            r == first_from(self@.records, start as int, 0),
            r <= self@.records.len(),
    {
        let ghost ms = self@.records;
        let mut i: usize = 0;
        while i < self.messages.len() && self.messages[i].flume_seq.unwrap() < start
            invariant
                self.wf(),
                ms == self@.records,
                i <= ms.len(),
                first_from(ms, start as int, 0) == first_from(ms, start as int, i as int),
            decreases ms.len() - i,
        {
            i = i + 1;
        }
        proof {
            lemma_first_from_at(ms, start as int, i as int, i as int);
        }
        i
    }

    /// Up to `limit` messages whose append sequence is at least `start_seq`,
    /// in ascending order of append sequence.
    pub fn load_range(&self, start_seq: i64, limit: usize) -> (r: Vec<Message>)
        requires
            self.wf(),
        ensures
            r@ == range(self@.records, start_seq as int, limit as int),
    {
        let ghost ms = self@.records;
        let k = self.lower_bound(start_seq);
        let mut out: Vec<Message> = Vec::new();
        let mut j: usize = k;
        while j < self.messages.len() && j - k < limit
            invariant
                self.wf(),
                ms == self@.records,
                k <= j <= ms.len(),
                j - k <= limit,
                out@ == ms.subrange(k as int, j as int),
            decreases ms.len() - j,
        {
            out.push(self.messages[j].duplicate());
            j = j + 1;
            assert(out@ =~= ms.subrange(k as int, j as int));
        }
        out
    }

    /// Every key row, in order of surrogate key.
    pub fn load_keys(&self) -> (r: Vec<Key>)
        requires
            self.wf(),
        ensures
            r@.len() == self@.addresses.len(),
            forall|i: int|
                0 <= i < r@.len() ==> (#[trigger] r@[i]).id == Some((i + 1) as i32) && r@[i].key@
                    == self@.addresses[i],
    {
        let mut out: Vec<Key> = Vec::new();
        let mut i: usize = 0;
        while i < self.keys.len()
            invariant
                self.wf(),
                i <= self.keys@.len(),
                out@ == self.keys@.subrange(0, i as int),
            decreases self.keys@.len() - i,
        {
            out.push(self.keys[i].duplicate());
            i = i + 1;
            assert(out@ =~= self.keys@.subrange(0, i as int));
        }
        assert(out@ =~= self.keys@);
        out
    }

    /// Replaces the content of the message at `append_seq` by `plaintext` and
    /// marks it decrypted; `NotFound` if no message stands there.
    pub fn mark_decrypted(&mut self, append_seq: i64, plaintext: String) -> (r: Result<
        (),
        StoreError,
    >)
        requires
            old(self).wf(),
        ensures
            final(self).wf(),
            if holds_seq(old(self)@.records, append_seq as int) {
                let k = first_from(old(self)@.records, append_seq as int, 0);
                &&& r == Ok::<(), StoreError>(())
                &&& final(self)@ == (StoreView {
                    addresses: old(self)@.addresses,
                    records: old(self)@.records.update(
                        k,
                        decrypted(old(self)@.records[k], plaintext),
                    ),
                })
            } else {
                r == Err::<(), StoreError>(StoreError::NotFound) && final(self)@ == old(self)@
            },
    {
        let k = self.lower_bound(append_seq);
        if k >= self.messages.len() || self.messages[k].flume_seq.unwrap() != append_seq {
            return Err(StoreError::NotFound);
        }
        let ghost before = self@;
        let mut m = self.messages[k].duplicate();
        m.content = Some(plaintext);
        m.is_decrypted = Some(true);
        self.messages.set(k, m);
        proof {
            assert(self@.records =~= before.records.update(
                k as int,
                decrypted(before.records[k as int], plaintext),
            ));
            assert forall|i: int| 0 <= i < self@.records.len() implies seq_of(
                #[trigger] self@.records[i],
            ) == seq_of(before.records[i]) by {}
        }
        Ok(())
    }
}

} // verus!
