//! The response cache: upstream replies by canonical question.

use vstd::prelude::*;
use crate::message::Message;
use crate::question::{CacheKey, QuestionView};

verus! {

/// One cached reply.
pub struct CacheEntry {
    key: CacheKey,
    message: Message,
}

/// The mapping that a sequence of entries stands for: a later entry
/// replaces an earlier one with the same key.
pub closed spec fn entries_map(entries: Seq<CacheEntry>) -> Map<QuestionView, Seq<u8>>
    decreases entries.len(),
{
    if entries.len() == 0 {
        Map::empty()
    } else {
        entries_map(entries.drop_last()).insert(entries.last().key@, entries.last().message@)
    }
}

/// No key occurs twice among the entries.
pub closed spec fn distinct_keys(entries: Seq<CacheEntry>) -> bool {
    forall|i: int, j: int|
        0 <= i < j < entries.len() ==> (#[trigger] entries[i]).key@ != (#[trigger] entries[j]).key@
}

proof fn lemma_absent(entries: Seq<CacheEntry>, key: QuestionView)
    requires
        forall|i: int| 0 <= i < entries.len() ==> (#[trigger] entries[i]).key@ != key,
    ensures
        !entries_map(entries).contains_key(key),
    decreases entries.len(),
{
    if entries.len() > 0 {
        lemma_absent(entries.drop_last(), key);
    }
}

proof fn lemma_present(entries: Seq<CacheEntry>, at: int)
    requires
        0 <= at < entries.len(),
        distinct_keys(entries),
    ensures
        entries_map(entries).contains_key(entries[at].key@),
        entries_map(entries)[entries[at].key@] == entries[at].message@,
    decreases entries.len(),
{
    if at < entries.len() - 1 {
        lemma_present(entries.drop_last(), at);
        assert(entries.drop_last()[at] == entries[at]);
    }
}

proof fn lemma_replaced(entries: Seq<CacheEntry>, at: int, entry: CacheEntry)
    requires
        0 <= at < entries.len(),
        distinct_keys(entries),
        entry.key@ == entries[at].key@,
    ensures
        distinct_keys(entries.update(at, entry)),
        entries_map(entries.update(at, entry)) == entries_map(entries).insert(
            entry.key@,
            entry.message@,
        ),
    decreases entries.len(),
{
    let after = entries.update(at, entry);
    assert forall|i: int, j: int| 0 <= i < j < after.len() implies (#[trigger] after[i]).key@ != (
    #[trigger] after[j]).key@ by {
        assert(entries[i].key@ != entries[j].key@);
    }
    if at == entries.len() - 1 {
        assert(after.drop_last() =~= entries.drop_last());
        assert(entries_map(after) =~= entries_map(entries).insert(entry.key@, entry.message@));
    } else {
        lemma_replaced(entries.drop_last(), at, entry);
        assert(entries.drop_last()[at] == entries[at]);
        assert(after.drop_last() =~= entries.drop_last().update(at, entry));
        assert(after.last() == entries.last());
        assert(entries.last().key@ != entry.key@);
        assert(entries_map(after) =~= entries_map(entries).insert(entry.key@, entry.message@));
    }
}

proof fn lemma_count(entries: Seq<CacheEntry>)
    requires
        distinct_keys(entries),
    ensures
        entries_map(entries).dom().finite(),
        entries_map(entries).dom().len() == entries.len(),
    decreases entries.len(),
{
    if entries.len() == 0 {
        assert(entries_map(entries).dom() =~= Set::empty());
    } else {
        let init = entries.drop_last();
        assert forall|i: int, j: int| 0 <= i < j < init.len() implies (#[trigger] init[i]).key@ != (
        #[trigger] init[j]).key@ by {
            assert(init[i] == entries[i] && init[j] == entries[j]);
        }
        assert forall|i: int| 0 <= i < init.len() implies (#[trigger] init[i]).key@
            != entries.last().key@ by {
            assert(init[i] == entries[i]);
            assert(entries.last() == entries[entries.len() - 1]);
        }
        lemma_count(init);
        lemma_absent(init, entries.last().key@);
        assert(entries_map(entries).dom() =~= entries_map(init).dom().insert(
            entries.last().key@,
        ));
    }
}

/// The response cache. It maps the canonical form of a question to the
/// reply stored for it; nothing is ever evicted.
pub struct Cache {
    entries: Vec<CacheEntry>,
}

impl View for Cache {
    type V = Map<QuestionView, Seq<u8>>;

    closed spec fn view(&self) -> Map<QuestionView, Seq<u8>> {
        entries_map(self.entries@)
    }
}

impl Cache {
    /// What the methods keep: no key is stored twice.
    pub closed spec fn wf(&self) -> bool {
        distinct_keys(self.entries@)
    }

    /// An empty cache.
    pub fn new() -> (r: Cache)
        ensures
            r.wf(),
            r@ == Map::<QuestionView, Seq<u8>>::empty(),
    {
        Cache { entries: Vec::new() }
    }

    /// A copy of the reply stored under `key`, if there is one. The cache
    /// stays as it is.
    pub fn get(&self, key: &CacheKey) -> (r: Option<Message>)
        requires
            self.wf(),
        ensures
            match r {
                Some(message) => self@.contains_key(key@) && message@ == self@[key@],
                None => !self@.contains_key(key@),
            },
    {
        let mut i: usize = 0;
        while i < self.entries.len()
            invariant
                i <= self.entries.len(),
                distinct_keys(self.entries@),
                forall|j: int| 0 <= j < i ==> (#[trigger] self.entries@[j]).key@ != key@,
            decreases self.entries.len() - i,
        {
            if self.entries[i].key.same(key) {
                proof {
                    lemma_present(self.entries@, i as int);
                }
                return Some(self.entries[i].message.duplicate());
            }
            i += 1;
        }
        proof {
            lemma_absent(self.entries@, key@);
        }
        None
    }

    /// Stores `message` under `key`. A reply stored under the same key
    /// before is replaced; all other entries stay.
    pub fn insert(&mut self, key: CacheKey, message: Message)
        requires
            old(self).wf(),
        ensures
            final(self).wf(),
            final(self)@ == old(self)@.insert(key@, message@),
    {
        let mut i: usize = 0;
        while i < self.entries.len()
            invariant
                i <= self.entries.len(),
                self.entries == old(self).entries,
                distinct_keys(self.entries@),
                forall|j: int| 0 <= j < i ==> (#[trigger] self.entries@[j]).key@ != key@,
            decreases self.entries.len() - i,
        {
            if self.entries[i].key.same(&key) {
                let entry = CacheEntry { key, message };
                proof {
                    lemma_replaced(self.entries@, i as int, entry);
                }
                self.entries.set(i, entry);
                return;
            }
            i += 1;
        }
        let entry = CacheEntry { key, message };
        proof {
            let after = self.entries@.push(entry);
            assert(after.drop_last() =~= self.entries@);
            assert forall|a: int, b: int| 0 <= a < b < after.len() implies (#[trigger] after[a]).key@
                != (#[trigger] after[b]).key@ by {
                if b < self.entries@.len() {
                    assert(self.entries@[a].key@ != self.entries@[b].key@);
                }
            }
        }
        self.entries.push(entry);
    }

    /// The number of replies stored.
    pub fn len(&self) -> (r: usize)
        requires
            self.wf(),
        ensures
            self@.dom().finite(),
            r == self@.dom().len(),
    {
        proof {
            lemma_count(self.entries@);
        }
        self.entries.len()
    }
}

} // verus!
