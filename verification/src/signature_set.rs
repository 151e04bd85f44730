//! The entries of a signature history, in order and without repeats.
use crate::signature::Signature;
use crate::signatures_data::{entry_order_is_total, entry_order_is_transitive, SignaturesData};
use vstd::prelude::*;

verus! {

/// Each entry comes before all that stand behind it.
pub open spec fn strictly_sorted(entries: Seq<SignaturesData>) -> bool {
    forall|i: int, j: int|
        #![trigger entries[i], entries[j]]
        0 <= i < j < entries.len() ==> entries[i].precedes(entries[j])
}

/// Some entry has the key.
pub open spec fn holds_key(
    entries: Seq<SignaturesData>,
    key: (u64, Option<i64>, Signature),
) -> bool {
    exists|i: int| 0 <= i < entries.len() && (#[trigger] entries[i]).key() == key
}

/// Every key of the batch is already among the entries.
pub open spec fn covers(entries: Seq<SignaturesData>, batch: Seq<SignaturesData>) -> bool {
    forall|i: int| 0 <= i < batch.len() ==> holds_key(entries, (#[trigger] batch[i]).key())
}

/// `after` is `before` with the entry put where it belongs, or `before`
/// itself if the key was there.
pub open spec fn inserted(
    before: Seq<SignaturesData>,
    entry: SignaturesData,
    after: Seq<SignaturesData>,
) -> bool {
    if holds_key(before, entry.key()) {
        after == before
    } else {
        &&& strictly_sorted(after)
        &&& exists|i: int| 0 <= i <= before.len() && after == #[trigger] before.insert(i, entry)
    }
}

/// `entry` is the first of the batch with its key, and the key is new to
/// `before`.
pub open spec fn newcomer(
    before: Seq<SignaturesData>,
    batch: Seq<SignaturesData>,
    entry: SignaturesData,
) -> bool {
    &&& !holds_key(before, entry.key())
    &&& exists|i: int|
        0 <= i < batch.len() && #[trigger] batch[i] == entry && !holds_key(
            batch.take(i),
            entry.key(),
        )
}

/// `after` holds, in order, the entries of `before` and the newcomers of the batch.
pub open spec fn merged(
    before: Seq<SignaturesData>,
    batch: Seq<SignaturesData>,
    after: Seq<SignaturesData>,
) -> bool {
    &&& strictly_sorted(after)
    &&& forall|entry: SignaturesData| #[trigger]
        after.contains(entry) <==> before.contains(entry) || newcomer(before, batch, entry)
}

/// A set of entries, kept in order. Of entries with one key, the first that
/// was inserted stays.
#[derive(Debug)]
pub struct SignatureSet {
    entries: Vec<SignaturesData>,
}

impl View for SignatureSet {
    type V = Seq<SignaturesData>;

    closed spec fn view(&self) -> Seq<SignaturesData> {
        self.entries@
    }
}

impl SignatureSet {
    /// The entries are in order and no key occurs twice.
    pub open spec fn wf(self) -> bool {
        strictly_sorted(self@)
    }

    /// The empty set.
    pub fn new() -> (set: SignatureSet)
        ensures
            set.wf(),
            set@ == Seq::<SignaturesData>::empty(),
    {
        SignatureSet { entries: Vec::new() }
    }

    /// The number of entries.
    pub fn len(&self) -> (len: usize)
        ensures
            len == self@.len(),
    {
        self.entries.len()
    }

    /// The entries in order.
    pub fn into_vec(self) -> (entries: Vec<SignaturesData>)
        ensures
            entries@ == self@,
    {
        self.entries
    }

    /// Adds the entry unless one with its key is there, and says whether it did.
    pub fn insert(&mut self, entry: SignaturesData) -> (added: bool)
        requires
            old(self).wf(),
        ensures
            final(self).wf(),
            added == !holds_key(old(self)@, entry.key()),
            inserted(old(self)@, entry, final(self)@),
            added <==> forall|k: int|
                0 <= k < old(self)@.len() ==> (#[trigger] old(self)@[k]).slot != entry.slot
                    || old(self)@[k].block_time != entry.block_time || old(self)@[k].signature
                    != entry.signature,
            !added ==> final(self)@ == old(self)@,
            added ==> exists|p: int|
                0 <= p <= old(self)@.len() && final(self)@ == #[trigger] old(self)@.insert(
                    p,
                    entry,
                ),
            forall|i: int, j: int|
                #![trigger final(self)@[i], final(self)@[j]]
                0 <= i < j < final(self)@.len() ==> final(self)@[i].slot <= final(self)@[j].slot,
    {
        let ghost was = self@;
        let added = self.put(entry);
        proof {
            lemma_sorted_slots(self@);
            assert forall|k: int| 0 <= k < was.len() && added implies (
            #[trigger] was[k]).slot != entry.slot || was[k].block_time != entry.block_time
                || was[k].signature != entry.signature by {
                assert(was[k].key() != entry.key());
            }
            if !added {
                let k = choose|k: int|
                    0 <= k < was.len() && (#[trigger] was[k]).key() == entry.key();
                assert(was[k].slot == entry.slot);
            }
        }
        added
    }

    /// Searches for the entry's place and puts it there, if it is new.
    fn put(&mut self, entry: SignaturesData) -> (added: bool)
        requires
            old(self).wf(),
        ensures
            final(self).wf(),
            added == !holds_key(old(self)@, entry.key()),
            inserted(old(self)@, entry, final(self)@),
    {
        let mut low: usize = 0;
        let mut high: usize = self.entries.len();
        while low < high
            invariant
                self.wf(),
                *self == *old(self),
                low <= high <= self.entries@.len(),
                forall|j: int| 0 <= j < low ==> (#[trigger] self.entries@[j]).precedes(entry),
                forall|j: int|
                    high <= j < self.entries@.len() ==> entry.precedes(
                        #[trigger] self.entries@[j],
                    ),
            decreases high - low,
        {
            let middle: usize = low + (high - low) / 2;
            let ghost at = self.entries@[middle as int];
            proof {
                entry_order_is_total(at, entry);
            }
            if self.entries[middle].comes_before(&entry) {
                assert forall|j: int| 0 <= j < middle + 1 implies (#[trigger] self.entries@[j])
                    .precedes(entry) by {
                    if j < middle {
                        entry_order_is_transitive(self.entries@[j], at, entry);
                    }
                }
                low = middle + 1;
            } else if entry.comes_before(&self.entries[middle]) {
                assert forall|j: int| middle <= j < self.entries@.len() implies entry.precedes(
                    #[trigger] self.entries@[j],
                ) by {
                    if middle < j {
                        entry_order_is_transitive(entry, at, self.entries@[j]);
                    }
                }
                high = middle;
            } else {
                return false;
            }
        }
        proof {
            assert forall|j: int| 0 <= j < self@.len() implies (#[trigger] self@[j]).key()
                != entry.key() by {
                entry_order_is_total(self@[j], entry);
            }
        }
        self.entries.insert(low, entry);
        proof {
            let was = old(self)@;
            assert(self@ == was.insert(low as int, entry));
            assert forall|i: int, j: int|
                #![trigger self@[i], self@[j]]
                0 <= i < j < self@.len() implies self@[i].precedes(self@[j]) by {
                if i < low && low < j {
                    assert(was[i].precedes(was[j - 1]));
                } else if low < i {
                    assert(was[i - 1].precedes(was[j - 1]));
                } else if j < low {
                    assert(was[i].precedes(was[j]));
                }
            }
        }
        true
    }

    /// Adds the entries of a batch one after the other.
    pub fn extend(&mut self, batch: Vec<SignaturesData>)
        requires
            old(self).wf(),
        ensures
            final(self).wf(),
            merged(old(self)@, batch@, final(self)@),
            final(self)@.len() >= old(self)@.len(),
            final(self)@.len() == old(self)@.len() <==> covers(old(self)@, batch@),
            covers(old(self)@, batch@) ==> final(self)@ == old(self)@,
            forall|entry: SignaturesData| #[trigger]
                old(self)@.contains(entry) ==> final(self)@.contains(entry),
            forall|entry: SignaturesData| #[trigger]
                batch@.contains(entry) ==> exists|k: int|
                    0 <= k < final(self)@.len() && (#[trigger] final(self)@[k]).slot == entry.slot
                        && final(self)@[k].block_time == entry.block_time
                        && final(self)@[k].signature == entry.signature,
            forall|entry: SignaturesData| #[trigger]
                final(self)@.contains(entry) ==> old(self)@.contains(entry) || batch@.contains(
                    entry,
                ),
            forall|k: int, b: int|
                #![trigger final(self)@[k], batch@[b]]
                0 <= k < final(self)@.len() && 0 <= b < batch@.len() && !old(self)@.contains(
                    final(self)@[k],
                ) && batch@[b].slot == final(self)@[k].slot && batch@[b].block_time
                    == final(self)@[k].block_time && batch@[b].signature
                    == final(self)@[k].signature && (forall|c: int|
                    0 <= c < b ==> (#[trigger] batch@[c]).slot != batch@[b].slot
                        || batch@[c].block_time != batch@[b].block_time || batch@[c].signature
                        != batch@[b].signature) ==> batch@[b] == final(self)@[k],
            forall|i: int, j: int|
                #![trigger final(self)@[i], final(self)@[j]]
                0 <= i < j < final(self)@.len() ==> final(self)@[i].slot <= final(self)@[j].slot,
    {
        let ghost (was, all) = (self@, batch@);
        self.put_all(batch);
        proof {
            merge_keeps_and_adds(was, all, self@);
            assert forall|k: int, b: int|
                #![trigger self@[k], all[b]]
                0 <= k < self@.len() && 0 <= b < all.len() && !was.contains(self@[k])
                    && all[b].slot == self@[k].slot && all[b].block_time == self@[k].block_time
                    && all[b].signature == self@[k].signature && (forall|c: int|
                    0 <= c < b ==> (#[trigger] all[c]).slot != all[b].slot || all[c].block_time
                        != all[b].block_time || all[c].signature != all[b].signature) implies all[b]
                == self@[k] by {
                merge_adds_the_first_of_each(was, all, self@, k, b);
            }
            lemma_sorted_slots(self@);
        }
    }

    /// Puts the entries of a batch where they belong, one after the other.
    fn put_all(&mut self, batch: Vec<SignaturesData>)
        requires
            old(self).wf(),
        ensures
            final(self).wf(),
            merged(old(self)@, batch@, final(self)@),
            final(self)@.len() >= old(self)@.len(),
            final(self)@.len() == old(self)@.len() <==> covers(old(self)@, batch@),
            covers(old(self)@, batch@) ==> final(self)@ == old(self)@,
    {
        let ghost all = batch@;
        let ghost was = self@;
        proof {
            assert(all.take(0) =~= Seq::<SignaturesData>::empty());
            lemma_merge_nothing(was);
        }
        for entry in it: batch
            invariant
                it.seq() == all,
                self.wf(),
                merged(was, all.take(it.index()), self@),
                self@.len() >= was.len(),
                self@.len() == was.len() <==> covers(was, all.take(it.index())),
                covers(was, all.take(it.index())) ==> self@ == was,
        {
            let ghost now = self@;
            let ghost done = all.take(it.index());
            self.put(entry);
            proof {
                assert(all.take(it.index() + 1) =~= done.push(entry));
                lemma_merge_one(was, done, now, entry, self@);
                lemma_covers_push(was, done, entry);
                merged_keys(was, done, now);
            }
        }
        proof {
            assert(all.take(all.len() as int) =~= all);
        }
    }

    /// The signatures of the entries whose transactions did not fail, in order.
    pub fn successful(&self) -> (signatures: Vec<Signature>)
        ensures
            signatures@ == self@.filter(|entry: SignaturesData| entry.err is None).map_values(
                |entry: SignaturesData| entry.signature,
            ),
            forall|signature: Signature| #[trigger]
                signatures@.contains(signature) <==> exists|k: int|
                    0 <= k < self@.len() && (#[trigger] self@[k]).err is None && self@[k].signature
                        == signature,
    {
        let mut signatures: Vec<Signature> = Vec::new();
        let ghost fine = |entry: SignaturesData| entry.err is None;
        let ghost name = |entry: SignaturesData| entry.signature;
        proof {
            assert(self@.take(0).filter(fine) =~= Seq::<SignaturesData>::empty()) by {
                reveal(Seq::filter);
            }
            assert(signatures@ =~= self@.take(0).filter(fine).map_values(name));
        }
        let mut i: usize = 0;
        while i < self.entries.len()
            invariant
                i <= self@.len(),
                self@ == self.entries@,
                fine == (|entry: SignaturesData| entry.err is None),
                name == (|entry: SignaturesData| entry.signature),
                signatures@ == self@.take(i as int).filter(fine).map_values(name),
            decreases self@.len() - i,
        {
            let ghost seen = self@.take(i as int);
            if self.entries[i].err.is_none() {
                signatures.push(self.entries[i].signature);
            }
            proof {
                reveal(Seq::filter);
                let more = self@.take(i + 1);
                assert(more.drop_last() =~= seen);
                assert(more.last() == self@[i as int]);
                assert(signatures@ =~= more.filter(fine).map_values(name));
            }
            i += 1;
        }
        assert(self@.take(self@.len() as int) =~= self@);
        proof {
            assert forall|signature: Signature| #[trigger]
                signatures@.contains(signature) <==> exists|k: int|
                    0 <= k < self@.len() && (#[trigger] self@[k]).err is None && self@[k].signature
                        == signature by {
                successful_are_those_without_error(self@, signature);
            }
        }
        signatures
    }
}

/// Merging an empty batch changes nothing.
proof fn lemma_merge_nothing(entries: Seq<SignaturesData>)
    requires
        strictly_sorted(entries),
    ensures
        merged(entries, Seq::empty(), entries),
        covers(entries, Seq::empty()),
{
}

/// One more entry is covered if the entries before it are and its key is there.
proof fn lemma_covers_push(
    entries: Seq<SignaturesData>,
    batch: Seq<SignaturesData>,
    entry: SignaturesData,
)
    ensures
        covers(entries, batch.push(entry)) <==> covers(entries, batch) && holds_key(
            entries,
            entry.key(),
        ),
{
    let more = batch.push(entry);
    if covers(entries, more) {
        assert forall|i: int| 0 <= i < batch.len() implies holds_key(
            entries,
            (#[trigger] batch[i]).key(),
        ) by {
            assert(more[i] == batch[i]);
        }
        assert(more[batch.len() as int] == entry);
    }
    if covers(entries, batch) && holds_key(entries, entry.key()) {
        assert forall|i: int| 0 <= i < more.len() implies holds_key(
            entries,
            (#[trigger] more[i]).key(),
        ) by {
            if i < batch.len() {
                assert(more[i] == batch[i]);
            }
        }
    }
}

/// After a merge the keys are those of before and those of the batch.
pub proof fn merged_keys(
    before: Seq<SignaturesData>,
    batch: Seq<SignaturesData>,
    after: Seq<SignaturesData>,
)
    requires
        merged(before, batch, after),
    ensures
        forall|key: (u64, Option<i64>, Signature)| #[trigger]
            holds_key(after, key) <==> holds_key(before, key) || holds_key(batch, key),
{
    assert forall|key: (u64, Option<i64>, Signature)|
        holds_key(before, key) || holds_key(batch, key) implies #[trigger] holds_key(
        after,
        key,
    ) by {
        if holds_key(before, key) {
            let i = choose|i: int| 0 <= i < before.len() && (#[trigger] before[i]).key() == key;
            assert(before.contains(before[i]));
            assert(after.contains(before[i]));
            let j = choose|j: int| 0 <= j < after.len() && after[j] == before[i];
            assert(after[j].key() == key);
        } else {
            let i = lemma_first_with_key(batch, key);
            assert(newcomer(before, batch, batch[i]));
            assert(after.contains(batch[i]));
            let j = choose|j: int| 0 <= j < after.len() && after[j] == batch[i];
            assert(after[j].key() == key);
        }
    }
    assert forall|key: (u64, Option<i64>, Signature)| #[trigger] holds_key(after, key) implies
        holds_key(before, key) || holds_key(batch, key) by {
        let j = choose|j: int| 0 <= j < after.len() && (#[trigger] after[j]).key() == key;
        assert(after.contains(after[j]));
        if before.contains(after[j]) {
            let i = choose|i: int| 0 <= i < before.len() && before[i] == after[j];
            assert(before[i].key() == key);
        }
    }
}

/// The first entry of a batch with a given key.
proof fn lemma_first_with_key(
    batch: Seq<SignaturesData>,
    key: (u64, Option<i64>, Signature),
) -> (i: int)
    requires
        holds_key(batch, key),
    ensures
        0 <= i < batch.len(),
        batch[i].key() == key,
        !holds_key(batch.take(i), key),
    decreases batch.len(),
{
    let last = batch.len() - 1;
    let front = batch.take(last);
    if holds_key(front, key) {
        let i = lemma_first_with_key(front, key);
        assert(front.take(i) =~= batch.take(i));
        i
    } else {
        let i = choose|i: int| 0 <= i < batch.len() && (#[trigger] batch[i]).key() == key;
        if i < last {
            assert(front[i] == batch[i]);
        }
        last
    }
}

/// Inserting one more entry after a merge merges the longer batch.
proof fn lemma_merge_one(
    before: Seq<SignaturesData>,
    batch: Seq<SignaturesData>,
    middle: Seq<SignaturesData>,
    entry: SignaturesData,
    after: Seq<SignaturesData>,
)
    requires
        merged(before, batch, middle),
        inserted(middle, entry, after),
    ensures
        merged(before, batch.push(entry), after),
{
    let more = batch.push(entry);
    merged_keys(before, batch, middle);
    assert(more.take(batch.len() as int) =~= batch);
    assert forall|x: SignaturesData| newcomer(before, batch, x) implies newcomer(
        before,
        more,
        x,
    ) by {
        let i = choose|i: int|
            0 <= i < batch.len() && #[trigger] batch[i] == x && !holds_key(batch.take(i), x.key());
        assert(more[i] == x);
        assert(more.take(i) =~= batch.take(i));
    }
    assert forall|x: SignaturesData| newcomer(before, more, x) implies newcomer(before, batch, x)
        || x == entry && !holds_key(middle, entry.key()) by {
        let i = choose|i: int|
            0 <= i < more.len() && #[trigger] more[i] == x && !holds_key(more.take(i), x.key());
        if i < batch.len() {
            assert(batch[i] == x);
            assert(more.take(i) =~= batch.take(i));
        }
    }
    if holds_key(middle, entry.key()) {
        assert(merged(before, more, after));
    } else {
        let p = choose|p: int|
            0 <= p <= middle.len() && after == #[trigger] middle.insert(p, entry);
        assert(newcomer(before, more, entry)) by {
            assert(more[batch.len() as int] == entry);
        }
        assert forall|x: SignaturesData| #[trigger] after.contains(x) <==> middle.contains(x) || x
            == entry by {
            lemma_insert_contains(middle, p, entry, x);
        }
        assert forall|x: SignaturesData| #[trigger] after.contains(x) <==> before.contains(x)
            || newcomer(before, more, x) by {
            assert(middle.contains(x) <==> before.contains(x) || newcomer(before, batch, x));
        }
    }
}

proof fn lemma_insert_contains(
    entries: Seq<SignaturesData>,
    p: int,
    entry: SignaturesData,
    x: SignaturesData,
)
    requires
        0 <= p <= entries.len(),
    ensures
        entries.insert(p, entry).contains(x) <==> entries.contains(x) || x == entry,
{
    let after = entries.insert(p, entry);
    if after.contains(x) {
        let i = choose|i: int| 0 <= i < after.len() && after[i] == x;
        if i < p {
            assert(entries[i] == x);
        } else if p < i {
            assert(entries[i - 1] == x);
        }
    }
    if entries.contains(x) {
        let i = choose|i: int| 0 <= i < entries.len() && entries[i] == x;
        if i < p {
            assert(after[i] == x);
        } else {
            assert(after[i + 1] == x);
        }
    }
    assert(after[p] == entry);
}

/// What a merge leaves is fixed: sorted entries with the same members are the same.
pub proof fn sorted_entries_are_fixed_by_members(a: Seq<SignaturesData>, b: Seq<SignaturesData>)
    requires
        strictly_sorted(a),
        strictly_sorted(b),
        forall|entry: SignaturesData| #[trigger] a.contains(entry) <==> b.contains(entry),
    ensures
        a == b,
    decreases a.len(),
{
    if a.len() == 0 {
        if b.len() > 0 {
            assert(b.contains(b[0]) && !a.contains(b[0]));
        }
        assert(a =~= b);
    } else if b.len() == 0 {
        assert(a.contains(a[0]));
    } else {
        let (x, y) = (a.last(), b.last());
        assert(a.contains(x) && b.contains(y));
        assert(b.contains(x) && a.contains(y));
        let i = choose|i: int| 0 <= i < b.len() && b[i] == x;
        let j = choose|j: int| 0 <= j < a.len() && a[j] == y;
        if x != y {
            assert(b[i].precedes(b[b.len() - 1]));
            assert(a[j].precedes(a[a.len() - 1]));
            entry_order_is_total(x, y);
        }
        let (s, t) = (a.drop_last(), b.drop_last());
        assert forall|entry: SignaturesData| #[trigger] s.contains(entry) <==> t.contains(entry) by {
            lemma_drop_last_contains(a, entry);
            lemma_drop_last_contains(b, entry);
            assert(a.contains(entry) <==> b.contains(entry));
        }
        sorted_entries_are_fixed_by_members(s, t);
        assert(a =~= s.push(x));
        assert(b =~= t.push(y));
    }
}

proof fn lemma_drop_last_contains(entries: Seq<SignaturesData>, entry: SignaturesData)
    requires
        strictly_sorted(entries),
        entries.len() > 0,
    ensures
        entries.drop_last().contains(entry) <==> entries.contains(entry) && entry
            != entries.last(),
{
    let front = entries.drop_last();
    let last = entries.len() - 1;
    if front.contains(entry) {
        let i = choose|i: int| 0 <= i < front.len() && front[i] == entry;
        assert(entries[i] == entry);
        assert(entries[i].precedes(entries[last]));
        entry_order_is_total(entries[i], entries[last]);
    }
    if entries.contains(entry) && entry != entries.last() {
        let i = choose|i: int| 0 <= i < entries.len() && entries[i] == entry;
        assert(front[i] == entry);
    }
}

/// No key occurs twice in sorted entries.
pub proof fn sorted_entries_have_distinct_keys(entries: Seq<SignaturesData>, i: int, j: int)
    requires
        strictly_sorted(entries),
        0 <= i < j < entries.len(),
    ensures
        entries[i].key() != entries[j].key(),
{
    assert(entries[i].precedes(entries[j]));
    entry_order_is_total(entries[i], entries[j]);
}

/// Sorted entries go by slot first. Within a slot those without a block time
/// come first, then the others by time. At one time they go by the first byte
/// in which the signatures differ.
pub proof fn sorted_entries_go_by_slot_then_time(entries: Seq<SignaturesData>, i: int, j: int)
    requires
        strictly_sorted(entries),
        0 <= i < j < entries.len(),
    ensures
        entries[i].slot <= entries[j].slot,
        entries[i].slot == entries[j].slot ==> match (
            entries[i].block_time,
            entries[j].block_time,
        ) {
            (Some(earlier), Some(later)) => earlier <= later,
            (Some(_), None) => false,
            (None, _) => true,
        },
        entries[i].slot == entries[j].slot && entries[i].block_time == entries[j].block_time
            ==> exists|k: int|
            0 <= k < 64 && #[trigger] entries[i].signature.bytes@[k]
                < entries[j].signature.bytes@[k] && (forall|m: int|
                0 <= m < k ==> #[trigger] entries[i].signature.bytes@[m]
                    == entries[j].signature.bytes@[m]),
{
    let (a, b) = (entries[i], entries[j]);
    assert(a.precedes(b));
    if a.slot == b.slot && a.block_time == b.block_time {
        let (s, t) = (a.signature@, b.signature@);
        let k = choose|k: int|
            #![trigger s[k], t[k]]
            0 <= k < s.len() && k < t.len() && s[k] < t[k] && (forall|m: int|
                0 <= m < k ==> s[m] == t[m]);
        assert(a.signature.bytes@[k] < b.signature.bytes@[k]);
        assert forall|m: int| 0 <= m < k implies #[trigger] a.signature.bytes@[m]
            == b.signature.bytes@[m] by {
            assert(s[m] == t[m]);
        }
    }
}

proof fn lemma_sorted_slots(entries: Seq<SignaturesData>)
    requires
        strictly_sorted(entries),
    ensures
        forall|i: int, j: int|
            #![trigger entries[i], entries[j]]
            0 <= i < j < entries.len() ==> entries[i].slot <= entries[j].slot,
{
    assert forall|i: int, j: int|
        #![trigger entries[i], entries[j]]
        0 <= i < j < entries.len() implies entries[i].slot <= entries[j].slot by {
        sorted_entries_go_by_slot_then_time(entries, i, j);
    }
}

/// A merge loses no entry, finds a place for every transaction of the batch,
/// and makes nothing up.
pub proof fn merge_keeps_and_adds(
    before: Seq<SignaturesData>,
    batch: Seq<SignaturesData>,
    after: Seq<SignaturesData>,
)
    requires
        merged(before, batch, after),
    ensures
        forall|entry: SignaturesData| #[trigger]
            before.contains(entry) ==> after.contains(entry),
        forall|entry: SignaturesData| #[trigger]
            batch.contains(entry) ==> exists|k: int|
                0 <= k < after.len() && (#[trigger] after[k]).slot == entry.slot
                    && after[k].block_time == entry.block_time && after[k].signature
                    == entry.signature,
        forall|entry: SignaturesData| #[trigger]
            after.contains(entry) ==> before.contains(entry) || batch.contains(entry),
{
    merged_keys(before, batch, after);
    assert forall|entry: SignaturesData| #[trigger] batch.contains(entry) implies exists|k: int|
        0 <= k < after.len() && (#[trigger] after[k]).slot == entry.slot && after[k].block_time
            == entry.block_time && after[k].signature == entry.signature by {
        let b = choose|b: int| 0 <= b < batch.len() && batch[b] == entry;
        assert(batch[b].key() == entry.key());
        assert(holds_key(batch, entry.key()));
        assert(holds_key(after, entry.key()));
        let k = choose|k: int| 0 <= k < after.len() && (#[trigger] after[k]).key() == entry.key();
        assert(after[k].slot == entry.slot);
    }
}

/// What a merge adds is the batch's first entry of a transaction that was not
/// there.
pub proof fn merge_adds_the_first_of_each(
    before: Seq<SignaturesData>,
    batch: Seq<SignaturesData>,
    after: Seq<SignaturesData>,
    k: int,
    b: int,
)
    requires
        merged(before, batch, after),
        0 <= k < after.len(),
        0 <= b < batch.len(),
        !before.contains(after[k]),
        batch[b].slot == after[k].slot,
        batch[b].block_time == after[k].block_time,
        batch[b].signature == after[k].signature,
        forall|c: int|
            0 <= c < b ==> (#[trigger] batch[c]).slot != batch[b].slot || batch[c].block_time
                != batch[b].block_time || batch[c].signature != batch[b].signature,
    ensures
        batch[b] == after[k],
        forall|m: int|
            0 <= m < before.len() ==> (#[trigger] before[m]).slot != after[k].slot
                || before[m].block_time != after[k].block_time || before[m].signature
                != after[k].signature,
{
    assert(after.contains(after[k]));
    let first = choose|i: int|
        0 <= i < batch.len() && #[trigger] batch[i] == after[k] && !holds_key(
            batch.take(i),
            after[k].key(),
        );
    if b < first {
        assert(batch.take(first)[b].key() == after[k].key());
    }
    assert forall|m: int| 0 <= m < before.len() implies (#[trigger] before[m]).slot
        != after[k].slot || before[m].block_time != after[k].block_time || before[m].signature
        != after[k].signature by {
        assert(before[m].key() != after[k].key());
    }
}

/// A signature is among those of the successful transactions exactly if some
/// entry has it and no error.
pub proof fn successful_are_those_without_error(
    entries: Seq<SignaturesData>,
    signature: Signature,
)
    ensures
        entries.filter(|entry: SignaturesData| entry.err is None).map_values(
            |entry: SignaturesData| entry.signature,
        ).contains(signature) <==> exists|k: int|
            0 <= k < entries.len() && (#[trigger] entries[k]).err is None && entries[k].signature
                == signature,
    decreases entries.len(),
{
    let fine = |entry: SignaturesData| entry.err is None;
    let name = |entry: SignaturesData| entry.signature;
    let picked = entries.filter(fine);
    let names = picked.map_values(name);
    reveal(Seq::filter);
    if entries.len() > 0 {
        let (front, last) = (entries.drop_last(), entries.last());
        let few = front.filter(fine).map_values(name);
        successful_are_those_without_error(front, signature);
        if names.contains(signature) {
            let i = choose|i: int| 0 <= i < names.len() && names[i] == signature;
            if i < few.len() {
                assert(few[i] == signature);
                assert(few.contains(signature));
                let k = choose|k: int|
                    0 <= k < front.len() && (#[trigger] front[k]).err is None && front[k].signature
                        == signature;
                assert(entries[k] == front[k]);
            } else {
                assert(entries[entries.len() - 1] == last);
                assert(last.err is None);
            }
        }
        if exists|k: int|
            0 <= k < entries.len() && (#[trigger] entries[k]).err is None && entries[k].signature
                == signature {
            let k = choose|k: int|
                0 <= k < entries.len() && (#[trigger] entries[k]).err is None
                    && entries[k].signature == signature;
            if k < front.len() {
                assert(front[k] == entries[k]);
                let i = choose|i: int| 0 <= i < few.len() && few[i] == signature;
                assert(names[i] == signature);
            } else {
                assert(names[names.len() - 1] == signature);
            }
        }
    }
}

/// Merging two batches one after the other is merging the two as one.
pub proof fn merging_twice_is_merging_once(
    before: Seq<SignaturesData>,
    first: Seq<SignaturesData>,
    middle: Seq<SignaturesData>,
    second: Seq<SignaturesData>,
    after: Seq<SignaturesData>,
)
    requires
        merged(before, first, middle),
        merged(middle, second, after),
    ensures
        merged(before, first + second, after),
{
    let both = first + second;
    merged_keys(before, first, middle);
    assert forall|x: SignaturesData| #[trigger] after.contains(x) implies before.contains(x)
        || newcomer(before, both, x) by {
        if middle.contains(x) {
            if newcomer(before, first, x) {
                let i = choose|i: int|
                    0 <= i < first.len() && #[trigger] first[i] == x && !holds_key(
                        first.take(i),
                        x.key(),
                    );
                assert(both[i] == x);
                assert(both.take(i) =~= first.take(i));
            }
        } else {
            let k = choose|k: int|
                0 <= k < second.len() && #[trigger] second[k] == x && !holds_key(
                    second.take(k),
                    x.key(),
                );
            let at = first.len() + k;
            assert(both[at] == x);
            assert(both.take(at) =~= first + second.take(k));
            lemma_key_of_concat(first, second.take(k), x.key());
            assert(!holds_key(middle, x.key()));
        }
    }
    assert forall|x: SignaturesData|
        before.contains(x) || newcomer(before, both, x) implies #[trigger] after.contains(x) by {
        if before.contains(x) {
            assert(middle.contains(x));
        } else {
            let i = choose|i: int|
                0 <= i < both.len() && #[trigger] both[i] == x && !holds_key(
                    both.take(i),
                    x.key(),
                );
            if i < first.len() {
                assert(first[i] == x);
                assert(both.take(i) =~= first.take(i));
                assert(newcomer(before, first, x));
                assert(middle.contains(x));
            } else {
                let k = i - first.len();
                assert(second[k] == x);
                assert(both.take(i) =~= first + second.take(k));
                lemma_key_of_concat(first, second.take(k), x.key());
                assert(newcomer(middle, second, x));
            }
        }
    }
}

proof fn lemma_key_of_concat(
    a: Seq<SignaturesData>,
    b: Seq<SignaturesData>,
    key: (u64, Option<i64>, Signature),
)
    ensures
        holds_key(a + b, key) <==> holds_key(a, key) || holds_key(b, key),
{
    let both = a + b;
    if holds_key(a, key) {
        let i = choose|i: int| 0 <= i < a.len() && (#[trigger] a[i]).key() == key;
        assert(both[i].key() == key);
    }
    if holds_key(b, key) {
        let i = choose|i: int| 0 <= i < b.len() && (#[trigger] b[i]).key() == key;
        assert(both[a.len() + i].key() == key);
    }
    if holds_key(both, key) {
        let i = choose|i: int| 0 <= i < both.len() && (#[trigger] both[i]).key() == key;
        if i < a.len() {
            assert(a[i].key() == key);
        } else {
            assert(b[i - a.len()].key() == key);
        }
    }
}

/// Merging a batch leaves every key of it there, so that a second merge of
/// the batch has nothing to add.
pub proof fn merged_batch_is_covered(
    before: Seq<SignaturesData>,
    batch: Seq<SignaturesData>,
    after: Seq<SignaturesData>,
)
    requires
        merged(before, batch, after),
    ensures
        covers(after, batch),
        merged(after, batch, after),
{
    merged_keys(before, batch, after);
    assert forall|i: int| 0 <= i < batch.len() implies holds_key(
        after,
        (#[trigger] batch[i]).key(),
    ) by {
        assert(holds_key(batch, batch[i].key()));
    }
}

} // verus!
