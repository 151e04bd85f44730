//! What holds of every reading of a signature history.
use crate::error::Error;
use crate::history::{
    borders, is_border, lemma_page_fault, page_data, single_slot, Ending, HistoryState,
    HistoryStep, SignatureRecord, PAGE_LIMIT,
};
use crate::signature::{
    parsed_signature, reads_as, signature_read_has_that_text, signature_reading_is_unique,
    ParseSignatureError, Signature,
};
use crate::signature_set::{
    covers, holds_key, merge_keeps_and_adds, merged, merged_batch_is_covered, merged_keys, merging_twice_is_merging_once,
    newcomer, sorted_entries_go_by_slot_then_time, sorted_entries_have_distinct_keys,
    strictly_sorted, successful_are_those_without_error, SignatureSet,
};
use crate::signatures_data::SignaturesData;
use vstd::prelude::*;

verus! {

/// A page has one border only.
pub proof fn border_is_unique(batch: Seq<SignaturesData>, i: int, j: int)
    requires
        is_border(batch, i),
        is_border(batch, j),
    ensures
        i == j,
{
}

/// The pages read so far, each of which brought something new, and the states
/// of the history before each page and after the last.
pub open spec fn reading(states: Seq<HistoryState>, pages: Seq<Seq<SignaturesData>>) -> bool {
    &&& states.len() == pages.len() + 1
    &&& states[0].wf()
    &&& states[0].collected@.len() == 0
    &&& states[0].before is None
    &&& forall|i: int|
        0 <= i < pages.len() ==> !covers(states[i].collected@, #[trigger] pages[i])
            && states[i].grows_to(pages[i], states[i + 1])
}

/// Reading starts with no pages.
pub proof fn reading_starts(state: HistoryState)
    requires
        state.wf(),
        state.collected@.len() == 0,
        state.before is None,
    ensures
        reading(seq![state], Seq::empty()),
{
}

/// A page after which the next one is to be asked for carries the reading on.
pub proof fn reading_goes_on(
    states: Seq<HistoryState>,
    pages: Seq<Seq<SignaturesData>>,
    records: Seq<SignatureRecord>,
    page: Seq<SignaturesData>,
    next: HistoryState,
)
    requires
        reading(states, pages),
        page_data(records) == Ok::<Seq<SignaturesData>, ParseSignatureError>(page),
        states.last().leads_to(records, HistoryStep::Continue(next)),
    ensures
        reading(states.push(next), pages.push(page)),
{
    let (s, p) = (states.push(next), pages.push(page));
    assert forall|i: int| 0 <= i < p.len() implies !covers(s[i].collected@, #[trigger] p[i])
        && s[i].grows_to(p[i], s[i + 1]) by {
        if i < pages.len() {
            assert(p[i] == pages[i] && s[i] == states[i] && s[i + 1] == states[i + 1]);
        } else {
            assert(s[i] == states.last());
        }
    }
}

/// All entries of the pages, in the order in which they came.
pub open spec fn joined(pages: Seq<Seq<SignaturesData>>) -> Seq<SignaturesData>
    decreases pages.len(),
{
    if pages.len() == 0 {
        Seq::empty()
    } else {
        joined(pages.drop_last()) + pages.last()
    }
}

proof fn lemma_reading_front(states: Seq<HistoryState>, pages: Seq<Seq<SignaturesData>>)
    requires
        reading(states, pages),
        pages.len() > 0,
    ensures
        reading(states.drop_last(), pages.drop_last()),
        states.drop_last().last() == states[pages.len() - 1],
        !covers(states[pages.len() - 1].collected@, pages.last()),
        states[pages.len() - 1].grows_to(pages.last(), states.last()),
        states[pages.len() - 1].wf(),
{
    let (s, p) = (states.drop_last(), pages.drop_last());
    assert forall|i: int| 0 <= i < p.len() implies !covers(s[i].collected@, #[trigger] p[i])
        && s[i].grows_to(p[i], s[i + 1]) by {
        assert(p[i] == pages[i] && s[i] == states[i] && s[i + 1] == states[i + 1]);
    }
    let last = pages.len() - 1;
    assert(pages[last] == pages.last());
    if last > 0 {
        assert(pages[last - 1] == p[last - 1]);
        assert(states[last - 1].grows_to(pages[last - 1], states[last]));
    }
}

/// What has been collected is what the pages held, merged in the order in
/// which they came: every key of every page is there once, in order, with the
/// entry that came first.
pub proof fn reading_collects_the_pages(
    states: Seq<HistoryState>,
    pages: Seq<Seq<SignaturesData>>,
)
    requires
        reading(states, pages),
    ensures
        states.last().wf(),
        merged(Seq::empty(), joined(pages), states.last().collected@),
    decreases pages.len(),
{
    if pages.len() == 0 {
        assert(states.last().collected@ =~= Seq::<SignaturesData>::empty());
    } else {
        lemma_reading_front(states, pages);
        let middle = states[pages.len() - 1];
        reading_collects_the_pages(states.drop_last(), pages.drop_last());
        merging_twice_is_merging_once(
            Seq::empty(),
            joined(pages.drop_last()),
            middle.collected@,
            pages.last(),
            states.last().collected@,
        );
    }
}

/// Each page makes the collection larger.
pub proof fn reading_grows_with_each_page(
    states: Seq<HistoryState>,
    pages: Seq<Seq<SignaturesData>>,
)
    requires
        reading(states, pages),
    ensures
        states.last().collected@.len() >= pages.len(),
    decreases pages.len(),
{
    if pages.len() > 0 {
        lemma_reading_front(states, pages);
        reading_grows_with_each_page(states.drop_last(), pages.drop_last());
        lemma_merge_grows(
            states[pages.len() - 1].collected@,
            pages.last(),
            states.last().collected@,
        );
    }
}

/// All pages are asked for with one end and one commitment.
pub proof fn reading_keeps_its_bounds(
    states: Seq<HistoryState>,
    pages: Seq<Seq<SignaturesData>>,
    i: int,
)
    requires
        reading(states, pages),
        0 <= i < states.len(),
    ensures
        states[i].until == states[0].until,
        states[i].commitment == states[0].commitment,
    decreases i,
{
    if i > 0 {
        reading_keeps_its_bounds(states, pages, i - 1);
        assert(states[i - 1].grows_to(pages[i - 1], states[i - 1 + 1]));
    }
}

/// If all entries that a node can send have their keys in a finite set, no
/// more pages are read than the set has keys: reading comes to an end.
pub proof fn reading_ends(
    states: Seq<HistoryState>,
    pages: Seq<Seq<SignaturesData>>,
    keys: Set<(u64, Option<i64>, Signature)>,
)
    requires
        reading(states, pages),
        keys.finite(),
        forall|i: int, j: int|
            0 <= i < pages.len() && 0 <= j < pages[i].len() ==> keys.contains(
                (#[trigger] pages[i][j]).key(),
            ),
    ensures
        pages.len() <= keys.len(),
{
    reading_collects_the_pages(states, pages);
    reading_grows_with_each_page(states, pages);
    let found = states.last().collected@;
    let found_keys = found.map_values(|entry: SignaturesData| entry.key());
    assert(found_keys.no_duplicates()) by {
        assert forall|i: int, j: int|
            0 <= i < found_keys.len() && 0 <= j < found_keys.len() && i
                != j implies found_keys[i] != found_keys[j] by {
            if i < j {
                sorted_entries_have_distinct_keys(found, i, j);
            } else {
                sorted_entries_have_distinct_keys(found, j, i);
            }
        }
    }
    merged_keys(Seq::empty(), joined(pages), found);
    assert forall|key: (u64, Option<i64>, Signature)| #[trigger]
        found_keys.to_set().contains(key) implies keys.contains(key) by {
        let i = choose|i: int| 0 <= i < found_keys.len() && found_keys[i] == key;
        assert(found[i].key() == key);
        assert(holds_key(found, key));
        lemma_joined_key(pages, keys, key);
    }
    found_keys.unique_seq_to_set();
    vstd::set_lib::lemma_len_subset(found_keys.to_set(), keys);
}

proof fn lemma_joined_key(
    pages: Seq<Seq<SignaturesData>>,
    keys: Set<(u64, Option<i64>, Signature)>,
    key: (u64, Option<i64>, Signature),
)
    requires
        holds_key(joined(pages), key),
        forall|i: int, j: int|
            0 <= i < pages.len() && 0 <= j < pages[i].len() ==> keys.contains(
                (#[trigger] pages[i][j]).key(),
            ),
    ensures
        keys.contains(key),
    decreases pages.len(),
{
    let all = joined(pages);
    let k = choose|k: int| 0 <= k < all.len() && (#[trigger] all[k]).key() == key;
    if pages.len() > 0 {
        let front = joined(pages.drop_last());
        if k < front.len() {
            assert(front[k].key() == key);
            assert forall|i: int, j: int|
                0 <= i < pages.drop_last().len() && 0 <= j
                    < pages.drop_last()[i].len() implies keys.contains(
                (#[trigger] pages.drop_last()[i][j]).key(),
            ) by {
                assert(pages.drop_last()[i] == pages[i]);
                assert(keys.contains(pages[i][j].key()));
            }
            lemma_joined_key(pages.drop_last(), keys, key);
        } else {
            assert(pages[pages.len() - 1][k - front.len()].key() == key);
        }
    }
}

/// A merge that has something to add makes the entries more.
proof fn lemma_merge_grows(
    before: Seq<SignaturesData>,
    batch: Seq<SignaturesData>,
    after: Seq<SignaturesData>,
)
    requires
        strictly_sorted(before),
        merged(before, batch, after),
        !covers(before, batch),
    ensures
        after.len() > before.len(),
{
    lemma_sorted_no_duplicates(before);
    lemma_sorted_no_duplicates(after);
    before.unique_seq_to_set();
    after.unique_seq_to_set();
    merged_keys(before, batch, after);
    let b = choose|b: int| 0 <= b < batch.len() && !holds_key(before, (#[trigger] batch[b]).key());
    assert(holds_key(batch, batch[b].key()));
    assert(holds_key(after, batch[b].key()));
    let a = choose|a: int| 0 <= a < after.len() && (#[trigger] after[a]).key() == batch[b].key();
    let fresh = after[a];
    assert(!before.contains(fresh)) by {
        if before.contains(fresh) {
            let i = choose|i: int| 0 <= i < before.len() && before[i] == fresh;
            assert(before[i].key() == batch[b].key());
        }
    }
    let smaller = before.to_set().insert(fresh);
    assert forall|x: SignaturesData| smaller.contains(x) implies #[trigger]
        after.to_set().contains(x) by {
        if x == fresh {
            assert(after.contains(after[a]));
        } else {
            assert(before.contains(x));
            assert(after.contains(x));
        }
    }
    vstd::set_lib::lemma_len_subset(smaller, after.to_set());
}

proof fn lemma_sorted_no_duplicates(entries: Seq<SignaturesData>)
    requires
        strictly_sorted(entries),
    ensures
        entries.no_duplicates(),
{
    assert forall|i: int, j: int|
        0 <= i < entries.len() && 0 <= j < entries.len() && i != j implies entries[i]
        != entries[j] by {
        if i < j {
            sorted_entries_have_distinct_keys(entries, i, j);
        } else {
            sorted_entries_have_distinct_keys(entries, j, i);
        }
    }
}

/// A page that the node sends a second time ends the reading, and all of what
/// was collected is returned.
pub proof fn repeated_page_ends_reading(
    state: HistoryState,
    records: Seq<SignatureRecord>,
    next: HistoryState,
    step: HistoryStep,
)
    requires
        state.leads_to(records, HistoryStep::Continue(next)),
        next.leads_to(records, step),
    ensures
        step matches HistoryStep::Done(signatures, _) && signatures@ == next.collected@,
{
    let batch = page_data(records)->Ok_0;
    merged_batch_is_covered(state.collected@, batch, next.collected@);
}

/// When reading ends, what is returned is what all pages held, the last one
/// among them, merged in the order in which they came, whatever the node sent.
pub proof fn all_that_was_read_is_returned(
    states: Seq<HistoryState>,
    pages: Seq<Seq<SignaturesData>>,
    records: Seq<SignatureRecord>,
    page: Seq<SignaturesData>,
    signatures: SignatureSet,
    ending: Ending,
)
    requires
        reading(states, pages),
        page_data(records) == Ok::<Seq<SignaturesData>, ParseSignatureError>(page),
        states.last().leads_to(records, HistoryStep::Done(signatures, ending)),
    ensures
        merged(Seq::empty(), joined(pages) + page, signatures@),
{
    reading_collects_the_pages(states, pages);
    let found = signatures@;
    assert(merged(found, page, found));
    merging_twice_is_merging_once(Seq::empty(), joined(pages), found, page, found);
}

/// A page that is read has one entry for each record, in the same order, and
/// the entry has the record's own signature, slot, block time and error.
pub proof fn one_entry_for_each_record(records: Seq<SignatureRecord>, batch: Seq<SignaturesData>)
    requires
        page_data(records) == Ok::<Seq<SignaturesData>, ParseSignatureError>(batch),
    ensures
        batch.len() == records.len(),
        forall|i: int|
            #![trigger records[i]]
            #![trigger batch[i]]
            0 <= i < records.len() ==> {
                &&& parsed_signature(records[i].signature@) == Ok::<Signature, ParseSignatureError>(
                    batch[i].signature,
                )
                &&& batch[i].slot == records[i].slot
                &&& batch[i].block_time == records[i].block_time
                &&& batch[i].err == records[i].err
            },
    decreases records.len(),
{
    if records.len() > 0 {
        let front = page_data(records.drop_last())->Ok_0;
        one_entry_for_each_record(records.drop_last(), front);
        assert forall|i: int|
            #![trigger records[i]]
            #![trigger batch[i]]
            0 <= i < records.len() implies {
            &&& parsed_signature(records[i].signature@) == Ok::<Signature, ParseSignatureError>(
                batch[i].signature,
            )
            &&& batch[i].slot == records[i].slot
            &&& batch[i].block_time == records[i].block_time
            &&& batch[i].err == records[i].err
        } by {
            if i < front.len() {
                assert(records.drop_last()[i] == records[i]);
                assert(batch[i] == front[i]);
            }
        }
    }
}

/// A page is read exactly if each of its records is.
pub proof fn readable_records_are_read(records: Seq<SignatureRecord>)
    ensures
        page_data(records) is Ok <==> forall|i: int|
            0 <= i < records.len() ==> parsed_signature((#[trigger] records[i]).signature@) is Ok,
    decreases records.len(),
{
    if records.len() > 0 {
        let front = records.drop_last();
        readable_records_are_read(front);
        let last = records.len() - 1;
        if page_data(records) is Ok {
            one_entry_for_each_record(records, page_data(records)->Ok_0);
        } else if forall|i: int|
            0 <= i < records.len() ==> parsed_signature((#[trigger] records[i]).signature@) is Ok {
            assert forall|i: int| 0 <= i < front.len() implies parsed_signature(
                (#[trigger] front[i]).signature@,
            ) is Ok by {
                assert(front[i] == records[i]);
            }
            assert(parsed_signature(records[last].signature@) is Ok);
        }
    }
}

/// A page that cannot be read fails with the error of the first record that
/// cannot be read.
pub proof fn first_unreadable_record_decides(
    records: Seq<SignatureRecord>,
    error: ParseSignatureError,
    i: int,
)
    requires
        0 <= i < records.len(),
        parsed_signature(records[i].signature@) == Err::<Signature, ParseSignatureError>(error),
        forall|j: int|
            0 <= j < i ==> parsed_signature((#[trigger] records[j]).signature@) is Ok,
    ensures
        page_data(records) == Err::<Seq<SignaturesData>, ParseSignatureError>(error),
{
    let (front, more) = (records.take(i), records.take(i + 1));
    readable_records_are_read(front);
    assert forall|j: int| 0 <= j < front.len() implies parsed_signature(
        (#[trigger] front[j]).signature@,
    ) is Ok by {
        assert(front[j] == records[j]);
    }
    assert(more.drop_last() =~= front);
    assert(more.last() == records[i]);
    lemma_page_fault(records, i + 1);
}

/// The first record of a page that cannot be read.
proof fn lemma_first_unreadable(records: Seq<SignatureRecord>) -> (i: int)
    requires
        page_data(records) is Err,
    ensures
        0 <= i < records.len(),
        parsed_signature(records[i].signature@) is Err,
        forall|j: int|
            0 <= j < i ==> parsed_signature((#[trigger] records[j]).signature@) is Ok,
    decreases records.len(),
{
    let front = records.drop_last();
    if page_data(front) is Err {
        let i = lemma_first_unreadable(front);
        assert(front[i] == records[i]);
        assert forall|j: int| 0 <= j < i implies parsed_signature(
            (#[trigger] records[j]).signature@,
        ) is Ok by {
            assert(front[j] == records[j]);
        }
        i
    } else {
        readable_records_are_read(front);
        let last = records.len() - 1;
        assert forall|j: int| 0 <= j < last implies parsed_signature(
            (#[trigger] records[j]).signature@,
        ) is Ok by {
            assert(front[j] == records[j]);
        }
        last
    }
}

/// A page that the node did send fails the reading only by an unreadable
/// record, and then with the error of the first. What became of a transaction
/// makes no difference.
pub proof fn failure_is_the_first_unreadable_record(
    state: HistoryState,
    records: Seq<SignatureRecord>,
    step: HistoryStep,
)
    requires
        state.leads_to(records, step),
    ensures
        step is Failed <==> exists|i: int|
            0 <= i < records.len() && parsed_signature((#[trigger] records[i]).signature@) is Err,
        step matches HistoryStep::Failed(error) ==> error matches Error::SignatureParseError(cause)
            && exists|i: int|
            0 <= i < records.len() && parsed_signature((#[trigger] records[i]).signature@) == Err::<
                Signature,
                ParseSignatureError,
            >(cause) && (forall|j: int|
                0 <= j < i ==> parsed_signature((#[trigger] records[j]).signature@) is Ok),
{
    readable_records_are_read(records);
    if page_data(records) is Err {
        let i = lemma_first_unreadable(records);
        first_unreadable_record_decides(records, parsed_signature(records[i].signature@)->Err_0, i);
    }
}

/// The border of a page, by the slots of its records: behind it stand only
/// records of the last slot, and it is of another slot itself, unless there
/// is no other.
proof fn lemma_border_record(
    records: Seq<SignatureRecord>,
    batch: Seq<SignaturesData>,
    before: Signature,
) -> (i: int)
    requires
        page_data(records) == Ok::<Seq<SignaturesData>, ParseSignatureError>(batch),
        borders(batch, before),
    ensures
        0 <= i < records.len(),
        parsed_signature(records[i].signature@) == Ok::<Signature, ParseSignatureError>(before),
        forall|j: int|
            i < j < records.len() ==> (#[trigger] records[j]).slot == records.last().slot,
        single_slot(batch) ==> i == records.len() - 1 && forall|j: int|
            0 <= j < records.len() ==> (#[trigger] records[j]).slot == records.last().slot,
        !single_slot(batch) ==> records[i].slot != records.last().slot,
{
    one_entry_for_each_record(records, batch);
    let i = choose|i: int| is_border(batch, i) && (#[trigger] batch[i]).signature == before;
    assert(batch[batch.len() - 1].slot == records[records.len() - 1].slot);
    assert forall|j: int| i < j < records.len() implies (#[trigger] records[j]).slot
        == records.last().slot by {
        assert(batch[j].slot == batch.last().slot);
    }
    if single_slot(batch) {
        assert forall|j: int| 0 <= j < records.len() implies (#[trigger] records[j]).slot
            == records.last().slot by {
            assert(batch[j].slot == batch[batch.len() - 1].slot);
        }
    }
    i
}

/// After a page that leads on, all that was collected is still there, every
/// transaction of the page is there, nothing else was added, and what was
/// added has the signature, slot, block time and error of its record. The next
/// page is asked for from behind the border of this one.
pub proof fn new_page_is_kept(
    state: HistoryState,
    records: Seq<SignatureRecord>,
    next: HistoryState,
)
    requires
        state.wf(),
        state.leads_to(records, HistoryStep::Continue(next)),
    ensures
        next.until == state.until,
        next.commitment == state.commitment,
        next.collected@.len() > state.collected@.len(),
        forall|entry: SignaturesData| #[trigger]
            state.collected@.contains(entry) ==> next.collected@.contains(entry),
        forall|i: int|
            0 <= i < records.len() ==> exists|k: int|
                0 <= k < next.collected@.len() && (#[trigger] next.collected@[k]).slot == (
                #[trigger] records[i]).slot && next.collected@[k].block_time
                    == records[i].block_time && parsed_signature(records[i].signature@) == Ok::<
                    Signature,
                    ParseSignatureError,
                >(next.collected@[k].signature),
        forall|entry: SignaturesData| #[trigger]
            next.collected@.contains(entry) && !state.collected@.contains(entry) ==> exists|i: int|
                0 <= i < records.len() && (#[trigger] records[i]).slot == entry.slot
                    && records[i].block_time == entry.block_time && records[i].err == entry.err
                    && parsed_signature(records[i].signature@) == Ok::<
                    Signature,
                    ParseSignatureError,
                >(entry.signature),
        next.before matches Some(before) && exists|i: int|
            0 <= i < records.len() && parsed_signature((#[trigger] records[i]).signature@) == Ok::<
                Signature,
                ParseSignatureError,
            >(before) && (forall|j: int|
                i < j < records.len() ==> (#[trigger] records[j]).slot == records.last().slot) && (
            records[i].slot != records.last().slot || i == records.len() - 1 && forall|j: int|
                0 <= j < records.len() ==> (#[trigger] records[j]).slot == records.last().slot),
{
    let batch = page_data(records)->Ok_0;
    let (was, now) = (state.collected@, next.collected@);
    one_entry_for_each_record(records, batch);
    merge_keeps_and_adds(was, batch, now);
    lemma_merge_grows(was, batch, now);
    assert forall|i: int| 0 <= i < records.len() implies exists|k: int|
        0 <= k < now.len() && (#[trigger] now[k]).slot == (#[trigger] records[i]).slot
            && now[k].block_time == records[i].block_time && parsed_signature(
            records[i].signature@,
        ) == Ok::<Signature, ParseSignatureError>(now[k].signature) by {
        assert(batch.contains(batch[i]));
        let k = choose|k: int|
            0 <= k < now.len() && (#[trigger] now[k]).slot == batch[i].slot && now[k].block_time
                == batch[i].block_time && now[k].signature == batch[i].signature;
        assert(now[k].slot == records[i].slot);
    }
    assert forall|entry: SignaturesData| #[trigger] now.contains(entry) && !was.contains(
        entry,
    ) implies exists|i: int|
        0 <= i < records.len() && (#[trigger] records[i]).slot == entry.slot
            && records[i].block_time == entry.block_time && records[i].err == entry.err
            && parsed_signature(records[i].signature@) == Ok::<Signature, ParseSignatureError>(
            entry.signature,
        ) by {
        assert(batch.contains(entry));
        let i = choose|i: int| 0 <= i < batch.len() && batch[i] == entry;
        assert(records[i].slot == entry.slot);
    }
    let i = lemma_border_record(records, batch, next.before->0);
}

/// A page that ends the reading holds no transaction that was not collected
/// before, and all that was collected is returned. The ending says whether
/// the page was empty, of one slot, or of several, and where it stalled.
pub proof fn known_page_ends_reading(
    state: HistoryState,
    records: Seq<SignatureRecord>,
    signatures: SignatureSet,
    ending: Ending,
)
    requires
        state.leads_to(records, HistoryStep::Done(signatures, ending)),
    ensures
        signatures@ == state.collected@,
        forall|i: int|
            0 <= i < records.len() ==> exists|k: int|
                0 <= k < state.collected@.len() && (#[trigger] state.collected@[k]).slot == (
                #[trigger] records[i]).slot && state.collected@[k].block_time
                    == records[i].block_time && parsed_signature(records[i].signature@) == Ok::<
                    Signature,
                    ParseSignatureError,
                >(state.collected@[k].signature),
        ending == Ending::Exhausted <==> records.len() == 0,
        ending == Ending::SlotExhausted <==> records.len() > 0 && forall|i: int|
            0 <= i < records.len() ==> (#[trigger] records[i]).slot == records.last().slot,
        ending matches Ending::Stalled(before) ==> exists|i: int|
            0 <= i < records.len() && (#[trigger] records[i]).slot != records.last().slot
                && parsed_signature(records[i].signature@) == Ok::<Signature, ParseSignatureError>(
                before,
            ) && (forall|j: int|
                i < j < records.len() ==> (#[trigger] records[j]).slot == records.last().slot),
{
    let batch = page_data(records)->Ok_0;
    one_entry_for_each_record(records, batch);
    let known = state.collected@;
    assert forall|i: int| 0 <= i < records.len() implies exists|k: int|
        0 <= k < known.len() && (#[trigger] known[k]).slot == (#[trigger] records[i]).slot
            && known[k].block_time == records[i].block_time && parsed_signature(
            records[i].signature@,
        ) == Ok::<Signature, ParseSignatureError>(known[k].signature) by {
        assert(holds_key(known, batch[i].key()));
        let k = choose|k: int| 0 <= k < known.len() && (#[trigger] known[k]).key() == batch[i].key();
        assert(known[k].slot == records[i].slot);
    }
    if records.len() > 0 {
        let last = records.len() - 1;
        if single_slot(batch) {
            assert forall|j: int| 0 <= j < records.len() implies (#[trigger] records[j]).slot
                == records.last().slot by {
                assert(batch[j].slot == batch[last].slot);
            }
        } else {
            let i = lemma_border_record(records, batch, ending->Stalled_0);
        }
    }
}

/// Where all records of a page can be read, the reading ends on it exactly if
/// each of its transactions was collected before.
pub proof fn reading_goes_on_for_news_only(
    state: HistoryState,
    records: Seq<SignatureRecord>,
    step: HistoryStep,
)
    requires
        state.wf(),
        state.leads_to(records, step),
        forall|i: int|
            0 <= i < records.len() ==> parsed_signature((#[trigger] records[i]).signature@) is Ok,
    ensures
        step is Done || step is Continue,
        step is Done <==> forall|i: int|
            0 <= i < records.len() ==> exists|k: int|
                0 <= k < state.collected@.len() && (#[trigger] state.collected@[k]).slot == (
                #[trigger] records[i]).slot && state.collected@[k].block_time
                    == records[i].block_time && parsed_signature(records[i].signature@) == Ok::<
                    Signature,
                    ParseSignatureError,
                >(state.collected@[k].signature),
{
    readable_records_are_read(records);
    let batch = page_data(records)->Ok_0;
    one_entry_for_each_record(records, batch);
    let known = state.collected@;
    if step is Done {
        known_page_ends_reading(state, records, step->Done_0, step->Done_1);
    } else {
        let b = choose|b: int|
            0 <= b < batch.len() && !holds_key(known, (#[trigger] batch[b]).key());
        assert(records[b].slot == batch[b].slot);
        assert forall|k: int| 0 <= k < known.len() implies (#[trigger] known[k]).slot
            != records[b].slot || known[k].block_time != records[b].block_time
            || parsed_signature(records[b].signature@) != Ok::<Signature, ParseSignatureError>(
            known[k].signature,
        ) by {
            assert(known[k].key() != batch[b].key());
        }
    }
}

/// Each transaction occurs once.
pub open spec fn distinct_signatures(ledger: Seq<SignaturesData>) -> bool {
    forall|i: int, j: int|
        #![trigger ledger[i], ledger[j]]
        0 <= i < j < ledger.len() ==> ledger[i].signature != ledger[j].signature
}

/// Entries of one transaction have one slot and one block time.
pub open spec fn one_key_per_signature(entries: Seq<SignaturesData>) -> bool {
    forall|i: int, j: int|
        #![trigger entries[i], entries[j]]
        0 <= i < entries.len() && 0 <= j < entries.len() && entries[i].signature
            == entries[j].signature ==> entries[i].key() == entries[j].key()
}

/// Where the node reports one slot and one block time for each transaction,
/// however often it sends it, no signature occurs twice in what is returned,
/// neither among all entries nor among those of successful transactions.
pub proof fn each_signature_is_returned_once(
    states: Seq<HistoryState>,
    pages: Seq<Seq<SignaturesData>>,
    records: Seq<SignatureRecord>,
    signatures: SignatureSet,
    ending: Ending,
)
    requires
        reading(states, pages),
        one_key_per_signature(joined(pages)),
        states.last().leads_to(records, HistoryStep::Done(signatures, ending)),
    ensures
        distinct_signatures(signatures@),
        signatures@.filter(|entry: SignaturesData| entry.err is None).map_values(
            |entry: SignaturesData| entry.signature,
        ).no_duplicates(),
{
    let (found, all) = (signatures@, joined(pages));
    reading_collects_the_pages(states, pages);
    merged_keys(Seq::empty(), all, found);
    assert forall|i: int, j: int|
        #![trigger found[i], found[j]]
        0 <= i < j < found.len() implies found[i].signature != found[j].signature by {
        sorted_entries_have_distinct_keys(found, i, j);
        assert(holds_key(found, found[i].key()) && holds_key(found, found[j].key()));
        assert(holds_key(all, found[i].key()) && holds_key(all, found[j].key()));
        let a = choose|a: int| 0 <= a < all.len() && (#[trigger] all[a]).key() == found[i].key();
        let b = choose|b: int| 0 <= b < all.len() && (#[trigger] all[b]).key() == found[j].key();
        if all[a].signature == all[b].signature {
            assert(all[a].key() == all[b].key());
        }
    }
    lemma_filter_keeps_distinct(found, |entry: SignaturesData| entry.err is None);
}

/// Picking some of the entries repeats no signature.
proof fn lemma_filter_keeps_distinct(
    entries: Seq<SignaturesData>,
    pick: spec_fn(SignaturesData) -> bool,
)
    requires
        distinct_signatures(entries),
    ensures
        distinct_signatures(entries.filter(pick)),
        forall|i: int|
            0 <= i < entries.filter(pick).len() ==> entries.contains(
                #[trigger] entries.filter(pick)[i],
            ),
    decreases entries.len(),
{
    reveal(Seq::filter);
    if entries.len() > 0 {
        let front = entries.drop_last();
        lemma_filter_keeps_distinct(front, pick);
        let (few, picked) = (front.filter(pick), entries.filter(pick));
        let last = entries.len() - 1;
        assert forall|i: int| 0 <= i < few.len() implies entries.contains(#[trigger] few[i])
            && few[i].signature != entries[last].signature by {
            let k = choose|k: int| 0 <= k < front.len() && front[k] == few[i];
            assert(entries[k] == few[i]);
        }
        assert(entries.contains(entries[last]));
        assert forall|i: int| 0 <= i < picked.len() implies entries.contains(
            #[trigger] picked[i],
        ) by {
            if i < few.len() {
                assert(picked[i] == few[i]);
            }
        }
        assert forall|i: int, j: int|
            #![trigger picked[i], picked[j]]
            0 <= i < j < picked.len() implies picked[i].signature != picked[j].signature by {
            assert(picked[i] == few[i]);
            if j < few.len() {
                assert(picked[j] == few[j]);
            }
        }
    }
}

/// `page` is what a node answers that has this ledger, from the newest entry
/// down to where the reading is to stop: the entries behind `before`, or from
/// the first on, as many as there are up to the limit.
pub open spec fn serves(
    ledger: Seq<SignaturesData>,
    before: Option<Signature>,
    limit: int,
    page: Seq<SignaturesData>,
) -> bool {
    exists|start: int| #[trigger] serves_from(ledger, before, limit, page, start)
}

/// The page starts at a given place of the ledger.
pub open spec fn serves_from(
    ledger: Seq<SignaturesData>,
    before: Option<Signature>,
    limit: int,
    page: Seq<SignaturesData>,
    start: int,
) -> bool {
    &&& 0 <= start <= ledger.len()
    &&& match before {
        None => start == 0,
        Some(signature) => start > 0 && ledger[start - 1].signature == signature,
    }
    &&& page == ledger.subrange(
        start,
        if start + limit < ledger.len() {
            start + limit
        } else {
            ledger.len() as int
        },
    )
}

/// What has been collected is the ledger up to `end`, and the next page, of
/// up to `limit` entries, starts no later than there and reaches beyond it.
spec fn collected_up_to(
    state: HistoryState,
    ledger: Seq<SignaturesData>,
    limit: int,
    start: int,
    end: int,
) -> bool {
    &&& state.wf()
    &&& 0 <= start <= end <= ledger.len()
    &&& end < start + limit
    &&& match state.before {
        None => start == 0,
        Some(signature) => start > 0 && ledger[start - 1].signature == signature,
    }
    &&& forall|entry: SignaturesData| #[trigger]
        state.collected@.contains(entry) <==> ledger.take(end).contains(entry)
}

/// What stands further down the ledger is not yet among entries from above.
proof fn lemma_later_entry_is_new(
    ledger: Seq<SignaturesData>,
    entries: Seq<SignaturesData>,
    end: int,
    i: int,
)
    requires
        distinct_signatures(ledger),
        0 <= end <= i < ledger.len(),
        forall|entry: SignaturesData| #[trigger]
            entries.contains(entry) ==> ledger.take(end).contains(entry),
    ensures
        !holds_key(entries, ledger[i].key()),
{
    let known = ledger.take(end);
    if holds_key(entries, ledger[i].key()) {
        let k = choose|k: int|
            0 <= k < entries.len() && (#[trigger] entries[k]).key() == ledger[i].key();
        assert(entries.contains(entries[k]));
        assert(known.contains(entries[k]));
        let m = choose|m: int| 0 <= m < known.len() && known[m] == entries[k];
        assert(ledger[m].signature != ledger[i].signature);
    }
}

/// A page from the ledger takes the collection further down the ledger.
proof fn lemma_page_moves_on(
    ledger: Seq<SignaturesData>,
    state: HistoryState,
    limit: int,
    start: int,
    end: int,
    page: Seq<SignaturesData>,
) -> (reach: int)
    requires
        distinct_signatures(ledger),
        collected_up_to(state, ledger, limit, start, end),
        serves(ledger, state.before, limit, page),
    ensures
        end <= reach <= ledger.len(),
        reach <= start + limit,
        page == ledger.subrange(start, reach),
        reach == end ==> end == ledger.len(),
        covers(state.collected@, page) <==> reach == end,
{
    let from = choose|from: int| #[trigger]
        serves_from(ledger, state.before, limit, page, from);
    if from != start {
        if from < start {
            assert(ledger[from - 1].signature != ledger[start - 1].signature);
        } else {
            assert(ledger[start - 1].signature != ledger[from - 1].signature);
        }
    }
    let reach = if start + limit < ledger.len() {
        start + limit
    } else {
        ledger.len() as int
    };
    let known = ledger.take(end);
    if reach == end {
        assert forall|i: int| 0 <= i < page.len() implies holds_key(
            state.collected@,
            (#[trigger] page[i]).key(),
        ) by {
            assert(known[start + i] == page[i]);
            assert(known.contains(page[i]));
            assert(state.collected@.contains(page[i]));
            let k = choose|k: int|
                0 <= k < state.collected@.len() && state.collected@[k] == page[i];
            assert(state.collected@[k].key() == page[i].key());
        }
    } else {
        assert(page[end - start] == ledger[end]);
        lemma_later_entry_is_new(ledger, state.collected@, end, end);
    }
    reach
}

/// What has been collected from a node with a fixed ledger is the ledger up
/// to some place.
proof fn lemma_honest_reading(
    ledger: Seq<SignaturesData>,
    limit: int,
    states: Seq<HistoryState>,
    pages: Seq<Seq<SignaturesData>>,
) -> (place: (int, int))
    requires
        1 <= limit,
        distinct_signatures(ledger),
        reading(states, pages),
        forall|i: int|
            0 <= i < pages.len() ==> serves(
                ledger,
                states[i].before,
                limit,
                #[trigger] pages[i],
            ),
    ensures
        collected_up_to(states.last(), ledger, limit, place.0, place.1),
    decreases pages.len(),
{
    if pages.len() == 0 {
        assert(ledger.take(0) =~= Seq::<SignaturesData>::empty());
        assert(states.last().collected@ =~= Seq::<SignaturesData>::empty());
        (0, 0)
    } else {
        lemma_reading_front(states, pages);
        assert forall|i: int| 0 <= i < pages.drop_last().len() implies serves(
            ledger,
            states.drop_last()[i].before,
            limit,
            #[trigger] pages.drop_last()[i],
        ) by {
            assert(pages.drop_last()[i] == pages[i]);
        }
        let (start, end) = lemma_honest_reading(
            ledger,
            limit,
            states.drop_last(),
            pages.drop_last(),
        );
        let state = states[pages.len() - 1];
        let next = states.last();
        let page = pages.last();
        assert(page == pages[pages.len() - 1]);
        let reach = lemma_page_moves_on(ledger, state, limit, start, end, page);
        let border = choose|i: int|
            is_border(page, i) && (#[trigger] page[i]).signature == next.before->0;
        assert(page[border] == ledger[start + border]);
        lemma_merge_from_ledger(ledger, state.collected@, start, end, reach, next.collected@);
        (start + border + 1, reach)
    }
}

proof fn lemma_merge_from_ledger(
    ledger: Seq<SignaturesData>,
    before: Seq<SignaturesData>,
    start: int,
    end: int,
    reach: int,
    after: Seq<SignaturesData>,
)
    requires
        distinct_signatures(ledger),
        0 <= start <= end <= reach <= ledger.len(),
        forall|entry: SignaturesData| #[trigger]
            before.contains(entry) <==> ledger.take(end).contains(entry),
        merged(before, ledger.subrange(start, reach), after),
    ensures
        forall|entry: SignaturesData| #[trigger]
            after.contains(entry) <==> ledger.take(reach).contains(entry),
{
    let page = ledger.subrange(start, reach);
    let (known, wanted) = (ledger.take(end), ledger.take(reach));
    assert forall|x: SignaturesData| #[trigger] after.contains(x) implies wanted.contains(x) by {
        if before.contains(x) {
            assert(known.contains(x));
            let i = choose|i: int| 0 <= i < known.len() && known[i] == x;
            assert(wanted[i] == x);
        } else {
            let i = choose|i: int|
                0 <= i < page.len() && #[trigger] page[i] == x && !holds_key(
                    page.take(i),
                    x.key(),
                );
            assert(wanted[start + i] == x);
        }
    }
    assert forall|x: SignaturesData| wanted.contains(x) implies #[trigger] after.contains(x) by {
        let i = choose|i: int| 0 <= i < wanted.len() && wanted[i] == x;
        if i < end {
            assert(known[i] == x);
            assert(known.contains(x));
            assert(before.contains(x));
        } else {
            lemma_later_entry_is_new(ledger, before, end, i);
            let front = page.take(i - start);
            assert(!holds_key(front, x.key())) by {
                if holds_key(front, x.key()) {
                    let k = choose|k: int|
                        0 <= k < front.len() && (#[trigger] front[k]).key() == x.key();
                    assert(ledger[start + k].signature != ledger[i].signature);
                }
            }
            assert(page[i - start] == x);
            assert(newcomer(before, page, x));
        }
    }
}

/// Reading from a node with a fixed ledger, in which each transaction occurs
/// once, misses nothing and makes nothing up, however many entries the node
/// puts on a full page: when it ends, what is returned has exactly the
/// entries of the ledger.
pub proof fn reading_returns_the_ledger_at_any_page_size(
    ledger: Seq<SignaturesData>,
    limit: int,
    states: Seq<HistoryState>,
    pages: Seq<Seq<SignaturesData>>,
    records: Seq<SignatureRecord>,
    page: Seq<SignaturesData>,
    signatures: SignatureSet,
    ending: Ending,
)
    requires
        1 <= limit,
        distinct_signatures(ledger),
        reading(states, pages),
        forall|i: int|
            0 <= i < pages.len() ==> serves(
                ledger,
                states[i].before,
                limit,
                #[trigger] pages[i],
            ),
        page_data(records) == Ok::<Seq<SignaturesData>, ParseSignatureError>(page),
        serves(ledger, states.last().before, limit, page),
        states.last().leads_to(records, HistoryStep::Done(signatures, ending)),
    ensures
        forall|entry: SignaturesData| #[trigger]
            signatures@.contains(entry) <==> ledger.contains(entry),
        strictly_sorted(signatures@),
{
    let (start, end) = lemma_honest_reading(ledger, limit, states, pages);
    let reach = lemma_page_moves_on(ledger, states.last(), limit, start, end, page);
    assert(ledger.take(end) =~= ledger);
}

/// Reading from a node with a fixed ledger, in which each transaction occurs
/// once, misses nothing and makes nothing up where the node fills the pages as
/// it is asked to: when it ends, what is returned has exactly the entries of
/// the ledger.
pub proof fn reading_returns_the_ledger(
    ledger: Seq<SignaturesData>,
    states: Seq<HistoryState>,
    pages: Seq<Seq<SignaturesData>>,
    records: Seq<SignatureRecord>,
    page: Seq<SignaturesData>,
    signatures: SignatureSet,
    ending: Ending,
)
    requires
        distinct_signatures(ledger),
        reading(states, pages),
        forall|i: int|
            0 <= i < pages.len() ==> serves(
                ledger,
                states[i].before,
                PAGE_LIMIT as int,
                #[trigger] pages[i],
            ),
        page_data(records) == Ok::<Seq<SignaturesData>, ParseSignatureError>(page),
        serves(ledger, states.last().before, PAGE_LIMIT as int, page),
        states.last().leads_to(records, HistoryStep::Done(signatures, ending)),
    ensures
        forall|entry: SignaturesData| #[trigger]
            signatures@.contains(entry) <==> ledger.contains(entry),
        strictly_sorted(signatures@),
{
    reading_returns_the_ledger_at_any_page_size(
        ledger,
        PAGE_LIMIT as int,
        states,
        pages,
        records,
        page,
        signatures,
        ending,
    );
}

/// Reading from a node with a fixed ledger asks for no more pages than the
/// ledger has entries, besides the page that ends it, however many entries
/// the node puts on a full page.
pub proof fn reading_a_ledger_ends_at_any_page_size(
    ledger: Seq<SignaturesData>,
    limit: int,
    states: Seq<HistoryState>,
    pages: Seq<Seq<SignaturesData>>,
)
    requires
        1 <= limit,
        distinct_signatures(ledger),
        reading(states, pages),
        forall|i: int|
            0 <= i < pages.len() ==> serves(
                ledger,
                states[i].before,
                limit,
                #[trigger] pages[i],
            ),
    ensures
        pages.len() <= ledger.len(),
{
    let (start, end) = lemma_honest_reading(ledger, limit, states, pages);
    reading_grows_with_each_page(states, pages);
    let found = states.last().collected@;
    lemma_sorted_no_duplicates(found);
    found.unique_seq_to_set();
    let known = ledger.take(end);
    assert forall|x: SignaturesData| #[trigger] found.to_set().contains(x) implies
        known.to_set().contains(x) by {
        assert(found.contains(x));
        assert(known.contains(x));
    }
    vstd::seq_lib::seq_to_set_is_finite(known);
    vstd::set_lib::lemma_len_subset(found.to_set(), known.to_set());
    known.lemma_cardinality_of_set();
}

/// Reading from a node with a fixed ledger asks for no more pages than the
/// ledger has entries, besides the page that ends it, where the node
/// fills the pages as it is asked to.
pub proof fn reading_a_ledger_ends(
    ledger: Seq<SignaturesData>,
    states: Seq<HistoryState>,
    pages: Seq<Seq<SignaturesData>>,
)
    requires
        distinct_signatures(ledger),
        reading(states, pages),
        forall|i: int|
            0 <= i < pages.len() ==> serves(
                ledger,
                states[i].before,
                PAGE_LIMIT as int,
                #[trigger] pages[i],
            ),
    ensures
        pages.len() <= ledger.len(),
{
    reading_a_ledger_ends_at_any_page_size(ledger, PAGE_LIMIT as int, states, pages);
}

/// The records that the node sent, page by page, each page leading on, and the
/// states of the history before each page and after the last.
pub open spec fn receiving(states: Seq<HistoryState>, sent: Seq<Seq<SignatureRecord>>) -> bool {
    &&& states.len() == sent.len() + 1
    &&& states[0].wf()
    &&& states[0].collected@.len() == 0
    &&& states[0].before is None
    &&& forall|i: int|
        0 <= i < sent.len() ==> states[i].leads_to(
            #[trigger] sent[i],
            HistoryStep::Continue(states[i + 1]),
        )
}

/// `page` is what a node answers that has these records, from the newest down:
/// those behind the record of `before`, or from the first on, as many as there
/// are up to the limit.
pub open spec fn sends(
    ledger: Seq<SignatureRecord>,
    before: Option<Signature>,
    limit: int,
    page: Seq<SignatureRecord>,
) -> bool {
    exists|start: int| #[trigger] sends_from(ledger, before, limit, page, start)
}

/// The page starts at a given place of the ledger.
pub open spec fn sends_from(
    ledger: Seq<SignatureRecord>,
    before: Option<Signature>,
    limit: int,
    page: Seq<SignatureRecord>,
    start: int,
) -> bool {
    &&& 0 <= start <= ledger.len()
    &&& match before {
        None => start == 0,
        Some(signature) => start > 0 && reads_as(
            ledger[start - 1].signature@,
            Ok(signature),
        ),
    }
    &&& page == ledger.subrange(
        start,
        if start + limit < ledger.len() {
            start + limit
        } else {
            ledger.len() as int
        },
    )
}

/// Every record can be read, and each transaction is recorded once.
pub open spec fn proper_ledger(ledger: Seq<SignatureRecord>) -> bool {
    &&& forall|i: int|
        0 <= i < ledger.len() ==> exists|signature: Signature| #[trigger]
            reads_as((#[trigger] ledger[i]).signature@, Ok(signature))
    &&& forall|i: int, j: int|
        #![trigger ledger[i], ledger[j]]
        0 <= i < j < ledger.len() ==> ledger[i].signature@ != ledger[j].signature@
}

/// The entries of a proper ledger.
proof fn lemma_ledger_entries(ledger: Seq<SignatureRecord>) -> (entries: Seq<SignaturesData>)
    requires
        proper_ledger(ledger),
    ensures
        page_data(ledger) == Ok::<Seq<SignaturesData>, ParseSignatureError>(entries),
        distinct_signatures(entries),
        entries.len() == ledger.len(),
        forall|i: int|
            #![trigger ledger[i]]
            #![trigger entries[i]]
            0 <= i < ledger.len() ==> reads_as(ledger[i].signature@, Ok(entries[i].signature)),
{
    assert forall|i: int| 0 <= i < ledger.len() implies parsed_signature(
        (#[trigger] ledger[i]).signature@,
    ) is Ok && reads_as(ledger[i].signature@, parsed_signature(ledger[i].signature@)) by {
        let signature = choose|signature: Signature| #[trigger]
            reads_as(ledger[i].signature@, Ok(signature));
        signature_reading_is_unique(
            ledger[i].signature@,
            Ok(signature),
            parsed_signature(ledger[i].signature@),
        );
    }
    readable_records_are_read(ledger);
    let entries = page_data(ledger)->Ok_0;
    one_entry_for_each_record(ledger, entries);
    assert forall|i: int, j: int|
        #![trigger entries[i], entries[j]]
        0 <= i < j < entries.len() implies entries[i].signature != entries[j].signature by {
        if entries[i].signature == entries[j].signature {
            signature_read_has_that_text(entries[i].signature, ledger[i].signature@);
            signature_read_has_that_text(entries[j].signature, ledger[j].signature@);
        }
    }
    entries
}

/// A part of a page is read as that part of its entries.
proof fn lemma_part_is_read(
    records: Seq<SignatureRecord>,
    entries: Seq<SignaturesData>,
    start: int,
    end: int,
)
    requires
        page_data(records) == Ok::<Seq<SignaturesData>, ParseSignatureError>(entries),
        0 <= start <= end <= records.len(),
        entries.len() == records.len(),
    ensures
        page_data(records.subrange(start, end)) == Ok::<Seq<SignaturesData>, ParseSignatureError>(
            entries.subrange(start, end),
        ),
{
    let part = records.subrange(start, end);
    one_entry_for_each_record(records, entries);
    readable_records_are_read(part);
    assert forall|i: int| 0 <= i < part.len() implies parsed_signature(
        (#[trigger] part[i]).signature@,
    ) is Ok by {
        assert(part[i] == records[start + i]);
    }
    let found = page_data(part)->Ok_0;
    one_entry_for_each_record(part, found);
    assert forall|i: int| 0 <= i < found.len() implies found[i] == entries.subrange(
        start,
        end,
    )[i] by {
        assert(part[i] == records[start + i]);
        assert(entries[start + i].slot == records[start + i].slot);
    }
    assert(found =~= entries.subrange(start, end));
}

/// What is sent from a ledger of records is served from the ledger of their entries.
proof fn lemma_sent_is_served(
    ledger: Seq<SignatureRecord>,
    entries: Seq<SignaturesData>,
    before: Option<Signature>,
    limit: int,
    page: Seq<SignatureRecord>,
)
    requires
        0 <= limit,
        page_data(ledger) == Ok::<Seq<SignaturesData>, ParseSignatureError>(entries),
        entries.len() == ledger.len(),
        forall|i: int|
            #![trigger ledger[i]]
            0 <= i < ledger.len() ==> reads_as(ledger[i].signature@, Ok(entries[i].signature)),
        sends(ledger, before, limit, page),
    ensures
        page_data(page) is Ok,
        serves(entries, before, limit, page_data(page)->Ok_0),
{
    let start = choose|start: int| #[trigger] sends_from(ledger, before, limit, page, start);
    let end = if start + limit < ledger.len() {
        start + limit
    } else {
        ledger.len() as int
    };
    lemma_part_is_read(ledger, entries, start, end);
    if let Some(signature) = before {
        signature_reading_is_unique(
            ledger[start - 1].signature@,
            Ok(signature),
            Ok(entries[start - 1].signature),
        );
    }
    assert(serves_from(entries, before, limit, page_data(page)->Ok_0, start));
}

/// Pages of records that lead on are pages of entries that are read.
proof fn lemma_receiving_reads(
    states: Seq<HistoryState>,
    sent: Seq<Seq<SignatureRecord>>,
) -> (pages: Seq<Seq<SignaturesData>>)
    requires
        receiving(states, sent),
    ensures
        reading(states, pages),
        pages.len() == sent.len(),
        forall|i: int|
            0 <= i < pages.len() ==> page_data(sent[i]) == Ok::<
                Seq<SignaturesData>,
                ParseSignatureError,
            >(#[trigger] pages[i]),
{
    let pages = Seq::new(sent.len(), |i: int| page_data(sent[i])->Ok_0);
    assert forall|i: int| 0 <= i < pages.len() implies !covers(
        states[i].collected@,
        #[trigger] pages[i],
    ) && states[i].grows_to(pages[i], states[i + 1]) && page_data(sent[i]) == Ok::<
        Seq<SignaturesData>,
        ParseSignatureError,
    >(pages[i]) by {
        assert(states[i].leads_to(sent[i], HistoryStep::Continue(states[i + 1])));
    }
    pages
}

/// What is returned of a proper ledger has the ledger's entries as members.
proof fn lemma_entries_are_returned(
    ledger: Seq<SignatureRecord>,
    entries: Seq<SignaturesData>,
    limit: int,
    states: Seq<HistoryState>,
    sent: Seq<Seq<SignatureRecord>>,
    last: Seq<SignatureRecord>,
    signatures: SignatureSet,
    ending: Ending,
)
    requires
        1 <= limit,
        page_data(ledger) == Ok::<Seq<SignaturesData>, ParseSignatureError>(entries),
        distinct_signatures(entries),
        entries.len() == ledger.len(),
        forall|i: int|
            #![trigger ledger[i]]
            0 <= i < ledger.len() ==> reads_as(ledger[i].signature@, Ok(entries[i].signature)),
        receiving(states, sent),
        forall|i: int|
            0 <= i < sent.len() ==> sends(ledger, states[i].before, limit, #[trigger] sent[i]),
        sends(ledger, states.last().before, limit, last),
        states.last().leads_to(last, HistoryStep::Done(signatures, ending)),
    ensures
        forall|entry: SignaturesData| #[trigger]
            signatures@.contains(entry) <==> entries.contains(entry),
        strictly_sorted(signatures@),
{
    let pages = lemma_receiving_reads(states, sent);
    assert forall|i: int| 0 <= i < pages.len() implies serves(
        entries,
        states[i].before,
        limit,
        #[trigger] pages[i],
    ) by {
        assert(sends(ledger, states[i].before, limit, sent[i]));
        lemma_sent_is_served(ledger, entries, states[i].before, limit, sent[i]);
    }
    lemma_sent_is_served(ledger, entries, states.last().before, limit, last);
    reading_returns_the_ledger_at_any_page_size(
        entries,
        limit,
        states,
        pages,
        last,
        page_data(last)->Ok_0,
        signatures,
        ending,
    );
}

/// What a node with proper records sends, at any page size, never fails the
/// reading, and when the reading ends, every record of the node is returned
/// once, with its own signature, slot, block time and error, and nothing else.
pub proof fn every_record_is_returned(
    ledger: Seq<SignatureRecord>,
    limit: int,
    states: Seq<HistoryState>,
    sent: Seq<Seq<SignatureRecord>>,
    last: Seq<SignatureRecord>,
    step: HistoryStep,
)
    requires
        1 <= limit,
        proper_ledger(ledger),
        receiving(states, sent),
        forall|i: int|
            0 <= i < sent.len() ==> sends(ledger, states[i].before, limit, #[trigger] sent[i]),
        sends(ledger, states.last().before, limit, last),
        states.last().leads_to(last, step),
    ensures
        !(step is Failed),
        step matches HistoryStep::Done(signatures, _) ==> {
            &&& signatures@.len() == ledger.len()
            &&& forall|i: int|
                0 <= i < ledger.len() ==> exists|k: int|
                    0 <= k < signatures@.len() && (#[trigger] signatures@[k]).slot == (
                    #[trigger] ledger[i]).slot && signatures@[k].block_time == ledger[i].block_time
                        && signatures@[k].err == ledger[i].err && reads_as(
                        ledger[i].signature@,
                        Ok(signatures@[k].signature),
                    )
            &&& forall|entry: SignaturesData| #[trigger]
                signatures@.contains(entry) ==> exists|i: int|
                    0 <= i < ledger.len() && (#[trigger] ledger[i]).slot == entry.slot
                        && ledger[i].block_time == entry.block_time && ledger[i].err == entry.err
                        && reads_as(ledger[i].signature@, Ok(entry.signature))
        },
{
    let entries = lemma_ledger_entries(ledger);
    one_entry_for_each_record(ledger, entries);
    lemma_sent_is_served(ledger, entries, states.last().before, limit, last);
    if step is Done {
        let found = step->Done_0@;
        lemma_entries_are_returned(
            ledger,
            entries,
            limit,
            states,
            sent,
            last,
            step->Done_0,
            step->Done_1,
        );
        lemma_same_members_same_len(found, entries);
        assert forall|i: int| 0 <= i < ledger.len() implies exists|k: int|
            0 <= k < found.len() && (#[trigger] found[k]).slot == (#[trigger] ledger[i]).slot
                && found[k].block_time == ledger[i].block_time && found[k].err == ledger[i].err
                && reads_as(ledger[i].signature@, Ok(found[k].signature)) by {
            assert(entries.contains(entries[i]));
            assert(found.contains(entries[i]));
            let k = choose|k: int| 0 <= k < found.len() && found[k] == entries[i];
            assert(found[k].slot == ledger[i].slot);
        }
        assert forall|entry: SignaturesData| #[trigger] found.contains(entry) implies exists|i: int|
            0 <= i < ledger.len() && (#[trigger] ledger[i]).slot == entry.slot
                && ledger[i].block_time == entry.block_time && ledger[i].err == entry.err
                && reads_as(ledger[i].signature@, Ok(entry.signature)) by {
            let i = choose|i: int| 0 <= i < entries.len() && entries[i] == entry;
            assert(ledger[i].slot == entry.slot);
        }
    }
}

/// A node that answers each request as it is put, from where it says and with
/// as many records as it asks for, never fails the reading, and when the
/// reading ends all its records are returned.
pub proof fn requests_ask_for_every_record(
    ledger: Seq<SignatureRecord>,
    states: Seq<HistoryState>,
    sent: Seq<Seq<SignatureRecord>>,
    last: Seq<SignatureRecord>,
    step: HistoryStep,
)
    requires
        proper_ledger(ledger),
        receiving(states, sent),
        forall|i: int|
            0 <= i < sent.len() ==> sends(
                ledger,
                states[i].asks().before,
                states[i].asks().limit->0 as int,
                #[trigger] sent[i],
            ),
        sends(ledger, states.last().asks().before, states.last().asks().limit->0 as int, last),
        states.last().leads_to(last, step),
    ensures
        !(step is Failed),
        step matches HistoryStep::Done(signatures, _) ==> {
            &&& signatures@.len() == ledger.len()
            &&& forall|i: int|
                0 <= i < ledger.len() ==> exists|k: int|
                    0 <= k < signatures@.len() && (#[trigger] signatures@[k]).slot == (
                    #[trigger] ledger[i]).slot && signatures@[k].block_time == ledger[i].block_time
                        && signatures@[k].err == ledger[i].err && reads_as(
                        ledger[i].signature@,
                        Ok(signatures@[k].signature),
                    )
        },
{
    assert forall|i: int| 0 <= i < sent.len() implies sends(
        ledger,
        states[i].before,
        PAGE_LIMIT as int,
        #[trigger] sent[i],
    ) by {
        assert(sends(
            ledger,
            states[i].asks().before,
            states[i].asks().limit->0 as int,
            sent[i],
        ));
    }
    every_record_is_returned(ledger, PAGE_LIMIT as int, states, sent, last, step);
}

/// All requests of a reading have one end, one commitment and one limit. The
/// first starts at the newest record, and each later one behind a record of
/// the page before.
pub proof fn requests_share_their_bounds(
    states: Seq<HistoryState>,
    sent: Seq<Seq<SignatureRecord>>,
    i: int,
)
    requires
        receiving(states, sent),
        0 <= i < states.len(),
    ensures
        states[i].asks().until == states[0].until,
        states[i].asks().commitment == Some(states[0].commitment),
        states[i].asks().limit == states[0].asks().limit,
        i == 0 ==> states[i].asks().before is None,
        i > 0 ==> states[i].asks().before is Some,
        i > 0 ==> exists|k: int|
            0 <= k < sent[i - 1].len() && parsed_signature(
                (#[trigger] sent[i - 1][k]).signature@,
            ) == Ok::<Signature, ParseSignatureError>(states[i].asks().before->0),
{
    let pages = lemma_receiving_reads(states, sent);
    reading_keeps_its_bounds(states, pages, i);
    if i > 0 {
        let page = sent[i - 1];
        assert(states[i - 1].leads_to(page, HistoryStep::Continue(states[i - 1 + 1])));
        let k = lemma_border_record(page, page_data(page)->Ok_0, states[i].before->0);
        assert(sent[i - 1][k] == page[k]);
    }
}

/// When the reading of proper records ends, the signatures of the successful
/// transactions are those of the records without an error.
pub proof fn successful_records_are_returned(
    ledger: Seq<SignatureRecord>,
    limit: int,
    states: Seq<HistoryState>,
    sent: Seq<Seq<SignatureRecord>>,
    last: Seq<SignatureRecord>,
    signatures: SignatureSet,
    ending: Ending,
    signature: Signature,
)
    requires
        1 <= limit,
        proper_ledger(ledger),
        receiving(states, sent),
        forall|i: int|
            0 <= i < sent.len() ==> sends(ledger, states[i].before, limit, #[trigger] sent[i]),
        sends(ledger, states.last().before, limit, last),
        states.last().leads_to(last, HistoryStep::Done(signatures, ending)),
    ensures
        signatures@.filter(|entry: SignaturesData| entry.err is None).map_values(
            |entry: SignaturesData| entry.signature,
        ).contains(signature) <==> exists|i: int|
            0 <= i < ledger.len() && (#[trigger] ledger[i]).err is None && reads_as(
                ledger[i].signature@,
                Ok(signature),
            ),
{
    let entries = lemma_ledger_entries(ledger);
    one_entry_for_each_record(ledger, entries);
    lemma_entries_are_returned(ledger, entries, limit, states, sent, last, signatures, ending);
    successful_are_those_without_error(signatures@, signature);
    lemma_successful_records(ledger, entries, signatures@, signature);
}

proof fn lemma_successful_records(
    ledger: Seq<SignatureRecord>,
    entries: Seq<SignaturesData>,
    found: Seq<SignaturesData>,
    signature: Signature,
)
    requires
        entries.len() == ledger.len(),
        forall|i: int|
            #![trigger ledger[i]]
            #![trigger entries[i]]
            0 <= i < ledger.len() ==> reads_as(ledger[i].signature@, Ok(entries[i].signature))
                && entries[i].err == ledger[i].err,
        forall|entry: SignaturesData| #[trigger]
            found.contains(entry) <==> entries.contains(entry),
    ensures
        (exists|k: int|
            0 <= k < found.len() && (#[trigger] found[k]).err is None && found[k].signature
                == signature) <==> (exists|i: int|
            0 <= i < ledger.len() && (#[trigger] ledger[i]).err is None && reads_as(
                ledger[i].signature@,
                Ok(signature),
            )),
{
    if exists|k: int|
        0 <= k < found.len() && (#[trigger] found[k]).err is None && found[k].signature
            == signature {
        let k = choose|k: int|
            0 <= k < found.len() && (#[trigger] found[k]).err is None && found[k].signature
                == signature;
        assert(found.contains(found[k]));
        let i = choose|i: int| 0 <= i < entries.len() && entries[i] == found[k];
        assert(ledger[i].err is None);
    }
    if exists|i: int|
        0 <= i < ledger.len() && (#[trigger] ledger[i]).err is None && reads_as(
            ledger[i].signature@,
            Ok(signature),
        ) {
        let i = choose|i: int|
            0 <= i < ledger.len() && (#[trigger] ledger[i]).err is None && reads_as(
                ledger[i].signature@,
                Ok(signature),
            );
        signature_reading_is_unique(
            ledger[i].signature@,
            Ok(signature),
            Ok(entries[i].signature),
        );
        assert(entries.contains(entries[i]));
        assert(found.contains(entries[i]));
        let k = choose|k: int| 0 <= k < found.len() && found[k] == entries[i];
        assert(found[k].err is None);
    }
}

proof fn lemma_same_members_same_len(a: Seq<SignaturesData>, b: Seq<SignaturesData>)
    requires
        strictly_sorted(a),
        distinct_signatures(b),
        forall|entry: SignaturesData| #[trigger] a.contains(entry) <==> b.contains(entry),
    ensures
        a.len() == b.len(),
{
    lemma_sorted_no_duplicates(a);
    assert(b.no_duplicates());
    a.unique_seq_to_set();
    b.unique_seq_to_set();
    assert(a.to_set() =~= b.to_set()) by {
        assert forall|x: SignaturesData| #[trigger] a.to_set().contains(x) <==> b.to_set().contains(
            x,
        ) by {
            assert(a.contains(x) <==> b.contains(x));
        }
    }
}

/// A node with proper records is asked for no more pages than it has records,
/// besides the page that ends the reading.
pub proof fn receiving_ends(
    ledger: Seq<SignatureRecord>,
    limit: int,
    states: Seq<HistoryState>,
    sent: Seq<Seq<SignatureRecord>>,
)
    requires
        1 <= limit,
        proper_ledger(ledger),
        receiving(states, sent),
        forall|i: int|
            0 <= i < sent.len() ==> sends(ledger, states[i].before, limit, #[trigger] sent[i]),
    ensures
        sent.len() <= ledger.len(),
{
    let entries = lemma_ledger_entries(ledger);
    let pages = lemma_receiving_reads(states, sent);
    assert forall|i: int| 0 <= i < pages.len() implies serves(
        entries,
        states[i].before,
        limit,
        #[trigger] pages[i],
    ) by {
        assert(sends(ledger, states[i].before, limit, sent[i]));
        lemma_sent_is_served(ledger, entries, states[i].before, limit, sent[i]);
    }
    reading_a_ledger_ends_at_any_page_size(entries, limit, states, pages);
}

/// What is returned goes by slot, within a slot by block time, those without
/// one first, and at one time by the bytes of the signatures.
pub proof fn history_is_returned_in_order(
    states: Seq<HistoryState>,
    sent: Seq<Seq<SignatureRecord>>,
    last: Seq<SignatureRecord>,
    signatures: SignatureSet,
    ending: Ending,
    i: int,
    j: int,
)
    requires
        receiving(states, sent),
        states.last().leads_to(last, HistoryStep::Done(signatures, ending)),
        0 <= i < j < signatures@.len(),
    ensures
        signatures@[i].slot <= signatures@[j].slot,
        signatures@[i].slot == signatures@[j].slot ==> match (
            signatures@[i].block_time,
            signatures@[j].block_time,
        ) {
            (Some(earlier), Some(later)) => earlier <= later,
            (Some(_), None) => false,
            (None, _) => true,
        },
        signatures@[i].slot == signatures@[j].slot && signatures@[i].block_time
            == signatures@[j].block_time ==> exists|k: int|
            0 <= k < 64 && #[trigger] signatures@[i].signature.bytes@[k]
                < signatures@[j].signature.bytes@[k] && (forall|m: int|
                0 <= m < k ==> #[trigger] signatures@[i].signature.bytes@[m]
                    == signatures@[j].signature.bytes@[m]),
{
    let pages = lemma_receiving_reads(states, sent);
    reading_collects_the_pages(states, pages);
    sorted_entries_go_by_slot_then_time(signatures@, i, j);
}

} // verus!
