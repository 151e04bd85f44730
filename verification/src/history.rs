//! Reading the whole signature history of an address, page by page.
use crate::error::Error;
use crate::history_laws::{
    failure_is_the_first_unreadable_record, known_page_ends_reading, new_page_is_kept,
};
use crate::signature::{parsed_signature, reads_as, ParseSignatureError, Signature};
use crate::signature_set::{covers, merged, SignatureSet};
use crate::signatures_data::SignaturesData;
use solana_rpc_client_api::client_error::Error as ClientError;
use solana_sdk::commitment_config::CommitmentConfig;
use solana_sdk::transaction::TransactionError;
use vstd::prelude::*;

verus! {

/// The most entries that one page is asked to hold.
pub const PAGE_LIMIT: usize = 1000;

/// One line of a page, as the node sends it.
#[derive(Debug)]
pub struct SignatureRecord {
    pub signature: String,
    pub slot: u64,
    pub block_time: Option<i64>,
    pub err: Option<TransactionError>,
}

/// What the node is asked for. Pages run from the newest entry to the oldest:
/// entries older than `before`, down to `until`.
pub struct PageRequest {
    pub before: Option<Signature>,
    pub until: Option<Signature>,
    pub limit: Option<usize>,
    pub commitment: Option<CommitmentConfig>,
}

/// A history that is being read.
pub struct HistoryState {
    pub collected: SignatureSet,
    pub before: Option<Signature>,
    pub until: Option<Signature>,
    pub commitment: CommitmentConfig,
}

/// Why reading ended.
#[derive(Debug, Clone, Copy, PartialEq, Eq)]
pub enum Ending {
    /// The page was empty.
    Exhausted,
    /// The page held one slot, and nothing new.
    SlotExhausted,
    /// The page held several slots, and still nothing new: asking on, from
    /// behind this signature, would go round in circles.
    Stalled(Signature),
}

/// What a page leads to.
pub enum HistoryStep {
    /// Ask for the next page.
    Continue(HistoryState),
    /// The history is complete.
    Done(SignatureSet, Ending),
    /// The history cannot be read.
    Failed(Error),
}

impl SignatureRecord {
    /// The entry that the record describes, if its signature can be read.
    pub open spec fn data(self) -> Result<SignaturesData, ParseSignatureError> {
        match parsed_signature(self.signature@) {
            Ok(signature) => Ok(
                SignaturesData {
                    signature,
                    slot: self.slot,
                    block_time: self.block_time,
                    err: self.err,
                },
            ),
            Err(error) => Err(error),
        }
    }

    /// Reads the signature of the record and makes it an entry.
    pub fn into_data(self) -> (data: Result<SignaturesData, ParseSignatureError>)
        ensures
            data == self.data(),
            match data {
                Ok(entry) => {
                    &&& reads_as(self.signature@, Ok(entry.signature))
                    &&& entry.slot == self.slot
                    &&& entry.block_time == self.block_time
                    &&& entry.err == self.err
                },
                Err(error) => reads_as(self.signature@, Err(error)),
            },
            data is Ok <==> parsed_signature(self.signature@) is Ok,
    {
        match Signature::parse(self.signature.as_str()) {
            Ok(signature) => Ok(
                SignaturesData {
                    signature,
                    slot: self.slot,
                    block_time: self.block_time,
                    err: self.err,
                },
            ),
            Err(error) => Err(error),
        }
    }
}

/// The entries of a page, or the error of the first record that cannot be read.
pub open spec fn page_data(records: Seq<SignatureRecord>) -> Result<
    Seq<SignaturesData>,
    ParseSignatureError,
>
    decreases records.len(),
{
    if records.len() == 0 {
        Ok(Seq::empty())
    } else {
        match page_data(records.drop_last()) {
            Err(error) => Err(error),
            Ok(front) => match records.last().data() {
                Err(error) => Err(error),
                Ok(entry) => Ok(front.push(entry)),
            },
        }
    }
}

/// A page that cannot be read up to some record cannot be read at all.
pub(crate) proof fn lemma_page_fault(records: Seq<SignatureRecord>, n: int)
    requires
        0 <= n <= records.len(),
        page_data(records.take(n)) is Err,
    ensures
        page_data(records) == page_data(records.take(n)),
    decreases records.len() - n,
{
    if n == records.len() {
        assert(records.take(n) =~= records);
    } else {
        let more = records.take(n + 1);
        assert(more.drop_last() =~= records.take(n));
        lemma_page_fault(records, n + 1);
    }
}

/// Reads the records of a page in turn, up to the first that cannot be read.
pub fn read_page(records: Vec<SignatureRecord>) -> (data: Result<
    Vec<SignaturesData>,
    ParseSignatureError,
>)
    ensures
        match data {
            Ok(batch) => page_data(records@) == Ok::<Seq<SignaturesData>, ParseSignatureError>(
                batch@,
            ),
            Err(error) => page_data(records@) == Err::<Seq<SignaturesData>, ParseSignatureError>(
                error,
            ),
        },
        data matches Ok(batch) ==> batch@.len() == records@.len(),
        data matches Ok(batch) ==> forall|i: int|
            #![trigger records@[i]]
            #![trigger batch@[i]]
            0 <= i < records@.len() ==> {
                &&& reads_as(records@[i].signature@, Ok(batch@[i].signature))
                &&& batch@[i].slot == records@[i].slot
                &&& batch@[i].block_time == records@[i].block_time
                &&& batch@[i].err == records@[i].err
            },
        data matches Err(error) ==> exists|i: int|
            0 <= i < records@.len() && parsed_signature((#[trigger] records@[i]).signature@) == Err::<
                Signature,
                ParseSignatureError,
            >(error) && (forall|j: int|
                0 <= j < i ==> parsed_signature((#[trigger] records@[j]).signature@) is Ok),
        data is Ok <==> forall|i: int|
            0 <= i < records@.len() ==> parsed_signature((#[trigger] records@[i]).signature@) is Ok,
{
    let ghost all = records@;
    let mut batch: Vec<SignaturesData> = Vec::new();
    proof {
        assert(all.take(0) =~= Seq::<SignatureRecord>::empty());
        assert(batch@ =~= Seq::<SignaturesData>::empty());
    }
    for record in it: records
        invariant
            it.seq() == all,
            page_data(all.take(it.index())) == Ok::<Seq<SignaturesData>, ParseSignatureError>(
                batch@,
            ),
            batch@.len() == it.index(),
            forall|i: int|
                #![trigger all[i]]
                #![trigger batch@[i]]
                0 <= i < it.index() ==> {
                    &&& reads_as(all[i].signature@, Ok(batch@[i].signature))
                    &&& batch@[i].slot == all[i].slot
                    &&& batch@[i].block_time == all[i].block_time
                    &&& batch@[i].err == all[i].err
                    &&& parsed_signature(all[i].signature@) is Ok
                },
    {
        let ghost text = record.signature@;
        proof {
            assert(all.take(it.index() + 1).drop_last() =~= all.take(it.index()));
            assert(all.take(it.index() + 1).last() == record);
        }
        match record.into_data() {
            Ok(entry) => batch.push(entry),
            Err(error) => {
                proof {
                    lemma_page_fault(all, it.index() + 1);
                    assert(all[it.index()].signature@ == text);
                }
                return Err(error);
            },
        }
    }
    assert(all.take(all.len() as int) =~= all);
    Ok(batch)
}

/// All entries are of one slot.
pub open spec fn single_slot(batch: Seq<SignaturesData>) -> bool {
    forall|i: int, j: int|
        #![trigger batch[i], batch[j]]
        0 <= i < batch.len() && 0 <= j < batch.len() ==> batch[i].slot == batch[j].slot
}

/// Whether all entries of the page are of one slot.
pub fn is_single_slot(batch: &Vec<SignaturesData>) -> (single: bool)
    ensures
        single == single_slot(batch@),
        single <==> forall|i: int|
            0 <= i < batch@.len() ==> (#[trigger] batch@[i]).slot == batch@[0].slot,
{
    let mut i: usize = 1;
    while i < batch.len()
        invariant
            1 <= i,
            forall|j: int| 0 <= j < i && j < batch@.len() ==> batch@[0].slot == (
            #[trigger] batch@[j]).slot,
        decreases batch@.len() - i,
    {
        if batch[0].slot != batch[i].slot {
            assert(batch@[0].slot != batch@[i as int].slot);
            return false;
        }
        i += 1;
    }
    true
}

/// Entry `i` is the border of the page: behind it stand only entries of the
/// last slot, and it is of another slot itself. If the page has no other
/// slot, the border is the last entry.
pub open spec fn is_border(batch: Seq<SignaturesData>, i: int) -> bool {
    &&& 0 <= i < batch.len()
    &&& forall|j: int| i < j < batch.len() ==> (#[trigger] batch[j]).slot == batch.last().slot
    &&& if single_slot(batch) {
        i == batch.len() - 1
    } else {
        batch[i].slot != batch.last().slot
    }
}

/// The signature is that of the border of the page.
pub open spec fn borders(batch: Seq<SignaturesData>, signature: Signature) -> bool {
    exists|i: int| is_border(batch, i) && (#[trigger] batch[i]).signature == signature
}

/// Why a page that brings nothing new ends the reading.
pub open spec fn ends_for(batch: Seq<SignaturesData>, ending: Ending) -> bool {
    if batch.len() == 0 {
        ending == Ending::Exhausted
    } else if single_slot(batch) {
        ending == Ending::SlotExhausted
    } else {
        ending matches Ending::Stalled(before) && borders(batch, before)
    }
}

/// Finds the border of a page, from its end on.
pub fn find_border(batch: &Vec<SignaturesData>) -> (border: usize)
    requires
        batch@.len() > 0,
    ensures
        is_border(batch@, border as int),
        border < batch@.len(),
        forall|j: int|
            border < j < batch@.len() ==> (#[trigger] batch@[j]).slot == batch@.last().slot,
        batch@[border as int].slot != batch@.last().slot || border == batch@.len() - 1
            && forall|j: int|
            0 <= j < batch@.len() ==> (#[trigger] batch@[j]).slot == batch@.last().slot,
{
    let last: usize = batch.len() - 1;
    let mut i: usize = last;
    while i > 0
        invariant
            i <= last,
            last == batch@.len() - 1,
            forall|j: int| i <= j <= last ==> (#[trigger] batch@[j]).slot
                == batch@[last as int].slot,
        decreases i,
    {
        i -= 1;
        if batch[i].slot != batch[last].slot {
            return i;
        }
    }
    last
}

impl HistoryState {
    /// The entries collected so far are in order and without repeats.
    pub open spec fn wf(self) -> bool {
        self.collected.wf()
    }

    /// Starts to read the history down to `until`, from the newest entry on.
    pub fn new(commitment: CommitmentConfig, until: Option<Signature>) -> (state: HistoryState)
        ensures
            state.wf(),
            state.collected@ == Seq::<SignaturesData>::empty(),
            state.before is None,
            state.until == until,
            state.commitment == commitment,
    {
        HistoryState { collected: SignatureSet::new(), before: None, until, commitment }
    }

    /// The page that is to be asked for.
    pub open spec fn asks(self) -> PageRequest {
        PageRequest {
            before: self.before,
            until: self.until,
            limit: Some(PAGE_LIMIT),
            commitment: Some(self.commitment),
        }
    }

    /// The page to ask for.
    pub fn request(&self) -> (request: PageRequest)
        ensures
            request == self.asks(),
            request.before == self.before,
            request.until == self.until,
            request.limit == Some(PAGE_LIMIT),
            request.commitment == Some(self.commitment),
    {
        PageRequest {
            before: self.before,
            until: self.until,
            limit: Some(PAGE_LIMIT),
            commitment: Some(self.commitment),
        }
    }

    /// `next` is this history after a page that brought something new: the
    /// page is merged in, and the next page starts behind its border.
    pub open spec fn grows_to(self, batch: Seq<SignaturesData>, next: HistoryState) -> bool {
        &&& next.wf()
        &&& merged(self.collected@, batch, next.collected@)
        &&& next.before matches Some(before) && borders(batch, before)
        &&& next.until == self.until
        &&& next.commitment == self.commitment
    }

    /// `step` is what the page leads to.
    pub open spec fn leads_to(self, records: Seq<SignatureRecord>, step: HistoryStep) -> bool {
        match page_data(records) {
            Err(error) => step == HistoryStep::Failed(Error::SignatureParseError(error)),
            Ok(batch) => if covers(self.collected@, batch) {
                &&& step matches HistoryStep::Done(signatures, ending)
                &&& signatures@ == self.collected@
                &&& ends_for(batch, ending)
            } else {
                &&& step matches HistoryStep::Continue(next)
                &&& self.grows_to(batch, next)
            },
        }
    }

    /// Takes the node's answer to the request.
    pub fn receive(self, page: Result<Vec<SignatureRecord>, ClientError>) -> (step: HistoryStep)
        requires
            self.wf(),
        ensures
            match page {
                Err(error) => step == HistoryStep::Failed(Error::ClientError(error)),
                Ok(records) => self.leads_to(records@, step),
            },
            // It fails on a failed request or an unreadable record, and on nothing else.
            step matches HistoryStep::Failed(Error::ClientError(error)) ==> page matches Err(cause)
                && cause == error,
            page matches Ok(records) ==> (step is Failed <==> exists|i: int|
                0 <= i < records@.len() && parsed_signature(
                    (#[trigger] records@[i]).signature@,
                ) is Err),
            page matches Ok(records) ==> (step matches HistoryStep::Failed(
                Error::SignatureParseError(error),
            ) ==> exists|i: int|
                0 <= i < records@.len() && parsed_signature((#[trigger] records@[i]).signature@)
                    == Err::<Signature, ParseSignatureError>(error) && (forall|j: int|
                    0 <= j < i ==> parsed_signature((#[trigger] records@[j]).signature@) is Ok)),
            // It ends on a page of which every transaction is known.
            page matches Ok(records) ==> (step matches HistoryStep::Done(signatures, ending) ==> {
                &&& signatures@ == self.collected@
                &&& forall|i: int|
                    0 <= i < records@.len() ==> exists|k: int|
                        0 <= k < self.collected@.len() && (#[trigger] self.collected@[k]).slot == (
                        #[trigger] records@[i]).slot && self.collected@[k].block_time
                            == records@[i].block_time && parsed_signature(records@[i].signature@)
                            == Ok::<Signature, ParseSignatureError>(self.collected@[k].signature)
                &&& ending == Ending::Exhausted <==> records@.len() == 0
                &&& ending == Ending::SlotExhausted <==> records@.len() > 0 && forall|i: int|
                    0 <= i < records@.len() ==> (#[trigger] records@[i]).slot
                        == records@.last().slot
                &&& ending matches Ending::Stalled(before) ==> exists|i: int|
                    0 <= i < records@.len() && (#[trigger] records@[i]).slot
                        != records@.last().slot && parsed_signature(records@[i].signature@)
                        == Ok::<Signature, ParseSignatureError>(before) && (forall|j: int|
                        i < j < records@.len() ==> (#[trigger] records@[j]).slot
                            == records@.last().slot)
            }),
            // It goes on with all that was there and all that the page holds.
            page matches Ok(records) ==> (step matches HistoryStep::Continue(next) ==> {
                &&& next.wf()
                &&& next.until == self.until
                &&& next.commitment == self.commitment
                &&& next.collected@.len() > self.collected@.len()
                &&& forall|entry: SignaturesData| #[trigger]
                    self.collected@.contains(entry) ==> next.collected@.contains(entry)
                &&& forall|i: int|
                    0 <= i < records@.len() ==> exists|k: int|
                        0 <= k < next.collected@.len() && (#[trigger] next.collected@[k]).slot == (
                        #[trigger] records@[i]).slot && next.collected@[k].block_time
                            == records@[i].block_time && parsed_signature(records@[i].signature@)
                            == Ok::<Signature, ParseSignatureError>(next.collected@[k].signature)
                &&& forall|entry: SignaturesData| #[trigger]
                    next.collected@.contains(entry) && !self.collected@.contains(entry)
                        ==> exists|i: int|
                        0 <= i < records@.len() && (#[trigger] records@[i]).slot == entry.slot
                            && records@[i].block_time == entry.block_time && records@[i].err
                            == entry.err && parsed_signature(records@[i].signature@) == Ok::<
                            Signature,
                            ParseSignatureError,
                        >(entry.signature)
                &&& next.before matches Some(before) && exists|i: int|
                    0 <= i < records@.len() && parsed_signature(
                        (#[trigger] records@[i]).signature@,
                    ) == Ok::<Signature, ParseSignatureError>(before) && (forall|j: int|
                        i < j < records@.len() ==> (#[trigger] records@[j]).slot
                            == records@.last().slot) && (records@[i].slot != records@.last().slot
                        || i == records@.len() - 1 && forall|j: int|
                        0 <= j < records@.len() ==> (#[trigger] records@[j]).slot
                            == records@.last().slot)
            }),
    {
        match page {
            Err(error) => HistoryStep::Failed(Error::ClientError(error)),
            Ok(records) => {
                let ghost (state, sent) = (self, records@);
                let step = self.take_page(records);
                proof {
                    failure_is_the_first_unreadable_record(state, sent, step);
                    if step is Continue {
                        new_page_is_kept(state, sent, step->Continue_0);
                    }
                    if step is Done {
                        known_page_ends_reading(state, sent, step->Done_0, step->Done_1);
                    }
                }
                step
            },
        }
    }

    /// Reads the page and takes it into the collection.
    fn take_page(self, records: Vec<SignatureRecord>) -> (step: HistoryStep)
        requires
            self.wf(),
        ensures
            self.leads_to(records@, step),
    {
        let batch = match read_page(records) {
            Ok(batch) => batch,
            Err(error) => return HistoryStep::Failed(Error::SignatureParseError(error)),
        };
        if batch.len() == 0 {
            return HistoryStep::Done(self.collected, Ending::Exhausted);
        }
        let border = find_border(&batch);
        let before = batch[border].signature;
        let single = is_single_slot(&batch);
        let mut collected = self.collected;
        let previous = collected.len();
        assert(is_border(batch@, border as int) && before == batch@[border as int].signature);
        collected.extend(batch);
        if collected.len() == previous {
            let ending = if single {
                Ending::SlotExhausted
            } else {
                Ending::Stalled(before)
            };
            return HistoryStep::Done(collected, ending);
        }
        HistoryStep::Continue(
            HistoryState {
                collected,
                before: Some(before),
                until: self.until,
                commitment: self.commitment,
            },
        )
    }
}

} // verus!
