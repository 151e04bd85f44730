//! Asking for the accounts of a program by what their data holds.
use crate::base58::{
    base58_bytes, base58_encodes, base58_text, base58_text_fixes_bytes, bytes_fix_base58_text,
    to_base58,
};
use solana_sdk::commitment_config::CommitmentConfig;
use vstd::prelude::*;

verus! {

/// Bytes that an account's data must hold, and where.
#[derive(Debug)]
pub struct Memory {
    pub offset: usize,
    pub bytes: Vec<u8>,
}

/// The filters that accounts are asked for by.
#[derive(Debug)]
pub enum RpcFilterType {
    /// The data holds given bytes at a given place.
    Memcmp(Memcmp),
}

/// Bytes that the data is compared with, in the form in which they go to the node.
#[derive(Debug)]
pub struct Memcmp {
    /// Where in the data they are to stand.
    pub offset: usize,
    pub bytes: MemcmpEncodedBytes,
    /// How the node is told that the bytes are encoded, besides their own form.
    pub encoding: Option<MemcmpEncoding>,
}

/// How the bytes of a filter are written.
#[derive(Debug)]
pub enum MemcmpEncodedBytes {
    Base58(String),
}

/// What the node can be told of the encoding.
#[derive(Debug, Clone, Copy, PartialEq, Eq)]
pub enum MemcmpEncoding {
    Binary,
}

impl View for RpcFilterType {
    type V = (usize, Seq<char>, Option<MemcmpEncoding>);

    /// The offset, the text of the bytes, and the encoding.
    open spec fn view(&self) -> (usize, Seq<char>, Option<MemcmpEncoding>) {
        match *self {
            RpcFilterType::Memcmp(memcmp) => (
                memcmp.offset,
                memcmp.bytes->Base58_0@,
                memcmp.encoding,
            ),
        }
    }
}

/// How account data is to be written in the answer.
#[derive(Debug, Clone, Copy, PartialEq, Eq)]
pub enum AccountEncoding {
    Base64,
}

/// A part of the account data, from an offset on.
#[derive(Debug, Clone, Copy, PartialEq, Eq)]
pub struct DataSlice {
    pub offset: usize,
    pub length: usize,
}

/// What the node is asked for.
#[derive(Debug)]
pub struct ProgramAccountsConfig {
    pub filters: Option<Vec<RpcFilterType>>,
    pub encoding: Option<AccountEncoding>,
    /// The part of the data to send, if not all of it.
    pub data_slice: Option<DataSlice>,
    /// How settled the state has to be, if not by the client's own setting.
    pub commitment: Option<CommitmentConfig>,
    /// The slot that the node must have reached to answer, if any.
    pub min_context_slot: Option<u64>,
    pub with_context: Option<bool>,
}

impl Memory {
    /// The bytes are few enough to be encoded.
    pub open spec fn encodable(self) -> bool {
        self.bytes@.len() * 138 <= usize::MAX
    }

    /// Whether the bytes are few enough to be encoded.
    pub fn is_encodable(&self) -> (encodable: bool)
        ensures
            encodable == self.encodable(),
            encodable <==> self.bytes@.len() * 138 <= usize::MAX,
    {
        self.bytes.len() <= usize::MAX / 138
    }

    /// The filter asks for these bytes at this offset.
    pub open spec fn asked_by(self, filter: RpcFilterType) -> bool {
        &&& filter@.0 == self.offset
        &&& base58_encodes(filter@.1, self.bytes@)
        &&& filter@.2 is None
    }
}

impl RpcFilterType {
    /// The filter for the bytes.
    pub fn from(mem: Memory) -> (filter: RpcFilterType)
        requires
            mem.encodable(),
        ensures
            mem.asked_by(filter),
            filter@ == (mem.offset, base58_text(mem.bytes@), None::<MemcmpEncoding>),
            base58_bytes(filter@.1) == mem.bytes@,
            filter matches RpcFilterType::Memcmp(memcmp) && {
                &&& memcmp.offset == mem.offset
                &&& memcmp.encoding is None
                &&& memcmp.bytes matches MemcmpEncodedBytes::Base58(text) && base58_encodes(
                    text@,
                    mem.bytes@,
                )
            },
    {
        let text = to_base58(mem.bytes.as_slice());
        proof {
            bytes_fix_base58_text(mem.bytes@, text@, text@);
            base58_text_fixes_bytes(text@, mem.bytes@, mem.bytes@);
        }
        RpcFilterType::Memcmp(
            Memcmp {
                offset: mem.offset,
                bytes: MemcmpEncodedBytes::Base58(text),
                encoding: None,
            },
        )
    }
}

impl ProgramAccountsConfig {
    /// Asks for the accounts that hold all of the given bytes, with all of
    /// their data in base64, and leaves the rest to the node and the client.
    pub fn with_bytes(bytes: Vec<Memory>) -> (config: ProgramAccountsConfig)
        requires
            forall|i: int| 0 <= i < bytes@.len() ==> (#[trigger] bytes@[i]).encodable(),
        ensures
            config.filters matches Some(filters) && {
                &&& filters@.len() == bytes@.len()
                &&& forall|i: int|
                    0 <= i < bytes@.len() ==> (#[trigger] bytes@[i]).asked_by(filters@[i])
                &&& forall|i: int|
                    #![trigger bytes@[i]]
                    #![trigger filters@[i]]
                    0 <= i < bytes@.len() ==> (filters@[i] matches RpcFilterType::Memcmp(memcmp)
                        && {
                        &&& memcmp.offset == bytes@[i].offset
                        &&& memcmp.encoding is None
                        &&& memcmp.bytes matches MemcmpEncodedBytes::Base58(text)
                            && base58_encodes(text@, bytes@[i].bytes@)
                    })
            },
            config.encoding == Some(AccountEncoding::Base64),
            config.data_slice is None,
            config.commitment is None,
            config.min_context_slot is None,
            config.with_context is None,
    {
        let ghost all = bytes@;
        let mut filters: Vec<RpcFilterType> = Vec::new();
        for mem in it: bytes
            invariant
                it.seq() == all,
                forall|i: int| 0 <= i < all.len() ==> (#[trigger] all[i]).encodable(),
                filters@.len() == it.index(),
                forall|i: int| 0 <= i < it.index() ==> (#[trigger] all[i]).asked_by(filters@[i]),
                forall|i: int|
                    #![trigger all[i]]
                    #![trigger filters@[i]]
                    0 <= i < it.index() ==> (filters@[i] matches RpcFilterType::Memcmp(memcmp) && {
                        &&& memcmp.offset == all[i].offset
                        &&& memcmp.encoding is None
                        &&& memcmp.bytes matches MemcmpEncodedBytes::Base58(text)
                            && base58_encodes(text@, all[i].bytes@)
                    }),
        {
            assert(mem == all[it.index()]);
            filters.push(RpcFilterType::from(mem));
        }
        ProgramAccountsConfig {
            filters: Some(filters),
            encoding: Some(AccountEncoding::Base64),
            data_slice: None,
            commitment: None,
            min_context_slot: None,
            with_context: None,
        }
    }
}

/// A filter for a memory holds its offset, no encoding besides the form of the
/// bytes, and a base58 text of its bytes.
pub proof fn filter_holds_the_memory(mem: Memory, filter: RpcFilterType)
    ensures
        mem.asked_by(filter) <==> {
            &&& filter matches RpcFilterType::Memcmp(memcmp)
            &&& memcmp.offset == mem.offset
            &&& memcmp.encoding is None
            &&& memcmp.bytes matches MemcmpEncodedBytes::Base58(text)
            &&& base58_encodes(text@, mem.bytes@)
        },
{
}

/// Two filters are the same exactly if they ask for the same bytes at the same
/// offset: different memories never give the same filter.
pub proof fn filters_differ_as_memories_do(
    a: Memory,
    b: Memory,
    filter_a: RpcFilterType,
    filter_b: RpcFilterType,
)
    requires
        a.asked_by(filter_a),
        b.asked_by(filter_b),
    ensures
        filter_a@ == filter_b@ <==> a.offset == b.offset && a.bytes@ == b.bytes@,
{
    base58_text_fixes_bytes(filter_a@.1, a.bytes@, a.bytes@);
    base58_text_fixes_bytes(filter_b@.1, b.bytes@, b.bytes@);
    bytes_fix_base58_text(a.bytes@, filter_a@.1, filter_a@.1);
    bytes_fix_base58_text(b.bytes@, filter_b@.1, filter_b@.1);
}

/// A filter asks for one offset and one byte string only, and its text,
/// read as base58, gives that byte string back.
pub proof fn filter_fixes_memory(filter: RpcFilterType, a: Memory, b: Memory)
    requires
        a.asked_by(filter),
        b.asked_by(filter),
    ensures
        a.offset == b.offset,
        a.bytes@ == b.bytes@,
        base58_bytes(filter@.1) == a.bytes@,
{
    base58_text_fixes_bytes(filter@.1, a.bytes@, b.bytes@);
}

} // verus!
