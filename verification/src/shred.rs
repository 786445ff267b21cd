//! Shreds as plain values: the headers, flags and bytes that the decoder
//! reads, and the equality under which two received shreds count as the same.
use vstd::prelude::*;

verus! {

/// Number of data shreds a slot can hold; shred indexes lie below it.
pub const MAX_DATA_SHREDS_PER_SLOT: usize = 32_768;

/// Bytes in the payload of a coding shred.
pub const SIZE_OF_CODE_PAYLOAD: usize = 1_228;

/// Bytes in one entry of the Merkle proof at the end of a payload.
pub const SIZE_OF_MERKLE_PROOF_ENTRY: usize = 20;

/// Bytes in a signature.
pub const SIZE_OF_SIGNATURE: usize = 64;

/// The kinds of shred that the variant byte of a shred can announce.
#[derive(Clone, Copy, Debug, PartialEq, Eq, Structural)]
pub enum ShredVariant {
    LegacyCode,
    LegacyData,
    MerkleCode { proof_size: u8, chained: bool, resigned: bool },
    MerkleData { proof_size: u8, chained: bool, resigned: bool },
}

/// What every shred begins with.
#[derive(Clone, Copy, Debug)]
pub struct CommonHeader {
    pub signature: [u8; 64],
    pub shred_variant: ShredVariant,
    pub slot: u64,
    pub index: u32,
    pub version: u16,
    pub fec_set_index: u32,
}

/// The header that only data shreds have.
#[derive(Clone, Copy, Debug, PartialEq, Eq, Structural)]
pub struct DataHeader {
    pub parent_offset: u16,
    pub flags: u8,
    pub size: u16,
}

/// The header that only coding shreds have.
#[derive(Clone, Copy, Debug, PartialEq, Eq, Structural)]
pub struct CodingHeader {
    pub num_data_shreds: u16,
    pub num_coding_shreds: u16,
    pub position: u16,
}

/// A data shred. `data` is the section of the payload that carries ledger
/// data, or `None` where the payload's layout does not allow one.
#[derive(Debug)]
pub struct ShredData {
    pub common_header: CommonHeader,
    pub data_header: DataHeader,
    pub payload: Vec<u8>,
    pub data: Option<Vec<u8>>,
    pub data_complete: bool,
    pub last_in_slot: bool,
}

/// A coding shred.
#[derive(Debug)]
pub struct ShredCode {
    pub common_header: CommonHeader,
    pub coding_header: CodingHeader,
    pub payload: Vec<u8>,
}

/// A shred of either type.
#[derive(Debug)]
pub enum Shred {
    ShredCode(ShredCode),
    ShredData(ShredData),
}

/// The type of a shred.
#[derive(Clone, Copy, Debug, PartialEq, Eq, Structural)]
pub enum ShredType {
    Data,
    Code,
}

/// The value of a [`ShredData`].
#[verifier::ext_equal]
pub struct ShredDataView {
    pub common_header: CommonHeader,
    pub data_header: DataHeader,
    pub payload: Seq<u8>,
    pub data: Option<Seq<u8>>,
    pub data_complete: bool,
    pub last_in_slot: bool,
}

/// The value of a [`ShredCode`].
#[verifier::ext_equal]
pub struct ShredCodeView {
    pub common_header: CommonHeader,
    pub coding_header: CodingHeader,
    pub payload: Seq<u8>,
}

/// The value of a [`Shred`].
#[verifier::ext_equal]
pub enum ShredView {
    ShredCode(ShredCodeView),
    ShredData(ShredDataView),
}

impl View for ShredData {
    type V = ShredDataView;

    open spec fn view(&self) -> ShredDataView {
        ShredDataView {
            common_header: self.common_header,
            data_header: self.data_header,
            payload: self.payload@,
            data: match self.data {
                Some(bytes) => Some(bytes@),
                None => None,
            },
            data_complete: self.data_complete,
            last_in_slot: self.last_in_slot,
        }
    }
}

impl View for ShredCode {
    type V = ShredCodeView;

    open spec fn view(&self) -> ShredCodeView {
        ShredCodeView {
            common_header: self.common_header,
            coding_header: self.coding_header,
            payload: self.payload@,
        }
    }
}

impl View for Shred {
    type V = ShredView;

    open spec fn view(&self) -> ShredView {
        match self {
            Shred::ShredCode(s) => ShredView::ShredCode(s@),
            Shred::ShredData(s) => ShredView::ShredData(s@),
        }
    }
}

impl ShredView {
    pub open spec fn common_header(self) -> CommonHeader {
        match self {
            ShredView::ShredCode(s) => s.common_header,
            ShredView::ShredData(s) => s.common_header,
        }
    }

    pub open spec fn slot(self) -> u64 {
        self.common_header().slot
    }

    pub open spec fn index(self) -> u32 {
        self.common_header().index
    }

    pub open spec fn fec_set_index(self) -> u32 {
        self.common_header().fec_set_index
    }

    pub open spec fn shred_type(self) -> ShredType {
        match self {
            ShredView::ShredCode(_) => ShredType::Code,
            ShredView::ShredData(_) => ShredType::Data,
        }
    }

    pub open spec fn payload(self) -> Seq<u8> {
        match self {
            ShredView::ShredCode(s) => s.payload,
            ShredView::ShredData(s) => s.payload,
        }
    }

    /// A data shred that ends a run of entries.
    pub open spec fn ends_run(self) -> bool {
        self matches ShredView::ShredData(s) && (s.data_complete || s.last_in_slot)
    }

    /// The shred's indexes address a slot's tables.
    pub open spec fn in_range(self) -> bool {
        self.index() < MAX_DATA_SHREDS_PER_SLOT && self.fec_set_index() < MAX_DATA_SHREDS_PER_SLOT
    }
}

/// A copy of some bytes.
fn copy_bytes(bytes: &Vec<u8>) -> (copy: Vec<u8>)
    ensures
        copy@ == bytes@,
{
    let copy = bytes.clone();
    assert(copy@ =~= bytes@);
    copy
}

impl Clone for ShredData {
    fn clone(&self) -> (copy: Self)
        ensures
            copy@ == self@,
    {
        let data = match &self.data {
            Some(bytes) => Some(copy_bytes(bytes)),
            None => None,
        };
        ShredData {
            common_header: self.common_header,
            data_header: self.data_header,
            payload: copy_bytes(&self.payload),
            data,
            data_complete: self.data_complete,
            last_in_slot: self.last_in_slot,
        }
    }
}

impl Clone for ShredCode {
    fn clone(&self) -> (copy: Self)
        ensures
            copy@ == self@,
    {
        ShredCode {
            common_header: self.common_header,
            coding_header: self.coding_header,
            payload: copy_bytes(&self.payload),
        }
    }
}

impl Clone for Shred {
    fn clone(&self) -> (copy: Self)
        ensures
            copy@ == self@,
    {
        match self {
            Shred::ShredCode(s) => Shred::ShredCode(s.clone()),
            Shred::ShredData(s) => Shred::ShredData(s.clone()),
        }
    }
}

impl Shred {
    pub fn common_header(&self) -> (header: &CommonHeader)
        ensures
            *header == self@.common_header(),
    {
        match self {
            Shred::ShredCode(s) => &s.common_header,
            Shred::ShredData(s) => &s.common_header,
        }
    }

    pub fn slot(&self) -> (slot: u64)
        ensures
            slot == self@.slot(),
    {
        self.common_header().slot
    }

    pub fn index(&self) -> (index: u32)
        ensures
            index == self@.index(),
    {
        self.common_header().index
    }

    pub fn fec_set_index(&self) -> (index: u32)
        ensures
            index == self@.fec_set_index(),
    {
        self.common_header().fec_set_index
    }

    pub fn shred_type(&self) -> (shred_type: ShredType)
        ensures
            shred_type == self@.shred_type(),
    {
        match self {
            Shred::ShredCode(_) => ShredType::Code,
            Shred::ShredData(_) => ShredType::Data,
        }
    }

    pub fn payload(&self) -> (payload: &Vec<u8>)
        ensures
            payload@ == self@.payload(),
    {
        match self {
            Shred::ShredCode(s) => &s.payload,
            Shred::ShredData(s) => &s.payload,
        }
    }

    /// Whether the shred's indexes address a slot's tables.
    pub fn is_in_range(&self) -> (in_range: bool)
        ensures
            in_range == self@.in_range(),
    {
        (self.index() as usize) < MAX_DATA_SHREDS_PER_SLOT && (self.fec_set_index() as usize)
            < MAX_DATA_SHREDS_PER_SLOT
    }
}

/// The first `n` bytes, or all of them where there are fewer.
pub open spec fn prefix(bytes: Seq<u8>, n: nat) -> Seq<u8> {
    if n <= bytes.len() {
        bytes.take(n as int)
    } else {
        bytes
    }
}

/// Whether the first `n` bytes of two byte strings agree.
fn same_prefix(a: &[u8], b: &[u8], n: usize) -> (same: bool)
    ensures
        same == (prefix(a@, n as nat) == prefix(b@, n as nat)),
{
    let a_len: usize = if n <= a.len() { n } else { a.len() };
    let b_len: usize = if n <= b.len() { n } else { b.len() };
    let ghost pa = prefix(a@, n as nat);
    let ghost pb = prefix(b@, n as nat);
    assert(pa.len() == a_len && pb.len() == b_len);
    if a_len != b_len {
        return false;
    }
    let mut i: usize = 0;
    while i < a_len
        invariant
            i <= a_len,
            pa == prefix(a@, n as nat),
            pb == prefix(b@, n as nat),
            a_len <= a@.len(),
            a_len <= b@.len(),
            pa.len() == a_len,
            pb.len() == a_len,
            forall|j: int| 0 <= j < a_len ==> pa[j] == a@[j],
            forall|j: int| 0 <= j < a_len ==> pb[j] == b@[j],
            forall|j: int| 0 <= j < i ==> pa[j] == pb[j],
        decreases a_len - i,
    {
        if a[i] != b[i] {
            assert(pa[i as int] != pb[i as int]);
            return false;
        }
        i = i + 1;
    }
    assert(pa =~= pb);
    true
}

/// Whether two byte strings are the same.
fn same_bytes(a: &[u8], b: &[u8]) -> (same: bool)
    ensures
        same == (a@ == b@),
{
    if a.len() != b.len() {
        return false;
    }
    assert(prefix(a@, a@.len()) =~= a@);
    assert(prefix(b@, a@.len()) =~= b@);
    same_prefix(a, b, a.len())
}

impl CommonHeader {
    /// Whether two headers agree in every field.
    pub fn same_as(&self, other: &CommonHeader) -> (same: bool)
        ensures
            same == (*self == *other),
    {
        let same_signature = same_bytes(self.signature.as_slice(), other.signature.as_slice());
        proof {
            if self.signature@ == other.signature@ {
                assert forall|i: int| 0 <= i < 64 implies self.signature[i] == other.signature[i] by {
                    assert(self.signature@[i] == other.signature@[i]);
                }
                assert(self.signature =~= other.signature);
            }
        }
        same_signature && self.shred_variant == other.shred_variant && self.slot == other.slot
            && self.index == other.index && self.version == other.version && self.fec_set_index
            == other.fec_set_index
    }
}

/// How much of a coding shred's payload tells it apart from another: all of
/// it but the Merkle proof and, where it is there, the retransmitter's
/// signature. Shreds that are not Merkle coding shreds have no such part.
pub open spec fn comparison_len(variant: ShredVariant) -> Option<nat> {
    match variant {
        ShredVariant::MerkleCode { proof_size, chained: _, resigned } => {
            let excluded = proof_size * SIZE_OF_MERKLE_PROOF_ENTRY + if resigned {
                SIZE_OF_SIGNATURE as int
            } else {
                0
            };
            Some(
                if excluded <= SIZE_OF_CODE_PAYLOAD {
                    (SIZE_OF_CODE_PAYLOAD - excluded) as nat
                } else {
                    0
                },
            )
        },
        _ => None,
    }
}

/// Computes [`comparison_len`].
fn code_comparison_len(variant: ShredVariant) -> (len: Option<usize>)
    ensures
        match len {
            Some(n) => comparison_len(variant) == Some(n as nat),
            None => comparison_len(variant) is None,
        },
{
    match variant {
        ShredVariant::MerkleCode { proof_size, chained: _, resigned } => {
            let tail: usize = if resigned {
                SIZE_OF_SIGNATURE
            } else {
                0
            };
            let excluded: usize = proof_size as usize * SIZE_OF_MERKLE_PROOF_ENTRY + tail;
            Some(SIZE_OF_CODE_PAYLOAD.saturating_sub(excluded))
        },
        _ => None,
    }
}

/// The shreds `a` and `b` say the same: they agree in their headers and in
/// the bytes that carry data, whatever proof or retransmitter's signature
/// follows those. A shred without a well-formed data section, or a coding
/// shred that is not a Merkle shred, is the same as none, not even itself.
pub open spec fn same_shred(a: ShredView, b: ShredView) -> bool {
    match (a, b) {
        (ShredView::ShredCode(x), ShredView::ShredCode(y)) => {
            &&& comparison_len(x.common_header.shred_variant) matches Some(n)
            &&& x.coding_header == y.coding_header
            &&& x.common_header == y.common_header
            &&& prefix(x.payload, n) == prefix(y.payload, n)
        },
        (ShredView::ShredData(x), ShredView::ShredData(y)) => {
            &&& x.data is Some
            &&& x.data_header == y.data_header
            &&& x.common_header == y.common_header
            &&& x.data == y.data
        },
        _ => false,
    }
}

/// A shred compared by what it says; see [`same_shred`].
#[derive(Debug)]
pub struct ComparableShred(pub Shred);

impl Clone for ComparableShred {
    fn clone(&self) -> (copy: Self)
        ensures
            copy@ == self@,
    {
        ComparableShred(self.0.clone())
    }
}

impl std::ops::Deref for ComparableShred {
    type Target = Shred;

    fn deref(&self) -> (shred: &Shred)
        ensures
            *shred == self.0,
    {
        &self.0
    }
}

impl View for ComparableShred {
    type V = ShredView;

    open spec fn view(&self) -> ShredView {
        self.0@
    }
}

impl PartialEq for ComparableShred {
    fn eq(&self, other: &Self) -> (same: bool) {
        match (&self.0, &other.0) {
            (Shred::ShredCode(a), Shred::ShredCode(b)) => {
                match code_comparison_len(a.common_header.shred_variant) {
                    None => false,
                    Some(n) => a.coding_header == b.coding_header && a.common_header.same_as(
                        &b.common_header,
                    ) && same_prefix(a.payload.as_slice(), b.payload.as_slice(), n),
                }
            },
            (Shred::ShredData(a), Shred::ShredData(b)) => {
                match (&a.data, &b.data) {
                    (Some(x), Some(y)) => a.data_header == b.data_header
                        && a.common_header.same_as(&b.common_header) && same_bytes(
                        x.as_slice(),
                        y.as_slice(),
                    ),
                    _ => false,
                }
            },
            _ => false,
        }
    }
}

impl vstd::std_specs::cmp::PartialEqSpecImpl for ComparableShred {
    open spec fn obeys_eq_spec() -> bool {
        true
    }

    open spec fn eq_spec(&self, other: &Self) -> bool {
        same_shred(self@, other@)
    }
}

/// Sameness of shreds does not depend on which of the two is asked.
pub proof fn law_same_shred_symmetric(a: ShredView, b: ShredView)
    ensures
        same_shred(a, b) == same_shred(b, a),
{
}

/// Two shreds that are the same as a third are the same.
pub proof fn law_same_shred_transitive(a: ShredView, b: ShredView, c: ShredView)
    requires
        same_shred(a, b),
        same_shred(b, c),
    ensures
        same_shred(a, c),
{
}

/// A shred is the same as itself exactly when it can be compared at all: a
/// Merkle coding shred, or a data shred with a well-formed data section.
pub proof fn law_same_shred_reflexive(a: ShredView)
    ensures
        same_shred(a, a) <==> match a {
            ShredView::ShredCode(x) => x.common_header.shred_variant is MerkleCode,
            ShredView::ShredData(x) => x.data is Some,
        },
{
}

/// The Merkle proof and the retransmitter's signature of a coding shred do
/// not tell two copies of it apart.
pub proof fn law_same_code_shred_ignores_proof(a: ShredCodeView, payload: Seq<u8>, n: nat)
    requires
        comparison_len(a.common_header.shred_variant) == Some(n),
        prefix(payload, n) == prefix(a.payload, n),
    ensures
        same_shred(
            ShredView::ShredCode(a),
            ShredView::ShredCode((ShredCodeView { payload, ..a })),
        ),
{
}

} // verus!
