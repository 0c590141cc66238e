//! The data of a batch: call kinds, call descriptors, outcomes and results.
use vstd::prelude::*;

verus! {

/// How a call is made: in the target's own context, in the caller's storage
/// context, or under write protection.
#[derive(Clone, Copy, Debug, PartialEq, Eq, Structural)]
pub enum CallKind {
    Direct,
    Delegated,
    ReadOnly,
}

/// The discriminant that the encoding gives each kind.
pub open spec fn kind_code(k: CallKind) -> nat {
    match k {
        CallKind::Direct => 0,
        CallKind::Delegated => 1,
        CallKind::ReadOnly => 2,
    }
}

/// The kind with a given discriminant; codes past the last kind are refused
/// by the decoder before this is read.
pub open spec fn kind_of_code(n: nat) -> CallKind {
    if n == 0 {
        CallKind::Direct
    } else if n == 1 {
        CallKind::Delegated
    } else {
        CallKind::ReadOnly
    }
}

impl CallKind {
    /// The kind with discriminant `code`, if there is one.
    pub fn from_code(code: u64) -> (r: Option<CallKind>)
        ensures
            r is Some <==> code < 3,
            r matches Some(k) ==> k == kind_of_code(code as nat) && kind_code(k) == code,
    {
        if code == 0 {
            Some(CallKind::Direct)
        } else if code == 1 {
            Some(CallKind::Delegated)
        } else if code == 2 {
            Some(CallKind::ReadOnly)
        } else {
            None
        }
    }

    /// The discriminant of this kind.
    pub fn code(&self) -> (r: u64)
        ensures
            r as nat == kind_code(*self),
    {
        match self {
            CallKind::Direct => 0,
            CallKind::Delegated => 1,
            CallKind::ReadOnly => 2,
        }
    }
}

/// One entry of a batch. `target` is a 20-byte address; `value` and
/// `gas_limit` are 32-byte big-endian unsigned integers.
#[derive(Clone, Debug, PartialEq, Eq)]
pub struct CallDescriptor {
    pub kind: CallKind,
    pub target: Vec<u8>,
    pub payload: Vec<u8>,
    pub value: Vec<u8>,
    pub gas_limit: Vec<u8>,
}

/// The mathematical value of a descriptor.
pub ghost struct DescriptorView {
    pub kind: CallKind,
    pub target: Seq<u8>,
    pub payload: Seq<u8>,
    pub value: Seq<u8>,
    pub gas_limit: Seq<u8>,
}

impl DescriptorView {
    /// Fixed-size fields have their sizes.
    pub open spec fn wf(self) -> bool {
        &&& self.target.len() == 20
        &&& self.value.len() == 32
        &&& self.gas_limit.len() == 32
    }
}

impl View for CallDescriptor {
    type V = DescriptorView;

    open spec fn view(&self) -> DescriptorView {
        DescriptorView {
            kind: self.kind,
            target: self.target@,
            payload: self.payload@,
            value: self.value@,
            gas_limit: self.gas_limit@,
        }
    }
}

/// The views of a sequence of descriptors.
pub open spec fn batch_view(b: Seq<CallDescriptor>) -> Seq<DescriptorView> {
    b.map_values(|c: CallDescriptor| c@)
}

/// Every descriptor of a batch is well formed.
pub open spec fn batch_wf(b: Seq<DescriptorView>) -> bool {
    forall|i: int| 0 <= i < b.len() ==> #[trigger] b[i].wf()
}

/// The views of a sequence of byte vectors.
pub open spec fn bytes_view(v: Seq<Vec<u8>>) -> Seq<Seq<u8>> {
    v.map_values(|b: Vec<u8>| b@)
}

/// What one host call gave back: its return data, or its raw failure data.
#[derive(Clone, Debug, PartialEq, Eq)]
pub enum CallOutcome {
    Success(Vec<u8>),
    Failure(Vec<u8>),
}

/// The mathematical value of an outcome.
pub ghost enum OutcomeView {
    Success(Seq<u8>),
    Failure(Seq<u8>),
}

impl View for CallOutcome {
    type V = OutcomeView;

    open spec fn view(&self) -> OutcomeView {
        match self {
            CallOutcome::Success(b) => OutcomeView::Success(b@),
            CallOutcome::Failure(b) => OutcomeView::Failure(b@),
        }
    }
}

/// What a batch gave back: every result in order, or the first failure's data.
#[derive(Clone, Debug, PartialEq, Eq)]
pub enum BatchResult {
    AllSucceeded(Vec<Vec<u8>>),
    Aborted(Vec<u8>),
}

/// The mathematical value of a batch result.
pub ghost enum BatchResultView {
    AllSucceeded(Seq<Seq<u8>>),
    Aborted(Seq<u8>),
}

impl View for BatchResult {
    type V = BatchResultView;

    open spec fn view(&self) -> BatchResultView {
        match self {
            BatchResult::AllSucceeded(v) => BatchResultView::AllSucceeded(bytes_view(v@)),
            BatchResult::Aborted(b) => BatchResultView::Aborted(b@),
        }
    }
}

} // verus!
