//! The call dispatcher: from one call descriptor to the host call that runs it.
use vstd::prelude::*;
use crate::call::{CallDescriptor, CallKind, DescriptorView};
use crate::word::{be, lemma_be_nonzero, lemma_be_zero, read_u64, two_pow_64};

verus! {

/// The host's call modes.
#[derive(Clone, Copy, Debug, PartialEq, Eq, Structural)]
pub enum CallMode {
    /// A call in the target's own storage and value context.
    Normal,
    /// The target's code run in the caller's storage and value context; it
    /// carries no value.
    Delegated,
    /// A call under write protection; it carries no value.
    ReadOnly,
}

/// One call for the host to make. `value` is `None` when no value moves;
/// `gas` is `None` when the callee gets all the gas that is left.
#[derive(Clone, Debug, PartialEq, Eq)]
pub struct HostCall {
    pub mode: CallMode,
    pub target: Vec<u8>,
    pub data: Vec<u8>,
    pub value: Option<Vec<u8>>,
    pub gas: Option<u64>,
}

/// The mathematical value of a host call.
pub ghost struct HostCallView {
    pub mode: CallMode,
    pub target: Seq<u8>,
    pub data: Seq<u8>,
    pub value: Option<Seq<u8>>,
    pub gas: Option<u64>,
}

impl View for HostCall {
    type V = HostCallView;

    open spec fn view(&self) -> HostCallView {
        HostCallView {
            mode: self.mode,
            target: self.target@,
            data: self.data@,
            value: match self.value {
                Some(v) => Some(v@),
                None => None,
            },
            gas: self.gas,
        }
    }
}

/// The host mode of each call kind.
pub open spec fn mode_of(k: CallKind) -> CallMode {
    match k {
        CallKind::Direct => CallMode::Normal,
        CallKind::Delegated => CallMode::Delegated,
        CallKind::ReadOnly => CallMode::ReadOnly,
    }
}

/// The value to send: only a direct call sends value, and a zero value is no
/// transfer at all.
pub open spec fn value_spec(c: DescriptorView) -> Option<Seq<u8>> {
    if c.kind == CallKind::Direct && be(c.value) != 0 {
        Some(c.value)
    } else {
        None
    }
}

/// The gas budget: zero means all the gas that is left; a limit past what the
/// host can count is held at the largest budget it can.
pub open spec fn gas_spec(gas_limit: Seq<u8>) -> Option<u64> {
    if be(gas_limit) == 0 {
        None
    } else if be(gas_limit) < two_pow_64() {
        Some(be(gas_limit) as u64)
    } else {
        Some(u64::MAX)
    }
}

/// The host call that runs descriptor `c`.
pub open spec fn plan_spec(c: DescriptorView) -> HostCallView {
    HostCallView {
        mode: mode_of(c.kind),
        target: c.target,
        data: c.payload,
        value: value_spec(c),
        gas: gas_spec(c.gas_limit),
    }
}

/// Whether every byte of `b` is zero, which is whether its value is zero.
pub fn is_zero(b: &[u8]) -> (r: bool)
    ensures
        r <==> be(b@) == 0,
{
    let mut i: usize = 0;
    while i < b.len()
        invariant
            i <= b@.len(),
            forall|j: int| 0 <= j < i ==> b@[j] == 0,
        decreases b@.len() - i,
    {
        if b[i] != 0 {
            proof {
                lemma_be_nonzero(b@, i as int);
            }
            return false;
        }
        i = i + 1;
    }
    proof {
        lemma_be_zero(b@);
    }
    true
}

/// The gas budget of a 32-byte gas limit.
pub fn gas_budget(gas_limit: &[u8]) -> (r: Option<u64>)
    requires
        gas_limit@.len() == 32,
    ensures
        r == gas_spec(gas_limit@),
{
    assert(gas_limit@.subrange(0, 32) =~= gas_limit@);
    match read_u64(gas_limit, 0) {
        Some(v) => {
            if v == 0 {
                None
            } else {
                Some(v)
            }
        },
        None => {
            proof {
                crate::word::lemma_pow256_positive(8);
            }
            Some(u64::MAX)
        },
    }
}

/// Chooses the host call for one descriptor: the mode follows the kind and is
/// never weakened, only a direct call with a nonzero value sends value, and a
/// zero gas limit forwards all the gas that is left.
pub fn plan_call(c: &CallDescriptor) -> (r: HostCall)
    requires
        c@.wf(),
    ensures
        r@ == plan_spec(c@),
        c.kind == CallKind::Delegated ==> r.mode == CallMode::Delegated && r.value is None,
        c.kind == CallKind::ReadOnly ==> r.mode == CallMode::ReadOnly && r.value is None,
        be(c.value@) == 0 ==> r.value is None,
        be(c.gas_limit@) == 0 ==> r.gas is None,
{
    let mode = match c.kind {
        CallKind::Direct => CallMode::Normal,
        CallKind::Delegated => CallMode::Delegated,
        CallKind::ReadOnly => CallMode::ReadOnly,
    };
    let value = match c.kind {
        CallKind::Direct => {
            if is_zero(c.value.as_slice()) {
                None
            } else {
                Some(c.value.clone())
            }
        },
        _ => None,
    };
    let gas = gas_budget(c.gas_limit.as_slice());
    HostCall { mode, target: c.target.clone(), data: c.payload.clone(), value, gas }
}

} // verus!
