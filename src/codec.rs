//! The batch codec: the structured binary ABI of `multicall(Call[])` and of
//! its `bytes[]` return value.
//!
//! An encoding is a sequence of 32-byte words. A dynamic value (a `bytes`, an
//! array, a tuple that holds a `bytes`) stands elsewhere and its place holds an
//! offset to it, counted from the start of the enclosing tuple or array body.
use vstd::prelude::*;
use vstd::slice::{slice_subrange, slice_to_vec};
use crate::call::{
    batch_view, batch_wf, bytes_view, kind_code, kind_of_code, CallDescriptor, CallKind, DescriptorView,
};
use crate::word::{
    be, lemma_be_bytes_of, lemma_bytes_of_len, lemma_pow256_values, lemma_pow_mono, push_word,
    read_u64, two_pow_64, word_at, word_of, WORD,
};

verus! {

/// Why an input could not be read as a batch.
#[derive(Clone, Copy, Debug, PartialEq, Eq, Structural)]
pub enum DecodeError {
    /// The input does not start with the function's selector.
    WrongSelector,
    /// The input is truncated, an offset or length runs past its end, an
    /// address has high bytes set, or a call kind is out of range.
    Malformed,
}

// ---------------------------------------------------------------- reading

/// A `bytes` value whose length word is at `o` lies inside `p`.
pub open spec fn bytes_ok(p: Seq<u8>, o: int) -> bool {
    &&& 0 <= o
    &&& o + 32 <= p.len()
    &&& o + 32 + word_at(p, o) <= p.len()
}

/// The `bytes` value whose length word is at `o`.
pub open spec fn bytes_at(p: Seq<u8>, o: int) -> Seq<u8> {
    p.subrange(o + 32, o + 32 + word_at(p, o))
}

/// Where the body of the array that `p` holds starts (after its length word).
pub open spec fn array_base(p: Seq<u8>) -> int {
    word_at(p, 0) as int + 32
}

/// The number of elements of the array that `p` holds.
pub open spec fn array_len(p: Seq<u8>) -> nat {
    word_at(p, word_at(p, 0) as int)
}

/// The head of the array that `p` holds, one offset word per element, lies
/// inside `p`.
pub open spec fn array_ok(p: Seq<u8>) -> bool {
    &&& 32 <= p.len()
    &&& array_base(p) <= p.len()
    &&& array_base(p) + 32 * array_len(p) <= p.len()
}

/// Where element `i` of an array body that starts at `base` starts.
pub open spec fn elem_start(p: Seq<u8>, base: int, i: int) -> int {
    base + word_at(p, base + 32 * i)
}

/// The address word at `o` has its twelve high bytes zero.
pub open spec fn address_ok(p: Seq<u8>, o: int) -> bool {
    forall|j: int| 0 <= j < 12 ==> #[trigger] p[o + j] == 0
}

/// A call tuple that starts at `o` lies inside `p` and is valid.
pub open spec fn entry_ok(p: Seq<u8>, o: int) -> bool {
    &&& 0 <= o
    &&& o + 160 <= p.len()
    &&& word_at(p, o) < 3
    &&& address_ok(p, o + 32)
    &&& bytes_ok(p, o + word_at(p, o + 64))
}

/// The call tuple that starts at `o`.
pub open spec fn entry_at(p: Seq<u8>, o: int) -> DescriptorView {
    DescriptorView {
        kind: kind_of_code(word_at(p, o)),
        target: p.subrange(o + 44, o + 64),
        payload: bytes_at(p, o + word_at(p, o + 64)),
        value: p.subrange(o + 96, o + 128),
        gas_limit: p.subrange(o + 128, o + 160),
    }
}

/// The calls that the parameters `p` of `multicall(Call[])` hold.
pub open spec fn decode_batch_spec(p: Seq<u8>) -> Option<Seq<DescriptorView>> {
    if array_ok(p) && forall|i: int|
        0 <= i < array_len(p) ==> #[trigger] entry_ok(p, elem_start(p, array_base(p), i)) {
        Some(Seq::new(array_len(p), |i: int| entry_at(p, elem_start(p, array_base(p), i))))
    } else {
        None
    }
}

/// The byte strings that a `bytes[]` return value `p` holds.
pub open spec fn decode_results_spec(p: Seq<u8>) -> Option<Seq<Seq<u8>>> {
    if array_ok(p) && forall|i: int|
        0 <= i < array_len(p) ==> #[trigger] bytes_ok(p, elem_start(p, array_base(p), i)) {
        Some(Seq::new(array_len(p), |i: int| bytes_at(p, elem_start(p, array_base(p), i))))
    } else {
        None
    }
}

/// The calls that a call input holds: `selector` followed by the parameters.
pub open spec fn decode_input_spec(s: Seq<u8>, selector: Seq<u8>) -> Result<
    Seq<DescriptorView>,
    DecodeError,
> {
    if s.len() < 4 || s.subrange(0, 4) != selector {
        Err(DecodeError::WrongSelector)
    } else {
        match decode_batch_spec(s.subrange(4, s.len() as int)) {
            Some(b) => Ok(b),
            None => Err(DecodeError::Malformed),
        }
    }
}

/// Reads an offset or length word at `pos` whose value must not pass the
/// length of `p`.
fn read_bounded(p: &[u8], pos: usize) -> (r: Option<usize>)
    requires
        pos + 32 <= p@.len(),
    ensures
        r is Some <==> word_at(p@, pos as int) <= p@.len(),
        r matches Some(v) ==> v as nat == word_at(p@, pos as int),
{
    let len = p.len();
    match read_u64(p, pos) {
        None => {
            assert(len as nat <= usize::MAX as nat);
            assert(two_pow_64() == 0x1_0000_0000_0000_0000) by {
                crate::word::lemma_pow256_values();
            }
            None
        },
        Some(v) => {
            if v <= len as u64 {
                Some(v as usize)
            } else {
                None
            }
        },
    }
}

/// Reads where the array body starts and how many elements it has.
fn array_header(p: &[u8]) -> (r: Option<(usize, usize)>)
    ensures
        r is Some <==> array_ok(p@),
        r matches Some((base, n)) ==> base == array_base(p@) && n == array_len(p@),
{
    let len = p.len();
    if len < WORD {
        return None;
    }
    let a = match read_bounded(p, 0) {
        Some(a) => a,
        None => return None,
    };
    if len - a < WORD {
        return None;
    }
    let n = match read_bounded(p, a) {
        Some(n) => n,
        None => {
            assert(!(array_base(p@) + 32 * array_len(p@) <= p@.len()));
            return None;
        },
    };
    let base = a + WORD;
    let room = len - base;
    if n > room / WORD {
        assert(32 * n > room) by (nonlinear_arith)
            requires
                n > room / 32,
        ;
        return None;
    }
    assert(32 * n <= room) by (nonlinear_arith)
        requires
            n <= room / 32,
    ;
    Some((base, n))
}

/// Reads where element `i` of the array body at `base` starts.
fn element_start(p: &[u8], base: usize, n: usize, i: usize) -> (r: Option<usize>)
    requires
        base + 32 * n <= p@.len(),
        i < n,
    ensures
        r is Some <==> elem_start(p@, base as int, i as int) <= p@.len(),
        r matches Some(o) ==> o as int == elem_start(p@, base as int, i as int),
{
    let len = p.len();
    assert(32 * i + 32 <= 32 * n) by (nonlinear_arith)
        requires
            i < n,
    ;
    let pos = base + WORD * i;
    match read_bounded(p, pos) {
        Some(off) => {
            if off > len - base {
                None
            } else {
                Some(base + off)
            }
        },
        None => None,
    }
}

/// Reads the `bytes` value whose length word is at `o`.
fn read_bytes(p: &[u8], o: usize) -> (r: Option<Vec<u8>>)
    ensures
        r is Some <==> bytes_ok(p@, o as int),
        r matches Some(b) ==> b@ == bytes_at(p@, o as int),
{
    let len = p.len();
    if o > len || len - o < WORD {
        return None;
    }
    match read_bounded(p, o) {
        Some(l) => {
            if l > len - o - WORD {
                None
            } else {
                let start = o + WORD;
                Some(slice_to_vec(slice_subrange(p, start, start + l)))
            }
        },
        None => None,
    }
}

/// Reads the call tuple that starts at `o`.
fn read_entry(p: &[u8], o: usize) -> (r: Option<CallDescriptor>)
    ensures
        r is Some <==> entry_ok(p@, o as int),
        r matches Some(c) ==> c@ == entry_at(p@, o as int) && c@.wf(),
{
    let len = p.len();
    if o > len || len - o < 5 * WORD {
        return None;
    }
    let kind = match read_u64(p, o) {
        Some(code) => match CallKind::from_code(code) {
            Some(k) => k,
            None => return None,
        },
        None => {
            assert(two_pow_64() >= 3) by {
                crate::word::lemma_pow256_values();
            }
            return None;
        },
    };
    let mut j: usize = 0;
    while j < 12
        invariant
            j <= 12,
            len == p@.len(),
            o + 160 <= len,
            forall|k: int| 0 <= k < j ==> #[trigger] p@[o + 32 + k] == 0,
        decreases 12 - j,
    {
        if p[o + WORD + j] != 0 {
            assert(!address_ok(p@, o + 32));
            return None;
        }
        j = j + 1;
    }
    let d = match read_bounded(p, o + 2 * WORD) {
        Some(d) => d,
        None => return None,
    };
    if d > len - o {
        return None;
    }
    let payload = match read_bytes(p, o + d) {
        Some(b) => b,
        None => return None,
    };
    let target = slice_to_vec(slice_subrange(p, o + 44, o + 2 * WORD));
    let value = slice_to_vec(slice_subrange(p, o + 3 * WORD, o + 4 * WORD));
    let gas_limit = slice_to_vec(slice_subrange(p, o + 4 * WORD, o + 5 * WORD));
    Some(CallDescriptor { kind, target, payload, value, gas_limit })
}

/// Decodes the parameters of `multicall(Call[])` (the input after the
/// selector) into its calls.
pub fn decode_calls(params: &[u8]) -> (r: Option<Vec<CallDescriptor>>)
    ensures
        r is Some <==> decode_batch_spec(params@) is Some,
        r matches Some(v) ==> decode_batch_spec(params@) == Some(batch_view(v@)),
        r matches Some(v) ==> batch_wf(batch_view(v@)),
{
    let p = params;
    let (base, n) = match array_header(p) {
        Some(h) => h,
        None => return None,
    };
    let mut out: Vec<CallDescriptor> = Vec::new();
    let mut i: usize = 0;
    while i < n
        invariant
            i <= n,
            p@ == params@,
            base == array_base(p@),
            n == array_len(p@),
            array_ok(p@),
            out@.len() == i,
            forall|j: int| 0 <= j < i ==> #[trigger] entry_ok(p@, elem_start(p@, base as int, j)),
            forall|j: int|
                0 <= j < i ==> #[trigger] out@[j]@ == entry_at(p@, elem_start(p@, base as int, j)),
            forall|j: int| 0 <= j < i ==> #[trigger] out@[j]@.wf(),
        decreases n - i,
    {
        let o = match element_start(p, base, n, i) {
            Some(o) => o,
            None => {
                assert(!entry_ok(p@, elem_start(p@, array_base(p@), i as int)));
                assert(!(forall|j: int|
                    0 <= j < array_len(p@) ==> #[trigger] entry_ok(
                        p@,
                        elem_start(p@, array_base(p@), j),
                    )));
                return None;
            },
        };
        let c = match read_entry(p, o) {
            Some(c) => c,
            None => {
                assert(!entry_ok(p@, elem_start(p@, array_base(p@), i as int)));
                assert(!(forall|j: int|
                    0 <= j < array_len(p@) ==> #[trigger] entry_ok(
                        p@,
                        elem_start(p@, array_base(p@), j),
                    )));
                return None;
            },
        };
        out.push(c);
        i = i + 1;
    }
    assert(batch_view(out@) =~= Seq::new(
        array_len(p@),
        |j: int| entry_at(p@, elem_start(p@, array_base(p@), j)),
    ));
    Some(out)
}

/// Decodes a `bytes[]` return value into its byte strings.
pub fn decode_results(output: &[u8]) -> (r: Option<Vec<Vec<u8>>>)
    ensures
        r is Some <==> decode_results_spec(output@) is Some,
        r matches Some(v) ==> decode_results_spec(output@) == Some(bytes_view(v@)),
{
    let p = output;
    let (base, n) = match array_header(p) {
        Some(h) => h,
        None => return None,
    };
    let mut out: Vec<Vec<u8>> = Vec::new();
    let mut i: usize = 0;
    while i < n
        invariant
            i <= n,
            p@ == output@,
            base == array_base(p@),
            n == array_len(p@),
            array_ok(p@),
            out@.len() == i,
            forall|j: int| 0 <= j < i ==> #[trigger] bytes_ok(p@, elem_start(p@, base as int, j)),
            forall|j: int|
                0 <= j < i ==> #[trigger] out@[j]@ == bytes_at(p@, elem_start(p@, base as int, j)),
        decreases n - i,
    {
        let o = match element_start(p, base, n, i) {
            Some(o) => o,
            None => {
                assert(!bytes_ok(p@, elem_start(p@, array_base(p@), i as int)));
                assert(!(forall|j: int|
                    0 <= j < array_len(p@) ==> #[trigger] bytes_ok(
                        p@,
                        elem_start(p@, array_base(p@), j),
                    )));
                return None;
            },
        };
        let b = match read_bytes(p, o) {
            Some(b) => b,
            None => {
                assert(!bytes_ok(p@, elem_start(p@, array_base(p@), i as int)));
                assert(!(forall|j: int|
                    0 <= j < array_len(p@) ==> #[trigger] bytes_ok(
                        p@,
                        elem_start(p@, array_base(p@), j),
                    )));
                return None;
            },
        };
        out.push(b);
        i = i + 1;
    }
    assert(bytes_view(out@) =~= Seq::new(
        array_len(p@),
        |j: int| bytes_at(p@, elem_start(p@, array_base(p@), j)),
    ));
    Some(out)
}

/// Decodes a call input: the four-byte `selector` and then the parameters of
/// `multicall(Call[])`.
pub fn decode_input(input: &[u8], selector: &[u8]) -> (r: Result<Vec<CallDescriptor>, DecodeError>)
    requires
        selector@.len() == 4,
    ensures
        r matches Ok(v) ==> decode_input_spec(input@, selector@) == Ok::<
            Seq<DescriptorView>,
            DecodeError,
        >(batch_view(v@)),
        r matches Ok(v) ==> batch_wf(batch_view(v@)),
        r matches Err(e) ==> decode_input_spec(input@, selector@) == Err::<
            Seq<DescriptorView>,
            DecodeError,
        >(e),
{
    if input.len() < 4 {
        return Err(DecodeError::WrongSelector);
    }
    let mut k: usize = 0;
    while k < 4
        invariant
            k <= 4,
            input@.len() >= 4,
            selector@.len() == 4,
            forall|j: int| 0 <= j < k ==> input@[j] == selector@[j],
        decreases 4 - k,
    {
        if input[k] != selector[k] {
            assert(input@.subrange(0, 4)[k as int] != selector@[k as int]);
            return Err(DecodeError::WrongSelector);
        }
        k = k + 1;
    }
    assert(input@.subrange(0, 4) =~= selector@);
    let params = slice_subrange(input, 4, input.len());
    match decode_calls(params) {
        Some(v) => Ok(v),
        None => Err(DecodeError::Malformed),
    }
}

// ---------------------------------------------------------------- writing

/// `k` zero bytes.
pub open spec fn zeros(k: nat) -> Seq<u8> {
    Seq::new(k, |i: int| 0u8)
}

/// How many zero bytes follow a `bytes` value of length `l`.
pub open spec fn pad_len(l: nat) -> nat {
    ((32 - l % 32) % 32) as nat
}

/// A `bytes` value: its length word, its bytes, then zeros up to a word.
pub open spec fn enc_bytes(b: Seq<u8>) -> Seq<u8> {
    word_of(b.len()) + b + zeros(pad_len(b.len()))
}

/// A call tuple: kind, address, offset of the payload, value, gas limit, then
/// the payload.
pub open spec fn enc_entry(c: DescriptorView) -> Seq<u8> {
    word_of(kind_code(c.kind)) + zeros(12) + c.target + word_of(160) + c.value + c.gas_limit
        + enc_bytes(c.payload)
}

/// The parts, one after another.
pub open spec fn concat(parts: Seq<Seq<u8>>) -> Seq<u8>
    decreases parts.len(),
{
    if parts.len() == 0 {
        Seq::empty()
    } else {
        concat(parts.drop_last()) + parts.last()
    }
}

/// The offset words of the first `i` parts of an array body of `parts`.
pub open spec fn heads(parts: Seq<Seq<u8>>, i: nat) -> Seq<u8>
    decreases i,
{
    if i == 0 {
        Seq::empty()
    } else {
        heads(parts, (i - 1) as nat) + word_of(
            32 * parts.len() + concat(parts.take(i - 1)).len(),
        )
    }
}

/// A one-element tuple holding an array of dynamic elements whose encodings
/// are `parts`.
pub open spec fn enc_array(parts: Seq<Seq<u8>>) -> Seq<u8> {
    word_of(32) + word_of(parts.len()) + heads(parts, parts.len()) + concat(parts)
}

/// The `bytes[]` return value that holds `r`.
pub open spec fn encode_results_spec(r: Seq<Seq<u8>>) -> Seq<u8> {
    enc_array(Seq::new(r.len(), |i: int| enc_bytes(r[i])))
}

/// The parameters of `multicall(Call[])` that hold `b`.
pub open spec fn encode_batch_spec(b: Seq<DescriptorView>) -> Seq<u8> {
    enc_array(Seq::new(b.len(), |i: int| enc_entry(b[i])))
}

/// The call input that holds `b`.
pub open spec fn encode_input_spec(selector: Seq<u8>, b: Seq<DescriptorView>) -> Seq<u8> {
    selector + encode_batch_spec(b)
}

pub proof fn lemma_concat_take(parts: Seq<Seq<u8>>, i: int)
    requires
        0 <= i < parts.len(),
    ensures
        concat(parts.take(i + 1)) == concat(parts.take(i)) + parts[i],
{
    assert(parts.take(i + 1).drop_last() =~= parts.take(i));
}

pub proof fn lemma_concat_prefix_len(parts: Seq<Seq<u8>>, i: int)
    requires
        0 <= i <= parts.len(),
    ensures
        concat(parts.take(i)).len() <= concat(parts).len(),
        i < parts.len() ==> concat(parts.take(i)).len() + parts[i].len() <= concat(parts).len(),
    decreases parts.len() - i,
{
    if i < parts.len() {
        lemma_concat_take(parts, i);
        lemma_concat_prefix_len(parts, i + 1);
    } else {
        assert(parts.take(i) =~= parts);
    }
}

proof fn lemma_heads_len(parts: Seq<Seq<u8>>, i: nat)
    ensures
        heads(parts, i).len() == 32 * i,
    decreases i,
{
    if i > 0 {
        lemma_heads_len(parts, (i - 1) as nat);
        lemma_bytes_of_len(
            32 * parts.len() + concat(parts.take(i - 1)).len(),
            32,
        );
    }
}

/// Appends the bytes of `b`.
fn append_bytes(out: &mut Vec<u8>, b: &[u8])
    ensures
        final(out)@ == old(out)@ + b@,
{
    let mut i: usize = 0;
    while i < b.len()
        invariant
            i <= b@.len(),
            out@ == old(out)@ + b@.take(i as int),
        decreases b@.len() - i,
    {
        out.push(b[i]);
        i = i + 1;
        assert(out@ =~= old(out)@ + b@.take(i as int));
    }
    assert(b@.take(i as int) =~= b@);
}

/// Appends `k` zero bytes.
fn append_zeros(out: &mut Vec<u8>, k: usize)
    ensures
        final(out)@ == old(out)@ + zeros(k as nat),
{
    let mut i: usize = 0;
    while i < k
        invariant
            i <= k,
            out@ == old(out)@ + zeros(i as nat),
        decreases k - i,
    {
        out.push(0);
        i = i + 1;
        assert(out@ =~= old(out)@ + zeros(i as nat));
    }
}

/// Encodes one `bytes` value; `None` when the encoding would not fit in memory.
fn encode_bytes(b: &[u8]) -> (r: Option<Vec<u8>>)
    ensures
        r is None <==> enc_bytes(b@).len() > usize::MAX,
        r matches Some(v) ==> v@ == enc_bytes(b@),
{
    let l = b.len();
    let pad = (32 - l % 32) % 32;
    proof {
        lemma_bytes_of_len(l as nat, 32);
    }
    if l > usize::MAX - WORD || pad > usize::MAX - WORD - l {
        return None;
    }
    let mut out: Vec<u8> = Vec::new();
    push_word(&mut out, l as u64);
    append_bytes(&mut out, b);
    append_zeros(&mut out, pad);
    proof {
        assert(out@ =~= enc_bytes(b@));
    }
    Some(out)
}

/// Encodes one call tuple; `None` when the encoding would not fit in memory.
fn encode_entry(c: &CallDescriptor) -> (r: Option<Vec<u8>>)
    requires
        c@.wf(),
    ensures
        r is None <==> enc_entry(c@).len() > usize::MAX,
        r matches Some(v) ==> v@ == enc_entry(c@),
{
    proof {
        lemma_bytes_of_len(kind_code(c.kind), 32);
        lemma_bytes_of_len(160, 32);
    }
    let tail = match encode_bytes(c.payload.as_slice()) {
        Some(t) => t,
        None => return None,
    };
    if tail.len() > usize::MAX - 5 * WORD {
        return None;
    }
    let mut out: Vec<u8> = Vec::new();
    push_word(&mut out, c.kind.code());
    append_zeros(&mut out, 12);
    append_bytes(&mut out, c.target.as_slice());
    push_word(&mut out, 160);
    append_bytes(&mut out, c.value.as_slice());
    append_bytes(&mut out, c.gas_limit.as_slice());
    append_bytes(&mut out, tail.as_slice());
    proof {
        assert(out@ =~= enc_entry(c@));
    }
    Some(out)
}

/// Encodes an array whose element encodings are `parts`, as a one-element
/// tuple; `None` when the encoding would not fit in memory.
fn encode_array(parts: &Vec<Vec<u8>>) -> (r: Option<Vec<u8>>)
    ensures
        r is None <==> enc_array(bytes_view(parts@)).len() > usize::MAX,
        r matches Some(v) ==> v@ == enc_array(bytes_view(parts@)),
{
    let ghost ps = bytes_view(parts@);
    let n = parts.len();
    proof {
        lemma_bytes_of_len(32, 32);
        lemma_bytes_of_len(n as nat, 32);
        lemma_heads_len(ps, n as nat);
    }
    if n > (usize::MAX - 2 * WORD) / WORD {
        assert(32 * n > usize::MAX - 64) by (nonlinear_arith)
            requires
                n > (usize::MAX - 64) / 32,
        ;
        return None;
    }
    assert(32 * n <= usize::MAX - 64) by (nonlinear_arith)
        requires
            n <= (usize::MAX - 64) / 32,
    ;
    let head = 2 * WORD + WORD * n;
    let mut total: usize = head;
    let mut i: usize = 0;
    while i < n
        invariant
            i <= n,
            n == parts@.len(),
            ps == bytes_view(parts@),
            head == 64 + 32 * n,
            total == head + concat(ps.take(i as int)).len(),
        decreases n - i,
    {
        proof {
            lemma_concat_take(ps, i as int);
        }
        if parts[i].len() > usize::MAX - total {
            proof {
                lemma_concat_prefix_len(ps, i as int);
                lemma_bytes_of_len(32, 32);
                lemma_bytes_of_len(n as nat, 32);
                lemma_heads_len(ps, n as nat);
                assert(parts@[i as int]@ == ps[i as int]);
            }
            return None;
        }
        total = total + parts[i].len();
        i = i + 1;
    }
    assert(ps.take(n as int) =~= ps);
    let mut out: Vec<u8> = Vec::new();
    push_word(&mut out, 32);
    push_word(&mut out, n as u64);
    let mut start: usize = 0;
    let mut i: usize = 0;
    while i < n
        invariant
            i <= n,
            n == parts@.len(),
            ps == bytes_view(parts@),
            total == 64 + 32 * n + concat(ps).len(),
            total <= usize::MAX,
            start == concat(ps.take(i as int)).len(),
            out@ == word_of(32) + word_of(n as nat) + heads(ps, i as nat),
        decreases n - i,
    {
        proof {
            lemma_concat_take(ps, i as int);
            lemma_concat_prefix_len(ps, i as int);
        }
        push_word(&mut out, (WORD * n + start) as u64);
        start = start + parts[i].len();
        i = i + 1;
    }
    let mut i: usize = 0;
    while i < n
        invariant
            i <= n,
            n == parts@.len(),
            ps == bytes_view(parts@),
            out@ == word_of(32) + word_of(n as nat) + heads(ps, n as nat) + concat(
                ps.take(i as int),
            ),
        decreases n - i,
    {
        proof {
            lemma_concat_take(ps, i as int);
        }
        append_bytes(&mut out, parts[i].as_slice());
        i = i + 1;
        assert(out@ =~= word_of(32) + word_of(n as nat) + heads(ps, n as nat) + concat(
            ps.take(i as int),
        ));
    }
    assert(ps.take(n as int) =~= ps);
    Some(out)
}

proof fn lemma_enc_array_len(ps: Seq<Seq<u8>>)
    ensures
        enc_array(ps).len() == 64 + 32 * ps.len() + concat(ps).len(),
        forall|i: int| 0 <= i < ps.len() ==> #[trigger] ps[i].len() <= enc_array(ps).len(),
{
    lemma_bytes_of_len(32, 32);
    lemma_bytes_of_len(ps.len(), 32);
    lemma_heads_len(ps, ps.len());
    assert forall|i: int| 0 <= i < ps.len() implies #[trigger] ps[i].len() <= enc_array(ps).len() by {
        lemma_concat_prefix_len(ps, i);
    }
}

/// Encodes `results` as a `bytes[]` return value; `None` when the encoding
/// would not fit in memory.
pub fn encode_results(results: &Vec<Vec<u8>>) -> (r: Option<Vec<u8>>)
    ensures
        r is None <==> encode_results_spec(bytes_view(results@)).len() > usize::MAX,
        r matches Some(v) ==> v@ == encode_results_spec(bytes_view(results@)),
{
    let ghost rs = bytes_view(results@);
    let ghost ps = Seq::new(rs.len(), |i: int| enc_bytes(rs[i]));
    let mut parts: Vec<Vec<u8>> = Vec::new();
    let mut i: usize = 0;
    while i < results.len()
        invariant
            i <= results@.len(),
            rs == bytes_view(results@),
            ps == Seq::new(rs.len(), |i: int| enc_bytes(rs[i])),
            parts@.len() == i,
            forall|j: int| 0 <= j < i ==> #[trigger] parts@[j]@ == ps[j],
        decreases results@.len() - i,
    {
        match encode_bytes(results[i].as_slice()) {
            Some(e) => parts.push(e),
            None => {
                proof {
                    lemma_enc_array_len(ps);
                    assert(ps[i as int].len() <= enc_array(ps).len());
                }
                return None;
            },
        }
        i = i + 1;
    }
    assert(bytes_view(parts@) =~= ps);
    encode_array(&parts)
}

/// Encodes `calls` as the parameters of `multicall(Call[])`; `None` when the
/// encoding would not fit in memory.
pub fn encode_calls(calls: &Vec<CallDescriptor>) -> (r: Option<Vec<u8>>)
    requires
        batch_wf(batch_view(calls@)),
    ensures
        r is None <==> encode_batch_spec(batch_view(calls@)).len() > usize::MAX,
        r matches Some(v) ==> v@ == encode_batch_spec(batch_view(calls@)),
{
    let ghost bs = batch_view(calls@);
    let ghost ps = Seq::new(bs.len(), |i: int| enc_entry(bs[i]));
    let mut parts: Vec<Vec<u8>> = Vec::new();
    let mut i: usize = 0;
    while i < calls.len()
        invariant
            i <= calls@.len(),
            bs == batch_view(calls@),
            batch_wf(bs),
            ps == Seq::new(bs.len(), |i: int| enc_entry(bs[i])),
            parts@.len() == i,
            forall|j: int| 0 <= j < i ==> #[trigger] parts@[j]@ == ps[j],
        decreases calls@.len() - i,
    {
        assert(bs[i as int].wf());
        match encode_entry(&calls[i]) {
            Some(e) => parts.push(e),
            None => {
                proof {
                    lemma_enc_array_len(ps);
                    assert(ps[i as int].len() <= enc_array(ps).len());
                }
                return None;
            },
        }
        i = i + 1;
    }
    assert(bytes_view(parts@) =~= ps);
    encode_array(&parts)
}

/// Encodes `calls` as a call input that starts with `selector`; `None` when
/// the encoding would not fit in memory.
pub fn encode_input(selector: &[u8], calls: &Vec<CallDescriptor>) -> (r: Option<Vec<u8>>)
    requires
        batch_wf(batch_view(calls@)),
    ensures
        r is None <==> encode_input_spec(selector@, batch_view(calls@)).len() > usize::MAX,
        r matches Some(v) ==> v@ == encode_input_spec(selector@, batch_view(calls@)),
{
    let params = match encode_calls(calls) {
        Some(p) => p,
        None => return None,
    };
    if params.len() > usize::MAX - selector.len() {
        return None;
    }
    let mut out: Vec<u8> = Vec::new();
    append_bytes(&mut out, selector);
    append_bytes(&mut out, params.as_slice());
    assert(out@ =~= encode_input_spec(selector@, batch_view(calls@)));
    Some(out)
}

// ---------------------------------------------------------------- round trip

proof fn lemma_word_of_read(v: nat)
    requires
        v < two_pow_64(),
    ensures
        be(word_of(v)) == v,
        word_of(v).len() == 32,
{
    lemma_pow_mono(8, 32);
    lemma_be_bytes_of(v, 32);
}

/// A slice of `x`, where `x` stands at `e` in `p`, is the same slice of `p`.
proof fn lemma_sub(p: Seq<u8>, x: Seq<u8>, e: int, k: int, l: int)
    requires
        0 <= e,
        e + x.len() <= p.len(),
        p.subrange(e, e + x.len()) == x,
        0 <= k <= l <= x.len(),
    ensures
        p.subrange(e + k, e + l) == x.subrange(k, l),
{
    assert forall|j: int| 0 <= j < l - k implies p.subrange(e + k, e + l)[j] == x.subrange(k, l)[j] by {
        assert(p.subrange(e, e + x.len())[k + j] == x[k + j]);
    }
    assert(p.subrange(e + k, e + l) =~= x.subrange(k, l));
}

proof fn lemma_read_enc_bytes(p: Seq<u8>, e: int, b: Seq<u8>)
    requires
        0 <= e,
        e + enc_bytes(b).len() <= p.len(),
        p.subrange(e, e + enc_bytes(b).len()) == enc_bytes(b),
        b.len() < two_pow_64(),
    ensures
        bytes_ok(p, e),
        bytes_at(p, e) == b,
{
    let x = enc_bytes(b);
    lemma_word_of_read(b.len());
    lemma_sub(p, x, e, 0, 32);
    assert(x.subrange(0, 32) =~= word_of(b.len()));
    assert(p.subrange(e, e + 32) == word_of(b.len()));
    let l = b.len() as int;
    lemma_sub(p, x, e, 32, 32 + l);
    assert(x.subrange(32, 32 + l) =~= b);
}

proof fn lemma_read_enc_entry(p: Seq<u8>, e: int, c: DescriptorView)
    requires
        c.wf(),
        0 <= e,
        e + enc_entry(c).len() <= p.len(),
        p.subrange(e, e + enc_entry(c).len()) == enc_entry(c),
        c.payload.len() < two_pow_64(),
    ensures
        entry_ok(p, e),
        entry_at(p, e) == c,
{
    let x = enc_entry(c);
    let y = enc_bytes(c.payload);
    lemma_pow256_values();
    lemma_word_of_read(kind_code(c.kind));
    lemma_word_of_read(160);
    lemma_bytes_of_len(c.payload.len(), 32);
    assert(x.len() == 160 + y.len());
    assert(x.subrange(0, 32) =~= word_of(kind_code(c.kind)));
    assert(x.subrange(44, 64) =~= c.target);
    assert(x.subrange(64, 96) =~= word_of(160));
    assert(x.subrange(96, 128) =~= c.value);
    assert(x.subrange(128, 160) =~= c.gas_limit);
    assert(x.subrange(160, x.len() as int) =~= y);
    lemma_sub(p, x, e, 0, 32);
    lemma_sub(p, x, e, 44, 64);
    lemma_sub(p, x, e, 64, 96);
    lemma_sub(p, x, e, 96, 128);
    lemma_sub(p, x, e, 128, 160);
    lemma_sub(p, x, e, 160, x.len() as int);
    assert(p.subrange(e, e + 32) == word_of(kind_code(c.kind)));
    assert(word_at(p, e) == kind_code(c.kind));
    assert(word_at(p, e + 64) == 160);
    assert forall|j: int| 0 <= j < 12 implies #[trigger] p[e + 32 + j] == 0 by {
        assert(p.subrange(e, e + x.len())[32 + j] == x[32 + j]);
    }
    lemma_read_enc_bytes(p, e + 160, c.payload);
}

proof fn lemma_heads_at(ps: Seq<Seq<u8>>, k: nat, i: int)
    requires
        0 <= i < k,
    ensures
        heads(ps, k).subrange(32 * i, 32 * i + 32) == word_of(
            32 * ps.len() + concat(ps.take(i)).len(),
        ),
    decreases k,
{
    let w = word_of(32 * ps.len() + concat(ps.take(k - 1)).len());
    lemma_heads_len(ps, (k - 1) as nat);
    lemma_bytes_of_len(32 * ps.len() + concat(ps.take(k - 1)).len(), 32);
    let h = heads(ps, (k - 1) as nat);
    assert(heads(ps, k) == h + w);
    if i == k - 1 {
        assert((h + w).subrange(32 * i, 32 * i + 32) =~= w);
    } else {
        lemma_heads_at(ps, (k - 1) as nat, i);
        assert((h + w).subrange(32 * i, 32 * i + 32) =~= h.subrange(32 * i, 32 * i + 32));
    }
}

proof fn lemma_concat_prefix(ps: Seq<Seq<u8>>, k: int)
    requires
        0 <= k <= ps.len(),
    ensures
        concat(ps.take(k)).len() <= concat(ps).len(),
        concat(ps).subrange(0, concat(ps.take(k)).len() as int) == concat(ps.take(k)),
    decreases ps.len() - k,
{
    if k < ps.len() {
        lemma_concat_prefix(ps, k + 1);
        lemma_concat_take(ps, k);
        let a = concat(ps.take(k));
        let b = concat(ps.take(k + 1));
        assert(b.subrange(0, a.len() as int) =~= a);
        assert(concat(ps).subrange(0, a.len() as int) =~= b.subrange(0, a.len() as int));
    } else {
        assert(ps.take(k) =~= ps);
        assert(concat(ps).subrange(0, concat(ps).len() as int) =~= concat(ps));
    }
}

/// Element `i` of an encoded array is where its offset word says.
proof fn lemma_array_elem(ps: Seq<Seq<u8>>, i: int)
    requires
        enc_array(ps).len() < two_pow_64(),
        0 <= i < ps.len(),
    ensures
        ({
            let p = enc_array(ps);
            let e = elem_start(p, 64, i);
            &&& e == 64 + 32 * ps.len() + concat(ps.take(i)).len()
            &&& e + ps[i].len() <= p.len()
            &&& p.subrange(e, e + ps[i].len()) == ps[i]
        }),
{
    let p = enc_array(ps);
    let n = ps.len();
    let c = concat(ps);
    let st = concat(ps.take(i)).len() as int;
    let li = ps[i].len() as int;
    let h = heads(ps, n);
    let a = word_of(32) + word_of(n) + h;
    lemma_heads_len(ps, n);
    lemma_bytes_of_len(32, 32);
    lemma_bytes_of_len(n, 32);
    assert(a.len() == 64 + 32 * n);
    assert(p == a + c);
    lemma_concat_prefix(ps, i + 1);
    lemma_concat_take(ps, i);
    let v = (32 * n + st) as nat;
    assert(v <= p.len());
    lemma_word_of_read(v);
    lemma_heads_at(ps, n, i);
    assert(p.subrange(64 + 32 * i, 64 + 32 * i + 32) =~= h.subrange(32 * i, 32 * i + 32));
    assert(word_at(p, 64 + 32 * i) == v);
    let pre = concat(ps.take(i + 1));
    assert(c.subrange(st, st + li) =~= pre.subrange(st, st + li));
    assert(pre.subrange(st, st + li) =~= ps[i]);
    assert(p.subrange(a.len() + st, a.len() + st + li) =~= c.subrange(st, st + li));
}

/// The header of an encoded array reads back.
proof fn lemma_array_header(ps: Seq<Seq<u8>>)
    requires
        enc_array(ps).len() < two_pow_64(),
    ensures
        array_ok(enc_array(ps)),
        array_base(enc_array(ps)) == 64,
        array_len(enc_array(ps)) == ps.len(),
{
    let p = enc_array(ps);
    let n = ps.len();
    lemma_heads_len(ps, n);
    lemma_word_of_read(32);
    lemma_bytes_of_len(n, 32);
    assert(n <= p.len());
    lemma_word_of_read(n);
    assert(p.subrange(0, 32) =~= word_of(32));
    assert(p.subrange(32, 64) =~= word_of(n));
}

proof fn lemma_batch_elem(b: Seq<DescriptorView>, i: int)
    requires
        batch_wf(b),
        encode_batch_spec(b).len() <= usize::MAX,
        0 <= i < b.len(),
    ensures
        ({
            let p = encode_batch_spec(b);
            &&& entry_ok(p, elem_start(p, 64, i))
            &&& entry_at(p, elem_start(p, 64, i)) == b[i]
        }),
{
    let ps = Seq::new(b.len(), |i: int| enc_entry(b[i]));
    let p = enc_array(ps);
    lemma_pow256_values();
    lemma_array_elem(ps, i);
    let e = elem_start(p, 64, i);
    assert(b[i].wf());
    lemma_bytes_of_len(kind_code(b[i].kind), 32);
    lemma_bytes_of_len(160, 32);
    assert(ps[i] == enc_entry(b[i]));
    assert(enc_entry(b[i]).len() >= b[i].payload.len());
    lemma_read_enc_entry(p, e, b[i]);
}

proof fn lemma_results_elem(r: Seq<Seq<u8>>, i: int)
    requires
        encode_results_spec(r).len() <= usize::MAX,
        0 <= i < r.len(),
    ensures
        ({
            let p = encode_results_spec(r);
            &&& bytes_ok(p, elem_start(p, 64, i))
            &&& bytes_at(p, elem_start(p, 64, i)) == r[i]
        }),
{
    let ps = Seq::new(r.len(), |i: int| enc_bytes(r[i]));
    let p = enc_array(ps);
    lemma_pow256_values();
    lemma_array_elem(ps, i);
    let e = elem_start(p, 64, i);
    lemma_bytes_of_len(r[i].len(), 32);
    assert(ps[i] == enc_bytes(r[i]));
    assert(r[i].len() <= ps[i].len());
    lemma_read_enc_bytes(p, e, r[i]);
}

/// Round trip: decoding the parameters that encode a batch of well-formed
/// calls gives the batch back.
pub proof fn lemma_batch_round_trip(b: Seq<DescriptorView>)
    requires
        batch_wf(b),
        encode_batch_spec(b).len() <= usize::MAX,
    ensures
        decode_batch_spec(encode_batch_spec(b)) == Some(b),
{
    let ps = Seq::new(b.len(), |i: int| enc_entry(b[i]));
    let p = enc_array(ps);
    lemma_pow256_values();
    lemma_array_header(ps);
    assert forall|i: int|
        #![trigger entry_ok(p, elem_start(p, array_base(p), i))]
        #![trigger entry_at(p, elem_start(p, array_base(p), i))]
        0 <= i < b.len() implies entry_ok(p, elem_start(p, array_base(p), i)) && entry_at(
            p,
            elem_start(p, array_base(p), i),
        ) == b[i] by {
        lemma_batch_elem(b, i);
    }
    assert(Seq::new(array_len(p), |i: int| entry_at(p, elem_start(p, array_base(p), i))) =~= b);
}

/// Round trip: decoding a call input that encodes a batch of well-formed calls
/// after `selector` gives the batch back.
pub proof fn lemma_input_round_trip(selector: Seq<u8>, b: Seq<DescriptorView>)
    requires
        selector.len() == 4,
        batch_wf(b),
        encode_input_spec(selector, b).len() <= usize::MAX,
    ensures
        decode_input_spec(encode_input_spec(selector, b), selector) == Ok::<
            Seq<DescriptorView>,
            DecodeError,
        >(b),
{
    let s = encode_input_spec(selector, b);
    assert(s.subrange(0, 4) =~= selector);
    assert(s.subrange(4, s.len() as int) =~= encode_batch_spec(b));
    lemma_batch_round_trip(b);
}

/// Round trip: decoding the `bytes[]` return value that encodes `r` gives `r`
/// back.
pub proof fn lemma_results_round_trip(r: Seq<Seq<u8>>)
    requires
        encode_results_spec(r).len() <= usize::MAX,
    ensures
        decode_results_spec(encode_results_spec(r)) == Some(r),
{
    let ps = Seq::new(r.len(), |i: int| enc_bytes(r[i]));
    let p = enc_array(ps);
    lemma_pow256_values();
    lemma_array_header(ps);
    assert forall|i: int|
        #![trigger bytes_ok(p, elem_start(p, array_base(p), i))]
        #![trigger bytes_at(p, elem_start(p, array_base(p), i))]
        0 <= i < r.len() implies bytes_ok(p, elem_start(p, array_base(p), i)) && bytes_at(
            p,
            elem_start(p, array_base(p), i),
        ) == r[i] by {
        lemma_results_elem(r, i);
    }
    assert(Seq::new(array_len(p), |i: int| bytes_at(p, elem_start(p, array_base(p), i))) =~= r);
}

/// Nested batches: when the return data of call `k` of a batch is itself the
/// return value of an inner batch with results `inner`, the outer return value
/// decodes to the outer results, and entry `k` of those decodes to `inner`.
pub proof fn lemma_nested_results(outer: Seq<Seq<u8>>, k: int, inner: Seq<Seq<u8>>)
    requires
        0 <= k < outer.len(),
        outer[k] == encode_results_spec(inner),
        encode_results_spec(outer).len() <= usize::MAX,
    ensures
        decode_results_spec(encode_results_spec(outer)) == Some(outer),
        decode_results_spec(outer[k]) == Some(inner),
{
    lemma_results_round_trip(outer);
    let ps = Seq::new(outer.len(), |i: int| enc_bytes(outer[i]));
    lemma_enc_array_len(ps);
    lemma_bytes_of_len(outer[k].len(), 32);
    assert(ps[k].len() >= outer[k].len());
    lemma_results_round_trip(inner);
}

} // verus!
