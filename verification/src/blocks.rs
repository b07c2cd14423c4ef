//! Byte buffers cut into fixed-width blocks and slots.
//!
//! File data is cut into *blocks* (the last one may be short); digest buffers
//! are cut into *slots* of exactly one digest each.

use vstd::prelude::*;

verus! {

/// `n` zero bytes.
pub open spec fn zeros(n: nat) -> Seq<u8> {
    Seq::new(n, |i: int| 0u8)
}

/// How many blocks of `size` bytes it takes to hold `len` bytes.
pub open spec fn block_count(len: nat, size: nat) -> nat {
    if len == 0 {
        0
    } else {
        ((len - 1) / (size as int) + 1) as nat
    }
}

/// The `k`-th block of `size` bytes of `data`. The last block of `data` is
/// shorter than `size` when the length of `data` is no multiple of `size`.
pub open spec fn block(data: Seq<u8>, size: nat, k: int) -> Seq<u8> {
    let end = if (k + 1) * size <= data.len() {
        (k + 1) * size
    } else {
        data.len() as int
    };
    data.subrange(k * size, end)
}

/// The `k`-th slot of `width` bytes of `buf`.
pub open spec fn slot(buf: Seq<u8>, width: nat, k: int) -> Seq<u8> {
    buf.subrange(k * width, (k + 1) * width)
}

/// `buf` read as a sequence of slots of `width` bytes each.
pub open spec fn slots(buf: Seq<u8>, width: nat) -> Seq<Seq<u8>> {
    Seq::new(buf.len() / width, |k: int| slot(buf, width, k))
}

/// `block_count(len, size)` is the least number of blocks that cover `len`
/// bytes.
pub proof fn lemma_block_count(len: nat, size: nat)
    requires
        size > 0,
    ensures
        block_count(len, size) * size >= len,
        len > 0 ==> (block_count(len, size) - 1) * size < len,
        len > 0 ==> block_count(len, size) > 0,
{
    if len > 0 {
        let q = (len - 1) / (size as int);
        assert(q * size <= len - 1 < q * size + size && q >= 0) by (nonlinear_arith)
            requires
                q == (len - 1) / (size as int),
                size > 0,
                len > 0,
        ;
        assert((q + 1) * size == q * size + size) by (nonlinear_arith);
    }
}

/// Block `k` starts inside the data exactly when `k < block_count`.
pub proof fn lemma_block_index(len: nat, size: nat, k: int)
    requires
        size > 0,
        0 <= k,
    ensures
        k * size < len <==> k < block_count(len, size),
{
    lemma_block_count(len, size);
    let n = block_count(len, size) as int;
    if k < n {
        assert(k * size <= (n - 1) * size) by (nonlinear_arith)
            requires
                k <= n - 1,
                size > 0,
        ;
    } else {
        assert(k * size >= n * size) by (nonlinear_arith)
            requires
                k >= n,
                size > 0,
        ;
    }
}

/// `k` is the block count of `len` when `k` blocks cover `len` bytes and
/// `k - 1` do not.
pub proof fn lemma_block_count_exact(len: nat, size: nat, k: int)
    requires
        size > 0,
        len > 0,
        (k - 1) * size < len <= k * size,
    ensures
        k == block_count(len, size),
{
    assert(k >= 1) by (nonlinear_arith)
        requires
            len <= k * size,
            len > 0,
            size > 0,
    ;
    lemma_block_index(len, size, k - 1);
    lemma_block_index(len, size, k);
}

/// Appending one slot to a buffer of `n` slots leaves those slots as they
/// were and makes the appended bytes slot `n`.
pub proof fn lemma_append_slot(buf: Seq<u8>, last: Seq<u8>, width: nat, n: int)
    requires
        width > 0,
        0 <= n,
        buf.len() == width * n,
        last.len() == width,
    ensures
        (buf + last).len() == width * (n + 1),
        slot(buf + last, width, n) == last,
        forall|k: int| 0 <= k < n ==> #[trigger] slot(buf + last, width, k) == slot(buf, width, k),
{
    assert(width * (n + 1) == width * n + width) by (nonlinear_arith);
    assert(n * width == width * n) by (nonlinear_arith);
    assert((n + 1) * width == width * n + width) by (nonlinear_arith);
    assert(slot(buf + last, width, n) =~= last);
    assert forall|k: int| 0 <= k < n implies #[trigger] slot(buf + last, width, k) == slot(
        buf,
        width,
        k,
    ) by {
        assert(0 <= k * width <= (k + 1) * width <= n * width) by (nonlinear_arith)
            requires
                0 <= k < n,
                width > 0,
        ;
        assert((k + 1) * width <= buf.len());
        assert(slot(buf + last, width, k) =~= slot(buf, width, k));
    }
}

/// A buffer whose slots are, one by one, the items of `items` reads as
/// `items`.
pub proof fn lemma_slots_are(buf: Seq<u8>, width: nat, items: Seq<Seq<u8>>)
    requires
        width > 0,
        buf.len() == width * items.len(),
        forall|k: int| 0 <= k < items.len() ==> #[trigger] slot(buf, width, k) == items[k],
    ensures
        slots(buf, width) == items,
{
    assert(buf.len() / width == items.len()) by (nonlinear_arith)
        requires
            buf.len() == width * items.len(),
            width > 0,
    ;
    assert(slots(buf, width) =~= items);
}

/// Buffers of the same length that read as the same slots are the same.
pub proof fn lemma_slots_unique(a: Seq<u8>, b: Seq<u8>, width: nat)
    requires
        width > 0,
        a.len() == b.len(),
        a.len() % width == 0,
        slots(a, width) == slots(b, width),
    ensures
        a == b,
{
    assert forall|t: int| 0 <= t < a.len() implies a[t] == b[t] by {
        let k = t / (width as int);
        let r = t % (width as int);
        vstd::arithmetic::div_mod::lemma_fundamental_div_mod(t, width as int);
        vstd::arithmetic::div_mod::lemma_mod_bound(t, width as int);
        assert(0 <= k < a.len() / width && k * width + r == t && (k + 1) * width <= a.len())
            by (nonlinear_arith)
            requires
                t == width * k + r,
                0 <= r < width,
                0 <= t < a.len(),
                a.len() % width == 0,
                width > 0,
        ;
        assert(slots(a, width)[k] == slot(a, width, k));
        assert(slots(b, width)[k] == slot(b, width, k));
        assert((k + 1) * width == k * width + width) by (nonlinear_arith);
        assert(slot(a, width, k)[r] == a[t]);
        assert(slot(b, width, k)[r] == b[t]);
    }
    assert(a =~= b);
}

/// A buffer of `n` zero bytes.
pub fn zero_bytes(n: usize) -> (v: Vec<u8>)
    ensures
        v@ == zeros(n as nat),
{
    let v = vec![0u8; n];
    assert(v@ =~= zeros(n as nat));
    v
}

/// `buf` with `bytes` written over it from index `start` on.
pub open spec fn written(buf: Seq<u8>, start: int, bytes: Seq<u8>) -> Seq<u8> {
    buf.subrange(0, start) + bytes + buf.subrange(start + bytes.len(), buf.len() as int)
}

/// Writing fills the slots written to and leaves the others as they were.
pub proof fn lemma_written_slots(buf: Seq<u8>, width: nat, first: int, bytes: Seq<u8>, k: int)
    requires
        width > 0,
        0 <= first,
        bytes.len() % width == 0,
        first * width + bytes.len() <= buf.len(),
        0 <= k,
        (k + 1) * width <= buf.len(),
    ensures
        written(buf, first * width, bytes).len() == buf.len(),
        first <= k < first + bytes.len() / width ==> slot(
            written(buf, first * width, bytes),
            width,
            k,
        ) == slot(bytes, width, k - first),
        k < first || k >= first + bytes.len() / width ==> slot(
            written(buf, first * width, bytes),
            width,
            k,
        ) == slot(buf, width, k),
{
    let n = (bytes.len() / width) as int;
    let after = written(buf, first * width, bytes);
    assert(bytes.len() == n * width) by (nonlinear_arith)
        requires
            n == bytes.len() / width,
            bytes.len() % width == 0,
            width > 0,
    ;
    assert((k + 1) * width == k * width + width) by (nonlinear_arith);
    assert((k - first) * width == k * width - first * width) by (nonlinear_arith);
    assert((k - first + 1) * width == k * width - first * width + width) by (nonlinear_arith);
    assert((first + n) * width == first * width + n * width) by (nonlinear_arith);
    if first <= k < first + n {
        assert(first * width <= k * width && (k + 1) * width <= (first + n) * width)
            by (nonlinear_arith)
            requires
                first <= k < first + n,
                width > 0,
        ;
        assert(slot(after, width, k) =~= slot(bytes, width, k - first));
    } else if k < first {
        assert((k + 1) * width <= first * width) by (nonlinear_arith)
            requires
                k < first,
                width > 0,
        ;
        assert(k * width >= 0) by (nonlinear_arith)
            requires
                k >= 0,
                width > 0,
        ;
        assert(slot(after, width, k) =~= slot(buf, width, k));
    } else {
        assert(k * width >= (first + n) * width) by (nonlinear_arith)
            requires
                k >= first + n,
                width > 0,
        ;
        assert(slot(after, width, k) =~= slot(buf, width, k));
    }
}

/// Writing the items that follow a filled run of slots extends the run.
pub proof fn lemma_written_extends(
    buf: Seq<u8>,
    width: nat,
    first: int,
    bytes: Seq<u8>,
    items: Seq<Seq<u8>>,
    want: Seq<Seq<u8>>,
)
    requires
        width > 0,
        0 <= first,
        bytes.len() == width * items.len(),
        slots(bytes, width) == items,
        first * width + bytes.len() <= buf.len(),
        first + items.len() <= want.len(),
        forall|k: int| 0 <= k < first ==> #[trigger] slot(buf, width, k) == want[k],
        forall|k: int| 0 <= k < items.len() ==> #[trigger] items[k] == want[first + k],
    ensures
        forall|k: int|
            0 <= k < first + items.len() ==> #[trigger] slot(
                written(buf, first * width, bytes),
                width,
                k,
            ) == want[k],
{
    let n = items.len() as int;
    assert(bytes.len() / width == n && bytes.len() % width == 0) by (nonlinear_arith)
        requires
            bytes.len() == width * n,
            width > 0,
            n >= 0,
    ;
    assert forall|k: int| 0 <= k < first + n implies #[trigger] slot(
        written(buf, first * width, bytes),
        width,
        k,
    ) == want[k] by {
        assert((k + 1) * width <= (first + n) * width) by (nonlinear_arith)
            requires
                k + 1 <= first + n,
                width > 0,
        ;
        assert((first + n) * width == first * width + width * n) by (nonlinear_arith);
        lemma_written_slots(buf, width, first, bytes, k);
        if k >= first {
            assert(slots(bytes, width)[k - first] == slot(bytes, width, k - first));
            assert(items[k - first] == want[first + (k - first)]);
        }
    }
}

/// Writes that do not overlap can be made in either order.
pub proof fn lemma_written_commutes(
    buf: Seq<u8>,
    low: int,
    x: Seq<u8>,
    high: int,
    y: Seq<u8>,
)
    requires
        0 <= low,
        low + x.len() <= high,
        high + y.len() <= buf.len(),
    ensures
        written(written(buf, low, x), high, y) == written(written(buf, high, y), low, x),
{
    assert(written(written(buf, low, x), high, y) =~= written(written(buf, high, y), low, x));
}

/// Overwrites `buf[start .. start + src.len()]` with `src`.
pub fn write_at(buf: &mut Vec<u8>, start: usize, src: &[u8])
    requires
        start + src@.len() <= old(buf)@.len(),
    ensures
        final(buf)@ == written(old(buf)@, start as int, src@),
{
    let n = src.len();
    let total = buf.len();
    let mut i: usize = 0;
    while i < n
        invariant
            n == src@.len(),
            total == buf@.len(),
            i <= n,
            start + n <= buf@.len(),
            buf@.len() == old(buf)@.len(),
            forall|j: int| 0 <= j < start ==> buf@[j] == old(buf)@[j],
            forall|j: int| 0 <= j < i ==> buf@[start + j] == src@[j],
            forall|j: int| start + i <= j < buf@.len() ==> buf@[j] == old(buf)@[j],
        decreases n - i,
    {
        buf.set(start + i, src[i]);
        i += 1;
    }
    assert(buf@ =~= written(old(buf)@, start as int, src@));
}

} // verus!
