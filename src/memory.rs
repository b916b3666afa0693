//! The shared linear memory, the live buffers that the allocator has handed
//! out, and the entry points that the host calls on it.
use vstd::prelude::*;
use vstd::string::*;
use crate::marshal::{
    dump_lines, dump_messages, hello_bytes, hello_payload, le32, le32_bytes, le_value,
    lemma_le32_round_trip, length_error_line, read_number, NumberRead,
};

verus! {

/// The largest size of the memory of a 32-bit guest: every address fits in a
/// 32-bit word.
pub const MAX_MEMORY: usize = 0xFFFF_FFFF;

/// The size of the descriptor that exports a payload: two 32-bit words.
pub const STRING_INFO_BYTES: usize = 8;

/// A buffer handle: a base address and a length in bytes.
#[derive(Clone, Copy, PartialEq, Eq, Structural)]
pub struct Buffer {
    pub base: usize,
    pub len: usize,
}

impl Buffer {
    /// The first address past the buffer.
    pub open spec fn end(self) -> int {
        self.base + self.len
    }
}

/// The buffer `b` shares no byte with the range of `size` bytes at `base`.
pub open spec fn apart(b: Buffer, base: int, size: int) -> bool {
    b.end() <= base || base + size <= b.base
}

/// Two buffers share no byte.
pub open spec fn disjoint(a: Buffer, b: Buffer) -> bool {
    apart(a, b.base as int, b.len as int)
}

/// A range of `size` bytes at `base` lies in a memory of `mem_len` bytes, past
/// the null address, and shares no byte with a buffer of `live`.
pub open spec fn fits(mem_len: nat, live: Seq<Buffer>, base: int, size: int) -> bool {
    1 <= base && base + size <= mem_len && forall|i: int|
        0 <= i < live.len() ==> #[trigger] apart(live[i], base, size)
}

/// `s` with the bytes from `base` on replaced by `data`.
pub open spec fn overwrite(s: Seq<u8>, base: int, data: Seq<u8>) -> Seq<u8> {
    Seq::new(s.len(), |i: int| if base <= i < base + data.len() { data[i - base] } else { s[i] })
}

/// Where a first-fit search looks: at address one (address zero is null and
/// never handed out), then at the end of each live buffer.
pub open spec fn candidate(live: Seq<Buffer>, k: int) -> int {
    if k == 0 {
        1
    } else {
        live[k - 1].end()
    }
}

/// The linear memory that the host and the guest share, with the record of
/// the buffers that are live in it.
pub struct LinearMemory {
    bytes: Vec<u8>,
    live: Vec<Buffer>,
}

impl LinearMemory {
    /// The bytes of the memory.
    pub closed spec fn contents(&self) -> Seq<u8> {
        self.bytes@
    }

    /// The live buffers, in the order of their allocation.
    pub closed spec fn live(&self) -> Seq<Buffer> {
        self.live@
    }

    /// A range of `size` bytes at `base` is free.
    pub open spec fn fits(&self, base: int, size: int) -> bool {
        fits(self.contents().len(), self.live(), base, size)
    }

    /// Every live buffer lies in the memory past the null address, no two
    /// share a byte, and every address fits in a 32-bit word.
    pub open spec fn wf(&self) -> bool {
        &&& self.contents().len() <= MAX_MEMORY
        &&& forall|i: int|
            0 <= i < self.live().len() ==> 1 <= #[trigger] self.live()[i].base && self.live()[i].end()
                <= self.contents().len()
        &&& forall|i: int, j: int|
            0 <= i < self.live().len() && 0 <= j < self.live().len() && i != j ==> disjoint(
                #[trigger] self.live()[i],
                #[trigger] self.live()[j],
            )
    }

    /// A memory of `size` zero bytes with no live buffer.
    pub fn new(size: usize) -> (r: LinearMemory)
        requires
            size <= MAX_MEMORY,
        ensures
            r.wf(),
            r.contents() == Seq::new(size as nat, |i: int| 0u8),
            r.live().len() == 0,
    {
        let mut bytes: Vec<u8> = Vec::new();
        let mut i: usize = 0;
        while i < size
            invariant
                i <= size,
                bytes@ == Seq::new(i as nat, |k: int| 0u8),
            decreases size - i,
        {
            bytes.push(0u8);
            i = i + 1;
            assert(bytes@ =~= Seq::new(i as nat, |k: int| 0u8));
        }
        LinearMemory { bytes, live: Vec::new() }
    }

    /// The number of bytes of the memory.
    pub fn size(&self) -> (r: usize)
        ensures
            r == self.contents().len(),
    {
        self.bytes.len()
    }

    /// The live buffers, in the order of their allocation.
    pub fn live_buffers(&self) -> (r: Vec<Buffer>)
        ensures
            r@ == self.live(),
    {
        self.live.clone()
    }

    fn fits_at(&self, base: usize, size: usize) -> (r: bool)
        requires
            self.wf(),
            base <= self.contents().len(),
        ensures
            r == self.fits(base as int, size as int),
    {
        if base == 0 || size > self.bytes.len() - base {
            return false;
        }
        let mut i: usize = 0;
        while i < self.live.len()
            invariant
                self.wf(),
                base + size <= self.contents().len(),
                i <= self.live().len(),
                forall|k: int| 0 <= k < i ==> #[trigger] apart(self.live()[k], base as int, size as int),
            decreases self.live().len() - i,
        {
            let b = self.live[i];
            assert(b == self.live()[i as int]);
            assert(b.end() <= self.contents().len());
            if !(b.base + b.len <= base || base + size <= b.base) {
                assert(!apart(self.live()[i as int], base as int, size as int));
                return false;
            }
            i = i + 1;
        }
        true
    }
}

/// Where a free range exists, one starts at address one or at the end of a
/// live buffer.
proof fn lemma_lowest_fit(mem_len: nat, live: Seq<Buffer>, p: int, size: int)
    requires
        fits(mem_len, live, p, size),
        size >= 0,
    ensures
        exists|k: int| 0 <= k <= live.len() && fits(mem_len, live, #[trigger] candidate(live, k), size),
    decreases p,
{
    if p == 1 {
        assert(fits(mem_len, live, candidate(live, 0), size));
    } else if exists|i: int| 0 <= i < live.len() && #[trigger] live[i].end() == p {
        let i = choose|i: int| 0 <= i < live.len() && #[trigger] live[i].end() == p;
        assert(candidate(live, i + 1) == p);
    } else {
        assert forall|i: int| 0 <= i < live.len() implies #[trigger] apart(live[i], p - 1, size) by {
            assert(apart(live[i], p, size));
            assert(live[i].end() != p);
        }
        lemma_lowest_fit(mem_len, live, p - 1, size);
    }
}

proof fn lemma_push_keeps_disjoint(live: Seq<Buffer>, b: Buffer)
    requires
        forall|i: int, j: int|
            0 <= i < live.len() && 0 <= j < live.len() && i != j ==> disjoint(
                #[trigger] live[i],
                #[trigger] live[j],
            ),
        forall|i: int| 0 <= i < live.len() ==> #[trigger] apart(live[i], b.base as int, b.len as int),
    ensures
        forall|i: int, j: int|
            0 <= i < live.len() + 1 && 0 <= j < live.len() + 1 && i != j ==> disjoint(
                #[trigger] live.push(b)[i],
                #[trigger] live.push(b)[j],
            ),
{
    let after = live.push(b);
    assert forall|i: int, j: int|
        0 <= i < after.len() && 0 <= j < after.len() && i != j implies disjoint(
        #[trigger] after[i],
        #[trigger] after[j],
    ) by {
        if i < live.len() && j < live.len() {
            assert(disjoint(live[i], live[j]));
        } else if i < live.len() {
            assert(apart(live[i], b.base as int, b.len as int));
        } else {
            assert(apart(live[j], b.base as int, b.len as int));
        }
    }
}

/// Hands out a buffer of `size` bytes that shares no byte with a live one, or
/// `None` where no such range is left (the guest then traps). The contents of
/// the memory stay as they were.
pub fn allocate(mem: &mut LinearMemory, size: usize) -> (r: Option<usize>)
    requires
        old(mem).wf(),
    ensures
        final(mem).wf(),
        final(mem).contents() == old(mem).contents(),
        match r {
            Some(a) => a != 0 && old(mem).fits(a as int, size as int) && final(mem).live() == old(
                mem,
            ).live().push(Buffer { base: a, len: size }),
            None => final(mem).live() == old(mem).live() && forall|p: int|
                !(#[trigger] old(mem).fits(p, size as int)),
        },
{
    let first: usize = 1;
    if mem.bytes.len() >= first && mem.fits_at(first, size) {
        proof { lemma_push_keeps_disjoint(mem.live(), Buffer { base: first, len: size }); }
        mem.live.push(Buffer { base: first, len: size });
        return Some(first);
    }
    assert(candidate(mem.live(), 0) == 1);
    let n = mem.live.len();
    let mut k: usize = 0;
    while k < n
        invariant
            mem.wf(),
            mem.live() == old(mem).live(),
            mem.contents() == old(mem).contents(),
            n == mem.live().len(),
            k <= n,
            forall|c: int| 0 <= c <= k ==> !fits(mem.contents().len(), mem.live(), #[trigger] candidate(mem.live(), c), size as int),
        decreases n - k,
    {
        let b = mem.live[k];
        assert(b == mem.live()[k as int]);
        assert(b.end() <= mem.contents().len());
        let c: usize = b.base + b.len;
        assert(c == candidate(mem.live(), k + 1));
        if mem.fits_at(c, size) {
            proof { lemma_push_keeps_disjoint(mem.live(), Buffer { base: c, len: size }); }
            mem.live.push(Buffer { base: c, len: size });
            return Some(c);
        }
        k = k + 1;
    }
    proof {
        assert forall|p: int| !(#[trigger] old(mem).fits(p, size as int)) by {
            if old(mem).fits(p, size as int) {
                lemma_lowest_fit(mem.contents().len(), mem.live(), p, size as int);
            }
        }
    }
    None
}

/// Hands out a buffer of `size` bytes at an address that is a multiple of
/// four, so that 32-bit words stored in it are aligned; `None` where no such
/// free range is left. The contents of the memory stay as they were.
pub fn allocate_word_aligned(mem: &mut LinearMemory, size: usize) -> (r: Option<usize>)
    requires
        old(mem).wf(),
    ensures
        final(mem).wf(),
        final(mem).contents() == old(mem).contents(),
        match r {
            Some(a) => a != 0 && a % 4 == 0 && old(mem).fits(a as int, size as int)
                && final(mem).live() == old(mem).live().push(Buffer { base: a, len: size }),
            None => final(mem).live() == old(mem).live() && forall|p: int|
                p % 4 == 0 ==> !(#[trigger] old(mem).fits(p, size as int)),
        },
{
    let len = mem.bytes.len();
    if size > len || len - size < 4 {
        assert forall|q: int| q % 4 == 0 implies !(#[trigger] old(mem).fits(q, size as int)) by {
            if q >= 1 {
                assert(q >= 4);
            }
        }
        return None;
    }
    let mut p: usize = 4;
    loop
        invariant
            mem.wf(),
            mem.live() == old(mem).live(),
            mem.contents() == old(mem).contents(),
            len == mem.contents().len(),
            size <= len,
            p % 4 == 0,
            4 <= p <= len - size,
            forall|q: int| q % 4 == 0 && q < p ==> !(#[trigger] mem.fits(q, size as int)),
        decreases len - p,
    {
        if mem.fits_at(p, size) {
            proof { lemma_push_keeps_disjoint(mem.live(), Buffer { base: p, len: size }); }
            mem.live.push(Buffer { base: p, len: size });
            return Some(p);
        }
        if len - size - p < 4 {
            assert forall|q: int| q % 4 == 0 implies !(#[trigger] old(mem).fits(q, size as int)) by {
                if q < p {
                    assert(!mem.fits(q, size as int));
                } else if q == p {
                    assert(!mem.fits(p as int, size as int));
                } else {
                    assert(q >= p + 4);
                }
            }
            return None;
        }
        p = p + 4;
    }
}

/// Releases the live buffer of `len` bytes at `base`; its range is free again
/// and may be handed out anew. The record of every other live buffer stays;
/// the released one is no longer live (for a zero-size buffer, one record of
/// it goes).
pub fn deallocate(mem: &mut LinearMemory, base: usize, len: usize)
    requires
        old(mem).wf(),
        old(mem).live().contains((Buffer { base: base, len: len })),
    ensures
        final(mem).wf(),
        final(mem).contents() == old(mem).contents(),
        exists|i: int|
            0 <= i < old(mem).live().len() && old(mem).live()[i] == (Buffer { base: base, len: len })
                && final(mem).live() == old(mem).live().remove(i),
        final(mem).fits(base as int, len as int),
        len > 0 ==> !final(mem).live().contains((Buffer { base: base, len: len })),
{
    let target = Buffer { base: base, len: len };
    let mut i: usize = 0;
    while i < mem.live.len()
        invariant
            mem.wf(),
            mem.live() == old(mem).live(),
            mem.contents() == old(mem).contents(),
            target == (Buffer { base: base, len: len }),
            old(mem).live().contains(target),
            0 <= i <= mem.live().len(),
            forall|k: int| 0 <= k < i ==> #[trigger] mem.live()[k] != target,
        decreases mem.live().len() - i,
    {
        let b = mem.live[i];
        assert(b == mem.live()[i as int]);
        if b == target {
            let ghost before = mem.live();
            let ghost m0 = *mem;
            mem.live.remove(i);
            proof {
                lemma_released_range_reusable(m0, i as int);
                if len > 0 {
                    assert forall|k: int| 0 <= k < mem.live().len() implies #[trigger] mem.live()[k] != target by {
                        let k0 = if k < i { k } else { k + 1 };
                        assert(disjoint(before[k0], before[i as int]));
                    }
                }
            }
            assert(before[i as int] == target);
            assert(mem.live() == old(mem).live().remove(i as int));
            assert forall|x: int, y: int|
                0 <= x < mem.live().len() && 0 <= y < mem.live().len() && x != y implies disjoint(
                #[trigger] mem.live()[x],
                #[trigger] mem.live()[y],
            ) by {
                let x0 = if x < i { x } else { x + 1 };
                let y0 = if y < i { y } else { y + 1 };
                assert(disjoint(before[x0], before[y0]));
            }
            assert forall|x: int| 0 <= x < mem.live().len() implies #[trigger] mem.live()[x].end()
                <= mem.contents().len() by {
                let x0 = if x < i { x } else { x + 1 };
                assert(before[x0].end() <= mem.contents().len());
            }
            return;
        }
        assert(mem.live()[i as int] != target);
        i = i + 1;
    }
    assert(false);
}

/// `data` written over the memory from `base` on: the live buffers stay.
pub fn store_bytes(mem: &mut LinearMemory, base: usize, data: &Vec<u8>)
    requires
        old(mem).wf(),
        base + data@.len() <= old(mem).contents().len(),
    ensures
        final(mem).wf(),
        final(mem).live() == old(mem).live(),
        final(mem).contents() == overwrite(old(mem).contents(), base as int, data@),
{
    let mut i: usize = 0;
    while i < data.len()
        invariant
            mem.wf(),
            mem.live() == old(mem).live(),
            base + data@.len() <= mem.contents().len(),
            0 <= i <= data@.len(),
            mem.contents() == overwrite(old(mem).contents(), base as int, data@.subrange(0, i as int)),
        decreases data@.len() - i,
    {
        mem.bytes.set(base + i, data[i]);
        i = i + 1;
        assert(mem.contents() =~= overwrite(old(mem).contents(), base as int, data@.subrange(0, i as int)));
    }
    assert(data@.subrange(0, i as int) =~= data@);
}

/// The `len` bytes of the memory from `base` on.
pub fn load_bytes(mem: &LinearMemory, base: usize, len: usize) -> (r: Vec<u8>)
    requires
        mem.wf(),
        base + len <= mem.contents().len(),
    ensures
        r@ == mem.contents().subrange(base as int, base + len),
{
    let mut r: Vec<u8> = Vec::new();
    let mut i: usize = 0;
    while i < len
        invariant
            mem.wf(),
            base + len <= mem.contents().len(),
            0 <= i <= len,
            r@ == mem.contents().subrange(base as int, base + i),
        decreases len - i,
    {
        r.push(mem.bytes[base + i]);
        i = i + 1;
        assert(r@ =~= mem.contents().subrange(base as int, base + i));
    }
    r
}

/// The diagnostic messages that a dump of `length` bytes at `address` sends
/// to the host, in order: a header naming the address, then one line per byte
/// in ascending address order.
pub fn read_bytes_from_memory(mem: &LinearMemory, address: usize, length: usize) -> (r: Vec<Vec<u8>>)
    requires
        mem.wf(),
        address + length <= mem.contents().len(),
    ensures
        r@.len() == length + 1,
        forall|i: int| 0 <= i < r@.len() ==> #[trigger] r@[i]@ == dump_lines(
            address as nat,
            mem.contents().subrange(address as int, address + length),
        )[i],
{
    let bytes = load_bytes(mem, address, length);
    dump_messages(address, &bytes)
}

/// Reads the 8-byte number at `address`. Only the length is checked: with
/// eight bytes the result is their bit pattern, least significant byte first;
/// with any other length it is the one message that reports that length, and
/// the memory is not read.
pub fn read_number_from_memory(mem: &LinearMemory, address: usize, length: usize) -> (r: NumberRead)
    requires
        mem.wf(),
        length == 8 ==> address + 8 <= mem.contents().len(),
    ensures
        length == 8 ==> (r matches NumberRead::Bits(bits) && bits as nat == le_value(
            mem.contents().subrange(address as int, address + 8),
        )),
        length != 8 ==> (r matches NumberRead::WrongLength(m) && m@ == length_error_line(length as nat)),
{
    let bytes = if length == 8 {
        load_bytes(mem, address, length)
    } else {
        Vec::new()
    };
    read_number(length, &bytes)
}

/// Reading back the bytes just written gives them unchanged.
pub proof fn lemma_write_read_back(s: Seq<u8>, base: int, data: Seq<u8>)
    requires
        0 <= base,
        base + data.len() <= s.len(),
    ensures
        overwrite(s, base, data).subrange(base, base + data.len()) == data,
{
    assert(overwrite(s, base, data).subrange(base, base + data.len()) =~= data);
}

/// A write leaves every byte outside its range as it was, so the contents of
/// a buffer apart from it stay.
pub proof fn lemma_write_keeps_apart(s: Seq<u8>, base: int, data: Seq<u8>, b: Buffer)
    requires
        0 <= base,
        base + data.len() <= s.len(),
        b.end() <= s.len(),
        apart(b, base, data.len() as int),
    ensures
        overwrite(s, base, data).subrange(b.base as int, b.end()) == s.subrange(b.base as int, b.end()),
{
    assert(overwrite(s, base, data).subrange(b.base as int, b.end()) =~= s.subrange(b.base as int, b.end()));
}

/// No two live buffers of a well-formed memory share a byte.
pub proof fn lemma_live_buffers_disjoint(mem: LinearMemory, i: int, j: int)
    requires
        mem.wf(),
        0 <= i < mem.live().len(),
        0 <= j < mem.live().len(),
        i != j,
    ensures
        disjoint(mem.live()[i], mem.live()[j]),
{
}

/// Once the buffer at position `i` is released, its whole range is free and
/// may be handed out again; while it stays live, no range that overlaps it is
/// free.
pub proof fn lemma_released_range_reusable(mem: LinearMemory, i: int)
    requires
        mem.wf(),
        0 <= i < mem.live().len(),
    ensures
        fits(
            mem.contents().len(),
            mem.live().remove(i),
            mem.live()[i].base as int,
            mem.live()[i].len as int,
        ),
        forall|p: int, size: int|
            mem.fits(p, size) ==> #[trigger] apart(mem.live()[i], p, size),
{
    let rest = mem.live().remove(i);
    let b = mem.live()[i];
    assert forall|k: int| 0 <= k < rest.len() implies #[trigger] apart(rest[k], b.base as int, b.len as int) by {
        let k0 = if k < i { k } else { k + 1 };
        assert(rest[k] == mem.live()[k0]);
        assert(disjoint(mem.live()[k0], b));
    }
    assert(b.end() <= mem.contents().len());
}

/// Releasing the buffer at position `i` keeps every other live buffer.
pub proof fn lemma_release_keeps_others(live: Seq<Buffer>, i: int, j: int)
    requires
        0 <= i < live.len(),
        0 <= j < live.len(),
        i != j,
    ensures
        live.remove(i).contains(live[j]),
{
    let k = if j < i { j } else { j - 1 };
    assert(live.remove(i)[k] == live[j]);
}

/// The descriptor of a payload of `len` bytes at `address`: two 32-bit words,
/// least significant byte first.
pub open spec fn descriptor(address: u32, len: u32) -> Seq<u8> {
    le32(address) + le32(len)
}

/// Exports the greeting: its bytes go into a new buffer, a second buffer of
/// two 32-bit words, at an address that is a multiple of four, receives the
/// payload's address and length, and the address of that descriptor is
/// returned. Both buffers stay live: they are
/// the host's to release. `None` where either allocation finds no room (the
/// guest then traps).
pub fn set_hello_on_memory(mem: &mut LinearMemory) -> (r: Option<usize>)
    requires
        old(mem).wf(),
    ensures
        final(mem).wf(),
        final(mem).contents().len() == old(mem).contents().len(),
        forall|i: int|
            0 <= i < old(mem).live().len() ==> final(mem).contents().subrange(
                #[trigger] old(mem).live()[i].base as int,
                old(mem).live()[i].end(),
            ) == old(mem).contents().subrange(old(mem).live()[i].base as int, old(mem).live()[i].end()),
        r is None ==> final(mem).contents() == old(mem).contents(),
        match r {
            Some(d) => d != 0 && d % 4 == 0 && exists|a: usize|
                {
                    &&& #[trigger] old(mem).fits(a as int, hello_bytes().len() as int)
                    &&& final(mem).live() == old(mem).live().push(
                        (Buffer { base: a, len: hello_bytes().len() as usize }),
                    ).push((Buffer { base: d, len: STRING_INFO_BYTES }))
                    &&& final(mem).contents().subrange(a as int, a + hello_bytes().len())
                        == hello_bytes()
                    &&& final(mem).contents().subrange(d as int, d + 8) == descriptor(
                        a as u32,
                        hello_bytes().len() as u32,
                    )
                    &&& le_value(final(mem).contents().subrange(d as int, d + 4)) == a
                    &&& le_value(final(mem).contents().subrange(d + 4, d + 8))
                        == hello_bytes().len()
                },
            None => (forall|p: int| !(#[trigger] old(mem).fits(p, hello_bytes().len() as int)))
                || exists|a: int|
                {
                    &&& #[trigger] old(mem).fits(a, hello_bytes().len() as int)
                    &&& forall|p: int|
                        p % 4 == 0 ==> !#[trigger] fits(
                            old(mem).contents().len(),
                            old(mem).live().push((Buffer { base: a as usize, len: hello_bytes().len() as usize })),
                            p,
                            STRING_INFO_BYTES as int,
                        )
                },
        },
{
    let payload = hello_payload();
    let n = payload.len();
    let a = match allocate(mem, n) {
        Some(a) => a,
        None => {
            return None;
        },
    };
    let ghost m1 = *mem;
    let d = match allocate_word_aligned(mem, STRING_INFO_BYTES) {
        Some(d) => d,
        None => {
            assert(old(mem).fits(a as int, hello_bytes().len() as int));
            assert(old(mem).live().push((Buffer { base: (a as int) as usize, len: hello_bytes().len() as usize })) == m1.live());
            assert forall|p: int|
                p % 4 == 0 implies !#[trigger] fits(
                    old(mem).contents().len(),
                    old(mem).live().push((Buffer { base: (a as int) as usize, len: hello_bytes().len() as usize })),
                    p,
                    STRING_INFO_BYTES as int,
                ) by {
                assert(!m1.fits(p, STRING_INFO_BYTES as int));
            }
            return None;
        },
    };
    let ghost c0 = mem.contents();
    let ghost pbuf = Buffer { base: a, len: n };
    assert(mem.live()[mem.live().len() - 2] == pbuf);
    assert(pbuf.end() <= c0.len());
    store_bytes(mem, a, &payload);
    let mut desc = le32_bytes(a as u32);
    let mut len_word = le32_bytes(n as u32);
    desc.append(&mut len_word);
    store_bytes(mem, d, &desc);
    proof {
        let c1 = overwrite(c0, a as int, payload@);
        lemma_write_read_back(c0, a as int, payload@);
        assert(apart(pbuf, d as int, 8));
        lemma_write_keeps_apart(c1, d as int, desc@, pbuf);
        lemma_write_read_back(c1, d as int, desc@);
        let w = mem.contents().subrange(d as int, d + 8);
        assert(w.subrange(0, 4) =~= mem.contents().subrange(d as int, d + 4));
        assert(w.subrange(4, 8) =~= mem.contents().subrange(d + 4, d + 8));
        assert(w.subrange(0, 4) =~= le32(a as u32));
        assert(w.subrange(4, 8) =~= le32(n as u32));
        assert(w =~= descriptor(a as u32, n as u32));
        lemma_le32_round_trip(a as u32);
        lemma_le32_round_trip(n as u32);
        let dbuf = Buffer { base: d, len: STRING_INFO_BYTES };
        assert forall|i: int| 0 <= i < old(mem).live().len() implies mem.contents().subrange(
            #[trigger] old(mem).live()[i].base as int,
            old(mem).live()[i].end(),
        ) == old(mem).contents().subrange(old(mem).live()[i].base as int, old(mem).live()[i].end()) by {
            let b = old(mem).live()[i];
            assert(m1.live()[i] == b);
            assert(b.end() <= c0.len());
            assert(apart(b, a as int, n as int));
            assert(mem.live()[i] == b);
            assert(mem.live()[mem.live().len() - 1] == dbuf);
            assert(disjoint(b, dbuf));
            lemma_write_keeps_apart(c0, a as int, payload@, b);
            lemma_write_keeps_apart(c1, d as int, desc@, b);
        }
    }
    Some(d)
}

} // verus!
