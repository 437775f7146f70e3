//! Regions of bytes that an arena hands out in pieces.
use vstd::prelude::*;
use vstd::arithmetic::div_mod::*;
use vstd::slice::*;
use zeroize::Zeroize;

verus! {

/// The region with `data` written at `at`.
pub open spec fn overwrite(memory: Seq<u8>, at: int, data: Seq<u8>) -> Seq<u8> {
    Seq::new(
        memory.len(),
        |i: int|
            if at <= i < at + data.len() {
                data[i - at]
            } else {
                memory[i]
            },
    )
}

/// The region with the bytes `from..to` set to 0.
pub open spec fn zero_range(memory: Seq<u8>, from: int, to: int) -> Seq<u8> {
    Seq::new(
        memory.len(),
        |i: int|
            if from <= i < to {
                0u8
            } else {
                memory[i]
            },
    )
}

/// Every byte of `from..to` is 0.
pub open spec fn all_zero(memory: Seq<u8>, from: int, to: int) -> bool {
    forall|i: int| from <= i < to ==> #[trigger] memory[i] == 0
}

/// The region after one byte of each page below `len` was set to 0.
pub open spec fn prefaulted(memory: Seq<u8>, len: int, page_size: int) -> Seq<u8> {
    Seq::new(
        memory.len(),
        |i: int|
            if i < len && i % page_size == 0 {
                0u8
            } else {
                memory[i]
            },
    )
}

/// The region as `resolved` leaves it: untouched without a page size.
pub open spec fn faulted(memory: Seq<u8>, len: int, resolved: Option<usize>) -> Seq<u8> {
    match resolved {
        Some(page_size) => prefaulted(memory, len, page_size as int),
        None => memory,
    }
}

/// Memory that can back an arena: a fixed run of bytes.
pub trait Backing: Sized {
    /// The bytes of the region. A verified implementation says what they are;
    /// the default lets unverified code implement the trait.
    open spec fn content(&self) -> Seq<u8> {
        Seq::empty()
    }

    /// Length of the region in bytes.
    fn size(&self) -> (n: usize)
        ensures
            n == self.content().len(),
    ;

    /// The `n` bytes from `at` on.
    fn read(&self, at: usize, n: usize) -> (r: &[u8])
        requires
            at + n <= self.content().len(),
        ensures
            r@ == self.content().subrange(at as int, at + n),
    ;

    /// Copies `data` to `at`.
    fn write(&mut self, at: usize, data: &[u8])
        requires
            at + data@.len() <= old(self).content().len(),
        ensures
            final(self).content() == overwrite(old(self).content(), at as int, data@),
    ;

    /// Sets the bytes `from..to` to 0 in a way that is never optimised away.
    fn zeroize(&mut self, from: usize, to: usize)
        requires
            from <= to <= old(self).content().len(),
        ensures
            final(self).content() == zero_range(old(self).content(), from as int, to as int),
    ;
}

/// Calls `zeroize::Zeroize::zeroize` on a part of a byte slice: every byte of
/// `from..to` becomes 0 and no other byte changes. The outside function panics
/// only on slices longer than `isize::MAX` bytes, which no slice is.
#[verifier::external_body]
fn zeroize_slice(bytes: &mut [u8], from: usize, to: usize)
    requires
        from <= to <= old(bytes)@.len(),
    ensures
        final(bytes)@ == zero_range(old(bytes)@, from as int, to as int),
{
    bytes[from..to].zeroize()
}

fn write_slice(bytes: &mut [u8], at: usize, data: &[u8])
    requires
        at + data@.len() <= old(bytes)@.len(),
    ensures
        final(bytes)@ == overwrite(old(bytes)@, at as int, data@),
{
    let total: usize = bytes.len();
    let n: usize = data.len();
    let mut i: usize = 0;
    assert(bytes@ =~= overwrite(old(bytes)@, at as int, data@.take(0)));
    while i < n
        invariant
            i <= n,
            n == data@.len(),
            at + n <= total,
            total == bytes@.len(),
            bytes@ == overwrite(old(bytes)@, at as int, data@.take(i as int)),
        decreases n - i,
    {
        bytes[at + i] = data[i];
        i = i + 1;
        assert(bytes@ =~= overwrite(old(bytes)@, at as int, data@.take(i as int)));
    }
    assert(data@.take(n as int) =~= data@);
}

impl Backing for Vec<u8> {
    open spec fn content(&self) -> Seq<u8> {
        self@
    }

    fn size(&self) -> (n: usize) {
        self.len()
    }

    fn read(&self, at: usize, n: usize) -> (r: &[u8]) {
        let total: usize = self.len();
        slice_subrange(self.as_slice(), at, at + n)
    }

    fn write(&mut self, at: usize, data: &[u8]) {
        write_slice(self.as_mut_slice(), at, data);
    }

    fn zeroize(&mut self, from: usize, to: usize) {
        zeroize_slice(self.as_mut_slice(), from, to);
    }
}

impl Backing for &'static mut [u8] {
    open spec fn content(&self) -> Seq<u8> {
        (**self)@
    }

    fn size(&self) -> (n: usize) {
        (**self).len()
    }

    fn read(&self, at: usize, n: usize) -> (r: &[u8]) {
        let total: usize = (**self).len();
        slice_subrange(&**self, at, at + n)
    }

    fn write(&mut self, at: usize, data: &[u8]) {
        write_slice(&mut **self, at, data);
    }

    fn zeroize(&mut self, from: usize, to: usize) {
        zeroize_slice(&mut **self, from, to);
    }
}

/// Touches one byte of each page below `len` to force physical backing.
pub fn prefault_region<M: Backing>(memory: &mut M, len: usize, page_size: usize)
    requires
        len <= old(memory).content().len(),
        page_size > 0,
    ensures
        final(memory).content() == prefaulted(
            old(memory).content(),
            len as int,
            page_size as int,
        ),
{
    let zero: [u8; 1] = [0];
    let mut offset: usize = 0;
    let ghost start = memory.content();
    proof {
        lemma_prefault_none(start, page_size as int);
    }
    while offset < len
        invariant
            len <= memory.content().len(),
            page_size > 0,
            zero@ == seq![0u8],
            start == old(memory).content(),
            offset % page_size == 0,
            memory.content() == prefaulted(
                start,
                if offset < len {
                    offset as int
                } else {
                    len as int
                },
                page_size as int,
            ),
        decreases len + page_size - offset,
    {
        memory.write(offset, zero.as_slice());
        proof {
            lemma_prefault_step(start, len as int, offset as int, page_size as int);
        }
        match offset.checked_add(page_size) {
            Some(next) => {
                offset = next;
            },
            None => {
                return ;
            },
        }
    }
    if len == 0 {
        assert(memory.content() =~= prefaulted(start, len as int, page_size as int));
    }
}

proof fn lemma_prefault_none(memory: Seq<u8>, page_size: int)
    ensures
        prefaulted(memory, 0, page_size) == memory,
{
    assert(prefaulted(memory, 0, page_size) =~= memory);
}

/// Touching the byte at `offset` extends the touched prefix to the next page.
proof fn lemma_prefault_step(memory: Seq<u8>, len: int, offset: int, page_size: int)
    requires
        0 <= offset < len <= memory.len(),
        page_size > 0,
        offset % page_size == 0,
    ensures
        overwrite(prefaulted(memory, offset, page_size), offset, seq![0u8]) == prefaulted(
            memory,
            if offset + page_size < len {
                offset + page_size
            } else {
                len
            },
            page_size,
        ),
        (offset + page_size) % page_size == 0,
{
    let next = if offset + page_size < len {
        offset + page_size
    } else {
        len
    };
    lemma_mod_add_multiples_vanish(offset, page_size);
    let touched = overwrite(prefaulted(memory, offset, page_size), offset, seq![0u8]);
    let wanted = prefaulted(memory, next, page_size);
    assert forall|i: int| 0 <= i < memory.len() implies touched[i] == wanted[i] by {
        if offset < i < next {
            lemma_small_mod((i - offset) as nat, page_size as nat);
            lemma_add_mod_noop(i - offset, offset, page_size);
        }
    }
    assert(touched =~= wanted);
}

/// Writing puts each byte of the data at its place and touches no other byte.
pub proof fn law_writing_touches_only_its_range(memory: Seq<u8>, at: int, data: Seq<u8>, i: int)
    requires
        0 <= at,
        at + data.len() <= memory.len(),
        0 <= i < memory.len(),
    ensures
        overwrite(memory, at, data).len() == memory.len(),
        overwrite(memory, at, data).subrange(at, at + data.len()) == data,
        i < at || at + data.len() <= i ==> overwrite(memory, at, data)[i] == memory[i],
{
    assert(overwrite(memory, at, data).subrange(at, at + data.len()) =~= data);
}

/// Zeroing clears each byte of the range and touches no other byte.
pub proof fn law_zeroing_touches_only_its_range(memory: Seq<u8>, from: int, to: int, i: int)
    requires
        0 <= i < memory.len(),
    ensures
        zero_range(memory, from, to).len() == memory.len(),
        from <= i < to ==> zero_range(memory, from, to)[i] == 0,
        i < from || to <= i ==> zero_range(memory, from, to)[i] == memory[i],
{
}

/// Walking pages writes a zero at the start of each page below the length and
/// touches no other byte; without a page size it touches none.
pub proof fn law_walking_touches_one_byte_per_page(
    memory: Seq<u8>,
    len: int,
    page_size: usize,
    i: int,
)
    requires
        page_size > 0,
        0 <= i < memory.len(),
    ensures
        faulted(memory, len, None) == memory,
        faulted(memory, len, Some(page_size)).len() == memory.len(),
        i < len && i % page_size as int == 0 ==> faulted(memory, len, Some(page_size))[i] == 0,
        len <= i || i % page_size as int != 0 ==> faulted(memory, len, Some(page_size))[i]
            == memory[i],
{
}

} // verus!
