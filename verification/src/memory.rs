//! A byte-addressed image of foreign memory.
//!
//! The decoder never touches raw memory. It reads from a [`Memory`]: a list
//! of regions, each a run of bytes placed at a base address. Where regions
//! overlap, the region mapped first supplies the byte.

use vstd::prelude::*;

verus! {

/// A run of bytes placed at `base`.
#[derive(Debug, PartialEq, Eq)]
pub struct Region {
    pub base: u64,
    pub bytes: Vec<u8>,
}

impl Region {
    /// Whether the region holds a byte for address `addr`. Addresses past the
    /// end of the 64-bit address space are never covered.
    pub open spec fn covers(&self, addr: int) -> bool {
        self.base <= addr < self.base + self.bytes@.len() && addr <= u64::MAX
    }

    /// The byte the region holds for `addr`, where it covers `addr`.
    pub open spec fn byte_at(&self, addr: int) -> u8 {
        self.bytes@[addr - self.base]
    }

    /// The byte at `addr`, if the region covers it.
    pub fn get(&self, addr: u64) -> (b: Option<u8>)
        ensures
            b == (if self.covers(addr as int) {
                Some(self.byte_at(addr as int))
            } else {
                None
            }),
    {
        if addr < self.base {
            return None;
        }
        let offset: u64 = addr - self.base;
        if offset < self.bytes.len() as u64 {
            Some(self.bytes[offset as usize])
        } else {
            None
        }
    }
}

/// Whether `regions[i]` is the first region that covers `addr`.
pub open spec fn first_cover(regions: Seq<Region>, addr: int, i: int) -> bool {
    &&& 0 <= i < regions.len()
    &&& regions[i].covers(addr)
    &&& forall|j: int| 0 <= j < i ==> !(#[trigger] regions[j]).covers(addr)
}

/// The bytes a list of regions makes readable, by address.
pub open spec fn image(regions: Seq<Region>) -> Map<int, u8> {
    Map::new(
        |addr: int| exists|i: int| first_cover(regions, addr, i),
        |addr: int| regions[choose|i: int| first_cover(regions, addr, i)].byte_at(addr),
    )
}

/// Whether every address of `[addr, addr + len)` is mapped in `mem`.
pub open spec fn readable(mem: Map<int, u8>, addr: int, len: nat) -> bool {
    forall|i: int| 0 <= i < len ==> #[trigger] mem.dom().contains(addr + i)
}

/// The `len` bytes of `mem` that start at `addr`.
pub open spec fn bytes_at(mem: Map<int, u8>, addr: int, len: nat) -> Seq<u8> {
    Seq::new(len, |i: int| mem[addr + i])
}

/// The bytes of `[addr, addr + len)`, provided all of them are mapped.
pub open spec fn read(mem: Map<int, u8>, addr: int, len: nat) -> Option<Seq<u8>> {
    if readable(mem, addr, len) {
        Some(bytes_at(mem, addr, len))
    } else {
        None
    }
}

/// Whether `larger` maps every address of `smaller` to the same byte.
pub open spec fn extends(larger: Map<int, u8>, smaller: Map<int, u8>) -> bool {
    forall|a: int| #[trigger]
        smaller.dom().contains(a) ==> larger.dom().contains(a) && larger[a] == smaller[a]
}

/// The first region that covers an address decides its byte.
pub proof fn lemma_first_cover_decides(regions: Seq<Region>, addr: int, i: int)
    requires
        first_cover(regions, addr, i),
    ensures
        image(regions).dom().contains(addr),
        image(regions)[addr] == regions[i].byte_at(addr),
{
    let c = choose|c: int| first_cover(regions, addr, c);
    assert(first_cover(regions, addr, c));
    if c < i {
        assert(!regions[c].covers(addr));
    }
    if i < c {
        assert(!regions[i].covers(addr));
    }
}

/// An address that no region covers is not mapped.
pub proof fn lemma_no_cover_unmapped(regions: Seq<Region>, addr: int)
    requires
        forall|j: int| 0 <= j < regions.len() ==> !(#[trigger] regions[j]).covers(addr),
    ensures
        !image(regions).dom().contains(addr),
{
}

/// A reading that succeeds in a memory succeeds, with the same bytes, in
/// every memory that extends it.
pub proof fn lemma_read_extends(larger: Map<int, u8>, smaller: Map<int, u8>, addr: int, len: nat)
    requires
        extends(larger, smaller),
        read(smaller, addr, len) is Some,
    ensures
        read(larger, addr, len) == read(smaller, addr, len),
{
    assert forall|i: int| 0 <= i < len implies #[trigger] larger.dom().contains(addr + i) by {
        assert(smaller.dom().contains(addr + i));
    }
    assert forall|i: int| 0 <= i < len implies bytes_at(larger, addr, len)[i] == bytes_at(
        smaller,
        addr,
        len,
    )[i] by {
        assert(smaller.dom().contains(addr + i));
    }
    assert(bytes_at(larger, addr, len) =~= bytes_at(smaller, addr, len));
}

/// A memory image: regions in the order in which they were mapped.
#[derive(Debug, PartialEq, Eq)]
pub struct Memory {
    pub regions: Vec<Region>,
}

impl View for Memory {
    type V = Map<int, u8>;

    open spec fn view(&self) -> Map<int, u8> {
        image(self.regions@)
    }
}

impl Memory {
    /// A memory in which no address is mapped.
    pub fn new() -> (mem: Memory)
        ensures
            mem@ == Map::<int, u8>::empty(),
            mem.regions@.len() == 0,
    {
        let mem = Memory { regions: Vec::new() };
        assert(mem@ =~= Map::<int, u8>::empty());
        mem
    }

    /// Maps `bytes` at `base`. Addresses that were mapped before keep their
    /// bytes; the others among `[base, base + bytes.len())` that lie in the
    /// address space now read as the matching byte of `bytes`.
    pub fn map(&mut self, base: u64, bytes: Vec<u8>)
        ensures
            final(self).regions@ == old(self).regions@.push(Region { base, bytes }),
            extends(final(self)@, old(self)@),
            forall|a: int| #[trigger]
                final(self)@.dom().contains(a) <==> old(self)@.dom().contains(a) || (Region {
                    base,
                    bytes,
                }).covers(a),
            forall|a: int|
                !old(self)@.dom().contains(a) && (Region { base, bytes }).covers(a)
                    ==> #[trigger] final(self)@[a] == bytes@[a - base],
            base + bytes@.len() <= u64::MAX + 1 ==> readable(
                final(self)@,
                base as int,
                bytes@.len(),
            ),
    {
        let ghost before = self.regions@;
        let ghost region = Region { base, bytes };
        self.regions.push(Region { base, bytes });
        proof {
            let after = self.regions@;
            assert(after == before.push(region));
            assert forall|a: int| #[trigger] image(before).dom().contains(a) implies image(
                after,
            ).dom().contains(a) && image(after)[a] == image(before)[a] by {
                let i = choose|i: int| first_cover(before, a, i);
                assert(first_cover(before, a, i));
                assert forall|j: int| 0 <= j < i implies !(#[trigger] after[j]).covers(a) by {
                    assert(after[j] == before[j]);
                }
                assert(after[i] == before[i]);
                assert(first_cover(after, a, i));
                lemma_first_cover_decides(after, a, i);
                lemma_first_cover_decides(before, a, i);
            }
            assert forall|a: int| !image(before).dom().contains(a) && region.covers(a) implies (
            #[trigger] image(after)[a]) == bytes@[a - base] by {
                lemma_fresh_cover(before, region, a);
            }
            assert forall|a: int| !image(before).dom().contains(a) && region.covers(a) implies (
            #[trigger] image(after).dom().contains(a)) by {
                lemma_fresh_cover(before, region, a);
            }
            if base + bytes@.len() <= u64::MAX + 1 {
                assert forall|i: int| 0 <= i < bytes@.len() implies #[trigger] image(
                    after,
                ).dom().contains(base + i) by {
                    assert(region.covers(base + i));
                    if image(before).dom().contains(base + i) {
                    } else {
                        lemma_fresh_cover(before, region, base + i);
                    }
                }
            }
            assert forall|a: int| #[trigger]
                image(after).dom().contains(a) implies image(before).dom().contains(a)
                || region.covers(a) by {
                let i = choose|i: int| first_cover(after, a, i);
                assert(first_cover(after, a, i));
                if i < before.len() {
                    assert forall|j: int| 0 <= j < i implies !(#[trigger] before[j]).covers(a) by {
                        assert(after[j] == before[j]);
                    }
                    assert(after[i] == before[i]);
                    assert(first_cover(before, a, i));
                } else {
                    assert(after[i] == region);
                }
            }
        }
    }

    /// The byte mapped at `addr`, if any.
    pub fn byte(&self, addr: u64) -> (b: Option<u8>)
        ensures
            b == (if self@.dom().contains(addr as int) {
                Some(self@[addr as int])
            } else {
                None
            }),
    {
        let mut i: usize = 0;
        while i < self.regions.len()
            invariant
                i <= self.regions@.len(),
                forall|j: int| 0 <= j < i ==> !(#[trigger] self.regions@[j]).covers(addr as int),
            decreases self.regions@.len() - i,
        {
            match self.regions[i].get(addr) {
                Some(b) => {
                    proof {
                        assert(first_cover(self.regions@, addr as int, i as int));
                        lemma_first_cover_decides(self.regions@, addr as int, i as int);
                    }
                    return Some(b);
                },
                None => {},
            }
            i = i + 1;
        }
        proof {
            lemma_no_cover_unmapped(self.regions@, addr as int);
        }
        None
    }

    /// The `len` bytes that start at `addr`, if every one of them is mapped.
    pub fn read_bytes(&self, addr: u64, len: usize) -> (r: Option<Vec<u8>>)
        ensures
            match r {
                Some(bytes) => read(self@, addr as int, len as nat) == Some(bytes@),
                None => read(self@, addr as int, len as nat) is None,
            },
    {
        let mut out: Vec<u8> = Vec::new();
        let mut i: usize = 0;
        while i < len
            invariant
                i <= len,
                out@.len() == i,
                forall|k: int| 0 <= k < i ==> #[trigger] self@.dom().contains(addr + k),
                forall|k: int| 0 <= k < i ==> #[trigger] out@[k] == self@[addr + k],
            decreases len - i,
        {
            if i as u64 > u64::MAX - addr {
                proof {
                    lemma_out_of_space_unmapped(self.regions@, addr + i);
                    assert(!self@.dom().contains(addr + i));
                }
                return None;
            }
            let at: u64 = addr + i as u64;
            match self.byte(at) {
                Some(b) => {
                    out.push(b);
                },
                None => {
                    assert(!self@.dom().contains(addr + i));
                    return None;
                },
            }
            i = i + 1;
        }
        assert(out@ =~= bytes_at(self@, addr as int, len as nat));
        Some(out)
    }
}

/// An address that was unmapped reads, once a region that covers it is
/// mapped, as that region's byte.
pub proof fn lemma_fresh_cover(before: Seq<Region>, region: Region, addr: int)
    requires
        !image(before).dom().contains(addr),
        region.covers(addr),
    ensures
        image(before.push(region)).dom().contains(addr),
        image(before.push(region))[addr] == region.byte_at(addr),
{
    let after = before.push(region);
    let n = before.len() as int;
    assert forall|j: int| 0 <= j < n implies !(#[trigger] after[j]).covers(addr) by {
        assert(after[j] == before[j]);
        if before[j].covers(addr) {
            lemma_some_cover_mapped(before, addr, j);
        }
    }
    assert(after[n] == region);
    assert(first_cover(after, addr, n));
    lemma_first_cover_decides(after, addr, n);
}

/// An address that some region covers is mapped.
pub proof fn lemma_some_cover_mapped(regions: Seq<Region>, addr: int, j: int)
    requires
        0 <= j < regions.len(),
        regions[j].covers(addr),
    ensures
        image(regions).dom().contains(addr),
    decreases j,
{
    if forall|k: int| 0 <= k < j ==> !(#[trigger] regions[k]).covers(addr) {
        assert(first_cover(regions, addr, j));
    } else {
        let k = choose|k: int| 0 <= k < j && (#[trigger] regions[k]).covers(addr);
        lemma_some_cover_mapped(regions, addr, k);
    }
}

/// No address past the end of the 64-bit address space is mapped.
pub proof fn lemma_out_of_space_unmapped(regions: Seq<Region>, addr: int)
    requires
        addr > u64::MAX,
    ensures
        !image(regions).dom().contains(addr),
{
}

} // verus!
