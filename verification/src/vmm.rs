//! Virtual memory manager: a fixed pool of physical frames behind a page
//! table that maps monotonically assigned virtual addresses to frames.

use vstd::prelude::*;
use vstd::arithmetic::div_mod::lemma_fundamental_div_mod;
use vstd::arithmetic::div_mod::lemma_fundamental_div_mod_converse;
use vstd::arithmetic::mul::lemma_mul_inequality;
use crate::KernelError;

verus! {

/// Size in bytes of one page; each frame backs exactly one page.
pub const DEFAULT_PAGE_SIZE: u64 = 4096;

/// One unit of physical backing storage.
pub struct Frame {
    pub id: u64,
    pub address: u64,
    pub in_use: bool,
    pub content: Option<Vec<u8>>,
}

/// The record binding a virtual address to a physical address.
///
/// The flag bits mean present, writable, user-accessible and accessed;
/// every live entry carries the same fixed pattern.
pub struct PageTableEntry {
    pub virtual_address: u64,
    pub physical_address: u64,
    pub flags: u8,
}

/// The memory manager: frame pool, page table and the never-reused
/// virtual-address counter.
pub struct Vmm {
    pub total_memory: u64,
    pub free_memory: u64,
    pub frames: Vec<Frame>,
    pub page_table: Vec<PageTableEntry>,
    pub next_virtual_address: u64,
}

/// How many frames of a sequence are marked in use.
pub open spec fn in_use_frames(s: Seq<Frame>) -> int
    decreases s.len(),
{
    if s.len() == 0 {
        0
    } else {
        in_use_frames(s.drop_last()) + if s.last().in_use {
            1int
        } else {
            0int
        }
    }
}

pub proof fn lemma_in_use_bounds(s: Seq<Frame>)
    ensures
        0 <= in_use_frames(s) <= s.len(),
        (in_use_frames(s) == s.len()) <==> (forall|i: int|
            0 <= i < s.len() ==> (#[trigger] s[i]).in_use),
    decreases s.len(),
{
    if s.len() > 0 {
        lemma_in_use_bounds(s.drop_last());
        if in_use_frames(s) == s.len() {
            assert forall|i: int| 0 <= i < s.len() implies (#[trigger] s[i]).in_use by {
                if i < s.len() - 1 {
                    assert(s.drop_last()[i] == s[i]);
                }
            }
        }
        if forall|i: int| 0 <= i < s.len() ==> (#[trigger] s[i]).in_use {
            assert forall|i: int|
                0 <= i < s.drop_last().len() implies (#[trigger] s.drop_last()[i]).in_use by {
                assert(s.drop_last()[i] == s[i]);
            }
        }
    }
}

pub proof fn lemma_in_use_push(s: Seq<Frame>, f: Frame)
    ensures
        in_use_frames(s.push(f)) == in_use_frames(s) + if f.in_use {
            1int
        } else {
            0int
        },
{
    assert(s.push(f).drop_last() =~= s);
    assert(s.push(f).last() == f);
}

pub proof fn lemma_in_use_update(s: Seq<Frame>, i: int, f: Frame)
    requires
        0 <= i < s.len(),
    ensures
        in_use_frames(s.update(i, f)) == in_use_frames(s) - (if s[i].in_use {
            1int
        } else {
            0int
        }) + (if f.in_use {
            1int
        } else {
            0int
        }),
    decreases s.len(),
{
    if i == s.len() - 1 {
        assert(s.update(i, f).drop_last() =~= s.drop_last());
        assert(s.update(i, f).last() == f);
    } else {
        assert(s.update(i, f).drop_last() =~= s.drop_last().update(i, f));
        assert(s.update(i, f).last() == s.last());
        lemma_in_use_update(s.drop_last(), i, f);
        assert(s.drop_last()[i] == s[i]);
    }
}

impl Vmm {
    /// Frames carry their own index and the physical address derived from it.
    pub open spec fn frames_wf(self) -> bool {
        forall|i: int|
            0 <= i < self.frames@.len() ==> (#[trigger] self.frames@[i]).id == i
                && self.frames@[i].address == i * 4096
    }

    /// Page-table entries are unique in virtual and in physical address,
    /// stay below the address counter, and point into the frame pool.
    pub open spec fn table_wf(self) -> bool {
        let pt = self.page_table@;
        &&& forall|j: int|
            0 <= j < pt.len() ==> (#[trigger] pt[j]).virtual_address < self.next_virtual_address
        &&& forall|j: int, k: int|
            0 <= j < pt.len() && 0 <= k < pt.len() && (#[trigger] pt[j]).virtual_address == (
            #[trigger] pt[k]).virtual_address ==> j == k
        &&& forall|j: int|
            0 <= j < pt.len() ==> (#[trigger] pt[j]).physical_address == (pt[j].physical_address
                as int / 4096) * 4096
        &&& forall|j: int|
            0 <= j < pt.len() ==> (#[trigger] pt[j]).physical_address as int / 4096
                < self.frames@.len()
        &&& forall|j: int, k: int|
            0 <= j < pt.len() && 0 <= k < pt.len() && j != k ==> (
            #[trigger] pt[j]).physical_address != (#[trigger] pt[k]).physical_address
    }

    /// Some page-table entry maps to frame `i`.
    pub open spec fn frame_mapped(self, i: int) -> bool {
        exists|j: int|
            0 <= j < self.page_table@.len() && (#[trigger] self.page_table@[j]).physical_address
                == i * 4096
    }

    /// A frame is in use exactly when the table maps to it, and a free
    /// frame holds no content.
    pub open spec fn link_wf(self) -> bool {
        &&& forall|i: int|
            0 <= i < self.frames@.len() ==> ((#[trigger] self.frames@[i]).in_use
                <==> self.frame_mapped(i))
        &&& forall|i: int|
            0 <= i < self.frames@.len() && !(#[trigger] self.frames@[i]).in_use
                ==> self.frames@[i].content is None
    }

    /// Free memory accounts exactly for the frames still available.
    pub open spec fn mem_wf(self) -> bool {
        &&& self.free_memory == self.total_memory - in_use_frames(self.frames@) * 4096
        &&& self.frames@.len() * 4096 <= self.total_memory
    }

    pub open spec fn wf(self) -> bool {
        self.frames_wf() && self.table_wf() && self.link_wf() && self.mem_wf()
    }

    /// The page table has an entry for this virtual address.
    pub open spec fn has_va(self, va: u64) -> bool {
        exists|j: int|
            0 <= j < self.page_table@.len() && (#[trigger] self.page_table@[j]).virtual_address
                == va
    }

    /// The entry mapping `va`; meaningful only when `has_va(va)`.
    pub open spec fn entry_of(self, va: u64) -> PageTableEntry {
        self.page_table@[choose|j: int|
            0 <= j < self.page_table@.len() && (#[trigger] self.page_table@[j]).virtual_address
                == va]
    }

    /// Index of the frame backing `va`; meaningful only when `has_va(va)`.
    pub open spec fn frame_of(self, va: u64) -> int {
        self.entry_of(va).physical_address as int / 4096
    }

    /// The bytes stored for `va`, if any were ever stored.
    pub open spec fn content_of(self, va: u64) -> Option<Seq<u8>> {
        match self.frames@[self.frame_of(va)].content {
            Some(c) => Some(c@),
            None => None,
        }
    }

    /// Every frame is taken.
    pub open spec fn full(self) -> bool {
        forall|i: int| 0 <= i < self.frames@.len() ==> (#[trigger] self.frames@[i]).in_use
    }

    /// One more page can be allocated: a frame is free and a fresh
    /// virtual address remains.
    pub open spec fn can_allocate(self) -> bool {
        !self.full() && self.next_virtual_address < u64::MAX
    }

    /// The entry found at index `j` is the entry `entry_of` speaks of.
    pub proof fn lemma_entry_at(self, va: u64, j: int)
        requires
            self.table_wf(),
            0 <= j < self.page_table@.len(),
            self.page_table@[j].virtual_address == va,
        ensures
            self.has_va(va),
            self.entry_of(va) == self.page_table@[j],
    {
        assert(self.has_va(va));
        let k = choose|k: int|
            0 <= k < self.page_table@.len() && (#[trigger] self.page_table@[k]).virtual_address
                == va;
        assert(k == j);
    }

    /// Build a manager over `total_memory` bytes of backing storage,
    /// cut into frames of `DEFAULT_PAGE_SIZE` bytes.
    pub fn new(total_memory: u64) -> (r: Vmm)
        ensures
            r.wf(),
            r.total_memory == total_memory,
            r.free_memory == total_memory,
            r.next_virtual_address == 0,
            r.frames@.len() == total_memory as int / 4096,
            in_use_frames(r.frames@) == 0,
            forall|va: u64| !r.has_va(va),
    {
        let num_frames = total_memory / DEFAULT_PAGE_SIZE;
        proof {
            lemma_fundamental_div_mod(total_memory as int, 4096);
        }
        let mut frames: Vec<Frame> = Vec::new();
        let mut frame_id: u64 = 0;
        while frame_id < num_frames
            invariant
                num_frames == total_memory as int / 4096,
                num_frames * 4096 <= total_memory,
                frame_id <= num_frames,
                frames@.len() == frame_id,
                in_use_frames(frames@) == 0,
                forall|i: int|
                    0 <= i < frames@.len() ==> (#[trigger] frames@[i]).id == i
                        && frames@[i].address == i * 4096 && !frames@[i].in_use
                        && frames@[i].content is None,
            decreases num_frames - frame_id,
        {
            proof {
                lemma_mul_inequality(frame_id as int + 1, num_frames as int, 4096);
            }
            let f = Frame {
                id: frame_id,
                address: frame_id * DEFAULT_PAGE_SIZE,
                in_use: false,
                content: None,
            };
            proof {
                lemma_in_use_push(frames@, f);
            }
            frames.push(f);
            frame_id = frame_id + 1;
        }
        let r = Vmm {
            total_memory,
            free_memory: total_memory,
            frames,
            page_table: Vec::new(),
            next_virtual_address: 0,
        };
        r
    }

    /// Scan for the first free frame.
    fn find_free_frame(&self) -> (r: Option<usize>)
        ensures
            match r {
                Some(i) => i < self.frames@.len() && !self.frames@[i as int].in_use,
                None => self.full(),
            },
    {
        let mut i: usize = 0;
        while i < self.frames.len()
            invariant
                forall|k: int| 0 <= k < i ==> (#[trigger] self.frames@[k]).in_use,
            decreases self.frames@.len() - i,
        {
            if !self.frames[i].in_use {
                return Some(i);
            }
            i = i + 1;
        }
        None
    }

    /// Scan for the entry mapping `va`.
    fn find_entry(&self, va: u64) -> (r: Option<usize>)
        ensures
            match r {
                Some(j) => j < self.page_table@.len() && self.page_table@[j as int].virtual_address
                    == va && self.has_va(va),
                None => !self.has_va(va),
            },
    {
        let mut j: usize = 0;
        while j < self.page_table.len()
            invariant
                forall|k: int| 0 <= k < j ==> (#[trigger] self.page_table@[k]).virtual_address != va,
            decreases self.page_table@.len() - j,
        {
            if self.page_table[j].virtual_address == va {
                return Some(j);
            }
            j = j + 1;
        }
        None
    }

    /// Allocate one page: bind the next virtual address to the first free
    /// frame.  Fails with `ResourceExhausted` when no frame (or no fresh
    /// address) is left; the manager is then unchanged.
    pub fn allocate_page(&mut self) -> (r: Result<(u64, u64), KernelError>)
        requires
            old(self).wf(),
        ensures
            final(self).wf(),
            final(self).total_memory == old(self).total_memory,
            r is Ok <==> old(self).can_allocate(),
            r is Err ==> *final(self) == *old(self) && r == Err::<(u64, u64), KernelError>(
                KernelError::ResourceExhausted,
            ),
            r matches Ok(p) ==> {
                &&& p.0 == old(self).next_virtual_address
                &&& p.1 == DEFAULT_PAGE_SIZE
                &&& !old(self).has_va(p.0)
                &&& final(self).has_va(p.0)
                &&& final(self).content_of(p.0) is None
                &&& final(self).next_virtual_address == old(self).next_virtual_address + 1
                &&& final(self).free_memory == old(self).free_memory - 4096
                &&& in_use_frames(final(self).frames@) == in_use_frames(old(self).frames@) + 1
                &&& final(self).frames@.len() == old(self).frames@.len()
                &&& forall|va: u64|
                    old(self).has_va(va) ==> final(self).has_va(va) && final(self).content_of(va)
                        == old(self).content_of(va)
                &&& forall|va: u64|
                    final(self).has_va(va) ==> old(self).has_va(va) || va == p.0
            },
    {
        if self.next_virtual_address == u64::MAX {
            return Err(KernelError::ResourceExhausted);
        }
        let idx = match self.find_free_frame() {
            Some(i) => i,
            None => {
                return Err(KernelError::ResourceExhausted);
            },
        };
        proof {
            lemma_in_use_bounds(self.frames@);
            assert(in_use_frames(self.frames@) < self.frames@.len());
            lemma_mul_inequality(
                in_use_frames(self.frames@) + 1,
                self.frames@.len() as int,
                4096,
            );
        }
        let va = self.next_virtual_address;
        self.next_virtual_address = va + 1;
        let pa = self.frames[idx].address;
        let entry = PageTableEntry { virtual_address: va, physical_address: pa, flags: 0b0001_0111 };
        self.page_table.push(entry);
        let ghost mid_frames = self.frames@;
        self.frames[idx].in_use = true;
        proof {
            lemma_in_use_update(
                mid_frames,
                idx as int,
                Frame { in_use: true, ..mid_frames[idx as int] },
            );
        }
        self.free_memory = self.free_memory - DEFAULT_PAGE_SIZE;
        proof {
            self.lemma_allocate_page_post(*old(self), va, idx as int);
        }
        Ok((va, DEFAULT_PAGE_SIZE))
    }

    /// The state after `allocate_page` placed `va` on frame `idx` is well
    /// formed and preserves the contents of every earlier address.
    proof fn lemma_allocate_page_post(self, pre: Vmm, va: u64, idx: int)
        requires
            pre.wf(),
            pre.next_virtual_address < u64::MAX,
            0 <= idx < pre.frames@.len(),
            !pre.frames@[idx].in_use,
            va == pre.next_virtual_address,
            self.total_memory == pre.total_memory,
            self.next_virtual_address == va + 1,
            self.free_memory == pre.free_memory - 4096,
            self.page_table@ == pre.page_table@.push(
                PageTableEntry {
                    virtual_address: va,
                    physical_address: pre.frames@[idx].address,
                    flags: 0b0001_0111,
                },
            ),
            self.frames@ == pre.frames@.update(
                idx,
                Frame { in_use: true, ..pre.frames@[idx] },
            ),
            in_use_frames(self.frames@) == in_use_frames(pre.frames@) + 1,
        ensures
            self.wf(),
            self.has_va(va),
            !pre.has_va(va),
            self.content_of(va) is None,
            forall|w: u64|
                pre.has_va(w) ==> self.has_va(w) && self.content_of(w) == pre.content_of(w),
            forall|w: u64| self.has_va(w) ==> pre.has_va(w) || w == va,
    {
        let pt0 = pre.page_table@;
        let pt1 = self.page_table@;
        let n = pt0.len() as int;
        assert(pt1[n].virtual_address == va);
        self.lemma_entry_at(va, n);
        // frames_wf
        assert forall|i: int| 0 <= i < self.frames@.len() implies (#[trigger] self.frames@[i]).id
            == i && self.frames@[i].address == i * 4096 by {
            assert(pre.frames@[i].id == i);
        }
        // table_wf: the new entry has a fresh virtual address and a fresh
        // physical address (the frame was unmapped).
        assert(!pre.frame_mapped(idx));
        assert(pre.frames@[idx].address == idx * 4096);
        assert forall|j: int|
            0 <= j < pt1.len() implies (#[trigger] pt1[j]).physical_address == (
        pt1[j].physical_address as int / 4096) * 4096 && pt1[j].physical_address as int / 4096
            < self.frames@.len() by {
            if j < n {
                assert(pt1[j] == pt0[j]);
            } else {
                assert(pt1[j].physical_address == idx * 4096);
                assert((idx * 4096) as int / 4096 == idx) by (nonlinear_arith)
                    requires 0 <= idx;
            }
        }
        assert forall|j: int, k: int|
            0 <= j < pt1.len() && 0 <= k < pt1.len() && j != k implies (
        #[trigger] pt1[j]).physical_address != (#[trigger] pt1[k]).physical_address by {
            if j < n && k < n {
                assert(pt1[j] == pt0[j] && pt1[k] == pt0[k]);
            } else if j == n {
                assert(pt1[k] == pt0[k]);
                assert(pt0[k].physical_address as int / 4096 != idx || pre.frame_mapped(idx));
                assert((idx * 4096) as int / 4096 == idx) by (nonlinear_arith)
                    requires 0 <= idx;
            } else {
                assert(pt1[j] == pt0[j]);
                assert(pt0[j].physical_address as int / 4096 != idx || pre.frame_mapped(idx));
                assert((idx * 4096) as int / 4096 == idx) by (nonlinear_arith)
                    requires 0 <= idx;
            }
        }
        // link_wf
        assert forall|i: int| 0 <= i < self.frames@.len() implies ((
        #[trigger] self.frames@[i]).in_use <==> self.frame_mapped(i)) by {
            if i == idx {
                assert(pt1[n].physical_address == idx * 4096);
                assert(self.frame_mapped(i));
            } else {
                if pre.frame_mapped(i) {
                    let j = choose|j: int|
                        0 <= j < pt0.len() && (#[trigger] pt0[j]).physical_address == i * 4096;
                    assert(pt1[j].physical_address == i * 4096);
                    assert(self.frame_mapped(i));
                }
                if self.frame_mapped(i) {
                    let j = choose|j: int|
                        0 <= j < pt1.len() && (#[trigger] pt1[j]).physical_address == i * 4096;
                    if j == n {
                        assert(idx * 4096 == i * 4096);
                        assert(idx == i) by (nonlinear_arith)
                            requires idx * 4096 == i * 4096;
                        assert(false);
                    }
                    assert(pt0[j].physical_address == i * 4096);
                    assert(pre.frame_mapped(i));
                }
            }
        }
        // contents preserved for earlier addresses
        assert forall|w: u64| pre.has_va(w) implies self.has_va(w) && self.content_of(w)
            == pre.content_of(w) by {
            let j = choose|j: int|
                0 <= j < pt0.len() && (#[trigger] pt0[j]).virtual_address == w;
            pre.lemma_entry_at(w, j);
            assert(pt1[j].virtual_address == w);
            self.lemma_entry_at(w, j);
            let fi = pre.frame_of(w);
            assert(fi != idx || pre.frame_mapped(idx));
            assert((idx * 4096) as int / 4096 == idx) by (nonlinear_arith)
                requires 0 <= idx;
            assert(self.frames@[fi] == pre.frames@[fi]);
        }
        assert forall|w: u64| self.has_va(w) implies pre.has_va(w) || w == va by {
            let j = choose|j: int|
                0 <= j < pt1.len() && (#[trigger] pt1[j]).virtual_address == w;
            if j < n {
                assert(pt0[j].virtual_address == w);
            }
        }
        // content of the fresh page: its frame held nothing (it was free)
        assert(self.frame_of(va) == idx) by {
            assert(self.entry_of(va).physical_address == idx * 4096);
            assert((idx * 4096) as int / 4096 == idx) by (nonlinear_arith)
                requires 0 <= idx;
        }
        assert(pre.frames@[idx].content is None);
    }

    /// Every address of `addrs` is mapped and no address repeats, so all
    /// of them can be deallocated together.
    pub open spec fn can_deallocate(self, addrs: Seq<u64>) -> bool {
        &&& forall|i: int| 0 <= i < addrs.len() ==> self.has_va(#[trigger] addrs[i])
        &&& forall|i: int, j: int|
            0 <= i < addrs.len() && 0 <= j < addrs.len() && i != j ==> addrs[i] != addrs[j]
    }

    /// Release the pages behind the given addresses: their entries leave
    /// the page table, their frames become free and empty, and the freed
    /// memory is accounted back.  Either all addresses are released or,
    /// when one is unknown or repeated, nothing changes at all.
    pub fn deallocate_page(&mut self, virtual_addresses: Vec<u64>) -> (r: Result<
        (),
        KernelError,
    >)
        requires
            old(self).wf(),
        ensures
            final(self).wf(),
            final(self).total_memory == old(self).total_memory,
            final(self).next_virtual_address == old(self).next_virtual_address,
            r is Ok <==> old(self).can_deallocate(virtual_addresses@),
            r is Err ==> *final(self) == *old(self) && r == Err::<(), KernelError>(
                KernelError::InvariantViolation,
            ),
            r is Ok ==> deallocate_ok_post(*old(self), *final(self), virtual_addresses@),
    {
        let addrs = &virtual_addresses;
        // Validation pass: every address mapped, none repeated.
        let mut k: usize = 0;
        while k < addrs.len()
            invariant
                old(self) == self,
                self.wf(),
                addrs@ == virtual_addresses@,
                k <= addrs@.len(),
                forall|i: int| 0 <= i < k ==> self.has_va(#[trigger] addrs@[i]),
                forall|i: int, j: int| 0 <= i < j < k ==> addrs@[i] != addrs@[j],
            decreases addrs@.len() - k,
        {
            if self.find_entry(addrs[k]).is_none() {
                proof {
                    assert(!self.has_va(addrs@[k as int]));
                }
                return Err(KernelError::InvariantViolation);
            }
            let mut t: usize = 0;
            while t < k
                invariant
                    old(self) == self,
                    self.wf(),
                    addrs@ == virtual_addresses@,
                    t <= k < addrs@.len(),
                    forall|i: int| 0 <= i < t ==> addrs@[i] != addrs@[k as int],
                decreases k - t,
            {
                if addrs[t] == addrs[k] {
                    proof {
                        assert(addrs@[t as int] == addrs@[k as int]);
                    }
                    return Err(KernelError::InvariantViolation);
                }
                t = t + 1;
            }
            k = k + 1;
        }
        proof {
            assert forall|i: int, j: int|
                0 <= i < addrs@.len() && 0 <= j < addrs@.len() && i != j implies addrs@[i]
                != addrs@[j] by {
                if i < j {
                } else {
                    assert(addrs@[j] != addrs@[i]);
                }
            }
        }
        // Mutation pass.
        let ghost pre = *self;
        let mut k: usize = 0;
        while k < addrs.len()
            invariant
                pre.wf(),
                addrs@ == virtual_addresses@,
                pre.can_deallocate(addrs@),
                self.wf(),
                k <= addrs@.len(),
                self.total_memory == pre.total_memory,
                self.next_virtual_address == pre.next_virtual_address,
                self.frames@.len() == pre.frames@.len(),
                self.free_memory == pre.free_memory + k * 4096,
                in_use_frames(self.frames@) == in_use_frames(pre.frames@) - k,
                forall|w: u64|
                    self.has_va(w) <==> (pre.has_va(w) && !addrs@.take(k as int).contains(w)),
                forall|w: u64| self.has_va(w) ==> self.content_of(w) == pre.content_of(w),
            decreases addrs@.len() - k,
        {
            let va = addrs[k];
            proof {
                assert(pre.has_va(va));
                assert forall|t: int| 0 <= t < k implies addrs@.take(k as int)[t] != va by {
                    assert(addrs@[t] != addrs@[k as int]);
                }
                assert(!addrs@.take(k as int).contains(va));
                assert(self.has_va(va));
            }
            let j = match self.find_entry(va) {
                Some(j) => j,
                None => {
                    proof {
                        assert(false);
                    }
                    return Err(KernelError::InvariantViolation);
                },
            };
            let pa = self.page_table[j].physical_address;
            let nf = self.frames.len();
            proof {
                assert(self.page_table@[j as int].physical_address as int / 4096 < nf);
            }
            let fi = (pa / DEFAULT_PAGE_SIZE) as usize;
            let ghost step_pre = *self;
            self.page_table.remove(j);
            self.frames[fi].in_use = false;
            let ghost mid_frames = self.frames@;
            self.frames[fi].content = None;
            proof {
                assert(self.frames@ =~= step_pre.frames@.update(
                    fi as int,
                    Frame { in_use: false, content: None, ..step_pre.frames@[fi as int] },
                ));
                step_pre.lemma_deallocate_step(*self, va, j as int, fi as int);
                lemma_in_use_bounds(self.frames@);
            }
            self.free_memory = self.free_memory + DEFAULT_PAGE_SIZE;
            proof {
                let t1 = addrs@.take(k as int + 1);
                let t0 = addrs@.take(k as int);
                assert(t1 =~= t0.push(va));
                assert forall|w: u64| #![auto] t1.contains(w) <==> (t0.contains(w) || w == va) by {
                    if t1.contains(w) {
                        let idx = choose|idx: int| 0 <= idx < t1.len() && t1[idx] == w;
                        if idx < k {
                            assert(t0[idx] == w);
                            assert(t0.contains(w));
                        } else {
                            assert(w == va);
                        }
                    }
                    if t0.contains(w) {
                        let idx = choose|idx: int| 0 <= idx < t0.len() && t0[idx] == w;
                        assert(t1[idx] == w);
                    }
                    if w == va {
                        assert(t1[k as int] == w);
                    }
                }
            }
            k = k + 1;
        }
        proof {
            assert(addrs@.take(addrs@.len() as int) =~= addrs@);
        }
        Ok(())
    }

    /// One deallocation step — entry `j` for `va` removed, its frame `fi`
    /// cleared, the free-memory counter not yet raised — preserves the
    /// invariant and removes exactly `va` from the mapped addresses.
    proof fn lemma_deallocate_step(self, post: Vmm, va: u64, j: int, fi: int)
        requires
            self.wf(),
            0 <= j < self.page_table@.len(),
            self.page_table@[j].virtual_address == va,
            fi == self.page_table@[j].physical_address as int / 4096,
            post.page_table@ == self.page_table@.remove(j),
            post.frames@ == self.frames@.update(
                fi,
                Frame { in_use: false, content: None, ..self.frames@[fi] },
            ),
            post.next_virtual_address == self.next_virtual_address,
            post.total_memory == self.total_memory,
            post.free_memory == self.free_memory,
        ensures
            post.frames_wf(),
            post.table_wf(),
            post.link_wf(),
            post.frames@.len() * 4096 <= post.total_memory,
            in_use_frames(post.frames@) == in_use_frames(self.frames@) - 1,
            forall|w: u64| post.has_va(w) <==> (self.has_va(w) && w != va),
            forall|w: u64| post.has_va(w) ==> post.content_of(w) == self.content_of(w),
    {
        let pt0 = self.page_table@;
        let pt1 = post.page_table@;
        let pa = pt0[j].physical_address;
        assert(pa == fi * 4096);
        assert(0 <= fi < self.frames@.len());
        assert(self.frame_mapped(fi));
        assert(self.frames@[fi].in_use);
        lemma_in_use_update(
            self.frames@,
            fi,
            Frame { in_use: false, content: None, ..self.frames@[fi] },
        );
        assert(forall|t: int| 0 <= t < j ==> pt1[t] == pt0[t]);
        assert(forall|t: int| j <= t < pt1.len() ==> pt1[t] == pt0[t + 1]);
        // link_wf
        assert forall|i: int| 0 <= i < post.frames@.len() implies ((
        #[trigger] post.frames@[i]).in_use <==> post.frame_mapped(i)) by {
            if i == fi {
                if post.frame_mapped(i) {
                    let t = choose|t: int|
                        0 <= t < pt1.len() && (#[trigger] pt1[t]).physical_address == i * 4096;
                    let t0: int = if t < j {
                        t
                    } else {
                        t + 1
                    };
                    assert(pt0[t0].physical_address == pa);
                    assert(t0 == j);
                    assert(false);
                }
            } else {
                if post.frames@[i].in_use {
                    assert(self.frames@[i].in_use);
                    let t = choose|t: int|
                        0 <= t < pt0.len() && (#[trigger] pt0[t]).physical_address == i * 4096;
                    assert(t != j);
                    let t1: int = if t < j {
                        t
                    } else {
                        t - 1
                    };
                    assert(pt1[t1].physical_address == i * 4096);
                    assert(post.frame_mapped(i));
                }
                if post.frame_mapped(i) {
                    let t = choose|t: int|
                        0 <= t < pt1.len() && (#[trigger] pt1[t]).physical_address == i * 4096;
                    let t0: int = if t < j {
                        t
                    } else {
                        t + 1
                    };
                    assert(pt0[t0].physical_address == i * 4096);
                    assert(self.frame_mapped(i));
                    assert(self.frames@[i].in_use);
                }
            }
        }
        // mapped addresses
        assert forall|w: u64| post.has_va(w) implies (self.has_va(w) && w != va) by {
            let t = choose|t: int|
                0 <= t < pt1.len() && (#[trigger] pt1[t]).virtual_address == w;
            let t0: int = if t < j {
                t
            } else {
                t + 1
            };
            assert(pt0[t0].virtual_address == w);
            assert(t0 != j);
        }
        assert forall|w: u64| self.has_va(w) && w != va implies post.has_va(w) by {
            let t = choose|t: int|
                0 <= t < pt0.len() && (#[trigger] pt0[t]).virtual_address == w;
            assert(t != j);
            let t1: int = if t < j {
                t
            } else {
                t - 1
            };
            assert(pt1[t1].virtual_address == w);
        }
        // contents preserved
        assert forall|w: u64| post.has_va(w) implies post.content_of(w) == self.content_of(
            w,
        ) by {
            let t = choose|t: int|
                0 <= t < pt1.len() && (#[trigger] pt1[t]).virtual_address == w;
            let t0: int = if t < j {
                t
            } else {
                t + 1
            };
            assert(pt0[t0].virtual_address == w);
            post.lemma_entry_at(w, t);
            self.lemma_entry_at(w, t0);
            assert(post.entry_of(w) == self.entry_of(w));
            let wf_ = self.frame_of(w);
            assert(t0 != j);
            assert(pt0[t0].physical_address != pa);
            assert(wf_ != fi);
            assert(post.frames@[wf_] == self.frames@[wf_]);
        }
    }
}

impl Vmm {
    /// Count the frames currently in use.
    pub fn count_in_use(&self) -> (r: u64)
        ensures
            r == in_use_frames(self.frames@),
    {
        let mut i: usize = 0;
        let mut counter: u64 = 0;
        let nf = self.frames.len();
        proof {
            assert(self.frames@.take(0) =~= Seq::<Frame>::empty());
        }
        while i < nf
            invariant
                nf == self.frames@.len(),
                i <= nf,
                counter == in_use_frames(self.frames@.take(i as int)),
                counter <= i,
            decreases nf - i,
        {
            proof {
                assert(self.frames@.take(i as int + 1).drop_last() =~= self.frames@.take(i as int));
                assert(self.frames@.take(i as int + 1).last() == self.frames@[i as int]);
                lemma_in_use_bounds(self.frames@.take(i as int));
            }
            if self.frames[i].in_use {
                counter = counter + 1;
            }
            i = i + 1;
        }
        proof {
            assert(self.frames@.take(self.frames@.len() as int) =~= self.frames@);
        }
        counter
    }

    /// Overwrite the stored bytes of the page behind `va`.
    fn store_content(&mut self, va: u64, content: Vec<u8>)
        requires
            old(self).wf(),
            old(self).has_va(va),
        ensures
            final(self).wf(),
            final(self).total_memory == old(self).total_memory,
            final(self).free_memory == old(self).free_memory,
            final(self).next_virtual_address == old(self).next_virtual_address,
            final(self).frames@.len() == old(self).frames@.len(),
            final(self).page_table@ == old(self).page_table@,
            in_use_frames(final(self).frames@) == in_use_frames(old(self).frames@),
            forall|w: u64| final(self).has_va(w) <==> old(self).has_va(w),
            final(self).content_of(va) == Some(content@),
            forall|w: u64|
                w != va && old(self).has_va(w) ==> final(self).content_of(w) == old(
                    self,
                ).content_of(w),
    {
        let j = match self.find_entry(va) {
            Some(j) => j,
            None => {
                proof {
                    assert(false);
                }
                return ;
            },
        };
        let pa = self.page_table[j].physical_address;
        let nf = self.frames.len();
        proof {
            assert(self.page_table@[j as int].physical_address as int / 4096 < nf);
            self.lemma_entry_at(va, j as int);
            assert(self.frame_mapped(self.frame_of(va)) && 0 <= self.frame_of(va)
                < self.frames@.len()) by {
                assert(self.page_table@[j as int].physical_address == self.frame_of(va) * 4096);
            }
        }
        let fi = (pa / DEFAULT_PAGE_SIZE) as usize;
        let ghost pre = *self;
        self.frames[fi].content = Some(content);
        proof {
            lemma_in_use_update(
                pre.frames@,
                fi as int,
                Frame { content: self.frames@[fi as int].content, ..pre.frames@[fi as int] },
            );
            assert(pre.frames@[fi as int].in_use);
            assert forall|w: u64|
                w != va && pre.has_va(w) implies self.content_of(w) == pre.content_of(w) by {
                let t = choose|t: int|
                    0 <= t < pre.page_table@.len() && (
                    #[trigger] pre.page_table@[t]).virtual_address == w;
                pre.lemma_entry_at(w, t);
                self.lemma_entry_at(w, t);
                assert(t != j);
                assert(pre.page_table@[t].physical_address != pa);
                assert(self.frame_of(w) != fi as int);
            }
            assert(self.frame_of(va) == fi as int) by {
                self.lemma_entry_at(va, j as int);
            }
        }
    }
}

/// How many pages a buffer of `len` bytes needs.
pub open spec fn pages_needed(len: int) -> int {
    len / 4096 + if len % 4096 != 0 {
        1int
    } else {
        0int
    }
}

/// The slice of `b` that page number `i` stores.
pub open spec fn chunk_of(b: Seq<u8>, i: int) -> Seq<u8> {
    b.subrange(
        i * 4096,
        if (i + 1) * 4096 <= b.len() {
            (i + 1) * 4096
        } else {
            b.len() as int
        },
    )
}

/// Bounds of page number `i` of a buffer of `len` bytes.
pub proof fn lemma_page_arith(len: int, i: int)
    requires
        0 <= len,
        0 <= i < pages_needed(len),
    ensures
        i * 4096 < len,
        (i + 1) * 4096 <= len + 4095,
{
    lemma_fundamental_div_mod(len, 4096);
    assert(0 <= len % 4096 < 4096) by (nonlinear_arith)
        requires 0 <= len;
    let q = len / 4096;
    if len % 4096 != 0 {
        lemma_mul_inequality(i, q, 4096);
        lemma_mul_inequality(i + 1, q + 1, 4096);
        assert((q + 1) * 4096 == q * 4096 + 4096);
    } else {
        lemma_mul_inequality(i, q - 1, 4096);
        assert((q - 1) * 4096 == q * 4096 - 4096);
        lemma_mul_inequality(i + 1, q, 4096);
    }
}

impl Vmm {
    /// Every address of `addrs` is mapped to a frame that holds content.
    pub open spec fn readable(self, addrs: Seq<u64>) -> bool {
        forall|i: int|
            0 <= i < addrs.len() ==> self.has_va(#[trigger] addrs[i]) && self.content_of(addrs[i])
                is Some
    }

    /// The concatenation of the bytes stored behind `addrs`, in the given
    /// order.
    pub open spec fn bytes_at(self, addrs: Seq<u64>) -> Seq<u8>
        decreases addrs.len(),
    {
        if addrs.len() == 0 {
            Seq::empty()
        } else {
            (match self.content_of(addrs[0]) {
                Some(c) => c,
                None => Seq::empty(),
            }) + self.bytes_at(addrs.skip(1))
        }
    }

    /// What `get_bytes(addrs, size)` returns: the stored bytes, truncated
    /// to `size`.
    pub open spec fn read_spec(self, addrs: Seq<u64>, size: u64) -> Seq<u8> {
        let all = self.bytes_at(addrs);
        if size <= all.len() {
            all.take(size as int)
        } else {
            all
        }
    }

    /// Enough free frames and enough fresh addresses remain to store a
    /// buffer of `len` bytes.
    pub open spec fn can_allocate_bytes(self, len: int) -> bool {
        &&& in_use_frames(self.frames@) + pages_needed(len) <= self.frames@.len()
        &&& self.next_virtual_address + pages_needed(len) <= u64::MAX
    }
}

/// Appending one address appends that page's bytes.
pub proof fn lemma_bytes_at_snoc(v: Vmm, addrs: Seq<u64>, va: u64)
    ensures
        v.bytes_at(addrs.push(va)) == v.bytes_at(addrs) + (match v.content_of(va) {
            Some(c) => c,
            None => Seq::empty(),
        }),
    decreases addrs.len(),
{
    let tail = match v.content_of(va) {
        Some(c) => c,
        None => Seq::<u8>::empty(),
    };
    if addrs.len() == 0 {
        let single = addrs.push(va);
        assert(single[0] == va);
        assert(single.skip(1) =~= Seq::<u64>::empty());
        assert(v.bytes_at(Seq::<u64>::empty()) == Seq::<u8>::empty());
        assert(v.bytes_at(single) == tail + v.bytes_at(single.skip(1)));
        assert(v.bytes_at(addrs) == Seq::<u8>::empty());
        assert(v.bytes_at(single) =~= v.bytes_at(addrs) + tail);
    } else {
        assert(addrs.push(va).skip(1) =~= addrs.skip(1).push(va));
        lemma_bytes_at_snoc(v, addrs.skip(1), va);
        assert(addrs.push(va)[0] == addrs[0]);
        let head = match v.content_of(addrs[0]) {
            Some(c) => c,
            None => Seq::<u8>::empty(),
        };
        assert(v.bytes_at(addrs.push(va)) == head + (v.bytes_at(addrs.skip(1)) + tail));
        assert(head + (v.bytes_at(addrs.skip(1)) + tail) =~= (head + v.bytes_at(addrs.skip(1)))
            + tail);
    }
}

/// Pages that hold the chunks of `b`, visited in order, store exactly `b`.
pub proof fn lemma_bytes_at_chunks(v: Vmm, addrs: Seq<u64>, b: Seq<u8>)
    requires
        addrs.len() == pages_needed(b.len() as int),
        forall|i: int|
            0 <= i < addrs.len() ==> v.content_of(#[trigger] addrs[i]) == Some(chunk_of(b, i)),
    ensures
        v.bytes_at(addrs) == b,
    decreases addrs.len(),
{
    lemma_fundamental_div_mod(b.len() as int, 4096);
    assert(0 <= b.len() % 4096 < 4096) by (nonlinear_arith);
    if addrs.len() == 0 {
        assert(b.len() as int / 4096 == 0 && b.len() as int % 4096 == 0);
        assert(b.len() == 0);
        assert(v.bytes_at(addrs) =~= b);
    } else {
        assert(v.content_of(addrs[0]) == Some(chunk_of(b, 0)));
        let head = chunk_of(b, 0);
        if b.len() <= 4096 {
            assert(addrs.len() == 1) by {
                if b.len() == 4096 {
                    lemma_fundamental_div_mod_converse_helper(b.len() as int, 1, 0);
                } else {
                    lemma_fundamental_div_mod_converse_helper(b.len() as int, 0, b.len() as int);
                }
            }
            assert(head =~= b);
            assert(addrs.skip(1) =~= Seq::<u64>::empty());
            assert(v.bytes_at(Seq::<u64>::empty()) == Seq::<u8>::empty());
            assert(v.bytes_at(addrs) == head + v.bytes_at(addrs.skip(1)));
            assert(v.bytes_at(addrs) =~= b);
        } else {
            let b2 = b.skip(4096);
            assert(b2.len() == b.len() - 4096);
            assert(b2.len() as int / 4096 == b.len() as int / 4096 - 1 && b2.len() as int % 4096
                == b.len() as int % 4096) by {
                lemma_fundamental_div_mod_converse_helper(
                    b2.len() as int,
                    b.len() as int / 4096 - 1,
                    b.len() as int % 4096,
                );
            }
            let rest = addrs.skip(1);
            assert(rest.len() == pages_needed(b2.len() as int));
            assert forall|i: int|
                0 <= i < rest.len() implies v.content_of(#[trigger] rest[i]) == Some(
                chunk_of(b2, i),
            ) by {
                assert(rest[i] == addrs[i + 1]);
                assert(v.content_of(addrs[i + 1]) == Some(chunk_of(b, i + 1)));
                assert(chunk_of(b, i + 1) =~= chunk_of(b2, i));
            }
            lemma_bytes_at_chunks(v, rest, b2);
            assert(head =~= b.take(4096));
            assert(v.bytes_at(addrs) == head + b2);
            assert(head + b2 =~= b);
        }
    }
}

/// `x == q * 4096 + r` with `0 <= r < 4096` pins `x / 4096` and `x % 4096`.
proof fn lemma_fundamental_div_mod_converse_helper(x: int, q: int, r: int)
    requires
        x == q * 4096 + r,
        0 <= r < 4096,
    ensures
        x / 4096 == q,
        x % 4096 == r,
{
    lemma_fundamental_div_mod_converse(x, 4096, q, r);
}

/// What a successful `deallocate_page(addrs)` guarantees, relating the
/// manager before (`pre`) and after (`post`).
pub open spec fn deallocate_ok_post(pre: Vmm, post: Vmm, addrs: Seq<u64>) -> bool {
    &&& post.wf()
    &&& post.total_memory == pre.total_memory
    &&& post.next_virtual_address == pre.next_virtual_address
    &&& post.frames@.len() == pre.frames@.len()
    &&& post.free_memory == pre.free_memory + addrs.len() * 4096
    &&& in_use_frames(post.frames@) == in_use_frames(pre.frames@) - addrs.len()
    &&& forall|w: u64| post.has_va(w) <==> (pre.has_va(w) && !addrs.contains(w))
    &&& forall|w: u64| post.has_va(w) ==> post.content_of(w) == pre.content_of(w)
}

/// What a successful `allocate_bytes(b)` guarantees: `vas` are the fresh
/// consecutive addresses, their pages hold the chunks of `b`, everything
/// older is untouched.
pub open spec fn allocate_bytes_ok_post(pre: Vmm, post: Vmm, vas: Seq<u64>, b: Seq<u8>) -> bool {
    &&& post.wf()
    &&& post.total_memory == pre.total_memory
    &&& post.frames@.len() == pre.frames@.len()
    &&& vas.len() == pages_needed(b.len() as int)
    &&& forall|i: int| 0 <= i < vas.len() ==> #[trigger] vas[i] == pre.next_virtual_address + i
    &&& post.next_virtual_address == pre.next_virtual_address + vas.len()
    &&& post.free_memory == pre.free_memory - vas.len() * 4096
    &&& in_use_frames(post.frames@) == in_use_frames(pre.frames@) + vas.len()
    &&& forall|i: int|
        0 <= i < vas.len() ==> post.content_of(#[trigger] vas[i]) == Some(chunk_of(b, i))
    &&& forall|i: int| 0 <= i < vas.len() ==> post.has_va(#[trigger] vas[i]) && !pre.has_va(vas[i])
    &&& forall|w: u64| pre.has_va(w) ==> post.has_va(w) && post.content_of(w) == pre.content_of(w)
    &&& forall|w: u64| post.has_va(w) ==> pre.has_va(w) || vas.contains(w)
    &&& post.readable(vas)
    &&& post.bytes_at(vas) == b
    &&& post.can_deallocate(vas)
}

impl Vmm {
    /// Store a buffer page by page: each page gets the next chunk of up to
    /// `DEFAULT_PAGE_SIZE` bytes, and the returned addresses list the pages
    /// in buffer order.  An empty buffer allocates nothing.  When not
    /// enough frames are free the manager is unchanged.
    pub fn allocate_bytes(&mut self, bytes: Vec<u8>) -> (r: Result<Vec<u64>, KernelError>)
        requires
            old(self).wf(),
        ensures
            final(self).wf(),
            final(self).total_memory == old(self).total_memory,
            r is Ok <==> old(self).can_allocate_bytes(bytes@.len() as int),
            r is Err ==> *final(self) == *old(self) && r == Err::<Vec<u64>, KernelError>(
                KernelError::ResourceExhausted,
            ),
            r matches Ok(vas) ==> allocate_bytes_ok_post(
                *old(self),
                *final(self),
                vas@,
                bytes@,
            ),
    {
        let len = bytes.len();
        let lenu = len as u64;
        let n = lenu / DEFAULT_PAGE_SIZE + if lenu % DEFAULT_PAGE_SIZE != 0 {
            1
        } else {
            0
        };
        proof {
            assert(n == pages_needed(bytes@.len() as int));
        }
        let used = self.count_in_use();
        proof {
            lemma_in_use_bounds(self.frames@);
        }
        if n > self.frames.len() as u64 - used {
            return Err(KernelError::ResourceExhausted);
        }
        if n > u64::MAX - self.next_virtual_address {
            return Err(KernelError::ResourceExhausted);
        }
        let ghost pre = *self;
        let mut vas: Vec<u64> = Vec::new();
        let mut i: u64 = 0;
        while i < n
            invariant
                pre.wf(),
                self.wf(),
                i <= n,
                bytes@.len() == len == lenu,
                n == pages_needed(bytes@.len() as int),
                in_use_frames(pre.frames@) + n <= pre.frames@.len(),
                pre.next_virtual_address + n <= u64::MAX,
                self.total_memory == pre.total_memory,
                self.frames@.len() == pre.frames@.len(),
                vas@.len() == i,
                forall|k: int| 0 <= k < i ==> #[trigger] vas@[k] == pre.next_virtual_address + k,
                self.next_virtual_address == pre.next_virtual_address + i,
                self.free_memory == pre.free_memory - i * 4096,
                in_use_frames(self.frames@) == in_use_frames(pre.frames@) + i,
                forall|k: int|
                    0 <= k < i ==> self.content_of(#[trigger] vas@[k]) == Some(
                        chunk_of(bytes@, k),
                    ) && self.has_va(vas@[k]),
                forall|w: u64|
                    pre.has_va(w) ==> self.has_va(w) && self.content_of(w) == pre.content_of(w),
                forall|w: u64| self.has_va(w) ==> pre.has_va(w) || vas@.contains(w),
            decreases n - i,
        {
            proof {
                lemma_in_use_bounds(self.frames@);
                assert(in_use_frames(self.frames@) < self.frames@.len());
                lemma_page_arith(bytes@.len() as int, i as int);
            }
            let ghost before_page = *self;
            let page = match self.allocate_page() {
                Ok(p) => p,
                Err(_) => {
                    proof {
                        assert(false);
                    }
                    return Err(KernelError::ResourceExhausted);
                },
            };
            let va = page.0;
            let start = (i as usize) * (DEFAULT_PAGE_SIZE as usize);
            let end = if len - start > DEFAULT_PAGE_SIZE as usize {
                start + DEFAULT_PAGE_SIZE as usize
            } else {
                len
            };
            let mut chunk: Vec<u8> = Vec::new();
            let mut t = start;
            proof {
                assert(bytes@.subrange(start as int, start as int) =~= Seq::<u8>::empty());
            }
            while t < end
                invariant
                    start <= t <= end <= bytes@.len(),
                    chunk@ == bytes@.subrange(start as int, t as int),
                decreases end - t,
            {
                chunk.push(bytes[t]);
                proof {
                    assert(bytes@.subrange(start as int, t as int + 1) =~= bytes@.subrange(
                        start as int,
                        t as int,
                    ).push(bytes@[t as int]));
                }
                t = t + 1;
            }
            proof {
                assert(chunk@ == chunk_of(bytes@, i as int));
            }
            let ghost before_store = *self;
            self.store_content(va, chunk);
            let ghost old_vas = vas@;
            vas.push(va);
            proof {
                assert(vas@ =~= old_vas.push(va));
                assert forall|w: u64| self.has_va(w) implies pre.has_va(w) || vas@.contains(
                    w,
                ) by {
                    if !pre.has_va(w) {
                        if w == va {
                            assert(vas@[old_vas.len() as int] == w);
                            assert(vas@.contains(w));
                        } else {
                            assert(before_store.has_va(w));
                            assert(before_page.has_va(w) || w == va);
                            assert(old_vas.contains(w));
                            let x = choose|x: int| 0 <= x < old_vas.len() && old_vas[x] == w;
                            assert(vas@[x] == w);
                            assert(vas@.contains(w));
                        }
                    }
                }
                assert forall|k: int|
                    0 <= k < i + 1 implies self.content_of(#[trigger] vas@[k]) == Some(
                    chunk_of(bytes@, k),
                ) && self.has_va(vas@[k]) by {
                    if k < i {
                        assert(vas@[k] == pre.next_virtual_address + k);
                        assert(vas@[k] != va);
                        assert(before_page.has_va(vas@[k]));
                        assert(before_store.has_va(vas@[k]));
                    } else {
                        assert(vas@[k] == va);
                    }
                }
            }
            i = i + 1;
        }
        proof {
            assert forall|w: u64| self.has_va(w) implies pre.has_va(w) || vas@.contains(w) by {}
            assert forall|k: int, l: int|
                0 <= k < vas@.len() && 0 <= l < vas@.len() && k != l implies vas@[k] != vas@[l] by {
                assert(vas@[k] == pre.next_virtual_address + k);
                assert(vas@[l] == pre.next_virtual_address + l);
            }
            assert forall|k: int| 0 <= k < vas@.len() implies !pre.has_va(#[trigger] vas@[k]) by {
                if pre.has_va(vas@[k]) {
                    let t = choose|t: int|
                        0 <= t < pre.page_table@.len() && (
                        #[trigger] pre.page_table@[t]).virtual_address == vas@[k];
                    assert(pre.page_table@[t].virtual_address < pre.next_virtual_address);
                }
            }
            lemma_bytes_at_chunks(*self, vas@, bytes@);
        }
        Ok(vas)
    }

    /// Read back the bytes stored behind `addrs`, visited in the given
    /// order, truncated to `size` bytes.  An address without a mapped,
    /// filled page is an invariant violation.
    pub fn get_bytes(&self, virtual_addresses: Vec<u64>, size: u64) -> (r: Result<
        Vec<u8>,
        KernelError,
    >)
        requires
            self.wf(),
        ensures
            r is Ok <==> self.readable(virtual_addresses@),
            r is Err ==> r == Err::<Vec<u8>, KernelError>(KernelError::InvariantViolation),
            r matches Ok(b) ==> b@ == self.read_spec(virtual_addresses@, size),
    {
        let addrs = &virtual_addresses;
        let mut i: usize = 0;
        while i < addrs.len()
            invariant
                self.wf(),
                addrs@ == virtual_addresses@,
                i <= addrs@.len(),
                forall|k: int|
                    0 <= k < i ==> self.has_va(#[trigger] addrs@[k]) && self.content_of(addrs@[k])
                        is Some,
            decreases addrs@.len() - i,
        {
            let va = addrs[i];
            let j = match self.find_entry(va) {
                Some(j) => j,
                None => {
                    return Err(KernelError::InvariantViolation);
                },
            };
            let pa = self.page_table[j].physical_address;
            let nf = self.frames.len();
            proof {
                assert(self.page_table@[j as int].physical_address as int / 4096 < nf);
                self.lemma_entry_at(va, j as int);
            }
            let fi = (pa / DEFAULT_PAGE_SIZE) as usize;
            if self.frames[fi].content.is_none() {
                return Err(KernelError::InvariantViolation);
            }
            i = i + 1;
        }
        let mut out: Vec<u8> = Vec::new();
        let mut i: usize = 0;
        proof {
            assert(self.bytes_at(addrs@.take(0)) =~= Seq::<u8>::empty());
        }
        while i < addrs.len()
            invariant
                self.wf(),
                addrs@ == virtual_addresses@,
                i <= addrs@.len(),
                self.readable(addrs@),
                out@ == self.bytes_at(addrs@.take(i as int)),
            decreases addrs@.len() - i,
        {
            let va = addrs[i];
            let j = match self.find_entry(va) {
                Some(j) => j,
                None => {
                    proof {
                        assert(false);
                    }
                    return Err(KernelError::InvariantViolation);
                },
            };
            let pa = self.page_table[j].physical_address;
            let nf = self.frames.len();
            proof {
                assert(self.page_table@[j as int].physical_address as int / 4096 < nf);
                self.lemma_entry_at(va, j as int);
            }
            let fi = (pa / DEFAULT_PAGE_SIZE) as usize;
            match &self.frames[fi].content {
                Some(c) => {
                    out.extend_from_slice(c.as_slice());
                },
                None => {
                    proof {
                        assert(self.content_of(addrs@[i as int]) is Some);
                        assert(false);
                    }
                    return Err(KernelError::InvariantViolation);
                },
            }
            proof {
                assert(addrs@.take(i as int + 1) =~= addrs@.take(i as int).push(va));
                lemma_bytes_at_snoc(*self, addrs@.take(i as int), va);
            }
            i = i + 1;
        }
        proof {
            assert(addrs@.take(addrs@.len() as int) =~= addrs@);
        }
        if size < out.len() as u64 {
            out.truncate(size as usize);
        }
        Ok(out)
    }
}

/// Two manager states that agree on the pages behind `addrs` store the
/// same bytes for them.
pub proof fn lemma_bytes_at_preserved(v1: Vmm, v2: Vmm, addrs: Seq<u64>)
    requires
        forall|i: int|
            0 <= i < addrs.len() ==> v1.has_va(#[trigger] addrs[i]) && v2.has_va(addrs[i])
                && v2.content_of(addrs[i]) == v1.content_of(addrs[i]),
    ensures
        v2.bytes_at(addrs) == v1.bytes_at(addrs),
    decreases addrs.len(),
{
    if addrs.len() > 0 {
        assert forall|i: int|
            0 <= i < addrs.skip(1).len() implies v1.has_va(#[trigger] addrs.skip(1)[i])
                && v2.has_va(addrs.skip(1)[i]) && v2.content_of(addrs.skip(1)[i])
                == v1.content_of(addrs.skip(1)[i]) by {
            assert(addrs.skip(1)[i] == addrs[i + 1]);
        }
        lemma_bytes_at_preserved(v1, v2, addrs.skip(1));
        assert(addrs[0] == addrs[0]);
    }
}

/// For any reachable manager state, the free memory and the memory behind
/// in-use frames together account for all memory.
pub proof fn lemma_memory_conservation(v: Vmm)
    requires
        v.wf(),
    ensures
        v.free_memory + in_use_frames(v.frames@) * 4096 == v.total_memory,
{
}

/// Round trip: reading the pages that `allocate_bytes` filled with a
/// buffer `b`, at size `len(b)`, yields exactly `b`.
pub proof fn lemma_round_trip(pre: Vmm, post: Vmm, vas: Seq<u64>, b: Seq<u8>)
    requires
        allocate_bytes_ok_post(pre, post, vas, b),
        b.len() <= u64::MAX,
    ensures
        post.readable(vas),
        post.read_spec(vas, b.len() as u64) == b,
{
    assert(post.bytes_at(vas).take(b.len() as int) =~= b);
}

/// Reclamation: deallocating the addresses that `allocate_bytes(b)`
/// returned frees exactly `ceil(len(b) / PAGE_SIZE)` frames and restores
/// the free memory.
pub proof fn lemma_reclamation(pre: Vmm, mid: Vmm, post: Vmm, vas: Seq<u64>, b: Seq<u8>)
    requires
        allocate_bytes_ok_post(pre, mid, vas, b),
        deallocate_ok_post(mid, post, vas),
    ensures
        vas.len() == pages_needed(b.len() as int),
        post.free_memory == pre.free_memory,
        in_use_frames(post.frames@) == in_use_frames(pre.frames@),
{
}

} // verus!
