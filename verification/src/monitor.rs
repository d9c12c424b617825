//! Guest memory and registers, with what an instruction changed kept apart
//! until it is committed.
use crate::guest::{loaded, pages, placed, program_image, GuestView, ImageView, MonitorView};
use crate::platform::{
    guest_addr, is_guest_memory, page_of, GUEST_PAGES, PAGE_SIZE, REG_MAX, WORD_SIZE,
};
use crate::types::{viewed, CycleCosts, ErrorView, ExecError, TraceEvent};
use crate::words::{le_bytes, words_to_le_bytes};
use std::collections::{BTreeMap, BTreeSet};
use vstd::prelude::*;

verus! {

broadcast use {vstd::std_specs::btree::group_btree_axioms, vstd::laws_cmp::group_laws_cmp};

/// Guest memory and registers, and where to run from.
#[derive(Debug)]
pub struct MemoryImage {
    mem: BTreeMap<u32, u8>,
    registers: [u32; 32],
    /// Where the program goes on.
    pc: u32,
}

impl View for MemoryImage {
    type V = ImageView;

    closed spec fn view(&self) -> ImageView {
        ImageView { mem: self.mem@, regs: self.registers@, pc: self.pc }
    }
}

impl Clone for MemoryImage {
    fn clone(&self) -> (r: Self)
        ensures
            r@ == self@,
    {
        MemoryImage { mem: self.mem.clone(), registers: self.registers, pc: self.pc }
    }
}

/// The bytes that are put back where the newest entry of a log is undone first.
pub open spec fn rolled_back(mem: Map<u32, u8>, log: Seq<(u32, Option<u8>)>) -> Map<u32, u8>
    decreases log.len(),
{
    if log.len() == 0 {
        mem
    } else {
        let (addr, before) = log.last();
        rolled_back(
            match before {
                Some(b) => mem.insert(addr, b),
                None => mem.remove(addr),
            },
            log.drop_last(),
        )
    }
}

/// The pages that a segment has touched.
#[derive(Debug)]
pub struct PageFaults {
    /// Pages that were read.
    pub reads: BTreeSet<u32>,
    /// Pages that were changed.
    pub writes: BTreeSet<u32>,
}

/// Guest memory and registers.
#[derive(Debug)]
pub struct MemoryMonitor {
    mem: BTreeMap<u32, u8>,
    /// What each byte was before it was set, since the last commit.
    log: Vec<(u32, Option<u8>)>,
    registers: [u32; 32],
    saved_registers: [u32; 32],
    reads: BTreeSet<u32>,
    /// Pages read for the first time since the last commit.
    new_reads: Vec<u32>,
    writes: BTreeSet<u32>,
    /// Pages changed for the first time since the last commit.
    new_writes: Vec<u32>,
    trace: bool,
    events: Vec<TraceEvent>,
    cycle: u64,
    page_read_cost: u32,
    page_write_cost: u32,
}

impl View for MemoryMonitor {
    type V = MonitorView;

    closed spec fn view(&self) -> MonitorView {
        MonitorView {
            now: GuestView {
                mem: self.mem@,
                regs: self.registers@,
                reads: self.reads@,
                writes: self.writes@,
            },
            saved: GuestView {
                mem: rolled_back(self.mem@, self.log@),
                regs: self.saved_registers@,
                reads: self.reads@.difference(self.new_reads@.to_set()),
                writes: self.writes@.difference(self.new_writes@.to_set()),
            },
            events: self.events@,
            trace: self.trace,
            cycle: self.cycle,
            page_read_cost: self.page_read_cost,
            page_write_cost: self.page_write_cost,
        }
    }
}

/// Whether `all` are pages of guest memory, with each of `new` listed once.
pub open spec fn pages_wf(all: Set<u32>, new: Seq<u32>) -> bool {
    &&& all.finite()
    &&& forall|p: u32| #[trigger] all.contains(p) ==> p < GUEST_PAGES
    &&& new.no_duplicates()
    &&& forall|i: int| 0 <= i < new.len() ==> all.contains(#[trigger] new[i])
}

impl MemoryMonitor {
    pub closed spec fn wf(&self) -> bool {
        &&& pages_wf(self.reads@, self.new_reads@)
        &&& pages_wf(self.writes@, self.new_writes@)
    }
}

/// The byte at `addr` is on the one page that it touches.
proof fn lemma_pages_one(addr: int)
    requires
        0 <= addr <= u32::MAX,
    ensures
        pages(addr, 1) == Set::<u32>::empty().insert(page_of(addr)),
{
    assert(pages(addr, 1) =~= Set::<u32>::empty().insert(page_of(addr)));
}

/// The pages of guest memory are so many.
proof fn lemma_pages_bound(s: Set<u32>)
    requires
        s.finite(),
        forall|p: u32| #[trigger] s.contains(p) ==> p < GUEST_PAGES,
    ensures
        s.len() <= GUEST_PAGES,
{
    lemma_bounded_set(s, GUEST_PAGES);
}

proof fn lemma_bounded_set(s: Set<u32>, n: u32)
    requires
        s.finite(),
        forall|p: u32| #[trigger] s.contains(p) ==> p < n,
    ensures
        s.len() <= n,
    decreases n,
{
    if n == 0 {
        assert(s =~= Set::empty());
    } else {
        let last = (n - 1) as u32;
        lemma_bounded_set(s.remove(last), last);
    }
}

/// A program that was made ready to be loaded.
#[derive(Debug)]
pub struct Program {
    /// Where the program starts.
    pub entry: u32,
    /// The words of the program, with their addresses.
    pub image: Vec<(u32, u32)>,
}

/// An image or an error.
pub open spec fn image_result(r: Result<MemoryImage, ExecError>) -> Result<ImageView, ErrorView> {
    match r {
        Ok(image) => Ok(image@),
        Err(e) => Err(e@),
    }
}

impl MemoryImage {
    /// An image of zeros, to run from `pc` on.
    pub fn empty(pc: u32) -> (r: Self)
        ensures
            r@ == (ImageView {
                mem: Map::empty(),
                regs: Seq::new(32, |i: int| 0u32),
                pc,
            }),
    {
        let registers: [u32; 32] = [0u32; 32];
        assert(registers@ =~= Seq::new(32, |i: int| 0u32));
        MemoryImage { mem: BTreeMap::new(), registers, pc }
    }

    /// The image of `program`, unless one of its words does not belong to the
    /// guest.
    #[verifier::rlimit(40)]
    pub fn new(program: &Program) -> (r: Result<Self, ExecError>)
        ensures
            image_result(r) == program_image(program.entry, program.image@),
    {
        let mut image = MemoryImage::empty(program.entry);
        let ghost words = program.image@;
        let mut i: usize = 0;
        proof {
            assert(words.skip(0) =~= words);
        }
        while i < program.image.len()
            invariant
                i <= words.len(),
                words == program.image@,
                image@.pc == program.entry,
                image@.regs == Seq::new(32, |i: int| 0u32),
                loaded(image@.mem, words.skip(i as int)) == loaded(Map::empty(), words),
            decreases words.len() - i,
        {
            let (addr, word) = program.image[i];
            proof {
                assert(words.skip(i as int)[0] == words[i as int]);
                assert(words.skip(i as int).drop_first() =~= words.skip(i + 1));
            }
            if !is_guest_memory(addr) {
                return Err(ExecError::InvalidGuestAddress(addr));
            }
            if addr % WORD_SIZE != 0 {
                return Err(ExecError::UnalignedAddress(addr));
            }
            let ghost before = image@.mem;
            let bytes: Vec<u8> = words_to_le_bytes(&vec![word]);
            assert(bytes@ =~= le_bytes(seq![word]));
            image.mem.insert(addr, bytes[0]);
            image.mem.insert(addr + 1, bytes[1]);
            image.mem.insert(addr + 2, bytes[2]);
            image.mem.insert(addr + 3, bytes[3]);
            assert(image@.mem =~= before.union_prefer_right(placed(addr as int, bytes@)));
            i = i + 1;
        }
        Ok(image)
    }

    /// Where the program goes on.
    pub fn pc(&self) -> (r: u32)
        ensures
            r == self@.pc,
    {
        self.pc
    }

    /// The same guest, to go on from `pc`.
    pub fn with_pc(self, pc: u32) -> (r: Self)
        ensures
            r@ == (ImageView { pc, ..self@ }),
    {
        MemoryImage { mem: self.mem, registers: self.registers, pc }
    }
}

impl MemoryMonitor {
    /// A monitor of the guest in `image`, with nothing done yet.
    pub fn new(image: MemoryImage, trace: bool, costs: &CycleCosts) -> (r: Self)
        ensures
            r.wf(),
            r@ == (MonitorView {
                now: GuestView {
                    mem: image@.mem,
                    regs: image@.regs,
                    reads: Set::empty(),
                    writes: Set::empty(),
                },
                saved: GuestView {
                    mem: image@.mem,
                    regs: image@.regs,
                    reads: Set::empty(),
                    writes: Set::empty(),
                },
                events: Seq::empty(),
                trace,
                cycle: 0,
                page_read_cost: costs.page_read_cycles,
                page_write_cost: costs.page_write_cycles,
            }),
    {
        let r = MemoryMonitor {
            mem: image.mem,
            log: Vec::new(),
            registers: image.registers,
            saved_registers: image.registers,
            reads: BTreeSet::new(),
            new_reads: Vec::new(),
            writes: BTreeSet::new(),
            new_writes: Vec::new(),
            trace,
            events: Vec::new(),
            cycle: 0,
            page_read_cost: costs.page_read_cycles,
            page_write_cost: costs.page_write_cycles,
        };
        assert(r@.saved.reads =~= Set::empty());
        assert(r@.saved.writes =~= Set::empty());
        assert(r@.events =~= Seq::empty());
        r
    }

    /// Marks the page of `addr` as read.
    pub(crate) fn touch(&mut self, addr: u32)
        requires
            old(self).wf(),
            guest_addr(addr as int),
        ensures
            final(self).wf(),
            final(self)@ == old(self)@.touched(addr as int, 1),
    {
        let page: u32 = addr / PAGE_SIZE;
        let ghost before = *self;
        proof {
            lemma_pages_one(addr as int);
        }
        if !self.reads.contains(&page) {
            let _ = self.reads.insert(page);
            self.new_reads.push(page);
            proof {
                lemma_new_page(before.reads@, before.new_reads@, page);
            }
        }
        assert(self@.now.reads =~= before@.now.reads.union(pages(addr as int, 1)));
        assert(self@ =~= before@.touched(addr as int, 1));
    }

    /// Marks the page of `addr` as changed.
    fn dirty(&mut self, addr: u32)
        requires
            old(self).wf(),
            guest_addr(addr as int),
        ensures
            final(self).wf(),
            final(self)@ == (MonitorView {
                now: GuestView {
                    writes: old(self)@.now.writes.union(pages(addr as int, 1)),
                    ..old(self)@.now
                },
                ..old(self)@
            }),
    {
        let page: u32 = addr / PAGE_SIZE;
        let ghost before = *self;
        proof {
            lemma_pages_one(addr as int);
        }
        if !self.writes.contains(&page) {
            let _ = self.writes.insert(page);
            self.new_writes.push(page);
            proof {
                lemma_new_page(before.writes@, before.new_writes@, page);
            }
        }
        assert(self@.now.writes =~= before@.now.writes.union(pages(addr as int, 1)));
    }

    /// The byte at `addr`, read without touching its page.
    pub fn peek_u8(&self, addr: u32) -> (r: u8)
        ensures
            r == self@.now.byte_at(addr as int),
    {
        match self.mem.get(&addr) {
            Some(b) => *b,
            None => 0,
        }
    }

    /// Stores a byte.
    #[verifier::rlimit(40)]
    pub(crate) fn store_u8(&mut self, addr: u32, b: u8)
        requires
            old(self).wf(),
            guest_addr(addr as int),
        ensures
            final(self).wf(),
            final(self)@ == old(self)@.stored(addr as int, seq![b]),
    {
        let ghost before = self@;
        self.touch(addr);
        self.dirty(addr);
        let old_byte: Option<u8> = match self.mem.get(&addr) {
            Some(x) => Some(*x),
            None => None,
        };
        let ghost mem = self.mem@;
        let ghost log = self.log@;
        let _ = self.mem.insert(addr, b);
        self.log.push((addr, old_byte));
        proof {
            assert(self.log@.drop_last() =~= log);
            assert(self.log@.last() == (addr, old_byte));
            match old_byte {
                Some(x) => {
                    assert(self.mem@.insert(addr, x) =~= mem);
                },
                None => {
                    assert(self.mem@.remove(addr) =~= mem);
                },
            }
            assert(rolled_back(self.mem@, self.log@) == rolled_back(mem, log));
        }
        if self.trace {
            self.events.push(TraceEvent::MemorySet { addr, byte: b });
        }
        proof {
            let after = before.stored(addr as int, seq![b]);
            assert(self@.now.mem =~= after.now.mem);
            assert(self@.events =~= after.events);
            assert(self@ =~= after);
        }
    }

    /// The value of a register.
    pub fn load_register(&self, idx: usize) -> (r: u32)
        requires
            idx < REG_MAX,
        ensures
            r == self@.reg(idx),
    {
        self.registers[idx]
    }

    /// The values of all registers.
    pub fn load_registers(&self) -> (r: [u32; 32])
        ensures
            r@ == self@.now.regs,
    {
        self.registers
    }

    /// Gives a register a value.
    pub fn store_register(&mut self, idx: usize, value: u32)
        requires
            old(self).wf(),
            idx < REG_MAX,
        ensures
            final(self).wf(),
            final(self)@ == old(self)@.with_reg(idx, value),
    {
        let ghost before = self@;
        self.registers[idx] = value;
        if self.trace {
            self.events.push(TraceEvent::RegisterSet { idx, value });
        }
        assert(self@ =~= before.with_reg(idx, value));
    }

    /// The address of guest memory that a register holds.
    pub fn load_guest_addr_from_register(&self, idx: usize) -> (r: Result<u32, ExecError>)
        requires
            idx < REG_MAX,
        ensures
            viewed(r) == self@.read_addr(idx),
    {
        let addr: u32 = self.load_register(idx);
        if is_guest_memory(addr) {
            Ok(addr)
        } else {
            Err(ExecError::InvalidGuestAddress(addr))
        }
    }
}

/// A page that is seen for the first time is new, and changes nothing else.
proof fn lemma_new_page(all: Set<u32>, new: Seq<u32>, page: u32)
    requires
        pages_wf(all, new),
        !all.contains(page),
        page < GUEST_PAGES,
    ensures
        pages_wf(all.insert(page), new.push(page)),
        all.insert(page).difference(new.push(page).to_set()) == all.difference(new.to_set()),
{
    let all2 = all.insert(page);
    let new2 = new.push(page);
    assert forall|i: int| 0 <= i < new2.len() implies all2.contains(#[trigger] new2[i]) by {
        if i < new.len() {
            assert(new2[i] == new[i]);
        }
    }
    assert forall|i: int, j: int| 0 <= i < new2.len() && 0 <= j < new2.len() && i != j implies new2[i]
        != new2[j] by {
        if i < new.len() {
            assert(all.contains(new[i]));
        }
        if j < new.len() {
            assert(all.contains(new[j]));
        }
    }
    assert forall|p: u32| new2.to_set().contains(p) <==> new.to_set().contains(p) || p == page by {
        if new.contains(p) {
            let i = choose|i: int| 0 <= i < new.len() && new[i] == p;
            assert(new2[i] == p);
        }
        if p == page {
            assert(new2[new.len() as int] == p);
        }
        if new2.contains(p) {
            let i = choose|i: int| 0 <= i < new2.len() && new2[i] == p;
            if i < new.len() {
                assert(new[i] == p);
            }
        }
    }
    assert(all2.difference(new2.to_set()) =~= all.difference(new.to_set()));
}

impl MemoryMonitor {
    /// Cycles spent on reading pages in this segment.
    pub fn page_read_cycles(&self) -> (r: u64)
        requires
            self.wf(),
        ensures
            r == self@.read_cycles(),
            r <= 0x0003_0000_0000_0000,
    {
        proof {
            lemma_pages_bound(self.reads@);
            assert(self.page_read_cost as nat * self.reads@.len() <= 0x1_0000_0000 * 0x3_0000)
                by (nonlinear_arith)
                requires
                    self.page_read_cost <= 0x1_0000_0000,
                    self.reads@.len() <= 0x3_0000,
            ;
        }
        self.page_read_cost as u64 * self.reads.len() as u64
    }

    /// Cycles spent on writing pages back in this segment.
    pub fn page_write_cycles(&self) -> (r: u64)
        requires
            self.wf(),
        ensures
            r == self@.write_cycles(),
            r <= 0x0003_0000_0000_0000,
    {
        proof {
            lemma_pages_bound(self.writes@);
            assert(self.page_write_cost as nat * self.writes@.len() <= 0x1_0000_0000 * 0x3_0000)
                by (nonlinear_arith)
                requires
                    self.page_write_cost <= 0x1_0000_0000,
                    self.writes@.len() <= 0x3_0000,
            ;
        }
        self.page_write_cost as u64 * self.writes.len() as u64
    }

    /// The cycle of the last commit.
    pub fn get_cycle(&self) -> (r: u64)
        ensures
            r == self@.cycle,
    {
        self.cycle
    }

    /// What was traced since the last commit.
    pub fn trace_events(&self) -> (r: &Vec<TraceEvent>)
        ensures
            r@ == self@.events,
    {
        &self.events
    }

    /// The pages that this segment has touched.
    pub fn faults(&self) -> (r: PageFaults)
        ensures
            r.reads@ == self@.now.reads,
            r.writes@ == self@.now.writes,
    {
        PageFaults { reads: self.reads.clone(), writes: self.writes.clone() }
    }

    /// The guest as an image to run from `pc` on.
    pub fn build_image(&self, pc: u32) -> (r: MemoryImage)
        ensures
            r@ == self@.image(pc),
    {
        MemoryImage { mem: self.mem.clone(), registers: self.registers, pc }
    }

    /// Keeps what happened since the last commit.
    #[verifier::rlimit(40)]
    pub fn commit(&mut self, cycle: u64)
        requires
            old(self).wf(),
        ensures
            final(self).wf(),
            final(self)@ == old(self)@.committed(cycle),
    {
        let ghost before = self@;
        self.log.clear();
        self.saved_registers = self.registers;
        self.new_reads.clear();
        self.new_writes.clear();
        self.events.clear();
        self.cycle = cycle;
        assert(self@.saved.reads =~= before.now.reads);
        assert(self@.saved.writes =~= before.now.writes);
        assert(self@.events =~= Seq::empty());
    }

    /// Drops what happened since the last commit.
    #[verifier::rlimit(40)]
    pub fn undo(&mut self)
        requires
            old(self).wf(),
        ensures
            final(self).wf(),
            final(self)@ == old(self)@.undone(),
    {
        let ghost before = self@;
        while self.log.len() > 0
            invariant
                self.wf(),
                self@.saved == before.saved,
                self@ == (MonitorView { now: self@.now, ..before }),
                self@.now.reads == before.now.reads,
                self@.now.writes == before.now.writes,
            decreases self.log@.len(),
        {
            let ghost log = self.log@;
            let (addr, old_byte) = self.log.pop().unwrap();
            assert(self.log@ =~= log.drop_last());
            match old_byte {
                Some(b) => {
                    let _ = self.mem.insert(addr, b);
                },
                None => {
                    let _ = self.mem.remove(&addr);
                },
            }
            assert(rolled_back(self.mem@, self.log@) == before.saved.mem);
        }
        while self.new_reads.len() > 0
            invariant
                self.wf(),
                self.log@.len() == 0,
                self@.saved == before.saved,
                self@ == (MonitorView { now: self@.now, ..before }),
                self@.now.writes == before.now.writes,
            decreases self.new_reads@.len(),
        {
            let ghost all = self.reads@;
            let ghost new = self.new_reads@;
            let page: u32 = self.new_reads.pop().unwrap();
            let _ = self.reads.remove(&page);
            proof {
                lemma_drop_page(all, new);
            }
        }
        while self.new_writes.len() > 0
            invariant
                self.wf(),
                self.log@.len() == 0,
                self.new_reads@.len() == 0,
                self@.saved == before.saved,
                self@ == (MonitorView { now: self@.now, ..before }),
            decreases self.new_writes@.len(),
        {
            let ghost all = self.writes@;
            let ghost new = self.new_writes@;
            let page: u32 = self.new_writes.pop().unwrap();
            let _ = self.writes.remove(&page);
            proof {
                lemma_drop_page(all, new);
            }
        }
        self.registers = self.saved_registers;
        self.events.clear();
        proof {
            assert(self.reads@.difference(self.new_reads@.to_set()) =~= self.reads@);
            assert(self.writes@.difference(self.new_writes@.to_set()) =~= self.writes@);
            assert(self@.events =~= Seq::empty());
            assert(self@ =~= before.undone());
        }
    }

    /// Starts a new segment from what was committed.
    pub fn clear_segment(&mut self)
        requires
            old(self).wf(),
        ensures
            final(self).wf(),
            final(self)@ == old(self)@.segment_cleared(),
    {
        let ghost before = self@;
        self.undo();
        let ghost undone = *self;
        self.log.clear();
        self.reads.clear();
        self.new_reads.clear();
        self.writes.clear();
        self.new_writes.clear();
        proof {
            assert(self@.now =~= before.saved.untouched());
            assert(self@.saved =~= before.saved.untouched());
        }
    }

    /// Starts a new session from what was committed.
    pub fn clear_session(&mut self)
        requires
            old(self).wf(),
        ensures
            final(self).wf(),
            final(self)@ == old(self)@.session_cleared(),
    {
        self.clear_segment();
        self.cycle = 0;
    }
}

/// The newest page is no longer there once it is dropped.
proof fn lemma_drop_page(all: Set<u32>, new: Seq<u32>)
    requires
        pages_wf(all, new),
        new.len() > 0,
    ensures
        pages_wf(all.remove(new.last()), new.drop_last()),
        all.remove(new.last()).difference(new.drop_last().to_set()) == all.difference(new.to_set()),
{
    let page = new.last();
    let less = new.drop_last();
    let rest = all.remove(page);
    assert forall|i: int| 0 <= i < less.len() implies rest.contains(#[trigger] less[i]) by {
        assert(less[i] == new[i]);
        assert(new[i] != new[new.len() - 1]);
    }
    assert forall|p: u32| new.to_set().contains(p) <==> less.to_set().contains(p) || p == page by {
        if new.contains(p) {
            let i = choose|i: int| 0 <= i < new.len() && new[i] == p;
            if i < less.len() {
                assert(less[i] == p);
            }
        }
        if less.contains(p) {
            let i = choose|i: int| 0 <= i < less.len() && less[i] == p;
            assert(new[i] == p);
        }
        if p == page {
            assert(new[new.len() - 1] == p);
        }
    }
    assert(rest.difference(less.to_set()) =~= all.difference(new.to_set()));
}

} // verus!
