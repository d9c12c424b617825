//! The model of guest memory and registers.
//!
//! A monitor is modelled by two states of the guest: the one that the
//! instruction in progress has reached, and the one that was committed last.
use crate::platform::{guest_addr, page_of, GUEST_MAX_MEM, WORD_SIZE};
use crate::types::{ErrorView, TraceEvent};
use crate::words::{le_bytes, le_word};
use vstd::prelude::*;
use vstd::utf8::{decode_utf8, valid_utf8};

verus! {

/// A state of the guest, and the pages that the segment has touched so far.
#[verifier::ext_equal]
pub struct GuestView {
    /// Bytes that were ever set. All others are zero.
    pub mem: Map<u32, u8>,
    pub regs: Seq<u32>,
    /// Pages that were read.
    pub reads: Set<u32>,
    /// Pages that were changed.
    pub writes: Set<u32>,
}

/// The model of a memory image.
#[verifier::ext_equal]
pub struct ImageView {
    pub mem: Map<u32, u8>,
    pub regs: Seq<u32>,
    pub pc: u32,
}

/// The model of a memory monitor.
#[verifier::ext_equal]
pub struct MonitorView {
    /// The guest as the instruction in progress has left it.
    pub now: GuestView,
    /// The guest as it was committed last.
    pub saved: GuestView,
    /// What was traced since then.
    pub events: Seq<TraceEvent>,
    /// Whether anything is traced.
    pub trace: bool,
    /// The cycle of the last commit.
    pub cycle: u64,
    pub page_read_cost: u32,
    pub page_write_cost: u32,
}

/// The pages that hold the `n` bytes from `addr` on.
pub open spec fn pages(addr: int, n: int) -> Set<u32> {
    Set::new(|p: u32| n > 0 && page_of(addr) <= p <= page_of(addr + n - 1))
}

/// `bytes` as a piece of memory that begins at `addr`.
pub open spec fn placed(addr: int, bytes: Seq<u8>) -> Map<u32, u8> {
    Map::new(
        |k: u32| addr <= k < addr + bytes.len(),
        |k: u32| bytes[k - addr],
    )
}

/// What is traced when `bytes` are stored at `addr`.
pub open spec fn store_events(addr: int, bytes: Seq<u8>) -> Seq<TraceEvent> {
    Seq::new(
        bytes.len(),
        |i: int| TraceEvent::MemorySet { addr: (addr + i) as u32, byte: bytes[i] },
    )
}

/// What is wrong with `addr` as the address of a word, if anything is.
pub open spec fn word_error(addr: u32) -> Option<ErrorView> {
    if !guest_addr(addr as int) {
        Some(ErrorView::InvalidGuestAddress(addr))
    } else if addr % WORD_SIZE != 0 {
        Some(ErrorView::UnalignedAddress(addr))
    } else {
        None
    }
}

/// What is wrong with the `n` bytes from `addr` on as a region of guest memory,
/// if anything is.
pub open spec fn region_error(addr: u32, n: int) -> Option<ErrorView> {
    if n <= 0 {
        None
    } else if !guest_addr(addr as int) {
        Some(ErrorView::InvalidGuestAddress(addr))
    } else if addr + n > GUEST_MAX_MEM {
        Some(ErrorView::InvalidGuestAddress(GUEST_MAX_MEM))
    } else {
        None
    }
}

/// What is wrong with the `n` words from `addr` on, if anything is.
pub open spec fn words_error(addr: u32, n: int) -> Option<ErrorView> {
    if n <= 0 {
        None
    } else if word_error(addr) is Some {
        word_error(addr)
    } else if addr + 4 * n > GUEST_MAX_MEM {
        Some(ErrorView::InvalidGuestAddress(GUEST_MAX_MEM))
    } else {
        None
    }
}

/// How many of the `4 * n` bytes from `addr` on are accessed, word by word,
/// before the first word that is not guest memory.
pub open spec fn words_reach(addr: u32, n: int) -> int {
    if n <= 0 || word_error(addr) is Some {
        0
    } else if addr + 4 * n > GUEST_MAX_MEM {
        GUEST_MAX_MEM - addr
    } else {
        4 * n
    }
}

/// `mem` with `words` put to their addresses, one after the other, unless one of
/// these does not belong to the guest.
pub open spec fn loaded(mem: Map<u32, u8>, words: Seq<(u32, u32)>) -> Result<
    Map<u32, u8>,
    ErrorView,
>
    decreases words.len(),
{
    if words.len() == 0 {
        Ok(mem)
    } else {
        let (addr, word) = words[0];
        match word_error(addr) {
            Some(e) => Err(e),
            None => loaded(
                mem.union_prefer_right(placed(addr as int, le_bytes(seq![word]))),
                words.drop_first(),
            ),
        }
    }
}

/// The image of a program that enters at `entry` with `words` in memory.
pub open spec fn program_image(entry: u32, words: Seq<(u32, u32)>) -> Result<
    ImageView,
    ErrorView,
> {
    match loaded(Map::empty(), words) {
        Ok(mem) => Ok(ImageView { mem, regs: Seq::new(32, |i: int| 0u32), pc: entry }),
        Err(e) => Err(e),
    }
}

impl GuestView {
    /// The byte at `addr`.
    pub open spec fn byte_at(self, addr: int) -> u8 {
        if self.mem.contains_key(addr as u32) {
            self.mem[addr as u32]
        } else {
            0
        }
    }

    /// The `n` bytes from `addr` on.
    pub open spec fn bytes_at(self, addr: int, n: int) -> Seq<u8> {
        Seq::new(n as nat, |i: int| self.byte_at(addr + i))
    }

    /// The word at `addr`.
    pub open spec fn word_at(self, addr: int) -> u32 {
        le_word(
            self.byte_at(addr),
            self.byte_at(addr + 1),
            self.byte_at(addr + 2),
            self.byte_at(addr + 3),
        )
    }

    /// The length of the string at `addr`: the distance to the first byte that
    /// is zero or does not belong to the guest.
    pub open spec fn string_len(self, addr: int) -> nat
        decreases GUEST_MAX_MEM - addr,
    {
        if !guest_addr(addr) || self.byte_at(addr) == 0 {
            0
        } else {
            1 + self.string_len(addr + 1)
        }
    }

    /// The segment has touched nothing yet.
    pub open spec fn untouched(self) -> GuestView {
        GuestView { reads: Set::empty(), writes: Set::empty(), ..self }
    }
}

impl MonitorView {
    pub open spec fn reg(self, idx: usize) -> u32 {
        self.now.regs[idx as int]
    }

    /// Cycles spent on reading pages.
    pub open spec fn read_cycles(self) -> nat {
        self.page_read_cost as nat * self.now.reads.len()
    }

    /// Cycles spent on writing pages back.
    pub open spec fn write_cycles(self) -> nat {
        self.page_write_cost as nat * self.now.writes.len()
    }

    /// Nothing happened since the last commit.
    pub open spec fn clean(self) -> bool {
        self.now == self.saved && self.events.len() == 0
    }

    /// The monitor after `n` bytes from `addr` on were read.
    pub open spec fn touched(self, addr: int, n: int) -> MonitorView {
        MonitorView {
            now: GuestView { reads: self.now.reads.union(pages(addr, n)), ..self.now },
            ..self
        }
    }

    /// The monitor after `bytes` were stored at `addr`. A page is read before
    /// it is changed.
    pub open spec fn stored(self, addr: int, bytes: Seq<u8>) -> MonitorView {
        MonitorView {
            now: GuestView {
                mem: self.now.mem.union_prefer_right(placed(addr, bytes)),
                reads: self.now.reads.union(pages(addr, bytes.len() as int)),
                writes: self.now.writes.union(pages(addr, bytes.len() as int)),
                ..self.now
            },
            events: if self.trace {
                self.events + store_events(addr, bytes)
            } else {
                self.events
            },
            ..self
        }
    }

    /// The monitor after register `idx` took `value`.
    pub open spec fn with_reg(self, idx: usize, value: u32) -> MonitorView {
        MonitorView {
            now: GuestView { regs: self.now.regs.update(idx as int, value), ..self.now },
            events: if self.trace {
                self.events.push(TraceEvent::RegisterSet { idx, value })
            } else {
                self.events
            },
            ..self
        }
    }

    /// Reads the word at `addr`.
    pub open spec fn read_word(self, addr: u32) -> (MonitorView, Result<u32, ErrorView>) {
        match word_error(addr) {
            Some(e) => (self, Err(e)),
            None => (self.touched(addr as int, 4), Ok(self.now.word_at(addr as int))),
        }
    }

    /// Reads the `n` words from `addr` on, one after the other.
    pub open spec fn read_words(self, addr: u32, n: int) -> (
        MonitorView,
        Result<Seq<u32>, ErrorView>,
    ) {
        (
            self.touched(addr as int, words_reach(addr, n)),
            match words_error(addr, n) {
                Some(e) => Err(e),
                None => Ok(Seq::new(n as nat, |i: int| self.now.word_at(addr + 4 * i))),
            },
        )
    }

    /// Reads the `n` bytes from `addr` on.
    pub open spec fn read_region(self, addr: u32, n: int) -> (
        MonitorView,
        Result<Seq<u8>, ErrorView>,
    ) {
        match region_error(addr, n) {
            Some(e) => (self, Err(e)),
            None => (self.touched(addr as int, n), Ok(self.now.bytes_at(addr as int, n))),
        }
    }

    /// Reads the address that register `idx` holds.
    pub open spec fn read_addr(self, idx: usize) -> Result<u32, ErrorView> {
        if guest_addr(self.reg(idx) as int) {
            Ok(self.reg(idx))
        } else {
            Err(ErrorView::InvalidGuestAddress(self.reg(idx)))
        }
    }

    /// Reads the string at `addr`, which ends before a zero byte.
    pub open spec fn read_string(self, addr: u32) -> (
        MonitorView,
        Result<Seq<char>, ErrorView>,
    ) {
        let len = self.now.string_len(addr as int);
        let bytes = self.now.bytes_at(addr as int, len as int);
        if !guest_addr(addr + len) {
            (
                self.touched(addr as int, len as int),
                Err(ErrorView::InvalidGuestAddress((addr + len) as u32)),
            )
        } else {
            (
                self.touched(addr as int, len as int + 1),
                if valid_utf8(bytes) {
                    Ok(decode_utf8(bytes))
                } else {
                    Err(ErrorView::InvalidSyscallName)
                },
            )
        }
    }

    /// Stores a word at `addr`.
    pub open spec fn write_word(self, addr: u32, w: u32) -> (MonitorView, Result<(), ErrorView>) {
        match word_error(addr) {
            Some(e) => (self, Err(e)),
            None => (self.stored(addr as int, le_bytes(seq![w])), Ok(())),
        }
    }

    /// Stores `words` from `addr` on, one after the other.
    pub open spec fn write_words(self, addr: u32, words: Seq<u32>) -> (
        MonitorView,
        Result<(), ErrorView>,
    ) {
        let n = words.len() as int;
        (
            self.stored(addr as int, le_bytes(words).take(words_reach(addr, n))),
            match words_error(addr, n) {
                Some(e) => Err(e),
                None => Ok(()),
            },
        )
    }

    /// Stores `bytes` from `addr` on.
    pub open spec fn write_region(self, addr: u32, bytes: Seq<u8>) -> (
        MonitorView,
        Result<(), ErrorView>,
    ) {
        match region_error(addr, bytes.len() as int) {
            Some(e) => (self, Err(e)),
            None => (self.stored(addr as int, bytes), Ok(())),
        }
    }

    /// Drops what happened since the last commit.
    pub open spec fn undone(self) -> MonitorView {
        MonitorView { now: self.saved, events: Seq::empty(), ..self }
    }

    /// Keeps what happened since the last commit.
    pub open spec fn committed(self, cycle: u64) -> MonitorView {
        MonitorView { saved: self.now, events: Seq::empty(), cycle, ..self }
    }

    /// Starts a new segment from what was committed.
    pub open spec fn segment_cleared(self) -> MonitorView {
        MonitorView {
            now: self.saved.untouched(),
            saved: self.saved.untouched(),
            events: Seq::empty(),
            ..self
        }
    }

    /// Starts a new session from what was committed.
    pub open spec fn session_cleared(self) -> MonitorView {
        MonitorView { cycle: 0, ..self.segment_cleared() }
    }

    /// The guest as an image to run from `pc` on.
    pub open spec fn image(self, pc: u32) -> ImageView {
        ImageView { mem: self.now.mem, regs: self.now.regs, pc }
    }
}

} // verus!
