//! Access to guest memory by words, regions and strings.
use crate::guest::{pages, placed, region_error, store_events, word_error, MonitorView};
use crate::monitor::MemoryMonitor;
use crate::platform::{guest_addr, is_guest_memory, GUEST_MAX_MEM, WORD_SIZE};
use crate::types::{viewed, ErrorView, ExecError};
use crate::words::{le_bytes, word_from_le, words_to_le_bytes};
use vstd::prelude::*;
use vstd::utf8::{decode_utf8, valid_utf8};

verus! {

/// One byte more touches the page of that byte.
proof fn lemma_pages_extend(addr: int, n: int)
    requires
        0 <= addr,
        0 <= n,
        addr + n <= u32::MAX,
    ensures
        pages(addr, n + 1) == pages(addr, n).union(pages(addr + n, 1)),
{
    assert(pages(addr, n + 1) =~= pages(addr, n).union(pages(addr + n, 1)));
}

/// No bytes touch no page.
proof fn lemma_touched_none(m: MonitorView, addr: int)
    ensures
        m.touched(addr, 0) == m,
{
    assert(pages(addr, 0) =~= Set::<u32>::empty());
    assert(m.now.reads.union(Set::<u32>::empty()) =~= m.now.reads);
}

/// Storing nothing changes nothing.
proof fn lemma_stored_none(m: MonitorView, addr: int)
    ensures
        m.stored(addr, Seq::empty()) == m,
{
    assert(pages(addr, 0) =~= Set::<u32>::empty());
    assert(m.now.reads.union(Set::<u32>::empty()) =~= m.now.reads);
    assert(m.now.writes.union(Set::<u32>::empty()) =~= m.now.writes);
    assert(m.now.mem.union_prefer_right(placed(addr, Seq::empty())) =~= m.now.mem);
    assert(m.events + store_events(addr, Seq::empty()) =~= m.events);
}

/// One byte more is stored behind the others.
proof fn lemma_stored_extend(m: MonitorView, addr: int, bytes: Seq<u8>, b: u8)
    requires
        0 <= addr,
        addr + bytes.len() <= u32::MAX,
    ensures
        m.stored(addr, bytes).stored(addr + bytes.len(), seq![b]) == m.stored(addr, bytes.push(b)),
{
    let n = bytes.len() as int;
    let one = m.stored(addr, bytes).stored(addr + n, seq![b]);
    let all = m.stored(addr, bytes.push(b));
    lemma_pages_extend(addr, n);
    assert(one.now.reads =~= all.now.reads);
    assert(one.now.writes =~= all.now.writes);
    assert(one.now.mem =~= all.now.mem) by {
        let base = m.now.mem.union_prefer_right(placed(addr, bytes));
        assert forall|k: u32| one.now.mem.contains_key(k) == all.now.mem.contains_key(k) by {
            if addr <= k < addr + n + 1 && !(addr <= k < addr + n) {
                assert(placed(addr + n, seq![b]).contains_key(k));
            }
            if placed(addr + n, seq![b]).contains_key(k) {
                assert(placed(addr, bytes.push(b)).contains_key(k));
            }
        }
        assert forall|k: u32| one.now.mem.contains_key(k) implies one.now.mem[k]
            == all.now.mem[k] by {
            if addr <= k < addr + n {
                assert(placed(addr, bytes).contains_key(k));
                assert(!placed(addr + n, seq![b]).contains_key(k));
            }
        }
    }
    assert(one.events =~= all.events) by {
        assert(store_events(addr, bytes) + store_events(addr + n, seq![b]) =~= store_events(
            addr,
            bytes.push(b),
        ));
    }
}

/// Two monitors are the same.
spec fn same(a: MonitorView, b: MonitorView) -> bool {
    a == b
}

/// A result whose elements are looked at as a sequence.
pub open spec fn seq_result<T>(r: Result<Vec<T>, ExecError>) -> Result<Seq<T>, ErrorView> {
    match r {
        Ok(v) => Ok(v@),
        Err(e) => Err(e@),
    }
}

/// A result whose string is looked at as a sequence of characters.
pub open spec fn string_result(r: Result<String, ExecError>) -> Result<Seq<char>, ErrorView> {
    match r {
        Ok(s) => Ok(s@),
        Err(e) => Err(e@),
    }
}

/// The text that `bytes` encode, by `String::from_utf8` of the standard library:
/// there is one exactly if `bytes` are UTF-8.
#[verifier::external_body]
fn text_from_utf8(bytes: Vec<u8>) -> (r: Option<String>)
    ensures
        r is Some <==> valid_utf8(bytes@),
        r is Some ==> r->Some_0@ == decode_utf8(bytes@),
{
    String::from_utf8(bytes).ok()
}

/// Reading on touches what both readings touch.
proof fn lemma_touched_join(m: MonitorView, addr: int, n: int, k: int)
    requires
        0 <= addr,
        0 <= n,
        0 <= k,
        addr + n + k <= u32::MAX,
    ensures
        m.touched(addr, n).touched(addr + n, k) == m.touched(addr, n + k),
{
    assert(m.touched(addr, n).touched(addr + n, k).now.reads =~= m.touched(addr, n + k).now.reads);
}

/// Storing on stores both pieces.
proof fn lemma_stored_join(m: MonitorView, addr: int, a: Seq<u8>, b: Seq<u8>)
    requires
        0 <= addr,
        addr + a.len() + b.len() <= u32::MAX,
    ensures
        m.stored(addr, a).stored(addr + a.len(), b) == m.stored(addr, a + b),
    decreases b.len(),
{
    if b.len() == 0 {
        lemma_stored_none(m.stored(addr, a), addr + a.len());
        assert(b =~= Seq::empty());
        assert(a + b =~= a);
    } else {
        let c = b.drop_last();
        lemma_stored_join(m, addr, a, c);
        lemma_stored_extend(m.stored(addr, a), addr + a.len(), c, b.last());
        lemma_stored_extend(m, addr, a + c, b.last());
        assert(c.push(b.last()) =~= b);
        assert((a + c).push(b.last()) =~= a + b);
        assert(addr + a.len() + c.len() == addr + (a + c).len());
    }
}

/// Storing one word more stores the bytes of all words so far.
proof fn lemma_stored_word(m: MonitorView, addr: int, words: Seq<u32>, i: int)
    requires
        0 <= addr,
        0 <= i < words.len(),
        addr + 4 * i + 4 <= u32::MAX,
    ensures
        m.stored(addr, le_bytes(words).take(4 * i)).stored(addr + 4 * i, le_bytes(seq![words[i]]))
            == m.stored(addr, le_bytes(words).take(4 * (i + 1))),
{
    let a = le_bytes(words).take(4 * i);
    let b = le_bytes(seq![words[i]]);
    lemma_stored_join(m, addr, a, b);
    assert(a + b =~= le_bytes(words).take(4 * (i + 1)));
}

/// A word lies on one page.
proof fn lemma_pages_word(addr: int)
    requires
        0 <= addr <= u32::MAX,
        addr % 4 == 0,
    ensures
        pages(addr, 1) == pages(addr, 4),
{
    assert(pages(addr, 1) =~= pages(addr, 4));
}

impl MemoryMonitor {
    /// Reads the word at `addr`.
    #[verifier::rlimit(40)]
    pub fn load_u32(&mut self, addr: u32) -> (r: Result<u32, ExecError>)
        requires
            old(self).wf(),
        ensures
            final(self).wf(),
            (final(self)@, viewed(r)) == old(self)@.read_word(addr),
    {
        if !is_guest_memory(addr) {
            return Err(ExecError::InvalidGuestAddress(addr));
        }
        if addr % WORD_SIZE != 0 {
            return Err(ExecError::UnalignedAddress(addr));
        }
        proof {
            lemma_pages_word(addr as int);
        }
        self.touch(addr);
        Ok(
            word_from_le(
                self.peek_u8(addr),
                self.peek_u8(addr + 1),
                self.peek_u8(addr + 2),
                self.peek_u8(addr + 3),
            ),
        )
    }

    /// Reads `n` words from `addr` on, one after the other.
    #[verifier::rlimit(40)]
    pub fn load_words(&mut self, addr: u32, n: u32) -> (r: Result<Vec<u32>, ExecError>)
        requires
            old(self).wf(),
        ensures
            final(self).wf(),
            (final(self)@, seq_result(r)) == old(self)@.read_words(addr, n as int),
    {
        let mut words: Vec<u32> = Vec::new();
        let mut i: u32 = 0;
        let ghost before = self@;
        proof {
            lemma_touched_none(before, addr as int);
        }
        while i < n
            invariant
                self.wf(),
                before == old(self)@,
                i <= n,
                i > 0 ==> word_error(addr) is None,
                i > 0 ==> addr + 4 * i <= GUEST_MAX_MEM,
                words@ == Seq::new(i as nat, |k: int| before.now.word_at(addr + 4 * k)),
                same(self@, before.touched(addr as int, 4 * i)),
            decreases n - i,
        {
            let at: u32 = addr + 4 * i;
            match self.load_u32(at) {
                Ok(w) => {
                    proof {
                        lemma_touched_join(before, addr as int, 4 * i, 4);
                    }
                    words.push(w);
                },
                Err(e) => {
                    proof {
                        if i > 0 {
                            assert(at == GUEST_MAX_MEM);
                        }
                    }
                    return Err(e);
                },
            }
            i = i + 1;
            assert(words@ =~= Seq::new(i as nat, |k: int| before.now.word_at(addr + 4 * k)));
        }
        Ok(words)
    }

    /// Reads `n` bytes from `addr` on.
    #[verifier::rlimit(40)]
    pub fn load_array_from_guest_addr(&mut self, addr: u32, n: u32) -> (r: Result<
        Vec<u8>,
        ExecError,
    >)
        requires
            old(self).wf(),
        ensures
            final(self).wf(),
            (final(self)@, seq_result(r)) == old(self)@.read_region(addr, n as int),
    {
        let mut bytes: Vec<u8> = Vec::new();
        let mut i: u32 = 0;
        let ghost before = self@;
        proof {
            lemma_touched_none(before, addr as int);
        }
        if n > 0 {
            if !is_guest_memory(addr) {
                return Err(ExecError::InvalidGuestAddress(addr));
            }
            if n > GUEST_MAX_MEM - addr {
                return Err(ExecError::InvalidGuestAddress(GUEST_MAX_MEM));
            }
        }
        while i < n
            invariant
                self.wf(),
                i <= n,
                region_error(addr, n as int) is None,
                bytes@ == before.now.bytes_at(addr as int, i as int),
                same(self@, before.touched(addr as int, i as int)),
            decreases n - i,
        {
            let at: u32 = addr + i;
            self.touch(at);
            proof {
                lemma_touched_join(before, addr as int, i as int, 1);
            }
            bytes.push(self.peek_u8(at));
            i = i + 1;
            assert(bytes@ =~= before.now.bytes_at(addr as int, i as int));
        }
        Ok(bytes)
    }

    /// Reads the string at `addr`, which ends before a zero byte.
    #[verifier::rlimit(40)]
    pub fn load_string_from_guest_memory(&mut self, addr: u32) -> (r: Result<String, ExecError>)
        requires
            old(self).wf(),
        ensures
            final(self).wf(),
            (final(self)@, string_result(r)) == old(self)@.read_string(addr),
    {
        let mut bytes: Vec<u8> = Vec::new();
        let mut at: u32 = addr;
        let ghost before = self@;
        let ghost len = before.now.string_len(addr as int);
        proof {
            lemma_touched_none(before, addr as int);
        }
        loop
            invariant_except_break
                same(self@, before.touched(addr as int, at - addr)),
            invariant
                self.wf(),
                before == old(self)@,
                addr <= at,
                at - addr <= len,
                at > addr ==> at <= GUEST_MAX_MEM,
                len == before.now.string_len(addr as int),
                len == (at - addr) + before.now.string_len(at as int),
                bytes@ == before.now.bytes_at(addr as int, at - addr),
            ensures
                self.wf(),
                guest_addr(at as int),
                at - addr == len,
                bytes@ == before.now.bytes_at(addr as int, len as int),
                same(self@, before.touched(addr as int, len as int + 1)),
            decreases u32::MAX - at,
        {
            if !is_guest_memory(at) {
                return Err(ExecError::InvalidGuestAddress(at));
            }
            self.touch(at);
            proof {
                lemma_touched_join(before, addr as int, at - addr, 1);
            }
            let b: u8 = self.peek_u8(at);
            if b == 0 {
                break;
            }
            bytes.push(b);
            at = at + 1;
            assert(bytes@ =~= before.now.bytes_at(addr as int, at - addr));
        }
        match text_from_utf8(bytes) {
            Some(text) => Ok(text),
            None => Err(ExecError::InvalidSyscallName),
        }
    }

    /// Stores `bytes` from `addr` on.
    #[verifier::rlimit(40)]
    pub fn store_region_to_guest_memory(&mut self, addr: u32, bytes: &Vec<u8>) -> (r: Result<
        (),
        ExecError,
    >)
        requires
            old(self).wf(),
        ensures
            final(self).wf(),
            (final(self)@, viewed(r)) == old(self)@.write_region(addr, bytes@),
    {
        let n: usize = bytes.len();
        let mut i: usize = 0;
        let ghost before = self@;
        proof {
            lemma_stored_none(before, addr as int);
            assert(bytes@.take(0) =~= Seq::empty());
            assert(bytes@.take(n as int) =~= bytes@);
        }
        if n > 0 {
            if !is_guest_memory(addr) {
                return Err(ExecError::InvalidGuestAddress(addr));
            }
            if n > (GUEST_MAX_MEM - addr) as usize {
                return Err(ExecError::InvalidGuestAddress(GUEST_MAX_MEM));
            }
        }
        while i < n
            invariant
                self.wf(),
                i <= n,
                n == bytes@.len(),
                region_error(addr, n as int) is None,
                same(self@, before.stored(addr as int, bytes@.take(i as int))),
            decreases n - i,
        {
            self.store_u8(addr + i as u32, bytes[i]);
            proof {
                lemma_stored_extend(before, addr as int, bytes@.take(i as int), bytes@[i as int]);
                assert(bytes@.take(i as int).push(bytes@[i as int]) =~= bytes@.take(i + 1));
            }
            i = i + 1;
        }
        Ok(())
    }

    /// Stores a word at `addr`.
    pub fn store_u32_to_guest_memory(&mut self, addr: u32, w: u32) -> (r: Result<(), ExecError>)
        requires
            old(self).wf(),
        ensures
            final(self).wf(),
            (final(self)@, viewed(r)) == old(self)@.write_word(addr, w),
    {
        if !is_guest_memory(addr) {
            return Err(ExecError::InvalidGuestAddress(addr));
        }
        if addr % WORD_SIZE != 0 {
            return Err(ExecError::UnalignedAddress(addr));
        }
        let mut words: Vec<u32> = Vec::new();
        words.push(w);
        let bytes = words_to_le_bytes(&words);
        assert(words@ =~= seq![w]);
        self.store_region_to_guest_memory(addr, &bytes)
    }

    /// Stores `words` from `addr` on, one after the other.
    #[verifier::rlimit(40)]
    pub fn store_words(&mut self, addr: u32, words: &Vec<u32>) -> (r: Result<(), ExecError>)
        requires
            old(self).wf(),
        ensures
            final(self).wf(),
            (final(self)@, viewed(r)) == old(self)@.write_words(addr, words@),
    {
        let n: usize = words.len();
        let mut i: usize = 0;
        let ghost before = self@;
        proof {
            lemma_stored_none(before, addr as int);
            assert(le_bytes(words@).take(0) =~= Seq::empty());
        }
        while i < n
            invariant
                self.wf(),
                before == old(self)@,
                i <= n,
                n == words@.len(),
                i > 0 ==> word_error(addr) is None,
                i > 0 ==> addr + 4 * i <= GUEST_MAX_MEM,
                same(self@, before.stored(addr as int, le_bytes(words@).take(4 * i))),
            decreases n - i,
        {
            let at: u32 = addr + 4 * (i as u32);
            match self.store_u32_to_guest_memory(at, words[i]) {
                Ok(()) => {
                    proof {
                        lemma_stored_word(before, addr as int, words@, i as int);
                    }
                },
                Err(e) => {
                    proof {
                        if i > 0 {
                            assert(at == GUEST_MAX_MEM);
                        }
                    }
                    return Err(e);
                },
            }
            i = i + 1;
        }
        Ok(())
    }
}

} // verus!
