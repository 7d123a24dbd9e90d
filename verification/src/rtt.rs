//! The RTT up-channel: a ring buffer that the target fills and a debug host
//! drains, in the layout of SEGGER RTT.

use vstd::prelude::*;
use vstd::arithmetic::div_mod::{lemma_add_mod_noop, lemma_fundamental_div_mod, lemma_fundamental_div_mod_converse, lemma_mod_twice, lemma_add_mod_noop_right};

verus! {

/// Size of the RTT up-channel ring buffer in bytes.
pub const RTT_BUF_SIZE: usize = 1024;

/// Relevant bits in the RTT channel `flags` field.
pub const MODE_MASK: usize = 0b11;

/// Block the application until the host has read the data.
pub const MODE_BLOCK_IF_FULL: usize = 2;

/// Skip data when the buffer is full; the mode on start-up.
pub const MODE_NON_BLOCKING_TRIM: usize = 1;

/// Contiguous free space that the target may write at `write` without
/// passing the host's `read` cursor (one slot always stays free).
pub open spec fn available_spec(read: int, write: int, size: int) -> int {
    if read > write {
        read - write - 1
    } else if read == 0 {
        size - write - 1
    } else {
        size - write
    }
}

/// Computes the free space the target may write to at once.
pub fn rtt_available(read: usize, write: usize, size: usize) -> (r: usize)
    requires
        read <= write ==> (if read == 0 { write < size } else { write <= size }),
    ensures
        r == available_spec(read as int, write as int, size as int),
{
    if read > write {
        read - write - 1
    } else if read == 0 {
        size - write - 1
    } else {
        size - write
    }
}


/// The space handed out to the target never reaches the host's read cursor:
/// it fits before the end of the buffer, and together with the unread bytes
/// it leaves one slot free.
pub proof fn lemma_available_never_overruns(read: int, write: int)
    requires
        0 <= read < RTT_BUF_SIZE,
        0 <= write < RTT_BUF_SIZE,
    ensures
        0 <= available_spec(read, write, RTT_BUF_SIZE as int),
        write + available_spec(read, write, RTT_BUF_SIZE as int) <= RTT_BUF_SIZE,
        (write - read) % (RTT_BUF_SIZE as int) + available_spec(read, write, RTT_BUF_SIZE as int)
            <= RTT_BUF_SIZE - 1,
{
    let size = RTT_BUF_SIZE as int;
    if write >= read {
        assert((write - read) % size == write - read);
    } else {
        assert((write - read) % size == write - read + size);
    }
}

/// Where a write of `len` bytes at `cursor` puts them: the sum of cursor
/// and length cannot overflow; a write that runs past the end is split in a
/// piece up to the end and a piece from the start, which reads the rest of
/// the bytes and ends before the first piece begins; and every byte lands
/// at its position modulo the size, inside the buffer.
pub proof fn lemma_write_positions_in_bounds(cursor: int, len: int)
    requires
        0 <= cursor < RTT_BUF_SIZE,
        0 <= len <= RTT_BUF_SIZE,
    ensures
        cursor + len < 2 * RTT_BUF_SIZE,
        cursor + len <= RTT_BUF_SIZE || ({
            let pivot = RTT_BUF_SIZE - cursor;
            &&& 0 < pivot < len
            &&& cursor + pivot == RTT_BUF_SIZE
            &&& 0 < len - pivot <= cursor
        }),
        forall|k: int|
            0 <= k < len ==> {
                let p = #[trigger] ((cursor + k) % (RTT_BUF_SIZE as int));
                &&& 0 <= p < RTT_BUF_SIZE
                &&& p == if cursor + k < RTT_BUF_SIZE { cursor + k } else { cursor + k - RTT_BUF_SIZE }
            },
{
    let size = RTT_BUF_SIZE as int;
    assert forall|k: int| 0 <= k < len implies {
        let p = #[trigger] ((cursor + k) % size);
        &&& 0 <= p < RTT_BUF_SIZE
        &&& p == if cursor + k < RTT_BUF_SIZE { cursor + k } else { cursor + k - RTT_BUF_SIZE }
    } by {
        if cursor + k < size {
            assert((cursor + k) % size == cursor + k);
        } else {
            assert((cursor + k) % size == cursor + k - size);
        }
    }
}

/// What the ring `buf` holds after `data` was written to it byte by byte,
/// starting at position `cursor` and wrapping at its end: every position
/// holds the last byte written to it, or its old byte if none was.
pub open spec fn ring_after(buf: Seq<u8>, cursor: int, data: Seq<u8>) -> Seq<u8> {
    Seq::new(
        buf.len(),
        |i: int|
            {
                let back = (cursor + data.len() - 1 - i) % (buf.len() as int);
                if back < data.len() {
                    data[data.len() - 1 - back]
                } else {
                    buf[i]
                }
            },
    )
}

/// The bytes that the host has not read yet: those from `read` up to
/// `write`, in ring order.
pub open spec fn unread(buf: Seq<u8>, read: int, write: int) -> Seq<u8> {
    let size = buf.len() as int;
    Seq::new(((write - read) % size) as nat, |k: int| buf[(read + k) % size])
}

/// Writing to a ring only depends on the cursor's position modulo the size.
pub proof fn lemma_ring_cursor_mod(buf: Seq<u8>, cursor: int, data: Seq<u8>)
    requires
        buf.len() > 0,
    ensures
        ring_after(buf, cursor % (buf.len() as int), data) == ring_after(buf, cursor, data),
{
    let size = buf.len() as int;
    assert forall|i: int| 0 <= i < size implies #[trigger] ring_after(buf, cursor % size, data)[i]
        == ring_after(buf, cursor, data)[i] by {
        let y = data.len() - 1 - i;
        lemma_add_mod_noop(cursor, y, size);
        lemma_add_mod_noop(cursor % size, y, size);
        lemma_mod_twice(cursor, size);
    }
    assert(ring_after(buf, cursor % size, data) =~= ring_after(buf, cursor, data));
}

/// If `(x + n) % d` is at least `n`, subtracting `n` gives `x % d`.
proof fn lemma_mod_shift_back(x: int, n: int, d: int)
    requires
        d > 0,
        n >= 0,
        (x + n) % d >= n,
    ensures
        x % d == (x + n) % d - n,
{
    lemma_fundamental_div_mod(x + n, d);
    let q = (x + n) / d;
    let r = (x + n) % d;
    assert(x == q * d + (r - n)) by (nonlinear_arith)
        requires
            x + n == d * q + r,
    ;
    lemma_fundamental_div_mod_converse(x, d, q, r - n);
}

/// Writing `d0` and then `d1` right after it leaves the ring as writing
/// `d0 + d1` in one go.
pub proof fn lemma_ring_after_concat(buf: Seq<u8>, cursor: int, d0: Seq<u8>, d1: Seq<u8>)
    requires
        buf.len() > 0,
    ensures
        ring_after(ring_after(buf, cursor, d0), cursor + d0.len(), d1) == ring_after(
            buf,
            cursor,
            d0 + d1,
        ),
{
    let size = buf.len() as int;
    let n0 = d0.len() as int;
    let n1 = d1.len() as int;
    let mid = ring_after(buf, cursor, d0);
    let lhs = ring_after(mid, cursor + n0, d1);
    let rhs = ring_after(buf, cursor, d0 + d1);
    assert forall|i: int| 0 <= i < size implies #[trigger] lhs[i] == rhs[i] by {
        let back1 = (cursor + n0 + n1 - 1 - i) % size;
        if back1 >= n1 {
            lemma_mod_shift_back(cursor + n0 - 1 - i, n1, size);
        }
    }
    assert(lhs =~= rhs);
}

/// A write of at most the available space lands right after the unread
/// bytes: the host will read the old unread bytes and then the new ones,
/// and no unread byte is overwritten.
pub proof fn lemma_write_within_available_keeps_unread(
    buf: Seq<u8>,
    read: int,
    write: int,
    data: Seq<u8>,
)
    requires
        buf.len() == RTT_BUF_SIZE,
        0 <= read < RTT_BUF_SIZE,
        0 <= write < RTT_BUF_SIZE,
        data.len() <= available_spec(read, write, RTT_BUF_SIZE as int),
    ensures
        unread(ring_after(buf, write, data), read, (write + data.len()) % (RTT_BUF_SIZE as int))
            == unread(buf, read, write) + data,
{
    let size = RTT_BUF_SIZE as int;
    let n = data.len() as int;
    let u = if write >= read { write - read } else { write - read + size };
    assert((write - read) % size == u);
    assert(u + n < size);
    let w2 = (write + n) % size;
    assert((w2 - read) % size == u + n) by {
        if write + n >= size {
            assert(w2 == write + n - size);
        } else {
            assert(w2 == write + n);
        }
    }
    let nb = ring_after(buf, write, data);
    let lhs = unread(nb, read, w2);
    let rhs = unread(buf, read, write) + data;
    assert forall|k: int| 0 <= k < u + n implies #[trigger] lhs[k] == rhs[k] by {
        let p = (read + k) % size;
        let q = if read + k < size { read + k } else { read + k - size };
        assert(p == q);
        let v = write + n - 1 - q;
        let back = v % size;
        assert(back == n - 1 + u - k) by {
            if v < 0 {
                assert(v % size == v + size);
            } else if v >= size {
                assert(v % size == v - size);
            } else {
                assert(v % size == v);
            }
        }
    }
    assert(lhs =~= rhs);
}

/// `old` with the positions `at .. at + n` replaced by `src[from .. from + n]`.
pub open spec fn copied(old: Seq<u8>, at: int, src: Seq<u8>, from: int, n: int) -> Seq<u8> {
    Seq::new(old.len(), |i: int| if at <= i < at + n { src[from + i - at] } else { old[i] })
}

/// The static byte storage of the RTT up-channel.
pub struct RttBuffer {
    inner: [u8; RTT_BUF_SIZE],
}

impl View for RttBuffer {
    type V = Seq<u8>;

    closed spec fn view(&self) -> Seq<u8> {
        self.inner@
    }
}

impl RttBuffer {
    /// A zero-filled buffer of `RTT_BUF_SIZE` bytes.
    pub fn new() -> (b: Self)
        ensures
            b@ == Seq::new(RTT_BUF_SIZE as nat, |i: int| 0u8),
    {
        let b = RttBuffer { inner: [0u8; 1024] };
        assert(b@ =~= Seq::new(RTT_BUF_SIZE as nat, |i: int| 0u8));
        b
    }

    /// The buffer's bytes.
    pub fn get(&self) -> (s: &[u8])
        ensures
            s@ == self@,
    {
        self.inner.as_slice()
    }

    /// Copies `src[from .. from + n]` to the positions `at .. at + n`.
    fn copy_in(&mut self, at: usize, src: &[u8], from: usize, n: usize)
        requires
            at + n <= old(self)@.len(),
            from + n <= src@.len(),
        ensures
            final(self)@ == copied(old(self)@, at as int, src@, from as int, n as int),
        no_unwind
    {
        let ghost start = self@;
        let mut k: usize = 0;
        while k < n
            invariant
                k <= n,
                at + n <= start.len(),
                from + n <= src@.len(),
                start.len() == RTT_BUF_SIZE,
                from + n <= src.len(),
                self@ == copied(start, at as int, src@, from as int, k as int),
            decreases n - k,
        {
            self.inner[at + k] = src[from + k];
            k = k + 1;
            assert(self@ =~= copied(start, at as int, src@, from as int, k as int));
        }
    }
}


/// The RTT up-channel as the target sees it: the ring buffer, the target's
/// write cursor, and the host's read cursor and mode flags.
pub struct RttChannel {
    buffer: RttBuffer,
    write: usize,
    read: usize,
    flags: usize,
}

impl RttChannel {
    /// The ring buffer's contents.
    pub closed spec fn buf(&self) -> Seq<u8> {
        self.buffer@
    }

    /// The target's write cursor.
    pub closed spec fn write_pos(&self) -> int {
        self.write as int
    }

    /// The host's read cursor.
    pub closed spec fn read_pos(&self) -> int {
        self.read as int
    }

    /// The mode flags that the host sets.
    pub closed spec fn flags_val(&self) -> usize {
        self.flags
    }

    /// Both cursors lie inside the buffer.
    #[verifier::type_invariant]
    spec fn cursors_in_range(&self) -> bool {
        &&& self.write < RTT_BUF_SIZE
        &&& self.read < RTT_BUF_SIZE
    }

    /// The channel is well formed: it always is (see `view_wf`).
    pub fn view_wf(&self)
        ensures
            self.wf(),
    {
        proof {
            use_type_invariant(self);
        }
    }

    /// Both cursors lie inside a buffer of `RTT_BUF_SIZE` bytes.
    pub open spec fn wf(&self) -> bool {
        &&& self.buf().len() == RTT_BUF_SIZE
        &&& 0 <= self.write_pos() < RTT_BUF_SIZE
        &&& 0 <= self.read_pos() < RTT_BUF_SIZE
    }

    /// The host has put the channel in blocking mode.
    pub open spec fn connected(&self) -> bool {
        self.flags_val() & MODE_MASK == MODE_BLOCK_IF_FULL
    }

    /// The bytes the host has yet to read.
    pub open spec fn pending(&self) -> Seq<u8> {
        unread(self.buf(), self.read_pos(), self.write_pos())
    }

    /// How `after` and the count `n` relate to this channel when `bytes`
    /// were written: the first `n` bytes land after the write cursor,
    /// queued after the unread bytes, which stay as they were; a short count
    /// means the ring is full.
    pub open spec fn wrote_all(self, after: RttChannel, bytes: Seq<u8>, n: int) -> bool {
        &&& after.wf()
        &&& 0 <= n <= bytes.len()
        &&& after.read_pos() == self.read_pos()
        &&& after.flags_val() == self.flags_val()
        &&& after.buf() == ring_after(self.buf(), self.write_pos(), bytes.subrange(0, n))
        &&& after.write_pos() == (self.write_pos() + n) % (RTT_BUF_SIZE as int)
        &&& after.pending() == self.pending() + bytes.subrange(0, n)
        &&& n < bytes.len() ==> available_spec(
            after.read_pos(),
            after.write_pos(),
            RTT_BUF_SIZE as int,
        ) == 0
    }

    /// The channel at start-up: empty, both cursors at 0, non-blocking mode.
    pub fn new() -> (c: Self)
        ensures
            c.wf(),
            c.buf() == Seq::new(RTT_BUF_SIZE as nat, |i: int| 0u8),
            c.write_pos() == 0,
            c.read_pos() == 0,
            c.flags_val() == MODE_NON_BLOCKING_TRIM,
    {
        RttChannel { buffer: RttBuffer::new(), write: 0, read: 0, flags: MODE_NON_BLOCKING_TRIM }
    }

    /// The storage behind the channel.
    pub fn buffer(&self) -> (b: &RttBuffer)
        ensures
            b@ == self.buf(),
    {
        &self.buffer
    }

    /// The target's write cursor.
    pub fn write_cursor(&self) -> (w: usize)
        ensures
            w == self.write_pos(),
    {
        self.write
    }

    /// Records what the host has written into the control block: its read
    /// cursor and the mode flags.
    pub fn host_update(&mut self, read: usize, flags: usize)
        requires
            read < RTT_BUF_SIZE,
        ensures
            final(self).wf(),
            final(self).read_pos() == read,
            final(self).flags_val() == flags,
            final(self).buf() == old(self).buf(),
            final(self).write_pos() == old(self).write_pos(),
    {
        proof {
            use_type_invariant(&*self);
        }
        self.read = read;
        self.flags = flags;
    }

    /// Whether a host (a debug probe) has put the channel in blocking mode.
    pub fn host_is_connected(&self) -> (r: bool)
        ensures
            r == self.connected(),
    {
        self.flags & MODE_MASK == MODE_BLOCK_IF_FULL
    }

    /// Writes as much of `bytes` as fits before the host's read cursor
    /// (blocking mode); returns how many bytes were written.
    pub fn blocking_write(&mut self, bytes: &[u8]) -> (n: usize)
        ensures
            final(self).wf(),
            n == if bytes@.len() == 0 {
                0
            } else {
                let a = available_spec(old(self).read_pos(), old(self).write_pos(), RTT_BUF_SIZE as int);
                if bytes@.len() < a { bytes@.len() as int } else { a }
            },
            final(self).buf() == ring_after(old(self).buf(), old(self).write_pos(), bytes@.subrange(0, n as int)),
            final(self).write_pos() == (old(self).write_pos() + n) % (RTT_BUF_SIZE as int),
            final(self).read_pos() == old(self).read_pos(),
            final(self).flags_val() == old(self).flags_val(),
            final(self).pending() == old(self).pending() + bytes@.subrange(0, n as int),
    {
        proof {
            use_type_invariant(&*self);
        }
        if bytes.len() == 0 {
            assert(self.buf() =~= ring_after(self.buf(), self.write_pos(), bytes@.subrange(0, 0)));
            assert(self.write_pos() % (RTT_BUF_SIZE as int) == self.write_pos());
            assert(self.pending() =~= self.pending() + bytes@.subrange(0, 0));
            return 0;
        }
        let read = self.read;
        let write = self.write;
        let available = rtt_available(read, write, RTT_BUF_SIZE);
        if available == 0 {
            assert(self.buf() =~= ring_after(self.buf(), self.write_pos(), bytes@.subrange(0, 0)));
            assert(self.write_pos() % (RTT_BUF_SIZE as int) == self.write_pos());
            assert(self.pending() =~= self.pending() + bytes@.subrange(0, 0));
            return 0;
        }
        let ghost old_buf = self.buf();
        let n = self.write_impl(bytes, write, available);
        proof {
            lemma_write_within_available_keeps_unread(old_buf, read as int, write as int, bytes@.subrange(0, n as int));
        }
        n
    }

    /// Writes as much of `bytes` as fits before the host's read cursor and
    /// skips the rest (non-blocking trim mode): unread bytes are never
    /// overwritten. Returns how many bytes were written.
    pub fn nonblocking_write(&mut self, bytes: &[u8]) -> (n: usize)
        ensures
            final(self).wf(),
            n == ({
                let a = available_spec(old(self).read_pos(), old(self).write_pos(), RTT_BUF_SIZE as int);
                if bytes@.len() < a { bytes@.len() as int } else { a }
            }),
            final(self).buf() == ring_after(old(self).buf(), old(self).write_pos(), bytes@.subrange(0, n as int)),
            final(self).write_pos() == (old(self).write_pos() + n) % (RTT_BUF_SIZE as int),
            final(self).read_pos() == old(self).read_pos(),
            final(self).flags_val() == old(self).flags_val(),
            final(self).pending() == old(self).pending() + bytes@.subrange(0, n as int),
    {
        proof {
            use_type_invariant(&*self);
        }
        let read = self.read;
        let write = self.write;
        let available = rtt_available(read, write, RTT_BUF_SIZE);
        proof {
            lemma_available_never_overruns(read as int, write as int);
        }
        let ghost old_buf = self.buf();
        let n = self.write_impl(bytes, write, available);
        proof {
            lemma_write_within_available_keeps_unread(old_buf, read as int, write as int, bytes@.subrange(0, n as int));
        }
        n
    }

    /// Writes `bytes` in the channel's mode, chunk after chunk, behind the
    /// bytes the host has not read, until all are written or the ring is
    /// full. Returns how many bytes were written. In blocking mode the rest
    /// must wait until the host reads; in non-blocking mode it is skipped.
    pub fn write_all(&mut self, bytes: &[u8]) -> (n: usize)
        ensures
            old(self).wrote_all(*final(self), bytes@, n as int),
    {
        proof {
            use_type_invariant(&*self);
        }
        let connected = self.host_is_connected();
        let ghost b0 = self.buf();
        let ghost w0 = self.write_pos();
        let ghost p0 = self.pending();
        let ghost size = RTT_BUF_SIZE as int;
        let mut done: usize = 0;
        proof {
            assert(b0 =~= ring_after(b0, w0, bytes@.subrange(0, 0)));
            assert(p0 =~= p0 + bytes@.subrange(0, 0));
        }
        while done < bytes.len()
            invariant
                done <= bytes@.len(),
                self.wf(),
                connected == self.connected(),
                connected == old(self).connected(),
                self.read_pos() == old(self).read_pos(),
                self.flags_val() == old(self).flags_val(),
                b0 == old(self).buf(),
                w0 == old(self).write_pos(),
                p0 == old(self).pending(),
                size == RTT_BUF_SIZE,
                self.buf() == ring_after(b0, w0, bytes@.subrange(0, done as int)),
                self.write_pos() == (w0 + done) % size,
                self.pending() == p0 + bytes@.subrange(0, done as int),
            ensures
                done <= bytes@.len(),
                self.wf(),
                self.read_pos() == old(self).read_pos(),
                self.flags_val() == old(self).flags_val(),
                self.buf() == ring_after(b0, w0, bytes@.subrange(0, done as int)),
                self.write_pos() == (w0 + done) % size,
                self.pending() == p0 + bytes@.subrange(0, done as int),
                done < bytes@.len() ==> available_spec(
                    self.read_pos(),
                    self.write_pos(),
                    RTT_BUF_SIZE as int,
                ) == 0,
            decreases bytes@.len() - done,
        {
            let (_, rest) = bytes.split_at(done);
            let ghost before = self.buf();
            let consumed = if connected {
                self.blocking_write(rest)
            } else {
                self.nonblocking_write(rest)
            };
            if consumed == 0 {
                break;
            }
            proof {
                lemma_ring_cursor_mod(before, w0 + done, rest@.subrange(0, consumed as int));
                lemma_ring_after_concat(b0, w0, bytes@.subrange(0, done as int), rest@.subrange(0, consumed as int));
                assert(bytes@.subrange(0, done as int) + rest@.subrange(0, consumed as int)
                    =~= bytes@.subrange(0, done + consumed));
                lemma_add_mod_noop_right(consumed as int, w0 + done, size);
                assert(p0 + bytes@.subrange(0, done as int) + rest@.subrange(0, consumed as int)
                    =~= p0 + bytes@.subrange(0, done + consumed));
            }
            done = done + consumed;
        }
        done
    }

    /// Whether everything written has been read by the host, as far as
    /// flushing is concerned: in non-blocking mode there is nothing to wait
    /// for. The caller repeats until it holds.
    pub fn flush(&self) -> (r: bool)
        ensures
            r == (!self.connected() || self.read_pos() == self.write_pos()),
    {
        !self.host_is_connected() || self.read == self.write
    }

    /// Copies up to `available` bytes of `bytes` into the ring at `cursor`,
    /// wrapping at the end, and moves the write cursor past them.
    pub fn write_impl(&mut self, bytes: &[u8], cursor: usize, available: usize) -> (n: usize)
        requires
            cursor < RTT_BUF_SIZE,
            available <= RTT_BUF_SIZE,
        ensures
            final(self).wf(),
            n == if bytes@.len() < available { bytes@.len() as int } else { available as int },
            final(self).buf() == ring_after(old(self).buf(), cursor as int, bytes@.subrange(0, n as int)),
            final(self).write_pos() == (cursor + n) % (RTT_BUF_SIZE as int),
            final(self).read_pos() == old(self).read_pos(),
            final(self).flags_val() == old(self).flags_val(),
    {
        proof {
            use_type_invariant(&*self);
        }
        let len = if bytes.len() < available { bytes.len() } else { available };
        let ghost old_buf = self.buffer@;
        let ghost data = bytes@.subrange(0, len as int);
        let ghost size = RTT_BUF_SIZE as int;
        proof {
            lemma_write_positions_in_bounds(cursor as int, len as int);
        }
        if cursor + len > RTT_BUF_SIZE {
            let pivot = RTT_BUF_SIZE - cursor;
            self.buffer.copy_in(cursor, bytes, 0, pivot);
            self.buffer.copy_in(0, bytes, pivot, len - pivot);
            assert forall|i: int| 0 <= i < size implies #[trigger] self.buffer@[i] == ring_after(
                old_buf,
                cursor as int,
                data,
            )[i] by {
                if i < len - pivot {
                    assert((cursor + len - 1 - i) % size == cursor + len - 1 - i - size);
                } else {
                    assert((cursor + len - 1 - i) % size == cursor + len - 1 - i);
                }
            }
        } else {
            self.buffer.copy_in(cursor, bytes, 0, len);
            assert forall|i: int| 0 <= i < size implies #[trigger] self.buffer@[i] == ring_after(
                old_buf,
                cursor as int,
                data,
            )[i] by {
                if i < cursor {
                    assert((cursor + len - 1 - i) % size == cursor + len - 1 - i);
                } else if i < cursor + len {
                    assert((cursor + len - 1 - i) % size == cursor + len - 1 - i);
                } else {
                    assert((cursor + len - 1 - i) % size == cursor + len - 1 - i + size);
                }
            }
        }
        assert(self.buffer@ =~= ring_after(old_buf, cursor as int, data));
        self.write = (cursor + len) % RTT_BUF_SIZE;
        len
    }
}


/// At most `RTT_BUF_SIZE - 1` bytes are ever waiting for the host.
pub proof fn lemma_pending_below_size(c: RttChannel)
    requires
        c.wf(),
    ensures
        c.pending().len() < RTT_BUF_SIZE,
{
}

/// Writing `x` in full and then (part of) `y` is writing that much of
/// `x + y` in one go.
pub proof fn lemma_wrote_all_then(a: RttChannel, mid: RttChannel, after: RttChannel, x: Seq<u8>, y: Seq<u8>, n: int)
    requires
        a.wf(),
        a.wrote_all(mid, x, x.len() as int),
        mid.wrote_all(after, y, n),
    ensures
        a.wrote_all(after, x + y, x.len() + n),
{
    let size = RTT_BUF_SIZE as int;
    let xy = x + y;
    assert(x.subrange(0, x.len() as int) =~= x);
    assert(xy.subrange(0, x.len() + n) =~= x + y.subrange(0, n));
    lemma_ring_cursor_mod(mid.buf(), a.write_pos() + x.len(), y.subrange(0, n));
    lemma_ring_after_concat(a.buf(), a.write_pos(), x, y.subrange(0, n));
    lemma_add_mod_noop_right(n, a.write_pos() + x.len(), size);
    assert(a.pending() + x + y.subrange(0, n) =~= a.pending() + xy.subrange(0, x.len() + n));
}

/// A write that stopped short of `x` (the ring was full) is also a write
/// that stopped short of `x + y`.
pub proof fn lemma_wrote_all_short_extend(a: RttChannel, after: RttChannel, x: Seq<u8>, y: Seq<u8>, n: int)
    requires
        a.wrote_all(after, x, n),
        n < x.len(),
    ensures
        a.wrote_all(after, x + y, n),
{
    assert((x + y).subrange(0, n) =~= x.subrange(0, n));
}

} // verus!
