//! The USB side of the log: a double buffer that the logger fills while a
//! USB task drains the other half.

use vstd::prelude::*;
use vstd::slice::{slice_subrange, slice_to_vec};

verus! {

/// Size of each half of the USB double buffer in bytes.
pub const USB_BUF_SIZE: usize = 32;

/// Whether a buffer takes new bytes or waits to be sent.
#[derive(Clone, Copy, PartialEq, Eq, Debug, Structural)]
pub enum BufState {
    /// Accepts writes.
    Active,
    /// Full enough to send; no more writes until it is reset.
    Flush,
}

/// What a log buffer holds: its state, its write cursor, and its whole
/// storage of `USB_BUF_SIZE` bytes (only the bytes before the cursor are
/// ever sent).
pub struct LogBufferView {
    pub state: BufState,
    pub cursor: int,
    pub data: Seq<u8>,
}

impl LogBufferView {
    /// The bytes written since the last reset: the storage before the cursor.
    pub open spec fn bytes(self) -> Seq<u8> {
        self.data.subrange(0, self.cursor)
    }

    /// The storage has `USB_BUF_SIZE` bytes and the cursor lies within it.
    pub open spec fn wf(self) -> bool {
        &&& self.data.len() == USB_BUF_SIZE
        &&& 0 <= self.cursor <= USB_BUF_SIZE
    }

    /// A new buffer: zero-filled, empty, taking writes.
    pub open spec fn fresh() -> LogBufferView {
        LogBufferView {
            state: BufState::Active,
            cursor: 0,
            data: Seq::new(USB_BUF_SIZE as nat, |i: int| 0u8),
        }
    }

    /// The buffer emptied and taking writes again; its storage is left as
    /// it was.
    pub open spec fn reset(self) -> LogBufferView {
        LogBufferView { state: BufState::Active, cursor: 0, data: self.data }
    }

    /// Whether `n` more bytes may be written: they must leave a byte free
    /// and the buffer must not be waiting to be sent.
    pub open spec fn accepts(self, n: int) -> bool {
        self.cursor + n < USB_BUF_SIZE && self.state == BufState::Active
    }

    /// The buffer after `bytes` was stored at the cursor and the cursor moved
    /// past it; the rest of the storage is unchanged. It is marked for
    /// sending once the cursor reaches `threshold`.
    pub open spec fn written(self, bytes: Seq<u8>, threshold: int) -> LogBufferView {
        LogBufferView {
            state: if self.cursor + bytes.len() >= threshold {
                BufState::Flush
            } else {
                self.state
            },
            cursor: self.cursor + bytes.len(),
            data: Seq::new(
                self.data.len(),
                |i: int|
                    if self.cursor <= i < self.cursor + bytes.len() {
                        bytes[i - self.cursor]
                    } else {
                        self.data[i]
                    },
            ),
        }
    }

    /// The buffer marked for sending; nothing else changes.
    pub open spec fn flushing(self) -> LogBufferView {
        LogBufferView { state: BufState::Flush, ..self }
    }
}

/// Writing appends exactly the written bytes to what will be sent.
pub proof fn lemma_written_appends(b: LogBufferView, bytes: Seq<u8>, threshold: int)
    requires
        b.wf(),
        b.cursor + bytes.len() <= USB_BUF_SIZE,
    ensures
        b.written(bytes, threshold).wf(),
        b.written(bytes, threshold).bytes() == b.bytes() + bytes,
{
    assert(b.written(bytes, threshold).bytes() =~= b.bytes() + bytes);
}

/// One half of the USB double buffer.
pub struct LogBuffer {
    state: BufState,
    cursor: usize,
    data: [u8; USB_BUF_SIZE],
}

impl View for LogBuffer {
    type V = LogBufferView;

    closed spec fn view(&self) -> LogBufferView {
        LogBufferView { state: self.state, cursor: self.cursor as int, data: self.data@ }
    }
}

impl LogBuffer {
    /// The cursor lies within the storage.
    #[verifier::type_invariant]
    spec fn cursor_in_storage(&self) -> bool {
        self.cursor <= USB_BUF_SIZE
    }

    /// The buffer's view is well formed: a cursor within its storage.
    pub fn view_wf(&self)
        ensures
            self@.wf(),
    {
        proof {
            use_type_invariant(self);
        }
    }

    /// A zero-filled, empty buffer that takes writes.
    pub fn new() -> (b: Self)
        ensures
            b@ == LogBufferView::fresh(),
    {
        let b = LogBuffer { state: BufState::Active, cursor: 0, data: [0u8; 32] };
        assert(b@.data =~= LogBufferView::fresh().data);
        b
    }

    /// Marks the buffer as ready to be sent.
    pub fn set_flushing(&mut self)
        ensures
            final(self)@ == old(self)@.flushing(),
    {
        proof {
            use_type_invariant(&*self);
        }
        self.state = BufState::Flush;
    }

    /// Empties the buffer and lets it take writes again.
    pub fn reset(&mut self)
        ensures
            final(self)@ == old(self)@.reset(),
    {
        proof {
            use_type_invariant(&*self);
        }
        self.state = BufState::Active;
        self.cursor = 0;
    }

    /// Appends `bytes`, and marks the buffer for sending once it holds
    /// `threshold` bytes or more.
    pub fn write(&mut self, bytes: &[u8], threshold: usize)
        requires
            old(self)@.cursor + bytes@.len() <= USB_BUF_SIZE,
        ensures
            final(self)@ == old(self)@.written(bytes@, threshold as int),
    {
        proof {
            use_type_invariant(&*self);
        }
        let cursor = self.cursor;
        let ghost start = self.data@;
        let mut k: usize = 0;
        while k < bytes.len()
            invariant
                k <= bytes@.len(),
                cursor + bytes@.len() <= USB_BUF_SIZE,
                self.cursor == cursor,
                self.state == old(self).state,
                start == old(self).data@,
                self.data@ == Seq::new(
                    USB_BUF_SIZE as nat,
                    |i: int| if cursor <= i < cursor + k { bytes@[i - cursor] } else { start[i] },
                ),
            decreases bytes@.len() - k,
        {
            self.data[cursor + k] = bytes[k];
            k = k + 1;
            assert(self.data@ =~= Seq::new(
                USB_BUF_SIZE as nat,
                |i: int| if cursor <= i < cursor + k { bytes@[i - cursor] } else { start[i] },
            ));
        }
        self.cursor = cursor + bytes.len();
        if self.cursor >= threshold {
            self.state = BufState::Flush;
        }
        assert(self@.data =~= old(self)@.written(bytes@, threshold as int).data);
    }

    /// Whether `n` more bytes may be written now.
    pub fn accepts(&self, n: usize) -> (r: bool)
        ensures
            r == self@.accepts(n as int),
    {
        proof {
            use_type_invariant(self);
        }
        n < USB_BUF_SIZE - self.cursor && self.state == BufState::Active
    }

    /// Whether the buffer waits to be sent.
    pub fn is_flushing(&self) -> (r: bool)
        ensures
            r == (self@.state == BufState::Flush),
    {
        self.state == BufState::Flush
    }

    /// The bytes written since the last reset.
    pub fn bytes(&self) -> (r: &[u8])
        ensures
            r@ == self@.bytes(),
    {
        proof {
            use_type_invariant(self);
        }
        let (head, _) = self.data.as_slice().split_at(self.cursor);
        head
    }
}

/// What the double buffer holds: which half takes writes, whether logging
/// is on, the flush threshold, and both halves.
pub struct ControllerView {
    pub current: int,
    pub enabled: bool,
    pub threshold: int,
    pub buffers: Seq<LogBufferView>,
}

impl ControllerView {
    /// The half that is not `current`.
    pub open spec fn other(self) -> int {
        1 - self.current
    }

    /// After marking the current half for sending and switching to the other
    /// one; nothing happens while logging is off.
    pub open spec fn swapped(self) -> ControllerView {
        if !self.enabled {
            self
        } else {
            ControllerView {
                current: self.other(),
                buffers: self.buffers.update(self.current, self.buffers[self.current].flushing()),
                ..self
            }
        }
    }

    /// After writing `data`: it goes to the current half if that half takes
    /// it; otherwise the halves are swapped and it goes to the new current
    /// half if that one takes it; otherwise it is dropped. While logging is
    /// off it is dropped.
    pub open spec fn after_write(self, data: Seq<u8>) -> ControllerView {
        if !self.enabled {
            self
        } else if self.buffers[self.current].accepts(data.len() as int) {
            ControllerView {
                buffers: self.buffers.update(
                    self.current,
                    self.buffers[self.current].written(data, self.threshold),
                ),
                ..self
            }
        } else {
            let s = self.swapped();
            if s.buffers[s.current].accepts(data.len() as int) {
                ControllerView {
                    buffers: s.buffers.update(
                        s.current,
                        s.buffers[s.current].written(data, s.threshold),
                    ),
                    ..s
                }
            } else {
                s
            }
        }
    }

    /// After writing each of `pieces` in order.
    pub open spec fn after_writes(self, pieces: Seq<Seq<u8>>) -> ControllerView
        decreases pieces.len(),
    {
        if pieces.len() == 0 {
            self
        } else {
            self.after_writes(pieces.drop_last()).after_write(pieces.last())
        }
    }

    /// Logging off and both halves emptied (their storage left as it was).
    pub open spec fn disabled(self) -> ControllerView {
        ControllerView {
            enabled: false,
            buffers: seq![self.buffers[0].reset(), self.buffers[1].reset()],
            ..self
        }
    }

    /// Shape of a reachable view: two halves and a current index among them.
    pub open spec fn wf(self) -> bool {
        &&& self.buffers.len() == 2
        &&& 0 <= self.current < 2
        &&& self.buffers[0].wf()
        &&& self.buffers[1].wf()
        &&& self.threshold >= 0
    }
}

/// A half that waits to be sent is never written to, whatever is logged.
pub proof fn lemma_write_spares_flushing(v: ControllerView, data: Seq<u8>, i: int)
    requires
        v.wf(),
        0 <= i < 2,
        v.buffers[i].state == BufState::Flush,
    ensures
        v.after_write(data).buffers[i] == v.buffers[i],
{
}

/// A write appends all of `data` to exactly one half, or drops it; bytes
/// already in a half are never changed or reordered.
pub proof fn lemma_write_appends_whole_or_drops(v: ControllerView, data: Seq<u8>)
    requires
        v.wf(),
    ensures
        v.after_write(data).wf(),
        forall|i: int|
            0 <= i < 2 ==> {
                ||| #[trigger] v.after_write(data).buffers[i].bytes() == v.buffers[i].bytes()
                ||| v.after_write(data).buffers[i].bytes() == v.buffers[i].bytes() + data
            },
        !(v.after_write(data).buffers[0].bytes() == v.buffers[0].bytes() + data
            && v.after_write(data).buffers[1].bytes() == v.buffers[1].bytes() + data
            && data.len() > 0),
        !v.enabled ==> v.after_write(data) == v,
{
    if v.enabled {
        let c = v.current;
        if v.buffers[c].accepts(data.len() as int) {
            lemma_written_appends(v.buffers[c], data, v.threshold);
        } else {
            let s = v.swapped();
            if s.buffers[s.current].accepts(data.len() as int) {
                lemma_written_appends(s.buffers[s.current], data, s.threshold);
            }
        }
    }
}

/// The USB double buffer and its settings.
pub struct Controller {
    second_current: bool,
    enabled: bool,
    flush_threshold: usize,
    first: LogBuffer,
    second: LogBuffer,
}

impl View for Controller {
    type V = ControllerView;

    closed spec fn view(&self) -> ControllerView {
        ControllerView {
            current: if self.second_current { 1 } else { 0 },
            enabled: self.enabled,
            threshold: self.flush_threshold as int,
            buffers: seq![self.first@, self.second@],
        }
    }
}

impl Controller {
    /// The controller's view is well formed: two halves of `USB_BUF_SIZE`
    /// bytes, neither holding more than that, and a current index among them.
    pub fn view_wf(&self)
        ensures
            self@.wf(),
            self@.buffers[0].bytes().len() <= USB_BUF_SIZE,
            self@.buffers[1].bytes().len() <= USB_BUF_SIZE,
    {
        self.first.view_wf();
        self.second.view_wf();
    }

    /// The state at start-up.
    pub open spec fn new_view() -> ControllerView {
        ControllerView {
            current: 0,
            enabled: true,
            threshold: USB_BUF_SIZE - 2,
            buffers: seq![LogBufferView::fresh(), LogBufferView::fresh()],
        }
    }

    /// Logging on, writes go to the first half, both halves empty and
    /// zero-filled, and the flush threshold two bytes short of a full half.
    pub fn new() -> (c: Self)
        ensures
            c@ == Self::new_view(),
    {
        Controller {
            second_current: false,
            enabled: true,
            flush_threshold: USB_BUF_SIZE - 2,
            first: LogBuffer::new(),
            second: LogBuffer::new(),
        }
    }

    /// Turns logging on (a host opened the serial connection).
    pub fn enable(&mut self)
        ensures
            final(self)@ == (ControllerView { enabled: true, ..old(self)@ }),
    {
        self.enabled = true;
    }

    /// Turns logging off and empties both halves (the host went away).
    pub fn disable(&mut self)
        ensures
            final(self)@ == old(self)@.disabled(),
    {
        self.enabled = false;
        self.first.reset();
        self.second.reset();
    }

    /// Sets the number of bytes at which a half is marked for sending.
    pub fn set_flush_threshold(&mut self, threshold: usize)
        ensures
            final(self)@ == (ControllerView { threshold: threshold as int, ..old(self)@ }),
    {
        self.flush_threshold = threshold;
    }

    /// Marks the current half for sending and switches to the other one.
    pub fn swap(&mut self)
        ensures
            final(self)@ == old(self)@.swapped(),
    {
        if !self.enabled {
            return;
        }
        if self.second_current {
            self.second.set_flushing();
        } else {
            self.first.set_flushing();
        }
        self.second_current = !self.second_current;
        assert(self@.buffers =~= old(self)@.swapped().buffers);
    }

    /// Appends `bytes` to the current half, swapping halves when it is full;
    /// drops them when neither half takes them or logging is off.
    pub fn write(&mut self, bytes: &[u8])
        ensures
            final(self)@ == old(self)@.after_write(bytes@),
    {
        self.first.view_wf();
        self.second.view_wf();
        if !self.enabled {
            return;
        }
        let idx: usize = if self.second_current { 1 } else { 0 };
        let threshold = self.flush_threshold;
        let cur_accepts = if idx == 0 {
            self.first.accepts(bytes.len())
        } else {
            self.second.accepts(bytes.len())
        };
        if cur_accepts {
            if idx == 0 {
                self.first.write(bytes, threshold);
            } else {
                self.second.write(bytes, threshold);
            }
            assert(self@.buffers =~= old(self)@.after_write(bytes@).buffers);
        } else {
            self.swap();
            self.first.view_wf();
            self.second.view_wf();
            let oth_accepts = if idx == 0 {
                self.second.accepts(bytes.len())
            } else {
                self.first.accepts(bytes.len())
            };
            if oth_accepts {
                if idx == 0 {
                    self.second.write(bytes, threshold);
                } else {
                    self.first.write(bytes, threshold);
                }
            }
            assert(self@.buffers =~= old(self)@.after_write(bytes@).buffers);
        }
    }

    /// The first half, in index order, that waits to be sent.
    pub fn get_flushing(&self) -> (r: Option<(usize, &LogBuffer)>)
        ensures
            match r {
                Some((i, b)) => {
                    &&& i < 2
                    &&& b@ == self@.buffers[i as int]
                    &&& b@.state == BufState::Flush
                    &&& i == 1 ==> self@.buffers[0].state != BufState::Flush
                },
                None => {
                    &&& self@.buffers[0].state != BufState::Flush
                    &&& self@.buffers[1].state != BufState::Flush
                },
            },
    {
        if self.first.is_flushing() {
            Some((0, &self.first))
        } else if self.second.is_flushing() {
            Some((1, &self.second))
        } else {
            None
        }
    }

    /// Empties half `idx` after it has been sent.
    pub fn reset_buffer(&mut self, idx: usize)
        requires
            idx < 2,
        ensures
            final(self)@ == (ControllerView {
                buffers: old(self)@.buffers.update(idx as int, old(self)@.buffers[idx as int].reset()),
                ..old(self)@
            }),
    {
        if idx == 0 {
            self.first.reset();
        } else {
            self.second.reset();
        }
        assert(self@.buffers =~= old(self)@.buffers.update(idx as int, old(self)@.buffers[idx as int].reset()));
    }
}

/// `bytes` cut into consecutive pieces of `size` bytes, the last one possibly
/// shorter; no pieces for no bytes.
pub open spec fn chunks_of(bytes: Seq<u8>, size: nat) -> Seq<Seq<u8>>
    decreases bytes.len(),
{
    if bytes.len() == 0 || size == 0 {
        Seq::empty()
    } else if bytes.len() <= size {
        seq![bytes]
    } else {
        seq![bytes.take(size as int)] + chunks_of(bytes.skip(size as int), size)
    }
}

/// The views of a list of byte vectors.
pub open spec fn views(v: Seq<Vec<u8>>) -> Seq<Seq<u8>> {
    v.map_values(|c: Vec<u8>| c@)
}

/// Cuts `bytes` into pieces of `size` bytes, the last one possibly shorter.
pub fn split_chunks(bytes: &[u8], size: usize) -> (r: Vec<Vec<u8>>)
    requires
        size > 0,
    ensures
        views(r@) == chunks_of(bytes@, size as nat),
{
    let mut out: Vec<Vec<u8>> = Vec::new();
    let mut i: usize = 0;
    assert(bytes@.skip(0) =~= bytes@);
    assert(views(out@) + chunks_of(bytes@.skip(0), size as nat) =~= chunks_of(bytes@, size as nat));
    while i < bytes.len()
        invariant
            i <= bytes@.len(),
            size > 0,
            views(out@) + chunks_of(bytes@.skip(i as int), size as nat) == chunks_of(bytes@, size as nat),
        decreases bytes@.len() - i,
    {
        let end = if bytes.len() - i <= size { bytes.len() } else { i + size };
        let chunk = slice_to_vec(slice_subrange(bytes, i, end));
        let ghost rest = bytes@.skip(i as int);
        proof {
            if end == bytes.len() {
                assert(chunk@ =~= rest);
                assert(bytes@.skip(end as int) =~= Seq::<u8>::empty());
            } else {
                assert(chunk@ =~= rest.take(size as int));
                assert(rest.skip(size as int) =~= bytes@.skip(end as int));
            }
        }
        let ghost prev = views(out@);
        let ghost c = chunk@;
        out.push(chunk);
        proof {
            assert(views(out@) =~= prev.push(c));
            assert(chunks_of(rest, size as nat) =~= seq![c] + chunks_of(bytes@.skip(end as int), size as nat));
            assert(prev + chunks_of(rest, size as nat) =~= prev.push(c) + chunks_of(bytes@.skip(end as int), size as nat));
        }
        i = end;
    }
    assert(bytes@.skip(i as int) =~= Seq::<u8>::empty());
    assert(views(out@) + Seq::<Seq<u8>>::empty() =~= views(out@));
    out
}


/// Joining the pieces gives back the bytes; every piece holds between one
/// and `size` bytes, and every piece but the last holds exactly `size`.
pub proof fn lemma_chunks_of_rejoin(bytes: Seq<u8>, size: nat)
    requires
        size > 0,
    ensures
        chunks_of(bytes, size).flatten() == bytes,
        forall|k: int|
            0 <= k < chunks_of(bytes, size).len() ==> 0 < (#[trigger] chunks_of(bytes, size)[k]).len()
                <= size,
        forall|k: int|
            0 <= k < chunks_of(bytes, size).len() - 1 ==> (#[trigger] chunks_of(bytes, size)[k]).len()
                == size,
    decreases bytes.len(),
{
    let c = chunks_of(bytes, size);
    if bytes.len() == 0 {
        assert(c.flatten() =~= bytes);
    } else if bytes.len() <= size {
        assert(c =~= seq![bytes]);
        assert(c.drop_first() =~= Seq::<Seq<u8>>::empty());
        assert(c.drop_first().flatten() =~= Seq::<u8>::empty());
        assert(c.flatten() == c.first() + c.drop_first().flatten());
        assert(c.flatten() =~= bytes);
    } else {
        let rest = chunks_of(bytes.skip(size as int), size);
        lemma_chunks_of_rejoin(bytes.skip(size as int), size);
        assert(c.drop_first() =~= rest);
        assert(c.flatten() == bytes.take(size as int) + rest.flatten());
        assert(bytes.take(size as int) + bytes.skip(size as int) =~= bytes);
        assert forall|k: int| 0 < k < c.len() implies #[trigger] c[k] == rest[k - 1] by {}
    }
}

/// The packets that send `bytes` over an endpoint of `max`-byte packets:
/// the pieces of `max` bytes, then an empty packet when the last piece was
/// full, so that the host sees where the transfer ends.
pub open spec fn packets_of(bytes: Seq<u8>, max: nat) -> Seq<Seq<u8>> {
    let c = chunks_of(bytes, max);
    if c.len() > 0 && c.last().len() == max {
        c.push(Seq::empty())
    } else {
        c
    }
}

/// Cuts a drained buffer into the packets to send, with the closing empty
/// packet where one is due.
pub fn usb_packets(bytes: &[u8], max: usize) -> (r: Vec<Vec<u8>>)
    requires
        max > 0,
    ensures
        views(r@) == packets_of(bytes@, max as nat),
{
    let mut packets = split_chunks(bytes, max);
    let n = packets.len();
    if n > 0 && packets[n - 1].len() == max {
        let ghost prev = views(packets@);
        packets.push(Vec::new());
        assert(views(packets@) =~= prev.push(Seq::empty()));
    }
    packets
}

/// Joining the packets gives back the bytes; every packet fits the endpoint,
/// and the last packet of a transfer is always shorter than `max`.
pub proof fn lemma_packets_frame_transfer(bytes: Seq<u8>, max: nat)
    requires
        max > 0,
    ensures
        packets_of(bytes, max).flatten() == bytes,
        forall|k: int|
            0 <= k < packets_of(bytes, max).len() ==> (#[trigger] packets_of(bytes, max)[k]).len()
                <= max,
        bytes.len() > 0 ==> packets_of(bytes, max).len() > 0 && packets_of(bytes, max).last().len()
            < max,
{
    lemma_chunks_of_rejoin(bytes, max);
    let c = chunks_of(bytes, max);
    if c.len() > 0 && c.last().len() == max {
        let p = c.push(Seq::<u8>::empty());
        c.lemma_flatten_push(Seq::<u8>::empty());
        assert(c.flatten() + Seq::<u8>::empty() =~= c.flatten());
        assert forall|k: int| 0 <= k < p.len() implies #[trigger] p[k].len() <= max by {
            if k < c.len() {
                assert(p[k] == c[k]);
            }
        }
    }
    if bytes.len() > 0 {
        assert(c.len() > 0) by {
            if c.len() == 0 {
                assert(c.flatten() =~= Seq::<u8>::empty());
            }
        }
    }
}

/// How sending a drained half ended: it all went out, or the endpoint
/// reported a fault.
#[derive(Clone, Copy, PartialEq, Eq, Debug, Structural)]
pub enum WriteFault {
    /// A packet did not fit the endpoint's buffer.
    BufferOverflow,
    /// The endpoint is disabled: the host went away.
    Disabled,
}

impl Controller {
    /// Bookkeeping after half `idx` was sent: it is emptied in any case, and
    /// when the endpoint was disabled logging is turned off. Returns whether
    /// the USB task must wait for a new connection.
    pub fn finish_drain(&mut self, idx: usize, fault: Option<WriteFault>) -> (reconnect: bool)
        requires
            idx < 2,
            fault != Some(WriteFault::BufferOverflow),
        ensures
            reconnect == (fault == Some(WriteFault::Disabled)),
            reconnect ==> final(self)@ == old(self)@.disabled(),
            !reconnect ==> final(self)@ == (ControllerView {
                buffers: old(self)@.buffers.update(idx as int, old(self)@.buffers[idx as int].reset()),
                ..old(self)@
            }),
    {
        self.reset_buffer(idx);
        match fault {
            Some(WriteFault::Disabled) => {
                self.disable();
                true
            },
            _ => false,
        }
    }
}


/// Sending one drained half over the USB endpoint: which half, its packets,
/// how many went out, and the first fault the endpoint reported. Sending
/// stops at the first fault: no further packet of the half, and no closing
/// empty packet, is sent.
pub struct UsbDrain {
    idx: usize,
    packets: Vec<Vec<u8>>,
    sent: usize,
    fault: Option<WriteFault>,
}

impl UsbDrain {
    /// The half being sent.
    pub closed spec fn half(&self) -> int {
        self.idx as int
    }

    /// The packets that send the half.
    pub closed spec fn packet_list(&self) -> Seq<Seq<u8>> {
        views(self.packets@)
    }

    /// How many packets went out.
    pub closed spec fn sent_count(&self) -> int {
        self.sent as int
    }

    /// The first fault the endpoint reported, if any.
    pub closed spec fn first_fault(&self) -> Option<WriteFault> {
        self.fault
    }

    /// The half is one of the two, and no more packets went out than there
    /// are.
    #[verifier::type_invariant]
    spec fn in_range(&self) -> bool {
        &&& self.idx < 2
        &&& self.sent <= self.packets@.len()
    }

    /// Starts sending the first half, in index order, that waits to be sent,
    /// cut into packets of at most `max` bytes; `None` when no half waits.
    pub fn start(controller: &Controller, max: usize) -> (r: Option<UsbDrain>)
        requires
            max > 0,
        ensures
            match r {
                Some(d) => {
                    let i = d.half();
                    &&& 0 <= d.half() < 2
                    &&& controller@.buffers[i].state == BufState::Flush
                    &&& i == 1 ==> controller@.buffers[0].state != BufState::Flush
                    &&& d.packet_list() == packets_of(controller@.buffers[i].bytes(), max as nat)
                    &&& d.sent_count() == 0
                    &&& d.first_fault() is None
                },
                None => {
                    &&& controller@.buffers[0].state != BufState::Flush
                    &&& controller@.buffers[1].state != BufState::Flush
                },
            },
    {
        match controller.get_flushing() {
            Some((idx, buf)) => {
                let packets = usb_packets(buf.bytes(), max);
                Some(UsbDrain { idx, packets, sent: 0, fault: None })
            },
            None => None,
        }
    }

    /// The next packet to send: `None` once all went out or the endpoint
    /// reported a fault.
    pub fn next_packet(&self) -> (r: Option<&Vec<u8>>)
        ensures
            r is Some <==> (self.first_fault() is None && self.sent_count() < self.packet_list().len()),
            r matches Some(p) ==> p@ == self.packet_list()[self.sent_count()],
    {
        if self.fault.is_none() && self.sent < self.packets.len() {
            Some(&self.packets[self.sent])
        } else {
            None
        }
    }

    /// Records how sending the next packet ended: it went out (`None`), or
    /// the endpoint reported `fault`.
    pub fn packet_done(&mut self, fault: Option<WriteFault>)
        requires
            old(self).first_fault() is None,
            old(self).sent_count() < old(self).packet_list().len(),
        ensures
            final(self).half() == old(self).half(),
            final(self).packet_list() == old(self).packet_list(),
            fault is None ==> final(self).sent_count() == old(self).sent_count() + 1
                && final(self).first_fault() is None,
            fault is Some ==> final(self).sent_count() == old(self).sent_count()
                && final(self).first_fault() == fault,
    {
        proof {
            use_type_invariant(&*self);
        }
        match fault {
            None => {
                assert(self.sent < self.packets.len());
                self.sent = self.sent + 1;
            },
            Some(f) => {
                self.fault = Some(f);
            },
        }
    }

    /// The half, and the first fault, for the bookkeeping after sending.
    pub fn outcome(&self) -> (r: (usize, Option<WriteFault>))
        ensures
            r.0 == self.half(),
            r.1 == self.first_fault(),
    {
        (self.idx, self.fault)
    }
}

/// The USB log task's connection state: whether a host is connected and
/// logging to USB is on. A half is only ever sent while connected, and
/// logging is turned on when a host connects, before anything is sent.
pub struct UsbLogTask {
    connected: bool,
}

impl UsbLogTask {
    /// Whether a host is connected.
    pub closed spec fn is_connected(&self) -> bool {
        self.connected
    }

    /// Waiting for a host.
    pub fn new() -> (t: Self)
        ensures
            !t.is_connected(),
    {
        UsbLogTask { connected: false }
    }

    /// A host opened the port: logging to USB is turned on.
    pub fn on_connected(&mut self, controller: &mut Controller)
        requires
        ensures
            final(self).is_connected(),
            final(controller)@ == (ControllerView { enabled: true, ..old(controller)@ }),
    {
        controller.enable();
        self.connected = true;
    }

    /// Starts sending the next half that waits, while a host is connected.
    pub fn start_drain(&self, controller: &Controller, max: usize) -> (r: Option<UsbDrain>)
        requires
            self.is_connected(),
            max > 0,
        ensures
            r is None <==> (controller@.buffers[0].state != BufState::Flush
                && controller@.buffers[1].state != BufState::Flush),
            r matches Some(d) ==> {
                let i = d.half();
                &&& 0 <= d.half() < 2
                &&& controller@.buffers[i].state == BufState::Flush
                &&& i == 1 ==> controller@.buffers[0].state != BufState::Flush
                &&& d.packet_list() == packets_of(controller@.buffers[i].bytes(), max as nat)
                &&& d.sent_count() == 0
                &&& d.first_fault() is None
            },
    {
        UsbDrain::start(controller, max)
    }

    /// Bookkeeping after a half was sent (or sending stopped at a fault):
    /// the half is emptied; when the endpoint was disabled, logging is
    /// turned off and the task waits for a new connection. Returns whether
    /// it must wait.
    pub fn end_drain(&mut self, drain: &UsbDrain, controller: &mut Controller) -> (reconnect: bool)
        requires
            old(self).is_connected(),
            drain.first_fault() != Some(WriteFault::BufferOverflow),
        ensures
            reconnect == (drain.first_fault() == Some(WriteFault::Disabled)),
            final(self).is_connected() == !reconnect,
            reconnect ==> final(controller)@ == old(controller)@.disabled(),
            !reconnect ==> final(controller)@ == (ControllerView {
                buffers: old(controller)@.buffers.update(
                    drain.half(),
                    old(controller)@.buffers[drain.half()].reset(),
                ),
                ..old(controller)@
            }),
    {
        proof {
            use_type_invariant(drain);
        }
        let (idx, fault) = drain.outcome();
        let reconnect = controller.finish_drain(idx, fault);
        if reconnect {
            self.connected = false;
        }
        reconnect
    }
}

/// The default idle poll interval of the USB log task, in milliseconds.
pub const DEFAULT_POLL_MS: u64 = 10;

/// Settings of the USB log task: the flush threshold and the idle poll
/// interval in milliseconds.
pub struct UsbDefmtLogger {
    buflen: usize,
    timeout_ms: u64,
}

impl UsbDefmtLogger {
    /// The number of bytes at which a half is marked for sending.
    pub closed spec fn flush_len(&self) -> usize {
        self.buflen
    }

    /// How long, in milliseconds, the task waits between drain attempts
    /// when nothing is ready.
    pub closed spec fn poll_ms(&self) -> u64 {
        self.timeout_ms
    }

    /// Default settings: flush when a half is two bytes short of full, and
    /// poll every 10 ms.
    pub fn new() -> (r: Self)
        ensures
            r.flush_len() == USB_BUF_SIZE - 2,
            r.poll_ms() == DEFAULT_POLL_MS,
    {
        UsbDefmtLogger { buflen: USB_BUF_SIZE - 2, timeout_ms: DEFAULT_POLL_MS }
    }

    /// Sets the flush threshold, clamped to `USB_BUF_SIZE - 2`.
    pub fn with_buflen(self, buflen: usize) -> (r: Self)
        ensures
            r.flush_len() == if buflen > USB_BUF_SIZE - 2 { (USB_BUF_SIZE - 2) as usize } else { buflen },
            r.poll_ms() == self.poll_ms(),
    {
        let mut s = self;
        s.buflen = if buflen > USB_BUF_SIZE - 2 { USB_BUF_SIZE - 2 } else { buflen };
        s
    }

    /// Sets the idle poll interval, in milliseconds.
    pub fn with_timeout(self, timeout_ms: u64) -> (r: Self)
        ensures
            r.flush_len() == self.flush_len(),
            r.poll_ms() == timeout_ms,
    {
        let mut s = self;
        s.timeout_ms = timeout_ms;
        s
    }

    /// Applies the settings to the double buffer before the USB task starts;
    /// returns the poll interval, in milliseconds, the task is to use.
    pub fn apply(self, controller: &mut Controller) -> (t: u64)
        requires
        ensures
            final(controller)@ == (ControllerView { threshold: self.flush_len() as int, ..old(controller)@ }),
            t == self.poll_ms(),
    {
        controller.set_flush_threshold(self.buflen);
        self.timeout_ms
    }
}

impl Default for UsbDefmtLogger {
    fn default() -> (r: Self)
        ensures
            r.flush_len() == USB_BUF_SIZE - 2,
            r.poll_ms() == DEFAULT_POLL_MS,
    {
        Self::new()
    }
}

} // verus!
