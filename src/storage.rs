use vstd::prelude::*;
use crate::codec::{bytes_to_u32, le_bytes, le_value, u32_to_bytes};
use crate::error::{Error, ErrorKind};
use crate::header::{BlockHeader, StorageHeader};
use crate::io::{
    Handle, Outcome, Reply, Request, Step, asks_read, asks_seek, asks_write, bytes_of, delivered,
    fails_with, finishes, landed_at, wrote,
};
use crate::slot_set::{SlotSet, ascending, lemma_ascending_determined};

verus! {

/// Byte offset of slot `i` in a file whose slots hold `c` payload bytes.
pub open spec fn slot_offset(c: nat, i: nat) -> nat {
    4 + i * (4 + c)
}

/// The indexes, below the length of `h`, whose header is zero.
pub open spec fn zero_slots(h: Seq<u32>) -> Set<u32> {
    Set::new(|i: u32| (i as int) < h.len() && h[i as int] == 0)
}

/// `n` zero bytes.
pub open spec fn zeros(n: nat) -> Seq<u8> {
    Seq::new(n, |k: int| 0u8)
}

/// The slot headers after writing header `v` to slot `i`. Slots between the
/// old end and `i` were never written; they are taken to read as zero.
pub open spec fn headers_after_write(h: Seq<u32>, i: nat, v: u32) -> Seq<u32> {
    if i < h.len() {
        h.update(i as int, v)
    } else {
        h + Seq::new((i - h.len()) as nat, |k: int| 0u32) + seq![v]
    }
}

proof fn lemma_offset_step(c: nat, i: nat)
    ensures
        slot_offset(c, i + 1) == slot_offset(c, i) + 4 + c,
{
    assert((i + 1) * (4 + c) == i * (4 + c) + 4 + c) by (nonlinear_arith);
}

proof fn lemma_offset_monotone(c: nat, i: nat, j: nat)
    requires
        i <= j,
    ensures
        slot_offset(c, i) <= slot_offset(c, j),
        i < j ==> slot_offset(c, i) + 4 + c <= slot_offset(c, j),
{
    assert(i * (4 + c) <= j * (4 + c)) by (nonlinear_arith)
        requires
            i <= j,
    ;
    if i < j {
        lemma_offset_step(c, i);
        assert((i + 1) * (4 + c) <= j * (4 + c)) by (nonlinear_arith)
            requires
                i + 1 <= j,
        ;
    }
}

fn offset_of(c: u32, i: u32) -> (r: u64)
    requires
        slot_offset(c as nat, i as nat) <= u64::MAX,
    ensures
        r == slot_offset(c as nat, i as nat),
{
    let stride: u64 = 4 + c as u64;
    assert(i as u64 * stride <= u64::MAX) by (nonlinear_arith)
        requires
            4 + i * stride <= u64::MAX,
    ;
    4 + i as u64 * stride
}

fn four_bytes(b: &[u8; 4]) -> (r: Vec<u8>)
    ensures
        r@ == b@,
{
    let r = vec![b[0], b[1], b[2], b[3]];
    assert(r@ =~= b@);
    r
}

/// Adds the slots from `lo` up to, not including, `hi` to `set`.
fn free_range(set: &mut SlotSet, lo: u32, hi: u32)
    requires
        old(set).wf(),
    ensures
        final(set).wf(),
        final(set).members() == old(set).members().union(gap_slots(lo as nat, hi as nat)),
{
    let mut k = lo;
    while k < hi
        invariant
            set.wf(),
            lo <= k,
            k <= hi || k == lo,
            set.members() == old(set).members().union(gap_slots(lo as nat, k as nat)),
        decreases hi - k,
    {
        set.insert(k);
        assert(gap_slots(lo as nat, (k + 1) as nat) =~= gap_slots(lo as nat, k as nat).insert(k));
        k = k + 1;
    }
    if hi <= lo {
        assert(gap_slots(lo as nat, hi as nat) =~= Set::empty());
        assert(gap_slots(lo as nat, k as nat) =~= Set::empty());
    } else {
        assert(k == hi);
    }
}

/// What an engine holds, seen as mathematical values.
pub struct StorageModel {
    /// Payload bytes per slot.
    pub capacity: u32,
    /// Number of slots ever addressed.
    pub end: nat,
    /// The free slots in ascending order.
    pub free: Seq<u32>,
    /// The header of each slot below `end` as this engine last wrote or read it.
    pub headers: Seq<u32>,
    pub read_cursor: nat,
    pub write_cursor: nat,
}

/// The free slots are ascending, lie below the end and have zero headers;
/// every slot below the end has a header; the slot count fits in 32 bits and
/// the end slot's offset in 64 bits.
pub open spec fn model_wf(m: StorageModel) -> bool {
    &&& ascending(m.free)
    &&& m.headers.len() == m.end
    &&& forall|k: int|
        0 <= k < m.free.len() ==> #[trigger] m.free[k] < m.end && m.headers[m.free[k] as int] == 0
    &&& m.end <= u32::MAX
    &&& slot_offset(m.capacity as nat, m.end) <= u64::MAX
}

/// A read of slot `i` finds nothing: the slot was never addressed or is free.
pub open spec fn empty_slot(m: StorageModel, i: nat) -> bool {
    i >= m.end || m.free.contains(i as u32)
}

/// The error code of a failed transfer: one code when the call failed,
/// another when it moved fewer bytes than asked.
pub open spec fn transfer_code(reply: Reply, failed: i32, short: i32) -> i32 {
    if reply is Failed {
        failed
    } else {
        short
    }
}

/// The number of slots a payload of `len` bytes takes with `c` bytes a slot.
pub open spec fn chunk_count(len: nat, c: nat) -> nat
    recommends
        c > 0,
{
    if len % c == 0 {
        len / c
    } else {
        len / c + 1
    }
}

/// The slot indexes from `lo` up to, not including, `hi`.
pub open spec fn gap_slots(lo: nat, hi: nat) -> Set<u32> {
    Set::new(|k: u32| lo <= k < hi)
}

/// The free set after slot `i` took a payload of `len` bytes: the slot
/// leaves it, unless the payload is empty and its header now reads zero;
/// slots skipped between the old end and `i` have zero headers and join it.
pub open spec fn free_after_write(free: Set<u32>, end: nat, i: nat, len: nat) -> Set<u32> {
    let kept = if len == 0 {
        free.insert(i as u32)
    } else {
        free.remove(i as u32)
    };
    kept.union(gap_slots(end, i))
}

/// The model after slot `i` took a payload of `len` bytes.
pub open spec fn written(pre: StorageModel, post: StorageModel, i: nat, len: nat, cursor: int) -> bool {
    &&& post.capacity == pre.capacity
    &&& post.free.to_set() == free_after_write(pre.free.to_set(), pre.end, i, len)
    &&& post.end == if i < pre.end { pre.end } else { i + 1 }
    &&& post.headers == headers_after_write(pre.headers, i, len as u32)
    &&& post.read_cursor == pre.read_cursor
    &&& post.write_cursor == cursor
}

/// The model after slot `i` was marked free.
pub open spec fn deleted(pre: StorageModel, post: StorageModel, i: nat, cursor: int) -> bool {
    &&& post.capacity == pre.capacity
    &&& post.free.to_set() == pre.free.to_set().insert(i as u32)
    &&& post.end == pre.end
    &&& post.headers == pre.headers.update(i as int, 0)
    &&& post.read_cursor == pre.read_cursor
    &&& post.write_cursor == cursor
}

/// Consistency of the free-slot set with the slot headers: a slot is free
/// exactly when it lies below the end and its header reads zero.
pub open spec fn consistent(m: StorageModel) -> bool {
    &&& m.headers.len() == m.end
    &&& m.free.to_set() == zero_slots(m.headers)
}

/// The operation in progress and how far it has come. Each stage names the
/// reply it waits for.
pub enum Task {
    Idle,
    /// Seek of the writer to offset 0.
    CreateSeek,
    /// Write of the file header.
    CreateHeader,
    /// Seek of the reader to offset 0.
    OpenSeek,
    /// Read of the file header.
    OpenHeader,
    /// Seek of the reader to slot `index` during the recovery scan; `free`
    /// holds the zero-header slots among the `seen` headers.
    ScanSeek { index: u32, free: SlotSet, seen: Ghost<Seq<u32>> },
    /// Read of the header of slot `index` during the recovery scan.
    ScanHeader { index: u32, free: SlotSet, seen: Ghost<Seq<u32>> },
    ReadSeek { index: u32, offset: u64 },
    ReadHeader { index: u32, offset: u64 },
    ReadPayload { index: u32, offset: u64, length: u32 },
    WriteSeek { index: u32, offset: u64, data: Vec<u8> },
    WriteHeader { index: u32, offset: u64, data: Vec<u8> },
    WritePayload { index: u32, offset: u64, data: Vec<u8> },
    DeleteSeek { index: u32, offset: u64, hard: bool },
    DeleteHeader { index: u32, offset: u64, hard: bool },
    DeleteScrub { index: u32, offset: u64 },
}

/// A storage engine over one file of fixed-stride slots.
///
/// Offset 0 holds the slot capacity `C`; slot `i` starts at `4 + i * (4 + C)`
/// with a four-byte payload length (zero when free) and `C` payload bytes.
/// The engine never touches the file: each operation hands out requests for
/// a driver to carry out on a reader and a writer handle, and consumes the
/// replies through [`Storage::resume`].
pub struct Storage {
    capacity: u32,
    free: SlotSet,
    end: u32,
    read_cursor: u64,
    write_cursor: u64,
    headers: Ghost<Seq<u32>>,
    task: Task,
}

impl View for Storage {
    type V = StorageModel;

    closed spec fn view(&self) -> StorageModel {
        StorageModel {
            capacity: self.capacity,
            end: self.end as nat,
            free: self.free@,
            headers: self.headers@,
            read_cursor: self.read_cursor as nat,
            write_cursor: self.write_cursor as nat,
        }
    }
}

impl Storage {
    pub closed spec fn task(&self) -> Task {
        self.task
    }

    pub open spec fn idle(&self) -> bool {
        self.task() is Idle
    }

    pub open spec fn offset_of(&self, i: nat) -> nat {
        slot_offset(self@.capacity as nat, i)
    }

    pub closed spec fn task_wf(&self) -> bool {
        let c = self.capacity as nat;
        match self.task {
            Task::Idle => true,
            Task::CreateSeek | Task::CreateHeader | Task::OpenSeek | Task::OpenHeader => {
                &&& self.end == 0
                &&& self.free@.len() == 0
            },
            Task::ScanSeek { index, free, seen } | Task::ScanHeader { index, free, seen } => {
                &&& self.end == 0
                &&& self.free@.len() == 0
                &&& free.wf()
                &&& seen@.len() == index
                &&& free.members() == zero_slots(seen@)
                &&& slot_offset(c, index as nat) <= u64::MAX
            },
            Task::ReadSeek { index, offset } | Task::ReadHeader { index, offset }
            | Task::ReadPayload { index, offset, .. } => {
                &&& index < self.end
                &&& offset == slot_offset(c, index as nat)
            },
            Task::WriteSeek { index, offset, data } | Task::WriteHeader { index, offset, data }
            | Task::WritePayload { index, offset, data } => {
                &&& index < u32::MAX
                &&& offset == slot_offset(c, index as nat)
                &&& offset + 4 + c <= u64::MAX
                &&& data@.len() <= c
            },
            Task::DeleteSeek { index, offset, .. } | Task::DeleteHeader { index, offset, .. }
            | Task::DeleteScrub { index, offset } => {
                &&& index < self.end
                &&& offset == slot_offset(c, index as nat)
            },
        }
    }

    /// The engine's invariant: the model is well formed and the operation in
    /// progress is sound.
    pub open spec fn wf(&self) -> bool {
        &&& model_wf(self@)
        &&& self.task_wf()
    }

    /// The state after a failed step: nothing changed, and the error.
    pub open spec fn aborts(self, post: Storage, r: Step, kind: ErrorKind, code: i32) -> bool {
        &&& post@ == self@
        &&& post.idle()
        &&& fails_with(r, kind, code)
    }

    /// What one reply does to a file being created.
    pub open spec fn create_step(self, reply: Reply, post: Storage, r: Step) -> bool {
        match self.task() {
            Task::CreateSeek => if landed_at(reply, 0) {
                &&& post@ == self@
                &&& post.task() == Task::CreateHeader
                &&& asks_write(r, le_bytes(self@.capacity))
            } else {
                self.aborts(post, r, ErrorKind::Io, 2)
            },
            Task::CreateHeader => if wrote(reply, 4) {
                &&& post@ == StorageModel { write_cursor: 4, ..self@ }
                &&& post.idle()
                &&& finishes(r, 4, seq![])
            } else {
                self.aborts(post, r, ErrorKind::Io, 2)
            },
            _ => true,
        }
    }

    /// What one reply does to a file being opened: the file header is read,
    /// then the recovery scan reads the header of each slot in turn until a
    /// read comes back short or empty at the end of the file.
    pub open spec fn open_step(self, reply: Reply, post: Storage, r: Step) -> bool {
        match self.task() {
            Task::OpenSeek => if landed_at(reply, 0) {
                &&& post@ == self@
                &&& post.task() is OpenHeader
                &&& asks_read(r, 4)
            } else {
                self.aborts(post, r, ErrorKind::Io, 2)
            },
            Task::OpenHeader => if delivered(reply, 4) {
                &&& post@ == StorageModel { capacity: le_value(bytes_of(reply)) as u32, ..self@ }
                &&& post.task() matches Task::ScanSeek { index, seen, .. }
                &&& index == 0
                &&& seen@ == Seq::<u32>::empty()
                &&& asks_seek(r, Handle::Reader, 4)
            } else {
                self.aborts(post, r, ErrorKind::Io, 2)
            },
            Task::ScanSeek { index, seen, .. } => if landed_at(
                reply,
                self.offset_of(index as nat),
            ) {
                &&& post@ == self@
                &&& post.task() matches Task::ScanHeader { index: i, seen: s, .. }
                &&& i == index
                &&& s == seen
                &&& asks_read(r, 4)
            } else {
                self.aborts(post, r, ErrorKind::Seek, 3)
            },
            Task::ScanHeader { index, seen, .. } => if reply matches Reply::Bytes(b) && b@.len() < 4 {
                &&& post@.capacity == self@.capacity
                &&& post@.end == index
                &&& post@.headers == seen@
                &&& post@.free.to_set() == zero_slots(seen@)
                &&& post@.read_cursor == self.offset_of(index as nat)
                &&& post@.write_cursor == self@.write_cursor
                &&& post.idle()
                &&& finishes(r, self.offset_of(index as nat) as int, seq![])
            } else if delivered(reply, 4) && index < u32::MAX && self.offset_of((index + 1) as nat)
                <= u64::MAX {
                &&& post@ == self@
                &&& post.task() matches Task::ScanSeek { index: i, seen: s, .. }
                &&& i == index + 1
                &&& s@ == seen@.push(le_value(bytes_of(reply)) as u32)
                &&& asks_seek(r, Handle::Reader, self.offset_of((index + 1) as nat))
            } else {
                self.aborts(post, r, ErrorKind::Io, 2)
            },
            _ => true,
        }
    }

    /// What one reply does to a read of a slot that holds data.
    pub open spec fn read_step(self, reply: Reply, post: Storage, r: Step) -> bool {
        match self.task() {
            Task::ReadSeek { index, offset } => if landed_at(reply, offset as nat) {
                &&& post@ == self@
                &&& post.task() == Task::ReadHeader { index, offset }
                &&& asks_read(r, 4)
            } else {
                self.aborts(post, r, ErrorKind::Seek, 3)
            },
            Task::ReadHeader { index, offset } => if delivered(reply, 4) {
                &&& post@ == self@
                &&& post.task() == Task::ReadPayload {
                    index,
                    offset,
                    length: le_value(bytes_of(reply)) as u32,
                }
                &&& asks_read(r, le_value(bytes_of(reply)))
            } else {
                self.aborts(post, r, ErrorKind::Io, 3)
            },
            Task::ReadPayload { offset, length, .. } => if delivered(reply, length as nat) && offset
                + 4 + length <= u64::MAX {
                &&& post@ == StorageModel { read_cursor: (offset + 4 + length) as nat, ..self@ }
                &&& post.idle()
                &&& finishes(r, offset + 4 + length as nat, bytes_of(reply))
            } else {
                self.aborts(post, r, ErrorKind::Io, 4)
            },
            _ => true,
        }
    }

    /// What one reply does to a write of a slot.
    pub open spec fn write_step(self, reply: Reply, post: Storage, r: Step) -> bool {
        match self.task() {
            Task::WriteSeek { index, offset, data } => if landed_at(reply, offset as nat) {
                &&& post@ == self@
                &&& post.task() == Task::WriteHeader { index, offset, data }
                &&& asks_write(r, le_bytes(data@.len() as u32))
            } else {
                self.aborts(post, r, ErrorKind::Seek, 5)
            },
            Task::WriteHeader { index, offset, data } => if wrote(reply, 4) {
                &&& post@ == self@
                &&& post.task() == Task::WritePayload { index, offset, data }
                &&& asks_write(r, data@)
            } else {
                self.aborts(post, r, ErrorKind::Io, transfer_code(reply, 6, 8))
            },
            Task::WritePayload { index, offset, data } => if wrote(reply, data@.len()) {
                &&& written(self@, post@, index as nat, data@.len(), offset + 4 + data@.len())
                &&& post.idle()
                &&& finishes(r, offset + 4 + data@.len(), seq![])
            } else {
                self.aborts(post, r, ErrorKind::Io, transfer_code(reply, 7, 9))
            },
            _ => true,
        }
    }

    /// What one reply does to a delete of a slot.
    pub open spec fn delete_step(self, reply: Reply, post: Storage, r: Step) -> bool {
        match self.task() {
            Task::DeleteSeek { index, offset, hard } => if landed_at(reply, offset as nat) {
                &&& post@ == self@
                &&& post.task() == Task::DeleteHeader { index, offset, hard }
                &&& asks_write(r, le_bytes(0))
            } else {
                self.aborts(post, r, ErrorKind::Seek, 10)
            },
            Task::DeleteHeader { index, offset, hard } => if wrote(reply, 4) {
                if hard {
                    &&& post@ == self@
                    &&& post.task() == Task::DeleteScrub { index, offset }
                    &&& asks_write(r, zeros(self@.capacity as nat))
                } else {
                    &&& deleted(self@, post@, index as nat, offset + 4)
                    &&& post.idle()
                    &&& finishes(r, offset + 4, seq![])
                }
            } else {
                self.aborts(post, r, ErrorKind::Io, transfer_code(reply, 11, 12))
            },
            Task::DeleteScrub { index, offset } => if wrote(reply, self@.capacity as nat) {
                &&& deleted(self@, post@, index as nat, offset + 4 + self@.capacity)
                &&& post.idle()
                &&& finishes(r, offset + 4 + self@.capacity, seq![])
            } else {
                self.aborts(post, r, ErrorKind::Io, transfer_code(reply, 13, 14))
            },
            _ => true,
        }
    }

    /// Starts creating a new storage file with `block_len` payload bytes per
    /// slot. The driver opens (truncating) both handles first.
    pub fn new(block_len: usize) -> (r: (Storage, Request))
        requires
            block_len <= u32::MAX,
        ensures
            r.0.wf(),
            r.0@ == (StorageModel {
                capacity: block_len as u32,
                end: 0,
                free: seq![],
                headers: seq![],
                read_cursor: 0,
                write_cursor: 0,
            }),
            consistent(r.0@),
            r.0.task() == Task::CreateSeek,
            r.1 matches Request::Seek(h, p) && h == Handle::Writer && p == 0,
    {
        let s = Storage {
            capacity: block_len as u32,
            free: SlotSet::new(),
            end: 0,
            read_cursor: 0,
            write_cursor: 0,
            headers: Ghost(Seq::empty()),
            task: Task::CreateSeek,
        };
        proof {
            assert(s@.free =~= seq![]);
            assert(s@.headers =~= seq![]);
            assert(s@.free.to_set() =~= zero_slots(s@.headers));
        }
        (s, Request::Seek(Handle::Writer, 0))
    }

    /// Starts opening an existing storage file. The driver opens both
    /// handles, without truncating, first.
    pub fn open() -> (r: (Storage, Request))
        ensures
            r.0.wf(),
            r.0@ == (StorageModel {
                capacity: 0,
                end: 0,
                free: seq![],
                headers: seq![],
                read_cursor: 0,
                write_cursor: 0,
            }),
            r.0.task() == Task::OpenSeek,
            r.1 matches Request::Seek(h, p) && h == Handle::Reader && p == 0,
    {
        let s = Storage {
            capacity: 0,
            free: SlotSet::new(),
            end: 0,
            read_cursor: 0,
            write_cursor: 0,
            headers: Ghost(Seq::empty()),
            task: Task::OpenSeek,
        };
        proof {
            assert(s@.free =~= seq![]);
            assert(s@.headers =~= seq![]);
        }
        (s, Request::Seek(Handle::Reader, 0))
    }

    /// Payload bytes per slot.
    pub fn block_len(&self) -> (r: u32)
        ensures
            r == self@.capacity,
    {
        self.capacity
    }

    /// Number of slots ever addressed.
    pub fn end_slot_count(&self) -> (r: u32)
        ensures
            r == self@.end,
    {
        self.end
    }

    /// The free slots in ascending order.
    pub fn free_slots(&self) -> (r: Vec<u32>)
        ensures
            r@ == self@.free,
    {
        self.free.to_vec()
    }

    pub fn read_pointer(&self) -> (r: u64)
        ensures
            r == self@.read_cursor,
    {
        self.read_cursor
    }

    pub fn write_pointer(&self) -> (r: u64)
        ensures
            r == self@.write_cursor,
    {
        self.write_cursor
    }

    /// Whether no operation is in progress.
    pub fn is_idle(&self) -> (r: bool)
        ensures
            r == self.idle(),
    {
        match self.task {
            Task::Idle => true,
            _ => false,
        }
    }

    /// Whether `write_block` may be called for `len` bytes at slot
    /// `block_index`: the payload fits in a slot, the index leaves room for
    /// one more, and the slot's end fits in a 64-bit offset.
    pub fn write_fits(&self, block_index: usize, len: usize) -> (r: bool)
        ensures
            r == (len <= self@.capacity && block_index < u32::MAX && self.offset_of(
                block_index as nat,
            ) + 4 + self@.capacity <= u64::MAX),
    {
        if len > self.capacity as usize || block_index >= u32::MAX as usize {
            return false;
        }
        let i = block_index as u64;
        let stride: u64 = 4 + self.capacity as u64;
        // 4 + i * stride + stride <= u64::MAX, that is (i + 1) * stride <= u64::MAX - 4
        let limit: u64 = (u64::MAX - 4) / stride;
        let r = i + 1 <= limit;
        proof {
            let c = self.capacity as nat;
            assert(self.offset_of(i as nat) + 4 + c == 4 + (i + 1) * stride) by (nonlinear_arith)
                requires
                    stride == 4 + c,
                    self.offset_of(i as nat) == 4 + i * (4 + c),
            ;
            assert(((i + 1) * stride <= u64::MAX - 4) == (i + 1 <= limit)) by (nonlinear_arith)
                requires
                    stride > 0,
                    limit == (u64::MAX - 4) / stride as int,
            ;
        }
        r
    }

    /// Whether slot `block_index` has ever been addressed.
    pub fn block_exists(&self, block_index: u32) -> (r: bool)
        ensures
            r == (block_index < self@.end),
    {
        block_index < self.end
    }

    /// Whether a read of slot `block_index` finds nothing, judged from memory
    /// alone.
    pub fn is_empty_block(&self, block_index: usize) -> (r: bool)
        requires
            self.wf(),
        ensures
            r == empty_slot(self@, block_index as nat),
    {
        if block_index >= self.end as usize {
            return true;
        }
        let index = block_index as u32;
        let r = self.free.contains(index);
        proof {
            assert(self.free.members().contains(index) == self@.free.contains(index));
        }
        r
    }

    /// Starts reading slot `block_index`. A slot never addressed, or free,
    /// reads as empty at once and leaves the read cursor where it was.
    pub fn read_block(&mut self, block_index: usize) -> (r: Step)
        requires
            old(self).wf(),
            old(self).idle(),
        ensures
            final(self).wf(),
            final(self)@ == old(self)@,
            empty_slot(old(self)@, block_index as nat) ==> final(self).idle() && finishes(
                r,
                old(self)@.read_cursor as int,
                seq![],
            ),
            !empty_slot(old(self)@, block_index as nat) ==> final(self).task() == (Task::ReadSeek {
                index: block_index as u32,
                offset: old(self).offset_of(block_index as nat) as u64,
            }) && asks_seek(r, Handle::Reader, old(self).offset_of(block_index as nat)),
    {
        if self.is_empty_block(block_index) {
            return Step::Done(Ok(Outcome { cursor: self.read_cursor, payload: Vec::new() }));
        }
        let index = block_index as u32;
        proof {
            lemma_offset_monotone(self.capacity as nat, index as nat, self.end as nat);
        }
        let offset = offset_of(self.capacity, index);
        self.task = Task::ReadSeek { index, offset };
        Step::Perform(Request::Seek(Handle::Reader, offset))
    }

    /// Starts writing `data` to slot `block_index`. The payload must fit in a
    /// slot; a longer one would run into the next slot.
    pub fn write_block(&mut self, block_index: usize, data: Vec<u8>) -> (r: Step)
        requires
            old(self).wf(),
            old(self).idle(),
            data@.len() <= old(self)@.capacity,
            block_index < u32::MAX,
            old(self).offset_of(block_index as nat) + 4 + old(self)@.capacity <= u64::MAX,
        ensures
            final(self).wf(),
            final(self)@ == old(self)@,
            final(self).task() == (Task::WriteSeek {
                index: block_index as u32,
                offset: old(self).offset_of(block_index as nat) as u64,
                data,
            }),
            asks_seek(r, Handle::Writer, old(self).offset_of(block_index as nat)),
    {
        let index = block_index as u32;
        let offset = offset_of(self.capacity, index);
        self.task = Task::WriteSeek { index, offset, data };
        Step::Perform(Request::Seek(Handle::Writer, offset))
    }

    /// Starts deleting slot `block_index`: its header is set to zero, and on
    /// a hard delete its payload region is overwritten with zeros. Deleting a
    /// slot never addressed, or soft-deleting a free one, does nothing and
    /// reports the write cursor as it stands.
    pub fn delete_block(&mut self, block_index: usize, hard_delete: bool) -> (r: Step)
        requires
            old(self).wf(),
            old(self).idle(),
        ensures
            final(self).wf(),
            final(self)@ == old(self)@,
            ({
                let m = old(self)@;
                let noop = block_index >= m.end || (!hard_delete && m.free.contains(
                    block_index as u32,
                ));
                &&& noop ==> final(self).idle() && finishes(r, m.write_cursor as int, seq![])
                &&& !noop ==> final(self).task() == (Task::DeleteSeek {
                    index: block_index as u32,
                    offset: old(self).offset_of(block_index as nat) as u64,
                    hard: hard_delete,
                }) && asks_seek(r, Handle::Writer, old(self).offset_of(block_index as nat))
            }),
    {
        if block_index >= self.end as usize {
            return Step::Done(Ok(Outcome { cursor: self.write_cursor, payload: Vec::new() }));
        }
        let index = block_index as u32;
        if !hard_delete && self.is_empty_block(block_index) {
            return Step::Done(Ok(Outcome { cursor: self.write_cursor, payload: Vec::new() }));
        }
        proof {
            lemma_offset_monotone(self.capacity as nat, index as nat, self.end as nat);
        }
        let offset = offset_of(self.capacity, index);
        self.task = Task::DeleteSeek { index, offset, hard: hard_delete };
        Step::Perform(Request::Seek(Handle::Writer, offset))
    }

    /// Hands the engine the reply to the request it made last, and returns
    /// the next request or the end of the operation.
    pub fn resume(&mut self, reply: Reply) -> (r: Step)
        requires
            old(self).wf(),
            !old(self).idle(),
        ensures
            final(self).wf(),
            old(self).create_step(reply, *final(self), r),
            old(self).open_step(reply, *final(self), r),
            old(self).read_step(reply, *final(self), r),
            old(self).write_step(reply, *final(self), r),
            old(self).delete_step(reply, *final(self), r),
    {
        match self.task {
            Task::CreateSeek | Task::CreateHeader => self.resume_create(reply),
            Task::OpenSeek | Task::OpenHeader | Task::ScanSeek { .. } | Task::ScanHeader { .. } => {
                self.resume_open(reply)
            },
            Task::ReadSeek { .. } | Task::ReadHeader { .. } | Task::ReadPayload { .. } => {
                self.resume_read(reply)
            },
            Task::WriteSeek { .. } | Task::WriteHeader { .. } | Task::WritePayload { .. } => {
                self.resume_write(reply)
            },
            _ => self.resume_delete(reply),
        }
    }

    fn resume_read(&mut self, reply: Reply) -> (r: Step)
        requires
            old(self).wf(),
            old(self).task() is ReadSeek || old(self).task() is ReadHeader
                || old(self).task() is ReadPayload,
        ensures
            final(self).wf(),
            old(self).read_step(reply, *final(self), r),
    {
        let task = self.take_task();
        match task {
            Task::ReadSeek { index, offset } => {
                if let Reply::Position(p) = reply {
                    if p == offset {
                        self.task = Task::ReadHeader { index, offset };
                        return Step::Perform(Request::Read(4));
                    }
                }
                self.fail(ErrorKind::Seek, 3, "Could not seek to block offset")
            },
            Task::ReadHeader { index, offset } => {
                if let Reply::Bytes(b) = reply {
                    if b.len() == 4 {
                        let header = BlockHeader::from_bytes(&[b[0], b[1], b[2], b[3]]);
                        assert(seq![b[0], b[1], b[2], b[3]] =~= b@);
                        let length = header.block_data_size;
                        self.task = Task::ReadPayload { index, offset, length };
                        return Step::Perform(Request::Read(length as usize));
                    }
                }
                self.fail(ErrorKind::Io, 3, "Could not read block header from file")
            },
            Task::ReadPayload { index, offset, length } => {
                if let Reply::Bytes(b) = reply {
                    if b.len() == length as usize && offset <= u64::MAX - 4 - length as u64 {
                        let cursor = offset + 4 + length as u64;
                        self.read_cursor = cursor;
                        return Step::Done(Ok(Outcome { cursor, payload: b }));
                    }
                }
                self.fail(ErrorKind::Io, 4, "Could not read block data from file")
            },
            _ => self.fail(ErrorKind::Io, 4, "Could not read block data from file"),
        }
    }

    fn resume_write(&mut self, reply: Reply) -> (r: Step)
        requires
            old(self).wf(),
            old(self).task() is WriteSeek || old(self).task() is WriteHeader
                || old(self).task() is WritePayload,
        ensures
            final(self).wf(),
            old(self).write_step(reply, *final(self), r),
    {
        let task = self.take_task();
        match task {
            Task::WriteSeek { index, offset, data } => {
                if let Reply::Position(p) = reply {
                    if p == offset {
                        let header = BlockHeader::new(data.len() as u32);
                        let bytes = header.to_bytes();
                        self.task = Task::WriteHeader { index, offset, data };
                        return Step::Perform(Request::Write(four_bytes(&bytes)));
                    }
                }
                self.fail(ErrorKind::Seek, 5, "Could not seek to block offset")
            },
            Task::WriteHeader { index, offset, data } => {
                match reply {
                    Reply::Count(n) => {
                        if n == 4 {
                            let payload = data.clone();
                            self.task = Task::WritePayload { index, offset, data };
                            return Step::Perform(Request::Write(payload));
                        }
                        self.fail(ErrorKind::Io, 8, "Could not write all data to file")
                    },
                    Reply::Failed => self.fail(ErrorKind::Io, 6, "Could not write to file"),
                    _ => self.fail(ErrorKind::Io, 8, "Could not write all data to file"),
                }
            },
            Task::WritePayload { index, offset, data } => {
                match reply {
                    Reply::Count(n) => {
                        if n == data.len() {
                            let ghost pre = self@;
                            if n == 0 {
                                self.free.insert(index);
                            } else {
                                self.free.remove(index);
                            }
                            if index >= self.end {
                                proof {
                                    lemma_offset_step(self.capacity as nat, index as nat);
                                }
                                free_range(&mut self.free, self.end, index);
                                self.end = index + 1;
                            } else {
                                assert(gap_slots(pre.end, index as nat) =~= Set::empty());
                            }
                            assert(self@.free.to_set() =~= free_after_write(
                                pre.free.to_set(),
                                pre.end,
                                index as nat,
                                n as nat,
                            ));
                            self.headers = Ghost(
                                headers_after_write(self.headers@, index as nat, n as u32),
                            );
                            let cursor = offset + 4 + n as u64;
                            self.write_cursor = cursor;
                            proof {
                                assert forall|k: int| 0 <= k < self@.free.len() implies #[trigger] self@.free[k]
                                    < self@.end && self@.headers[self@.free[k] as int] == 0 by {
                                    let x = self@.free[k];
                                    assert(self@.free.to_set().contains(x));
                                    if x != index && !gap_slots(pre.end, index as nat).contains(x) {
                                        assert(pre.free.to_set().contains(x));
                                        let j = choose|j: int| 0 <= j < pre.free.len() && pre.free[j] == x;
                                        assert(pre.free[j] < pre.end);
                                    }
                                }
                            }
                            return Step::Done(Ok(Outcome { cursor, payload: Vec::new() }));
                        }
                        self.fail(ErrorKind::Io, 9, "Could not write all data to file")
                    },
                    Reply::Failed => self.fail(ErrorKind::Io, 7, "Could not write to file"),
                    _ => self.fail(ErrorKind::Io, 9, "Could not write all data to file"),
                }
            },
            _ => self.fail(ErrorKind::Io, 9, "Could not write all data to file"),
        }
    }

    /// Marks slot `index` free once its header reads zero on disk.
    fn commit_delete(&mut self, index: u32, cursor: u64)
        requires
            model_wf(old(self)@),
            index < old(self)@.end,
            old(self).task is Idle,
        ensures
            model_wf(final(self)@),
            final(self).task is Idle,
            deleted(old(self)@, final(self)@, index as nat, cursor as int),
    {
        let ghost pre = self@;
        self.free.insert(index);
        self.headers = Ghost(self.headers@.update(index as int, 0));
        self.write_cursor = cursor;
        proof {
            assert forall|k: int| 0 <= k < self@.free.len() implies #[trigger] self@.free[k]
                < self@.end && self@.headers[self@.free[k] as int] == 0 by {
                let x = self@.free[k];
                assert(self@.free.to_set().contains(x));
                if x != index {
                    assert(pre.free.to_set().contains(x));
                    let j = choose|j: int| 0 <= j < pre.free.len() && pre.free[j] == x;
                    assert(pre.free[j] < pre.end);
                }
            }
        }
    }

    fn resume_delete(&mut self, reply: Reply) -> (r: Step)
        requires
            old(self).wf(),
            old(self).task() is DeleteSeek || old(self).task() is DeleteHeader
                || old(self).task() is DeleteScrub,
        ensures
            final(self).wf(),
            old(self).delete_step(reply, *final(self), r),
    {
        let task = self.take_task();
        match task {
            Task::DeleteSeek { index, offset, hard } => {
                if let Reply::Position(p) = reply {
                    if p == offset {
                        let header = BlockHeader::new(0);
                        let bytes = header.to_bytes();
                        self.task = Task::DeleteHeader { index, offset, hard };
                        return Step::Perform(Request::Write(four_bytes(&bytes)));
                    }
                }
                self.fail(ErrorKind::Seek, 10, "Could not seek to block offset")
            },
            Task::DeleteHeader { index, offset, hard } => {
                match reply {
                    Reply::Count(n) => {
                        if n == 4 {
                            proof {
                                lemma_offset_monotone(self.capacity as nat, index as nat, self.end as nat);
                            }
                            if hard {
                                self.task = Task::DeleteScrub { index, offset };
                                let scrub = vec![0u8; self.capacity as usize];
                                assert(scrub@ =~= zeros(self.capacity as nat));
                                return Step::Perform(Request::Write(scrub));
                            }
                            self.commit_delete(index, offset + 4);
                            return Step::Done(Ok(Outcome { cursor: offset + 4, payload: Vec::new() }));
                        }
                        self.fail(ErrorKind::Io, 12, "Could not write all data to file")
                    },
                    Reply::Failed => self.fail(ErrorKind::Io, 11, "Could not write to file"),
                    _ => self.fail(ErrorKind::Io, 12, "Could not write all data to file"),
                }
            },
            Task::DeleteScrub { index, offset } => {
                match reply {
                    Reply::Count(n) => {
                        if n == self.capacity as usize {
                            proof {
                                lemma_offset_monotone(self.capacity as nat, index as nat, self.end as nat);
                            }
                            let cursor = offset + 4 + self.capacity as u64;
                            self.commit_delete(index, cursor);
                            return Step::Done(Ok(Outcome { cursor, payload: Vec::new() }));
                        }
                        self.fail(ErrorKind::Io, 14, "Could not write all data to file")
                    },
                    Reply::Failed => self.fail(ErrorKind::Io, 13, "Could not write to file"),
                    _ => self.fail(ErrorKind::Io, 14, "Could not write all data to file"),
                }
            },
            _ => self.fail(ErrorKind::Io, 14, "Could not write all data to file"),
        }
    }

    /// The slots a payload of `payload_length` bytes would take, one per
    /// chunk of at most a slot's capacity: the free slots in ascending
    /// order first, then new slots from the end on.
    pub fn plan_write(&self, payload_length: usize) -> (r: Vec<u32>)
        requires
            self.wf(),
            self@.capacity > 0,
            self@.end + chunk_count(payload_length as nat, self@.capacity as nat) <= u32::MAX,
        ensures
            r@.len() == chunk_count(payload_length as nat, self@.capacity as nat),
            forall|j: int|
                0 <= j < r@.len() ==> #[trigger] r@[j] == if j < self@.free.len() {
                    self@.free[j] as int
                } else {
                    self@.end + (j - self@.free.len())
                },
    {
        let c = self.capacity as usize;
        let n: usize = payload_length / c + if payload_length % c != 0 {
            1usize
        } else {
            0usize
        };
        let k = self.free.len();
        let mut r: Vec<u32> = Vec::new();
        let mut j: usize = 0;
        while j < n
            invariant
                self.wf(),
                n == chunk_count(payload_length as nat, self@.capacity as nat),
                k == self@.free.len(),
                self@.end + n <= u32::MAX,
                j <= n,
                r@.len() == j,
                forall|t: int|
                    0 <= t < j ==> #[trigger] r@[t] == if t < k {
                        self@.free[t] as int
                    } else {
                        self@.end + (t - k)
                    },
            decreases n - j,
        {
            if j < k {
                r.push(self.free.get(j));
            } else {
                r.push(self.end + (j - k) as u32);
            }
            j = j + 1;
        }
        r
    }

    fn take_task(&mut self) -> (t: Task)
        ensures
            t == old(self).task,
            *final(self) == (Storage { task: Task::Idle, ..*old(self) }),
    {
        let mut t = Task::Idle;
        std::mem::swap(&mut t, &mut self.task);
        t
    }

    fn fail(&mut self, kind: ErrorKind, code: i32, message: &str) -> (r: Step)
        requires
            old(self).task is Idle,
        ensures
            *final(self) == *old(self),
            fails_with(r, kind, code),
    {
        Step::Done(Err(Error::new(kind, code, message)))
    }

    fn resume_create(&mut self, reply: Reply) -> (r: Step)
        requires
            old(self).wf(),
            old(self).task() is CreateSeek || old(self).task() is CreateHeader,
        ensures
            final(self).wf(),
            old(self).create_step(reply, *final(self), r),
    {
        let task = self.take_task();
        match task {
            Task::CreateSeek => {
                if let Reply::Position(p) = reply {
                    if p == 0 {
                        self.task = Task::CreateHeader;
                        let header = StorageHeader::new(self.capacity);
                        let bytes = header.to_bytes();
                        return Step::Perform(Request::Write(four_bytes(&bytes)));
                    }
                }
                self.fail(ErrorKind::Io, 2, "Could not init storage")
            },
            _ => {
                if let Reply::Count(n) = reply {
                    if n == 4 {
                        self.write_cursor = 4;
                        return Step::Done(Ok(Outcome { cursor: 4, payload: Vec::new() }));
                    }
                }
                self.fail(ErrorKind::Io, 2, "Could not init storage")
            },
        }
    }
    fn resume_open(&mut self, reply: Reply) -> (r: Step)
        requires
            old(self).wf(),
            old(self).task() is OpenSeek || old(self).task() is OpenHeader
                || old(self).task() is ScanSeek || old(self).task() is ScanHeader,
        ensures
            final(self).wf(),
            old(self).open_step(reply, *final(self), r),
    {
        let task = self.take_task();
        match task {
            Task::OpenSeek => {
                if let Reply::Position(p) = reply {
                    if p == 0 {
                        self.task = Task::OpenHeader;
                        return Step::Perform(Request::Read(4));
                    }
                }
                self.fail(ErrorKind::Io, 2, "Could not init storage")
            },
            Task::OpenHeader => {
                if let Reply::Bytes(b) = reply {
                    if b.len() == 4 {
                        let header = StorageHeader::from_bytes(&[b[0], b[1], b[2], b[3]]);
                        assert(seq![b[0], b[1], b[2], b[3]] =~= b@);
                        self.capacity = header.block_len;
                        let free = SlotSet::new();
                        proof {
                            assert(free.members() =~= zero_slots(Seq::<u32>::empty()));
                        }
                        self.task = Task::ScanSeek { index: 0, free, seen: Ghost(Seq::empty()) };
                        return Step::Perform(Request::Seek(Handle::Reader, 4));
                    }
                }
                self.fail(ErrorKind::Io, 2, "Could not init storage")
            },
            Task::ScanSeek { index, free, seen } => {
                let offset = offset_of(self.capacity, index);
                if let Reply::Position(p) = reply {
                    if p == offset {
                        self.task = Task::ScanHeader { index, free, seen };
                        return Step::Perform(Request::Read(4));
                    }
                }
                self.fail(ErrorKind::Seek, 3, "Could not seek file pointer")
            },
            Task::ScanHeader { index, free, seen } => {
                let offset = offset_of(self.capacity, index);
                if let Reply::Bytes(b) = reply {
                    if b.len() < 4 {
                        self.free = free;
                        self.end = index;
                        self.headers = seen;
                        self.read_cursor = offset;
                        proof {
                            assert forall|k: int| 0 <= k < self.free@.len() implies #[trigger] self.free@[k]
                                < self.end && self.headers@[self.free@[k] as int] == 0 by {
                                assert(self.free.members().contains(self.free@[k]));
                            }
                        }
                        return Step::Done(Ok(Outcome { cursor: offset, payload: Vec::new() }));
                    }
                    proof {
                        lemma_offset_step(self.capacity as nat, index as nat);
                    }
                    if b.len() == 4 && index < u32::MAX && offset <= u64::MAX - 4 - self.capacity as u64 {
                        let header = BlockHeader::from_bytes(&[b[0], b[1], b[2], b[3]]);
                        assert(seq![b[0], b[1], b[2], b[3]] =~= b@);
                        let v = header.block_data_size;
                        let mut free = free;
                        if v == 0 {
                            free.insert(index);
                        }
                        let ghost seen2 = seen@.push(v);
                        proof {
                            assert(free.members() =~= zero_slots(seen2));
                        }
                        self.task = Task::ScanSeek { index: index + 1, free, seen: Ghost(seen2) };
                        return Step::Perform(Request::Seek(Handle::Reader, offset + 4 + self.capacity as u64));
                    }
                }
                self.fail(ErrorKind::Io, 2, "Could not read all header bytes from file")
            },
            _ => {
                self.fail(ErrorKind::Io, 2, "Could not init storage")
            },
        }
    }
}

/// The file image after `bytes` are written at `pos`; a gap between the old
/// end of the image and `pos` reads as zeros.
pub open spec fn overwrite(img: Seq<u8>, pos: nat, bytes: Seq<u8>) -> Seq<u8> {
    let len = if img.len() > pos + bytes.len() {
        img.len()
    } else {
        pos + bytes.len()
    };
    Seq::new(
        len as nat,
        |k: int|
            if pos <= k < pos + bytes.len() {
                bytes[k - pos]
            } else if k < img.len() {
                img[k]
            } else {
                0u8
            },
    )
}

/// A completed write of slot `i` leaves the write cursor at
/// `4 + i * (4 + C) + 4 + L`, for a payload of `L` bytes in a file of slot
/// capacity `C`.
pub proof fn lemma_write_cursor(s: Storage, reply: Reply, post: Storage, r: Step)
    requires
        s.wf(),
        s.task() matches Task::WritePayload { data, .. } && wrote(reply, data@.len()),
        s.write_step(reply, post, r),
    ensures
        s.task() matches Task::WritePayload { index, data, .. } && finishes(
            r,
            4 + index * (4 + s@.capacity) + 4 + data@.len(),
            seq![],
        ),
{
}

/// Writing a payload to any slot keeps the free set equal to the set of
/// slots below the end whose header is zero.
pub proof fn lemma_write_keeps_consistency(
    pre: StorageModel,
    post: StorageModel,
    i: nat,
    len: nat,
    cursor: int,
)
    requires
        consistent(pre),
        i <= u32::MAX,
        len <= u32::MAX,
        written(pre, post, i, len, cursor),
    ensures
        consistent(post),
{
    let h = headers_after_write(pre.headers, i, len as u32);
    if i < pre.end {
        if len == 0 {
            assert(zero_slots(h) =~= zero_slots(pre.headers).insert(i as u32));
        } else {
            assert(zero_slots(h) =~= zero_slots(pre.headers).remove(i as u32));
        }
        assert(post.free.to_set() =~= zero_slots(h));
    } else {
        assert forall|k: u32| #[trigger] zero_slots(h).contains(k) <==> (zero_slots(
            pre.headers,
        ).contains(k) || gap_slots(pre.end, i).contains(k) || (len == 0 && k as int == i)) by {
            if (k as int) < pre.headers.len() {
                assert(h[k as int] == pre.headers[k as int]);
            } else if (k as int) < i {
                assert(h[k as int] == 0);
            } else if k as int == i {
                assert(h[k as int] == len as u32);
            }
        }
        assert(post.free.to_set() =~= zero_slots(h));
    }
}

/// Deleting a slot below the end keeps the free set equal to the set of
/// slots below the end whose header is zero.
pub proof fn lemma_delete_keeps_consistency(
    pre: StorageModel,
    post: StorageModel,
    i: nat,
    cursor: int,
)
    requires
        model_wf(pre),
        consistent(pre),
        i < pre.end,
        deleted(pre, post, i, cursor),
    ensures
        consistent(post),
{
    assert(zero_slots(pre.headers.update(i as int, 0)) =~= zero_slots(pre.headers).insert(
        i as u32,
    ));
}

/// Every step of every operation keeps the free set equal to the set of
/// slots below the end whose header is zero: a step either leaves the model
/// as it was or completes a create, an open, a read, a write or a delete.
pub proof fn lemma_step_keeps_consistency(s: Storage, reply: Reply, post: Storage, r: Step)
    requires
        s.wf(),
        !s.idle(),
        post.wf(),
        consistent(s@),
        s.create_step(reply, post, r),
        s.open_step(reply, post, r),
        s.read_step(reply, post, r),
        s.write_step(reply, post, r),
        s.delete_step(reply, post, r),
    ensures
        consistent(post@),
{
    match s.task() {
        Task::WritePayload { index, offset, data } => {
            if wrote(reply, data@.len()) {
                lemma_write_keeps_consistency(
                    s@,
                    post@,
                    index as nat,
                    data@.len(),
                    offset + 4 + data@.len(),
                );
            }
        },
        Task::DeleteHeader { index, offset, hard } => {
            if wrote(reply, 4) && !hard {
                lemma_delete_keeps_consistency(s@, post@, index as nat, offset + 4);
            }
        },
        Task::DeleteScrub { index, offset } => {
            if wrote(reply, s@.capacity as nat) {
                lemma_delete_keeps_consistency(
                    s@,
                    post@,
                    index as nat,
                    offset + 4 + s@.capacity,
                );
            }
        },
        _ => {},
    }
}

/// The recovery scan of a reopened file ends in a consistent state, and one
/// that only the headers it read decide: a file whose headers are those of a
/// consistent engine reopens with that engine's end and free set.
pub proof fn lemma_recovery(
    m: StorageModel,
    s: Storage,
    reply: Reply,
    post: Storage,
    r: Step,
)
    requires
        s.wf(),
        s.task() matches Task::ScanHeader { seen, .. } && seen@ == m.headers,
        consistent(m),
        reply matches Reply::Bytes(b) && b@.len() < 4,
        s.open_step(reply, post, r),
        post.wf(),
    ensures
        consistent(post@),
        post@.end == m.end,
        post@.headers == m.headers,
        post@.free.to_set() == m.free.to_set(),
        model_wf(m) ==> post@.free == m.free,
{
    if model_wf(m) {
        lemma_ascending_determined(post@.free, m.free);
    }
}

/// What one read of up to `n` bytes at `pos` yields from the file image `img`.
pub open spec fn read_at(img: Seq<u8>, pos: nat, n: nat) -> Seq<u8> {
    if pos >= img.len() {
        seq![]
    } else if pos + n <= img.len() {
        img.subrange(pos as int, pos + n as int)
    } else {
        img.subrange(pos as int, img.len() as int)
    }
}

/// The number of slots whose header lies wholly within the file image `img`.
pub open spec fn image_slot_count(img: Seq<u8>, c: nat) -> nat {
    if img.len() < 8 {
        0
    } else {
        ((img.len() - 8) as nat / (4 + c) + 1) as nat
    }
}

/// The headers of those slots, as stored in `img`.
pub open spec fn image_headers(img: Seq<u8>, c: nat) -> Seq<u32> {
    Seq::new(
        image_slot_count(img, c),
        |k: int|
            le_value(
                img.subrange(slot_offset(c, k as nat) as int, slot_offset(c, k as nat) + 4 as int),
            ) as u32,
    )
}

proof fn lemma_image_slot_count(img: Seq<u8>, c: nat, k: nat)
    ensures
        (slot_offset(c, k) + 4 <= img.len()) == (k < image_slot_count(img, c)),
{
    let s = 4 + c;
    if img.len() >= 8 {
        let m = (img.len() - 8) as nat;
        let q = m / s;
        vstd::arithmetic::div_mod::lemma_fundamental_div_mod(m as int, s as int);
        assert((k * s <= m) == (k <= q)) by (nonlinear_arith)
            requires
                s > 0,
                m == s * q + m % s,
                0 <= m % s < s,
        ;
    } else {
        assert(k * s >= 0) by (nonlinear_arith)
            requires
                s > 0,
        ;
    }
}

/// The recovery scan reads a file faithfully: fed, at each slot, what a read
/// of its four header bytes from the image `img` yields, it keeps the headers
/// seen equal to those of the image so far, and when it ends it holds exactly
/// the image's slots, with the free set its zero-header slots.
pub proof fn lemma_scan_follows_image(img: Seq<u8>, s: Storage, reply: Reply, post: Storage, r: Step)
    requires
        s.wf(),
        s.task() is ScanHeader,
        s.task()->ScanHeader_index <= image_slot_count(img, s@.capacity as nat),
        s.task()->ScanHeader_seen@ == image_headers(img, s@.capacity as nat).take(
            s.task()->ScanHeader_index as int,
        ),
        reply matches Reply::Bytes(b) && b@ == read_at(
            img,
            s.offset_of(s.task()->ScanHeader_index as nat),
            4,
        ),
        s.open_step(reply, post, r),
    ensures
        post.task() is ScanSeek ==> {
            &&& post.task()->ScanSeek_index <= image_slot_count(img, s@.capacity as nat)
            &&& post.task()->ScanSeek_seen@ == image_headers(img, s@.capacity as nat).take(
                post.task()->ScanSeek_index as int,
            )
        },
        r matches Step::Done(Ok(_)) ==> {
            &&& post@.end == image_slot_count(img, s@.capacity as nat)
            &&& post@.headers == image_headers(img, s@.capacity as nat)
            &&& post@.free.to_set() == zero_slots(image_headers(img, s@.capacity as nat))
        },
{
    let c = s@.capacity as nat;
    let index = s.task()->ScanHeader_index;
    let h = image_headers(img, c);
    let off = slot_offset(c, index as nat);
    lemma_image_slot_count(img, c, index as nat);
    if index < image_slot_count(img, c) {
        assert(bytes_of(reply) == img.subrange(off as int, off + 4 as int));
        assert(h.take(index + 1) =~= h.take(index as int).push(h[index as int]));
    } else {
        assert(bytes_of(reply).len() < 4);
        assert(h.take(index as int) =~= h);
    }
}

/// The model describes the file image `img`: the image holds exactly the
/// model's slots, ends within the last of them, and stores the model's slot
/// headers.
pub open spec fn describes(m: StorageModel, img: Seq<u8>) -> bool {
    &&& img.len() <= slot_offset(m.capacity as nat, m.end)
    &&& image_slot_count(img, m.capacity as nat) == m.end
    &&& image_headers(img, m.capacity as nat) == m.headers
}

/// Bytes written inside slot `i`'s region leave the header of every other
/// slot as it was, and a slot past the image's end before `i` reads zero.
proof fn lemma_other_header(img: Seq<u8>, c: nat, i: nat, pos: nat, bytes: Seq<u8>, k: nat)
    requires
        slot_offset(c, i) <= pos,
        pos + bytes.len() <= slot_offset(c, i) + 4 + c,
        k != i,
    ensures
        slot_offset(c, k) + 4 <= img.len() ==> overwrite(img, pos, bytes).subrange(
            slot_offset(c, k) as int,
            slot_offset(c, k) + 4 as int,
        ) == img.subrange(slot_offset(c, k) as int, slot_offset(c, k) + 4 as int),
        img.len() <= slot_offset(c, k) && k < i ==> overwrite(img, pos, bytes).subrange(
            slot_offset(c, k) as int,
            slot_offset(c, k) + 4 as int,
        ) == seq![0u8, 0u8, 0u8, 0u8],
{
    let ok = slot_offset(c, k);
    let out = overwrite(img, pos, bytes);
    if k < i {
        lemma_offset_monotone(c, k, i);
    } else {
        lemma_offset_monotone(c, i, k);
    }
    if ok + 4 <= img.len() {
        assert(out.subrange(ok as int, ok + 4 as int) =~= img.subrange(ok as int, ok + 4 as int));
    }
    if img.len() <= ok && k < i {
        assert(out.subrange(ok as int, ok + 4 as int) =~= seq![0u8, 0u8, 0u8, 0u8]);
    }
}

/// The slot count of an image that reaches into slot `n - 1`'s header and
/// ends within it.
proof fn lemma_count_is(img: Seq<u8>, c: nat, n: nat)
    requires
        n > 0 ==> slot_offset(c, (n - 1) as nat) + 4 <= img.len(),
        img.len() <= slot_offset(c, n),
    ensures
        image_slot_count(img, c) == n,
{
    lemma_image_slot_count(img, c, n);
    if n > 0 {
        lemma_image_slot_count(img, c, (n - 1) as nat);
    }
}

/// A freshly created file, its header written, is described by the model of
/// a new engine.
pub proof fn lemma_create_describes(m: StorageModel)
    requires
        m.end == 0,
        m.headers == Seq::<u32>::empty(),
    ensures
        describes(m, le_bytes(m.capacity)),
{
    assert(image_headers(le_bytes(m.capacity), m.capacity as nat) =~= m.headers);
}

/// A completed write, applied to the file as its requests ask (the header
/// of `len` and then the payload, at the slot's offset), keeps the model a
/// description of the file.
pub proof fn lemma_write_describes(
    pre: StorageModel,
    post: StorageModel,
    img: Seq<u8>,
    i: nat,
    data: Seq<u8>,
    cursor: int,
)
    requires
        model_wf(pre),
        describes(pre, img),
        data.len() <= pre.capacity,
        i < u32::MAX,
        written(pre, post, i, data.len(), cursor),
    ensures
        describes(post, overwrite(img, slot_offset(pre.capacity as nat, i), le_bytes(data.len() as u32) + data)),
{
    let c = pre.capacity as nat;
    let off = slot_offset(c, i);
    let bytes = le_bytes(data.len() as u32) + data;
    let out = overwrite(img, off, bytes);
    lemma_offset_step(c, i);
    crate::codec::lemma_round_trip(data.len() as u32);
    if i < pre.end {
        lemma_offset_monotone(c, i + 1, pre.end);
        if pre.end > 0 {
            lemma_image_slot_count(img, c, (pre.end - 1) as nat);
        }
        lemma_count_is(out, c, pre.end);
    } else {
        lemma_offset_monotone(c, pre.end, i);
        lemma_count_is(out, c, i + 1);
    }
    let h = image_headers(out, c);
    assert forall|k: int| 0 <= k < h.len() implies #[trigger] h[k] == post.headers[k] by {
        lemma_image_slot_count(img, c, k as nat);
        if k == i {
            assert(out.subrange(off as int, off + 4 as int) =~= le_bytes(data.len() as u32));
        } else if k < pre.end {
            lemma_other_header(img, c, i, off, bytes, k as nat);
            assert(h[k] == image_headers(img, c)[k]);
        } else {
            lemma_other_header(img, c, i, off, bytes, k as nat);
            lemma_offset_monotone(c, pre.end, k as nat);
        }
    }
    assert(h =~= post.headers);
}

/// A completed delete, applied to the file as its requests ask (a zero
/// header at the slot's offset, then on a hard delete `C` zeros), keeps the
/// model a description of the file.
pub proof fn lemma_delete_describes(
    pre: StorageModel,
    post: StorageModel,
    img: Seq<u8>,
    i: nat,
    cursor: int,
)
    requires
        model_wf(pre),
        describes(pre, img),
        i < pre.end,
        deleted(pre, post, i, cursor),
    ensures
        ({
            let off = slot_offset(pre.capacity as nat, i);
            let soft = overwrite(img, off, le_bytes(0));
            &&& describes(post, soft)
            &&& describes(post, overwrite(soft, off + 4, zeros(pre.capacity as nat)))
        }),
{
    let c = pre.capacity as nat;
    let off = slot_offset(c, i);
    let soft = overwrite(img, off, le_bytes(0));
    let hard = overwrite(soft, off + 4, zeros(c));
    crate::codec::lemma_round_trip(0);
    lemma_offset_monotone(c, i, pre.end);
    lemma_image_slot_count(img, c, (pre.end - 1) as nat);
    lemma_count_is(soft, c, pre.end);
    lemma_count_is(hard, c, pre.end);
    let hs = image_headers(soft, c);
    let hh = image_headers(hard, c);
    assert forall|k: int| 0 <= k < hs.len() implies #[trigger] hs[k] == post.headers[k] by {
        lemma_image_slot_count(img, c, k as nat);
        if k == i {
            assert(soft.subrange(off as int, off + 4 as int) =~= le_bytes(0));
        } else {
            lemma_other_header(img, c, i, off, le_bytes(0), k as nat);
            assert(hs[k] == image_headers(img, c)[k]);
        }
    }
    assert forall|k: int| 0 <= k < hh.len() implies #[trigger] hh[k] == post.headers[k] by {
        lemma_image_slot_count(soft, c, k as nat);
        if k == i {
            assert(hard.subrange(off as int, off + 4 as int) =~= soft.subrange(off as int, off + 4 as int));
        } else {
            lemma_other_header(soft, c, i, off + 4, zeros(c), k as nat);
            assert(hh[k] == hs[k]);
        }
    }
    assert(hs =~= post.headers);
    assert(hh =~= post.headers);
}

/// A completed write or delete, as a run of operations sees it. A delete
/// that did nothing (a slot never addressed, or a soft delete of a free one)
/// is no change.
pub enum Change {
    Write { index: nat, data: Seq<u8> },
    Delete { index: nat, hard: bool },
}

/// `post` is the model after `ch` completed on `pre`.
pub open spec fn changed(pre: StorageModel, post: StorageModel, ch: Change) -> bool {
    match ch {
        Change::Write { index, data } => {
            &&& index < u32::MAX
            &&& data.len() <= pre.capacity
            &&& written(pre, post, index, data.len(), post.write_cursor as int)
        },
        Change::Delete { index, .. } => {
            &&& index < pre.end
            &&& deleted(pre, post, index, post.write_cursor as int)
        },
    }
}

/// The file image after `ch`'s requests were carried out on `img`.
pub open spec fn file_after(img: Seq<u8>, c: nat, ch: Change) -> Seq<u8> {
    match ch {
        Change::Write { index, data } => overwrite(
            img,
            slot_offset(c, index),
            le_bytes(data.len() as u32) + data,
        ),
        Change::Delete { index, hard } => {
            let soft = overwrite(img, slot_offset(c, index), le_bytes(0));
            if hard {
                overwrite(soft, slot_offset(c, index) + 4, zeros(c))
            } else {
                soft
            }
        },
    }
}

/// A run of changes from a freshly created file: `ms[j]` is the engine's
/// model and `imgs[j]` the file after the first `j` changes.
pub open spec fn run_from_create(ms: Seq<StorageModel>, imgs: Seq<Seq<u8>>, chs: Seq<Change>) -> bool {
    &&& ms.len() == chs.len() + 1
    &&& imgs.len() == ms.len()
    &&& ms[0].end == 0
    &&& ms[0].free == Seq::<u32>::empty()
    &&& ms[0].headers == Seq::<u32>::empty()
    &&& imgs[0] == le_bytes(ms[0].capacity)
    &&& forall|j: int| 0 <= j < ms.len() ==> model_wf(#[trigger] ms[j])
    &&& forall|j: int|
        0 <= j < chs.len() ==> changed(ms[j], ms[j + 1], #[trigger] chs[j]) && imgs[j + 1]
            == file_after(imgs[j], ms[j].capacity as nat, chs[j])
}

proof fn lemma_run_prefix(ms: Seq<StorageModel>, imgs: Seq<Seq<u8>>, chs: Seq<Change>, j: int)
    requires
        run_from_create(ms, imgs, chs),
        0 <= j < ms.len(),
    ensures
        ms[j].capacity == ms[0].capacity,
        consistent(ms[j]),
        describes(ms[j], imgs[j]),
    decreases j,
{
    if j == 0 {
        assert(ms[0].free.to_set() =~= zero_slots(ms[0].headers));
        lemma_create_describes(ms[0]);
    } else {
        lemma_run_prefix(ms, imgs, chs, j - 1);
        let (pre, post, ch) = (ms[j - 1], ms[j], chs[j - 1]);
        assert(changed(pre, post, ch));
        match ch {
            Change::Write { index, data } => {
                lemma_write_keeps_consistency(pre, post, index, data.len(), post.write_cursor as int);
                lemma_write_describes(pre, post, imgs[j - 1], index, data, post.write_cursor as int);
            },
            Change::Delete { index, hard } => {
                lemma_delete_keeps_consistency(pre, post, index, post.write_cursor as int);
                lemma_delete_describes(pre, post, imgs[j - 1], index, post.write_cursor as int);
            },
        }
    }
}

/// After any run of writes and deletes from a freshly created file, the free
/// set equals the set of slots below the end whose header is zero, and a
/// recovery scan of the file (see `lemma_scan_follows_image`) finds the same
/// slot count and the same free slots.
pub proof fn lemma_reopen_after_run(ms: Seq<StorageModel>, imgs: Seq<Seq<u8>>, chs: Seq<Change>)
    requires
        run_from_create(ms, imgs, chs),
    ensures
        ({
            let m = ms.last();
            let img = imgs.last();
            let c = ms[0].capacity as nat;
            &&& consistent(m)
            &&& image_slot_count(img, c) == m.end
            &&& image_headers(img, c) == m.headers
            &&& zero_slots(image_headers(img, c)) == m.free.to_set()
        }),
{
    lemma_run_prefix(ms, imgs, chs, ms.len() - 1);
}

/// Deleting a slot writes a zero header at its offset, then on a hard delete
/// `C` zeros right after it. A soft delete changes no byte but the header's
/// and leaves the payload as it was; a hard delete changes no byte outside
/// the slot and leaves the whole payload region zero.
pub proof fn lemma_delete_effect(img: Seq<u8>, c: nat, i: nat)
    ensures
        ({
            let off = slot_offset(c, i);
            let soft = overwrite(img, off, le_bytes(0));
            let hard = overwrite(soft, off + 4, zeros(c));
            &&& le_value(soft.subrange(off as int, off + 4 as int)) == 0
            &&& soft.len() == if img.len() > off + 4 { img.len() } else { off + 4 }
            &&& forall|k: int|
                0 <= k < img.len() && !(off <= k < off + 4) ==> #[trigger] soft[k] == img[k]
            &&& le_value(hard.subrange(off as int, off + 4 as int)) == 0
            &&& hard.subrange(off + 4 as int, off + 4 + c as int) == zeros(c)
            &&& hard.len() == if img.len() > off + 4 + c { img.len() } else { off + 4 + c }
            &&& forall|k: int|
                0 <= k < img.len() && !(off <= k < off + 4 + c) ==> #[trigger] hard[k] == img[k]
        }),
{
    let off = slot_offset(c, i);
    let soft = overwrite(img, off, le_bytes(0));
    let hard = overwrite(soft, off + 4, zeros(c));
    crate::codec::lemma_round_trip(0);
    assert(soft.subrange(off as int, off + 4 as int) =~= le_bytes(0));
    assert(hard.subrange(off as int, off + 4 as int) =~= le_bytes(0));
    assert(hard.subrange(off + 4 as int, off + 4 + c as int) =~= zeros(c));
}

} // verus!
