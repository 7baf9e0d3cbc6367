use se1::error::{Error, ErrorKind};
use se1::io::{Handle, Outcome, Reply, Request, Step};
use se1::storage::Storage;

/// A file held in memory, with a reader and a writer position.
#[derive(Default)]
struct MemFile {
    bytes: Vec<u8>,
    reader: usize,
    writer: usize,
}

impl MemFile {
    fn perform(&mut self, request: Request) -> Reply {
        match request {
            Request::Seek(Handle::Reader, p) => {
                self.reader = p as usize;
                Reply::Position(p)
            }
            Request::Seek(Handle::Writer, p) => {
                self.writer = p as usize;
                Reply::Position(p)
            }
            Request::Read(n) => {
                let start = self.reader.min(self.bytes.len());
                let stop = (self.reader + n).min(self.bytes.len());
                let out = self.bytes[start..stop].to_vec();
                self.reader += out.len();
                Reply::Bytes(out)
            }
            Request::Write(data) => {
                let stop = self.writer + data.len();
                if self.bytes.len() < stop {
                    self.bytes.resize(stop, 0);
                }
                self.bytes[self.writer..stop].copy_from_slice(&data);
                self.writer = stop;
                Reply::Count(data.len())
            }
        }
    }
}

fn run(storage: &mut Storage, file: &mut MemFile, mut step: Step) -> Result<Outcome, Error> {
    loop {
        match step {
            Step::Perform(request) => step = storage.resume(file.perform(request)),
            Step::Done(result) => return result,
        }
    }
}

fn create(file: &mut MemFile, capacity: usize) -> Storage {
    file.bytes.clear();
    let (mut storage, request) = Storage::new(capacity);
    let done = run(&mut storage, file, Step::Perform(request));
    assert!(done.is_ok());
    storage
}

fn open(file: &mut MemFile) -> Result<Storage, Error> {
    let (mut storage, request) = Storage::open();
    run(&mut storage, file, Step::Perform(request)).map(|_| storage)
}

fn write(storage: &mut Storage, file: &mut MemFile, index: usize, data: &[u8]) -> u64 {
    let step = storage.write_block(index, data.to_vec());
    run(storage, file, step).unwrap().cursor
}

fn read(storage: &mut Storage, file: &mut MemFile, index: usize) -> (u64, Vec<u8>) {
    let step = storage.read_block(index);
    let out = run(storage, file, step).unwrap();
    (out.cursor, out.payload)
}

fn delete(storage: &mut Storage, file: &mut MemFile, index: usize, hard: bool) -> u64 {
    let step = storage.delete_block(index, hard);
    run(storage, file, step).unwrap().cursor
}

fn fail_code(step: Step) -> (ErrorKind, i32) {
    match step {
        Step::Done(Err(e)) => (e.kind, e.code),
        _ => panic!("expected a failed step"),
    }
}

fn expect_write(step: &Step) -> Vec<u8> {
    match step {
        Step::Perform(Request::Write(b)) => b.clone(),
        _ => panic!("expected a write request"),
    }
}

#[test]
fn offset_law_with_capacity_sixteen() {
    let mut file = MemFile::default();
    let mut storage = create(&mut file, 16);
    assert_eq!(write(&mut storage, &mut file, 0, &[1, 2, 3]), 11);
    assert_eq!(write(&mut storage, &mut file, 1, &[7; 16]), 44);
    assert_eq!(write(&mut storage, &mut file, 2, &[]), 48);
    assert_eq!(write(&mut storage, &mut file, 3, &[5]), 4 + 3 * 20 + 4 + 1);
}

#[test]
fn scenario_capacity_eight_reopen() {
    let mut file = MemFile::default();
    let mut storage = create(&mut file, 8);
    assert_eq!(write(&mut storage, &mut file, 0, &[1, 2, 3, 4, 5, 6, 7, 8]), 16);
    assert_eq!(write(&mut storage, &mut file, 1, &[9, 10, 11, 12, 13, 14, 15, 16]), 28);
    assert_eq!(write(&mut storage, &mut file, 2, &[17, 18, 19, 20]), 36);
    assert_eq!(read(&mut storage, &mut file, 2), (36, vec![17, 18, 19, 20]));
    assert_eq!(read(&mut storage, &mut file, 0), (16, vec![1, 2, 3, 4, 5, 6, 7, 8]));
    assert_eq!(read(&mut storage, &mut file, 3), (16, vec![]));
    assert_eq!(delete(&mut storage, &mut file, 0, false), 8);
    assert_eq!(delete(&mut storage, &mut file, 0, true), 16);
    assert_eq!(&file.bytes[4..16], &[0u8; 12]);
    assert_eq!(delete(&mut storage, &mut file, 1, false), 20);
    let reopened = open(&mut file).unwrap();
    assert_eq!(reopened.free_slots(), vec![0, 1]);
    assert_eq!(reopened.end_slot_count(), 3);
    assert_eq!(reopened.block_len(), 8);
    assert_eq!(reopened.read_pointer(), 40);
}

#[test]
fn free_set_survives_reopen() {
    let mut file = MemFile::default();
    let mut storage = create(&mut file, 4);
    for i in 0..6 {
        write(&mut storage, &mut file, i, &[i as u8 + 1]);
    }
    delete(&mut storage, &mut file, 4, false);
    delete(&mut storage, &mut file, 1, true);
    write(&mut storage, &mut file, 4, &[9, 9]);
    delete(&mut storage, &mut file, 5, false);
    delete(&mut storage, &mut file, 2, false);
    assert_eq!(storage.free_slots(), vec![1, 2, 5]);
    let reopened = open(&mut file).unwrap();
    assert_eq!(reopened.free_slots(), storage.free_slots());
    assert_eq!(reopened.end_slot_count(), storage.end_slot_count());
}

#[test]
fn empty_reads_repeat_without_moving_the_cursor() {
    let mut file = MemFile::default();
    let mut storage = create(&mut file, 8);
    write(&mut storage, &mut file, 0, &[1, 2]);
    write(&mut storage, &mut file, 1, &[3]);
    assert_eq!(read(&mut storage, &mut file, 1), (21, vec![3]));
    delete(&mut storage, &mut file, 0, false);
    for _ in 0..3 {
        assert_eq!(read(&mut storage, &mut file, 0), (21, vec![]));
        assert_eq!(read(&mut storage, &mut file, 7), (21, vec![]));
        assert_eq!(read(&mut storage, &mut file, usize::MAX), (21, vec![]));
    }
    let (fresh, request) = Storage::new(8);
    assert!(matches!(request, Request::Seek(Handle::Writer, 0)));
    assert!(fresh.is_empty_block(0));
}

#[test]
fn soft_delete_keeps_payload_hard_delete_scrubs_it() {
    let mut file = MemFile::default();
    let mut storage = create(&mut file, 6);
    write(&mut storage, &mut file, 0, &[1, 2, 3, 4, 5, 6]);
    write(&mut storage, &mut file, 1, &[7, 8, 9]);
    assert_eq!(delete(&mut storage, &mut file, 0, false), 8);
    assert_eq!(&file.bytes[4..8], &[0, 0, 0, 0]);
    assert_eq!(&file.bytes[8..14], &[1, 2, 3, 4, 5, 6]);
    assert_eq!(delete(&mut storage, &mut file, 1, true), 24);
    assert_eq!(&file.bytes[14..18], &[0, 0, 0, 0]);
    assert_eq!(&file.bytes[18..24], &[0u8; 6]);
    assert_eq!(storage.free_slots(), vec![0, 1]);
}

#[test]
fn delete_noops_report_the_write_cursor() {
    let mut file = MemFile::default();
    let mut storage = create(&mut file, 8);
    assert_eq!(write(&mut storage, &mut file, 0, &[1]), 9);
    assert_eq!(delete(&mut storage, &mut file, 5, true), 9);
    assert_eq!(delete(&mut storage, &mut file, 0, false), 8);
    let before = file.bytes.clone();
    assert_eq!(delete(&mut storage, &mut file, 0, false), 8);
    assert_eq!(file.bytes, before);
    assert!(storage.is_idle());
    assert_eq!(storage.write_pointer(), 8);
}

#[test]
fn write_past_the_end_frees_the_skipped_slots() {
    let mut file = MemFile::default();
    let mut storage = create(&mut file, 4);
    assert_eq!(write(&mut storage, &mut file, 2, &[1, 2]), 4 + 2 * 8 + 4 + 2);
    assert_eq!(storage.end_slot_count(), 3);
    assert_eq!(storage.free_slots(), vec![0, 1]);
    assert!(storage.block_exists(1));
    assert!(!storage.block_exists(3));
    assert_eq!(read(&mut storage, &mut file, 1), (0, vec![]));
    // a later write past the end adds to the slots already free
    write(&mut storage, &mut file, 5, &[3]);
    assert_eq!(storage.free_slots(), vec![0, 1, 3, 4]);
    write(&mut storage, &mut file, 1, &[4]);
    assert_eq!(storage.free_slots(), vec![0, 3, 4]);
    // the reopened file agrees
    let reopened = open(&mut file).unwrap();
    assert_eq!(reopened.free_slots(), storage.free_slots());
    assert_eq!(reopened.end_slot_count(), 6);
    // a write past the end of a fresh file, then a reopen
    let mut file = MemFile::default();
    let mut storage = create(&mut file, 8);
    write(&mut storage, &mut file, 1, &[7]);
    assert_eq!(storage.free_slots(), vec![0]);
    let reopened = open(&mut file).unwrap();
    assert_eq!(reopened.free_slots(), vec![0]);
    assert_eq!(reopened.end_slot_count(), 2);
}

#[test]
fn empty_write_leaves_the_slot_free() {
    let mut file = MemFile::default();
    let mut storage = create(&mut file, 8);
    write(&mut storage, &mut file, 0, &[1, 2, 3]);
    write(&mut storage, &mut file, 1, &[4]);
    assert_eq!(read(&mut storage, &mut file, 1), (21, vec![4]));
    // an empty payload over a used slot
    assert_eq!(write(&mut storage, &mut file, 0, &[]), 8);
    assert_eq!(&file.bytes[4..8], &[0, 0, 0, 0]);
    assert_eq!(storage.free_slots(), vec![0]);
    assert_eq!(read(&mut storage, &mut file, 0), (21, vec![]));
    // an empty payload past the end
    assert_eq!(write(&mut storage, &mut file, 3, &[]), 4 + 3 * 12 + 4);
    assert_eq!(storage.free_slots(), vec![0, 2, 3]);
    assert_eq!(storage.end_slot_count(), 4);
    let mut reopened = open(&mut file).unwrap();
    assert_eq!(reopened.free_slots(), storage.free_slots());
    assert_eq!(reopened.end_slot_count(), 4);
    assert_eq!(read(&mut reopened, &mut file, 0), (reopened.read_pointer(), vec![]));
    // a non-empty write takes the slot back
    write(&mut storage, &mut file, 0, &[9]);
    assert_eq!(storage.free_slots(), vec![2, 3]);
}

#[test]
fn plan_write_prefers_free_slots() {
    let mut file = MemFile::default();
    let mut storage = create(&mut file, 8);
    assert_eq!(storage.plan_write(0), Vec::<u32>::new());
    assert_eq!(storage.plan_write(20), vec![0, 1, 2]);
    assert_eq!(storage.plan_write(16), vec![0, 1]);
    for i in 0..4 {
        write(&mut storage, &mut file, i, &[1; 8]);
    }
    delete(&mut storage, &mut file, 2, false);
    delete(&mut storage, &mut file, 0, true);
    assert_eq!(storage.plan_write(1), vec![0]);
    assert_eq!(storage.plan_write(17), vec![0, 2, 4]);
    assert_eq!(storage.plan_write(40), vec![0, 2, 4, 5, 6]);
}

#[test]
fn write_fits_checks_payload_and_index() {
    let mut file = MemFile::default();
    let storage = create(&mut file, 8);
    assert!(storage.write_fits(0, 8));
    assert!(!storage.write_fits(0, 9));
    assert!(!storage.write_fits(u32::MAX as usize, 1));
    assert!(storage.write_fits(u32::MAX as usize - 1, 1));
}

#[test]
fn write_errors_carry_their_codes() {
    let mut file = MemFile::default();
    let mut storage = create(&mut file, 8);
    let _ = storage.write_block(1, vec![1, 2]);
    assert_eq!(fail_code(storage.resume(Reply::Position(3))), (ErrorKind::Seek, 5));
    let _ = storage.write_block(1, vec![1, 2]);
    assert_eq!(fail_code(storage.resume(Reply::Failed)), (ErrorKind::Seek, 5));

    let _ = storage.write_block(1, vec![1, 2]);
    let header = storage.resume(Reply::Position(16));
    assert_eq!(expect_write(&header), vec![2, 0, 0, 0]);
    assert_eq!(fail_code(storage.resume(Reply::Failed)), (ErrorKind::Io, 6));

    let _ = storage.write_block(1, vec![1, 2]);
    let _ = storage.resume(Reply::Position(16));
    assert_eq!(fail_code(storage.resume(Reply::Count(3))), (ErrorKind::Io, 8));

    let _ = storage.write_block(1, vec![1, 2]);
    let _ = storage.resume(Reply::Position(16));
    let payload = storage.resume(Reply::Count(4));
    assert_eq!(expect_write(&payload), vec![1, 2]);
    assert_eq!(fail_code(storage.resume(Reply::Failed)), (ErrorKind::Io, 7));

    let _ = storage.write_block(1, vec![1, 2]);
    let _ = storage.resume(Reply::Position(16));
    let _ = storage.resume(Reply::Count(4));
    assert_eq!(fail_code(storage.resume(Reply::Count(1))), (ErrorKind::Io, 9));
    // nothing was committed
    assert_eq!(storage.end_slot_count(), 0);
    assert!(storage.is_idle());
}

#[test]
fn read_errors_carry_their_codes() {
    let mut file = MemFile::default();
    let mut storage = create(&mut file, 8);
    write(&mut storage, &mut file, 0, &[1, 2, 3]);
    let _ = storage.read_block(0);
    assert_eq!(fail_code(storage.resume(Reply::Position(5))), (ErrorKind::Seek, 3));
    let _ = storage.read_block(0);
    let _ = storage.resume(Reply::Position(4));
    assert_eq!(fail_code(storage.resume(Reply::Bytes(vec![3, 0]))), (ErrorKind::Io, 3));
    let _ = storage.read_block(0);
    let _ = storage.resume(Reply::Position(4));
    let payload = storage.resume(Reply::Bytes(vec![3, 0, 0, 0]));
    assert!(matches!(payload, Step::Perform(Request::Read(3))));
    assert_eq!(fail_code(storage.resume(Reply::Bytes(vec![1, 2]))), (ErrorKind::Io, 4));
    let _ = storage.read_block(0);
    let _ = storage.resume(Reply::Position(4));
    let _ = storage.resume(Reply::Bytes(vec![3, 0, 0, 0]));
    assert_eq!(fail_code(storage.resume(Reply::Failed)), (ErrorKind::Io, 4));
}

#[test]
fn delete_errors_carry_their_codes() {
    let mut file = MemFile::default();
    let mut storage = create(&mut file, 8);
    write(&mut storage, &mut file, 0, &[1, 2, 3]);
    let _ = storage.delete_block(0, true);
    assert_eq!(fail_code(storage.resume(Reply::Position(0))), (ErrorKind::Seek, 10));
    let _ = storage.delete_block(0, true);
    let _ = storage.resume(Reply::Position(4));
    assert_eq!(fail_code(storage.resume(Reply::Failed)), (ErrorKind::Io, 11));
    let _ = storage.delete_block(0, true);
    let _ = storage.resume(Reply::Position(4));
    assert_eq!(fail_code(storage.resume(Reply::Count(2))), (ErrorKind::Io, 12));
    let _ = storage.delete_block(0, true);
    let _ = storage.resume(Reply::Position(4));
    let scrub = storage.resume(Reply::Count(4));
    assert_eq!(expect_write(&scrub), vec![0u8; 8]);
    assert_eq!(fail_code(storage.resume(Reply::Failed)), (ErrorKind::Io, 13));
    let _ = storage.delete_block(0, true);
    let _ = storage.resume(Reply::Position(4));
    let _ = storage.resume(Reply::Count(4));
    assert_eq!(fail_code(storage.resume(Reply::Count(7))), (ErrorKind::Io, 14));
    assert!(storage.free_slots().is_empty());
}

#[test]
fn create_and_open_errors_carry_their_codes() {
    let (mut storage, _) = Storage::new(8);
    assert_eq!(fail_code(storage.resume(Reply::Failed)), (ErrorKind::Io, 2));
    let (mut storage, _) = Storage::new(8);
    let header = storage.resume(Reply::Position(0));
    assert_eq!(expect_write(&header), vec![8, 0, 0, 0]);
    assert_eq!(fail_code(storage.resume(Reply::Count(2))), (ErrorKind::Io, 2));

    // an empty file has no header
    let mut file = MemFile::default();
    let e = open(&mut file).err().unwrap();
    assert_eq!((e.kind, e.code), (ErrorKind::Io, 2));
    // a failed header read during the scan
    let (mut storage, _) = Storage::open();
    let _ = storage.resume(Reply::Position(0));
    let _ = storage.resume(Reply::Bytes(vec![8, 0, 0, 0]));
    let _ = storage.resume(Reply::Position(4));
    assert_eq!(fail_code(storage.resume(Reply::Failed)), (ErrorKind::Io, 2));
    // a seek that lands elsewhere during the scan
    let (mut storage, _) = Storage::open();
    let _ = storage.resume(Reply::Position(0));
    let _ = storage.resume(Reply::Bytes(vec![8, 0, 0, 0]));
    assert_eq!(fail_code(storage.resume(Reply::Position(5))), (ErrorKind::Seek, 3));
}

#[test]
fn open_of_a_file_with_only_a_header() {
    let mut file = MemFile { bytes: vec![16, 0, 0, 0], ..MemFile::default() };
    let storage = open(&mut file).unwrap();
    assert_eq!(storage.block_len(), 16);
    assert_eq!(storage.end_slot_count(), 0);
    assert!(storage.free_slots().is_empty());
    assert_eq!(storage.read_pointer(), 4);
    assert_eq!(storage.write_pointer(), 0);
}

#[test]
fn scan_ends_at_a_header_cut_short() {
    let mut file = MemFile { bytes: vec![8, 0, 0, 0, 0, 0, 0, 0], ..MemFile::default() };
    file.bytes.extend([0u8; 8]);
    file.bytes.extend([1, 0]);
    let storage = open(&mut file).unwrap();
    assert_eq!(storage.end_slot_count(), 1);
    assert_eq!(storage.free_slots(), vec![0]);
    assert_eq!(storage.read_pointer(), 16);
}

#[test]
fn error_constructor_keeps_its_fields() {
    let e = Error::new(ErrorKind::Seek, 5, "Could not seek to block offset");
    assert_eq!(e.kind, ErrorKind::Seek);
    assert_eq!(e.code, 5);
    assert_eq!(e.message, "Could not seek to block offset");
}
