//! A storage device kept in memory: a run of bytes of a fixed length and a
//! cursor. It behaves as the storage contract asks of any device, and serves
//! where a wipe is to be tried out without a device at hand.

use crate::storage::Answer;
use crate::storage::Exchange;
use crate::storage::StorageAccess;
use crate::storage::StorageError;
use vstd::prelude::*;

verus! {

/// The error of a write that does not fit into what is left of a device, as
/// `std::io::Error::from` makes it from the kind `WriteZero`. Nothing is
/// claimed of it.
#[verifier::external_body]
fn out_of_space() -> (error: std::io::Error) {
    std::io::Error::from(std::io::ErrorKind::WriteZero)
}

/// A storage device in memory.
pub struct MemoryStorage {
    bytes: Vec<u8>,
    cursor: u64,
    log: Ghost<Seq<Exchange>>,
}

impl View for MemoryStorage {
    type V = Seq<u8>;

    /// The bytes of the device.
    closed spec fn view(&self) -> Seq<u8> {
        self.bytes@
    }
}

impl MemoryStorage {
    /// A device of `size` bytes, each of which is `value`, with the cursor at
    /// its start.
    pub fn new(size: usize, value: u8) -> (storage: MemoryStorage)
        ensures
            storage@.len() == size,
            forall|i: int| 0 <= i < size ==> storage@[i] == value,
            storage.cursor() == 0,
            storage.exchanges() == Seq::<Exchange>::empty(),
    {
        MemoryStorage { bytes: vec![value; size], cursor: 0, log: Ghost(Seq::empty()) }
    }

    /// A device that holds the given bytes, with the cursor at its start.
    pub fn with_bytes(bytes: Vec<u8>) -> (storage: MemoryStorage)
        ensures
            storage@ == bytes@,
            storage.cursor() == 0,
            storage.exchanges() == Seq::<Exchange>::empty(),
    {
        MemoryStorage { bytes, cursor: 0, log: Ghost(Seq::empty()) }
    }

    /// The bytes of the device.
    pub fn bytes(&self) -> (bytes: &Vec<u8>)
        ensures
            bytes@ == self@,
    {
        &self.bytes
    }
}

impl StorageAccess for MemoryStorage {
    open spec fn contents(&self) -> Seq<u8> {
        self@
    }

    closed spec fn cursor(&self) -> int {
        self.cursor as int
    }

    closed spec fn exchanges(&self) -> Seq<Exchange> {
        self.log@
    }

    /// A device in memory does whatever it is asked within the bytes it
    /// holds.
    open spec fn obliging(&self) -> bool {
        true
    }

    fn position(&mut self) -> (r: Result<u64, StorageError>)
        ensures
            r is Ok,
    {
        self.log = Ghost(self.log@.push(Exchange::Position { answer: Answer::Done }));
        Ok(self.cursor)
    }

    /// The cursor may be moved anywhere, also past the end of the device.
    fn seek(&mut self, position: u64) -> (r: Result<u64, StorageError>)
        ensures
            r is Ok,
    {
        self.cursor = position;
        self.log = Ghost(self.log@.push(Exchange::Seek { position, answer: Answer::Done }));
        Ok(position)
    }

    /// Reads what is left of the device from the cursor on, up to the length
    /// of the buffer.
    fn read(&mut self, buffer: &mut [u8]) -> (r: Result<usize, StorageError>)
        ensures
            r is Ok,
            r->Ok_0 == if old(self).cursor() >= old(self).contents().len() {
                0
            } else if old(self).contents().len() - old(self).cursor() < old(buffer)@.len() {
                old(self).contents().len() - old(self).cursor()
            } else {
                old(buffer)@.len() as int
            },
    {
        let len = self.bytes.len();
        if self.cursor >= len as u64 {
            self.log = Ghost(
                self.log@.push(
                    Exchange::Read {
                        at: self.cursor as int,
                        count: 0,
                        got: buffer@,
                        answer: Answer::Done,
                    },
                ),
            );
            return Ok(0);
        }
        let from = self.cursor as usize;
        let left = len - from;
        let count = if left < buffer.len() {
            left
        } else {
            buffer.len()
        };
        let mut i: usize = 0;
        while i < count
            invariant
                i <= count,
                count <= buffer@.len(),
                from + count <= self.bytes@.len(),
                self.bytes@.len() == len,
                buffer@.len() == old(buffer)@.len(),
                self.bytes@ == old(self).bytes@,
                self.cursor == old(self).cursor,
                self.log@ == old(self).log@,
                from == self.cursor,
                forall|k: int| 0 <= k < i ==> buffer@[k] == self.bytes@[from + k],
                forall|k: int| i <= k < buffer@.len() ==> buffer@[k] == old(buffer)@[k],
            decreases count - i,
        {
            buffer[i] = self.bytes[from + i];
            i = i + 1;
        }
        self.log = Ghost(
            self.log@.push(
                Exchange::Read {
                    at: self.cursor as int,
                    count: count as int,
                    got: buffer@,
                    answer: Answer::Done,
                },
            ),
        );
        self.cursor = self.cursor + count as u64;
        Ok(count)
    }

    /// Stores the data at the cursor, if it fits into what is left of the
    /// device. Data that does not fit is refused as a whole.
    fn write(&mut self, data: &[u8]) -> (r: Result<(), StorageError>)
        ensures
            r is Ok <==> old(self).cursor() + data@.len() <= old(self).contents().len(),
            r is Ok ==> final(self).contents().len() == old(self).contents().len(),
            r is Err ==> final(self).contents() == old(self).contents() && final(self).cursor()
                == old(self).cursor(),
    {
        let len = self.bytes.len();
        if self.cursor > len as u64 || data.len() > len - self.cursor as usize {
            let error = out_of_space();
            self.log = Ghost(
                self.log@.push(
                    Exchange::Write {
                        at: self.cursor as int,
                        data: data@,
                        answer: Answer::Failed(error),
                    },
                ),
            );
            return Err(StorageError::Other(error));
        }
        let from = self.cursor as usize;
        let ghost before = self.bytes@;
        let mut i: usize = 0;
        while i < data.len()
            invariant
                i <= data@.len(),
                from + data@.len() <= self.bytes@.len(),
                self.bytes@.len() == before.len(),
                self.bytes@.len() == len,
                before == old(self).bytes@,
                self.cursor == old(self).cursor,
                self.log@ == old(self).log@,
                from == self.cursor,
                forall|k: int| from <= k < from + i ==> self.bytes@[k] == data@[k - from],
                forall|k: int|
                    0 <= k < before.len() && !(from <= k < from + i) ==> self.bytes@[k]
                        == before[k],
            decreases data@.len() - i,
        {
            self.bytes[from + i] = data[i];
            i = i + 1;
        }
        self.log = Ghost(
            self.log@.push(
                Exchange::Write { at: self.cursor as int, data: data@, answer: Answer::Done },
            ),
        );
        self.cursor = self.cursor + data.len() as u64;
        Ok(())
    }

    fn flush(&mut self) -> (r: Result<(), StorageError>)
        ensures
            r is Ok,
    {
        self.log = Ghost(self.log@.push(Exchange::Flush { answer: Answer::Done }));
        Ok(())
    }
}

} // verus!
