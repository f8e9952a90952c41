//! The storage boundary: the random-access byte interface the wipe engine
//! drives, its error classes, and the descriptions of storage devices.

use vstd::prelude::*;
use vstd::string::StringExecFns;

pub mod discovery;
pub mod memory;

verus! {

/// An error of the standard library's input and output. The proofs carry it
/// along and never look inside.
#[verifier::external_type_specification]
#[verifier::external_body]
pub struct ExIoError(std::io::Error);

/// The category of an error of the standard library's input and output. The
/// proofs carry it along and never look inside.
#[verifier::external_type_specification]
#[verifier::external_body]
pub struct ExIoErrorKind(std::io::ErrorKind);

/// How a storage operation can fail.
#[derive(Debug)]
pub enum StorageError {
    /// The medium reported a sector-level failure at the current position.
    BadBlock,
    /// Any other failure of the underlying device or file.
    Other(std::io::Error),
}

/// The operating system family whose error codes are being interpreted.
#[derive(Clone, Copy, Debug, PartialEq, Eq, Structural)]
pub enum OsFamily {
    Posix,
    Windows,
}

/// POSIX `EIO`: low-level input/output error.
pub const POSIX_EIO: i32 = 5;

/// POSIX `ESPIPE`: illegal seek.
pub const POSIX_ESPIPE: i32 = 29;

/// Windows `ERROR_CRC`: data error (cyclic redundancy check).
pub const WINDOWS_ERROR_CRC: i32 = 23;

/// Windows `ERROR_SEEK`: the drive cannot locate a specific area or track.
pub const WINDOWS_ERROR_SEEK: i32 = 25;

/// Windows `ERROR_SECTOR_NOT_FOUND`: the drive cannot find the sector requested.
pub const WINDOWS_ERROR_SECTOR_NOT_FOUND: i32 = 27;

/// Windows `ERROR_WRITE_FAULT`: the system cannot write to the device.
pub const WINDOWS_ERROR_WRITE_FAULT: i32 = 29;

/// Windows `ERROR_READ_FAULT`: the system cannot read from the device.
pub const WINDOWS_ERROR_READ_FAULT: i32 = 30;

/// Whether an operating system error code stands for a failure of the medium
/// itself, as opposed to any other failure.
pub open spec fn is_media_failure(family: OsFamily, code: i32) -> bool {
    match family {
        OsFamily::Posix => code == POSIX_EIO || code == POSIX_ESPIPE,
        OsFamily::Windows => {
            code == WINDOWS_ERROR_CRC || code == WINDOWS_ERROR_SEEK || code
                == WINDOWS_ERROR_SECTOR_NOT_FOUND || code == WINDOWS_ERROR_WRITE_FAULT || code
                == WINDOWS_ERROR_READ_FAULT
        },
    }
}

/// Decides whether an operating system error code stands for a media failure.
pub fn media_failure(family: OsFamily, code: i32) -> (bad: bool)
    ensures
        bad == is_media_failure(family, code),
{
    match family {
        OsFamily::Posix => code == POSIX_EIO || code == POSIX_ESPIPE,
        OsFamily::Windows => {
            code == WINDOWS_ERROR_CRC || code == WINDOWS_ERROR_SEEK || code
                == WINDOWS_ERROR_SECTOR_NOT_FOUND || code == WINDOWS_ERROR_WRITE_FAULT || code
                == WINDOWS_ERROR_READ_FAULT
        },
    }
}

/// The operating system's code that an error carries, if it carries one. An
/// error is opaque here, so the code has a name and no definition; it is the
/// error's own and the same whenever it is asked for.
pub uninterp spec fn os_code(error: std::io::Error) -> Option<i32>;

/// The category that an error belongs to. It has a name and no definition,
/// as the code has.
pub uninterp spec fn error_kind(error: std::io::Error) -> std::io::ErrorKind;

/// The operating system's code for an error, if it has one: what
/// `std::io::Error::raw_os_error` returns. Nothing is claimed of the code but
/// that it is the one the error carries.
#[verifier::external_body]
fn raw_os_error(error: &std::io::Error) -> (code: Option<i32>)
    ensures
        code == os_code(*error),
{
    error.raw_os_error()
}

/// The category of an error, as `std::io::Error::kind` reports it. Nothing is
/// claimed of the category but that it is the error's own.
#[verifier::external_body]
pub(crate) fn io_error_kind(error: &std::io::Error) -> (kind: std::io::ErrorKind)
    ensures
        kind == error_kind(*error),
{
    error.kind()
}

/// The text of an error, as its `Display` implementation renders it. Nothing
/// is claimed of the text.
#[verifier::external_body]
pub(crate) fn io_error_text(error: &std::io::Error) -> (text: String) {
    format!("{}", error)
}

impl StorageError {
    /// The class of an error whose operating system code is `code`.
    pub open spec fn classified(
        code: Option<i32>,
        family: OsFamily,
        error: std::io::Error,
    ) -> StorageError {
        match code {
            Some(c) if is_media_failure(family, c) => StorageError::BadBlock,
            _ => StorageError::Other(error),
        }
    }

    /// Classifies an error by its operating system code: media failures
    /// become `BadBlock`, everything else is kept as it came.
    pub fn classify(code: Option<i32>, family: OsFamily, error: std::io::Error) -> (class:
        StorageError)
        ensures
            class == Self::classified(code, family, error),
    {
        match code {
            Some(c) => {
                if media_failure(family, c) {
                    StorageError::BadBlock
                } else {
                    StorageError::Other(error)
                }
            },
            None => StorageError::Other(error),
        }
    }

    /// Classifies an error of the operating system by the code it carries:
    /// a bad block where the code tells of a failure of the medium, and the
    /// error unchanged otherwise, also where it carries no code.
    pub fn from(error: std::io::Error, family: OsFamily) -> (class: StorageError)
        ensures
            class == Self::classified(os_code(error), family, error),
    {
        let code = raw_os_error(&error);
        Self::classify(code, family, error)
    }

    /// A short description of the error class.
    pub fn message(&self) -> (text: String)
        ensures
            self is BadBlock ==> text@ == "bad block"@,
            self is Other ==> text@ == "other i/o error"@,
    {
        match self {
            StorageError::BadBlock => "bad block".to_owned(),
            StorageError::Other(_) => "other i/o error".to_owned(),
        }
    }
}

/// Whether `after` is `before` with `data` stored at offset `at`: the written
/// range holds the data, every other byte is as it was, and nothing was lost.
pub open spec fn stored(before: Seq<u8>, at: int, data: Seq<u8>, after: Seq<u8>) -> bool {
    &&& after.len() >= before.len()
    &&& after.len() >= at + data.len()
    &&& forall|j: int| at <= j < at + data.len() ==> #[trigger] after[j] == data[j - at]
    &&& forall|j: int|
        0 <= j < before.len() && !(at <= j < at + data.len()) ==> #[trigger] after[j] == before[j]
}

/// Whether `after` agrees with `before` on every byte outside of the range of
/// `len` bytes starting at `at`.
pub open spec fn intact_outside(before: Seq<u8>, at: int, len: int, after: Seq<u8>) -> bool {
    &&& after.len() >= before.len()
    &&& forall|j: int|
        0 <= j < before.len() && !(at <= j < at + len) ==> #[trigger] after[j] == before[j]
}

/// How a device answered a request.
pub enum Answer {
    /// The device did as it was asked.
    Done,
    /// The device reported a failure of the medium.
    BadBlock,
    /// The device failed in some other way.
    Failed(std::io::Error),
}

/// The answer that the result of a storage operation stands for.
pub open spec fn answer_of<T>(result: Result<T, StorageError>) -> Answer {
    match result {
        Ok(_) => Answer::Done,
        Err(StorageError::BadBlock) => Answer::BadBlock,
        Err(StorageError::Other(cause)) => Answer::Failed(cause),
    }
}

/// One request made of a device, with what was handed to it and how it
/// answered.
pub enum Exchange {
    /// The device was asked where its cursor is.
    Position { answer: Answer },
    /// The device was asked to move its cursor to `position`.
    Seek { position: u64, answer: Answer },
    /// The device was asked to read at the offset `at`. It delivered `count`
    /// bytes, and `got` is what the buffer held when it answered.
    Read { at: int, count: int, got: Seq<u8>, answer: Answer },
    /// The device was asked to write `data` at the offset `at`.
    Write { at: int, data: Seq<u8>, answer: Answer },
    /// The device was asked to commit what was written.
    Flush { answer: Answer },
}

/// Random access to the bytes of a storage device.
///
/// The engine reasons about a device through observations that exist in
/// proofs only: the bytes the device holds, the offset of its cursor, the
/// exchanges it has had so far, in order, and whether the device is
/// obliging, which is to say that it does whatever it is asked within the
/// bytes it holds. An implementation need not define them; whoever implements the trait promises that the operations
/// act on the device as the method contracts say, in particular that a write
/// which reports success has stored exactly the data it was given, and that a
/// failed write has disturbed nothing outside of the range it was aimed at.
/// Nothing checks that promise for an implementation outside of this
/// library, and what is proved of a wipe holds as far as the device keeps it.
pub trait StorageAccess {
    /// The bytes the device holds, by offset.
    open spec fn contents(&self) -> Seq<u8> {
        arbitrary()
    }

    /// The offset at which the next read or write takes place.
    open spec fn cursor(&self) -> int {
        arbitrary()
    }

    /// The requests made of the device so far and how it answered them,
    /// oldest first.
    open spec fn exchanges(&self) -> Seq<Exchange> {
        arbitrary()
    }

    /// Whether the device does whatever it is asked within the bytes it
    /// holds: it moves its cursor there, reads and writes there in full, and
    /// commits what was written. A device that may fail says nothing here.
    open spec fn obliging(&self) -> bool {
        arbitrary()
    }

    /// Reports the current offset.
    fn position(&mut self) -> (r: Result<u64, StorageError>)
        ensures
            final(self).contents() == old(self).contents(),
            final(self).cursor() == old(self).cursor(),
            r matches Ok(p) ==> p == old(self).cursor(),
            final(self).exchanges() == old(self).exchanges().push(
                Exchange::Position { answer: answer_of(r) },
            ),
            old(self).obliging() ==> final(self).obliging() && r is Ok,
    ;

    /// Moves the cursor to `position`, forwards or backwards.
    fn seek(&mut self, position: u64) -> (r: Result<u64, StorageError>)
        ensures
            final(self).contents() == old(self).contents(),
            r matches Ok(p) ==> p == position && final(self).cursor() == position,
            final(self).exchanges() == old(self).exchanges().push(
                Exchange::Seek { position, answer: answer_of(r) },
            ),
            old(self).obliging() ==> final(self).obliging() && (position <= old(
                self,
            ).contents().len() ==> r is Ok),
    ;

    /// Reads from the cursor on into `buffer`; at the end of the device fewer
    /// bytes than the buffer holds may arrive. What arrives is what the device
    /// holds at the cursor; the rest of the buffer is left as it was.
    fn read(&mut self, buffer: &mut [u8]) -> (r: Result<usize, StorageError>)
        ensures
            final(self).contents() == old(self).contents(),
            final(buffer)@.len() == old(buffer)@.len(),
            r matches Ok(n) ==> {
                &&& n <= old(buffer)@.len()
                &&& final(self).cursor() == old(self).cursor() + n
                &&& forall|i: int|
                    0 <= i < n ==> 0 <= old(self).cursor() + i < old(self).contents().len()
                        && #[trigger] final(buffer)@[i] == old(self).contents()[old(
                        self,
                    ).cursor() + i]
                &&& forall|i: int|
                    n <= i < old(buffer)@.len() ==> #[trigger] final(buffer)@[i] == old(
                        buffer,
                    )@[i]
            },
            final(self).exchanges() == old(self).exchanges().push(
                Exchange::Read {
                    at: old(self).cursor(),
                    count: match r {
                        Ok(n) => n as int,
                        Err(_) => 0,
                    },
                    got: final(buffer)@,
                    answer: answer_of(r),
                },
            ),
            old(self).obliging() ==> final(self).obliging() && (0 <= old(self).cursor() && old(
                self,
            ).cursor() + old(buffer)@.len() <= old(self).contents().len() ==> (r matches Ok(n)
                && n == old(buffer)@.len())),
    ;

    /// Writes all of `data` at the cursor, or fails.
    fn write(&mut self, data: &[u8]) -> (r: Result<(), StorageError>)
        ensures
            r is Ok ==> {
                &&& stored(
                    old(self).contents(),
                    old(self).cursor(),
                    data@,
                    final(self).contents(),
                )
                &&& final(self).cursor() == old(self).cursor() + data@.len()
            },
            r is Err ==> intact_outside(
                old(self).contents(),
                old(self).cursor(),
                data@.len() as int,
                final(self).contents(),
            ),
            final(self).exchanges() == old(self).exchanges().push(
                Exchange::Write { at: old(self).cursor(), data: data@, answer: answer_of(r) },
            ),
            old(self).obliging() ==> final(self).obliging() && (0 <= old(self).cursor() && old(
                self,
            ).cursor() + data@.len() <= old(self).contents().len() ==> r is Ok),
    ;

    /// Commits outstanding writes to the device.
    fn flush(&mut self) -> (r: Result<(), StorageError>)
        ensures
            final(self).contents() == old(self).contents(),
            final(self).cursor() == old(self).cursor(),
            final(self).exchanges() == old(self).exchanges().push(
                Exchange::Flush { answer: answer_of(r) },
            ),
            old(self).obliging() ==> final(self).obliging() && r is Ok,
    ;
}

/// What kind of thing a storage device is.
#[derive(Clone, Copy, Debug, PartialEq, Eq, Structural)]
pub enum StorageType {
    Unknown,
    File,
    Partition,
    Fixed,
    Removable,
    CD,
    Network,
    RAID,
    Other,
}

impl StorageType {
    /// The name of the kind, as it is shown to people.
    pub fn name(&self) -> (text: String)
        ensures
            text@ == match *self {
                StorageType::Unknown => "Unknown"@,
                StorageType::File => "File"@,
                StorageType::Partition => "Partition"@,
                StorageType::Fixed => "Fixed"@,
                StorageType::Removable => "Removable"@,
                StorageType::CD => "CD"@,
                StorageType::Network => "Network"@,
                StorageType::RAID => "RAID"@,
                StorageType::Other => "Other"@,
            },
    {
        match self {
            StorageType::Unknown => String::from_str("Unknown"),
            StorageType::File => String::from_str("File"),
            StorageType::Partition => String::from_str("Partition"),
            StorageType::Fixed => String::from_str("Fixed"),
            StorageType::Removable => String::from_str("Removable"),
            StorageType::CD => String::from_str("CD"),
            StorageType::Network => String::from_str("Network"),
            StorageType::RAID => String::from_str("RAID"),
            StorageType::Other => String::from_str("Other"),
        }
    }
}

/// What a storage device keeps its data on.
#[derive(Clone, Copy, Debug, PartialEq, Eq, Structural)]
pub enum MediaType {
    Unknown,
    Rotational,
    SolidState,
    Other,
}

/// What is known of a storage device.
#[derive(Debug, Clone)]
pub struct StorageDetails {
    pub size: u64,
    pub block_size: usize,
    pub storage_type: StorageType,
    pub media_type: MediaType,
    pub is_trim_supported: bool,
    pub serial: Option<String>,
    pub mount_point: Option<String>,
}

impl Default for StorageDetails {
    /// The details of a device of which nothing is known.
    fn default() -> (details: StorageDetails)
        ensures
            details == (StorageDetails {
                size: 0,
                block_size: 0,
                storage_type: StorageType::Unknown,
                media_type: MediaType::Unknown,
                is_trim_supported: false,
                serial: None,
                mount_point: None,
            }),
    {
        StorageDetails {
            size: 0,
            block_size: 0,
            storage_type: StorageType::Unknown,
            media_type: MediaType::Unknown,
            is_trim_supported: false,
            serial: None,
            mount_point: None,
        }
    }
}

/// A storage device that can be named and described.
pub trait StorageRef {
    /// The identifier under which the system knows the device.
    fn id(&self) -> &str;

    /// What is known of the device.
    fn details(&self) -> &StorageDetails;
}

/// A storage device that the system presents as a file.
#[derive(Debug, Clone)]
pub struct FileRef {
    path: String,
    details: StorageDetails,
}

impl FileRef {
    /// The reference to the device at `path`, of which `details` are known.
    pub fn new(path: &str, details: StorageDetails) -> (file: FileRef)
        ensures
            file.path() == path@,
            file.described() == details,
    {
        FileRef { path: String::from_str(path), details }
    }

    /// The path of the device.
    pub closed spec fn path(&self) -> Seq<char> {
        self.path@
    }

    /// The details the reference was made with.
    pub closed spec fn described(&self) -> StorageDetails {
        self.details
    }
}

impl StorageRef for FileRef {
    fn id(&self) -> (id: &str)
        ensures
            id@ == self.path(),
    {
        self.path.as_str()
    }

    fn details(&self) -> (details: &StorageDetails)
        ensures
            *details == self.described(),
    {
        &self.details
    }
}

/// A storage device together with the devices that are parts of it, as the
/// partitions of a drive are.
#[derive(Debug)]
pub struct DeviceRef {
    pub id: String,
    pub details: StorageDetails,
    pub children: Vec<DeviceRef>,
}

impl StorageRef for DeviceRef {
    fn id(&self) -> (id: &str)
        ensures
            id@ == self.id@,
    {
        self.id.as_str()
    }

    fn details(&self) -> (details: &StorageDetails)
        ensures
            *details == self.details,
    {
        &self.details
    }
}

/// What kind of file a device file is.
#[derive(Clone, Copy, Debug, PartialEq, Eq, Structural)]
pub enum FileType {
    File,
    Block,
    Raw,
    Other,
}

/// The bits of a POSIX file mode that hold the file's type.
pub const MODE_TYPE_MASK: u32 = 0o170000;

/// The type bits of a regular file.
pub const MODE_REGULAR: u32 = 0o100000;

/// The type bits of a block device.
pub const MODE_BLOCK_DEVICE: u32 = 0o060000;

/// The type bits of a character device.
pub const MODE_CHARACTER_DEVICE: u32 = 0o020000;

/// The kind of file that a POSIX file mode stands for.
pub open spec fn file_type_of(mode: u32) -> FileType {
    let kind = mode & MODE_TYPE_MASK;
    if kind == MODE_REGULAR {
        FileType::File
    } else if kind == MODE_BLOCK_DEVICE {
        FileType::Block
    } else if kind == MODE_CHARACTER_DEVICE {
        FileType::Raw
    } else {
        FileType::Other
    }
}

/// Reads the kind of a file off its POSIX mode.
pub fn resolve_file_type(mode: u32) -> (file_type: FileType)
    ensures
        file_type == file_type_of(mode),
{
    let kind = mode & MODE_TYPE_MASK;
    if kind == MODE_REGULAR {
        FileType::File
    } else if kind == MODE_BLOCK_DEVICE {
        FileType::Block
    } else if kind == MODE_CHARACTER_DEVICE {
        FileType::Raw
    } else {
        FileType::Other
    }
}

/// The size of a storage: that of the device for a block or raw device, that
/// of the file for anything else.
pub fn resolve_storage_size(file_type: FileType, file_size: u64, device_size: u64) -> (size: u64)
    ensures
        size == if file_type == FileType::Block || file_type == FileType::Raw {
            device_size
        } else {
            file_size
        },
{
    match file_type {
        FileType::Block | FileType::Raw => device_size,
        _ => file_size,
    }
}

/// The bit by which a disk driver says that it can discard unused blocks.
pub const FEATURE_UNMAP: u32 = 0x0000_0010;

/// Whether a device with the given feature bits supports discarding blocks.
pub fn is_trim_supported(features: u32) -> (supported: bool)
    ensures
        supported == (features & FEATURE_UNMAP != 0),
{
    (features & FEATURE_UNMAP) > 0
}

/// One line of a device description: a key and what is said under it.
#[derive(Debug, Clone)]
pub struct Property {
    pub key: String,
    pub value: String,
}

/// What a description says under `key`: where a key occurs more than once,
/// the last word counts.
pub open spec fn said(properties: Seq<Property>, key: Seq<char>) -> Option<Seq<char>>
    decreases properties.len(),
{
    if properties.len() == 0 {
        None
    } else if properties.last().key@ == key {
        Some(properties.last().value@)
    } else {
        said(properties.drop_last(), key)
    }
}

/// Looks up what a description says under `key`.
pub fn lookup<'a>(properties: &'a Vec<Property>, key: &str) -> (value: Option<&'a String>)
    ensures
        match value {
            Some(text) => said(properties@, key@) == Some(text@),
            None => said(properties@, key@) is None,
        },
{
    let wanted = String::from_str(key);
    let mut i: usize = properties.len();
    assert(properties@.subrange(0, i as int) =~= properties@);
    while i > 0
        invariant
            i <= properties@.len(),
            wanted@ == key@,
            said(properties@, key@) == said(properties@.subrange(0, i as int), key@),
        decreases i,
    {
        i = i - 1;
        proof {
            let head = properties@.subrange(0, i as int + 1);
            assert(head.last() == properties@[i as int]);
            assert(head.drop_last() =~= properties@.subrange(0, i as int));
        }
        if properties[i].key == wanted {
            return Some(&properties[i].value);
        }
    }
    proof {
        assert(properties@.subrange(0, 0).len() == 0);
    }
    None
}

/// The kind of device that a description speaks of: a partition where it is
/// said not to be whole, else removable or fixed as its media are said to be.
pub open spec fn described_type(properties: Seq<Property>) -> StorageType {
    if said(properties, "Whole"@) == Some("No"@) {
        StorageType::Partition
    } else if said(properties, "Removable Media"@) == Some("Removable"@) {
        StorageType::Removable
    } else if said(properties, "Removable Media"@) == Some("Fixed"@) {
        StorageType::Fixed
    } else {
        StorageType::Unknown
    }
}

/// Whether a text, if there is one, reads `word`.
fn reads(text: Option<&String>, word: &str) -> (same: bool)
    ensures
        same == (text matches Some(t) && t@ == word@),
{
    match text {
        Some(t) => {
            let wanted = String::from_str(word);
            *t == wanted
        },
        None => false,
    }
}

/// Completes the details of a device from its description: the mount point
/// and the kind of device are taken from what the description says.
pub fn enrich_storage_details(properties: &Vec<Property>, details: &mut StorageDetails)
    ensures
        final(details).storage_type == described_type(properties@),
        match final(details).mount_point {
            Some(text) => said(properties@, "Mount Point"@) == Some(text@),
            None => said(properties@, "Mount Point"@) is None,
        },
        final(details).size == old(details).size,
        final(details).block_size == old(details).block_size,
        final(details).media_type == old(details).media_type,
        final(details).is_trim_supported == old(details).is_trim_supported,
        final(details).serial == old(details).serial,
{
    details.mount_point = match lookup(properties, "Mount Point") {
        Some(text) => Some(text.clone()),
        None => None,
    };
    if reads(lookup(properties, "Whole"), "No") {
        details.storage_type = StorageType::Partition;
    } else {
        let media = lookup(properties, "Removable Media");
        if reads(media, "Removable") {
            details.storage_type = StorageType::Removable;
        } else if reads(media, "Fixed") {
            details.storage_type = StorageType::Fixed;
        } else {
            details.storage_type = StorageType::Unknown;
        }
    }
}

} // verus!
