//! Reading what a system says of its storage devices: the lines of the
//! partition table of Linux, of its table of mounted file systems, and of the
//! device descriptions of macOS.

use crate::storage::Property;
use crate::storage::StorageType;
use vstd::prelude::*;
use vstd::string::StrSliceExecFns;
use vstd::string::StringExecFns;

verus! {

/// The characters of a text, one by one.
pub fn chars_of(text: &str) -> (chars: Vec<char>)
    ensures
        chars@ == text@,
{
    let len = text.unicode_len();
    let mut chars: Vec<char> = Vec::new();
    let mut i: usize = 0;
    while i < len
        invariant
            i <= len,
            len == text@.len(),
            chars@ == text@.subrange(0, i as int),
        decreases len - i,
    {
        chars.push(text.get_char(i));
        assert(chars@ =~= text@.subrange(0, i as int + 1));
        i = i + 1;
    }
    assert(chars@ =~= text@);
    chars
}

/// Whether a character is white space of the ASCII kind: a blank, a tab, or
/// one of the characters that end or feed a line.
pub open spec fn is_space(c: char) -> bool {
    c == ' ' || c == '\t' || c == '\n' || c == '\r' || c == '\u{b}' || c == '\u{c}'
}

/// Whether a character may stand in a device name: an ASCII letter or digit,
/// or an underscore.
pub open spec fn is_word(c: char) -> bool {
    ('a' <= c <= 'z') || ('A' <= c <= 'Z') || ('0' <= c <= '9') || c == '_'
}

/// Tells whether a character is white space.
pub fn space(c: char) -> (yes: bool)
    ensures
        yes == is_space(c),
{
    c == ' ' || c == '\t' || c == '\n' || c == '\r' || c == '\u{b}' || c == '\u{c}'
}

/// Tells whether a character may stand in a device name.
pub fn word(c: char) -> (yes: bool)
    ensures
        yes == is_word(c),
{
    ('a' <= c && c <= 'z') || ('A' <= c && c <= 'Z') || ('0' <= c && c <= '9') || c == '_'
}

/// Where the white space that starts at `from` ends.
pub open spec fn spaces_end(text: Seq<char>, from: int) -> int
    decreases text.len() - from,
{
    if 0 <= from < text.len() && is_space(text[from]) {
        spaces_end(text, from + 1)
    } else {
        from
    }
}

/// Where the run of characters other than white space that starts at `from`
/// ends.
pub open spec fn token_end(text: Seq<char>, from: int) -> int
    decreases text.len() - from,
{
    if 0 <= from < text.len() && !is_space(text[from]) {
        token_end(text, from + 1)
    } else {
        from
    }
}

/// Where the run of name characters that ends at `end` starts.
pub open spec fn word_start(text: Seq<char>, end: int) -> int
    decreases end,
{
    if 0 < end <= text.len() && is_word(text[end - 1]) {
        word_start(text, end - 1)
    } else {
        end
    }
}

/// The place of the first colon at or after `from`, or the end of the text.
pub open spec fn colon_at(text: Seq<char>, from: int) -> int
    decreases text.len() - from,
{
    if 0 <= from < text.len() && text[from] != ':' {
        colon_at(text, from + 1)
    } else {
        from
    }
}

/// Finds where the white space that starts at `from` ends.
fn skip_spaces(text: &Vec<char>, from: usize) -> (end: usize)
    requires
        from <= text@.len(),
    ensures
        end == spaces_end(text@, from as int),
        from <= end <= text@.len(),
{
    let mut end = from;
    while end < text.len() && space(text[end])
        invariant
            from <= end <= text@.len(),
            spaces_end(text@, from as int) == spaces_end(text@, end as int),
        decreases text@.len() - end,
    {
        end = end + 1;
    }
    end
}

/// Finds where the run of characters other than white space that starts at
/// `from` ends.
fn skip_token(text: &Vec<char>, from: usize) -> (end: usize)
    requires
        from <= text@.len(),
    ensures
        end == token_end(text@, from as int),
        from <= end <= text@.len(),
{
    let mut end = from;
    while end < text.len() && !space(text[end])
        invariant
            from <= end <= text@.len(),
            token_end(text@, from as int) == token_end(text@, end as int),
        decreases text@.len() - end,
    {
        end = end + 1;
    }
    end
}

/// The device that a line of the partition table names: the name at the end
/// of the line, if the line ends with a name that follows white space.
pub open spec fn named_device(line: Seq<char>) -> Option<Seq<char>> {
    let end = line.len() as int;
    let start = word_start(line, end);
    if 0 < start < end && is_space(line[start - 1]) {
        Some(line.subrange(start, end))
    } else {
        None
    }
}

/// Reads the name of a device off a line of the partition table.
pub fn partition_name(line: &str) -> (name: Option<String>)
    ensures
        match name {
            Some(text) => named_device(line@) == Some(text@),
            None => named_device(line@) is None,
        },
{
    let chars = chars_of(line);
    let end = chars.len();
    let mut start = end;
    while start > 0 && word(chars[start - 1])
        invariant
            start <= end,
            end == chars@.len(),
            word_start(chars@, end as int) == word_start(chars@, start as int),
        decreases start,
    {
        start = start - 1;
    }
    if 0 < start && start < end && space(chars[start - 1]) {
        Some(String::from_str(line.substring_char(start, end)))
    } else {
        None
    }
}

/// The names that the first `count` lines of a partition table give.
pub open spec fn named_devices(lines: Seq<String>, count: int) -> Seq<Seq<char>>
    decreases count,
{
    if count <= 0 {
        Seq::empty()
    } else {
        match named_device(lines[count - 1]@) {
            Some(name) => named_devices(lines, count - 1).push(name),
            None => named_devices(lines, count - 1),
        }
    }
}

/// The paths of the devices that a partition table lists: of the names that
/// its lines give, the first is the heading of the table; each of the others
/// is the name of a device below `/dev`.
pub open spec fn listed_paths(lines: Seq<String>) -> Seq<Seq<char>> {
    let names = named_devices(lines, lines.len() as int);
    if names.len() == 0 {
        Seq::empty()
    } else {
        Seq::new((names.len() - 1) as nat, |i: int| "/dev/"@ + names[i + 1])
    }
}

/// Lists the paths of the devices that a partition table lists.
pub fn device_paths(lines: &Vec<String>) -> (paths: Vec<String>)
    ensures
        paths@.len() == listed_paths(lines@).len(),
        forall|i: int| 0 <= i < paths@.len() ==> paths@[i]@ == listed_paths(lines@)[i],
{
    let mut paths: Vec<String> = Vec::new();
    let mut seen: usize = 0;
    let mut i: usize = 0;
    while i < lines.len()
        invariant
            i <= lines@.len(),
            seen == named_devices(lines@, i as int).len(),
            seen <= i,
            seen == 0 ==> paths@.len() == 0,
            seen > 0 ==> paths@.len() == seen - 1,
            forall|k: int|
                0 <= k < paths@.len() ==> paths@[k]@ == "/dev/"@ + named_devices(
                    lines@,
                    i as int,
                )[k + 1],
        decreases lines@.len() - i,
    {
        match partition_name(lines[i].as_str()) {
            Some(name) => {
                if seen > 0 {
                    paths.push(String::from_str("/dev/").concat(name.as_str()));
                }
                seen = seen + 1;
            },
            None => {},
        }
        i = i + 1;
    }
    paths
}

/// Where a line of the table of mounted file systems says that `device` is
/// mounted: the second word of the line, if its first word is `device`.
pub open spec fn mounted_at(line: Seq<char>, device: Seq<char>) -> Option<Seq<char>> {
    let first = spaces_end(line, 0);
    let first_end = token_end(line, first);
    let second = spaces_end(line, first_end);
    let second_end = token_end(line, second);
    if line.subrange(first, first_end) == device && second < second_end {
        Some(line.subrange(second, second_end))
    } else {
        None
    }
}

/// Reads off a line of the table of mounted file systems where `device` is
/// mounted.
pub fn mount_point_in(line: &str, device: &str) -> (place: Option<String>)
    ensures
        match place {
            Some(text) => mounted_at(line@, device@) == Some(text@),
            None => mounted_at(line@, device@) is None,
        },
{
    let chars = chars_of(line);
    let first = skip_spaces(&chars, 0);
    let first_end = skip_token(&chars, first);
    let second = skip_spaces(&chars, first_end);
    let second_end = skip_token(&chars, second);
    let name = String::from_str(line.substring_char(first, first_end));
    if name == String::from_str(device) && second < second_end {
        Some(String::from_str(line.substring_char(second, second_end)))
    } else {
        None
    }
}

/// Where the first `count` lines of the table of mounted file systems say
/// that `device` is mounted: what the first line that speaks of it says.
pub open spec fn mount_point_among(lines: Seq<String>, device: Seq<char>, count: int) -> Option<
    Seq<char>,
>
    decreases count,
{
    if count <= 0 {
        None
    } else {
        match mount_point_among(lines, device, count - 1) {
            Some(place) => Some(place),
            None => mounted_at(lines[count - 1]@, device),
        }
    }
}

/// Looks up in the table of mounted file systems where `device` is mounted.
pub fn resolve_mount_point(lines: &Vec<String>, device: &str) -> (place: Option<String>)
    ensures
        match place {
            Some(text) => mount_point_among(lines@, device@, lines@.len() as int) == Some(text@),
            None => mount_point_among(lines@, device@, lines@.len() as int) is None,
        },
{
    let mut i: usize = 0;
    while i < lines.len()
        invariant
            i <= lines@.len(),
            mount_point_among(lines@, device@, i as int) is None,
        decreases lines@.len() - i,
    {
        match mount_point_in(lines[i].as_str(), device) {
            Some(place) => {
                proof {
                    lemma_first_mount_point_stays(lines@, device@, i as int + 1, lines@.len() as int);
                }
                return Some(place);
            },
            None => {},
        }
        i = i + 1;
    }
    None
}

/// What the table says of a device within its first lines it says of it as a
/// whole.
proof fn lemma_first_mount_point_stays(
    lines: Seq<String>,
    device: Seq<char>,
    fewer: int,
    more: int,
)
    requires
        0 <= fewer <= more,
        mount_point_among(lines, device, fewer) is Some,
    ensures
        mount_point_among(lines, device, more) == mount_point_among(lines, device, fewer),
    decreases more - fewer,
{
    if fewer < more {
        lemma_first_mount_point_stays(lines, device, fewer, more - 1);
    }
}

/// What a line of a device description says: a key, which is what stands
/// before the first colon, less the white space it begins with, and a value,
/// which is what follows the colon, less the white space it begins with. A
/// line without a colon says nothing, nor does one without a key; where
/// nothing but white space stands before the colon, the last of it is the key.
pub open spec fn described(line: Seq<char>) -> Option<(Seq<char>, Seq<char>)> {
    let begin = spaces_end(line, 0);
    let colon = colon_at(line, 0);
    if colon >= line.len() || colon == 0 {
        None
    } else {
        let key = if begin < colon {
            line.subrange(begin, colon)
        } else {
            line.subrange(colon - 1, colon)
        };
        Some((key, line.subrange(spaces_end(line, colon + 1), line.len() as int)))
    }
}

/// Reads a line of a device description.
pub fn parse_property(line: &str) -> (property: Option<Property>)
    ensures
        match property {
            Some(p) => described(line@) == Some((p.key@, p.value@)),
            None => described(line@) is None,
        },
{
    let chars = chars_of(line);
    let begin = skip_spaces(&chars, 0);
    let mut colon: usize = 0;
    while colon < chars.len() && chars[colon] != ':'
        invariant
            colon <= chars@.len(),
            colon_at(chars@, 0) == colon_at(chars@, colon as int),
        decreases chars@.len() - colon,
    {
        colon = colon + 1;
    }
    if colon >= chars.len() || colon == 0 {
        return None;
    }
    let key_start = if begin < colon {
        begin
    } else {
        colon - 1
    };
    let value_start = skip_spaces(&chars, colon + 1);
    Some(
        Property {
            key: String::from_str(line.substring_char(key_start, colon)),
            value: String::from_str(line.substring_char(value_start, chars.len())),
        },
    )
}

/// The kind of a whole drive of which Linux says whether its media can be
/// removed: removable where the flag is 1, fixed otherwise.
pub fn drive_type(removable: u8) -> (kind: StorageType)
    ensures
        kind == if removable == 1 {
            StorageType::Removable
        } else {
            StorageType::Fixed
        },
{
    if removable == 1 {
        StorageType::Removable
    } else {
        StorageType::Fixed
    }
}

/// The media type by which Windows speaks of media that can be removed, other
/// than floppy disks.
pub const MEDIA_REMOVABLE: u32 = 11;

/// The media type by which Windows speaks of a fixed hard disk.
pub const MEDIA_FIXED: u32 = 12;

/// The kind of a whole drive of which Windows tells the media type.
pub fn media_kind(media_type: u32) -> (kind: StorageType)
    ensures
        kind == if media_type == MEDIA_REMOVABLE {
            StorageType::Removable
        } else if media_type == MEDIA_FIXED {
            StorageType::Fixed
        } else {
            StorageType::Other
        },
{
    if media_type == MEDIA_REMOVABLE {
        StorageType::Removable
    } else if media_type == MEDIA_FIXED {
        StorageType::Fixed
    } else {
        StorageType::Other
    }
}

/// A path without the one backslash it may end with.
pub open spec fn without_final_backslash(path: Seq<char>) -> Seq<char> {
    if path.len() > 0 && path.last() == '\\' {
        path.drop_last()
    } else {
        path
    }
}

/// Takes off a volume path the backslash it may end with.
pub fn normalize_volume_path(path: &str) -> (normal: String)
    ensures
        normal@ == without_final_backslash(path@),
{
    let len = path.unicode_len();
    if len > 0 && path.get_char(len - 1) == '\\' {
        let kept = path.substring_char(0, len - 1);
        assert(kept@ =~= path@.drop_last());
        String::from_str(kept)
    } else {
        String::from_str(path)
    }
}

/// Whether a path begins with two backslashes, as the paths of the Windows
/// device namespace do.
pub open spec fn is_device_namespace(path: Seq<char>) -> bool {
    path.len() >= 2 && path[0] == '\\' && path[1] == '\\'
}

/// The path under which Windows opens a device: a path of the device
/// namespace as it is, and the name of a device of the kernel behind the
/// root of all such names.
pub fn device_file_path(path: &str) -> (file_path: String)
    ensures
        file_path@ == if is_device_namespace(path@) {
            path@
        } else {
            "\\\\.\\GLOBALROOT"@ + path@
        },
{
    let len = path.unicode_len();
    if len >= 2 && path.get_char(0) == '\\' && path.get_char(1) == '\\' {
        String::from_str(path)
    } else {
        String::from_str("\\\\.\\GLOBALROOT").concat(path)
    }
}

/// Whether the bit mask of the logical drives of a system has the bit of the
/// drive letter of place `index`, where `A` has place 0.
pub open spec fn has_drive(mask: u32, index: int) -> bool {
    0 <= index < 26 && mask & (1u32 << (index as u32)) != 0
}

/// The places of the first `upto` drive letters that a bit mask of logical
/// drives holds.
pub open spec fn drives_in(mask: u32, upto: int) -> Seq<u8>
    decreases upto,
{
    if upto <= 0 {
        Seq::empty()
    } else if has_drive(mask, upto - 1) {
        drives_in(mask, upto - 1).push((upto - 1) as u8)
    } else {
        drives_in(mask, upto - 1)
    }
}

/// Lists the places of the drive letters that a bit mask of logical drives
/// holds, `A` as 0 up to `Z` as 25.
pub fn drive_indices(mask: u32) -> (indices: Vec<u8>)
    ensures
        indices@ == drives_in(mask, 26),
{
    let mut indices: Vec<u8> = Vec::new();
    let mut index: u8 = 0;
    while index < 26
        invariant
            index <= 26,
            indices@ == drives_in(mask, index as int),
        decreases 26 - index,
    {
        if mask & (1u32 << (index as u32)) != 0 {
            indices.push(index);
        }
        index = index + 1;
    }
    indices
}

} // verus!
