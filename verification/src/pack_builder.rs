use crate::text;
use crate::text::append_decimal;
use vstd::prelude::*;
use vstd::string::{StrSliceExecFns, StringExecFns};

verus! {

/// Source type of a part in OBJ format.
pub const OBJ_SOURCE: u8 = 0;

/// Source type of a part in binary glTF format.
pub const GLB_SOURCE: u8 = 1;

/// What is known of one file of the asset directory. The name, the stem and the
/// extension are absent where the path has none or it is not Unicode; `display` is
/// the whole path, for messages.
#[derive(Debug)]
pub struct AssetFile {
    pub file_name: Option<String>,
    pub stem: Option<String>,
    pub extension: Option<String>,
    pub display: String,
}

/// An accepted part file.
#[derive(Debug)]
pub struct PendingPart {
    pub part_id: u32,
    pub src_type: u8,
    pub display: String,
}

/// What became of a file that was offered to a [`PackScan`].
#[derive(Debug)]
pub enum Offered {
    /// It is a part of the pack.
    Accepted,
    /// It is the skeleton file.
    Skeleton,
    /// It is left out, and the user is told so.
    Skipped { warning: String },
}

/// The part files found so far.
#[derive(Debug)]
pub struct PackScan {
    pub pending: Vec<PendingPart>,
}

pub open spec fn ascii_lowercase(c: char) -> char {
    if 'A' <= c && c <= 'Z' {
        (c as u32 + 32) as char
    } else {
        c
    }
}

pub open spec fn lowercase(s: Seq<char>) -> Seq<char> {
    s.map_values(|c: char| ascii_lowercase(c))
}

/// Whether `s`, with ASCII capitals made small, is `lower`.
fn equals_in_lowercase(s: &str, lower: &str) -> (r: bool)
    ensures
        r == (lowercase(s@) == lower@),
{
    if s.unicode_len() != lower.unicode_len() {
        assert(lowercase(s@).len() == s@.len());
        return false;
    }
    let n: usize = s.unicode_len();
    let mut i: usize = 0;
    while i < n
        invariant
            n == s@.len() == lower@.len(),
            i <= n,
            forall|j: int| 0 <= j < i ==> #[trigger] lowercase(s@)[j] == lower@[j],
        decreases n - i,
    {
        let c: u32 = s.get_char(i) as u32;
        let d: u32 = lower.get_char(i) as u32;
        let small: u32 = if 65 <= c && c <= 90 {
            c + 32
        } else {
            c
        };
        if small != d {
            assert(lowercase(s@)[i as int] != lower@[i as int]);
            return false;
        }
        i = i + 1;
    }
    assert(lowercase(s@) =~= lower@);
    true
}

pub open spec fn is_ascii_digit(c: char) -> bool {
    '0' <= c && c <= '9'
}

/// How many characters at the start are ASCII digits.
pub open spec fn leading_digits(s: Seq<char>) -> nat
    decreases s.len(),
{
    if s.len() == 0 || !is_ascii_digit(s[0]) {
        0
    } else {
        1 + leading_digits(s.drop_first())
    }
}

/// The number that decimal digits stand for.
pub open spec fn digits_value(s: Seq<char>) -> nat
    decreases s.len(),
{
    if s.len() == 0 {
        0
    } else {
        (digits_value(s.drop_last()) * 10 + (s.last() as nat - '0' as nat)) as nat
    }
}

/// The part id that a file stem starts with.
pub open spec fn part_id_of(stem: Seq<char>) -> Option<u32> {
    let digits = stem.take(leading_digits(stem) as int);
    if digits.len() == 0 || digits_value(digits) > u32::MAX {
        None
    } else {
        Some(digits_value(digits) as u32)
    }
}

proof fn lemma_leading_digits(s: Seq<char>)
    ensures
        leading_digits(s) <= s.len(),
        forall|i: int| 0 <= i < leading_digits(s) ==> is_ascii_digit(#[trigger] s[i]),
        leading_digits(s) < s.len() ==> !is_ascii_digit(s[leading_digits(s) as int]),
    decreases s.len(),
{
    if s.len() == 0 || !is_ascii_digit(s[0]) {
    } else {
        let rest = s.drop_first();
        lemma_leading_digits(rest);
        assert forall|i: int| 0 <= i < leading_digits(s) implies is_ascii_digit(#[trigger] s[i]) by {
            if i > 0 {
                assert(rest[i - 1] == s[i]);
            }
        }
    }
}

proof fn lemma_digits_value_grows(s: Seq<char>, i: int)
    requires
        0 <= i <= s.len(),
        forall|j: int| 0 <= j < s.len() ==> is_ascii_digit(#[trigger] s[j]),
    ensures
        digits_value(s.take(i)) <= digits_value(s),
    decreases s.len(),
{
    if i == s.len() {
        assert(s.take(i) =~= s);
    } else {
        let shorter = s.drop_last();
        assert forall|j: int| 0 <= j < shorter.len() implies is_ascii_digit(#[trigger] shorter[j]) by {
            assert(shorter[j] == s[j]);
        }
        lemma_digits_value_grows(shorter, i);
        assert(shorter.take(i) =~= s.take(i));
        assert(is_ascii_digit(s[s.len() - 1]));
    }
}

/// The part id that a file stem starts with: `1001` for `1001_head_male`. `None`
/// where it does not start with a digit, or the number is too large.
pub fn parse_part_id(stem: &str) -> (r: Option<u32>)
    ensures
        r == part_id_of(stem@),
{
    let n: usize = stem.unicode_len();
    let mut i: usize = 0;
    let mut value: u64 = 0;
    proof {
        lemma_leading_digits(stem@);
    }
    let ghost digits = stem@.take(leading_digits(stem@) as int);
    assert forall|j: int| 0 <= j < digits.len() implies is_ascii_digit(#[trigger] digits[j]) by {
        assert(digits[j] == stem@[j]);
    }
    assert(digits.take(0) =~= Seq::<char>::empty());
    while i < n
        invariant
            n == stem@.len(),
            leading_digits(stem@) <= n,
            i <= leading_digits(stem@),
            digits == stem@.take(leading_digits(stem@) as int),
            leading_digits(stem@) < n ==> !is_ascii_digit(stem@[leading_digits(stem@) as int]),
            forall|j: int| 0 <= j < digits.len() ==> is_ascii_digit(#[trigger] digits[j]),
            value == digits_value(digits.take(i as int)),
            value <= u32::MAX,
        decreases n - i,
    {
        let c: u32 = stem.get_char(i) as u32;
        if c < 48 || c > 57 {
            assert(i == leading_digits(stem@)) by {
                if i < leading_digits(stem@) {
                    assert(digits[i as int] == stem@[i as int]);
                }
            }
            assert(digits.take(i as int) =~= digits);
            return if i == 0 {
                None
            } else {
                Some(value as u32)
            };
        }
        proof {
            assert(i < leading_digits(stem@));
            assert(digits[i as int] == stem@[i as int]);
            assert(digits.take(i + 1).drop_last() =~= digits.take(i as int));
            assert(digits.take(i + 1).last() == stem@[i as int]);
            lemma_digits_value_grows(digits, i + 1);
        }
        value = value * 10 + (c - 48) as u64;
        if value > 0xffff_ffff {
            return None;
        }
        i = i + 1;
    }
    assert(digits.take(i as int) =~= digits);
    if i == 0 {
        None
    } else {
        Some(value as u32)
    }
}

/// What a file of the asset directory is, by its name alone.
pub enum FileRole {
    /// A part in the given source format.
    Source { src_type: u8 },
    /// A text glTF file, which packs do not hold.
    TextGltf,
    /// The skeleton file.
    Skeleton,
    Unrecognized,
}

pub open spec fn role_of(file: AssetFile) -> FileRole {
    match file.extension {
        None => FileRole::Unrecognized,
        Some(extension) => {
            let small = lowercase(extension@);
            if small == "obj"@ {
                FileRole::Source { src_type: OBJ_SOURCE }
            } else if small == "glb"@ {
                FileRole::Source { src_type: GLB_SOURCE }
            } else if small == "gltf"@ {
                FileRole::TextGltf
            } else if small == "json"@ && file.file_name is Some && file.file_name->0@
                == "master_skeleton.json"@ {
                FileRole::Skeleton
            } else {
                FileRole::Unrecognized
            }
        },
    }
}

/// Decides what a file is: by its extension, in either case of letters, and for
/// the skeleton by its exact name.
pub fn classify_file(file: &AssetFile) -> (r: FileRole)
    ensures
        r == role_of(*file),
{
    match &file.extension {
        None => FileRole::Unrecognized,
        Some(extension) => {
            if equals_in_lowercase(extension.as_str(), "obj") {
                return FileRole::Source { src_type: OBJ_SOURCE };
            }
            if equals_in_lowercase(extension.as_str(), "glb") {
                return FileRole::Source { src_type: GLB_SOURCE };
            }
            if equals_in_lowercase(extension.as_str(), "gltf") {
                return FileRole::TextGltf;
            }
            if equals_in_lowercase(extension.as_str(), "json") {
                match &file.file_name {
                    Some(name) => {
                        if *name == String::from_str("master_skeleton.json") {
                            return FileRole::Skeleton;
                        }
                    },
                    None => {},
                }
            }
            FileRole::Unrecognized
        },
    }
}

pub open spec fn stem_part_id(file: AssetFile) -> Option<u32> {
    match file.stem {
        Some(stem) => part_id_of(stem@),
        None => None,
    }
}

pub open spec fn text_gltf_warning(display: Seq<char>) -> Seq<char> {
    "skipping '"@ + display + "': .gltf not supported by this tool, convert to .glb first"@
}

pub open spec fn no_part_id_warning(display: Seq<char>) -> Seq<char> {
    "skipping '"@ + display + "': filename does not start with a numeric part id"@
}

pub open spec fn unrecognized_text(display: Seq<char>) -> Seq<char> {
    "unrecognized file extension for '"@ + display
        + "' (only .obj and .glb part files, plus master_skeleton.json, are accepted)"@
}

pub open spec fn duplicate_text(part_id: u32, prior: Seq<char>, display: Seq<char>) -> Seq<char> {
    "duplicate part id "@ + text::decimal(part_id as nat) + ": both '"@ + prior + "' and '"@
        + display + "' resolve to this id"@
}

/// Part `j` has the id.
pub open spec fn claims(pending: Seq<PendingPart>, part_id: u32, j: int) -> bool {
    0 <= j < pending.len() && pending[j].part_id == part_id
}

pub open spec fn distinct_ids(pending: Seq<PendingPart>) -> bool {
    forall|i: int, j: int|
        0 <= i < j < pending.len() ==> (#[trigger] pending[i]).part_id != (
        #[trigger] pending[j]).part_id
}

impl PackScan {
    /// No two parts have the same id.
    pub open spec fn well_formed(self) -> bool {
        distinct_ids(self.pending@)
    }

    /// Nothing found yet.
    pub fn new() -> (r: PackScan)
        ensures
            r.well_formed(),
            r.pending@.len() == 0,
    {
        PackScan { pending: Vec::new() }
    }

    /// Takes in one file of the directory. A file that is neither a part nor the
    /// skeleton is an error, and so is a second file with the same part id.
    pub fn offer(&mut self, file: AssetFile) -> (r: Result<Offered, String>)
        requires
            old(self).well_formed(),
        ensures
            final(self).well_formed(),
            match (role_of(file), stem_part_id(file)) {
                (FileRole::Unrecognized, _) => {
                    &&& r is Err
                    &&& r->Err_0@ == unrecognized_text(file.display@)
                    &&& final(self).pending@ == old(self).pending@
                },
                (FileRole::Skeleton, _) => {
                    &&& r == Ok::<Offered, String>(Offered::Skeleton)
                    &&& final(self).pending@ == old(self).pending@
                },
                (FileRole::TextGltf, _) => {
                    &&& r matches Ok(Offered::Skipped { warning })
                    &&& warning@ == text_gltf_warning(file.display@)
                    &&& final(self).pending@ == old(self).pending@
                },
                (FileRole::Source { .. }, None) => {
                    &&& r matches Ok(Offered::Skipped { warning })
                    &&& warning@ == no_part_id_warning(file.display@)
                    &&& final(self).pending@ == old(self).pending@
                },
                (FileRole::Source { src_type }, Some(part_id)) => {
                    if exists|j: int| #[trigger] claims(old(self).pending@, part_id, j) {
                        let j = choose|j: int| #[trigger] claims(old(self).pending@, part_id, j);
                        &&& r is Err
                        &&& r->Err_0@ == duplicate_text(
                            part_id,
                            old(self).pending@[j].display@,
                            file.display@,
                        )
                        &&& final(self).pending@ == old(self).pending@
                    } else {
                        &&& r == Ok::<Offered, String>(Offered::Accepted)
                        &&& final(self).pending@ == old(self).pending@.push(
                            PendingPart { part_id, src_type, display: file.display },
                        )
                    }
                },
            },
    {
        let src_type: u8 = match classify_file(&file) {
            FileRole::Source { src_type } => src_type,
            FileRole::TextGltf => {
                let mut warning = String::from_str("skipping '");
                warning.append(file.display.as_str());
                warning.append("': .gltf not supported by this tool, convert to .glb first");
                return Ok(Offered::Skipped { warning });
            },
            FileRole::Skeleton => {
                return Ok(Offered::Skeleton);
            },
            FileRole::Unrecognized => {
                let mut m = String::from_str("unrecognized file extension for '");
                m.append(file.display.as_str());
                m.append(
                    "' (only .obj and .glb part files, plus master_skeleton.json, are accepted)",
                );
                return Err(m);
            },
        };
        let id = match &file.stem {
            Some(stem) => parse_part_id(stem.as_str()),
            None => None,
        };
        let part_id: u32 = match id {
            Some(part_id) => part_id,
            None => {
                let mut warning = String::from_str("skipping '");
                warning.append(file.display.as_str());
                warning.append("': filename does not start with a numeric part id");
                return Ok(Offered::Skipped { warning });
            },
        };
        let mut i: usize = 0;
        while i < self.pending.len()
            invariant
                *self == *old(self),
                self.well_formed(),
                i <= self.pending@.len(),
                role_of(file) == (FileRole::Source { src_type }),
                stem_part_id(file) == Some(part_id),
                forall|j: int| 0 <= j < i ==> !#[trigger] claims(self.pending@, part_id, j),
            decreases self.pending@.len() - i,
        {
            if self.pending[i].part_id == part_id {
                proof {
                    assert(claims(self.pending@, part_id, i as int));
                    let j = choose|j: int| #[trigger] claims(old(self).pending@, part_id, j);
                    assert(j == i);
                }
                let mut m = String::from_str("duplicate part id ");
                append_decimal(&mut m, part_id as u64);
                m.append(": both '");
                m.append(self.pending[i].display.as_str());
                m.append("' and '");
                m.append(file.display.as_str());
                m.append("' resolve to this id");
                return Err(m);
            }
            i = i + 1;
        }
        self.pending.push(PendingPart { part_id, src_type, display: file.display });
        proof {
            let before = old(self).pending@;
            assert forall|i: int, j: int| 0 <= i < j < self.pending@.len() implies (
            #[trigger] self.pending@[i]).part_id != (#[trigger] self.pending@[j]).part_id by {
                assert(!claims(before, part_id, i));
            }
        }
        Ok(Offered::Accepted)
    }

    /// How many parts the pack has, as its header holds it; an error where there
    /// are none, or too many.
    pub fn part_count(&self, input_dir: &str) -> (r: Result<u32, String>)
        ensures
            match part_count_error(self.pending@.len(), input_dir@) {
                Some(m) => r is Err && r->Err_0@ == m,
                None => r == Ok::<u32, String>(self.pending@.len() as u32),
            },
    {
        let count: usize = self.pending.len();
        if count == 0 {
            let mut m = String::from_str("no valid .obj/.glb part files were found in '");
            m.append(input_dir);
            m.append("'");
            return Err(m);
        }
        if count as u64 > 0xffff_ffff {
            let mut m = String::from_str("too many parts (");
            append_decimal(&mut m, count as u64);
            m.append(") to represent in this format's u32 part_count field");
            return Err(m);
        }
        Ok(count as u32)
    }
}

pub open spec fn part_count_error(count: nat, input_dir: Seq<char>) -> Option<Seq<char>> {
    if count == 0 {
        Some("no valid .obj/.glb part files were found in '"@ + input_dir + "'"@)
    } else if count > u32::MAX {
        Some(
            "too many parts ("@ + text::decimal(count)
                + ") to represent in this format's u32 part_count field"@,
        )
    } else {
        None
    }
}

pub open spec fn skeleton_length_text(skeleton_path: Seq<char>, len: nat) -> Seq<char> {
    "master_skeleton.json at '"@ + skeleton_path
        + "' is too large to represent in this format's u32 length field ("@ + text::decimal(len)
        + " bytes)"@
}

/// The skeleton's length as the header holds it.
pub fn skeleton_length(skeleton_path: &str, len: usize) -> (r: Result<u32, String>)
    ensures
        if len > u32::MAX {
            r is Err && r->Err_0@ == skeleton_length_text(skeleton_path@, len as nat)
        } else {
            r == Ok::<u32, String>(len as u32)
        },
{
    if len as u64 > 0xffff_ffff {
        let mut m = String::from_str("master_skeleton.json at '");
        m.append(skeleton_path);
        m.append("' is too large to represent in this format's u32 length field (");
        append_decimal(&mut m, len as u64);
        m.append(" bytes)");
        return Err(m);
    }
    Ok(len as u32)
}

/// The four bytes of a number, the low one first.
pub open spec fn le32(n: nat) -> Seq<u8> {
    seq![
        (n % 256) as u8,
        (n / 256 % 256) as u8,
        (n / 65536 % 256) as u8,
        (n / 16777216 % 256) as u8,
    ]
}

/// The number whose four bytes, the low one first, start at `at`.
pub open spec fn le32_at(bytes: Seq<u8>, at: int) -> nat {
    (bytes[at] + 256 * bytes[at + 1] + 65536 * bytes[at + 2] + 16777216 * bytes[at + 3]) as nat
}

fn append_le32(out: &mut Vec<u8>, n: u32)
    ensures
        final(out)@ == old(out)@ + le32(n as nat),
{
    out.push((n % 256) as u8);
    out.push((n / 256 % 256) as u8);
    out.push((n / 65536 % 256) as u8);
    out.push((n / 16777216 % 256) as u8);
}

/// Magic, format version, number of parts, length of the skeleton.
pub open spec fn header(part_count: nat, skeleton_len: nat) -> Seq<u8> {
    seq![65u8, 70u8, 80u8, 80u8] + le32(1) + le32(part_count) + le32(skeleton_len)
}

/// Where the data of the parts starts.
pub open spec fn data_start(skeleton_len: nat, part_count: nat) -> nat {
    16 + skeleton_len + 13 * part_count
}

/// Where the data of part `i` starts: right behind that of the part before.
pub open spec fn data_offset(part_bytes: Seq<Vec<u8>>, start: nat, i: int) -> nat
    decreases i,
{
    if i <= 0 {
        start
    } else {
        data_offset(part_bytes, start, i - 1) + part_bytes[i - 1]@.len()
    }
}

pub open spec fn index_entry(part: PendingPart, offset: nat, len: nat) -> Seq<u8> {
    le32(part.part_id as nat) + seq![part.src_type] + le32(offset) + le32(len)
}

fn append_entry(out: &mut Vec<u8>, part: &PendingPart, offset: u32, len: u32)
    ensures
        final(out)@ == old(out)@ + index_entry(*part, offset as nat, len as nat),
{
    append_le32(out, part.part_id);
    out.push(part.src_type);
    append_le32(out, offset);
    append_le32(out, len);
    assert(out@ =~= old(out)@ + index_entry(*part, offset as nat, len as nat));
}

/// The entries of the first `n` parts, one behind the other.
pub open spec fn index_table(
    parts: Seq<PendingPart>,
    part_bytes: Seq<Vec<u8>>,
    start: nat,
    n: int,
) -> Seq<u8>
    decreases n,
{
    if n <= 0 {
        Seq::empty()
    } else {
        index_table(parts, part_bytes, start, n - 1) + index_entry(
            parts[n - 1],
            data_offset(part_bytes, start, n - 1),
            part_bytes[n - 1]@.len(),
        )
    }
}

/// The data of the first `n` parts, one behind the other.
pub open spec fn data_region(part_bytes: Seq<Vec<u8>>, n: int) -> Seq<u8>
    decreases n,
{
    if n <= 0 {
        Seq::empty()
    } else {
        data_region(part_bytes, n - 1) + part_bytes[n - 1]@
    }
}

/// A whole pack: header, skeleton, index and data.
pub open spec fn pack(skeleton: Seq<u8>, parts: Seq<PendingPart>, part_bytes: Seq<Vec<u8>>) -> Seq<
    u8,
> {
    let n = parts.len();
    let start = data_start(skeleton.len(), n);
    header(n, skeleton.len()) + skeleton + index_table(parts, part_bytes, start, n as int)
        + data_region(part_bytes, n as int)
}

/// Why part `i` cannot be placed.
pub open spec fn placing_error(
    parts: Seq<PendingPart>,
    part_bytes: Seq<Vec<u8>>,
    start: nat,
    i: int,
) -> Option<Seq<char>> {
    if data_offset(part_bytes, start, i) > u32::MAX {
        Some(
            "output pack would exceed this format's u32 offset range while placing part id "@
                + text::decimal(parts[i].part_id as nat),
        )
    } else if part_bytes[i]@.len() > u32::MAX {
        Some(
            "part file '"@ + parts[i].display@ + "' (part id "@ + text::decimal(
                parts[i].part_id as nat,
            ) + ") is too large to represent in this format's u32 length field ("@ + text::decimal(
                part_bytes[i]@.len(),
            ) + " bytes)"@,
        )
    } else {
        None
    }
}

/// Why the first of the first `n` parts that cannot be placed cannot be.
pub open spec fn layout_error(
    parts: Seq<PendingPart>,
    part_bytes: Seq<Vec<u8>>,
    start: nat,
    n: int,
) -> Option<Seq<char>>
    decreases n,
{
    if n <= 0 {
        None
    } else {
        match layout_error(parts, part_bytes, start, n - 1) {
            Some(m) => Some(m),
            None => placing_error(parts, part_bytes, start, n - 1),
        }
    }
}

proof fn lemma_layout_error_stays(
    parts: Seq<PendingPart>,
    part_bytes: Seq<Vec<u8>>,
    start: nat,
    i: int,
    n: int,
)
    requires
        0 <= i <= n,
        layout_error(parts, part_bytes, start, i) is Some,
    ensures
        layout_error(parts, part_bytes, start, n) == layout_error(parts, part_bytes, start, i),
    decreases n - i,
{
    if i < n {
        lemma_layout_error_stays(parts, part_bytes, start, i, n - 1);
    }
}

/// Writes a pack from its skeleton and its parts, in the order of the parts.
pub fn build_pack(skeleton: &[u8], parts: &Vec<PendingPart>, part_bytes: &Vec<Vec<u8>>) -> (r: Result<
    Vec<u8>,
    String,
>)
    requires
        skeleton@.len() <= u32::MAX,
        parts@.len() <= u32::MAX,
        part_bytes@.len() == parts@.len(),
    ensures
        match layout_error(
            parts@,
            part_bytes@,
            data_start(skeleton@.len(), parts@.len()),
            parts@.len() as int,
        ) {
            Some(m) => r is Err && r->Err_0@ == m,
            None => r is Ok && r->Ok_0@ == pack(skeleton@, parts@, part_bytes@),
        },
{
    let count: usize = parts.len();
    let ghost start = data_start(skeleton@.len(), parts@.len());
    let mut out: Vec<u8> = Vec::new();
    out.push(65);
    out.push(70);
    out.push(80);
    out.push(80);
    append_le32(&mut out, 1);
    append_le32(&mut out, count as u32);
    append_le32(&mut out, skeleton.len() as u32);
    assert(out@ =~= header(parts@.len(), skeleton@.len()));
    out.extend_from_slice(skeleton);
    let ghost front = out@;
    assert(front =~= header(parts@.len(), skeleton@.len()) + skeleton@);
    let mut running_offset: u64 = 16 + skeleton.len() as u64 + 13 * (count as u64);
    let mut i: usize = 0;
    assert(front + index_table(parts@, part_bytes@, start, 0) =~= front);
    while i < count
        invariant
            i <= count == parts@.len() == part_bytes@.len() <= u32::MAX,
            start == data_start(skeleton@.len(), parts@.len()),
            skeleton@.len() <= u32::MAX,
            running_offset == data_offset(part_bytes@, start, i as int),
            i > 0 ==> running_offset <= 2 * u32::MAX,
            i == 0 ==> running_offset == start,
            layout_error(parts@, part_bytes@, start, i as int) is None,
            out@ == front + index_table(parts@, part_bytes@, start, i as int),
        decreases count - i,
    {
        let bytes_len: usize = part_bytes[i].len();
        if running_offset > 0xffff_ffff {
            let mut m = String::from_str(
                "output pack would exceed this format's u32 offset range while placing part id ",
            );
            append_decimal(&mut m, parts[i].part_id as u64);
            proof {
                lemma_layout_error_stays(parts@, part_bytes@, start, i + 1, count as int);
            }
            return Err(m);
        }
        if bytes_len as u64 > 0xffff_ffff {
            let mut m = String::from_str("part file '");
            m.append(parts[i].display.as_str());
            m.append("' (part id ");
            append_decimal(&mut m, parts[i].part_id as u64);
            m.append(") is too large to represent in this format's u32 length field (");
            append_decimal(&mut m, bytes_len as u64);
            m.append(" bytes)");
            proof {
                lemma_layout_error_stays(parts@, part_bytes@, start, i + 1, count as int);
            }
            return Err(m);
        }
        append_entry(&mut out, &parts[i], running_offset as u32, bytes_len as u32);
        assert(out@ =~= front + index_table(parts@, part_bytes@, start, i + 1));
        running_offset = running_offset + bytes_len as u64;
        i = i + 1;
    }
    let ghost indexed = out@;
    let mut k: usize = 0;
    assert(indexed + data_region(part_bytes@, 0) =~= indexed);
    while k < count
        invariant
            k <= count == part_bytes@.len(),
            out@ == indexed + data_region(part_bytes@, k as int),
        decreases count - k,
    {
        out.extend_from_slice(part_bytes[k].as_slice());
        k = k + 1;
        assert(out@ =~= indexed + data_region(part_bytes@, k as int));
    }
    Ok(out)
}

/// The index takes thirteen bytes for each part.
proof fn lemma_index_table_len(
    parts: Seq<PendingPart>,
    part_bytes: Seq<Vec<u8>>,
    start: nat,
    n: int,
)
    requires
        0 <= n,
    ensures
        index_table(parts, part_bytes, start, n).len() == 13 * n,
    decreases n,
{
    if n > 0 {
        lemma_index_table_len(parts, part_bytes, start, n - 1);
    }
}

proof fn lemma_index_table_entry(
    parts: Seq<PendingPart>,
    part_bytes: Seq<Vec<u8>>,
    start: nat,
    i: int,
    n: int,
)
    requires
        0 <= i < n,
    ensures
        index_table(parts, part_bytes, start, n).subrange(13 * i, 13 * i + 13) == index_entry(
            parts[i],
            data_offset(part_bytes, start, i),
            part_bytes[i]@.len(),
        ),
    decreases n,
{
    lemma_index_table_len(parts, part_bytes, start, n - 1);
    lemma_index_table_len(parts, part_bytes, start, n);
    let table = index_table(parts, part_bytes, start, n);
    let shorter = index_table(parts, part_bytes, start, n - 1);
    if i < n - 1 {
        lemma_index_table_entry(parts, part_bytes, start, i, n - 1);
        assert(table.subrange(13 * i, 13 * i + 13) =~= shorter.subrange(13 * i, 13 * i + 13));
    } else {
        assert(table.subrange(13 * i, 13 * i + 13) =~= index_entry(
            parts[i],
            data_offset(part_bytes, start, i),
            part_bytes[i]@.len(),
        ));
    }
}

proof fn lemma_data_region_len(part_bytes: Seq<Vec<u8>>, start: nat, n: int)
    requires
        0 <= n,
    ensures
        start + data_region(part_bytes, n).len() == data_offset(part_bytes, start, n),
    decreases n,
{
    if n > 0 {
        lemma_data_region_len(part_bytes, start, n - 1);
    }
}

proof fn lemma_data_region_part(part_bytes: Seq<Vec<u8>>, start: nat, i: int, n: int)
    requires
        0 <= i < n,
    ensures
        data_offset(part_bytes, start, i) >= start,
        data_offset(part_bytes, start, i) + part_bytes[i]@.len() <= data_offset(
            part_bytes,
            start,
            n,
        ),
        data_region(part_bytes, n).subrange(
            data_offset(part_bytes, start, i) - start,
            data_offset(part_bytes, start, i) - start + part_bytes[i]@.len(),
        ) == part_bytes[i]@,
    decreases n,
{
    lemma_data_region_len(part_bytes, start, n);
    lemma_data_region_len(part_bytes, start, n - 1);
    lemma_data_region_len(part_bytes, start, i);
    let at = data_offset(part_bytes, start, i) - start;
    let len = part_bytes[i]@.len();
    let region = data_region(part_bytes, n);
    let shorter = data_region(part_bytes, n - 1);
    if i < n - 1 {
        lemma_data_region_part(part_bytes, start, i, n - 1);
        assert(region.subrange(at, at + len) =~= shorter.subrange(at, at + len));
    } else {
        assert(region.subrange(at, at + len) =~= part_bytes[i]@);
    }
}

proof fn lemma_no_layout_error(
    parts: Seq<PendingPart>,
    part_bytes: Seq<Vec<u8>>,
    start: nat,
    i: int,
    n: int,
)
    requires
        0 <= i < n,
        layout_error(parts, part_bytes, start, n) is None,
    ensures
        placing_error(parts, part_bytes, start, i) is None,
    decreases n,
{
    if i < n - 1 {
        lemma_no_layout_error(parts, part_bytes, start, i, n - 1);
    }
}

proof fn lemma_le32_round_trip(n: nat, bytes: Seq<u8>, at: int)
    requires
        n <= u32::MAX,
        0 <= at,
        at + 4 <= bytes.len(),
        bytes.subrange(at, at + 4) == le32(n),
    ensures
        le32_at(bytes, at) == n,
{
    let four = bytes.subrange(at, at + 4);
    assert(four[0] == bytes[at]);
    assert(four[1] == bytes[at + 1]);
    assert(four[2] == bytes[at + 2]);
    assert(four[3] == bytes[at + 3]);
}

/// A reader finds in a pack what went into it: the header's fields, the skeleton,
/// and for every part an index entry with its id and source type, whose offset and
/// length lie within the pack and lead to the part's own bytes.
pub proof fn law_pack_reads_back(
    skeleton: Seq<u8>,
    parts: Seq<PendingPart>,
    part_bytes: Seq<Vec<u8>>,
    i: int,
)
    requires
        skeleton.len() <= u32::MAX,
        parts.len() <= u32::MAX,
        part_bytes.len() == parts.len(),
        0 <= i < parts.len(),
        layout_error(
            parts,
            part_bytes,
            data_start(skeleton.len(), parts.len()),
            parts.len() as int,
        ) is None,
    ensures
        ({
            let bytes = pack(skeleton, parts, part_bytes);
            let entry = 16 + skeleton.len() + 13 * i;
            let offset = le32_at(bytes, entry + 5) as int;
            let len = le32_at(bytes, entry + 9) as int;
            &&& bytes.subrange(0, 4) == seq![65u8, 70u8, 80u8, 80u8]
            &&& le32_at(bytes, 4) == 1
            &&& le32_at(bytes, 8) == parts.len()
            &&& le32_at(bytes, 12) == skeleton.len()
            &&& bytes.subrange(16, 16int + skeleton.len()) == skeleton
            &&& le32_at(bytes, entry) == parts[i].part_id
            &&& bytes[entry + 4] == parts[i].src_type
            &&& offset + len <= bytes.len()
            &&& bytes.subrange(offset, offset + len) == part_bytes[i]@
        }),
{
    let n = parts.len();
    let start = data_start(skeleton.len(), n);
    lemma_index_table_len(parts, part_bytes, start, n as int);
    lemma_no_layout_error(parts, part_bytes, start, i, n as int);
    lemma_pack_header(skeleton, parts, part_bytes);
    lemma_pack_entry(skeleton, parts, part_bytes, i);
    lemma_pack_data(skeleton, parts, part_bytes, i);
}

proof fn lemma_pack_header(
    skeleton: Seq<u8>,
    parts: Seq<PendingPart>,
    part_bytes: Seq<Vec<u8>>,
)
    requires
        skeleton.len() <= u32::MAX,
        parts.len() <= u32::MAX,
    ensures
        ({
            let bytes = pack(skeleton, parts, part_bytes);
            &&& bytes.subrange(0, 4) == seq![65u8, 70u8, 80u8, 80u8]
            &&& le32_at(bytes, 4) == 1
            &&& le32_at(bytes, 8) == parts.len()
            &&& le32_at(bytes, 12) == skeleton.len()
            &&& bytes.subrange(16, 16int + skeleton.len()) == skeleton
        }),
{
    let n = parts.len();
    let len = skeleton.len();
    let bytes = pack(skeleton, parts, part_bytes);
    let table = index_table(parts, part_bytes, data_start(len, n), n as int);
    let region = data_region(part_bytes, n as int);
    let top = header(n, len);
    lemma_header_layout(n, len);
    assert(bytes == top + skeleton + (table + region));
    lemma_middle(top, skeleton, table + region, 0, len as int);
    assert(skeleton.subrange(0, len as int) =~= skeleton);
    assert(bytes.subrange(0, 16) =~= top);
    lemma_inner_subrange(bytes, top, 0, 0, 4);
    lemma_inner_subrange(bytes, top, 0, 4, 8);
    lemma_inner_subrange(bytes, top, 0, 8, 12);
    lemma_inner_subrange(bytes, top, 0, 12, 16);
    lemma_le32_round_trip(1, bytes, 4);
    lemma_le32_round_trip(n, bytes, 8);
    lemma_le32_round_trip(len, bytes, 12);
}

/// The fields of a header, each in its own bytes.
proof fn lemma_header_layout(part_count: nat, skeleton_len: nat)
    ensures
        ({
            let top = header(part_count, skeleton_len);
            &&& top.len() == 16
            &&& top.subrange(0, 4) == seq![65u8, 70u8, 80u8, 80u8]
            &&& top.subrange(4, 8) == le32(1)
            &&& top.subrange(8, 12) == le32(part_count)
            &&& top.subrange(12, 16) == le32(skeleton_len)
        }),
{
    let top = header(part_count, skeleton_len);
    assert(top.subrange(0, 4) =~= seq![65u8, 70u8, 80u8, 80u8]);
    assert(top.subrange(4, 8) =~= le32(1));
    assert(top.subrange(8, 12) =~= le32(part_count));
    assert(top.subrange(12, 16) =~= le32(skeleton_len));
}

/// What stands in the middle of three pieces, found from the start of the whole.
proof fn lemma_middle(front: Seq<u8>, middle: Seq<u8>, rest: Seq<u8>, from: int, to: int)
    requires
        0 <= from <= to <= middle.len(),
    ensures
        (front + middle + rest).subrange(front.len() + from, front.len() + to) == middle.subrange(
            from,
            to,
        ),
        front.len() + to <= (front + middle + rest).len(),
{
    assert((front + middle + rest).subrange(front.len() + from, front.len() + to)
        =~= middle.subrange(from, to));
}

/// A part of a part.
proof fn lemma_inner_subrange(bytes: Seq<u8>, item: Seq<u8>, at: int, from: int, to: int)
    requires
        0 <= at,
        at + item.len() <= bytes.len(),
        bytes.subrange(at, at + item.len()) == item,
        0 <= from <= to <= item.len(),
    ensures
        bytes.subrange(at + from, at + to) == item.subrange(from, to),
{
    assert forall|x: int| 0 <= x < to - from implies #[trigger] bytes.subrange(at + from, at + to)[x]
        == item.subrange(from, to)[x] by {
        assert(bytes.subrange(at, at + item.len())[from + x] == item[from + x]);
    }
    assert(bytes.subrange(at + from, at + to) =~= item.subrange(from, to));
}

/// The fields of an index entry, each in its own bytes.
proof fn lemma_entry_layout(part: PendingPart, offset: nat, len: nat)
    ensures
        ({
            let item = index_entry(part, offset, len);
            &&& item.len() == 13
            &&& item.subrange(0, 4) == le32(part.part_id as nat)
            &&& item[4] == part.src_type
            &&& item.subrange(5, 9) == le32(offset)
            &&& item.subrange(9, 13) == le32(len)
        }),
{
    let item = index_entry(part, offset, len);
    assert(item.subrange(0, 4) =~= le32(part.part_id as nat));
    assert(item.subrange(5, 9) =~= le32(offset));
    assert(item.subrange(9, 13) =~= le32(len));
}

/// An index entry that stands at `at` reads back.
proof fn lemma_entry_reads_back(bytes: Seq<u8>, at: int, part: PendingPart, offset: nat, len: nat)
    requires
        0 <= at,
        at + 13 <= bytes.len(),
        bytes.subrange(at, at + 13) == index_entry(part, offset, len),
        offset <= u32::MAX,
        len <= u32::MAX,
    ensures
        le32_at(bytes, at) == part.part_id,
        bytes[at + 4] == part.src_type,
        le32_at(bytes, at + 5) == offset,
        le32_at(bytes, at + 9) == len,
{
    let item = index_entry(part, offset, len);
    lemma_entry_layout(part, offset, len);
    lemma_inner_subrange(bytes, item, at, 0, 4);
    lemma_inner_subrange(bytes, item, at, 5, 9);
    lemma_inner_subrange(bytes, item, at, 9, 13);
    assert(bytes.subrange(at, at + 13)[4] == bytes[at + 4]);
    lemma_le32_round_trip(part.part_id as nat, bytes, at);
    lemma_le32_round_trip(offset, bytes, at + 5);
    lemma_le32_round_trip(len, bytes, at + 9);
}

proof fn lemma_pack_entry(
    skeleton: Seq<u8>,
    parts: Seq<PendingPart>,
    part_bytes: Seq<Vec<u8>>,
    i: int,
)
    requires
        0 <= i < parts.len(),
        data_offset(part_bytes, data_start(skeleton.len(), parts.len()), i) <= u32::MAX,
        part_bytes[i]@.len() <= u32::MAX,
    ensures
        ({
            let bytes = pack(skeleton, parts, part_bytes);
            let entry = 16 + skeleton.len() + 13 * i;
            &&& le32_at(bytes, entry) == parts[i].part_id
            &&& bytes[entry + 4] == parts[i].src_type
            &&& le32_at(bytes, entry + 5) == data_offset(
                part_bytes,
                data_start(skeleton.len(), parts.len()),
                i,
            )
            &&& le32_at(bytes, entry + 9) == part_bytes[i]@.len()
        }),
{
    let n = parts.len();
    let start = data_start(skeleton.len(), n);
    let table = index_table(parts, part_bytes, start, n as int);
    let front = header(n, skeleton.len()) + skeleton;
    let rest = data_region(part_bytes, n as int);
    let bytes = pack(skeleton, parts, part_bytes);
    assert(front.len() == 16 + skeleton.len());
    assert(bytes == front + table + rest);
    lemma_index_table_len(parts, part_bytes, start, n as int);
    lemma_index_table_entry(parts, part_bytes, start, i, n as int);
    lemma_middle(front, table, rest, 13 * i, 13 * i + 13);
    lemma_entry_reads_back(
        bytes,
        16 + skeleton.len() + 13 * i,
        parts[i],
        data_offset(part_bytes, start, i),
        part_bytes[i]@.len(),
    );
}

proof fn lemma_pack_data(
    skeleton: Seq<u8>,
    parts: Seq<PendingPart>,
    part_bytes: Seq<Vec<u8>>,
    i: int,
)
    requires
        0 <= i < parts.len(),
    ensures
        ({
            let bytes = pack(skeleton, parts, part_bytes);
            let offset = data_offset(
                part_bytes,
                data_start(skeleton.len(), parts.len()),
                i,
            ) as int;
            let len = part_bytes[i]@.len();
            &&& offset + len <= bytes.len()
            &&& bytes.subrange(offset, offset + len) == part_bytes[i]@
        }),
{
    let n = parts.len();
    let start = data_start(skeleton.len(), n);
    let table = index_table(parts, part_bytes, start, n as int);
    let region = data_region(part_bytes, n as int);
    let bytes = pack(skeleton, parts, part_bytes);
    lemma_index_table_len(parts, part_bytes, start, n as int);
    lemma_data_region_len(part_bytes, start, n as int);
    lemma_data_region_part(part_bytes, start, i, n as int);
    let front = header(n, skeleton.len()) + skeleton + table;
    assert(front.len() == start);
    assert(bytes == front + region);
    let offset = data_offset(part_bytes, start, i) as int;
    let len = part_bytes[i]@.len();
    assert(bytes.subrange(offset, offset + len) =~= region.subrange(
        offset - start,
        offset - start + len,
    ));
}

/// The number that a stem starts with is its part id: decimal digits, leading zeros or not,
/// and whatever follows that is no digit, give the number that the digits stand for. A number
/// too large for a `u32` gives none.
pub proof fn law_part_id_is_the_leading_number(digits: Seq<char>, rest: Seq<char>)
    requires
        digits.len() > 0,
        forall|i: int| 0 <= i < digits.len() ==> '0' <= #[trigger] digits[i] <= '9',
        rest.len() > 0 ==> !('0' <= rest[0] <= '9'),
    ensures
        text::number_of(digits) <= u32::MAX ==> part_id_of(digits + rest) == Some(
            text::number_of(digits) as u32,
        ),
        text::number_of(digits) > u32::MAX ==> part_id_of(digits + rest) is None,
{
    let stem = digits + rest;
    lemma_digits_in_front(digits, rest);
    assert(stem.take(digits.len() as int) =~= digits);
    lemma_same_number(digits);
}

/// The decimal digits of a number, and whatever follows that is no digit, have that number
/// for a part id.
pub proof fn law_part_id_of_a_number(n: u32, rest: Seq<char>)
    requires
        rest.len() > 0 ==> !('0' <= rest[0] <= '9'),
    ensures
        part_id_of(text::decimal(n as nat) + rest) == Some(n),
{
    text::law_decimal_reads_back(n as nat);
    law_part_id_is_the_leading_number(text::decimal(n as nat), rest);
}

/// A stem that starts with no digit has no part id.
pub proof fn law_no_part_id_without_a_digit(stem: Seq<char>)
    requires
        stem.len() > 0 ==> !('0' <= stem[0] <= '9'),
    ensures
        part_id_of(stem) is None,
{
    assert(leading_digits(stem) == 0);
    assert(stem.take(0).len() == 0);
}

proof fn lemma_digits_in_front(digits: Seq<char>, rest: Seq<char>)
    requires
        forall|i: int| 0 <= i < digits.len() ==> '0' <= #[trigger] digits[i] <= '9',
        rest.len() > 0 ==> !('0' <= rest[0] <= '9'),
    ensures
        leading_digits(digits + rest) == digits.len(),
    decreases digits.len(),
{
    let stem = digits + rest;
    if digits.len() == 0 {
        assert(stem =~= rest);
    } else {
        assert(stem.drop_first() =~= digits.drop_first() + rest);
        assert(stem[0] == digits[0]);
        lemma_digits_in_front(digits.drop_first(), rest);
    }
}

proof fn lemma_same_number(s: Seq<char>)
    ensures
        digits_value(s) == text::number_of(s),
    decreases s.len(),
{
    if s.len() > 0 {
        lemma_same_number(s.drop_last());
    }
}

/// Which files are parts, in either case of letters: those that end in `.obj`, of source
/// type 0, and those that end in `.glb`, of source type 1. Those that end in `.gltf` are
/// told apart.
pub proof fn law_extensions_in_either_case(file: AssetFile)
    requires
        file.extension is Some,
    ensures
        ({
            let e = file.extension->0@;
            &&& e.len() == 3 && (e[0] == 'o' || e[0] == 'O') && (e[1] == 'b' || e[1] == 'B') && (
            e[2] == 'j' || e[2] == 'J') ==> role_of(file) == (FileRole::Source { src_type: 0 })
            &&& e.len() == 3 && (e[0] == 'g' || e[0] == 'G') && (e[1] == 'l' || e[1] == 'L') && (
            e[2] == 'b' || e[2] == 'B') ==> role_of(file) == (FileRole::Source { src_type: 1 })
            &&& e.len() == 4 && (e[0] == 'g' || e[0] == 'G') && (e[1] == 'l' || e[1] == 'L') && (
            e[2] == 't' || e[2] == 'T') && (e[3] == 'f' || e[3] == 'F') ==> role_of(file)
                is TextGltf
            &&& role_of(file) is Source ==> e.len() == 3
            &&& role_of(file) is Skeleton ==> file.file_name is Some && file.file_name->0@
                == "master_skeleton.json"@
        }),
{
    reveal_strlit("obj");
    reveal_strlit("glb");
    reveal_strlit("gltf");
    reveal_strlit("json");
    let e = file.extension->0@;
    let small = lowercase(e);
    if e.len() == 3 && (e[0] == 'o' || e[0] == 'O') && (e[1] == 'b' || e[1] == 'B') && (e[2] == 'j'
        || e[2] == 'J') {
        assert(small =~= "obj"@);
    }
    if e.len() == 3 && (e[0] == 'g' || e[0] == 'G') && (e[1] == 'l' || e[1] == 'L') && (e[2] == 'b'
        || e[2] == 'B') {
        assert(small =~= "glb"@);
        assert("glb"@[0] != "obj"@[0]);
    }
    if e.len() == 4 && (e[0] == 'g' || e[0] == 'G') && (e[1] == 'l' || e[1] == 'L') && (e[2] == 't'
        || e[2] == 'T') && (e[3] == 'f' || e[3] == 'F') {
        assert(small =~= "gltf"@);
    }
    assert(small.len() == e.len());
}

/// A `u32` can say where part `i` starts, behind the parts before, and how long it is.
pub open spec fn part_fits(part_bytes: Seq<Vec<u8>>, start: nat, i: int) -> bool {
    &&& start + data_region(part_bytes, i).len() <= u32::MAX
    &&& part_bytes[i]@.len() <= u32::MAX
}

/// A pack can be laid out if and only if every part starts where a `u32` can point to and is
/// no longer than one can say. Every part starts where the one before ends.
pub proof fn law_when_a_pack_fits(
    parts: Seq<PendingPart>,
    part_bytes: Seq<Vec<u8>>,
    start: nat,
    n: int,
)
    requires
        0 <= n <= parts.len(),
        part_bytes.len() == parts.len(),
    ensures
        layout_error(parts, part_bytes, start, n) is None <==> forall|i: int|
            0 <= i < n ==> #[trigger] part_fits(part_bytes, start, i),
    decreases n,
{
    if n > 0 {
        law_when_a_pack_fits(parts, part_bytes, start, n - 1);
        lemma_data_region_len(part_bytes, start, n - 1);
        assert(part_fits(part_bytes, start, n - 1) <==> placing_error(
            parts,
            part_bytes,
            start,
            n - 1,
        ) is None);
    }
}

/// Numbers stand in a pack with their lowest byte first.
pub proof fn law_lowest_byte_first(n: nat)
    requires
        n <= u32::MAX,
    ensures
        le32(n).len() == 4,
        le32(n)[0] + 0x100 * le32(n)[1] + 0x1_0000 * le32(n)[2] + 0x100_0000 * le32(n)[3] == n,
        le32_at(le32(n), 0) == n,
{
    let bytes = le32(n);
    assert(bytes.subrange(0, 4) =~= bytes);
    lemma_le32_round_trip(n, bytes, 0);
}

/// A pack holds at least one part, and no more than its header can count.
pub proof fn law_part_counts(count: nat, input_dir: Seq<char>)
    ensures
        part_count_error(count, input_dir) is None <==> 1 <= count <= u32::MAX,
{
}

} // verus!
