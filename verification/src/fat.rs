//! The BIOS Parameter Block, directory entries (short and long filenames),
//! and the packed date and time fields of the FAT16 on-disk format.

use vstd::prelude::*;

use crate::FatError;
use crate::utils::{le16, le32, read_le16, read_le32};

verus! {

/// A calendar date decoded from the packed 16-bit on-disk form.
#[derive(Debug, Clone, Copy, PartialEq, Eq, Structural)]
pub struct FatDate {
    pub year: u16,
    pub month: u8,
    pub day: u8,
}

/// A time of day decoded from the packed 16-bit on-disk form, with the
/// optional tenths-of-a-second byte.
#[derive(Debug, Clone, Copy, PartialEq, Eq, Structural)]
pub struct FatTime {
    pub hour: u8,
    pub minute: u8,
    pub second: u8,
    pub tenths_of_second: u8,
}

/// The date packed in `v`: bits 15..9 hold the year offset from 1980,
/// bits 8..5 the month, bits 4..0 the day.
pub open spec fn spec_date_of(v: u16) -> FatDate {
    FatDate {
        year: (((v >> 9) & 0x7F) + 1980) as u16,
        month: ((v >> 5) & 0x0F) as u8,
        day: (v & 0x1F) as u8,
    }
}

/// The packed form of date `d`; inverse of [`spec_date_of`] on its range.
pub open spec fn spec_date_pack(d: FatDate) -> u16 {
    (((((d.year - 1980) as u16) & 0x7F) << 9) | (((d.month & 0x0F) as u16) << 5) | ((d.day
        & 0x1F) as u16)) as u16
}

/// The time packed in `v`: bits 15..11 hold the hour, bits 10..5 the minute,
/// bits 4..0 the second halved; `tenths` is stored separately on disk.
pub open spec fn spec_time_of(v: u16, tenths: u8) -> FatTime {
    FatTime {
        hour: ((v >> 11) & 0x1F) as u8,
        minute: ((v >> 5) & 0x3F) as u8,
        second: (((v & 0x1F) * 2) as u16) as u8,
        tenths_of_second: tenths,
    }
}

impl FatDate {
    /// Decodes a packed 16-bit date.
    pub fn from_packed(v: u16) -> (r: FatDate)
        ensures
            r == spec_date_of(v),
    {
        proof {
            assert(((v >> 9) & 0x7F) <= 0x7F) by (bit_vector);
            assert(((v >> 5) & 0x0F) <= 0x0F) by (bit_vector);
            assert((v & 0x1F) <= 0x1F) by (bit_vector);
        }
        FatDate { year: ((v >> 9) & 0x7F) + 1980, month: ((v >> 5) & 0x0F) as u8, day: (v
            & 0x1F) as u8 }
    }

    /// Re-encodes this date into the packed 16-bit form.
    pub fn pack(&self) -> (r: u16)
        requires
            self.year >= 1980,
        ensures
            r == spec_date_pack(*self),
    {
        ((((self.year - 1980) & 0x7F) << 9) | (((self.month & 0x0F) as u16) << 5) | ((self.day
            & 0x1F) as u16)) as u16
    }
}

impl FatTime {
    /// Decodes a packed 16-bit time together with its tenths-of-a-second byte.
    pub fn from_packed(v: u16, tenths: u8) -> (r: FatTime)
        ensures
            r == spec_time_of(v, tenths),
    {
        proof {
            assert((v & 0x1F) <= 0x1F) by (bit_vector);
        }
        FatTime {
            hour: ((v >> 11) & 0x1F) as u8,
            minute: ((v >> 5) & 0x3F) as u8,
            second: ((v & 0x1F) * 2) as u8,
            tenths_of_second: tenths,
        }
    }
}

/// Law: re-encoding a decoded date restores the packed word exactly, for
/// every 16-bit value — the three bit fields together cover all 16 bits.
pub proof fn lemma_date_round_trip(v: u16)
    ensures
        spec_date_pack(spec_date_of(v)) == v,
{
    assert(((v >> 9) & 0x7F) <= 0x7F) by (bit_vector);
    assert((((((v >> 5) & 0x0F) as u8) & 0x0F) as u16) == ((v >> 5) & 0x0F)) by (bit_vector);
    assert(((((v & 0x1F) as u8) & 0x1F) as u16) == (v & 0x1F)) by (bit_vector);
    assert((((v >> 9) & 0x7F) & 0x7F) == ((v >> 9) & 0x7F)) by (bit_vector);
    assert(((((v >> 9) & 0x7F) << 9) | (((v >> 5) & 0x0F) << 5) | (v & 0x1F)) == v)
        by (bit_vector);
    let d = spec_date_of(v);
    assert(d.year == ((v >> 9) & 0x7F) + 1980);
    assert(((d.year - 1980) as u16) == ((v >> 9) & 0x7F));
}

/// A directory entry as the decoder presents it: the composed name, the raw
/// attribute bits, timestamps, the entry's first cluster and its size.
#[derive(Debug)]
pub struct FatDirEntry {
    pub name: String,
    pub attribute: u8,
    pub reserved: u8,
    pub creation_time: FatTime,
    pub creation_date: FatDate,
    pub last_access_date: FatDate,
    pub last_modify_time: FatTime,
    pub last_modify_date: FatDate,
    /// The 16-bit first-cluster field, zero-extended to 32 bits.
    pub first_cluster: u32,
    pub file_size: u32,
}

/// The mathematical image of a [`FatDirEntry`]: the name as a character
/// sequence, all other fields as plain values.
#[verifier::ext_equal]
pub ghost struct DirEntryModel {
    pub name: Seq<char>,
    pub attribute: u8,
    pub reserved: u8,
    pub creation_time: FatTime,
    pub creation_date: FatDate,
    pub last_access_date: FatDate,
    pub last_modify_time: FatTime,
    pub last_modify_date: FatDate,
    pub first_cluster: u32,
    pub file_size: u32,
}

impl DirEntryModel {
    /// Whether the directory attribute bit (0x10) is set.
    pub open spec fn is_dir(self) -> bool {
        self.attribute & 0x10 != 0
    }
}

impl View for FatDirEntry {
    type V = DirEntryModel;

    open spec fn view(&self) -> DirEntryModel {
        DirEntryModel {
            name: self.name@,
            attribute: self.attribute,
            reserved: self.reserved,
            creation_time: self.creation_time,
            creation_date: self.creation_date,
            last_access_date: self.last_access_date,
            last_modify_time: self.last_modify_time,
            last_modify_date: self.last_modify_date,
            first_cluster: self.first_cluster,
            file_size: self.file_size,
        }
    }
}

impl DeepView for FatDirEntry {
    type V = DirEntryModel;

    open spec fn deep_view(&self) -> DirEntryModel {
        self.view()
    }
}

/// The number of leading 32-byte slots of `region` that are long-filename
/// fragments (attribute byte 0x0F); only whole slots count.
pub open spec fn spec_lfn_run(region: Seq<u8>) -> nat
    decreases region.len(),
{
    if region.len() >= 32 && region[11] == 0x0F {
        (1 + spec_lfn_run(region.skip(32))) as nat
    } else {
        0
    }
}

/// The 13 UTF-16 code units of the long-filename fragment in the slot at
/// byte offset `32 * k`: character offsets 1..11, 14..26 and 28..32.
pub open spec fn frag_units(region: Seq<u8>, k: int) -> Seq<u16> {
    let b = 32 * k;
    seq![
        le16(region, b + 1),
        le16(region, b + 3),
        le16(region, b + 5),
        le16(region, b + 7),
        le16(region, b + 9),
        le16(region, b + 14),
        le16(region, b + 16),
        le16(region, b + 18),
        le16(region, b + 20),
        le16(region, b + 22),
        le16(region, b + 24),
        le16(region, b + 28),
        le16(region, b + 30),
    ]
}

/// UTF-16 decoding of `u`: `None` when a surrogate is unpaired, otherwise
/// the decoded character sequence.
pub open spec fn utf16_decode(u: Seq<u16>) -> Option<Seq<char>>
    decreases u.len(),
{
    if u.len() == 0 {
        Some(Seq::empty())
    } else {
        let c0 = u[0];
        if c0 < 0xD800 || c0 >= 0xE000 {
            match utf16_decode(u.skip(1)) {
                None => None,
                Some(rest) => Some(seq![(c0 as u32) as char] + rest),
            }
        } else if c0 < 0xDC00 {
            if u.len() >= 2 && 0xDC00 <= u[1] && u[1] < 0xE000 {
                let cp = (0x10000 + (c0 - 0xD800) * 0x400 + (u[1] - 0xDC00)) as u32;
                match utf16_decode(u.skip(2)) {
                    None => None,
                    Some(rest) => Some(seq![cp as char] + rest),
                }
            } else {
                None
            }
        } else {
            None
        }
    }
}

/// The text collected from the first `k` long-filename fragments of
/// `region`. Fragments read earlier contribute the later characters, so each
/// decoded fragment is prepended; `None` when any fragment is invalid UTF-16.
pub open spec fn run_name(region: Seq<u8>, k: int) -> Option<Seq<char>>
    decreases k,
{
    if k <= 0 {
        Some(Seq::empty())
    } else {
        match (utf16_decode(frag_units(region, k - 1)), run_name(region, k - 1)) {
            (Some(d), Some(t)) => Some(d + t),
            _ => None,
        }
    }
}

/// The index of the first NUL in `s`, or `s.len()` if there is none.
pub open spec fn first_nul(s: Seq<char>) -> int
    decreases s.len(),
{
    if s.len() == 0 {
        0
    } else if s[0] == '\u{0}' {
        0
    } else {
        1 + first_nul(s.skip(1))
    }
}

/// `s` cut at its first NUL terminator; the terminator and everything after
/// it (the 0xFFFF padding) are dropped.
pub open spec fn trim_nul(s: Seq<char>) -> Seq<char> {
    if 0 <= first_nul(s) <= s.len() {
        s.take(first_nul(s))
    } else {
        s
    }
}

/// `b` with its trailing 0x20 space bytes removed.
pub open spec fn trim_tail_spaces(b: Seq<u8>) -> Seq<u8>
    decreases b.len(),
{
    if b.len() > 0 && b[b.len() - 1] == 0x20 {
        trim_tail_spaces(b.drop_last())
    } else {
        b
    }
}

/// The bytes of `b` read as characters, one character per byte.
pub open spec fn ascii_chars(b: Seq<u8>) -> Seq<char> {
    Seq::new(b.len(), |i: int| b[i] as char)
}

/// The presentation name composed from the 8.3 short-name field of the slot
/// at byte offset `b`: the space-trimmed base and extension joined with `.`
/// unconditionally.
pub open spec fn sfn_name(region: Seq<u8>, b: int) -> Seq<char> {
    ascii_chars(trim_tail_spaces(region.subrange(b, b + 8))) + seq!['.'] + ascii_chars(
        trim_tail_spaces(region.subrange(b + 8, b + 11)))
}

/// The entry stored in the short-name slot at byte offset `b` of `region`,
/// presented under the name `name`.
pub open spec fn entry_of(region: Seq<u8>, b: int, name: Seq<char>) -> DirEntryModel {
    DirEntryModel {
        name: name,
        attribute: region[b + 11],
        reserved: region[b + 12],
        creation_time: spec_time_of(le16(region, b + 14), region[b + 13]),
        creation_date: spec_date_of(le16(region, b + 16)),
        last_access_date: spec_date_of(le16(region, b + 18)),
        last_modify_time: spec_time_of(le16(region, b + 22), 0),
        last_modify_date: spec_date_of(le16(region, b + 24)),
        first_cluster: le16(region, b + 26) as u32,
        file_size: le32(region, b + 28),
    }
}

/// The name under which the slot at byte offset `32 * k` is presented when a
/// run of `k` long-filename fragments precedes it: the collected long name
/// cut at its NUL terminator, or the composed short name when there is none.
pub open spec fn slot_name(region: Seq<u8>, k: int) -> Seq<char> {
    if k > 0 {
        trim_nul(run_name(region, k).unwrap())
    } else {
        sfn_name(region, 32 * k)
    }
}

/// The logical entries of a directory region, scanned slot by slot.
///
/// A long-filename run is collected first; invalid UTF-16 in any fragment
/// stops the whole decode (`None`). A run that reaches the end of the region
/// without a following short-name slot ends the scan. A short-name slot whose
/// first byte is 0x00 (end sentinel) or 0xE5 (deleted) yields no entry and
/// the scan resumes one slot further on — tolerant of non-conforming images
/// that overwrite slots past the sentinel, and matching how a deleted slot
/// after a stray fragment run invalidates only that one slot.
pub open spec fn spec_parse_region(region: Seq<u8>) -> Option<Seq<DirEntryModel>>
    decreases region.len(),
{
    if region.len() < 32 {
        Some(Seq::empty())
    } else {
        let k = spec_lfn_run(region) as int;
        match run_name(region, k) {
            None => None,
            Some(raw) => {
                if 32 * (k + 1) > region.len() {
                    Some(Seq::empty())
                } else if region[32 * k] == 0x00 || region[32 * k] == 0xE5 {
                    spec_parse_region(region.skip(32))
                } else {
                    match spec_parse_region(region.skip(32 * (k + 1))) {
                        None => None,
                        Some(rest) => Some(
                            seq![entry_of(region, 32 * k, slot_name(region, k))] + rest,
                        ),
                    }
                }
            },
        }
    }
}

proof fn lemma_first_nul_props(s: Seq<char>)
    ensures
        0 <= first_nul(s) <= s.len(),
        forall|m: int| 0 <= m < first_nul(s) ==> s[m] != '\u{0}',
        first_nul(s) < s.len() ==> s[first_nul(s)] == '\u{0}',
    decreases s.len(),
{
    if s.len() == 0 {
    } else if s[0] == '\u{0}' {
    } else {
        lemma_first_nul_props(s.skip(1));
        assert forall|m: int| 0 <= m < first_nul(s) implies s[m] != '\u{0}' by {
            if m > 0 {
                assert(s.skip(1)[m - 1] == s[m]);
            }
        }
    }
}

/// Law: a long filename cut at its NUL terminator contains no NUL; and when
/// every 0xFFFF pad unit sits after a NUL terminator, as the on-disk format
/// lays them out, it contains no 0xFFFF padding either.
pub proof fn lemma_lfn_name_clean(s: Seq<char>)
    requires
        forall|i: int|
            0 <= i < s.len() && #[trigger] s[i] == '\u{FFFF}' ==> exists|j: int|
                0 <= j < i && s[j] == '\u{0}',
    ensures
        forall|i: int|
            0 <= i < trim_nul(s).len() ==> #[trigger] trim_nul(s)[i] != '\u{0}' && trim_nul(s)[i]
                != '\u{FFFF}',
{
    lemma_first_nul_props(s);
    let t = first_nul(s);
    assert forall|i: int| 0 <= i < trim_nul(s).len() implies #[trigger] trim_nul(s)[i] != '\u{0}'
        && trim_nul(s)[i] != '\u{FFFF}' by {
        assert(trim_nul(s)[i] == s[i]);
        if s[i] == '\u{FFFF}' {
            let j = choose|j: int| 0 <= j < i && s[j] == '\u{0}';
            assert(s[j] != '\u{0}');
        }
    }
}

proof fn lemma_run_name_none(region: Seq<u8>, i: int, k: int)
    requires
        0 <= i < k,
        run_name(region, i + 1) is None,
    ensures
        run_name(region, k) is None,
    decreases k - i,
{
    if i + 1 < k {
        lemma_run_name_none(region, i + 1, k);
    }
}

/// Decodes a sequence of UTF-16 code units, or reports that a surrogate is
/// unpaired.
fn utf16_to_string(units: &Vec<u16>) -> (r: Option<String>)
    ensures
        match r {
            Some(s) => utf16_decode(units@) == Some(s@),
            None => utf16_decode(units@) is None,
        },
{
    broadcast use vstd::utf8::char_u32_cast;

    let n = units.len();
    let mut out = String::new();
    let mut i: usize = 0;
    proof {
        assert(units@.skip(0) =~= units@);
        match utf16_decode(units@) {
            Some(rest) => {
                assert(out@ + rest =~= rest);
            },
            None => {},
        }
    }
    while i < n
        invariant
            0 <= i <= n,
            n == units@.len(),
            match utf16_decode(units@.skip(i as int)) {
                Some(rest) => utf16_decode(units@) == Some(out@ + rest),
                None => utf16_decode(units@) is None,
            },
        decreases n - i,
    {
        let u = units[i];
        let ghost pre = units@.skip(i as int);
        assert(pre[0] == u);
        if u < 0xD800 || u >= 0xE000 {
            let ghost old_out = out@;
            let copt = char::from_u32(u as u32);
            let c = copt.unwrap();
            out.push(c);
            proof {
                assert(c as u32 == u as u32);
                vstd::utf8::char_u32_cast(c, u as u32);
                assert(c == (u as u32) as char);
                assert(pre.skip(1) =~= units@.skip(i + 1));
                match utf16_decode(units@.skip(i + 1)) {
                    Some(rest2) => {
                        assert(old_out + (seq![c] + rest2) =~= out@ + rest2);
                    },
                    None => {},
                }
            }
            i = i + 1;
        } else if u < 0xDC00 {
            if i + 1 < n {
                let u2 = units[i + 1];
                proof {
                    assert(pre[1] == u2);
                }
                if 0xDC00 <= u2 && u2 < 0xE000 {
                    let ghost old_out = out@;
                    let cp: u32 = 0x10000 + (u as u32 - 0xD800) * 0x400 + (u2 as u32 - 0xDC00);
                    let copt = char::from_u32(cp);
                    let c = copt.unwrap();
                    out.push(c);
                    proof {
                        assert(cp == (0x10000 + (pre[0] - 0xD800) * 0x400 + (pre[1]
                            - 0xDC00)) as u32);
                        assert(c as u32 == cp);
                        vstd::utf8::char_u32_cast(c, cp);
                        assert(c == cp as char);
                        assert(pre.skip(2) =~= units@.skip(i + 2));
                        match utf16_decode(units@.skip(i + 2)) {
                            Some(rest2) => {
                                assert(old_out + (seq![c] + rest2) =~= out@ + rest2);
                            },
                            None => {},
                        }
                    }
                    i = i + 2;
                } else {
                    return None;
                }
            } else {
                assert(pre.len() == 1);
                return None;
            }
        } else {
            return None;
        }
    }
    proof {
        assert(units@.skip(n as int) =~= Seq::<u16>::empty());
        assert(out@ + Seq::<char>::empty() =~= out@);
    }
    Some(out)
}

proof fn lemma_first_nul_at(s: Seq<char>, t: int)
    requires
        0 <= t <= s.len(),
        forall|m: int| 0 <= m < t ==> s[m] != '\u{0}',
        t == s.len() || s[t] == '\u{0}',
    ensures
        first_nul(s) == t,
    decreases t,
{
    if t == 0 {
    } else {
        assert(s[0] != '\u{0}');
        lemma_first_nul_at(s.skip(1), t - 1);
    }
}

/// Cuts a string at its first NUL character.
fn trim_nul_exec(s: &str) -> (r: String)
    ensures
        r@ == trim_nul(s@),
{
    let n = s.unicode_len();
    let mut out = String::new();
    let mut i: usize = 0;
    while i < n
        invariant
            0 <= i <= n,
            n == s@.len(),
            out@ == s@.take(i as int),
            forall|m: int| 0 <= m < i ==> s@[m] != '\u{0}',
        decreases n - i,
    {
        let c = s.get_char(i);
        if c == '\u{0}' {
            proof {
                lemma_first_nul_at(s@, i as int);
            }
            return out;
        }
        out.push(c);
        proof {
            assert(s@.take(i + 1) =~= s@.take(i as int).push(s@[i as int]));
        }
        i = i + 1;
    }
    proof {
        lemma_first_nul_at(s@, n as int);
        assert(s@.take(n as int) =~= s@);
    }
    out
}

proof fn lemma_trim_tail_at(b: Seq<u8>, t: int)
    requires
        0 <= t <= b.len(),
        forall|m: int| t <= m < b.len() ==> b[m] == 0x20,
        t == 0 || b[t - 1] != 0x20,
    ensures
        trim_tail_spaces(b) == b.take(t),
    decreases b.len(),
{
    if t < b.len() {
        assert(b[b.len() - 1] == 0x20);
        lemma_trim_tail_at(b.drop_last(), t);
        assert(b.drop_last().take(t) =~= b.take(t));
    } else {
        if b.len() > 0 {
            assert(b[b.len() - 1] != 0x20);
        }
        assert(b.take(t) =~= b);
    }
}

/// Appends to `out` the bytes `s[from..to]` read as characters, with
/// trailing spaces dropped first.
fn push_trimmed_ascii(out: &mut String, s: &[u8], from: usize, to: usize)
    requires
        from <= to <= s@.len(),
    ensures
        final(out)@ == old(out)@ + ascii_chars(trim_tail_spaces(s@.subrange(
            from as int,
            to as int,
        ))),
{
    let ghost field = s@.subrange(from as int, to as int);
    let mut end = to;
    while end > from && *vstd::slice::slice_index_get(s, end - 1) == 0x20
        invariant
            from <= end <= to <= s@.len(),
            field == s@.subrange(from as int, to as int),
            forall|m: int| end - from <= m < field.len() ==> field[m] == 0x20,
        decreases end,
    {
        proof {
            assert(field[end - 1 - from] == s@[end - 1]);
        }
        end = end - 1;
    }
    proof {
        if end > from {
            assert(field[end - 1 - from] == s@[end - 1]);
        }
        lemma_trim_tail_at(field, end - from);
    }
    let ghost base = out@;
    let ghost trimmed = trim_tail_spaces(field);
    proof {
        assert(base + ascii_chars(trimmed).take(0) =~= base);
    }
    let mut i = from;
    while i < end
        invariant
            from <= i <= end <= to <= s@.len(),
            field == s@.subrange(from as int, to as int),
            trimmed == field.take(end - from),
            out@ == base + ascii_chars(trimmed).take(i - from),
        decreases end - i,
    {
        let byte = *vstd::slice::slice_index_get(s, i);
        let ghost before = out@;
        out.push(byte as char);
        proof {
            assert(field[i - from] == s@[i as int]);
            assert(trimmed[i - from] == field[i - from]);
            assert(ascii_chars(trimmed)[i - from] == trimmed[i - from] as char);
            assert(out@ =~= before.push(s@[i as int] as char));
            assert(ascii_chars(trimmed).take(i + 1 - from) =~= ascii_chars(trimmed).take(
                i - from,
            ).push(ascii_chars(trimmed)[i - from]));
            assert(out@ =~= base + ascii_chars(trimmed).take(i + 1 - from));
        }
        i = i + 1;
    }
    proof {
        assert(ascii_chars(trimmed).take(end - from) =~= ascii_chars(trimmed));
    }
}

/// Composes the presentation name from the 8.3 short-name field of the slot
/// at byte offset `b`: space-trimmed base, a `.`, and the space-trimmed
/// extension.
fn sfn_string(region: &[u8], b: usize) -> (r: String)
    requires
        b + 32 <= region@.len(),
    ensures
        r@ == sfn_name(region@, b as int),
{
    // Binding the length makes its usize bound visible, so `b + 8` cannot
    // overflow.
    let n = region.len();
    let mut out = String::new();
    push_trimmed_ascii(&mut out, region, b, b + 8);
    out.push('.');
    push_trimmed_ascii(&mut out, region, b + 8, b + 11);
    proof {
        assert(out@ =~= sfn_name(region@, b as int));
    }
    out
}

/// Scans the slot group at the head of `region`: the long-filename run and,
/// when one follows within the region, the short-name slot after it. Returns
/// the decoded entry (none for a deleted or end-sentinel slot), the length
/// `k` of the run, and whether the run was cut off by the end of the region.
fn parse_slot(region: &[u8]) -> (r: Result<(Option<FatDirEntry>, usize, bool), FatError>)
    requires
        region@.len() >= 32,
    ensures
        match r {
            Ok((opt, k, trunc)) => {
                &&& k == spec_lfn_run(region@)
                &&& run_name(region@, k as int) is Some
                &&& 32 * k <= region@.len()
                &&& if trunc {
                    32 * (k + 1) > region@.len() && opt is None
                } else {
                    32 * (k + 1) <= region@.len() && match opt {
                        None => region@[32 * k as int] == 0x00 || region@[32 * k as int] == 0xE5,
                        Some(e) => region@[32 * k as int] != 0x00 && region@[32 * k as int] != 0xE5
                            && e@ == entry_of(
                            region@,
                            32 * k as int,
                            slot_name(region@, k as int),
                        ),
                    }
                }
            },
            Err(e) => e == FatError::EncodingError && run_name(
                region@,
                spec_lfn_run(region@) as int,
            ) is None,
        },
{
    let n = region.len();
    // Measure the long-filename run.
    let mut k: usize = 0;
    proof {
        assert(region@.skip(0) =~= region@);
    }
    while k + 1 <= n / 32 && *vstd::slice::slice_index_get(region, 32 * k + 11) == 0x0F
        invariant
            n == region@.len(),
            32 * k <= n,
            spec_lfn_run(region@) == k + spec_lfn_run(region@.skip(32 * k as int)),
        decreases n - 32 * k,
    {
        proof {
            let suf = region@.skip(32 * k as int);
            assert(32 * (k + 1) <= n);
            assert(suf[11] == region@[32 * k + 11]);
            assert(spec_lfn_run(suf) == 1 + spec_lfn_run(suf.skip(32)));
            assert(suf.skip(32) =~= region@.skip(32 * (k + 1) as int));
        }
        k = k + 1;
    }
    proof {
        let suf = region@.skip(32 * k as int);
        if k + 1 <= n / 32 {
            assert(suf[11] == region@[32 * k + 11]);
            assert(spec_lfn_run(suf) == 0);
        } else {
            assert(32 * (k + 1) > n);
            assert(suf.len() < 32);
            assert(spec_lfn_run(suf) == 0);
        }
        assert(spec_lfn_run(region@) == k);
    }
    // Collect the long name, one 13-unit fragment per slot, prepending.
    let mut text = String::new();
    let mut i: usize = 0;
    while i < k
        invariant
            n == region@.len(),
            i <= k,
            32 * k <= n,
            k == spec_lfn_run(region@),
            run_name(region@, i as int) == Some(text@),
        decreases k - i,
    {
        let b = 32 * i;
        proof {
            assert(32 * (i + 1) <= 32 * k);
        }
        let mut units: Vec<u16> = Vec::new();
        units.push(read_le16(region, b + 1));
        units.push(read_le16(region, b + 3));
        units.push(read_le16(region, b + 5));
        units.push(read_le16(region, b + 7));
        units.push(read_le16(region, b + 9));
        units.push(read_le16(region, b + 14));
        units.push(read_le16(region, b + 16));
        units.push(read_le16(region, b + 18));
        units.push(read_le16(region, b + 20));
        units.push(read_le16(region, b + 22));
        units.push(read_le16(region, b + 24));
        units.push(read_le16(region, b + 28));
        units.push(read_le16(region, b + 30));
        proof {
            assert(units@ =~= frag_units(region@, i as int));
        }
        match utf16_to_string(&units) {
            None => {
                proof {
                    assert(run_name(region@, i + 1) is None);
                    if i + 1 < k {
                        lemma_run_name_none(region@, i as int, k as int);
                    }
                }
                return Err(FatError::EncodingError);
            },
            Some(frag) => {
                let ghost old_text = text@;
                text = frag.concat(text.as_str());
                proof {
                    assert(run_name(region@, i + 1) == Some(frag@ + old_text));
                }
            },
        }
        i = i + 1;
    }
    // The run must be followed by a short-name slot inside the region.
    if k + 1 > n / 32 {
        proof {
            assert(32 * (k + 1) > n);
        }
        return Ok((None, k, true));
    }
    proof {
        assert(32 * (k + 1) <= n);
    }
    let b = 32 * k;
    let first = *vstd::slice::slice_index_get(region, b);
    if first == 0x00 || first == 0xE5 {
        return Ok((None, k, false));
    }
    let name = if k > 0 {
        trim_nul_exec(text.as_str())
    } else {
        sfn_string(region, b)
    };
    let ghost nm = name@;
    proof {
        assert(nm == slot_name(region@, k as int));
    }
    let entry = FatDirEntry {
        name,
        attribute: *vstd::slice::slice_index_get(region, b + 11),
        reserved: *vstd::slice::slice_index_get(region, b + 12),
        creation_time: FatTime::from_packed(
            read_le16(region, b + 14),
            *vstd::slice::slice_index_get(region, b + 13),
        ),
        creation_date: FatDate::from_packed(read_le16(region, b + 16)),
        last_access_date: FatDate::from_packed(read_le16(region, b + 18)),
        last_modify_time: FatTime::from_packed(read_le16(region, b + 22), 0),
        last_modify_date: FatDate::from_packed(read_le16(region, b + 24)),
        first_cluster: read_le16(region, b + 26) as u32,
        file_size: read_le32(region, b + 28),
    };
    proof {
        assert(entry@ =~= entry_of(region@, b as int, slot_name(region@, k as int)));
    }
    Ok((Some(entry), k, false))
}

/// Decodes `nslots` consecutive 32-byte directory slots at the head of
/// `bytes` and returns the logical entries together with the rest of the
/// input. Fails with `ShortBuffer` exactly when the input holds fewer than
/// `32 * nslots` bytes, and with `EncodingError` exactly when a long-filename
/// fragment in the region is not valid UTF-16.
/// The entries already collected, followed by whatever `suffix` still
/// parses to, make up what `region0` parses to; a decode error in the
/// suffix is a decode error of the whole region.
pub open spec fn parse_cont(region0: Seq<u8>, suffix: Seq<u8>, acc: Seq<DirEntryModel>) -> bool {
    match spec_parse_region(suffix) {
        Some(rest) => spec_parse_region(region0) == Some(acc + rest),
        None => spec_parse_region(region0) is None,
    }
}

proof fn lemma_cont_init(region0: Seq<u8>)
    ensures
        parse_cont(region0, region0, Seq::empty()),
{
    match spec_parse_region(region0) {
        Some(rest) => {
            assert(Seq::<DirEntryModel>::empty() + rest =~= rest);
        },
        None => {},
    }
}

proof fn lemma_cont_same(region0: Seq<u8>, suf: Seq<u8>, suf2: Seq<u8>, acc: Seq<DirEntryModel>)
    requires
        parse_cont(region0, suf, acc),
        spec_parse_region(suf) == spec_parse_region(suf2),
    ensures
        parse_cont(region0, suf2, acc),
{
}

proof fn lemma_cont_entry(
    region0: Seq<u8>,
    suf: Seq<u8>,
    suf2: Seq<u8>,
    acc: Seq<DirEntryModel>,
    ev: DirEntryModel,
)
    requires
        parse_cont(region0, suf, acc),
        spec_parse_region(suf) == match spec_parse_region(suf2) {
            None => None::<Seq<DirEntryModel>>,
            Some(rest) => Some(seq![ev] + rest),
        },
    ensures
        parse_cont(region0, suf2, acc.push(ev)),
{
    match spec_parse_region(suf2) {
        Some(rest) => {
            assert(acc + (seq![ev] + rest) =~= acc.push(ev) + rest);
        },
        None => {},
    }
}

proof fn lemma_cont_none(region0: Seq<u8>, suf: Seq<u8>, acc: Seq<DirEntryModel>)
    requires
        parse_cont(region0, suf, acc),
        spec_parse_region(suf) is None,
    ensures
        spec_parse_region(region0) is None,
{
}

proof fn lemma_cont_done(region0: Seq<u8>, suf: Seq<u8>, acc: Seq<DirEntryModel>)
    requires
        parse_cont(region0, suf, acc),
        spec_parse_region(suf) == Some(Seq::<DirEntryModel>::empty()),
    ensures
        spec_parse_region(region0) == Some(acc),
{
    assert(acc + Seq::<DirEntryModel>::empty() =~= acc);
}

proof fn lemma_parse_short(region: Seq<u8>)
    requires
        region.len() < 32,
    ensures
        spec_parse_region(region) == Some(Seq::<DirEntryModel>::empty()),
{
}

proof fn lemma_parse_step_err(region: Seq<u8>)
    requires
        region.len() >= 32,
        run_name(region, spec_lfn_run(region) as int) is None,
    ensures
        spec_parse_region(region) is None,
{
}

proof fn lemma_parse_step_trunc(region: Seq<u8>)
    requires
        region.len() >= 32,
        run_name(region, spec_lfn_run(region) as int) is Some,
        32 * (spec_lfn_run(region) + 1) > region.len(),
    ensures
        spec_parse_region(region) == Some(Seq::<DirEntryModel>::empty()),
{
}

proof fn lemma_parse_step_skip(region: Seq<u8>)
    requires
        region.len() >= 32,
        run_name(region, spec_lfn_run(region) as int) is Some,
        32 * (spec_lfn_run(region) + 1) <= region.len(),
        region[32 * spec_lfn_run(region) as int] == 0x00 || region[32 * spec_lfn_run(
            region,
        ) as int] == 0xE5,
    ensures
        spec_parse_region(region) == spec_parse_region(region.skip(32)),
{
}

proof fn lemma_parse_step_entry(region: Seq<u8>)
    requires
        region.len() >= 32,
        run_name(region, spec_lfn_run(region) as int) is Some,
        32 * (spec_lfn_run(region) + 1) <= region.len(),
        region[32 * spec_lfn_run(region) as int] != 0x00,
        region[32 * spec_lfn_run(region) as int] != 0xE5,
    ensures
        spec_parse_region(region) == match spec_parse_region(
            region.skip(32 * (spec_lfn_run(region) as int + 1)),
        ) {
            None => None::<Seq<DirEntryModel>>,
            Some(rest) => Some(
                seq![
                    entry_of(
                        region,
                        32 * spec_lfn_run(region) as int,
                        slot_name(region, spec_lfn_run(region) as int),
                    ),
                ] + rest,
            ),
        },
{
}

#[verifier::rlimit(60)]
pub(crate) fn parse_region(bytes: &[u8], nslots: usize) -> (r: Result<
    (Vec<FatDirEntry>, &[u8]),
    FatError,
>)
    ensures
        match r {
            Ok((entries, rest)) => {
                &&& 32 * nslots <= bytes@.len()
                &&& spec_parse_region(bytes@.take(32 * nslots as int)) == Some(entries.deep_view())
                &&& rest@ == bytes@.skip(32 * nslots as int)
            },
            Err(e) => (e == FatError::ShortBuffer && 32 * nslots > bytes@.len()) || (e
                == FatError::EncodingError && 32 * nslots <= bytes@.len() && spec_parse_region(
                bytes@.take(32 * nslots as int),
            ) is None),
        },
{
    let n = bytes.len();
    if nslots > n / 32 {
        proof {
            assert(32 * nslots > n);
        }
        return Err(FatError::ShortBuffer);
    }
    proof {
        assert(32 * nslots <= n);
    }
    let total = 32 * nslots;
    let ghost region0 = bytes@.take(total as int);
    let mut entries: Vec<FatDirEntry> = Vec::new();
    let mut pos: usize = 0;
    proof {
        assert(bytes@.subrange(0, total as int) =~= region0);
        lemma_cont_init(region0);
        assert(entries.deep_view() =~= Seq::<DirEntryModel>::empty());
    }
    while pos < total
        invariant
            total == 32 * nslots,
            total <= n,
            n == bytes@.len(),
            pos <= total,
            pos % 32 == 0,
            total % 32 == 0,
            region0 == bytes@.take(total as int),
            parse_cont(region0, bytes@.subrange(pos as int, total as int), entries.deep_view()),
        decreases total - pos,
    {
        let rem = vstd::slice::slice_subrange(bytes, pos, total);
        proof {
            assert(total - pos >= 32);
        }
        match parse_slot(rem) {
            Err(_) => {
                proof {
                    lemma_parse_step_err(rem@);
                    lemma_cont_none(region0, rem@, entries.deep_view());
                }
                return Err(FatError::EncodingError);
            },
            Ok((opt, k, trunc)) => {
                if trunc {
                    proof {
                        lemma_parse_step_trunc(rem@);
                        lemma_cont_done(region0, rem@, entries.deep_view());
                        lemma_parse_short(bytes@.subrange(total as int, total as int));
                        assert(entries.deep_view() + Seq::<DirEntryModel>::empty()
                            =~= entries.deep_view());
                    }
                    pos = total;
                } else {
                    match opt {
                        None => {
                            proof {
                                lemma_parse_step_skip(rem@);
                                assert(rem@.skip(32) =~= bytes@.subrange(pos + 32, total as int));
                                lemma_cont_same(
                                    region0,
                                    rem@,
                                    bytes@.subrange(pos + 32, total as int),
                                    entries.deep_view(),
                                );
                            }
                            pos = pos + 32;
                        },
                        Some(e) => {
                            let ghost ev = e@;
                            let ghost dv_old = entries.deep_view();
                            let ghost suf2 = bytes@.subrange(pos + 32 * (k + 1), total as int);
                            proof {
                                lemma_parse_step_entry(rem@);
                                assert(rem@.skip(32 * (k + 1) as int) =~= suf2);
                                lemma_cont_entry(region0, rem@, suf2, dv_old, ev);
                            }
                            entries.push(e);
                            proof {
                                assert(entries.deep_view() =~= dv_old.push(ev));
                            }
                            pos = pos + 32 * (k + 1);
                        },
                    }
                }
            },
        }
    }
    proof {
        lemma_parse_short(bytes@.subrange(total as int, total as int));
        lemma_cont_done(
            region0,
            bytes@.subrange(total as int, total as int),
            entries.deep_view(),
        );
    }
    let rest = vstd::slice::slice_subrange(bytes, total, n);
    Ok((entries, rest))
}

impl FatDirEntry {
    /// Decodes `num_entry` consecutive 32-byte directory slots at the head
    /// of `bytes`, returning the logical entries and the remaining input.
    pub fn parses(bytes: &[u8], num_entry: u16) -> (r: Result<
        (Vec<FatDirEntry>, &[u8]),
        FatError,
    >)
        ensures
            match r {
                Ok((entries, rest)) => {
                    &&& 32 * num_entry as int <= bytes@.len()
                    &&& spec_parse_region(bytes@.take(32 * num_entry as int)) == Some(
                        entries.deep_view(),
                    )
                    &&& rest@ == bytes@.skip(32 * num_entry as int)
                },
                Err(e) => (e == FatError::ShortBuffer && 32 * num_entry as int > bytes@.len()) || (
                e == FatError::EncodingError && 32 * num_entry as int <= bytes@.len()
                    && spec_parse_region(bytes@.take(32 * num_entry as int)) is None),
            },
    {
        parse_region(bytes, num_entry as usize)
    }

    /// Decodes the slot group at the head of `bytes`: a long-filename run
    /// and the short-name slot after it. Returns the entry, or `None` with
    /// the input positioned at the short-name slot when that slot is deleted
    /// (0xE5), an end sentinel (0x00), or missing because the run reaches the
    /// end of the input.
    pub fn parse_entry(bytes: &[u8]) -> (r: Result<(Option<FatDirEntry>, &[u8]), FatError>)
        ensures
            match r {
                Ok((opt, rest)) => bytes@.len() >= 32 && {
                    let k = spec_lfn_run(bytes@) as int;
                    run_name(bytes@, k) is Some && match opt {
                        Some(e) => 32 * (k + 1) <= bytes@.len() && bytes@[32 * k] != 0x00
                            && bytes@[32 * k] != 0xE5 && e@ == entry_of(
                            bytes@,
                            32 * k,
                            slot_name(bytes@, k),
                        ) && rest@ == bytes@.skip(32 * (k + 1)),
                        None => (32 * (k + 1) > bytes@.len() || bytes@[32 * k] == 0x00 || bytes@[32
                            * k] == 0xE5) && rest@ == bytes@.skip(32 * k),
                    }
                },
                Err(e) => (e == FatError::ShortBuffer && bytes@.len() < 32) || (e
                    == FatError::EncodingError && bytes@.len() >= 32 && run_name(
                    bytes@,
                    spec_lfn_run(bytes@) as int,
                ) is None),
            },
    {
        let n = bytes.len();
        if n < 32 {
            return Err(FatError::ShortBuffer);
        }
        match parse_slot(bytes) {
            Err(e) => Err(e),
            Ok((opt, k, _trunc)) => {
                match opt {
                    Some(entry) => Ok(
                        (Some(entry), vstd::slice::slice_subrange(bytes, 32 * (k + 1), n)),
                    ),
                    None => Ok((None, vstd::slice::slice_subrange(bytes, 32 * k, n))),
                }
            },
        }
    }
}

/// Every whole slot of `region` stores a first-cluster field that is 0 (an
/// empty file) or lies in 2..`cnt`.
pub open spec fn slots_cluster_ok(region: Seq<u8>, cnt: int) -> bool {
    forall|s: int|
        0 <= s < region.len() / 32 ==> (#[trigger] le16(region, 32 * s + 26) == 0 || (2 <= le16(
            region,
            32 * s + 26,
        ) && le16(region, 32 * s + 26) < cnt))
}

/// Law: the decoder draws each entry's first cluster verbatim from its
/// slot, so when every slot of a directory region stores a first-cluster
/// field that is 0 (an empty file) or lies in 2..`cnt`, every decoded
/// entry's `first_cluster` does too.
pub proof fn lemma_entries_cluster_bounds(region: Seq<u8>, cnt: int)
    requires
        slots_cluster_ok(region, cnt),
    ensures
        spec_parse_region(region) matches Some(es) ==> forall|i: int|
            0 <= i < es.len() ==> (#[trigger] es[i].first_cluster == 0 || (2
                <= es[i].first_cluster && es[i].first_cluster < cnt)),
    decreases region.len(),
{
    if region.len() < 32 {
    } else {
        let k = spec_lfn_run(region) as int;
        match run_name(region, k) {
            None => {},
            Some(_) => {
                if 32 * (k + 1) > region.len() {
                } else {
                    let adv: int = if region[32 * k] == 0x00 || region[32 * k] == 0xE5 {
                        1
                    } else {
                        k + 1
                    };
                    let r2 = region.skip(32 * adv);
                    assert(32 * adv <= region.len());
                    assert forall|s: int| 0 <= s < r2.len() / 32 implies (#[trigger] le16(
                        r2,
                        32 * s + 26,
                    ) == 0 || (2 <= le16(r2, 32 * s + 26) && le16(r2, 32 * s + 26) < cnt)) by {
                        assert(slots_cluster_ok(region, cnt));
                        assert(r2[32 * s + 26] == region[32 * (s + adv) + 26]);
                        assert(r2[32 * s + 27] == region[32 * (s + adv) + 27]);
                        assert(le16(r2, 32 * s + 26) == le16(region, 32 * (s + adv) + 26));
                        assert(0 <= s + adv < region.len() / 32);
                        assert(le16(region, 32 * (s + adv) + 26) == 0 || (2 <= le16(
                            region,
                            32 * (s + adv) + 26,
                        ) && le16(region, 32 * (s + adv) + 26) < cnt));
                    }
                    assert(slots_cluster_ok(r2, cnt));
                    lemma_entries_cluster_bounds(r2, cnt);
                    if region[32 * k] == 0x00 || region[32 * k] == 0xE5 {
                    } else {
                        assert(0 <= k < region.len() / 32);
                        let head = entry_of(region, 32 * k, slot_name(region, k));
                        assert(head.first_cluster == le16(region, 32 * k + 26));
                        match spec_parse_region(r2) {
                            None => {},
                            Some(rest) => {
                                let es = seq![head] + rest;
                                assert(spec_parse_region(region) == Some(es));
                                assert forall|i: int|
                                    0 <= i < es.len() implies (#[trigger] es[i].first_cluster == 0
                                    || (2 <= es[i].first_cluster && es[i].first_cluster
                                    < cnt)) by {
                                    if i == 0 {
                                        assert(es[0] == head);
                                    } else {
                                        assert(es[i] == rest[i - 1]);
                                    }
                                }
                            },
                        }
                    }
                }
            },
        }
    }
}

/// The BIOS Parameter Block: the first 36 bytes of the boot sector.
#[derive(Debug)]
pub struct FatBPB {
    /// The first three bytes, an x86 jump instruction; preserved verbatim.
    pub x86_jmp: Vec<u8>,
    /// OEM identifier, 8 bytes of ASCII with trailing spaces kept.
    pub oem_name: Vec<u8>,
    pub bytes_per_sector: u16,
    pub sectors_per_cluster: u8,
    pub reserved_sector_count: u16,
    pub num_fats: u8,
    pub root_entry_count: u16,
    pub total_sectors: u16,
    pub media: u8,
    pub sectors_per_fat: u16,
    pub sectors_per_track: u16,
    pub num_heads: u16,
    pub hidden_sectors: u32,
    pub large_sectors: u32,
}

/// All scalar fields of `bpb` hold the values stored at their offsets in `b`,
/// and the two byte-array fields hold their ranges verbatim.
pub open spec fn bpb_matches(bpb: FatBPB, b: Seq<u8>) -> bool {
    &&& bpb.x86_jmp@ == b.subrange(0, 3)
    &&& bpb.oem_name@ == b.subrange(3, 11)
    &&& bpb.bytes_per_sector == le16(b, 11)
    &&& bpb.sectors_per_cluster == b[13]
    &&& bpb.reserved_sector_count == le16(b, 14)
    &&& bpb.num_fats == b[16]
    &&& bpb.root_entry_count == le16(b, 17)
    &&& bpb.total_sectors == le16(b, 19)
    &&& bpb.media == b[21]
    &&& bpb.sectors_per_fat == le16(b, 22)
    &&& bpb.sectors_per_track == le16(b, 24)
    &&& bpb.num_heads == le16(b, 26)
    &&& bpb.hidden_sectors == le32(b, 28)
    &&& bpb.large_sectors == le32(b, 32)
}

impl FatBPB {
    /// Parses the 36-byte BIOS Parameter Block at the head of `bytes` and
    /// returns it with the remainder of the input. Fails with `ShortBuffer`
    /// exactly when fewer than 36 bytes are available.
    pub fn parse(bytes: &[u8]) -> (r: Result<(FatBPB, &[u8]), FatError>)
        ensures
            match r {
                Ok((bpb, rest)) => bytes@.len() >= 36 && bpb_matches(bpb, bytes@) && rest@
                    == bytes@.skip(36),
                Err(e) => e == FatError::ShortBuffer && bytes@.len() < 36,
            },
    {
        let n = bytes.len();
        if n < 36 {
            return Err(FatError::ShortBuffer);
        }
        let bpb = FatBPB {
            x86_jmp: vstd::slice::slice_to_vec(vstd::slice::slice_subrange(bytes, 0, 3)),
            oem_name: vstd::slice::slice_to_vec(vstd::slice::slice_subrange(bytes, 3, 11)),
            bytes_per_sector: read_le16(bytes, 11),
            sectors_per_cluster: *vstd::slice::slice_index_get(bytes, 13),
            reserved_sector_count: read_le16(bytes, 14),
            num_fats: *vstd::slice::slice_index_get(bytes, 16),
            root_entry_count: read_le16(bytes, 17),
            total_sectors: read_le16(bytes, 19),
            media: *vstd::slice::slice_index_get(bytes, 21),
            sectors_per_fat: read_le16(bytes, 22),
            sectors_per_track: read_le16(bytes, 24),
            num_heads: read_le16(bytes, 26),
            hidden_sectors: read_le32(bytes, 28),
            large_sectors: read_le32(bytes, 32),
        };
        Ok((bpb, vstd::slice::slice_subrange(bytes, 36, n)))
    }
}

} // verus!
