//! Readable address ranges of the target process, and the address-space map
//! they are listed in.
//!
//! The map is text, one mapping per line, fields separated by whitespace:
//! first the address range as two hexadecimal numbers joined by a dash,
//! then the permission flags; whatever follows is not looked at.

use vstd::prelude::*;
use vstd::slice::slice_subrange;

verus! {

/// A contiguous, readable range `[start, end)` of the target's address space.
#[derive(Clone, Copy, Debug, PartialEq, Eq, Structural)]
pub struct MemoryRegion {
    pub start: usize,
    pub end: usize,
}

impl MemoryRegion {
    /// A region is never empty: `start` lies strictly below `end`.
    pub open spec fn wf(&self) -> bool {
        self.start < self.end
    }

    /// Number of bytes the region spans.
    pub open spec fn spec_len(&self) -> nat {
        (self.end - self.start) as nat
    }

    /// Number of bytes the region spans.
    pub fn len(&self) -> (n: usize)
        requires
            self.wf(),
        ensures
            n == self.spec_len(),
            n > 0,
    {
        self.end - self.start
    }
}

/// Why the regions of a target could not be listed. No partial list is ever
/// handed out: a list with a line missing would let a scan pass over memory
/// without a trace.
#[derive(Clone, Copy, Debug, PartialEq, Eq, Structural)]
pub enum EnumerationError {
    /// The map could not be read at all.
    Unreadable,
    /// A line holds no field.
    EmptyLine,
    /// A line holds an address range but no permission flags.
    MissingFlags,
    /// The first field of a line holds no dash.
    MissingRange,
    /// A bound of a range is not a hexadecimal number that fits an address.
    InvalidAddress,
    /// A range ends at or before its start.
    EmptyRange,
}

impl EnumerationError {
    /// The error in words.
    pub open spec fn spec_message(self) -> Seq<char> {
        match self {
            EnumerationError::Unreadable => "the memory map could not be read"@,
            EnumerationError::EmptyLine => "a line of the memory map is empty"@,
            EnumerationError::MissingFlags => "a line of the memory map has no permission flags"@,
            EnumerationError::MissingRange => "a line of the memory map has no address range"@,
            EnumerationError::InvalidAddress => "an address in the memory map is not a hexadecimal number that fits"@,
            EnumerationError::EmptyRange => "an address range in the memory map ends before it starts"@,
        }
    }

    /// The error in words.
    pub fn message(&self) -> (text: &'static str)
        ensures
            text@ == self.spec_message(),
    {
        match self {
            EnumerationError::Unreadable => "the memory map could not be read",
            EnumerationError::EmptyLine => "a line of the memory map is empty",
            EnumerationError::MissingFlags => "a line of the memory map has no permission flags",
            EnumerationError::MissingRange => "a line of the memory map has no address range",
            EnumerationError::InvalidAddress => "an address in the memory map is not a hexadecimal number that fits",
            EnumerationError::EmptyRange => "an address range in the memory map ends before it starts",
        }
    }
}

/// The byte that ends a line.
pub const NEWLINE: u8 = 10;

/// The byte between the two bounds of an address range.
pub const DASH: u8 = 45;

/// The letter `r`, which marks a mapping as readable.
pub const READ_FLAG: u8 = 114;

/// Whether a byte separates fields: a blank, or one of the control
/// characters from tab to carriage return.
pub open spec fn is_space(b: u8) -> bool {
    b == 32 || (9 <= b && b <= 13)
}

/// The kinds of byte the parser looks for.
#[derive(Clone, Copy, Debug)]
pub enum ByteClass {
    /// A byte that separates fields.
    Space,
    /// A byte that belongs to a field.
    Text,
    /// This one byte.
    Is(u8),
}

impl ByteClass {
    /// Whether `b` is of this kind.
    pub open spec fn holds(self, b: u8) -> bool {
        match self {
            ByteClass::Space => is_space(b),
            ByteClass::Text => !is_space(b),
            ByteClass::Is(x) => b == x,
        }
    }

    fn test(&self, b: u8) -> (yes: bool)
        ensures
            yes == self.holds(b),
    {
        match self {
            ByteClass::Space => b == 32 || (9 <= b && b <= 13),
            ByteClass::Text => !(b == 32 || (9 <= b && b <= 13)),
            ByteClass::Is(x) => b == *x,
        }
    }
}

/// The first index at or after `from` whose byte is of the given kind, or
/// the length of `s` where there is none.
pub open spec fn first_at(s: Seq<u8>, from: int, class: ByteClass) -> int
    decreases s.len() - from,
{
    if from < 0 || from >= s.len() {
        s.len() as int
    } else if class.holds(s[from]) {
        from
    } else {
        first_at(s, from + 1, class)
    }
}

fn find(s: &[u8], from: usize, class: ByteClass) -> (at: usize)
    requires
        from <= s@.len(),
    ensures
        at == first_at(s@, from as int, class),
        from <= at <= s@.len(),
{
    let mut i: usize = from;
    while i < s.len()
        invariant
            from <= i <= s@.len(),
            first_at(s@, from as int, class) == first_at(s@, i as int, class),
        decreases s@.len() - i,
    {
        if class.test(s[i]) {
            return i;
        }
        i += 1;
    }
    i
}

/// The value of a hexadecimal digit, in either case.
pub open spec fn hex_digit(b: u8) -> Option<nat> {
    if 48 <= b && b <= 57 {
        Some((b - 48) as nat)
    } else if 97 <= b && b <= 102 {
        Some((b - 87) as nat)
    } else if 65 <= b && b <= 70 {
        Some((b - 55) as nat)
    } else {
        None
    }
}

/// Whether `s` is a hexadecimal number: one digit or more, and nothing else.
pub open spec fn is_hex(s: Seq<u8>) -> bool {
    s.len() > 0 && forall|i: int| 0 <= i < s.len() ==> (#[trigger] hex_digit(s[i])) is Some
}

/// The number that the digits of `s` denote, most significant digit first.
pub open spec fn hex_value(s: Seq<u8>) -> nat
    decreases s.len(),
{
    if s.len() == 0 {
        0
    } else {
        16 * hex_value(s.drop_last()) + hex_digit(s.last()).unwrap()
    }
}

/// The address that `s` denotes: `s` must be a hexadecimal number, without
/// sign or prefix, whose value fits an address.
pub open spec fn hex_address(s: Seq<u8>) -> Option<usize> {
    if is_hex(s) && hex_value(s) <= usize::MAX {
        Some(hex_value(s) as usize)
    } else {
        None
    }
}

proof fn lemma_hex_value_grows(s: Seq<u8>, k: int)
    requires
        0 <= k <= s.len(),
    ensures
        hex_value(s.take(k)) <= hex_value(s),
    decreases s.len(),
{
    if k < s.len() {
        lemma_hex_value_grows(s.drop_last(), k);
        assert(s.drop_last().take(k) == s.take(k));
    } else {
        assert(s.take(k) == s);
    }
}

fn digit(b: u8) -> (d: Option<usize>)
    ensures
        match d {
            Some(v) => hex_digit(b) == Some(v as nat) && v < 16,
            None => hex_digit(b) is None,
        },
{
    if 48 <= b && b <= 57 {
        Some((b - 48) as usize)
    } else if 97 <= b && b <= 102 {
        Some((b - 87) as usize)
    } else if 65 <= b && b <= 70 {
        Some((b - 55) as usize)
    } else {
        None
    }
}

/// Reads one bound of an address range.
pub fn parse_hex(s: &[u8]) -> (address: Option<usize>)
    ensures
        address == hex_address(s@),
{
    if s.len() == 0 {
        return None;
    }
    let mut value: usize = 0;
    let mut i: usize = 0;
    while i < s.len()
        invariant
            i <= s@.len(),
            value == hex_value(s@.take(i as int)),
            forall|k: int| 0 <= k < i ==> (#[trigger] hex_digit(s@[k])) is Some,
        decreases s@.len() - i,
    {
        let d: usize = match digit(s[i]) {
            Some(d) => d,
            None => {
                return None;
            },
        };
        proof {
            assert(s@.take(i + 1).drop_last() == s@.take(i as int));
            lemma_hex_value_grows(s@, i + 1);
        }
        let shifted: usize = match value.checked_mul(16) {
            Some(shifted) => shifted,
            None => {
                return None;
            },
        };
        value = match shifted.checked_add(d) {
            Some(sum) => sum,
            None => {
                return None;
            },
        };
        i += 1;
    }
    assert(s@.take(i as int) == s@);
    Some(value)
}

/// The region that an address-range field denotes.
pub open spec fn range_entry(range: Seq<u8>) -> Result<MemoryRegion, EnumerationError> {
    let dash = first_at(range, 0, ByteClass::Is(DASH));
    if dash >= range.len() {
        Err(EnumerationError::MissingRange)
    } else {
        match (
            hex_address(range.subrange(0, dash)),
            hex_address(range.subrange(dash + 1, range.len() as int)),
        ) {
            (Some(start), Some(end)) => if start < end {
                Ok(MemoryRegion { start, end })
            } else {
                Err(EnumerationError::EmptyRange)
            },
            _ => Err(EnumerationError::InvalidAddress),
        }
    }
}

/// Reads an address-range field: what stands before the first dash is the
/// start, what stands behind it the end.
pub fn parse_range(range: &[u8]) -> (entry: Result<MemoryRegion, EnumerationError>)
    ensures
        entry == range_entry(range@),
        entry matches Ok(region) ==> region.wf(),
{
    let dash: usize = find(range, 0, ByteClass::Is(DASH));
    if dash >= range.len() {
        return Err(EnumerationError::MissingRange);
    }
    let low = parse_hex(slice_subrange(range, 0, dash));
    let high = parse_hex(slice_subrange(range, dash + 1, range.len()));
    match (low, high) {
        (Some(start), Some(end)) => {
            if start < end {
                Ok(MemoryRegion { start, end })
            } else {
                Err(EnumerationError::EmptyRange)
            }
        },
        _ => Err(EnumerationError::InvalidAddress),
    }
}

/// What one line of the map yields: the region it lists if the read flag is
/// among its permission flags, no region if it is not, and an error if the
/// line is malformed. A line is judged whole, whether readable or not.
pub open spec fn line_entry(line: Seq<u8>) -> Result<Option<MemoryRegion>, EnumerationError> {
    let range_start = first_at(line, 0, ByteClass::Text);
    let range_end = first_at(line, range_start, ByteClass::Space);
    let flags_start = first_at(line, range_end, ByteClass::Text);
    let flags_end = first_at(line, flags_start, ByteClass::Space);
    if range_start >= line.len() {
        Err(EnumerationError::EmptyLine)
    } else if flags_start >= line.len() {
        Err(EnumerationError::MissingFlags)
    } else {
        match range_entry(line.subrange(range_start, range_end)) {
            Err(e) => Err(e),
            Ok(region) => if line.subrange(flags_start, flags_end).contains(READ_FLAG) {
                Ok(Some(region))
            } else {
                Ok(None)
            },
        }
    }
}

fn has_byte(s: &[u8], b: u8) -> (yes: bool)
    ensures
        yes == s@.contains(b),
{
    let mut i: usize = 0;
    while i < s.len()
        invariant
            i <= s@.len(),
            forall|k: int| 0 <= k < i ==> s@[k] != b,
        decreases s@.len() - i,
    {
        if s[i] == b {
            return true;
        }
        i += 1;
    }
    false
}

/// Reads one line of the map.
pub fn parse_line(line: &[u8]) -> (entry: Result<Option<MemoryRegion>, EnumerationError>)
    ensures
        entry == line_entry(line@),
        entry matches Ok(Some(region)) ==> region.wf(),
{
    let range_start: usize = find(line, 0, ByteClass::Text);
    if range_start >= line.len() {
        return Err(EnumerationError::EmptyLine);
    }
    let range_end: usize = find(line, range_start, ByteClass::Space);
    let flags_start: usize = find(line, range_end, ByteClass::Text);
    if flags_start >= line.len() {
        return Err(EnumerationError::MissingFlags);
    }
    let flags_end: usize = find(line, flags_start, ByteClass::Space);
    match parse_range(slice_subrange(line, range_start, range_end)) {
        Err(e) => Err(e),
        Ok(region) => {
            if has_byte(slice_subrange(line, flags_start, flags_end), READ_FLAG) {
                Ok(Some(region))
            } else {
                Ok(None)
            }
        },
    }
}

/// Puts the entry of one line before the regions of the lines behind it.
pub open spec fn with_entry(
    entry: Result<Option<MemoryRegion>, EnumerationError>,
    rest: Result<Seq<MemoryRegion>, EnumerationError>,
) -> Result<Seq<MemoryRegion>, EnumerationError> {
    match entry {
        Err(e) => Err(e),
        Ok(found) => match rest {
            Err(e) => Err(e),
            Ok(regions) => Ok(
                match found {
                    Some(region) => seq![region] + regions,
                    None => regions,
                },
            ),
        },
    }
}

/// The readable regions listed from position `from` of the map onward, or
/// the error of the first malformed line. A line ends at a newline or at
/// the end of the text; a newline at the very end starts no further line.
pub open spec fn map_entries(text: Seq<u8>, from: int) -> Result<
    Seq<MemoryRegion>,
    EnumerationError,
>
    decreases text.len() - from,
{
    if from < 0 || from >= text.len() {
        Ok(Seq::empty())
    } else {
        let end = first_at(text, from, ByteClass::Is(NEWLINE));
        let rest = if from <= end < text.len() {
            map_entries(text, end + 1)
        } else {
            Ok(Seq::empty())
        };
        with_entry(line_entry(text.subrange(from, end)), rest)
    }
}

/// The readable regions that a map lists, in the order of its lines, or the
/// error of its first malformed line.
pub open spec fn map_regions(text: Seq<u8>) -> Result<Seq<MemoryRegion>, EnumerationError> {
    map_entries(text, 0)
}

/// What is known of a map once the lines before `from` gave `regions`.
pub open spec fn after_lines(
    regions: Seq<MemoryRegion>,
    rest: Result<Seq<MemoryRegion>, EnumerationError>,
) -> Result<Seq<MemoryRegion>, EnumerationError> {
    match rest {
        Err(e) => Err(e),
        Ok(more) => Ok(regions + more),
    }
}

/// Reads the text of an address-space map.
///
/// One malformed line fails the whole map.
pub fn parse_map(text: &[u8]) -> (listing: Result<Vec<MemoryRegion>, EnumerationError>)
    ensures
        match listing {
            Ok(regions) => map_regions(text@) == Ok::<Seq<MemoryRegion>, EnumerationError>(
                regions@,
            ),
            Err(e) => map_regions(text@) == Err::<Seq<MemoryRegion>, EnumerationError>(e),
        },
        listing matches Ok(regions) ==> forall|i: int|
            0 <= i < regions@.len() ==> (#[trigger] regions@[i]).wf(),
{
    let mut regions: Vec<MemoryRegion> = Vec::new();
    let mut from: usize = 0;
    while from < text.len()
        invariant
            from <= text@.len(),
            map_regions(text@) == after_lines(regions@, map_entries(text@, from as int)),
            forall|i: int| 0 <= i < regions@.len() ==> (#[trigger] regions@[i]).wf(),
        decreases text@.len() - from,
    {
        let end: usize = find(text, from, ByteClass::Is(NEWLINE));
        let ghost rest = map_entries(text@, end + 1);
        assert(map_entries(text@, from as int) == with_entry(
            line_entry(text@.subrange(from as int, end as int)),
            if end < text@.len() {
                rest
            } else {
                Ok(Seq::empty())
            },
        ));
        let ghost before = regions@;
        match parse_line(slice_subrange(text, from, end)) {
            Err(e) => {
                return Err(e);
            },
            Ok(Some(region)) => {
                regions.push(region);
                proof {
                    if rest is Ok {
                        assert(before.push(region) + rest->Ok_0 =~= before + (seq![region]
                            + rest->Ok_0));
                    }
                }
            },
            Ok(None) => {},
        }
        if end < text.len() {
            from = end + 1;
        } else {
            from = end;
        }
    }
    Ok(regions)
}

/// What an enumeration yields, given the text of the target's map, or
/// `None` where the map could not be read.
pub open spec fn enumeration(map: Option<Seq<u8>>) -> Result<Seq<MemoryRegion>, EnumerationError> {
    match map {
        None => Err(EnumerationError::Unreadable),
        Some(text) => map_regions(text),
    }
}

/// Lists the readable regions of a target, given the text of its
/// address-space map as the caller fetched it, or `None` where the map
/// could not be read.
pub fn enumerate(map: Option<&[u8]>) -> (listing: Result<Vec<MemoryRegion>, EnumerationError>)
    ensures
        match listing {
            Ok(regions) => enumeration(
                match map {
                    Some(text) => Some(text@),
                    None => None,
                },
            ) == Ok::<Seq<MemoryRegion>, EnumerationError>(regions@),
            Err(e) => enumeration(
                match map {
                    Some(text) => Some(text@),
                    None => None,
                },
            ) == Err::<Seq<MemoryRegion>, EnumerationError>(e),
        },
        listing matches Ok(regions) ==> forall|i: int|
            0 <= i < regions@.len() ==> (#[trigger] regions@[i]).wf(),
{
    match map {
        None => Err(EnumerationError::Unreadable),
        Some(text) => parse_map(text),
    }
}

} // verus!
