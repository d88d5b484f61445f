//! Reading a process status record for the core that the process is pinned
//! to.
//!
//! A record is a file of lines, `Key: value`. Two kinds of line count: the
//! memory size line, which only processes with an address space have, and the
//! affinity line when it names a single core. The record is read from the
//! top. The answer is the core of the first single-core affinity line that
//! follows a memory size line; with no such line, the core of the last
//! affinity line before it; and none at all for a record without a memory
//! size line.

use crate::number::{parse_core, parsed_core};
use crate::pattern::{
    capture_group, captured_group, compile, pattern_accepted, pattern_text, source,
};
use crate::text::{ascii_bytes, text_of};
use regex::Regex;
use vstd::prelude::*;
use vstd::slice::slice_subrange;
use vstd::string::*;
use vstd::utf8::*;

verus! {

/// Why a status record could not be read for its affinity.
#[derive(Clone, Copy, Debug, PartialEq, Eq, Structural)]
pub enum ScanError {
    /// A line of the record is not UTF-8 text.
    InvalidText,
    /// The digits of an affinity line do not fit a core number.
    BadNumber,
    /// There is no compiled affinity pattern: the regular expression engine
    /// refused it, or the expression at hand was made from another pattern.
    Pattern,
}

impl ScanError {
    /// What to tell the user about the error.
    pub open spec fn message_of(self) -> Seq<char> {
        match self {
            ScanError::InvalidText => "status record is not valid UTF-8"@,
            ScanError::BadNumber => "core number does not fit in 32 bits"@,
            ScanError::Pattern => "affinity pattern does not compile"@,
        }
    }

    /// What to tell the user about the error.
    pub fn message(&self) -> (text: &'static str)
        ensures
            text@ == self.message_of(),
    {
        match self {
            ScanError::InvalidText => "status record is not valid UTF-8",
            ScanError::BadNumber => "core number does not fit in 32 bits",
            ScanError::Pattern => "affinity pattern does not compile",
        }
    }
}

/// What a line of a status record says.
#[derive(Clone, Copy, Debug, PartialEq, Eq, Structural)]
pub enum Line {
    /// The memory size line.
    MemorySize,
    /// An affinity line that names a single core.
    Core(u32),
    /// Anything else.
    Other,
}

/// What has been seen of a record so far.
#[derive(Clone, Copy, Debug, PartialEq, Eq, Structural)]
pub struct Scan {
    /// Whether a memory size line was seen.
    pub memory_size: bool,
    /// The core of the latest single-core affinity line.
    pub core: Option<u32>,
}

/// The byte that ends a line.
pub const NEWLINE: u8 = 10;

/// The byte that may stand before the one that ends a line.
pub const CARRIAGE_RETURN: u8 = 13;

/// The key with which the memory size line begins.
pub const MEMORY_SIZE_TAG: &'static str = "VmSize:";

/// The bytes with which the memory size line begins.
pub open spec fn memory_size_tag() -> Seq<u8> {
    ascii_bytes(MEMORY_SIZE_TAG@)
}

/// The pattern of an affinity line that names a single core: the key, then
/// whitespace, then digits to the end of the line.
pub const CORE_PATTERN: &'static str = "^Cpus_allowed_list:\\s+(\\d+)$";

/// The group of the affinity pattern that holds the digits of the core.
pub const CORE_GROUP: usize = 1;

/// The text of the affinity pattern.
pub open spec fn core_pattern() -> Seq<char> {
    CORE_PATTERN@
}

/// How many bytes lie between position `from` and the next line end.
pub open spec fn line_len(bytes: Seq<u8>, from: int) -> nat
    decreases bytes.len() - from,
{
    if from < 0 || from >= bytes.len() || bytes[from] == NEWLINE {
        0
    } else {
        1 + line_len(bytes, from + 1)
    }
}

/// A line without the carriage return that stood before its line end.
pub open spec fn trim_carriage_return(line: Seq<u8>) -> Seq<u8> {
    if line.len() > 0 && line.last() == CARRIAGE_RETURN {
        line.drop_last()
    } else {
        line
    }
}

/// The lines of a record from position `from` on. A line ends at a newline,
/// which does not belong to it, nor does a carriage return just before the
/// newline. What follows the last newline is a line too, unless it is empty.
pub open spec fn lines_from(bytes: Seq<u8>, from: int) -> Seq<Seq<u8>>
    decreases bytes.len() - from,
{
    if from < 0 || from >= bytes.len() {
        Seq::empty()
    } else {
        let end = from + line_len(bytes, from);
        if end >= bytes.len() {
            seq![bytes.subrange(from, bytes.len() as int)]
        } else {
            seq![trim_carriage_return(bytes.subrange(from, end))] + lines_from(bytes, end + 1)
        }
    }
}

/// The lines of a record.
pub open spec fn lines_of(bytes: Seq<u8>) -> Seq<Seq<u8>> {
    lines_from(bytes, 0)
}

/// A line stops at the first newline or at the end of the record, and holds
/// no newline itself.
pub proof fn lemma_line_len(bytes: Seq<u8>, from: int)
    requires
        0 <= from <= bytes.len(),
    ensures
        from + line_len(bytes, from) <= bytes.len(),
        from + line_len(bytes, from) < bytes.len() ==> bytes[from + line_len(bytes, from)]
            == NEWLINE,
        forall|i: int| from <= i < from + line_len(bytes, from) ==> bytes[i] != NEWLINE,
    decreases bytes.len() - from,
{
    if from < bytes.len() && bytes[from] != NEWLINE {
        lemma_line_len(bytes, from + 1);
    }
}

/// No line of a record holds a newline.
pub proof fn lemma_lines_hold_no_newline(bytes: Seq<u8>, from: int)
    requires
        0 <= from <= bytes.len(),
    ensures
        forall|k: int, i: int|
            0 <= k < lines_from(bytes, from).len() && 0 <= i < lines_from(bytes, from)[k].len()
                ==> (#[trigger] lines_from(bytes, from)[k][i]) != NEWLINE,
    decreases bytes.len() - from,
{
    if from < bytes.len() {
        lemma_line_len(bytes, from);
        let end = from + line_len(bytes, from);
        let lines = lines_from(bytes, from);
        if end < bytes.len() {
            lemma_lines_hold_no_newline(bytes, end + 1);
            let rest = lines_from(bytes, end + 1);
            assert forall|k: int, i: int|
                0 <= k < lines.len() && 0 <= i < lines[k].len() implies (#[trigger] lines[k][i])
                != NEWLINE by {
                if k > 0 {
                    assert(lines[k] == rest[k - 1]);
                    assert(rest[k - 1][i] != NEWLINE);
                }
            }
        }
    }
}

/// What a line says, given what the affinity pattern captured in it: the
/// digits of the core, if the line matched.
pub open spec fn line_of_capture(capture: Option<Seq<char>>) -> Result<Line, ScanError> {
    match capture {
        None => Ok(Line::Other),
        Some(digits) => match parsed_core(digits) {
            Some(core) => Ok(Line::Core(core)),
            None => Err(ScanError::BadNumber),
        },
    }
}

impl Scan {
    /// Nothing seen yet.
    pub open spec fn start() -> Scan {
        Scan { memory_size: false, core: None }
    }

    /// The answer if the record ended here: the core that was seen, but only
    /// beside a memory size line.
    pub open spec fn answer(self) -> Option<u32> {
        if self.memory_size {
            self.core
        } else {
            None
        }
    }

    /// What has been seen once `line` is read too.
    pub open spec fn after(self, line: Line) -> Scan {
        match line {
            Line::MemorySize => Scan { memory_size: true, core: self.core },
            Line::Core(core) => Scan { memory_size: self.memory_size, core: Some(core) },
            Line::Other => self,
        }
    }

    /// Whether reading ends with `line`: at an affinity line that follows a
    /// memory size line.
    pub open spec fn ends_at(self, line: Line) -> bool {
        self.memory_size && line is Core
    }

    /// The state before the first line.
    pub fn new() -> (scan: Scan)
        ensures
            scan == Scan::start(),
    {
        Scan { memory_size: false, core: None }
    }

    /// Takes one more line into account, and says whether reading ends here.
    pub fn step(&mut self, line: Line) -> (done: bool)
        ensures
            *final(self) == old(self).after(line),
            done == old(self).ends_at(line),
    {
        match line {
            Line::MemorySize => {
                self.memory_size = true;
                false
            },
            Line::Core(core) => {
                self.core = Some(core);
                self.memory_size
            },
            Line::Other => false,
        }
    }

    /// The answer once reading has ended.
    pub fn finish(&self) -> (core: Option<u32>)
        ensures
            core == self.answer(),
    {
        if self.memory_size {
            self.core
        } else {
            None
        }
    }
}

/// What a line says, from what the affinity pattern captured in it.
pub fn read_capture(capture: Option<String>) -> (line: Result<Line, ScanError>)
    ensures
        line == line_of_capture(
            match capture {
                Some(digits) => Some(digits@),
                None => None,
            },
        ),
{
    match capture {
        None => Ok(Line::Other),
        Some(digits) => match parse_core(digits.as_str()) {
            Some(core) => Ok(Line::Core(core)),
            None => Err(ScanError::BadNumber),
        },
    }
}

/// Whether `line` begins with the bytes of `tag`.
pub fn begins_with(line: &[u8], tag: &[u8]) -> (begins: bool)
    ensures
        begins == tag@.is_prefix_of(line@),
{
    let n: usize = tag.len();
    if line.len() < n {
        return false;
    }
    let mut i: usize = 0;
    while i < n
        invariant
            i <= n,
            n == tag@.len(),
            line@.len() >= n,
            forall|k: int| 0 <= k < i ==> line@[k] == tag@[k],
        decreases n - i,
    {
        if line[i] != tag[i] {
            assert(line@.subrange(0, n as int)[i as int] != tag@[i as int]);
            return false;
        }
        i = i + 1;
    }
    assert(line@.subrange(0, n as int) =~= tag@);
    true
}

/// Whether two texts are the same.
pub fn same_text(one: &str, other: &str) -> (same: bool)
    ensures
        same == (one@ == other@),
{
    proof {
        encode_utf8_decode_utf8(one@);
        encode_utf8_decode_utf8(other@);
    }
    let left: &[u8] = one.as_bytes();
    let right: &[u8] = other.as_bytes();
    if left.len() != right.len() {
        return false;
    }
    let same = begins_with(left, right);
    assert(same ==> left@ =~= right@);
    same
}

/// Whether a line begins with the memory size tag.
pub fn has_memory_size_tag(line: &[u8]) -> (tagged: bool)
    ensures
        tagged == memory_size_tag().is_prefix_of(line@),
{
    let tag: &str = MEMORY_SIZE_TAG;
    proof {
        reveal_strlit("VmSize:");
        assert(is_ascii(tag));
        is_ascii_spec_bytes(tag);
    }
    begins_with(line, tag.as_bytes())
}

/// Reads status records for the core that their process is pinned to. It
/// holds the compiled affinity pattern, so that one scanner serves all the
/// records of a run.
pub struct CoreScanner {
    re: Regex,
}

impl CoreScanner {
    #[verifier::type_invariant]
    spec fn holds_core_pattern(self) -> bool {
        pattern_text(self.re) == core_pattern()
    }

    /// The pattern that the scanner matches lines against.
    pub closed spec fn pattern(self) -> Seq<char> {
        pattern_text(self.re)
    }

    /// What the pattern captures in a line of text: the digits of the core,
    /// which are its first group, if the line matches.
    pub closed spec fn capture(self, text: Seq<char>) -> Option<Seq<char>> {
        captured_group(self.re, text, CORE_GROUP)
    }

    /// What a line says. A line that is not text is an error, whatever it
    /// begins with; the memory size tag is looked for before the pattern.
    pub open spec fn classify(self, line: Seq<u8>) -> Result<Line, ScanError> {
        if !valid_utf8(line) {
            Err(ScanError::InvalidText)
        } else if memory_size_tag().is_prefix_of(line) {
            Ok(Line::MemorySize)
        } else {
            line_of_capture(self.capture(decode_utf8(line)))
        }
    }

    /// The answer for a record of which `seen` has been seen and `lines` are
    /// still to read. Reading stops at the first line that is in error, and
    /// at the first affinity line that follows a memory size line.
    pub open spec fn scan_lines(self, lines: Seq<Seq<u8>>, seen: Scan) -> Result<
        Option<u32>,
        ScanError,
    >
        decreases lines.len(),
    {
        if lines.len() == 0 {
            Ok(seen.answer())
        } else {
            match self.classify(lines[0]) {
                Err(error) => Err(error),
                Ok(line) => if seen.ends_at(line) {
                    Ok(seen.after(line).answer())
                } else {
                    self.scan_lines(lines.drop_first(), seen.after(line))
                },
            }
        }
    }

    /// The core that a status record pins its process to, if any.
    pub open spec fn extraction(self, record: Seq<u8>) -> Result<Option<u32>, ScanError> {
        self.scan_lines(lines_of(record), Scan::start())
    }

    /// Whether one of `lines` is a memory size line.
    pub open spec fn has_memory_size(self, lines: Seq<Seq<u8>>) -> bool {
        exists|i: int|
            0 <= i < lines.len() && self.classify(#[trigger] lines[i]) == Ok::<Line, ScanError>(
                Line::MemorySize,
            )
    }

    /// Whether one of `lines` is an affinity line that names `core` alone.
    pub open spec fn names_core(self, lines: Seq<Seq<u8>>, core: u32) -> bool {
        exists|i: int|
            0 <= i < lines.len() && self.classify(#[trigger] lines[i]) == Ok::<Line, ScanError>(
                Line::Core(core),
            )
    }

    /// Whether none of `lines` is in error.
    pub open spec fn readable(self, lines: Seq<Seq<u8>>) -> bool {
        forall|i: int| 0 <= i < lines.len() ==> self.classify(#[trigger] lines[i]) is Ok
    }

    /// Reading the same record again gives the same answer: the scanner and
    /// the bytes of the record decide it.
    pub proof fn lemma_same_record_same_answer(
        self,
        record: Seq<u8>,
        first: Result<Option<u32>, ScanError>,
        second: Result<Option<u32>, ScanError>,
    )
        requires
            first == self.extraction(record),
            second == self.extraction(record),
        ensures
            first == second,
    {
    }

    /// A core is only found beside a memory size line, and it is the core of
    /// one of the affinity lines.
    pub proof fn lemma_core_needs_both(self, lines: Seq<Seq<u8>>, seen: Scan, core: u32)
        requires
            self.scan_lines(lines, seen) == Ok::<Option<u32>, ScanError>(Some(core)),
        ensures
            seen.memory_size || self.has_memory_size(lines),
            seen.core == Some(core) || self.names_core(lines, core),
        decreases lines.len(),
    {
        if lines.len() > 0 {
            let line = self.classify(lines[0])->Ok_0;
            let rest = lines.drop_first();
            if seen.ends_at(line) {
                assert(self.classify(lines[0]) == Ok::<Line, ScanError>(Line::Core(core)));
            } else {
                self.lemma_core_needs_both(rest, seen.after(line), core);
                if !seen.memory_size {
                    if line is MemorySize {
                        assert(self.classify(lines[0]) == Ok::<Line, ScanError>(Line::MemorySize));
                    } else {
                        let i = choose|i: int|
                            0 <= i < rest.len() && self.classify(#[trigger] rest[i]) == Ok::<
                                Line,
                                ScanError,
                            >(Line::MemorySize);
                        assert(rest[i] == lines[i + 1]);
                    }
                }
                if seen.core != Some(core) {
                    if line == Line::Core(core) {
                        assert(self.classify(lines[0]) == Ok::<Line, ScanError>(Line::Core(core)));
                    } else {
                        let i = choose|i: int|
                            0 <= i < rest.len() && self.classify(#[trigger] rest[i]) == Ok::<
                                Line,
                                ScanError,
                            >(Line::Core(core));
                        assert(rest[i] == lines[i + 1]);
                    }
                }
            }
        }
    }

    /// Where no line is in error, a memory size line and a single-core
    /// affinity line together give a core, whichever comes first.
    pub proof fn lemma_both_give_core(self, lines: Seq<Seq<u8>>, seen: Scan)
        requires
            self.readable(lines),
            seen.memory_size || self.has_memory_size(lines),
            seen.core is Some || exists|core: u32| self.names_core(lines, core),
        ensures
            self.scan_lines(lines, seen) matches Ok(Some(_)),
        decreases lines.len(),
    {
        if lines.len() > 0 {
            assert(self.classify(lines[0]) is Ok);
            let line = self.classify(lines[0])->Ok_0;
            let rest = lines.drop_first();
            if !seen.ends_at(line) {
                let next = seen.after(line);
                assert forall|i: int| 0 <= i < rest.len() implies self.classify(
                    #[trigger] rest[i],
                ) is Ok by {
                    assert(rest[i] == lines[i + 1]);
                }
                if !next.memory_size {
                    let i = choose|i: int|
                        0 <= i < lines.len() && self.classify(#[trigger] lines[i]) == Ok::<
                            Line,
                            ScanError,
                        >(Line::MemorySize);
                    assert(i > 0);
                    assert(rest[i - 1] == lines[i]);
                }
                if next.core is None {
                    let core = choose|core: u32| self.names_core(lines, core);
                    let i = choose|i: int|
                        0 <= i < lines.len() && self.classify(#[trigger] lines[i]) == Ok::<
                            Line,
                            ScanError,
                        >(Line::Core(core));
                    assert(i > 0);
                    assert(rest[i - 1] == lines[i]);
                    assert(self.names_core(rest, core));
                }
                self.lemma_both_give_core(rest, next);
            }
        }
    }

    /// Whether line `i` is read without error and is no affinity line that
    /// names a single core.
    pub open spec fn names_no_core(self, lines: Seq<Seq<u8>>, i: int) -> bool {
        self.classify(lines[i]) matches Ok(line) && !(line is Core)
    }

    /// Whether line `i` is read without error and is no memory size line.
    pub open spec fn is_no_memory_size(self, lines: Seq<Seq<u8>>, i: int) -> bool {
        self.classify(lines[i]) matches Ok(line) && !(line is MemorySize)
    }

    /// A record without a memory size line gives no core.
    pub proof fn lemma_no_memory_size_no_core(self, lines: Seq<Seq<u8>>)
        requires
            !self.has_memory_size(lines),
        ensures
            self.scan_lines(lines, Scan::start()) matches Ok(core) ==> core is None,
    {
        if let Ok(Some(core)) = self.scan_lines(lines, Scan::start()) {
            self.lemma_core_needs_both(lines, Scan::start(), core);
        }
    }

    /// Once a memory size line was seen, the next single-core affinity line
    /// gives the answer.
    pub proof fn lemma_next_core_ends_reading(
        self,
        lines: Seq<Seq<u8>>,
        seen: Scan,
        at: int,
        core: u32,
    )
        requires
            seen.memory_size,
            0 <= at < lines.len(),
            forall|i: int| 0 <= i < at ==> #[trigger] self.names_no_core(lines, i),
            self.classify(lines[at]) == Ok::<Line, ScanError>(Line::Core(core)),
        ensures
            self.scan_lines(lines, seen) == Ok::<Option<u32>, ScanError>(Some(core)),
        decreases at,
    {
        if at > 0 {
            assert(self.names_no_core(lines, 0));
            let line = self.classify(lines[0])->Ok_0;
            let rest = lines.drop_first();
            assert forall|i: int| 0 <= i < at - 1 implies #[trigger] self.names_no_core(
                rest,
                i,
            ) by {
                assert(self.names_no_core(lines, i + 1));
            }
            self.lemma_next_core_ends_reading(rest, seen.after(line), at - 1, core);
        }
    }

    /// The first single-core affinity line after the first memory size line
    /// gives the answer, if no line before it is in error.
    pub proof fn lemma_first_core_after_memory_size(
        self,
        lines: Seq<Seq<u8>>,
        seen: Scan,
        tagged: int,
        at: int,
        core: u32,
    )
        requires
            !seen.memory_size,
            0 <= tagged < at < lines.len(),
            forall|i: int| 0 <= i < tagged ==> #[trigger] self.is_no_memory_size(lines, i),
            self.classify(lines[tagged]) == Ok::<Line, ScanError>(Line::MemorySize),
            forall|i: int| tagged < i < at ==> #[trigger] self.names_no_core(lines, i),
            self.classify(lines[at]) == Ok::<Line, ScanError>(Line::Core(core)),
        ensures
            self.scan_lines(lines, seen) == Ok::<Option<u32>, ScanError>(Some(core)),
        decreases tagged,
    {
        let rest = lines.drop_first();
        if tagged == 0 {
            assert forall|i: int| 0 <= i < at - 1 implies #[trigger] self.names_no_core(
                rest,
                i,
            ) by {
                assert(self.names_no_core(lines, i + 1));
            }
            self.lemma_next_core_ends_reading(rest, seen.after(Line::MemorySize), at - 1, core);
        } else {
            assert(self.is_no_memory_size(lines, 0));
            let line = self.classify(lines[0])->Ok_0;
            assert forall|i: int| 0 <= i < tagged - 1 implies #[trigger] self.is_no_memory_size(
                rest,
                i,
            ) by {
                assert(self.is_no_memory_size(lines, i + 1));
            }
            assert forall|i: int| tagged - 1 < i < at - 1 implies #[trigger] self.names_no_core(
                rest,
                i,
            ) by {
                assert(self.names_no_core(lines, i + 1));
            }
            self.lemma_first_core_after_memory_size(
                rest,
                seen.after(line),
                tagged - 1,
                at - 1,
                core,
            );
        }
    }

    /// Lines that name no core leave the core as it is; it counts if a
    /// memory size line was seen or is among them.
    pub proof fn lemma_no_core_keeps_core(self, lines: Seq<Seq<u8>>, seen: Scan)
        requires
            forall|i: int| 0 <= i < lines.len() ==> #[trigger] self.names_no_core(lines, i),
        ensures
            self.scan_lines(lines, seen) == Ok::<Option<u32>, ScanError>(
                if seen.memory_size || self.has_memory_size(lines) {
                    seen.core
                } else {
                    None
                },
            ),
        decreases lines.len(),
    {
        if lines.len() > 0 {
            assert(self.names_no_core(lines, 0));
            let line = self.classify(lines[0])->Ok_0;
            let rest = lines.drop_first();
            assert forall|i: int| 0 <= i < rest.len() implies #[trigger] self.names_no_core(
                rest,
                i,
            ) by {
                assert(self.names_no_core(lines, i + 1));
            }
            self.lemma_no_core_keeps_core(rest, seen.after(line));
            if self.has_memory_size(rest) {
                let i = choose|i: int|
                    0 <= i < rest.len() && self.classify(#[trigger] rest[i]) == Ok::<
                        Line,
                        ScanError,
                    >(Line::MemorySize);
                assert(rest[i] == lines[i + 1]);
            }
            if self.has_memory_size(lines) && !(line is MemorySize) {
                let i = choose|i: int|
                    0 <= i < lines.len() && self.classify(#[trigger] lines[i]) == Ok::<
                        Line,
                        ScanError,
                    >(Line::MemorySize);
                assert(rest[i - 1] == lines[i]);
            }
            if line is MemorySize {
                assert(self.classify(lines[0]) == Ok::<Line, ScanError>(Line::MemorySize));
            }
        }
    }

    /// Where no single-core affinity line follows the first memory size
    /// line, the last one before it gives the answer.
    pub proof fn lemma_last_core_before_memory_size(
        self,
        lines: Seq<Seq<u8>>,
        seen: Scan,
        at: int,
        core: u32,
    )
        requires
            !seen.memory_size,
            0 <= at < lines.len(),
            forall|i: int| 0 <= i < at ==> #[trigger] self.is_no_memory_size(lines, i),
            self.classify(lines[at]) == Ok::<Line, ScanError>(Line::Core(core)),
            forall|i: int| at < i < lines.len() ==> #[trigger] self.names_no_core(lines, i),
            self.has_memory_size(lines),
        ensures
            self.scan_lines(lines, seen) == Ok::<Option<u32>, ScanError>(Some(core)),
        decreases at,
    {
        let rest = lines.drop_first();
        let tagged = choose|i: int|
            0 <= i < lines.len() && self.classify(#[trigger] lines[i]) == Ok::<Line, ScanError>(
                Line::MemorySize,
            );
        if tagged < at {
            assert(self.is_no_memory_size(lines, tagged));
        }
        assert(rest[tagged - 1] == lines[tagged]);
        assert forall|i: int| at - 1 < i < rest.len() implies #[trigger] self.names_no_core(
            rest,
            i,
        ) by {
            assert(self.names_no_core(lines, i + 1));
        }
        if at == 0 {
            self.lemma_no_core_keeps_core(rest, seen.after(Line::Core(core)));
        } else {
            assert(self.is_no_memory_size(lines, 0));
            let line = self.classify(lines[0])->Ok_0;
            assert forall|i: int| 0 <= i < at - 1 implies #[trigger] self.is_no_memory_size(
                rest,
                i,
            ) by {
                assert(self.is_no_memory_size(lines, i + 1));
            }
            self.lemma_last_core_before_memory_size(rest, seen.after(line), at - 1, core);
        }
    }

    /// Compiles the affinity pattern. A scanner comes back exactly if the
    /// regular expression engine takes the pattern.
    pub fn new() -> (made: Result<CoreScanner, ScanError>)
        ensures
            made is Ok <==> pattern_accepted(core_pattern()),
            made matches Ok(scanner) ==> scanner.pattern() == core_pattern(),
            made matches Err(error) ==> error == ScanError::Pattern,
    {
        CoreScanner::from_compiled(compile(CORE_PATTERN))
    }

    /// Makes a scanner of what compiling gave. Only an expression that was
    /// made from the affinity pattern is taken. The text of the pattern is
    /// what is looked at: an expression that was built with other options
    /// keeps its text, and the scanner then captures what that expression
    /// captures.
    pub fn from_compiled(compiled: Result<Regex, regex::Error>) -> (made: Result<
        CoreScanner,
        ScanError,
    >)
        ensures
            made is Ok <==> (compiled matches Ok(re) && pattern_text(re) == core_pattern()),
            made matches Ok(scanner) ==> scanner.pattern() == core_pattern(),
            made matches Err(error) ==> error == ScanError::Pattern,
    {
        match compiled {
            Ok(re) => {
                if same_text(source(&re), CORE_PATTERN) {
                    Ok(CoreScanner { re })
                } else {
                    Err(ScanError::Pattern)
                }
            },
            Err(_) => Err(ScanError::Pattern),
        }
    }

    /// The pattern that the scanner matches lines against.
    pub fn affinity_pattern(&self) -> (text: &str)
        ensures
            text@ == core_pattern(),
            text@ == self.pattern(),
    {
        proof {
            use_type_invariant(self);
        }
        source(&self.re)
    }

    /// Says what one line of a record says.
    pub fn classify_line(&self, line: &[u8]) -> (kind: Result<Line, ScanError>)
        ensures
            kind == self.classify(line@),
            self.pattern() == core_pattern(),
    {
        proof {
            use_type_invariant(self);
        }
        let text = match text_of(line) {
            Some(text) => text,
            None => {
                return Err(ScanError::InvalidText);
            },
        };
        if has_memory_size_tag(line) {
            return Ok(Line::MemorySize);
        }
        read_capture(capture_group(&self.re, text, CORE_GROUP))
    }

    /// Reads a status record for the core that its process is pinned to.
    pub fn taken_core(&self, record: &[u8]) -> (core: Result<Option<u32>, ScanError>)
        ensures
            core == self.extraction(record@),
            self.pattern() == core_pattern(),
    {
        proof {
            use_type_invariant(self);
        }
        let n: usize = record.len();
        let mut seen = Scan::new();
        let mut pos: usize = 0;
        while pos < n
            invariant
                pos <= n,
                n == record@.len(),
                self.scan_lines(lines_from(record@, pos as int), seen) == self.extraction(
                    record@,
                ),
            decreases n - pos,
        {
            let mut end: usize = pos;
            while end < n && record[end] != NEWLINE
                invariant
                    pos <= end <= n,
                    n == record@.len(),
                    line_len(record@, pos as int) == (end - pos) + line_len(record@, end as int),
                decreases n - end,
            {
                end = end + 1;
            }
            let terminated: bool = end < n;
            let line: &[u8] = if terminated && end > pos && record[end - 1] == CARRIAGE_RETURN {
                slice_subrange(record, pos, end - 1)
            } else {
                slice_subrange(record, pos, end)
            };
            let ghost rest = if terminated {
                lines_from(record@, end + 1)
            } else {
                Seq::<Seq<u8>>::empty()
            };
            let ghost lines = lines_from(record@, pos as int);
            proof {
                assert(line_len(record@, end as int) == 0);
                let whole = record@.subrange(pos as int, end as int);
                if terminated {
                    if end > pos {
                        assert(whole.last() == record@[end - 1]);
                        assert(whole.drop_last() =~= record@.subrange(pos as int, end - 1));
                    }
                    assert(line@ == trim_carriage_return(whole));
                } else {
                    assert(line@ == whole);
                }
                assert(lines =~= seq![line@] + rest);
                assert(lines[0] == line@);
                assert(lines.drop_first() =~= rest);
            }
            let kind = match self.classify_line(line) {
                Ok(kind) => kind,
                Err(error) => {
                    return Err(error);
                },
            };
            if seen.step(kind) {
                return Ok(seen.finish());
            }
            pos = if terminated {
                end + 1
            } else {
                n
            };
        }
        Ok(seen.finish())
    }
}

} // verus!
