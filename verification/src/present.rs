//! What a run prints and how it ends: a line for each pinned process, if
//! asked for, then the free cores on one line, and an exit code that tells
//! whether any core is free.

use crate::cores::{free_cores, free_list, taken_cores, taken_set, AffinityRecord};
use crate::number::{core_text, decimal_text, push_decimal};
use vstd::prelude::*;
use vstd::string::*;

verus! {

/// What the caller asks for.
#[derive(Debug, PartialEq, Eq)]
pub struct Options {
    /// The number of workers that scan the process list.
    pub par: u8,
    /// What stands between two free cores when they are printed.
    pub join: String,
    /// Whether a newline stands between them instead.
    pub newline: bool,
    /// Whether each pinned process is printed with its core.
    pub processes: bool,
    /// The candidate cores, in the order given.
    pub available: Vec<u32>,
}

/// What a run prints and the code it exits with.
#[derive(Debug, PartialEq, Eq)]
pub struct Report {
    /// What is printed, piece by piece, each followed by a newline.
    pub output: Vec<String>,
    /// The exit code: 0 if a core is free, 1 if none is.
    pub exit_code: i32,
}

/// The width to which a core is padded in the line of a pinned process.
pub const CORE_WIDTH: usize = 3;

/// The separator between two free cores: a newline if asked for, else the
/// join string.
pub open spec fn separator_of(options: Options) -> Seq<char> {
    if options.newline {
        seq!['\n']
    } else {
        options.join@
    }
}

/// The decimal texts of `cores` with `separator` between each two.
pub open spec fn joined_cores(cores: Seq<u32>, separator: Seq<char>) -> Seq<char>
    decreases cores.len(),
{
    if cores.len() == 0 {
        Seq::empty()
    } else if cores.len() == 1 {
        decimal_text(cores[0] as nat)
    } else {
        joined_cores(cores.drop_last(), separator) + separator + decimal_text(cores.last() as nat)
    }
}

/// `text` after as many spaces as it lacks to `width` characters.
pub open spec fn padded(text: Seq<char>, width: nat) -> Seq<char> {
    if text.len() >= width {
        text
    } else {
        Seq::new((width - text.len()) as nat, |i: int| ' ') + text
    }
}

/// The line of a pinned process: its core, padded, then ` : ` and the name
/// of the process.
pub open spec fn process_line_of(record: AffinityRecord) -> Seq<char> {
    padded(decimal_text(record.core as nat), CORE_WIDTH as nat) + seq![' ', ':', ' '] + record.process@
}

/// The lines of the pinned processes, in the order of the records.
pub open spec fn process_lines_of(records: Seq<AffinityRecord>) -> Seq<Seq<char>> {
    Seq::new(records.len(), |i: int| process_line_of(records[i]))
}

/// The free cores of a run: the candidates that no record names.
pub open spec fn free_of(options: Options, records: Seq<AffinityRecord>) -> Seq<u32> {
    free_list(options.available@, taken_set(records))
}

/// What a run prints. Without candidates it prints nothing. Else the pinned
/// processes come first, if asked for, and the free cores last, on one line
/// that is left out when no core is free.
pub open spec fn output_of(options: Options, records: Seq<AffinityRecord>) -> Seq<Seq<char>> {
    if options.available@.len() == 0 {
        Seq::empty()
    } else {
        let processes = if options.processes {
            process_lines_of(records)
        } else {
            Seq::empty()
        };
        let free = free_of(options, records);
        if free.len() == 0 {
            processes
        } else {
            processes.push(joined_cores(free, separator_of(options)))
        }
    }
}

/// The exit code of a run: 1 if no core is free, as when there are no
/// candidates, else 0.
pub open spec fn exit_code_of(options: Options, records: Seq<AffinityRecord>) -> int {
    if free_of(options, records).len() == 0 {
        1
    } else {
        0
    }
}

impl Options {
    /// The options for `available` with everything else as it is when
    /// nothing is said: one worker, a space between the free cores, no line
    /// for the pinned processes.
    pub fn new(available: Vec<u32>) -> (options: Options)
        ensures
            options.par == 1,
            options.join@ == seq![' '],
            !options.newline,
            !options.processes,
            options.available == available,
    {
        proof {
            reveal_strlit(" ");
        }
        let join = String::from_str(" ");
        assert(join@ =~= seq![' ']);
        Options { par: 1, join, newline: false, processes: false, available }
    }

    /// The separator between two free cores.
    pub fn separator(&self) -> (separator: &str)
        ensures
            separator@ == separator_of(*self),
    {
        if self.newline {
            proof {
                reveal_strlit("\n");
            }
            let separator = "\n";
            assert(separator@ =~= seq!['\n']);
            separator
        } else {
            self.join.as_str()
        }
    }
}

/// Joins the decimal texts of `cores` with `separator`.
pub fn join_cores(cores: &Vec<u32>, separator: &str) -> (line: String)
    ensures
        line@ == joined_cores(cores@, separator@),
{
    let mut line = String::new();
    let n: usize = cores.len();
    let mut i: usize = 0;
    assert(cores@.take(0) =~= Seq::<u32>::empty());
    while i < n
        invariant
            i <= n,
            n == cores@.len(),
            line@ == joined_cores(cores@.take(i as int), separator@),
        decreases n - i,
    {
        let ghost before = line@;
        let ghost longer = cores@.take(i + 1);
        proof {
            assert(longer.drop_last() =~= cores@.take(i as int));
            assert(longer.last() == cores@[i as int]);
        }
        if i > 0 {
            line.append(separator);
            push_decimal(&mut line, cores[i]);
            assert(line@ =~= before + separator@ + decimal_text(cores@[i as int] as nat));
        } else {
            push_decimal(&mut line, cores[i]);
            assert(longer[0] == cores@[0]);
            assert(line@ =~= decimal_text(cores@[0] as nat));
        }
        i = i + 1;
    }
    assert(cores@.take(n as int) =~= cores@);
    line
}

/// Writes the line of a pinned process.
pub fn process_line(record: &AffinityRecord) -> (line: String)
    ensures
        line@ == process_line_of(*record),
{
    let digits: String = core_text(record.core);
    let len: usize = digits.as_str().unicode_len();
    let mut line = String::new();
    let mut pad: usize = 0;
    proof {
        reveal_strlit(" : ");
    }
    while pad + len < CORE_WIDTH
        invariant
            len == digits@.len(),
            pad + len <= CORE_WIDTH || pad == 0,
            line@ == Seq::new(pad as nat, |i: int| ' '),
        decreases CORE_WIDTH - pad - len,
    {
        proof {
            reveal_strlit(" ");
        }
        line.append(" ");
        pad = pad + 1;
        assert(line@ =~= Seq::new(pad as nat, |i: int| ' '));
    }
    assert(line@ + digits@ =~= padded(digits@, CORE_WIDTH as nat));
    line.append(digits.as_str());
    line.append(" : ");
    line.append(record.process.as_str());
    assert(" : "@ =~= seq![' ', ':', ' ']);
    line
}

/// Works out what a run prints and how it ends, from what the scan found.
pub fn report(options: &Options, records: &Vec<AffinityRecord>) -> (report: Report)
    ensures
        report.output.deep_view() == output_of(*options, records@),
        report.exit_code == exit_code_of(*options, records@),
{
    let mut output: Vec<String> = Vec::new();
    if options.available.len() == 0 {
        proof {
            reveal(Seq::filter);
            assert(output.deep_view() =~= output_of(*options, records@));
        }
        return Report { output, exit_code: 1 };
    }
    if options.processes {
        let n: usize = records.len();
        let mut i: usize = 0;
        while i < n
            invariant
                i <= n,
                n == records@.len(),
                output@.len() == i,
                forall|j: int| 0 <= j < i ==> (#[trigger] output@[j])@ == process_line_of(records@[j]),
            decreases n - i,
        {
            output.push(process_line(&records[i]));
            i = i + 1;
        }
    }
    let ghost processes = if options.processes {
        process_lines_of(records@)
    } else {
        Seq::empty()
    };
    assert(output.deep_view() =~= processes);
    let taken = taken_cores(records);
    let free: Vec<u32> = free_cores(&options.available, &taken);
    if free.len() == 0 {
        return Report { output, exit_code: 1 };
    }
    let line: String = join_cores(&free, options.separator());
    output.push(line);
    assert(output.deep_view() =~= processes.push(line@));
    Report { output, exit_code: 0 }
}

} // verus!
