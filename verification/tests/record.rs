use freecores::record::{
    begins_with, has_memory_size_tag, read_capture, same_text, CoreScanner, Line, Scan, ScanError,
    CORE_PATTERN, MEMORY_SIZE_TAG,
};
use regex::Regex;

fn scanner() -> CoreScanner {
    CoreScanner::new().unwrap()
}

#[test]
fn memory_size_then_single_core_is_taken() {
    let record = b"Name:\tsleep\nVmSize:\t    2288 kB\nCpus_allowed:\t10\nCpus_allowed_list:\t4\n";
    assert_eq!(scanner().taken_core(record), Ok(Some(4)));
}

#[test]
fn core_without_memory_size_is_not_taken() {
    let record = b"Name:\tkthreadd\nCpus_allowed_list:\t4\n";
    assert_eq!(scanner().taken_core(record), Ok(None));
}

#[test]
fn core_list_is_not_a_single_core() {
    let record = b"VmSize:\t 100 kB\nCpus_allowed_list:\t0,2-4\n";
    assert_eq!(scanner().taken_core(record), Ok(None));
}

#[test]
fn core_range_is_not_a_single_core() {
    let record = b"VmSize:\t 100 kB\nCpus_allowed_list:\t0-7\n";
    assert_eq!(scanner().taken_core(record), Ok(None));
}

#[test]
fn reading_twice_gives_the_same_answer() {
    let scanner = scanner();
    let record = b"VmSize:\t 100 kB\nCpus_allowed_list:\t12\n";
    let first = scanner.taken_core(record);
    let second = scanner.taken_core(record);
    assert_eq!(first, Ok(Some(12)));
    assert_eq!(first, second);
}

#[test]
fn core_before_memory_size_is_kept() {
    let record = b"Cpus_allowed_list:\t7\nVmSize:\t 100 kB\nThreads:\t1\n";
    assert_eq!(scanner().taken_core(record), Ok(Some(7)));
}

#[test]
fn last_core_before_memory_size_counts() {
    let record = b"Cpus_allowed_list:\t7\nCpus_allowed_list:\t8\nVmSize:\t 100 kB\n";
    assert_eq!(scanner().taken_core(record), Ok(Some(8)));
}

#[test]
fn first_core_after_memory_size_ends_reading() {
    let record = b"Cpus_allowed_list:\t7\nVmSize:\t 1 kB\nCpus_allowed_list:\t2\nCpus_allowed_list:\t3\n";
    assert_eq!(scanner().taken_core(record), Ok(Some(2)));
}

#[test]
fn nothing_after_the_answer_is_read() {
    let record = b"VmSize:\t 1 kB\nCpus_allowed_list:\t2\n\xff\xfe\nCpus_allowed_list:\t99999999999\n";
    assert_eq!(scanner().taken_core(record), Ok(Some(2)));
}

#[test]
fn empty_record_has_no_core() {
    assert_eq!(scanner().taken_core(b""), Ok(None));
}

#[test]
fn memory_size_alone_has_no_core() {
    assert_eq!(scanner().taken_core(b"VmSize:\t 1 kB\n"), Ok(None));
}

#[test]
fn last_line_needs_no_newline() {
    let record = b"VmSize:\t 1 kB\nCpus_allowed_list:\t31";
    assert_eq!(scanner().taken_core(record), Ok(Some(31)));
}

#[test]
fn carriage_return_before_newline_is_dropped() {
    let record = b"VmSize:\t 1 kB\r\nCpus_allowed_list:\t5\r\n";
    assert_eq!(scanner().taken_core(record), Ok(Some(5)));
}

#[test]
fn carriage_return_without_newline_stays() {
    let record = b"VmSize:\t 1 kB\nCpus_allowed_list:\t5\r";
    assert_eq!(scanner().taken_core(record), Ok(None));
}

#[test]
fn only_one_carriage_return_is_dropped() {
    let record = b"VmSize:\t 1 kB\nCpus_allowed_list:\t5\r\r\n";
    assert_eq!(scanner().taken_core(record), Ok(None));
}

#[test]
fn spaces_may_stand_before_the_core() {
    let record = b"VmSize: 1 kB\nCpus_allowed_list: \t  6\n";
    assert_eq!(scanner().taken_core(record), Ok(Some(6)));
}

#[test]
fn core_needs_whitespace_before_it() {
    let record = b"VmSize: 1 kB\nCpus_allowed_list:6\n";
    assert_eq!(scanner().taken_core(record), Ok(None));
}

#[test]
fn nothing_may_follow_the_core() {
    let record = b"VmSize: 1 kB\nCpus_allowed_list:\t6 \n";
    assert_eq!(scanner().taken_core(record), Ok(None));
}

#[test]
fn affinity_key_must_start_the_line() {
    let record = b"VmSize: 1 kB\n Cpus_allowed_list:\t6\n";
    assert_eq!(scanner().taken_core(record), Ok(None));
}

#[test]
fn memory_size_tag_must_start_the_line() {
    let record = b" VmSize: 1 kB\nCpus_allowed_list:\t6\n";
    assert_eq!(scanner().taken_core(record), Ok(None));
}

#[test]
fn leading_zeros_are_read() {
    let record = b"VmSize: 1 kB\nCpus_allowed_list:\t007\n";
    assert_eq!(scanner().taken_core(record), Ok(Some(7)));
}

#[test]
fn largest_core_number_is_read() {
    let record = b"VmSize: 1 kB\nCpus_allowed_list:\t4294967295\n";
    assert_eq!(scanner().taken_core(record), Ok(Some(4294967295)));
}

#[test]
fn digits_beyond_a_core_number_are_an_error() {
    let record = b"VmSize:\t 100 kB\nCpus_allowed_list:\t4294967296\n";
    assert_eq!(scanner().taken_core(record), Err(ScanError::BadNumber));
}

#[test]
fn bad_number_is_an_error_without_memory_size_too() {
    let record = b"Cpus_allowed_list:\t99999999999999999999\n";
    assert_eq!(scanner().taken_core(record), Err(ScanError::BadNumber));
}

#[test]
fn digits_of_other_scripts_are_an_error() {
    let record = "VmSize: 1 kB\nCpus_allowed_list:\t\u{664}\n";
    assert_eq!(scanner().taken_core(record.as_bytes()), Err(ScanError::BadNumber));
}

#[test]
fn line_that_is_not_text_is_an_error() {
    let record = b"Name:\t\xff\xfe\nVmSize: 1 kB\nCpus_allowed_list:\t1\n";
    assert_eq!(scanner().taken_core(record), Err(ScanError::InvalidText));
}

#[test]
fn tagged_line_that_is_not_text_is_an_error() {
    let record = b"VmSize:\t\xc3\nCpus_allowed_list:\t1\n";
    assert_eq!(scanner().taken_core(record), Err(ScanError::InvalidText));
}

#[test]
fn classify_line_tells_the_lines_apart() {
    let scanner = scanner();
    assert_eq!(scanner.classify_line(b"VmSize:\t 12 kB"), Ok(Line::MemorySize));
    assert_eq!(scanner.classify_line(b"VmSize:"), Ok(Line::MemorySize));
    assert_eq!(scanner.classify_line(b"Cpus_allowed_list:\t3"), Ok(Line::Core(3)));
    assert_eq!(scanner.classify_line(b"Cpus_allowed_list:\t3-4"), Ok(Line::Other));
    assert_eq!(scanner.classify_line(b"VmSiz"), Ok(Line::Other));
    assert_eq!(scanner.classify_line(b""), Ok(Line::Other));
    assert_eq!(scanner.classify_line(b"\x80"), Err(ScanError::InvalidText));
    assert_eq!(
        scanner.classify_line(b"Cpus_allowed_list:\t4294967296"),
        Err(ScanError::BadNumber)
    );
}

#[test]
fn unicode_whitespace_may_stand_before_the_core() {
    let line = "Cpus_allowed_list:\u{a0}9";
    assert_eq!(scanner().classify_line(line.as_bytes()), Ok(Line::Core(9)));
}

#[test]
fn read_capture_reads_the_digits() {
    assert_eq!(read_capture(None), Ok(Line::Other));
    assert_eq!(read_capture(Some(String::from("15"))), Ok(Line::Core(15)));
    assert_eq!(read_capture(Some(String::from("0"))), Ok(Line::Core(0)));
    assert_eq!(read_capture(Some(String::from(""))), Err(ScanError::BadNumber));
    assert_eq!(read_capture(Some(String::from("1x"))), Err(ScanError::BadNumber));
    assert_eq!(read_capture(Some(String::from("4294967296"))), Err(ScanError::BadNumber));
}

#[test]
fn memory_size_tag_is_a_prefix() {
    assert!(has_memory_size_tag(b"VmSize:"));
    assert!(has_memory_size_tag(b"VmSize:\t 4 kB"));
    assert!(!has_memory_size_tag(b"VmSize"));
    assert!(!has_memory_size_tag(b"VmSizf: 4 kB"));
    assert!(!has_memory_size_tag(b"vmSize: 4 kB"));
    assert!(!has_memory_size_tag(b""));
}

#[test]
fn scan_keeps_the_core_until_memory_size_is_seen() {
    let mut scan = Scan::new();
    assert_eq!(scan, Scan { memory_size: false, core: None });
    assert!(!scan.step(Line::Other));
    assert!(!scan.step(Line::Core(3)));
    assert_eq!(scan.finish(), None);
    assert!(!scan.step(Line::MemorySize));
    assert_eq!(scan.finish(), Some(3));
    assert!(scan.step(Line::Core(5)));
    assert_eq!(scan, Scan { memory_size: true, core: Some(5) });
    assert_eq!(scan.finish(), Some(5));
}

#[test]
fn begins_with_compares_the_first_bytes() {
    assert!(begins_with(b"Threads:\t4", b"Threads:"));
    assert!(begins_with(b"abc", b"abc"));
    assert!(begins_with(b"abc", b""));
    assert!(begins_with(b"", b""));
    assert!(!begins_with(b"ab", b"abc"));
    assert!(!begins_with(b"abd", b"abc"));
    assert!(!begins_with(b"", b"a"));
}

#[test]
fn scanner_holds_the_affinity_pattern() {
    assert_eq!(scanner().affinity_pattern(), r"^Cpus_allowed_list:\s+(\d+)$");
}

#[test]
fn refused_pattern_makes_no_scanner() {
    let made = CoreScanner::from_compiled(Regex::new("Cpus_allowed_list:(\\d+"));
    assert!(matches!(made, Err(ScanError::Pattern)));
}

#[test]
fn other_pattern_makes_no_scanner() {
    let made = CoreScanner::from_compiled(Regex::new(r"^Cpus_allowed_list:\s+(\w+)$"));
    assert!(matches!(made, Err(ScanError::Pattern)));
    let made = CoreScanner::from_compiled(Regex::new(""));
    assert!(matches!(made, Err(ScanError::Pattern)));
}

#[test]
fn affinity_pattern_makes_a_scanner() {
    let made = CoreScanner::from_compiled(Regex::new(CORE_PATTERN));
    let scanner = made.ok().unwrap();
    assert_eq!(scanner.affinity_pattern(), CORE_PATTERN);
    assert_eq!(scanner.taken_core(b"VmSize: 1 kB\nCpus_allowed_list: 3\n"), Ok(Some(3)));
}

#[test]
fn constants_spell_the_keys() {
    assert_eq!(CORE_PATTERN, r"^Cpus_allowed_list:\s+(\d+)$");
    assert_eq!(MEMORY_SIZE_TAG, "VmSize:");
}

#[test]
fn same_text_compares_whole_texts() {
    assert!(same_text("", ""));
    assert!(same_text("abc", "abc"));
    assert!(same_text("\u{e9}t\u{e9}", "\u{e9}t\u{e9}"));
    assert!(!same_text("abc", "abd"));
    assert!(!same_text("abc", "ab"));
    assert!(!same_text("ab", "abc"));
    assert!(!same_text("", "a"));
}

fn by_lines(pattern: &Regex, record: &[u8]) -> Result<Option<u32>, ScanError> {
    let mut memory_size = false;
    let mut core = None;
    for line in std::io::BufRead::lines(record) {
        let line = match line {
            Ok(line) => line,
            Err(_) => return Err(ScanError::InvalidText),
        };
        if line.starts_with(MEMORY_SIZE_TAG) {
            memory_size = true;
            continue;
        }
        if let Some(captures) = pattern.captures(&line) {
            match captures[1].parse::<u32>() {
                Ok(number) => core = Some(number),
                Err(_) => return Err(ScanError::BadNumber),
            }
            if memory_size {
                break;
            }
        }
    }
    Ok(if memory_size { core } else { None })
}

#[test]
fn records_read_as_their_lines_do() {
    let pieces: [&[u8]; 12] = [
        b"VmSize:\t  1 kB",
        b"Cpus_allowed_list:\t3",
        b"Cpus_allowed_list: 12",
        b"Cpus_allowed_list:\t0-3",
        b"Cpus_allowed_list:\t99999999999",
        b"Name:\tinit",
        b"",
        b"\xff",
        b"\r",
        b"Cpus_allowed_list:\t7\r",
        b"VmSize:\xe2\x82",
        b"Cpus_allowed_list:\t\xd9\xa4",
    ];
    let ends: [&[u8]; 3] = [b"\n", b"\r\n", b""];
    let scanner = scanner();
    let pattern = Regex::new(CORE_PATTERN).unwrap();
    let mut records: Vec<Vec<u8>> = vec![Vec::new()];
    let mut count = 0;
    for _ in 0..2 {
        let mut longer = Vec::new();
        for record in &records {
            for piece in pieces {
                for end in ends {
                    let mut next = record.clone();
                    next.extend_from_slice(piece);
                    next.extend_from_slice(end);
                    longer.push(next);
                }
            }
        }
        for record in &longer {
            assert_eq!(scanner.taken_core(record), by_lines(&pattern, record));
            count += 1;
        }
        records = longer;
    }
    assert_eq!(count, 36 + 36 * 36);
}

#[test]
fn longer_records_read_as_their_lines_do() {
    let pieces: [&[u8]; 6] = [
        b"VmSize:\t  1 kB",
        b"Cpus_allowed_list:\t3",
        b"Cpus_allowed_list:\t12",
        b"Cpus_allowed_list:\t0-3",
        b"Cpus_allowed_list:\t99999999999",
        b"\xff",
    ];
    let ends: [&[u8]; 2] = [b"\n", b""];
    let scanner = scanner();
    let pattern = Regex::new(CORE_PATTERN).unwrap();
    let mut records: Vec<Vec<u8>> = vec![Vec::new()];
    for _ in 0..3 {
        let mut longer = Vec::new();
        for record in &records {
            for piece in pieces {
                for end in ends {
                    let mut next = record.clone();
                    next.extend_from_slice(piece);
                    next.extend_from_slice(end);
                    longer.push(next);
                }
            }
        }
        records = longer;
    }
    assert_eq!(records.len(), 12 * 12 * 12);
    for record in &records {
        assert_eq!(scanner.taken_core(record), by_lines(&pattern, record));
    }
}

#[test]
fn each_error_has_its_message() {
    assert_eq!(ScanError::InvalidText.message(), "status record is not valid UTF-8");
    assert_eq!(ScanError::BadNumber.message(), "core number does not fit in 32 bits");
    assert_eq!(ScanError::Pattern.message(), "affinity pattern does not compile");
}
