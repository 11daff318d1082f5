//! The tools that building a generated parser needs, and the judgement of
//! the versions they report.
use regex::bytes::Regex;
use vstd::prelude::*;

verus! {

/// What group 1 of the first match of `pattern` (in the syntax of the
/// `regex` crate, matched against bytes) captures in `text`; `None` when
/// the pattern does not compile, does not match, or its group 1 takes no
/// part in the match.
pub uninterp spec fn first_capture(pattern: Seq<char>, text: Seq<u8>) -> Option<Seq<u8>>;

/// Compiles `pattern` with `regex::bytes::Regex::new` and returns the bytes
/// of group 1 of the first match in `text` (`Regex::captures`, then
/// `Captures::get(1)`).
#[verifier::external_body]
fn capture(pattern: &str, text: &Vec<u8>) -> (captured: Option<Vec<u8>>)
    ensures
        match captured {
            Some(bytes) => first_capture(pattern@, text@) == Some(bytes@),
            None => first_capture(pattern@, text@) is None,
        },
{
    let regex = match Regex::new(pattern) {
        Ok(regex) => regex,
        Err(_) => return None,
    };
    let captures = match regex.captures(text.as_slice()) {
        Some(captures) => captures,
        None => return None,
    };
    match captures.get(1) {
        Some(group) => Some(group.as_bytes().to_vec()),
        None => None,
    }
}

/// Every byte of `digits` is an ASCII digit.
pub open spec fn ascii_digits(digits: Seq<u8>) -> bool {
    forall|i: int| 0 <= i < digits.len() ==> 48 <= #[trigger] digits[i] <= 57
}

/// The number that the ASCII digits `digits` write in decimal.
pub open spec fn decimal_value(digits: Seq<u8>) -> nat
    decreases digits.len(),
{
    if digits.len() == 0 {
        0
    } else {
        decimal_value(digits.drop_last()) * 10 + (digits.last() - 48) as nat
    }
}

/// What `str::parse::<u32>` makes of `text`: an optional `+`, then one or
/// more ASCII digits whose value fits in a `u32`.
pub open spec fn parsed_u32(text: Seq<u8>) -> Option<u32> {
    let digits = if text.len() > 0 && text[0] == 43 {
        text.drop_first()
    } else {
        text
    };
    if digits.len() > 0 && ascii_digits(digits) && decimal_value(digits) <= u32::MAX {
        Some(decimal_value(digits) as u32)
    } else {
        None
    }
}

/// Reads `text` as `str::parse::<u32>` does.
pub fn parse_u32(text: &Vec<u8>) -> (value: Option<u32>)
    ensures
        value == parsed_u32(text@),
{
    let start: usize = if text.len() > 0 && text[0] == 43 { 1 } else { 0 };
    let ghost digits = if text@.len() > 0 && text@[0] == 43 { text@.drop_first() } else { text@ };
    if start >= text.len() {
        return None;
    }
    let mut value: u32 = 0;
    let mut i: usize = start;
    while i < text.len()
        invariant
            start <= i <= text@.len(),
            start == 0 || start == 1,
            digits == text@.subrange(start as int, text@.len() as int),
            digits == if text@.len() > 0 && text@[0] == 43 { text@.drop_first() } else { text@ },
            ascii_digits(text@.subrange(start as int, i as int)),
            value == decimal_value(text@.subrange(start as int, i as int)),
        decreases text@.len() - i,
    {
        let byte = text[i];
        let ghost prefix = text@.subrange(start as int, i as int);
        let ghost next = text@.subrange(start as int, i + 1);
        assert(next.drop_last() =~= prefix);
        assert(next.last() == byte);
        if byte < 48 || byte > 57 {
            proof {
                assert(digits[i - start] == byte);
                assert(!ascii_digits(digits));
            }
            return None;
        }
        let digit = (byte - 48) as u32;
        assert(decimal_value(next) == value * 10 + digit);
        if value > (u32::MAX - digit) / 10 {
            proof {
                assert(value * 10 + digit > u32::MAX) by (nonlinear_arith)
                    requires
                        value > (u32::MAX - digit) / 10,
                        digit <= 9,
                ;
                assert(digits.subrange(0, i + 1 - start) =~= next);
                lemma_decimal_prefix(digits, (i + 1 - start) as int);
            }
            return None;
        }
        assert(value * 10 + digit <= u32::MAX) by (nonlinear_arith)
            requires
                value <= (u32::MAX - digit) / 10,
                digit <= 9,
        ;
        value = value * 10 + digit;
        i += 1;
    }
    assert(text@.subrange(start as int, i as int) =~= digits);
    Some(value)
}

/// A number written by some digits is at least the one written by the
/// digits up to `k`.
proof fn lemma_decimal_prefix(digits: Seq<u8>, k: int)
    requires
        0 <= k <= digits.len(),
        ascii_digits(digits.subrange(0, k)),
    ensures
        ascii_digits(digits) ==> decimal_value(digits) >= decimal_value(digits.subrange(0, k)),
    decreases digits.len(),
{
    if ascii_digits(digits) && k < digits.len() {
        let shorter = digits.drop_last();
        assert(shorter.subrange(0, k) =~= digits.subrange(0, k));
        assert(ascii_digits(shorter));
        lemma_decimal_prefix(shorter, k);
    } else if k == digits.len() {
        assert(digits.subrange(0, k) =~= digits);
    }
}

/// How a tool's reported version compares with what is needed.
#[derive(Debug, Copy, Clone, PartialEq, Eq, Structural)]
pub enum VersionStatus {
    /// The version is recent enough.
    Current,
    /// The version, given, is older than needed.
    OutOfDate(u32),
    /// No version could be read from the tool's report.
    Unknown,
}

/// The judgement of a version read as `version` against the oldest one
/// that will do.
pub open spec fn version_status(version: Option<u32>, minimum: u32) -> VersionStatus {
    match version {
        Some(v) => if v < minimum { VersionStatus::OutOfDate(v) } else { VersionStatus::Current },
        None => VersionStatus::Unknown,
    }
}

/// A version will do exactly when it is at least the minimum; an older one
/// is reported out of date with its number, and no version is unknown.
pub proof fn lemma_version_status(version: Option<u32>, minimum: u32)
    ensures
        (version_status(version, minimum) == VersionStatus::Current) <==> (version is Some && version->0 >= minimum),
        (version_status(version, minimum) is OutOfDate) <==> (version is Some && version->0 < minimum),
        version_status(version, minimum) is OutOfDate ==> version_status(version, minimum)->0 == version->0,
        (version_status(version, minimum) == VersionStatus::Unknown) <==> version is None,
{
}

/// Reads a version from a tool's report: the number that group 1 of
/// `pattern` captures in `report`.
pub open spec fn reported_version(pattern: Seq<char>, report: Seq<u8>) -> Option<u32> {
    match first_capture(pattern, report) {
        Some(digits) => parsed_u32(digits),
        None => None,
    }
}

/// Judges the version that a tool reports in `report` (what it wrote on
/// its standard output), read by `pattern`, against `minimum`.
pub fn check_version(pattern: &str, report: &Vec<u8>, minimum: u32) -> (status: VersionStatus)
    ensures
        status == version_status(reported_version(pattern@, report@), minimum),
{
    let version = match capture(pattern, report) {
        Some(digits) => parse_u32(&digits),
        None => None,
    };
    match version {
        Some(v) => if v < minimum { VersionStatus::OutOfDate(v) } else { VersionStatus::Current },
        None => VersionStatus::Unknown,
    }
}

/// A tool that building a parser needs: how to name it, where to get it,
/// how to read its version and which versions will do.
pub struct ToolRequirement {
    pub name: &'static str,
    pub download_url: &'static str,
    pub version_pattern: &'static str,
    pub minimum: u32,
    pub minimum_spec: &'static str,
}

impl ToolRequirement {
    /// NodeJS, which runs grammar scripts: version 16 or later, read from
    /// what `node --version` prints.
    pub fn node() -> (requirement: ToolRequirement)
        ensures
            requirement.minimum == 16,
            requirement.name@ == "NodeJS"@,
            requirement.version_pattern@ == "^v(\\d+)\\."@,
    {
        ToolRequirement {
            name: "NodeJS",
            download_url: "https://nodejs.org",
            version_pattern: "^v(\\d+)\\.",
            minimum: 16,
            minimum_spec: ">=16.0.0",
        }
    }

    /// Rust, which compiles generated parsers: version 1.61 or later, read
    /// from what `rustc +stable --version` prints.
    pub fn rust() -> (requirement: ToolRequirement)
        ensures
            requirement.minimum == 61,
            requirement.name@ == "Rust"@,
            requirement.version_pattern@ == "^rustc 1\\.(\\d+)\\."@,
    {
        ToolRequirement {
            name: "Rust",
            download_url: "https://rustup.rs",
            version_pattern: "^rustc 1\\.(\\d+)\\.",
            minimum: 61,
            minimum_spec: "^1.61.0",
        }
    }

    /// Judges the version that the tool reports in `report`.
    pub fn check(&self, report: &Vec<u8>) -> (status: VersionStatus)
        ensures
            status == version_status(reported_version(self.version_pattern@, report@), self.minimum),
    {
        check_version(self.version_pattern, report, self.minimum)
    }
}

} // verus!
