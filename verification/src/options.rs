//! The options of the two command-line tools, resolved from the raw values
//! of their flags.
//!
//! A flag that was not given has no value. Required flags that are missing
//! and numeric flags that are no decimal numbers each give an error of their
//! own; the first one found, in the order of the fields, is reported.

use vstd::prelude::*;
use vstd::string::StringSliceAdditionalSpecFns;
use vstd::utf8::encode_utf8;

verus! {

/// The number of worker threads where the flag is not given.
pub const DEFAULT_THREADS: usize = 4;

/// The size of the generated bitset in bytes where the flag is not given.
pub const DEFAULT_BYTES_AVAIL: usize = 62000;

/// The first divisor candidate where the flag is not given.
pub const DEFAULT_DIV_START: i32 = 1;

/// Whether a byte is an ASCII decimal digit.
pub open spec fn is_digit(byte: u8) -> bool {
    0x30 <= byte <= 0x39
}

/// The number that a sequence of decimal digits denotes.
pub open spec fn digits_value(digits: Seq<u8>) -> nat
    decreases digits.len(),
{
    if digits.len() == 0 {
        0
    } else {
        10 * digits_value(digits.drop_last()) + (digits.last() - 0x30) as nat
    }
}

/// The text of a number without its optional leading plus sign.
pub open spec fn unsigned_part(text: Seq<u8>) -> Seq<u8> {
    if text.len() > 0 && text[0] == 0x2B {
        text.subrange(1, text.len() as int)
    } else {
        text
    }
}

/// Whether the text is a decimal number: an optional plus sign, then one or
/// more digits and nothing else.
pub open spec fn is_decimal(text: Seq<u8>) -> bool {
    let digits = unsigned_part(text);
    digits.len() > 0 && forall|i: int| 0 <= i < digits.len() ==> is_digit(#[trigger] digits[i])
}

/// The number that the text denotes, where it is a decimal number that does
/// not exceed `max`.
pub open spec fn decimal_value(text: Seq<u8>, max: nat) -> Option<nat> {
    if is_decimal(text) && digits_value(unsigned_part(text)) <= max {
        Some(digits_value(unsigned_part(text)))
    } else {
        None
    }
}

/// A number is at least the number that any prefix of its digits denotes.
proof fn lemma_prefix_value(digits: Seq<u8>, count: int)
    requires
        0 <= count <= digits.len(),
        forall|i: int| 0 <= i < digits.len() ==> is_digit(#[trigger] digits[i]),
    ensures
        digits_value(digits.take(count)) <= digits_value(digits),
    decreases digits.len() - count,
{
    if count < digits.len() {
        lemma_prefix_value(digits, count + 1);
        assert(digits.take(count + 1).drop_last() =~= digits.take(count));
        assert(is_digit(digits[count]));
    } else {
        assert(digits.take(count) =~= digits);
    }
}

/// Reads a decimal number that fits in `usize`.
pub fn parse_decimal(text: &str) -> (value: Option<usize>)
    ensures
        match value {
            Some(v) => decimal_value(text.spec_bytes(), usize::MAX as nat) == Some(v as nat),
            None => decimal_value(text.spec_bytes(), usize::MAX as nat) is None,
        },
{
    let bytes = text.as_bytes();
    let first: usize = if bytes.len() > 0 && bytes[0] == 0x2B {
        1
    } else {
        0
    };
    if first >= bytes.len() {
        return None;
    }
    let ghost digits = unsigned_part(bytes@);
    assert(digits =~= bytes@.subrange(first as int, bytes@.len() as int));
    let mut value: usize = 0;
    let mut i: usize = first;
    while i < bytes.len()
        invariant
            first <= i <= bytes.len(),
            bytes@ == text.spec_bytes(),
            digits == bytes@.subrange(first as int, bytes@.len() as int),
            digits == unsigned_part(bytes@),
            digits.len() > 0,
            forall|j: int| 0 <= j < i - first ==> is_digit(#[trigger] digits[j]),
            value == digits_value(digits.take(i - first)),
        decreases bytes.len() - i,
    {
        let byte: u8 = bytes[i];
        assert(digits[i - first] == byte);
        if byte < 0x30 || byte > 0x39 {
            return None;
        }
        let digit: usize = (byte - 0x30) as usize;
        proof {
            assert(digits.take(i - first + 1).drop_last() =~= digits.take(i - first));
        }
        let next: Option<usize> = match value.checked_mul(10) {
            Some(tens) => tens.checked_add(digit),
            None => None,
        };
        match next {
            Some(n) => {
                value = n;
            },
            None => {
                proof {
                    assert(digits_value(digits.take(i - first + 1)) > usize::MAX);
                    if is_decimal(bytes@) {
                        lemma_prefix_value(digits, i - first + 1);
                    }
                }
                return None;
            },
        }
        i = i + 1;
    }
    proof {
        assert(digits.take(i - first) =~= digits);
    }
    Some(value)
}

/// The count that the text of a numeric flag denotes, if it denotes one.
pub open spec fn count_of(text: Seq<char>) -> Option<nat> {
    decimal_value(encode_utf8(text), usize::MAX as nat)
}

/// The first divisor candidate that the text of a flag denotes: a count that
/// fits in a signed 32-bit value.
pub open spec fn div_start_of(text: Seq<char>) -> Option<nat> {
    decimal_value(encode_utf8(text), i32::MAX as nat)
}

/// The raw values of the flags of the bitset generator, as they stood on the
/// command line.
#[derive(Debug, Clone, PartialEq, Eq)]
pub struct GeneratorArgs {
    /// The path of the word list.
    pub words: Option<String>,
    /// The path of the bitset to write.
    pub db_out: Option<String>,
    /// The size of the bitset in bytes.
    pub bytes_avail: Option<String>,
    /// The number of worker threads.
    pub threads: Option<String>,
}

/// The options of the bitset generator.
#[derive(Debug, Clone, PartialEq, Eq)]
pub struct GeneratorOptions {
    /// The path of the word list.
    pub words_filename: String,
    /// The path of the bitset to write.
    pub out_db_filename: String,
    /// The number of worker threads.
    pub threads_count: usize,
    /// The size of the bitset in bytes.
    pub bytes_avail: usize,
}

/// What is wrong with the command line of the bitset generator.
#[derive(Debug, Clone, PartialEq, Eq)]
pub enum CmdArgsError {
    /// The command line could not be taken apart; the message says why.
    Getopts(String),
    /// The path of the word list is missing.
    NoWordsFileProvided,
    /// The path of the bitset to write is missing.
    NoOutDbFileProvided,
    /// The size of the bitset is no decimal number; the text is kept.
    InvalidBytesAvailValue(String),
    /// The number of threads is no decimal number; the text is kept.
    InvalidThreadsValue(String),
}

/// The raw values of the flags of the divisor compiler.
#[derive(Debug, Clone, PartialEq, Eq)]
pub struct CompilerArgs {
    /// The path of the hash database.
    pub db_in: Option<String>,
    /// The path of the output table to write.
    pub db_out: Option<String>,
    /// The path of the cache.
    pub cache: Option<String>,
    /// The number of worker threads.
    pub threads: Option<String>,
    /// The first divisor candidate.
    pub div_start: Option<String>,
}

/// The options of the divisor compiler.
#[derive(Debug, Clone, PartialEq, Eq)]
pub struct CompilerOptions {
    /// The path of the hash database.
    pub in_db_filename: String,
    /// The path of the output table to write.
    pub out_db_filename: String,
    /// The path of the cache.
    pub cache_filename: String,
    /// The number of worker threads.
    pub threads_count: usize,
    /// The first divisor candidate.
    pub div_start: i32,
}

/// What is wrong with the command line of the divisor compiler.
#[derive(Debug, Clone, PartialEq, Eq)]
pub enum ConfigError {
    /// The command line could not be taken apart; the message says why.
    Getopts(String),
    /// The path of the hash database is missing.
    NoInDbFileProvided,
    /// The path of the output table is missing.
    NoOutDbFileProvided,
    /// The path of the cache is missing.
    NoCacheFileProvided,
    /// The number of threads is no decimal number; the text is kept.
    InvalidThreadsValue(String),
    /// The first divisor candidate is no decimal number that fits in a
    /// signed 32-bit value; the text is kept.
    InvalidDivStartValue(String),
}

/// Resolves the options of the bitset generator. The word list and the
/// output path are required; the number of threads defaults to 4 and the
/// size of the bitset to 62000 bytes.
pub fn resolve_generator_options(args: GeneratorArgs) -> (result: Result<
    GeneratorOptions,
    CmdArgsError,
>)
    ensures
        match result {
            Ok(options) => {
                &&& args.words matches Some(words) && options.words_filename@ == words@
                &&& args.db_out matches Some(db_out) && options.out_db_filename@ == db_out@
                &&& match args.threads {
                    Some(text) => count_of(text@) == Some(options.threads_count as nat),
                    None => options.threads_count == DEFAULT_THREADS,
                }
                &&& match args.bytes_avail {
                    Some(text) => count_of(text@) == Some(options.bytes_avail as nat),
                    None => options.bytes_avail == DEFAULT_BYTES_AVAIL,
                }
            },
            Err(CmdArgsError::Getopts(_)) => false,
            Err(CmdArgsError::NoWordsFileProvided) => args.words is None,
            Err(CmdArgsError::NoOutDbFileProvided) => args.words is Some && args.db_out is None,
            Err(CmdArgsError::InvalidThreadsValue(kept)) => {
                &&& args.words is Some
                &&& args.db_out is Some
                &&& args.threads matches Some(text) && kept@ == text@ && count_of(text@) is None
            },
            Err(CmdArgsError::InvalidBytesAvailValue(kept)) => {
                &&& args.words is Some
                &&& args.db_out is Some
                &&& args.threads matches Some(text) ==> count_of(text@) is Some
                &&& args.bytes_avail matches Some(text) && kept@ == text@ && count_of(text@)
                    is None
            },
        },
{
    let words_filename = match args.words {
        Some(words) => words,
        None => {
            return Err(CmdArgsError::NoWordsFileProvided);
        },
    };
    let out_db_filename = match args.db_out {
        Some(db_out) => db_out,
        None => {
            return Err(CmdArgsError::NoOutDbFileProvided);
        },
    };
    let threads_count: usize = match args.threads {
        Some(text) => match parse_decimal(text.as_str()) {
            Some(count) => count,
            None => {
                return Err(CmdArgsError::InvalidThreadsValue(text));
            },
        },
        None => DEFAULT_THREADS,
    };
    let bytes_avail: usize = match args.bytes_avail {
        Some(text) => match parse_decimal(text.as_str()) {
            Some(count) => count,
            None => {
                return Err(CmdArgsError::InvalidBytesAvailValue(text));
            },
        },
        None => DEFAULT_BYTES_AVAIL,
    };
    Ok(GeneratorOptions { words_filename, out_db_filename, threads_count, bytes_avail })
}

/// Resolves the options of the divisor compiler. The database, the output
/// path and the cache path are required; the number of threads defaults to
/// 4 and the first divisor candidate to 1.
pub fn resolve_compiler_options(args: CompilerArgs) -> (result: Result<
    CompilerOptions,
    ConfigError,
>)
    ensures
        match result {
            Ok(options) => {
                &&& args.db_in matches Some(db_in) && options.in_db_filename@ == db_in@
                &&& args.db_out matches Some(db_out) && options.out_db_filename@ == db_out@
                &&& args.cache matches Some(cache) && options.cache_filename@ == cache@
                &&& match args.threads {
                    Some(text) => count_of(text@) == Some(options.threads_count as nat),
                    None => options.threads_count == DEFAULT_THREADS,
                }
                &&& match args.div_start {
                    Some(text) => div_start_of(text@) == Some(options.div_start as nat),
                    None => options.div_start == DEFAULT_DIV_START,
                }
            },
            Err(ConfigError::Getopts(_)) => false,
            Err(ConfigError::NoInDbFileProvided) => args.db_in is None,
            Err(ConfigError::NoOutDbFileProvided) => args.db_in is Some && args.db_out is None,
            Err(ConfigError::NoCacheFileProvided) => {
                &&& args.db_in is Some
                &&& args.db_out is Some
                &&& args.cache is None
            },
            Err(ConfigError::InvalidThreadsValue(kept)) => {
                &&& args.db_in is Some
                &&& args.db_out is Some
                &&& args.cache is Some
                &&& args.threads matches Some(text) && kept@ == text@ && count_of(text@) is None
            },
            Err(ConfigError::InvalidDivStartValue(kept)) => {
                &&& args.db_in is Some
                &&& args.db_out is Some
                &&& args.cache is Some
                &&& args.threads matches Some(text) ==> count_of(text@) is Some
                &&& args.div_start matches Some(text) && kept@ == text@ && div_start_of(text@)
                    is None
            },
        },
{
    let in_db_filename = match args.db_in {
        Some(db_in) => db_in,
        None => {
            return Err(ConfigError::NoInDbFileProvided);
        },
    };
    let out_db_filename = match args.db_out {
        Some(db_out) => db_out,
        None => {
            return Err(ConfigError::NoOutDbFileProvided);
        },
    };
    let cache_filename = match args.cache {
        Some(cache) => cache,
        None => {
            return Err(ConfigError::NoCacheFileProvided);
        },
    };
    let threads_count: usize = match args.threads {
        Some(text) => match parse_decimal(text.as_str()) {
            Some(count) => count,
            None => {
                return Err(ConfigError::InvalidThreadsValue(text));
            },
        },
        None => DEFAULT_THREADS,
    };
    let div_start: i32 = match args.div_start {
        Some(text) => match parse_decimal(text.as_str()) {
            Some(count) => {
                if count > i32::MAX as usize {
                    return Err(ConfigError::InvalidDivStartValue(text));
                }
                count as i32
            },
            None => {
                return Err(ConfigError::InvalidDivStartValue(text));
            },
        },
        None => DEFAULT_DIV_START,
    };
    Ok(CompilerOptions { in_db_filename, out_db_filename, cache_filename, threads_count, div_start })
}

} // verus!
