use divisor_db::options::{
    parse_decimal, resolve_compiler_options, resolve_generator_options, CmdArgsError,
    CompilerArgs, CompilerOptions, ConfigError, GeneratorArgs, GeneratorOptions,
};

fn text(s: &str) -> Option<String> {
    Some(s.to_string())
}

#[test]
fn parse_decimal_reads_digits() {
    assert_eq!(parse_decimal("0"), Some(0));
    assert_eq!(parse_decimal("4"), Some(4));
    assert_eq!(parse_decimal("62000"), Some(62000));
    assert_eq!(parse_decimal("+17"), Some(17));
    assert_eq!(parse_decimal("007"), Some(7));
}

#[test]
fn parse_decimal_refuses_everything_else() {
    for bad in ["", "+", "-1", " 4", "4 ", "4x", "x4", "1_000", "1.5", "0x10", "++1", "四"] {
        assert_eq!(parse_decimal(bad), None);
    }
}

#[test]
fn parse_decimal_stops_at_the_largest_value() {
    let max = usize::MAX.to_string();
    assert_eq!(parse_decimal(&max), Some(usize::MAX));
    let mut above = max.clone();
    above.push('0');
    assert_eq!(parse_decimal(&above), None);
    assert_eq!(parse_decimal("99999999999999999999999999999999"), None);
    assert_eq!(parse_decimal("18446744073709551616"), "18446744073709551616".parse::<usize>().ok());
}

#[test]
fn parse_decimal_agrees_with_std() {
    for s in ["", "+", "-", "0", "+0", "-0", "12", "0012", "+12", "12+", "1 2", "12\n", "٣"] {
        assert_eq!(parse_decimal(s), s.parse::<usize>().ok());
    }
}

#[test]
fn generator_defaults() {
    let args = GeneratorArgs { words: text("w.txt"), db_out: text("o.bin"), bytes_avail: None, threads: None };
    assert_eq!(
        resolve_generator_options(args),
        Ok(GeneratorOptions {
            words_filename: "w.txt".to_string(),
            out_db_filename: "o.bin".to_string(),
            threads_count: 4,
            bytes_avail: 62000,
        })
    );
}

#[test]
fn generator_values() {
    let args = GeneratorArgs { words: text("w"), db_out: text("o"), bytes_avail: text("128"), threads: text("9") };
    let options = resolve_generator_options(args).unwrap();
    assert_eq!(options.threads_count, 9);
    assert_eq!(options.bytes_avail, 128);
}

#[test]
fn generator_errors_in_order() {
    let none = GeneratorArgs { words: None, db_out: None, bytes_avail: text("x"), threads: text("y") };
    assert_eq!(resolve_generator_options(none), Err(CmdArgsError::NoWordsFileProvided));
    let no_out = GeneratorArgs { words: text("w"), db_out: None, bytes_avail: text("x"), threads: text("y") };
    assert_eq!(resolve_generator_options(no_out), Err(CmdArgsError::NoOutDbFileProvided));
    let both_bad = GeneratorArgs { words: text("w"), db_out: text("o"), bytes_avail: text("x"), threads: text("y") };
    assert_eq!(
        resolve_generator_options(both_bad),
        Err(CmdArgsError::InvalidThreadsValue("y".to_string()))
    );
    let bad_bytes = GeneratorArgs { words: text("w"), db_out: text("o"), bytes_avail: text("-3"), threads: text("2") };
    assert_eq!(
        resolve_generator_options(bad_bytes),
        Err(CmdArgsError::InvalidBytesAvailValue("-3".to_string()))
    );
}

fn compiler_args() -> CompilerArgs {
    CompilerArgs { db_in: text("in.db"), db_out: text("out.db"), cache: text("c.bin"), threads: None, div_start: None }
}

#[test]
fn compiler_defaults() {
    assert_eq!(
        resolve_compiler_options(compiler_args()),
        Ok(CompilerOptions {
            in_db_filename: "in.db".to_string(),
            out_db_filename: "out.db".to_string(),
            cache_filename: "c.bin".to_string(),
            threads_count: 4,
            div_start: 1,
        })
    );
}

#[test]
fn compiler_values() {
    let args = CompilerArgs { threads: text("1"), div_start: text("2147483647"), ..compiler_args() };
    let options = resolve_compiler_options(args).unwrap();
    assert_eq!(options.threads_count, 1);
    assert_eq!(options.div_start, i32::MAX);
}

#[test]
fn missing_input_database_is_a_configuration_error() {
    let args = CompilerArgs { db_in: None, ..compiler_args() };
    assert_eq!(resolve_compiler_options(args), Err(ConfigError::NoInDbFileProvided));
    let nothing = CompilerArgs { db_in: None, db_out: None, cache: None, threads: text("x"), div_start: text("y") };
    assert_eq!(resolve_compiler_options(nothing), Err(ConfigError::NoInDbFileProvided));
}

#[test]
fn compiler_errors_in_order() {
    let no_out = CompilerArgs { db_out: None, cache: None, ..compiler_args() };
    assert_eq!(resolve_compiler_options(no_out), Err(ConfigError::NoOutDbFileProvided));
    let no_cache = CompilerArgs { cache: None, threads: text("x"), ..compiler_args() };
    assert_eq!(resolve_compiler_options(no_cache), Err(ConfigError::NoCacheFileProvided));
    let bad_threads = CompilerArgs { threads: text("four"), div_start: text("-1"), ..compiler_args() };
    assert_eq!(
        resolve_compiler_options(bad_threads),
        Err(ConfigError::InvalidThreadsValue("four".to_string()))
    );
    let bad_start = CompilerArgs { div_start: text("-1"), ..compiler_args() };
    assert_eq!(
        resolve_compiler_options(bad_start),
        Err(ConfigError::InvalidDivStartValue("-1".to_string()))
    );
    let wide_start = CompilerArgs { div_start: text("2147483648"), ..compiler_args() };
    assert_eq!(
        resolve_compiler_options(wide_start),
        Err(ConfigError::InvalidDivStartValue("2147483648".to_string()))
    );
}
