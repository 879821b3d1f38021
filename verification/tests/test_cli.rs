use modlin::cli::{parse_duration, ArgError, Args, DurationError, LogInterval};

fn ms(secs: u64, millis: u32) -> LogInterval {
    LogInterval { secs, millis }
}

#[test]
fn parse_duration_example() {
    // 1 day + 2 hours + 3 minutes + 4 seconds + 567 ms.
    assert_eq!(parse_duration("1d2h3m4s567"), Ok(ms(86400 + 7200 + 180 + 4, 567)));
}

#[test]
fn parse_duration_units() {
    assert_eq!(parse_duration("10s"), Ok(ms(10, 0)));
    assert_eq!(parse_duration("2m"), Ok(ms(120, 0)));
    assert_eq!(parse_duration("1h"), Ok(ms(3600, 0)));
    assert_eq!(parse_duration("0"), Ok(ms(0, 0)));
    assert_eq!(parse_duration("1500"), Ok(ms(1, 500)));
    // Whitespace is ignored, even between digits.
    assert_eq!(parse_duration(" 1 0s 5 "), Ok(ms(10, 5)));
    assert_eq!(parse_duration("1\u{3000}s"), Ok(ms(1, 0)));
}

#[test]
fn parse_duration_errors() {
    assert_eq!(parse_duration(""), Err(DurationError::Empty));
    assert_eq!(parse_duration("s"), Err(DurationError::InvalidNumber('s')));
    assert_eq!(parse_duration("5x"), Err(DurationError::InvalidSuffix('x')));
    assert_eq!(parse_duration("5s x"), Err(DurationError::InvalidNumber('x')));
    assert_eq!(
        parse_duration("99999999999999999999s"),
        Err(DurationError::InvalidNumber('s'))
    );
    assert_eq!(
        parse_duration("99999999999999999999"),
        Err(DurationError::InvalidTrailingMillis)
    );
    assert_eq!(parse_duration("18446744073709551615d"), Err(DurationError::Overflow));
    assert_eq!(
        parse_duration("18446744073709551615s18446744073709551615s"),
        Err(DurationError::Overflow)
    );
    // The largest duration still fits.
    assert_eq!(
        parse_duration("18446744073709551615s999"),
        Ok(ms(18446744073709551615, 999))
    );
    assert_eq!(parse_duration("18446744073709551615s1000"), Err(DurationError::Overflow));
}

fn args(rank: Option<usize>, lc: Option<usize>, reps: usize, modulus: u64) -> Args {
    Args {
        rank,
        linear_complexity: lc,
        reps,
        modulus,
        seed: 0,
        log_interval: ms(10, 0),
    }
}

#[test]
fn args_size() {
    assert_eq!(args(Some(5), None, 1, 97).size(), 5);
    assert_eq!(args(None, Some(7), 1, 97).size(), 7);
}

#[test]
fn args_validate() {
    assert_eq!(args(Some(500), None, 1, 2305843009213693951).validate(), Ok(()));
    assert_eq!(args(None, Some(1000), 3, 2).validate(), Ok(()));
    assert_eq!(args(Some(1), None, 1, 97).validate(), Err(ArgError::SizeTooSmall));
    assert_eq!(
        args(Some(usize::MAX), None, 1, 97).validate(),
        Err(ArgError::SideTooLarge)
    );
    // A long sequence is fine: only the matrix side is squared.
    assert_eq!(args(None, Some(usize::MAX), 1, 97).validate(), Ok(()));
    assert_eq!(args(Some(5), None, 0, 97).validate(), Err(ArgError::NoReps));
    assert_eq!(args(Some(5), None, 1, 1).validate(), Err(ArgError::ModulusTooSmall));
    assert_eq!(
        args(Some(5), None, 1, 1 << 63).validate(),
        Err(ArgError::ModulusTooLarge)
    );
    assert_eq!(args(Some(5), None, 1, 91).validate(), Err(ArgError::ModulusNotPrime));
    assert_eq!(
        args(Some(5), None, 1, (1 << 63) - 25).validate(),
        Ok(())
    );
}

#[test]
fn parse_duration_concatenates() {
    let a = parse_duration("1d2h").unwrap();
    let b = parse_duration("3m4s567").unwrap();
    let ab = parse_duration("1d2h3m4s567").unwrap();
    let total = |d: LogInterval| d.secs as u128 * 1000 + d.millis as u128;
    assert_eq!(total(ab), total(a) + total(b));
}
