use progonka::loader::{parse_system, parse_rat, LoadError};
use progonka::rat::Rat;

fn frac(n: i64, d: i64) -> Rat {
    Rat::from_i64(n).div(&Rat::from_i64(d))
}

#[test]
fn parses_the_concrete_fixture_text() {
    // the literal fixture of the hand-solved scenario
    let sys = parse_system(b"0 0 1 2\n1 2 1 3\n").unwrap();
    let x = sys.solve().unwrap();
    assert_eq!(x.n, 3);
    assert!(x.get(0).eq_rat(&Rat::from_i64(1)));
    assert!(x.get(1).eq_rat(&Rat::from_i64(0)));
    assert!(x.get(2).eq_rat(&Rat::from_i64(2)));
}

#[test]
fn right_side_round_trips_through_load() {
    // getRight must reassemble (mu1, d_1, d_2, mu2) literally from the
    // file's own tokens
    let sys = parse_system(b"0.5 -0.25 7 -8\n1 3 1 2.5\n0 4 0 -6\n").unwrap();
    let rhs = sys.getRight();
    assert_eq!(rhs.n, 4);
    assert!(rhs.get(0).eq_rat(&Rat::from_i64(7)));
    assert!(rhs.get(1).eq_rat(&frac(5, 2)));
    assert!(rhs.get(2).eq_rat(&Rat::from_i64(-6)));
    assert!(rhs.get(3).eq_rat(&Rat::from_i64(-8)));
}

#[test]
fn long_tokens_keep_full_precision() {
    // far past what any machine word holds: the token must survive exactly
    let tok = b"123456789012345678901234567890.5";
    let x = parse_rat(tok).unwrap();
    // x * 10 == 1234567890123456789012345678905
    let ten = Rat::from_i64(10);
    let scaled = x.mul(&ten);
    let expected = parse_rat(b"1234567890123456789012345678905").unwrap();
    assert!(scaled.eq_rat(&expected));
    assert!(!x.eq_rat(&parse_rat(b"123456789012345678901234567890").unwrap()));
}

#[test]
fn token_grammar_is_enforced() {
    assert!(parse_rat(b"-3.25").unwrap().eq_rat(&frac(-13, 4)));
    assert!(parse_rat(b"+4").unwrap().eq_rat(&Rat::from_i64(4)));
    assert!(parse_rat(b".5").unwrap().eq_rat(&frac(1, 2)));
    assert!(parse_rat(b"7.").unwrap().eq_rat(&Rat::from_i64(7)));
    assert!(parse_rat(b"").is_none());
    assert!(parse_rat(b"-").is_none());
    assert!(parse_rat(b".").is_none());
    assert!(parse_rat(b"1.2.3").is_none());
    assert!(parse_rat(b"12a").is_none());
}

#[test]
fn short_and_blank_lines_fail_the_load() {
    // fewer than four tokens on the boundary line
    assert!(matches!(parse_system(b"1 2 3\n"), Err(LoadError::Malformed)));
    // a blank interior line is not skipped: it fails like any short line
    assert!(matches!(
        parse_system(b"0 0 1 2\n\n1 2 1 3\n"),
        Err(LoadError::Malformed)
    ));
    // an unparsable token among the first four
    assert!(matches!(
        parse_system(b"0 0 1 2\n1 x 1 3\n"),
        Err(LoadError::Malformed)
    ));
    // the empty text has no boundary line
    assert!(matches!(parse_system(b""), Err(LoadError::Malformed)));
}

#[test]
fn zero_rows_and_extra_tokens_load() {
    // a boundary line alone is a valid n = 2 system; the fifth token is
    // ignored, and one trailing newline is allowed but not required
    let sys = parse_system(b"0 0 5 6 99").unwrap();
    assert_eq!(sys.size(), 2);
    let x = sys.solve().unwrap();
    assert!(x.get(0).eq_rat(&Rat::from_i64(5)));
    assert!(x.get(1).eq_rat(&Rat::from_i64(6)));
}
