use temp_agg::aggregate;
use temp_agg::aggregator::Aggregator;
use temp_agg::stats::TemperatureStats;
use temp_agg::temp::{is_valid_temp, parse_temp};
use temp_agg::tokenizer::Tokenizer;

fn run(input: &[u8]) -> String {
    String::from_utf8(aggregate(input)).unwrap()
}

#[test]
fn end_to_end_example() {
    let input = b"Hamburg;12.0\nHamburg;14.0\nPalma;25.5\n";
    assert_eq!(run(input), "{Hamburg=13.0/14.0/12.0, Palma=25.5/25.5/25.5}");
}

#[test]
fn end_to_end_negative_and_interleaved() {
    let input = b"A;-5.3\nB;0.0\nA;10.0\n";
    assert_eq!(run(input), "{A=2.4/10.0/-5.3, B=0.0/0.0/0.0}");
}

#[test]
fn empty_input_gives_empty_report() {
    assert_eq!(run(b""), "{}");
}

#[test]
fn single_record_bucket_seeds_all_fields() {
    assert_eq!(run(b"Oslo;7.5\n"), "{Oslo=7.5/7.5/7.5}");
    assert_eq!(run(b"Oslo;-0.3\n"), "{Oslo=-0.3/-0.3/-0.3}");
}

#[test]
fn single_value_stats_equal_value() {
    let st = TemperatureStats::new(75);
    assert_eq!(st.average(), 75);
    assert_eq!(st.max_value(), 75);
    assert_eq!(st.min_value(), 75);
    assert_eq!(st.count(), 1);
}

#[test]
fn fast_path_matches_float_parse() {
    // every token of the shape -?\d{1,2}\.\d in [-99.9, 99.9]
    for scaled in -999i64..=999i64 {
        let s = format!("{}{}.{}", if scaled < 0 { "-" } else { "" }, scaled.abs() / 10, scaled.abs() % 10);
        let bytes = s.as_bytes();
        assert!(is_valid_temp(bytes), "{}", s);
        let parsed = parse_temp(bytes);
        let float: f64 = s.parse().unwrap();
        assert_eq!(parsed, (10.0 * float).round() as i64, "{}", s);
        assert_eq!(parsed, scaled, "{}", s);
    }
}

#[test]
fn parse_temp_samples() {
    assert_eq!(parse_temp(b"0.0"), 0);
    assert_eq!(parse_temp(b"99.9"), 999);
    assert_eq!(parse_temp(b"-99.9"), -999);
    assert_eq!(parse_temp(b"7.3"), 73);
    assert_eq!(parse_temp(b"-0.3"), -3);
    assert_eq!(parse_temp(b"12.0"), 120);
}

#[test]
fn validator_rejects_malformed_tokens() {
    assert!(!is_valid_temp(b""));
    assert!(!is_valid_temp(b"100.0"));
    assert!(!is_valid_temp(b"1.00"));
    assert!(!is_valid_temp(b"abc"));
    assert!(!is_valid_temp(b"-.5"));
    assert!(!is_valid_temp(b"5."));
    assert!(!is_valid_temp(b"12"));
    assert!(!is_valid_temp(b"--1.0"));
    assert!(!is_valid_temp(b"1,0"));
    assert!(is_valid_temp(b"12.3"));
    assert!(is_valid_temp(b"-3.4"));
    assert!(is_valid_temp(b"-99.9"));
}

#[test]
fn output_keys_ascend_whatever_the_input_order() {
    let a = run(b"b;1.0\na;2.0\nc;3.0\n");
    let b = run(b"c;3.0\nb;1.0\na;2.0\n");
    let c = run(b"a;2.0\nc;3.0\nb;1.0\n");
    assert_eq!(a, "{a=2.0/2.0/2.0, b=1.0/1.0/1.0, c=3.0/3.0/3.0}");
    assert_eq!(a, b);
    assert_eq!(a, c);
}

#[test]
fn streaming_equivalence_at_every_split() {
    let input: &[u8] = b"Hamburg;12.0\nHamburg;14.0\nPalma;25.5\nA;-5.3\nB;0.0\nA;10.0\n";
    let whole = aggregate(input);
    for cut in 0..=input.len() {
        let mut tok = Tokenizer::new();
        let mut agg = Aggregator::new();
        tok.feed(&input[..cut], &mut agg);
        tok.feed(&input[cut..], &mut agg);
        assert_eq!(agg.report(), whole, "split at {}", cut);
    }
}

#[test]
fn streaming_equivalence_byte_by_byte() {
    let input: &[u8] = b"Lima;1.1\nLima;-2.2\nQuito;30.0\n";
    let whole = aggregate(input);
    let mut tok = Tokenizer::new();
    let mut agg = Aggregator::new();
    for i in 0..input.len() {
        tok.feed(&input[i..i + 1], &mut agg);
    }
    assert_eq!(agg.report(), whole);
}

#[test]
fn partition_and_merge_matches_single_pass() {
    let part1: &[u8] = b"A;-5.3\nB;0.0\nC;9.9\n";
    let part2: &[u8] = b"A;10.0\nC;-9.9\nD;1.0\n";
    let mut whole: Vec<u8> = Vec::new();
    whole.extend_from_slice(part1);
    whole.extend_from_slice(part2);
    let one_pass = aggregate(&whole);

    let mut tok1 = Tokenizer::new();
    let mut agg1 = Aggregator::new();
    tok1.feed(part1, &mut agg1);
    let mut tok2 = Tokenizer::new();
    let mut agg2 = Aggregator::new();
    tok2.feed(part2, &mut agg2);
    agg1.merge_from(&agg2);
    assert_eq!(agg1.report(), one_pass);
}

#[test]
fn bucket_merge_matches_folding() {
    let values: [i64; 5] = [-53, 0, 100, 999, -999];
    let mut folded = TemperatureStats::new(values[0]);
    for v in &values[1..] {
        folded.update(*v);
    }
    let mut left = TemperatureStats::new(values[0]);
    left.update(values[1]);
    let mut right = TemperatureStats::new(values[2]);
    right.update(values[3]);
    right.update(values[4]);
    left.merge_from(&right);
    assert_eq!(left.average(), folded.average());
    assert_eq!(left.max_value(), folded.max_value());
    assert_eq!(left.min_value(), folded.min_value());
    assert_eq!(left.count(), folded.count());
}

#[test]
fn trailing_partial_record_is_dropped() {
    assert_eq!(run(b"A;1.0\nB;2.0"), "{A=1.0/1.0/1.0}");
    assert_eq!(run(b"A;1.0\nB;"), "{A=1.0/1.0/1.0}");
    assert_eq!(run(b"A;1.0\nB"), "{A=1.0/1.0/1.0}");
}

#[test]
fn malformed_value_record_is_skipped() {
    assert_eq!(run(b"A;abc\nB;1.0\n"), "{B=1.0/1.0/1.0}");
    assert_eq!(run(b"A;100.0\nA;1.0\n"), "{A=1.0/1.0/1.0}");
    assert_eq!(run(b"A;\nB;1.0\n"), "{B=1.0/1.0/1.0}");
}

#[test]
fn empty_key_is_a_key() {
    assert_eq!(run(b";3.0\n"), "{=3.0/3.0/3.0}");
}

#[test]
fn average_rounds_halves_away_from_zero() {
    // 0.1 and 0.2 average to 0.15, reported 0.2
    assert_eq!(run(b"A;0.1\nA;0.2\n"), "{A=0.2/0.2/0.1}");
    // -0.1 and -0.2 average to -0.15, reported -0.2
    assert_eq!(run(b"A;-0.1\nA;-0.2\n"), "{A=-0.2/-0.1/-0.2}");
}

#[test]
fn averages_accumulate_exactly() {
    // ten times 0.1 averages to exactly 0.1, with no drift
    let mut input: Vec<u8> = Vec::new();
    for _ in 0..10 {
        input.extend_from_slice(b"X;0.1\n");
    }
    assert_eq!(run(&input), "{X=0.1/0.1/0.1}");
}

#[test]
fn keys_compare_bytewise() {
    // a prefix sorts before its extension; bytes, not characters, decide
    assert_eq!(
        run(b"ab;1.0\na;2.0\nabc;3.0\n"),
        "{a=2.0/2.0/2.0, ab=1.0/1.0/1.0, abc=3.0/3.0/3.0}"
    );
}
