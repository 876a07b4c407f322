use misosoup::bit::{leading_ones, E, R, S};
use misosoup::errors::ErrorKind;
use misosoup::index_builder::backend::{Backend, FallbackBackend};
use misosoup::index_builder::{Bitmap, IndexBuilder};

/// A byte-at-a-time description of the index: `None` where the record is refused.
fn reference(input: &str, level: usize) -> Option<(Vec<Bitmap>, Vec<Vec<u64>>, Vec<Vec<u64>>)> {
    let s = input.as_bytes();
    let n = (s.len() + 63) / 64;
    let mut bms = vec![Bitmap::default(); n];
    let mut run = 0usize;
    let mut quotes = 0usize;
    let mut depth = 0usize;
    let mut stack: Vec<u8> = Vec::new();
    let mut colon_depth: Vec<(usize, usize)> = Vec::new();
    let mut comma_depth: Vec<(usize, usize)> = Vec::new();
    for (p, &c) in s.iter().enumerate() {
        let (w, b) = (p / 64, p % 64);
        let bit = 1u64 << b;
        let in_string = quotes % 2 == 1;
        match c {
            b'\\' => bms[w].backslash |= bit,
            b'"' => {
                if run % 2 == 0 {
                    bms[w].quote |= bit;
                    quotes += 1;
                }
            }
            _ => {}
        }
        if !in_string {
            match c {
                b':' => {
                    bms[w].colon |= bit;
                    colon_depth.push((p, depth));
                }
                b',' => {
                    bms[w].comma |= bit;
                    comma_depth.push((p, depth));
                }
                b'{' | b'[' => {
                    if c == b'{' {
                        bms[w].left_brace |= bit;
                    } else {
                        bms[w].left_bracket |= bit;
                    }
                    stack.push(c);
                    depth += 1;
                }
                b'}' | b']' => {
                    if c == b'}' {
                        bms[w].right_brace |= bit;
                    } else {
                        bms[w].right_bracket |= bit;
                    }
                    let open = stack.pop()?;
                    if (open == b'{') != (c == b'}') {
                        return None;
                    }
                    depth -= 1;
                }
                _ => {}
            }
        }
        run = if c == b'\\' { run + 1 } else { 0 };
    }
    if quotes % 2 == 1 {
        return None;
    }
    assert!(stack.is_empty(), "the reference only covers balanced records");
    let mut b_colon = vec![vec![0u64; n]; level];
    let mut b_comma = vec![vec![0u64; n]; level];
    for k in 0..level {
        for &(p, d) in &colon_depth {
            if d <= k + 1 {
                b_colon[k][p / 64] |= 1u64 << (p % 64);
            }
        }
        for &(p, d) in &comma_depth {
            if d <= k + 1 {
                b_comma[k][p / 64] |= 1u64 << (p % 64);
            }
        }
    }
    Some((bms, b_colon, b_comma))
}

fn long_records() -> Vec<String> {
    let pad = "x".repeat(61);
    vec![
        format!(r#"{{"k":"{}\"q\"","a":[1,{{"b":[2,3],"c":{{"d":"}}{{][,:"}}}},4],"e":5}}"#, pad),
        format!(r#"{{"s":"{}","t":"{}"}}"#, "\\\\".repeat(40), "\\\"".repeat(33)),
        format!(
            r#"{{"a":{{"b":{{"c":{{"d":[{},{{"e":"{}"}}]}},"f":1}},"g":2}},"h":[[[],[{{}}]]],"i":"{}"}}"#,
            "7,".repeat(50) + "8",
            "y".repeat(70),
            ",:{}".repeat(30)
        ),
        format!("{}{}{}", "[".repeat(70), "{\"z\":0}", "]".repeat(70)),
    ]
}

#[test]
fn long_records_match_reference() {
    for record in long_records() {
        for level in 0..6 {
            let expected = reference(&record, level).expect("the record is well formed");
            let mut builder = IndexBuilder::new(FallbackBackend::default(), level);
            let index = builder.build(&record).expect("the record is well formed");
            assert_eq!(*index.bitmaps(), expected.0);
            assert_eq!(*index.b_colon(), expected.1);
            assert_eq!(*index.b_comma(), expected.2);
            assert_eq!(index.record(), record.as_str());
        }
    }
}

#[test]
fn escaped_quote_across_a_word_boundary() {
    // the backslash is byte 63, the quote it escapes byte 64
    let record = format!(r#"{{"a":"{}\"b","c":1}}"#, "x".repeat(57));
    assert_eq!(record.as_bytes()[63], b'\\');
    assert_eq!(record.as_bytes()[64], b'"');
    let mut builder = IndexBuilder::new(FallbackBackend::default(), 1);
    let index = builder.build(&record).unwrap();
    assert_eq!(index.bitmaps()[1].quote & 1, 0);
    let expected = reference(&record, 1).unwrap();
    assert_eq!(*index.bitmaps(), expected.0);
    assert_eq!(*index.b_colon(), expected.1);
}

#[test]
fn backslash_run_across_words_keeps_quote() {
    // 70 backslashes end just before a quote: an even run, so the quote closes the string
    let record = format!(r#"{{"a":"{}","b":2}}"#, "\\".repeat(70));
    let mut builder = IndexBuilder::new(FallbackBackend::default(), 1);
    let index = builder.build(&record).unwrap();
    let expected = reference(&record, 1).unwrap();
    assert_eq!(*index.bitmaps(), expected.0);
    assert_eq!(index.b_colon()[0][1], expected.1[0][1]);
    assert_ne!(index.b_colon()[0][1], 0);
}

#[test]
fn odd_quotes_are_refused() {
    let mut builder = IndexBuilder::new(FallbackBackend::default(), 1);
    let err = builder.build(r#"{"a":"b}"#).err().unwrap();
    assert_eq!(*err.kind(), ErrorKind::InvalidRecord);
    assert_eq!(*err.cause(), None);
    // an escaped quote does not count
    assert!(builder.build(r#"{"a":"\""}"#).is_ok());
    assert!(builder.build(r#"{"a":"\"}"#).is_err());
}

#[test]
fn mismatched_bracket_is_refused() {
    let mut builder = IndexBuilder::new(FallbackBackend::default(), 2);
    let err = builder.build(r#"{"a":[1}"#).err().unwrap();
    assert_eq!(*err.kind(), ErrorKind::Msg("invalid bracket/brace".to_string()));
    assert_eq!(*err.cause(), Some(ErrorKind::InvalidRecord));
}

#[test]
fn unmatched_close_is_refused() {
    let mut builder = IndexBuilder::new(FallbackBackend::default(), 2);
    let err = builder.build(r#"{"a":1}}"#).err().unwrap();
    assert_eq!(*err.kind(), ErrorKind::Msg("s.pop()".to_string()));
    assert_eq!(*err.cause(), Some(ErrorKind::InvalidRecord));
}

#[test]
fn brackets_inside_strings_are_ignored() {
    let mut builder = IndexBuilder::new(FallbackBackend::default(), 1);
    let index = builder.build(r#"{"a":"}]"}"#).unwrap();
    assert_eq!(index.bitmaps()[0].right_brace, 1 << 9);
    assert_eq!(index.bitmaps()[0].right_bracket, 0);
}

#[test]
fn unpaired_quotes_are_reported_before_brackets() {
    let mut builder = IndexBuilder::new(FallbackBackend::default(), 1);
    let err = builder.build(r#"{"a":1}}""#).err().unwrap();
    assert_eq!(*err.kind(), ErrorKind::InvalidRecord);
    assert_eq!(*err.cause(), None);
}

#[test]
fn unclosed_record_is_accepted() {
    // the outer brace never closes; the inner pair still removes its colon from level 0
    let record = r#"{"a":{"b":1},"c":2"#;
    let mut builder = IndexBuilder::new(FallbackBackend::default(), 2);
    let index = builder.build(record).unwrap();
    let colons = (1u64 << 4) | (1u64 << 9) | (1u64 << 16);
    assert_eq!(index.bitmaps()[0].colon, colons);
    assert_eq!(index.b_colon()[0][0], (1u64 << 4) | (1u64 << 16));
    assert_eq!(index.b_colon()[1][0], colons);
    assert_eq!(index.b_comma()[0][0], 1u64 << 12);
}

#[test]
fn rebuilding_gives_the_same_index() {
    let mut builder = IndexBuilder::new(FallbackBackend::default(), 3);
    let first = {
        let index = builder.build(r#"{"a":{"b":[1,2]},"c":3}"#).unwrap();
        (index.bitmaps().clone(), index.b_colon().clone(), index.b_comma().clone())
    };
    let long = long_records()[2].clone();
    builder.build(&long).unwrap();
    let _ = builder.build(r#"{"a":"#);
    let index = builder.build(r#"{"a":{"b":[1,2]},"c":3}"#).unwrap();
    assert_eq!(*index.bitmaps(), first.0);
    assert_eq!(*index.b_colon(), first.1);
    assert_eq!(*index.b_comma(), first.2);
    let mut fresh = IndexBuilder::new(FallbackBackend::default(), 3);
    let again = fresh.build(r#"{"a":{"b":[1,2]},"c":3}"#).unwrap();
    assert_eq!(*again.bitmaps(), first.0);
    assert_eq!(*again.b_colon(), first.1);
}

#[test]
fn levels_grow_with_depth() {
    let record = r#"{"a":{"b":{"c":{"d":1}}},"e":[{"f":2}]}"#;
    let mut builder = IndexBuilder::new(FallbackBackend::default(), 4);
    let index = builder.build(record).unwrap();
    let rows = index.b_colon();
    for k in 0..3 {
        assert_eq!(rows[k][0] & rows[k + 1][0], rows[k][0]);
    }
    assert_eq!(rows[0][0].count_ones(), 2);
    assert_eq!(rows[1][0].count_ones(), 3);
    assert_eq!(rows[2][0].count_ones(), 5);
    assert_eq!(rows[3][0].count_ones(), 6);
}

#[test]
fn empty_record() {
    let mut builder = IndexBuilder::new(FallbackBackend::default(), 2);
    let index = builder.build("").unwrap();
    assert!(index.bitmaps().is_empty());
    assert_eq!(*index.b_colon(), vec![Vec::<u64>::new(), Vec::new()]);
}

#[test]
fn fallback_backend_bitmaps() {
    let backend = FallbackBackend::default();
    let s = br#"{"a\\":[1,2]}"#;
    let b = backend.create_partial_bitmap(s, 0);
    assert_eq!(b.left_brace, 1);
    assert_eq!(b.quote, (1 << 1) | (1 << 5));
    assert_eq!(b.backslash, (1 << 3) | (1 << 4));
    assert_eq!(b.colon, 1 << 6);
    assert_eq!(b.left_bracket, 1 << 7);
    assert_eq!(b.comma, 1 << 9);
    assert_eq!(b.right_bracket, 1 << 11);
    assert_eq!(b.right_brace, 1 << 12);
    let long = [b':'; 70];
    let full = backend.create_full_bitmap(&long, 0);
    assert_eq!(full.colon, u64::MAX);
    let rest = backend.create_partial_bitmap(&long, 64);
    assert_eq!(rest.colon, 0b11_1111);
    assert_eq!(backend.create_full_bitmap(&long, 6), full);
}

#[test]
fn bit_helpers() {
    assert_eq!(E(0b1011_0100), 0b100);
    assert_eq!(E(0), 0);
    assert_eq!(R(0b1011_0100), 0b1011_0000);
    assert_eq!(R(0), 0);
    assert_eq!(S(0b1011_0100), 0b111);
    assert_eq!(S(0), u64::MAX);
    assert_eq!(leading_ones(0b0111_0110, 7), 3);
    assert_eq!(leading_ones(0b0111_0110, 3), 2);
    assert_eq!(leading_ones(0b0111_0110, 1), 0);
    assert_eq!(leading_ones(u64::MAX, 64), 64);
    assert_eq!(leading_ones(u64::MAX, 0), 0);
}
