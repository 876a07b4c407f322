use misosoup::index_builder::backend::FallbackBackend;
use misosoup::index_builder::{Bitmap, IndexBuilder};

struct TestCase {
    input: &'static str,
    level: usize,
    bitmaps: Vec<Bitmap>,
    b_colon: Vec<Vec<u64>>,
    b_comma: Vec<Vec<u64>>,
}

#[test]
fn test_structural_character_bitmaps() {
    let cases = vec![
        TestCase {
            input: "{}",
            level: 1,
            bitmaps: vec![Bitmap {
                backslash: 0,
                quote: 0,
                colon: 0,
                comma: 0,
                left_brace: 0b0000_0001,
                right_brace: 0b0000_0010,
                left_bracket: 0,
                right_bracket: 0,
            }],
            b_colon: vec![vec![0]],
            b_comma: vec![vec![0]],
        },
        TestCase {
            input: r#"{"x\"y\\":10}"#,
            level: 1,
            bitmaps: vec![Bitmap {
                backslash: 0b_0000_0000_1100_1000,
                quote: 0b_0000_0001_0000_0010,
                colon: 0b_0000_0010_0000_0000,
                comma: 0,
                left_brace: 0b_0000_0000_0000_0001,
                right_brace: 0b_0001_0000_0000_0000,
                left_bracket: 0,
                right_bracket: 0,
            }],
            b_colon: vec![vec![0b_0000_0010_0000_0000]],
            b_comma: vec![vec![0b_0000_0000_0000_0000]],
        },
        TestCase {
            input: r#"{ "f1":"a", "f2":{ "e1": true, "e2": "::a" }, "f3":"\"foo\\" }"#,
            level: 2,
            bitmaps: vec![Bitmap {
                backslash: 0b_0000_0110_0001_0000_0000_0000_0000_0000_0000_0000_0000_0000_0000_0000_0000_0000,
                quote: 0b_0000_1000_0000_1010_0100_0010_0010_0100_1000_0000_0100_1000_1001_0010_1010_0100,
                colon: 0b_0000_0000_0000_0100_0000_0000_0000_1000_0000_0000_1000_0001_0000_0000_0100_0000,
                comma: 0b_0000_0000_0000_0000_0001_0000_0000_0000_0010_0000_0000_0000_0000_0100_0000_0000,
                left_brace: 0b_0000_0000_0000_0000_0000_0000_0000_0000_0000_0000_0000_0010_0000_0000_0000_0001,
                right_brace: 0b_0010_0000_0000_0000_0000_1000_0000_0000_0000_0000_0000_0000_0000_0000_0000_0000,
                left_bracket: 0,
                right_bracket: 0,
            }],
            b_colon: vec![
                vec![0b_0000_0000_0000_0100_0000_0000_0000_0000_0000_0000_0000_0001_0000_0000_0100_0000],
                vec![0b_0000_0000_0000_0100_0000_0000_0000_1000_0000_0000_1000_0001_0000_0000_0100_0000],
            ],
            b_comma: vec![
                vec![0b_0000_0000_0000_0000_0001_0000_0000_0000_0000_0000_0000_0000_0000_0100_0000_0000],
                vec![0b_0000_0000_0000_0000_0001_0000_0000_0000_0010_0000_0000_0000_0000_0100_0000_0000],
            ],
        },
        TestCase {
            input: r#"{ "f1": { "e1": { "d1": true } } }"#,
            level: 3,
            bitmaps: vec![Bitmap {
                backslash: 0,
                quote: 2368548,
                colon: 4210752,
                comma: 0,
                left_brace: 65793,
                right_brace: 11274289152,
                left_bracket: 0,
                right_bracket: 0,
            }],
            b_colon: vec![vec![64], vec![16448], vec![4210752]],
            b_comma: vec![vec![0], vec![0], vec![0]],
        },
        TestCase {
            input: r#"{ "a": [0, 1, 2] }"#,
            level: 2,
            bitmaps: vec![Bitmap {
                backslash: 0,
                quote: 20,
                colon: 32,
                comma: 4608,
                left_brace: 1,
                right_brace: 131072,
                left_bracket: 128,
                right_bracket: 32768,
            }],
            //    }_ ]2_, 1_,0 [_:" a"_{
            b_colon: vec![vec![0b_0000_0000_0000_0010_0000], vec![0b_0000_0000_0000_0010_0000]],
            b_comma: vec![vec![0b_0000_0000_0000_0000_0000], vec![0b_0000_0001_0010_0000_0000]],
        },
    ];

    for t in cases {
        let mut index_builder = IndexBuilder::<FallbackBackend>::new(Default::default(), t.level);
        let actual = index_builder.build(t.input).unwrap();
        assert_eq!(t.bitmaps, *actual.bitmaps());
        assert_eq!(t.b_colon, *actual.b_colon());
        assert_eq!(t.b_comma, *actual.b_comma());
    }
}
