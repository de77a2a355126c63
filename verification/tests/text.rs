use std::path::Path;

use vmdk::path::absolute_or_join;
use vmdk::text::{
    before_white_space, chars_of, count_words, is_whitespace, parse_number, same_text,
    split_at_first, split_word, trim,
};

const SAMPLES: [&str; 16] = [
    "",
    " ",
    "a",
    " a ",
    "\t\u{85}a b\u{a0} c\u{2028}",
    "RW 8 FLAT \"x y\" 0",
    "\u{3000}ß\u{1680}ß\u{3000}",
    "a=b=c",
    "=",
    "key = value ",
    "\u{10ffff}=\u{e000}",
    "\u{200b}a\u{200b}",
    "x\u{205f}y\u{202f}z",
    "\"",
    "\"\"",
    "no marks here",
];

#[test]
fn white_space_is_that_of_the_standard_library() {
    for number in 0..=0x10_ffffu32 {
        if let Some(c) = char::from_u32(number) {
            assert_eq!(is_whitespace(c), c.is_whitespace(), "{:?}", c);
        }
    }
}

#[test]
fn trimming_and_words_agree_with_the_standard_library() {
    for sample in SAMPLES {
        assert_eq!(chars_of(sample), sample.chars().collect::<Vec<char>>());
        assert_eq!(trim(sample), sample.trim());
        assert_eq!(count_words(sample), sample.split_whitespace().count());
        let mut words: Vec<&str> = Vec::new();
        let mut rest = sample;
        while let Some((word, tail)) = split_word(rest) {
            words.push(word);
            rest = tail;
        }
        assert_eq!(words, sample.split_whitespace().collect::<Vec<&str>>());
        assert_eq!(
            before_white_space(sample),
            sample.split_once(char::is_whitespace).map(|(head, _)| head),
        );
    }
}

#[test]
fn splitting_agrees_with_the_standard_library() {
    for sample in SAMPLES {
        for mark in ['=', '"', '\n', ' ', 'a', '\u{0}', '\u{7f}'] {
            assert_eq!(split_at_first(sample, mark), sample.split_once(mark));
        }
        for other in SAMPLES {
            assert_eq!(same_text(sample, other), sample == other);
        }
    }
}

#[test]
fn numbers_agree_with_the_standard_library() {
    for sample in [
        "0",
        "7",
        "+7",
        "007",
        "18446744073709551615",
        "18446744073709551616",
        "99999999999999999999",
        "1844674407370955161500",
        "+18446744073709551615",
        "",
        "+",
        "-",
        "-0",
        "-1",
        "++1",
        "1+",
        "1_0",
        " 1",
        "1 ",
        "٣",
        "1e3",
    ] {
        assert_eq!(parse_number(sample, u64::MAX), sample.parse::<u64>().ok());
    }
    assert_eq!(parse_number("4294967295", u32::MAX as u64), Some(4_294_967_295));
    assert_eq!(parse_number("4294967296", u32::MAX as u64), None);
    assert_eq!(parse_number("0", 0), Some(0));
    assert_eq!(parse_number("1", 0), None);
    assert_eq!(parse_number("12", 12), Some(12));
    assert_eq!(parse_number("13", 12), None);
}

#[test]
fn paths_agree_with_the_standard_library() {
    for base in ["", ".", "/", "/tmp", "/tmp/", "rel", "rel/dir//", "größe"] {
        for name in ["", "a.vmdk", "/a.vmdk", "//a", "../a", "./a", "sub/a", "ß"] {
            let expected = if Path::new(name).is_absolute() {
                Path::new(name).to_path_buf()
            } else {
                Path::new(base).join(name)
            };
            let path = absolute_or_join(base.as_bytes(), name);
            assert_eq!(path, expected.to_str().unwrap().as_bytes());
        }
    }
    assert_eq!(absolute_or_join(b"/img", "a.vmdk"), b"/img/a.vmdk");
    assert_eq!(absolute_or_join(b"/img\xff", "a.vmdk"), b"/img\xff/a.vmdk");
    assert_eq!(absolute_or_join(b"/img", "/b"), b"/b");
}
