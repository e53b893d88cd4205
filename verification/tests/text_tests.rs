use ddbug_parser::support::{return_range, value_to_i32, value_to_u32};
use ddbug_parser::text::{
    drop_text_chars, find_chars, lines_of, split_chars, split_once_chars, trim_chars, words_of,
};

fn chars(s: &str) -> Vec<char> {
    s.chars().collect()
}

fn text(v: &[char]) -> String {
    v.iter().collect()
}

fn texts(v: Vec<Vec<char>>) -> Vec<String> {
    v.iter().map(|x| text(x)).collect()
}

const SAMPLES: [&str; 12] = [
    "",
    "\n",
    "a\nb",
    "a\r\nb\r\n",
    "a\n\n",
    "x\r",
    "\r\n\r\n",
    " \t lead and trail \u{3000}\u{85}",
    "  12 ",
    "+12\u{a0}",
    "é-ü:ö",
    "  many   spaced\twords\x0Chere\u{a0}x ",
];

#[test]
fn lines_agree_with_std() {
    for s in SAMPLES {
        let std: Vec<String> = s.lines().map(|l| l.to_string()).collect();
        assert_eq!(texts(lines_of(&chars(s))), std, "input {:?}", s);
    }
}

#[test]
fn words_agree_with_std() {
    for s in SAMPLES {
        let std: Vec<String> = s.split_ascii_whitespace().map(|l| l.to_string()).collect();
        assert_eq!(texts(words_of(&chars(s))), std, "input {:?}", s);
    }
}

#[test]
fn trim_agrees_with_std() {
    for s in SAMPLES {
        assert_eq!(text(&trim_chars(&chars(s))), s.trim(), "input {:?}", s);
    }
}

#[test]
fn split_agrees_with_std() {
    for s in SAMPLES {
        let std: Vec<String> = s.split(&['-', ':']).map(|l| l.to_string()).collect();
        assert_eq!(texts(split_chars(&chars(s), '-', ':')), std, "input {:?}", s);
        let once = split_once_chars(&chars(s), '\n').map(|(a, b)| (text(&a), text(&b)));
        let std_once = s.split_once('\n').map(|(a, b)| (a.to_string(), b.to_string()));
        assert_eq!(once, std_once, "input {:?}", s);
    }
}

#[test]
fn find_counts_characters() {
    assert_eq!(find_chars(&chars("ab s: c s:"), &chars("s:")), Some(3));
    assert_eq!(find_chars(&chars("abc"), &chars("s:")), None);
    assert_eq!(find_chars(&chars("abc"), &chars("")), Some(0));
}

#[test]
fn text_removal_from_the_left() {
    assert_eq!(text(&drop_text_chars(&chars("var var x"), &chars("var "))), "x");
    assert_eq!(text(&drop_text_chars(&chars("vavar x"), &chars("var "))), "vax");
}

#[test]
fn numbers_agree_with_std() {
    for s in ["7", " 7\u{3000}", "+0", "-0", "0042", "4294967295", "4294967296", "-2147483648", "x", "", "+", "1_000"] {
        let std_u = s.trim().parse::<u32>().unwrap_or(0xFD);
        assert_eq!(value_to_u32(s), std_u, "input {:?}", s);
        let std_i = s.trim().parse::<i32>().unwrap_or(0xFD);
        assert_eq!(value_to_i32(Some(s)), std_i, "input {:?}", s);
    }
}

#[test]
fn range_of_bounds() {
    let r = return_range(2, 9);
    assert_eq!((r.start, r.end), (2, 9));
}
