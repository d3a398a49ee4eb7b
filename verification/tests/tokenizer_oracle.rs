use mal::lexer::tokenize;
use mal::read;
use mal::types::{MalVal, ReaderError};
use regex::Regex;

const TOKEN: &str =
    r###"[\s,]*(~@|[\[\]{}()'`~^@]|"(?:\\.|[^\\"])*"?|;.*|[^\s\[\]{}('"`,;)]+)"###;

const ALPHABET: [char; 40] = [
    'a', 'b', 'z', '0', '1', '9', '-', '+', ':', '.', ' ', ' ', '\t', '\n', '\r', ',', ';', '"',
    '"', '\\', '\\', '(', ')', '[', ']', '{', '}', '\'', '`', '~', '@', '^', 'n', 'é', '☃',
    '\u{a0}', '\u{85}', '\u{2003}', '\u{3000}', '\u{b}',
];

fn by_pattern(re: &Regex, s: &str) -> Vec<String> {
    let mut res = vec![];
    for cap in re.captures_iter(s) {
        if cap[1].starts_with(';') {
            continue;
        }
        res.push(String::from(&cap[1]));
    }
    res
}

fn step(state: &mut u64) -> u64 {
    *state = state
        .wrapping_mul(6364136223846793005)
        .wrapping_add(1442695040888963407);
    *state >> 33
}

fn sample(state: &mut u64, max_len: u64) -> String {
    let len = step(state) % (max_len + 1);
    let mut s = String::new();
    for _ in 0..len {
        s.push(ALPHABET[(step(state) % 40) as usize]);
    }
    s
}

#[test]
fn tokens_are_those_of_the_pattern_on_chosen_texts() {
    let re = Regex::new(TOKEN).unwrap();
    let texts = [
        "",
        " ",
        "(+ 1 2)",
        "(def! x 5) ; comment",
        "\"abc\" \"a\\\"b\" \"a\\\\\" \"unterminated",
        "\"abc\\",
        "\"abc\\\ndef\"",
        "~@(a b) ~x '(1) `y ^{:a 1} [2] @z",
        "a~b a@b a^b ~~@ @@ ^^",
        ";;; only\n;; comments\n",
        "1;2\n3;4",
        "{\"k\" :v, :k2 \"v;2\"}",
        "\\ \\\" \"\\",
        "x\u{a0}y\u{2003}z\u{85}w\u{1680}v\u{2028}u\u{2029}t\u{202f}s\u{205f}r\u{3000}q",
        "a\u{b}b\u{c}c\u{200a}d\u{200b}e\u{feff}f",
        "\"multi\nline\" after",
        "\"\"\"\"\"",
    ];
    for text in texts {
        assert_eq!(tokenize(&text.to_string()), by_pattern(&re, text), "{:?}", text);
    }
}

#[test]
fn tokens_are_those_of_the_pattern_on_many_texts() {
    let re = Regex::new(TOKEN).unwrap();
    let mut state: u64 = 0x2545f4914f6cdd1d;
    for _ in 0..4000 {
        let text = sample(&mut state, 24);
        assert_eq!(tokenize(&text), by_pattern(&re, &text), "{:?}", text);
    }
}

#[test]
fn atoms_are_classified_as_the_patterns_say() {
    let integer = Regex::new(r"^-?[0-9]+$").unwrap();
    let string = Regex::new(r#"^"(?:\\.|[^\\"])*"$"#).unwrap();
    let token = Regex::new(TOKEN).unwrap();
    let mut state: u64 = 0x9e3779b97f4a7c15;
    let mut seen = 0;
    for _ in 0..4000 {
        let text = sample(&mut state, 10);
        for t in by_pattern(&token, &text) {
            let special = [
                "(", ")", "[", "]", "{", "}", "'", "`", "~", "~@", "@", "^",
            ];
            if special.contains(&t.as_str()) {
                continue;
            }
            seen += 1;
            let got = read(&t);
            if t == "nil" {
                assert_eq!(got, Ok(MalVal::Nil));
            } else if t == "true" || t == "false" {
                assert_eq!(got, Ok(MalVal::Bool(t == "true")));
            } else if integer.is_match(&t) {
                match t.parse::<i64>() {
                    Ok(v) => assert_eq!(got, Ok(MalVal::Int(v))),
                    Err(_) => assert_eq!(got, Ok(MalVal::Sym(t.clone()))),
                }
            } else if string.is_match(&t) {
                assert!(matches!(got, Ok(MalVal::Str(_))), "{:?}", t);
            } else if t.starts_with('"') {
                assert_eq!(got, Err(ReaderError::UnterminatedString), "{:?}", t);
            } else if t.starts_with(':') {
                assert_eq!(got, Ok(MalVal::Keyword(t[1..].to_string())));
            } else {
                assert_eq!(got, Ok(MalVal::Sym(t.clone())));
            }
        }
    }
    assert!(seen > 1000);
}
