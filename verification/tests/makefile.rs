use luna::makefile::{parse, ParseError, Rule};

use nom::bytes::complete::{is_not, tag};
use nom::combinator::all_consuming;
use nom::error::{Error, ErrorKind};
use nom::multi::{many0, many0_count, separated_list0};
use nom::sequence::preceded;
use nom::{Finish, IResult};

type Words = Vec<Vec<u8>>;

fn nom_rule(input: &[u8]) -> IResult<&[u8], (Words, Words, Words)> {
    let path = |i| nom::combinator::map(is_not([0x20u8]), Vec::from)(i);
    let (input, targets) = separated_list0(tag(" "), path)(input)?;
    let (input, _) = many0_count(tag(" "))(input)?;
    let (input, _) = tag(":")(input)?;
    let (input, _) = many0_count(tag(" "))(input)?;
    let (input, prerequisites) = separated_list0(tag(" "), path)(input)?;
    let (input, commands) = many0(preceded(tag("\n\t"), path))(input)?;
    let (input, _) = many0_count(tag("\n"))(input)?;
    Ok((input, (targets, prerequisites, commands)))
}

/// The same grammar read with nom's combinators: the rules, or the offset and
/// kind of the error.
fn nom_parse(input: &[u8]) -> Result<Vec<(Words, Words, Words)>, (usize, ErrorKind)> {
    all_consuming(many0(nom_rule))(input)
        .finish()
        .map(|(_, rules)| rules)
        .map_err(|e: Error<&[u8]>| (input.len() - e.input.len(), e.code))
}

fn ours(input: &[u8]) -> Result<Vec<(Words, Words, Words)>, (usize, ErrorKind)> {
    parse(input)
        .map(|rules| {
            rules
                .iter()
                .map(|r: &Rule| (r.targets().clone(), r.prerequisites().clone(), r.commands().clone()))
                .collect()
        })
        .map_err(|e: ParseError| (e.offset, ErrorKind::Eof))
}

fn words(ws: &[&str]) -> Words {
    ws.iter().map(|w| w.as_bytes().to_vec()).collect()
}

#[test]
fn empty_input_has_no_rules() {
    let rules = parse(b"").unwrap();
    assert_eq!(rules.len(), 0);
}

#[test]
fn reads_targets_and_prerequisites() {
    let rules = parse(b"all prog  : main.o util.o").unwrap();
    assert_eq!(rules.len(), 1);
    assert_eq!(rules[0].targets(), &words(&["all", "prog"]));
    assert_eq!(rules[0].prerequisites(), &words(&["main.o", "util.o"]));
    assert_eq!(rules[0].commands(), &words(&[]));
}

#[test]
fn a_rule_starts_after_a_space() {
    let rules = parse(b"a  : b  : c").unwrap();
    assert_eq!(rules.len(), 2);
    assert_eq!(rules[0].targets(), &words(&["a"]));
    assert_eq!(rules[0].prerequisites(), &words(&["b"]));
    assert_eq!(rules[1].targets(), &words(&[]));
    assert_eq!(rules[1].prerequisites(), &words(&["c"]));
}

#[test]
fn colon_after_a_single_space_is_a_target() {
    // After one space the colon is read as one more target.
    assert_eq!(parse(b"a : b").err(), Some(ParseError { offset: 0 }));
}

#[test]
fn colon_right_after_a_target_belongs_to_the_target() {
    // "a:" is read as one word, so no colon follows the targets.
    assert_eq!(parse(b"a: b").err(), Some(ParseError { offset: 0 }));
}

#[test]
fn a_word_runs_over_newlines() {
    // The last prerequisite takes the newline and tab, so no command is read.
    let rules = parse(b"all  : main.o\n\tcc\n").unwrap();
    assert_eq!(rules.len(), 1);
    assert_eq!(rules[0].prerequisites(), &words(&["main.o\n\tcc\n"]));
    assert_eq!(rules[0].commands(), &words(&[]));
}

#[test]
fn no_rule_holds_commands() {
    let inputs: [&[u8]; 4] = [b"a  :\n\tb", b":\n\tx\n\ty", b"a  : \n\tb", b"x  :"];
    for input in inputs.iter() {
        if let Ok(rules) = parse(input) {
            for r in &rules {
                assert!(r.commands().is_empty());
            }
        }
    }
    assert!(parse(b"a  :\n\tb").is_ok());
}

#[test]
fn a_word_ends_at_a_space() {
    // The prerequisite is "b\n\tcc"; reading stops at "  -o", where no rule starts.
    assert_eq!(parse(b"a  : b\n\tcc  -o\n").err(), Some(ParseError { offset: 10 }));
}

#[test]
fn double_space_ends_a_list() {
    let rules = parse(b"a  b :").err();
    assert_eq!(rules, Some(ParseError { offset: 0 }));
    let rules = parse(b"a b  : c").unwrap();
    assert_eq!(rules[0].targets(), &words(&["a", "b"]));
    assert_eq!(rules[0].prerequisites(), &words(&["c"]));
}

#[test]
fn rule_without_targets() {
    let rules = parse(b" :::").unwrap();
    assert_eq!(rules.len(), 1);
    assert_eq!(rules[0].targets(), &words(&[]));
    assert_eq!(rules[0].prerequisites(), &words(&["::"]));
}

#[test]
fn parsed_words_are_non_empty_and_hold_no_space() {
    let input = b"a b  : c d\n\te  : g\n";
    let rules = parse(input).unwrap();
    for r in &rules {
        for w in r.targets().iter().chain(r.prerequisites()).chain(r.commands()) {
            assert!(!w.is_empty());
            assert!(!w.contains(&b' '));
        }
    }
}

#[test]
fn error_offset_is_where_no_rule_starts() {
    let input = b"a  : b\n\n  x";
    let err = parse(input).err().unwrap();
    assert_eq!(err.offset, 8);
    assert!(err.offset < input.len());
    assert!(parse(&input[err.offset..]).is_err());
}

#[test]
fn agrees_with_nom_on_examples() {
    let examples: [&[u8]; 12] = [
        b"",
        b" ",
        b":",
        b"a:b",
        b"a : b",
        b"a : b \n",
        b"a :\n\tb\n\tc d",
        b"\n",
        b"a b c : d e f\n\tg\n\n\nh : i",
        b"a : \n\t\n\tb",
        b"a :  b  c",
        b"t : p\n\t x",
    ];
    for ex in examples.iter() {
        assert_eq!(ours(ex), nom_parse(ex), "input {:?}", ex);
    }
}

#[test]
fn agrees_with_nom_on_generated_inputs() {
    let alphabet = [b' ', b':', b'\n', b'\t', b'a', b'b'];
    let mut state: u64 = 0x2545_f491_4f6c_dd1d;
    for _ in 0..20000 {
        state = state.wrapping_mul(6364136223846793005).wrapping_add(1442695040888963407);
        let len = (state >> 59) as usize;
        let mut input = Vec::with_capacity(len);
        for _ in 0..len {
            state = state.wrapping_mul(6364136223846793005).wrapping_add(1442695040888963407);
            input.push(alphabet[((state >> 33) % 6) as usize]);
        }
        assert_eq!(ours(&input), nom_parse(&input), "input {:?}", input);
    }
}
