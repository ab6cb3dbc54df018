use nom::branch::alt;
use nom::bytes::complete::{is_not, tag, take};
use nom::character::complete::{anychar, char, one_of, space0};
use nom::combinator::{all_consuming, not, opt, recognize};
use nom::multi::{many0, many0_count, many1_count};
use nom::sequence::delimited;
use nom::{Finish, IResult, Parser};
use textocx::parser::{parse, Type};

type Span<'a> = (Type, &'a str);

fn ignore<T>(_: T) {}

fn oracle_text(input: &str) -> IResult<&str, Span> {
    recognize(many1_count(alt((
        char::<&str, nom::error::Error<&str>>('\\')
            .and(one_of(r#"\$~{}"#))
            .map(ignore),
        not(alt((tag("$"), tag("\\begin"), tag("\\end"))))
            .and(take(1usize))
            .map(ignore),
    ))))(input)
    .map(|(rest, s)| (rest, (Type::Text, s)))
}

fn oracle_inline(input: &str) -> IResult<&str, Span> {
    delimited(char('$'), is_not("$"), char('$'))(input)
        .map(|(rest, s)| (rest, (Type::InlineMath, s)))
}

fn oracle_block(input: &str) -> IResult<&str, Span> {
    delimited(tag("$$"), is_not("$"), tag("$$"))(input)
        .map(|(rest, s)| (rest, (Type::BlockMath, s)))
}

fn oracle_begin(input: &str) -> IResult<&str, &str> {
    let ast = |name: &'static str| recognize(tag(name).and(opt(tag("*"))));
    delimited(
        tag("\\begin{").and(space0),
        alt((
            ast("equation"),
            tag("alignedat"),
            ast("alignat"),
            tag("aligned"),
            ast("align"),
            tag("gathered"),
            ast("gather"),
            tag("CD"),
            tag("multline"),
            alt((tag("darray"), tag("dcases"), tag("drcases"))),
            recognize(opt(one_of("pbBvV")).and(tag("matrix*"))),
        )),
        space0.and(tag("}")),
    )(input)
}

fn oracle_end<'a>(name: &'a str) -> impl Parser<&'a str, (), nom::error::Error<&'a str>> {
    delimited(tag("\\end{").and(space0), tag(name), space0.and(tag("}"))).map(ignore)
}

fn oracle_environ(input: &str) -> IResult<&str, Span> {
    recognize(move |input| {
        let (input, name) = oracle_begin(input)?;
        many0_count(not(oracle_end(name)).and(anychar))
            .and(oracle_end(name))
            .map(ignore)
            .parse(input)
    })(input)
    .map(|(rest, s)| (rest, (Type::Environ, s)))
}

fn oracle(input: &str) -> Result<Vec<Span>, String> {
    all_consuming(many0(alt((
        oracle_block,
        oracle_inline,
        oracle_environ,
        oracle_text,
    ))))(input)
    .finish()
    .map(|(_, spans)| spans)
    .map_err(|e| String::from(e.input))
}

fn ours(input: &str) -> Result<Vec<Span>, String> {
    match parse(input) {
        Ok(parts) => Ok(parts.iter().map(|p| (p.typ, p.as_str())).collect()),
        Err(e) => Err(String::from(e.input)),
    }
}

const ALPHABET: [&str; 16] = [
    "$", "\\", "{", "}", "~", " ", "\t", "a", "*", "你", "\\begin{", "\\end{", "align", "aligned",
    "\\begin{align}", "\\end{align}",
];

#[test]
fn agrees_with_combinator_grammar_on_chosen_inputs() {
    for input in [
        "",
        "plain",
        "$x$",
        "$$x$$",
        "$$x$",
        "$x$$",
        "$$$x$$$",
        "$a$$$b$$",
        "\\$",
        "\\\\$x$",
        "$a\\$",
        "$a\\$b$",
        "\\begin{equation}1\\end{equation}",
        "\\begin{equation*}1\\end{equation*}",
        "\\begin{equation*}1\\end{equation}",
        "\\begin{ alignat* } x \\end{\talignat*\t}",
        "\\begin{alignedat}\\end{aligned}\\end{alignedat}",
        "\\begin{aligned}\\begin{aligned}\\end{aligned}\\end{aligned}",
        "\\begin{pmatrix*}1\\end{pmatrix*}",
        "\\begin{pmatrix}1\\end{pmatrix}",
        "\\begin{Vmatrix*}$\\end{Vmatrix*}$",
        "\\begin{align}\\end{align",
        "\\begin{align}\\end{ali",
        "\\begin{align*x}",
        "\\begin{drcases}é\\end{drcases}后",
        "\\begin",
        "\\end",
        "\\en",
        "x\\begi",
        "\\\\begin{align}",
        "\\\\\\begin{align}x\\end{align}",
        "é$ü$\\begin{CD}ß\\end{CD}",
        "a\\",
        "$\\begin{align}$",
    ] {
        assert_eq!(ours(input), oracle(input), "input {:?}", input);
    }
}

#[test]
fn agrees_with_combinator_grammar_on_all_short_inputs() {
    let n = ALPHABET.len();
    for a in 0..n {
        assert_eq!(ours(ALPHABET[a]), oracle(ALPHABET[a]));
        for b in 0..n {
            let two = format!("{}{}", ALPHABET[a], ALPHABET[b]);
            assert_eq!(ours(&two), oracle(&two), "input {:?}", two);
            for c in 0..n {
                let three = format!("{}{}", two, ALPHABET[c]);
                assert_eq!(ours(&three), oracle(&three), "input {:?}", three);
            }
        }
    }
}

#[test]
fn agrees_with_combinator_grammar_on_generated_inputs() {
    let n = ALPHABET.len() as u64;
    let mut state: u64 = 0x2545f4914f6cdd1d;
    for _ in 0..4000 {
        let mut input = String::new();
        state = state
            .wrapping_mul(6364136223846793005)
            .wrapping_add(1442695040888963407);
        let len = 1 + (state >> 60);
        for _ in 0..len {
            state = state
                .wrapping_mul(6364136223846793005)
                .wrapping_add(1442695040888963407);
            input.push_str(ALPHABET[((state >> 33) % n) as usize]);
        }
        assert_eq!(ours(&input), oracle(&input), "input {:?}", input);
    }
}
