use textocx::parser::Type::{BlockMath, Environ, InlineMath, Text};
use textocx::parser::{
    begin_environ, block_math, end_environ, environ, inline_math, parse, span, text, EnvironName,
    Part, ParseError, Type,
};

#[test]
fn test_parse() {
    for (input, res) in [
        (r"123你好", Ok(vec![Text.build("123你好")])),
        (
            r"123你好 $\sqrt{1}$",
            Ok(vec![Text.build("123你好 "), InlineMath.build(r"\sqrt{1}")]),
        ),
        (
            r"123你好 $42$ \begin{align }你abc\end{ align}$$abc$$",
            Ok(vec![
                Text.build("123你好 "),
                InlineMath.build("42"),
                Text.build(" "),
                Environ.build(r"\begin{align }你abc\end{ align}"),
                BlockMath.build("abc"),
            ]),
        ),
    ] {
        assert_eq!(parse(input), res);
    }
}

#[test]
fn test_inline_math() {
    assert_eq!(inline_math("$1$"), Ok(("", Type::InlineMath.build("1"))));
    assert!(inline_math("$1").is_err());
}

#[test]
fn test_begin_environ() {
    for name in "equation equation* 
    alignedat alignat alignat* aligned align align*
    gathered gather gather* CD multline darray
    dcases drcases matrix* pmatrix* 
    bmatrix* Bmatrix* vmatrix* Vmatrix*"
        .split_whitespace()
    {
        assert_eq!(
            begin_environ(&format!("\\begin{{{}}}", name)),
            Ok(("", EnvironName(name)))
        );
    }
}

#[test]
fn empty_input_has_no_spans() {
    assert_eq!(parse(""), Ok(vec![]));
}

#[test]
fn text_with_inline_math_gives_three_spans() {
    assert_eq!(
        parse("hello $x^2$ world"),
        Ok(vec![Text.build("hello "), InlineMath.build("x^2"), Text.build(" world")])
    );
}

#[test]
fn single_dollar_is_rejected_where_it_stands() {
    assert_eq!(parse("a $ b"), Err(ParseError { input: "$ b" }));
}

#[test]
fn environment_span_holds_its_delimiters() {
    let input = r"\begin{align}x&=y\end{align}";
    assert_eq!(parse(input), Ok(vec![Environ.build(input)]));
}

#[test]
fn block_math_goes_before_inline_math() {
    assert_eq!(parse("$$a+b$$"), Ok(vec![BlockMath.build("a+b")]));
    assert_eq!(
        parse("$a$$b$"),
        Ok(vec![InlineMath.build("a"), InlineMath.build("b")])
    );
    assert_eq!(
        parse("$$a$$$b$"),
        Ok(vec![BlockMath.build("a"), InlineMath.build("b")])
    );
}

#[test]
fn math_content_is_never_empty() {
    assert_eq!(parse("$$"), Err(ParseError { input: "$$" }));
    assert_eq!(parse("$$$$"), Err(ParseError { input: "$$$$" }));
    assert_eq!(parse("x$$$$"), Err(ParseError { input: "$$$$" }));
    assert!(block_math("$$$$").is_err());
    assert!(inline_math("$$").is_err());
}

#[test]
fn unterminated_math_is_rejected() {
    assert_eq!(parse("$$a+b$"), Err(ParseError { input: "$$a+b$" }));
    assert_eq!(parse("ok $a"), Err(ParseError { input: "$a" }));
    assert_eq!(block_math("$$a$"), Err(ParseError { input: "$$a$" }));
}

#[test]
fn escapes_are_text() {
    assert_eq!(parse(r"\$5 and \{x\}"), Ok(vec![Text.build(r"\$5 and \{x\}")]));
    assert_eq!(parse(r"\\$x$"), Ok(vec![Text.build(r"\\"), InlineMath.build("x")]));
    assert_eq!(parse(r"\~\\"), Ok(vec![Text.build(r"\~\\")]));
    assert_eq!(parse("a\\"), Ok(vec![Text.build("a\\")]));
    assert_eq!(parse(r"\alpha"), Ok(vec![Text.build(r"\alpha")]));
    assert_eq!(parse(r"\\begin{align}"), Ok(vec![Text.build(r"\\begin{align}")]));
}

#[test]
fn escaped_dollar_inside_math_still_closes_it() {
    assert_eq!(parse(r"$a\$"), Ok(vec![InlineMath.build(r"a\")]));
    assert_eq!(parse(r"$a\$b$"), Err(ParseError { input: "$" }));
}

#[test]
fn unknown_or_unterminated_environment_is_rejected() {
    assert_eq!(
        parse(r"\begin{foo}x\end{foo}"),
        Err(ParseError { input: r"\begin{foo}x\end{foo}" })
    );
    assert_eq!(
        parse(r"a\begin{align}x"),
        Err(ParseError { input: r"\begin{align}x" })
    );
    assert_eq!(parse(r"\end{align}"), Err(ParseError { input: r"\end{align}" }));
    assert_eq!(
        parse(r"\begin{matrix}x\end{matrix}"),
        Err(ParseError { input: r"\begin{matrix}x\end{matrix}" })
    );
    assert_eq!(
        parse(r"\begin{align}x\end{align*}"),
        Err(ParseError { input: r"\begin{align}x\end{align*}" })
    );
}

#[test]
fn environment_ends_at_the_first_closing_marker() {
    assert_eq!(
        parse(r"\begin{align}a\end{align}b\end{align}"),
        Err(ParseError { input: r"\end{align}" })
    );
    assert_eq!(
        environ(r"\begin{gather*}$\end{aligned}\end{	gather* }rest"),
        Ok(("rest", Environ.build(r"\begin{gather*}$\end{aligned}\end{	gather* }")))
    );
}

#[test]
fn blanks_around_the_name_are_spaces_and_tabs_only() {
    assert_eq!(
        begin_environ("\\begin{ \t CD\t }x"),
        Ok(("x", EnvironName("CD")))
    );
    assert!(begin_environ("\\begin{\nCD}").is_err());
    assert!(begin_environ("\\begin {CD}").is_err());
    assert!(begin_environ("\\begin{C D}").is_err());
    assert!(begin_environ("\\begin{alignedat*}").is_err());
    assert!(begin_environ("\\begin{align").is_err());
    assert!(begin_environ("\\begin{}").is_err());
}

#[test]
fn end_marker_takes_the_same_name() {
    assert_eq!(end_environ(r"\end{ align }x", EnvironName("align")), Ok(("x", ())));
    assert!(end_environ(r"\end{align*}", EnvironName("align")).is_err());
    assert!(end_environ(r"\end{aligned}", EnvironName("align")).is_err());
    assert!(end_environ(r"x\end{align}", EnvironName("align")).is_err());
}

#[test]
fn text_stops_before_math_and_markers() {
    assert_eq!(text("ab$c$"), Ok(("$c$", Text.build("ab"))));
    assert_eq!(text(r"ab\end{x}"), Ok((r"\end{x}", Text.build("ab"))));
    assert_eq!(text(r"ab\begin"), Ok((r"\begin", Text.build("ab"))));
    assert_eq!(text("$"), Err(ParseError { input: "$" }));
    assert_eq!(text(""), Err(ParseError { input: "" }));
}

#[test]
fn spans_rebuild_the_input() {
    let input = r"价格 \$5 $a<b$ 和 $$\sum_{i}$$ \begin{equation*} 你 \end{equation*} 完";
    let parts = parse(input).unwrap();
    let mut rebuilt = String::new();
    for part in &parts {
        match part.typ {
            Type::Text | Type::Environ => rebuilt.push_str(part.as_str()),
            Type::InlineMath => {
                rebuilt.push('$');
                rebuilt.push_str(part.as_str());
                rebuilt.push('$');
            }
            Type::BlockMath => {
                rebuilt.push_str("$$");
                rebuilt.push_str(part.as_str());
                rebuilt.push_str("$$");
            }
        }
    }
    assert_eq!(rebuilt, input);
    assert_eq!(parts.len(), 7);
}

#[test]
fn part_gives_back_its_content() {
    let part: Part = Type::BlockMath.build("a+b");
    assert_eq!(part.typ, Type::BlockMath);
    assert_eq!(part.as_str(), "a+b");
}

#[test]
fn error_message_names_the_offending_input() {
    let err = parse("a $ b").unwrap_err();
    assert_eq!(err.message(), "error Eof at: $ b");
}

#[test]
fn first_rule_that_applies_reads_the_span() {
    assert_eq!(span("$$a$$b"), Ok(("b", BlockMath.build("a"))));
    assert_eq!(span("$a$b"), Ok(("b", InlineMath.build("a"))));
    assert_eq!(span(r"\begin{CD}\end{CD}b"), Ok(("b", Environ.build(r"\begin{CD}\end{CD}"))));
    assert_eq!(span("b$"), Ok(("$", Text.build("b"))));
    assert_eq!(span(""), Err(ParseError { input: "" }));
}
