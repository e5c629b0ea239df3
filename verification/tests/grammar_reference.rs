//! The grammar once more, written with parser combinators, and the two
//! parsers held against each other on many texts.

use mkstorm::parser::{parse, Definition, Invocation, InvocationNode, ParseError, ResolutionTable};
use nom::branch::alt;
use nom::bytes::complete::{take_while, take_while1};
use nom::character::complete::{char, line_ending, multispace0, multispace1};
use nom::multi::{many0, separated_list0};
use nom::sequence::{delimited, preceded, terminated, tuple};
use nom::IResult;

fn identifier(input: &str) -> IResult<&str, String> {
    nom::combinator::map(take_while1(|c: char| c.is_alphanumeric() || c == '_'), String::from)(input)
}

fn destination(input: &str) -> IResult<&str, String> {
    preceded(char('$'), identifier)(input)
}

fn source(input: &str) -> IResult<&str, String> {
    terminated(identifier, tuple((char('<'), char('>'))))(input)
}

fn bits(input: &str) -> IResult<&str, String> {
    nom::combinator::map(take_while1(|c: char| c == '0' || c == '1'), String::from)(input)
}

fn row(input: &str) -> IResult<&str, (String, String)> {
    let (input, pattern) = bits(input)?;
    let (input, _) = char(':')(input)?;
    let (input, value) = bits(input)?;
    Ok((input, (pattern, value)))
}

fn comment(input: &str) -> IResult<&str, ()> {
    let (input, _) = char('#')(input)?;
    let (input, _) = take_while(|c| c != '\n')(input)?;
    let (input, _) = line_ending(input)?;
    Ok((input, ()))
}

fn blank(input: &str) -> IResult<&str, ()> {
    nom::combinator::map(many0(alt((nom::combinator::map(multispace1, |_| ()), nom::combinator::map(line_ending, |_| ()), comment))), |_| ())(input)
}

fn definition(input: &str) -> IResult<&str, InvocationNode> {
    let (input, name) = identifier(input)?;
    let (input, _) = char('[')(input)?;
    let (input, inputs) =
        delimited(char('('), separated_list0(char(','), destination), char(')'))(input)?;
    let (input, outputs) =
        delimited(char('('), separated_list0(char(','), source), char(')'))(input)?;
    let (input, _) = multispace1(input)?;
    let (input, _) = delimited(char('['), tuple((destination, destination)), char(']'))(input)?;
    let (input, _) = multispace1(input)?;
    let (input, patterns) = separated_list0(multispace1, row)(input)?;
    let (input, _) = char(']')(input)?;
    let definition =
        Definition { name, inputs, outputs, resolution: ResolutionTable { patterns } };
    Ok((input, InvocationNode::Definition(definition)))
}

fn argument(input: &str) -> IResult<&str, String> {
    alt((nom::combinator::map(char('0'), |c| c.to_string()), nom::combinator::map(char('1'), |c| c.to_string()), identifier))(input)
}

fn invocation(input: &str) -> IResult<&str, InvocationNode> {
    let (input, dest) = identifier(input)?;
    let (input, _) = char('<')(input)?;
    let (input, function) = identifier(input)?;
    let (input, arguments) = delimited(
        char('('),
        separated_list0(char(','), delimited(multispace0, argument, multispace0)),
        char(')'),
    )(input)?;
    let (input, _) = char('>')(input)?;
    Ok((input, InvocationNode::Invocation(Invocation { dest, function, arguments })))
}

fn reference(input: &str) -> Result<Vec<InvocationNode>, ParseError> {
    let (mut rest, _) = blank(input).unwrap();
    let mut nodes = Vec::new();
    while !rest.is_empty() {
        match alt((definition, invocation))(rest) {
            Ok((after, node)) => {
                nodes.push(node);
                rest = blank(after).unwrap().0;
            }
            Err(_) => break,
        }
    }
    if rest.is_empty() {
        Ok(nodes)
    } else {
        Err(ParseError::InvalidInput(format!("Unparsed input remaining: {}", rest)))
    }
}

const SAMPLES: &[&str] = &[
    "",
    " ",
    "\n",
    "#",
    "#\n",
    "# c\r\n",
    "# c\r",
    "OR[($A,$B)(IN<>) [$A$B] 00:0 01:1 10:1 11:1]",
    "OR[($A,$B)(IN<>) [$A$B] 00:0 01:1 10:1 11:1]\nR<OR(0,1)>",
    "OR[($A,$B)(IN<>) [$A$B] 00:0 01:1 10:1 11:1] ",
    "OR[($A,$B)(IN<>) [$A$B] 00:0 01:1 10:1 11:1 ]",
    "OR[($A,$B)(IN<>) [$A$B]\n00:0\n\n01:1\t10:1 \r\n 11:1]",
    "OR[($A,$B)(IN<>)[$A$B] 00:0]",
    "OR[($A,$B)(IN<>) [$A$B]00:0]",
    "OR[($A,$B)(IN<>) [$A$B] ]",
    "OR[($A,$B)(IN<>) [$A$B]  ]",
    "OR[($A,$B)(IN<>) [$A$B] 00:0",
    "OR[()() [$A$B] 0:0]",
    "OR[($A)() [$A$B] 0:0]",
    "OR[()(Q<>) [$A$B] 0:0]",
    "OR[($A,)(Q<>) [$A$B] 0:0]",
    "OR[(,$A)(Q<>) [$A$B] 0:0]",
    "OR[($A,$B)(Q<>,) [$A$B] 0:0]",
    "OR[($A $B)(Q<>) [$A$B] 0:0]",
    "OR[($A,$B)(Q<>) [$A] 0:0]",
    "OR[($A,$B)(Q<>) [$A$B$C] 0:0]",
    "OR[($A,$B)(Q<>) [AB] 0:0]",
    "OR[($A,$B)(Q) [$A$B] 0:0]",
    "OR[($A,$B)(Q<>) [$A$B] 0:0 1]",
    "OR[($A,$B)(Q<>) [$A$B] 0:0 1:]",
    "OR[($A,$B)(Q<>) [$A$B] 0:0 :1]",
    "OR[($A,$B)(Q<>) [$A$B] 0:0:1]",
    "OR[($A,$B)(Q<>) [$A$B] 012:0]",
    "OR[($,$B)(Q<>) [$A$B] 0:0]",
    "[($A)(Q<>) [$A$B] 0:0]",
    "R<OR(0,1)>",
    "R<OR(0,1)>R<OR(0,1)>",
    "R<OR(0,1)> R<OR(0,1)>",
    "R<OR(0,1)>#x\nR<OR(0,1)>",
    "R<OR(0,1)>#x",
    "R<OR()>",
    "R<OR( )>",
    "R<OR(a)>",
    "R<OR( a )>",
    "R<OR( a , b )>",
    "R<OR(a,,b)>",
    "R<OR(a,)>",
    "R<OR(,a)>",
    "R<OR(01)>",
    "R<OR(10)>",
    "R<OR(0 1)>",
    "R<OR(1a)>",
    "R<OR(a1)>",
    "R<OR(_)>",
    "R<OR($a)>",
    "R<OR(0,1)",
    "R<OR(0,1>",
    "R<(0,1)>",
    "<OR(0,1)>",
    "R<OR>",
    "R<>",
    "R",
    "R<",
    "0<1(0)>",
    "_<_(_)>",
    "Größe<λ(零,٣)>",
    "a b",
    "  R<OR(0,1)>  # c\n  # d\n S<T(R)>\n",
    "\tR<OR(0,1)>\r\n\r\nS<T(R)>\r\n#\r\n",
    "R<OR(0,1)>\u{a0}",
    "R<OR(0,\u{a0}1)>",
    "R<OR(0,1)>\n\nOR[($A,$B)(IN<>) [$A$B] 00:0]\n!",
];

#[test]
fn both_parsers_agree_on_the_samples() {
    for text in SAMPLES {
        assert_eq!(parse(text), reference(text), "on {:?}", text);
    }
}

#[test]
fn both_parsers_agree_on_every_cut_of_a_program() {
    let text = "# gate\nOR[($A,$B)(IN<>) [$A$B] 00:0 01:1]\nR<OR( 0 ,x_1)> # t\n";
    let chars: Vec<char> = text.chars().collect();
    for from in 0..=chars.len() {
        for to in from..=chars.len() {
            let piece: String = chars[from..to].iter().collect();
            assert_eq!(parse(&piece), reference(&piece), "on {:?}", piece);
        }
    }
}

#[test]
fn both_parsers_agree_on_short_texts_over_the_alphabet() {
    let alphabet = ['a', '0', '1', '$', '<', '>', '(', ')', '[', ']', ',', ':', ' ', '#', '\n'];
    let mut texts: Vec<String> = vec![String::new()];
    for _ in 0..4 {
        let mut longer = Vec::new();
        for text in &texts {
            for c in alphabet {
                let mut next = text.clone();
                next.push(c);
                longer.push(next);
            }
        }
        for text in &longer {
            assert_eq!(parse(text), reference(text), "on {:?}", text);
        }
        texts = longer;
    }
}

#[test]
fn both_parsers_agree_on_one_change_to_a_program() {
    let text = "OR[($A,$B)(IN<>) [$A$B] 00:0 01:1]\nR<OR(0 , x)>";
    let chars: Vec<char> = text.chars().collect();
    let alphabet = ['a', '1', '$', '<', '>', '(', ')', '[', ']', ',', ':', ' ', '#', '\n', '_'];
    for at in 0..chars.len() {
        for c in alphabet {
            let mut changed = chars.clone();
            changed[at] = c;
            let piece: String = changed.iter().collect();
            assert_eq!(parse(&piece), reference(&piece), "on {:?}", piece);
            let mut grown = chars.clone();
            grown.insert(at, c);
            let piece: String = grown.iter().collect();
            assert_eq!(parse(&piece), reference(&piece), "on {:?}", piece);
        }
        let mut shrunk = chars.clone();
        shrunk.remove(at);
        let piece: String = shrunk.iter().collect();
        assert_eq!(parse(&piece), reference(&piece), "on {:?}", piece);
    }
}
