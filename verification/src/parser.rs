//! The recursive-descent parser: walks the token sequence once, consults the
//! instruction registry, and builds a syntax tree of typed nodes, or fails
//! with a positioned syntax error on the first malformed statement.

use vstd::prelude::*;

use crate::ast::{AstNode, NodeType, NodeView};
use crate::instruction::{
    is_standard_registry, known_mnemonic, load_instructions, spec_mnemonic_name, Instruction,
};
use crate::text::{is_digit_char, upper, upper_char};
use crate::tokenizer::{token_views, Position, Token, TokenType, TokenView};

verus! {

/// Mathematical model of a syntax error.
pub ghost enum ParseErrView {
    UnexpectedToken { kind: TokenType, line: nat, col: nat },
    UnknownInstruction { mnemonic: Seq<char> },
    UnexpectedOperand { kind: TokenType, line: nat, col: nat },
    ExpectedComma { line: nat, col: nat },
    UnexpectedDirectiveOperand { kind: TokenType },
    ExpectedNewlineAfterDirective,
    UnexpectedEndOfInput,
}

/// A syntax error. All are terminal: the first one aborts the parse.
#[derive(Debug, PartialEq)]
pub enum ParseError {
    /// A statement starts with a token kind that cannot begin one.
    UnexpectedToken { token_type: TokenType, position: Position },
    /// An identifier in instruction position is no registered mnemonic; it
    /// carries the upper-cased identifier text.
    UnknownInstruction { mnemonic: String },
    /// An operand position holds a token that is no identifier and no number.
    UnexpectedOperand { token_type: TokenType, position: Position },
    /// Two operands follow each other without a comma; carries the position
    /// of the operand before the missing comma.
    ExpectedComma { position: Position },
    /// A directive's operand is no identifier and no number.
    UnexpectedDirectiveOperand { token_type: TokenType },
    /// A directive statement does not end with a newline.
    ExpectedNewlineAfterDirective,
    /// The input ended where a token was required.
    UnexpectedEndOfInput,
}

impl View for ParseError {
    type V = ParseErrView;

    open spec fn view(&self) -> ParseErrView {
        match self {
            ParseError::UnexpectedToken { token_type, position } => ParseErrView::UnexpectedToken {
                kind: *token_type,
                line: position.line as nat,
                col: position.column as nat,
            },
            ParseError::UnknownInstruction { mnemonic } => ParseErrView::UnknownInstruction {
                mnemonic: mnemonic@,
            },
            ParseError::UnexpectedOperand { token_type, position } => ParseErrView::UnexpectedOperand {
                kind: *token_type,
                line: position.line as nat,
                col: position.column as nat,
            },
            ParseError::ExpectedComma { position } => ParseErrView::ExpectedComma {
                line: position.line as nat,
                col: position.column as nat,
            },
            ParseError::UnexpectedDirectiveOperand { token_type } => ParseErrView::UnexpectedDirectiveOperand {
                kind: *token_type,
            },
            ParseError::ExpectedNewlineAfterDirective => ParseErrView::ExpectedNewlineAfterDirective,
            ParseError::UnexpectedEndOfInput => ParseErrView::UnexpectedEndOfInput,
        }
    }
}

/// Every character is an ASCII decimal digit (holds for the empty sequence).
pub open spec fn all_digit_chars(s: Seq<char>) -> bool {
    forall|j: int| 0 <= j < s.len() ==> is_digit_char(#[trigger] s[j])
}

/// Case-insensitively the literal `zr`.
pub open spec fn is_zr_text(s: Seq<char>) -> bool {
    s.len() == 2 && upper_char(s[0]) == 'Z' && upper_char(s[1]) == 'R'
}

/// The register heuristic: case-insensitively the text begins with `R`, `W`
/// or `X`, and the remainder is all decimal digits or the literal `zr`.
pub open spec fn is_register_text(s: Seq<char>) -> bool {
    &&& s.len() >= 1
    &&& (upper_char(s[0]) == 'R' || upper_char(s[0]) == 'W' || upper_char(s[0]) == 'X')
    &&& (all_digit_chars(s.skip(1)) || is_zr_text(s.skip(1)))
}

/// The node an operand token becomes: register-shaped text gives a Register
/// node; otherwise an identifier is a label reference and a number an
/// immediate. The token's text is the node's value.
pub open spec fn classify_operand(t: TokenView) -> NodeView {
    if is_register_text(t.text) {
        NodeView { kind: NodeType::Register, value: t.text, children: Seq::empty() }
    } else if t.kind == TokenType::Identifier {
        NodeView { kind: NodeType::Label, value: t.text, children: Seq::empty() }
    } else {
        NodeView { kind: NodeType::Immediate, value: t.text, children: Seq::empty() }
    }
}

/// Parses an instruction's operand list: one operand per step, a comma
/// between any two, ending at a newline token or the end of the input.
/// Returns the operand nodes and the unconsumed rest of the tokens (empty or
/// beginning with the ending newline).
pub open spec fn spec_operands(toks: Seq<TokenView>) -> Result<
    (Seq<NodeView>, Seq<TokenView>),
    ParseErrView,
>
    decreases toks.len(),
{
    if toks.len() == 0 || toks[0].kind == TokenType::NewLine {
        Ok((Seq::empty(), toks))
    } else if toks[0].kind == TokenType::Identifier || toks[0].kind == TokenType::Number {
        let node = classify_operand(toks[0]);
        let rest = toks.drop_first();
        if rest.len() == 0 || rest[0].kind == TokenType::NewLine {
            Ok((seq![node], rest))
        } else if rest[0].kind == TokenType::Comma {
            match spec_operands(rest.drop_first()) {
                Ok((more, rem)) => Ok((seq![node] + more, rem)),
                Err(e) => Err(e),
            }
        } else {
            Err(ParseErrView::ExpectedComma { line: toks[0].line, col: toks[0].col })
        }
    } else {
        Err(
            ParseErrView::UnexpectedOperand {
                kind: toks[0].kind,
                line: toks[0].line,
                col: toks[0].col,
            },
        )
    }
}

/// What `spec_operands` leaves: a suffix no longer than its input, and when
/// non-empty it begins with a newline token.
pub proof fn lemma_spec_operands_rest(toks: Seq<TokenView>)
    ensures
        match spec_operands(toks) {
            Ok((ops, rest)) => rest.len() <= toks.len() && (rest.len() > 0 ==> rest[0].kind
                == TokenType::NewLine),
            Err(_) => true,
        },
    decreases toks.len(),
{
    if toks.len() == 0 || toks[0].kind == TokenType::NewLine {
    } else if toks[0].kind == TokenType::Identifier || toks[0].kind == TokenType::Number {
        let rest = toks.drop_first();
        if rest.len() == 0 || rest[0].kind == TokenType::NewLine {
        } else if rest[0].kind == TokenType::Comma {
            lemma_spec_operands_rest(rest.drop_first());
        }
    }
}

/// Parses one instruction statement standing at the head of `toks`: the
/// identifier must name a registered mnemonic (case-insensitively); the
/// node's value is the upper-cased identifier and its children the operands;
/// the statement's ending newline, if present, is consumed.
pub open spec fn spec_instruction(toks: Seq<TokenView>) -> Result<
    (NodeView, Seq<TokenView>),
    ParseErrView,
> {
    let t = toks[0];
    if !known_mnemonic(t.text) {
        Err(ParseErrView::UnknownInstruction { mnemonic: upper(t.text) })
    } else {
        match spec_operands(toks.drop_first()) {
            Ok((ops, rest)) => {
                let node = NodeView {
                    kind: NodeType::Instruction,
                    value: upper(t.text),
                    children: ops,
                };
                if rest.len() > 0 {
                    Ok((node, rest.drop_first()))
                } else {
                    Ok((node, rest))
                }
            },
            Err(e) => Err(e),
        }
    }
}

/// Parses one directive statement standing at the head of `toks`: its single
/// operand comes from the next token (an identifier is a label reference, a
/// number an immediate), and a newline must follow and is consumed.
pub open spec fn spec_directive(toks: Seq<TokenView>) -> Result<
    (NodeView, Seq<TokenView>),
    ParseErrView,
> {
    let t = toks[0];
    if toks.len() < 2 {
        Err(ParseErrView::UnexpectedEndOfInput)
    } else {
        let op = toks[1];
        if op.kind == TokenType::Identifier || op.kind == TokenType::Number {
            let child = if op.kind == TokenType::Identifier {
                NodeView { kind: NodeType::Label, value: op.text, children: Seq::empty() }
            } else {
                NodeView { kind: NodeType::Immediate, value: op.text, children: Seq::empty() }
            };
            if toks.len() >= 3 && toks[2].kind == TokenType::NewLine {
                Ok(
                    (
                        NodeView {
                            kind: NodeType::Directive,
                            value: t.text,
                            children: seq![child],
                        },
                        toks.skip(3),
                    ),
                )
            } else {
                Err(ParseErrView::ExpectedNewlineAfterDirective)
            }
        } else {
            Err(ParseErrView::UnexpectedDirectiveOperand { kind: op.kind })
        }
    }
}

/// Parses a token sequence into the Root's children, one node per non-empty
/// statement in source order: blank lines contribute nothing; an identifier
/// followed by a colon is a label definition; any other identifier begins an
/// instruction statement; a directive token begins a directive statement;
/// any other token kind cannot begin a statement. The first error aborts.
pub open spec fn spec_parse(toks: Seq<TokenView>) -> Result<Seq<NodeView>, ParseErrView>
    decreases toks.len(),
        via spec_parse_decreases
{
    if toks.len() == 0 {
        Ok(Seq::empty())
    } else {
        let t = toks[0];
        if t.kind == TokenType::NewLine {
            spec_parse(toks.drop_first())
        } else if t.kind == TokenType::Identifier && toks.len() >= 2 && toks[1].kind
            == TokenType::Colon {
            match spec_parse(toks.skip(2)) {
                Ok(rest) => Ok(
                    seq![
                        NodeView { kind: NodeType::Label, value: t.text, children: Seq::empty() },
                    ] + rest,
                ),
                Err(e) => Err(e),
            }
        } else if t.kind == TokenType::Identifier {
            match spec_instruction(toks) {
                Ok((node, rest)) => match spec_parse(rest) {
                    Ok(siblings) => Ok(seq![node] + siblings),
                    Err(e) => Err(e),
                },
                Err(e) => Err(e),
            }
        } else if t.kind == TokenType::Directive {
            match spec_directive(toks) {
                Ok((node, rest)) => match spec_parse(rest) {
                    Ok(siblings) => Ok(seq![node] + siblings),
                    Err(e) => Err(e),
                },
                Err(e) => Err(e),
            }
        } else {
            Err(ParseErrView::UnexpectedToken { kind: t.kind, line: t.line, col: t.col })
        }
    }
}

#[via_fn]
proof fn spec_parse_decreases(toks: Seq<TokenView>) {
    if toks.len() > 0 {
        lemma_spec_operands_rest(toks.drop_first());
    }
}

/// A leading newline token (a blank line) contributes nothing: parsing with
/// it in front gives exactly the parse of the rest.
pub proof fn lemma_blank_line_skipped(nl: TokenView, toks: Seq<TokenView>)
    requires
        nl.kind == TokenType::NewLine,
    ensures
        spec_parse(seq![nl] + toks) == spec_parse(toks),
{
    assert((seq![nl] + toks)[0] == nl);
    assert((seq![nl] + toks).drop_first() =~= toks);
}

/// Joins already-built statement nodes onto the outcome of parsing the rest.
spec fn parse_join(done: Seq<NodeView>, rest: Result<Seq<NodeView>, ParseErrView>) -> Result<
    Seq<NodeView>,
    ParseErrView,
> {
    match rest {
        Ok(ns) => Ok(done + ns),
        Err(e) => Err(e),
    }
}

proof fn lemma_parse_join_push(
    done: Seq<NodeView>,
    n: NodeView,
    rest: Result<Seq<NodeView>, ParseErrView>,
)
    ensures
        parse_join(done, parse_join(seq![n], rest)) == parse_join(done.push(n), rest),
{
    match rest {
        Ok(ns) => {
            assert(done + (seq![n] + ns) =~= done.push(n) + ns);
        },
        Err(_) => {},
    }
}

/// Joins already-built operand nodes onto the outcome of parsing the rest of
/// an operand list.
spec fn ops_join(
    done: Seq<NodeView>,
    rest: Result<(Seq<NodeView>, Seq<TokenView>), ParseErrView>,
) -> Result<(Seq<NodeView>, Seq<TokenView>), ParseErrView> {
    match rest {
        Ok((more, rem)) => Ok((done + more, rem)),
        Err(e) => Err(e),
    }
}

proof fn lemma_ops_join_push(
    done: Seq<NodeView>,
    n: NodeView,
    rest: Result<(Seq<NodeView>, Seq<TokenView>), ParseErrView>,
)
    ensures
        ops_join(done, ops_join(seq![n], rest)) == ops_join(done.push(n), rest),
{
    match rest {
        Ok((more, rem)) => {
            assert(done + (seq![n] + more) =~= done.push(n) + more);
        },
        Err(_) => {},
    }
}

/// The recursive-descent parser over one token sequence. It holds the fixed
/// instruction registry and a cursor into the tokens.
pub struct Parser<'a> {
    tokens: &'a Vec<Token>,
    current_index: usize,
    instructions: Vec<Instruction>,
}

impl<'a> Parser<'a> {
    #[verifier::type_invariant]
    spec fn type_inv(self) -> bool {
        &&& is_standard_registry(self.instructions@)
        &&& self.current_index <= self.tokens@.len()
    }

    /// The models of the tokens being parsed.
    pub closed spec fn toks(self) -> Seq<TokenView> {
        token_views(self.tokens@)
    }

    /// How many tokens are already consumed.
    pub closed spec fn cursor(self) -> int {
        self.current_index as int
    }

    /// A parser over `tokens`, seeded with the fixed instruction registry,
    /// standing at the first token.
    pub fn new(tokens: &'a Vec<Token>) -> (parser: Parser<'a>)
        ensures
            parser.toks() == token_views(tokens@),
            parser.cursor() == 0,
    {
        Parser { tokens, current_index: 0, instructions: load_instructions() }
    }

    /// True when every token is consumed.
    fn is_at_eol(&self) -> (r: bool)
        ensures
            r == (self.cursor() >= self.toks().len()),
    {
        self.current_index >= self.tokens.len()
    }

    /// True when the cursor stands on a token of the given kind.
    fn is_at(&self, token_type: TokenType) -> (r: bool)
        ensures
            r == (self.cursor() < self.toks().len() && self.toks()[self.cursor()].kind
                == token_type),
    {
        if !self.is_at_eol() {
            if self.tokens[self.current_index].token_type == token_type {
                return true;
            }
        }
        false
    }

    /// Advances the cursor one token.
    fn advance(&mut self)
        requires
            old(self).cursor() < old(self).toks().len(),
        ensures
            final(self).cursor() == old(self).cursor() + 1,
            final(self).toks() == old(self).toks(),
            final(self).instructions == old(self).instructions,
    {
        proof {
            use_type_invariant(&*self);
        }
        let token_count: usize = self.tokens.len();
        proof {
            assert(self.current_index < token_count);
        }
        self.current_index = self.current_index + 1;
    }

    /// Moves the cursor `delta` tokens ahead.
    fn move_cursor(&mut self, delta: usize)
        requires
            old(self).cursor() + delta <= old(self).toks().len(),
        ensures
            final(self).cursor() == old(self).cursor() + delta,
            final(self).toks() == old(self).toks(),
            final(self).instructions == old(self).instructions,
    {
        proof {
            use_type_invariant(&*self);
        }
        let token_count: usize = self.tokens.len();
        proof {
            assert(self.current_index + delta <= token_count);
        }
        self.current_index = self.current_index + delta;
    }

    /// The token at the cursor, or an end-of-input error.
    fn read_token(&self) -> (r: Result<&Token, ParseError>)
        ensures
            match r {
                Ok(t) => self.cursor() < self.toks().len() && t@ == self.toks()[self.cursor()],
                Err(e) => self.cursor() >= self.toks().len() && e@
                    == ParseErrView::UnexpectedEndOfInput,
            },
    {
        if self.is_at_eol() {
            return Err(ParseError::UnexpectedEndOfInput);
        }
        Ok(&self.tokens[self.current_index])
    }

    /// The token `delta` ahead of the cursor, or an end-of-input error.
    fn relative_read_token(&self, delta: usize) -> (r: Result<&Token, ParseError>)
        ensures
            match r {
                Ok(t) => self.cursor() + delta < self.toks().len() && t@ == self.toks()[self.cursor()
                    + delta],
                Err(e) => self.cursor() + delta >= self.toks().len() && e@
                    == ParseErrView::UnexpectedEndOfInput,
            },
    {
        if delta >= self.tokens.len() || self.current_index >= self.tokens.len() - delta {
            return Err(ParseError::UnexpectedEndOfInput);
        }
        Ok(&self.tokens[self.current_index + delta])
    }

    /// The register heuristic as a pure text classification: the text begins,
    /// case-insensitively, with `R`, `W` or `X`, and the remainder is either
    /// all decimal digits or the literal `zr` (so `X0`, `w12`, `Rzr`).
    pub fn is_register(&self, identifier: &str) -> (r: bool)
        ensures
            r == is_register_text(identifier@),
    {
        let n: usize = identifier.unicode_len();
        if n == 0 {
            return false;
        }
        let c0: char = crate::text::char_to_upper(identifier.get_char(0));
        if !(c0 == 'R' || c0 == 'W' || c0 == 'X') {
            return false;
        }
        let mut all_digits: bool = true;
        let mut j: usize = 1;
        while j < n
            invariant
                1 <= j <= n,
                n == identifier@.len(),
                all_digits == (forall|k: int|
                    1 <= k < j ==> is_digit_char(#[trigger] identifier@[k])),
            decreases n - j,
        {
            if !crate::text::char_is_digit(identifier.get_char(j)) {
                proof {
                    assert(!is_digit_char(identifier@[j as int]));
                }
                all_digits = false;
            }
            j = j + 1;
        }
        proof {
            assert(all_digits == all_digit_chars(identifier@.skip(1))) by {
                if all_digits {
                    assert(forall|k: int|
                        0 <= k < identifier@.skip(1).len() ==> is_digit_char(
                            #[trigger] identifier@.skip(1)[k],
                        ));
                } else {
                    let k = choose|k: int|
                        1 <= k < n && !is_digit_char(#[trigger] identifier@[k]);
                    assert(identifier@.skip(1)[k - 1] == identifier@[k]);
                }
            }
        }
        if all_digits {
            return true;
        }
        let zr: bool = n == 3 && crate::text::char_to_upper(identifier.get_char(1)) == 'Z'
            && crate::text::char_to_upper(identifier.get_char(2)) == 'R';
        proof {
            assert(identifier@.skip(1).len() == n - 1);
            if n == 3 {
                assert(identifier@.skip(1)[0] == identifier@[1]);
                assert(identifier@.skip(1)[1] == identifier@[2]);
            }
            assert(zr == is_zr_text(identifier@.skip(1)));
        }
        zr
    }

    /// Parses one label definition: the identifier at the cursor, followed by
    /// a colon; both tokens are consumed and a Label node carries the name.
    fn parse_label(&mut self) -> (r: Result<AstNode, ParseError>)
        requires
            old(self).cursor() + 1 < old(self).toks().len(),
            old(self).toks()[old(self).cursor()].kind == TokenType::Identifier,
            old(self).toks()[old(self).cursor() + 1].kind == TokenType::Colon,
        ensures
            final(self).toks() == old(self).toks(),
            final(self).cursor() == old(self).cursor() + 2,
            match r {
                Ok(node) => node@ == (NodeView {
                    kind: NodeType::Label,
                    value: old(self).toks()[old(self).cursor()].text,
                    children: Seq::empty(),
                }),
                Err(_) => false,
            },
    {
        let label_node = AstNode::new(
            NodeType::Label,
            self.tokens[self.current_index].value.clone(),
        );
        self.move_cursor(2);
        Ok(label_node)
    }

    /// Parses one instruction statement: the identifier at the cursor must
    /// name a registered mnemonic, case-insensitively; its operands follow to
    /// the end of the line, comma-separated; the ending newline, if present,
    /// is consumed. The node's value is the upper-cased mnemonic. Operands
    /// are classified and collected but not matched against the registry's
    /// shapes: shape data stays descriptive for the downstream encoder.
    fn parse_identifier(&mut self) -> (r: Result<AstNode, ParseError>)
        requires
            old(self).cursor() < old(self).toks().len(),
            old(self).toks()[old(self).cursor()].kind == TokenType::Identifier,
        ensures
            final(self).toks() == old(self).toks(),
            match r {
                Ok(node) => {
                    &&& old(self).cursor() < final(self).cursor() <= final(self).toks().len()
                    &&& spec_instruction(old(self).toks().skip(old(self).cursor())) == Ok::<
                        (NodeView, Seq<TokenView>),
                        ParseErrView,
                    >((node@, final(self).toks().skip(final(self).cursor())))
                },
                Err(e) => spec_instruction(old(self).toks().skip(old(self).cursor())) == Err::<
                    (NodeView, Seq<TokenView>),
                    ParseErrView,
                >(e@),
            },
    {
        proof {
            use_type_invariant(&*self);
        }
        let ghost toks = token_views(self.tokens@);
        let ghost i0 = self.current_index as int;
        let ghost suffix = toks.skip(i0);
        proof {
            assert(suffix[0] == toks[i0]);
            assert(toks[i0] == self.tokens@[i0]@);
        }

        let raw: &str = self.tokens[self.current_index].value.as_str();
        let token_upper: String = crate::text::str_to_upper(raw);
        let is_instruction: bool = crate::instruction::contains(&self.instructions, raw);
        proof {
            assert(crate::instruction::seeded_mnemonics().len() == 3);
            assert(is_instruction == known_mnemonic(suffix[0].text)) by {
                if is_instruction {
                    let w = choose|i: int|
                        0 <= i < self.instructions@.len() && upper(raw@) == upper(
                            spec_mnemonic_name((#[trigger] self.instructions@[i]).mnemonic),
                        );
                    assert(self.instructions@[w].mnemonic
                        == crate::instruction::seeded_mnemonics()[w]);
                } else {
                    if known_mnemonic(suffix[0].text) {
                        let w = choose|i: int|
                            0 <= i < crate::instruction::seeded_mnemonics().len() && upper(
                                suffix[0].text,
                            ) == upper(
                                spec_mnemonic_name(
                                    #[trigger] crate::instruction::seeded_mnemonics()[i],
                                ),
                            );
                        assert(self.instructions@[w].mnemonic
                            == crate::instruction::seeded_mnemonics()[w]);
                    }
                }
            }
        }
        if !is_instruction {
            return Err(ParseError::UnknownInstruction { mnemonic: token_upper });
        }

        let mut instruction = AstNode::new(NodeType::Instruction, token_upper);
        self.advance();
        let ghost op_start = i0 + 1;
        proof {
            assert(suffix.drop_first() =~= toks.skip(op_start));
            match spec_operands(toks.skip(op_start)) {
                Ok((more, rem)) => {
                    assert(Seq::<NodeView>::empty() + more =~= more);
                },
                Err(_) => {},
            }
        }
        while !self.is_at_eol() && !self.is_at(TokenType::NewLine)
            invariant
                toks == old(self).toks(),
                i0 == old(self).cursor(),
                suffix == toks.skip(i0),
                0 <= i0 < toks.len(),
                op_start == i0 + 1,
                suffix.drop_first() == toks.skip(op_start),
                op_start <= self.cursor() <= self.toks().len(),
                self.toks() == toks,
                known_mnemonic(suffix[0].text),
                instruction@.kind == NodeType::Instruction,
                instruction@.value == upper(suffix[0].text),
                spec_operands(toks.skip(op_start)) == ops_join(
                    instruction@.children,
                    spec_operands(toks.skip(self.cursor())),
                ),
            decreases self.toks().len() - self.cursor(),
        {
            let ghost j = self.current_index as int;
            let ghost children0 = instruction@.children;
            let current_token_type: TokenType = self.tokens[self.current_index].token_type;
            let current_position: Position = self.tokens[self.current_index].position;
            proof {
                assert(toks.skip(j)[0] == toks[j]);
                assert(toks.skip(j).drop_first() =~= toks.skip(j + 1));
                assert(toks[j] == self.tokens@[j]@);
            }

            if !(current_token_type == TokenType::Identifier || current_token_type
                == TokenType::Number) {
                proof {
                    assert(spec_operands(toks.skip(j)) == Err::<
                        (Seq<NodeView>, Seq<TokenView>),
                        ParseErrView,
                    >(
                        ParseErrView::UnexpectedOperand {
                            kind: toks[j].kind,
                            line: toks[j].line,
                            col: toks[j].col,
                        },
                    ));
                }
                return Err(
                    ParseError::UnexpectedOperand {
                        token_type: current_token_type,
                        position: current_position,
                    },
                );
            }

            let value: String = self.tokens[self.current_index].value.clone();
            let operand = if self.is_register(value.as_str()) {
                AstNode::new(NodeType::Register, value)
            } else if current_token_type == TokenType::Identifier {
                AstNode::new(NodeType::Label, value)
            } else {
                AstNode::new(NodeType::Immediate, value)
            };
            proof {
                assert(operand@ == classify_operand(toks[j]));
            }
            instruction.add_child(operand);
            self.advance();

            if !self.is_at_eol() && !self.is_at(TokenType::NewLine) {
                if !self.is_at(TokenType::Comma) {
                    proof {
                        assert(toks.skip(j + 1)[0] == toks[j + 1]);
                        assert(spec_operands(toks.skip(j)) == Err::<
                            (Seq<NodeView>, Seq<TokenView>),
                            ParseErrView,
                        >(
                            ParseErrView::ExpectedComma {
                                line: toks[j].line,
                                col: toks[j].col,
                            },
                        ));
                    }
                    return Err(ParseError::ExpectedComma { position: current_position });
                }
                self.advance();
                proof {
                    assert(toks.skip(j + 1)[0] == toks[j + 1]);
                    assert(toks.skip(j + 1).drop_first() =~= toks.skip(j + 2));
                    assert(spec_operands(toks.skip(j)) == ops_join(
                        seq![classify_operand(toks[j])],
                        spec_operands(toks.skip(j + 2)),
                    )) by {
                        match spec_operands(toks.skip(j + 2)) {
                            Ok((more, rem)) => {},
                            Err(_) => {},
                        }
                    }
                    lemma_ops_join_push(
                        children0,
                        classify_operand(toks[j]),
                        spec_operands(toks.skip(j + 2)),
                    );
                }
            } else {
                proof {
                    if j + 1 < toks.len() {
                        assert(toks.skip(j + 1)[0] == toks[j + 1]);
                    }
                    assert(spec_operands(toks.skip(j + 1)) == Ok::<
                        (Seq<NodeView>, Seq<TokenView>),
                        ParseErrView,
                    >((Seq::empty(), toks.skip(j + 1))));
                    assert(seq![classify_operand(toks[j])] + Seq::<NodeView>::empty()
                        =~= seq![classify_operand(toks[j])]);
                    assert(spec_operands(toks.skip(j)) == ops_join(
                        seq![classify_operand(toks[j])],
                        spec_operands(toks.skip(j + 1)),
                    ));
                    lemma_ops_join_push(
                        children0,
                        classify_operand(toks[j]),
                        spec_operands(toks.skip(j + 1)),
                    );
                }
            }
        }
        proof {
            assert(spec_operands(toks.skip(self.cursor())) == Ok::<
                (Seq<NodeView>, Seq<TokenView>),
                ParseErrView,
            >((Seq::empty(), toks.skip(self.cursor()))));
            assert(instruction@.children + Seq::<NodeView>::empty() =~= instruction@.children);
            assert(suffix.drop_first() =~= toks.skip(op_start));
        }
        if self.is_at(TokenType::NewLine) {
            let ghost before = self.cursor();
            self.advance();
            proof {
                assert(toks.skip(before).drop_first() =~= toks.skip(before + 1));
            }
        }
        Ok(instruction)
    }

    /// Parses one directive statement: the directive token at the cursor, one
    /// operand from the following token, and a required newline, which is
    /// consumed.
    fn parse_directive(&mut self) -> (r: Result<AstNode, ParseError>)
        requires
            old(self).cursor() < old(self).toks().len(),
            old(self).toks()[old(self).cursor()].kind == TokenType::Directive,
        ensures
            final(self).toks() == old(self).toks(),
            match r {
                Ok(node) => {
                    &&& old(self).cursor() < final(self).cursor() <= final(self).toks().len()
                    &&& spec_directive(old(self).toks().skip(old(self).cursor())) == Ok::<
                        (NodeView, Seq<TokenView>),
                        ParseErrView,
                    >((node@, final(self).toks().skip(final(self).cursor())))
                },
                Err(e) => spec_directive(old(self).toks().skip(old(self).cursor())) == Err::<
                    (NodeView, Seq<TokenView>),
                    ParseErrView,
                >(e@),
            },
    {
        proof {
            use_type_invariant(&*self);
        }
        let ghost toks = token_views(self.tokens@);
        let ghost i0 = self.current_index as int;
        proof {
            assert(toks.skip(i0)[0] == toks[i0]);
            if i0 + 1 < toks.len() {
                assert(toks.skip(i0)[1] == toks[i0 + 1]);
            }
            if i0 + 2 < toks.len() {
                assert(toks.skip(i0)[2] == toks[i0 + 2]);
            }
        }
        let directive_value: String = match self.read_token() {
            Ok(token) => token.value.clone(),
            Err(e) => {
                return Err(e);
            },
        };
        let (operand_token_type, operand_value): (TokenType, String) = match self
            .relative_read_token(1) {
            Ok(token) => (token.token_type, token.value.clone()),
            Err(e) => {
                return Err(e);
            },
        };

        let mut node = AstNode::new(NodeType::Directive, directive_value);
        let operand = match operand_token_type {
            TokenType::Identifier => AstNode::new(NodeType::Label, operand_value),
            TokenType::Number => AstNode::new(NodeType::Immediate, operand_value),
            _ => {
                return Err(
                    ParseError::UnexpectedDirectiveOperand { token_type: operand_token_type },
                );
            },
        };
        node.add_child(operand);
        self.move_cursor(2);

        if !self.is_at(TokenType::NewLine) {
            return Err(ParseError::ExpectedNewlineAfterDirective);
        }
        self.advance();
        proof {
            assert(node@.children =~= seq![operand@]);
            assert(toks.skip(i0).skip(3) =~= toks.skip(i0 + 3));
        }
        Ok(node)
    }

    /// Parses the whole token sequence from the cursor on into a Root node
    /// whose children are the statements in source order, or fails with the
    /// first syntax error; blank lines contribute no nodes, and a single
    /// error aborts the whole parse.
    pub fn build_ast(&mut self) -> (r: Result<AstNode, ParseError>)
        ensures
            final(self).toks() == old(self).toks(),
            match r {
                Ok(root) => {
                    &&& root@.kind == NodeType::Root
                    &&& root@.value == Seq::<char>::empty()
                    &&& spec_parse(old(self).toks().skip(old(self).cursor())) == Ok::<
                        Seq<NodeView>,
                        ParseErrView,
                    >(root@.children)
                },
                Err(e) => spec_parse(old(self).toks().skip(old(self).cursor())) == Err::<
                    Seq<NodeView>,
                    ParseErrView,
                >(e@),
            },
    {
        proof {
            use_type_invariant(&*self);
        }
        let ghost toks = token_views(self.tokens@);
        let ghost i0 = self.current_index as int;
        let mut root_node = AstNode::new(NodeType::Root, String::new());
        proof {
            match spec_parse(toks.skip(i0)) {
                Ok(ns) => {
                    assert(Seq::<NodeView>::empty() + ns =~= ns);
                },
                Err(_) => {},
            }
        }
        while !self.is_at_eol()
            invariant
                toks == old(self).toks(),
                i0 == old(self).cursor(),
                i0 <= self.cursor() <= self.toks().len(),
                self.toks() == toks,
                root_node@.kind == NodeType::Root,
                root_node@.value == Seq::<char>::empty(),
                spec_parse(toks.skip(i0)) == parse_join(
                    root_node@.children,
                    spec_parse(toks.skip(self.cursor())),
                ),
            decreases self.toks().len() - self.cursor(),
        {
            let ghost j = self.current_index as int;
            let ghost children0 = root_node@.children;
            proof {
                assert(toks.skip(j)[0] == toks[j]);
                assert(toks[j] == self.tokens@[j]@);
                if j + 1 < toks.len() {
                    assert(toks.skip(j)[1] == toks[j + 1]);
                    assert(toks[j + 1] == self.tokens@[j + 1]@);
                }
            }
            let token_type: TokenType = self.tokens[self.current_index].token_type;
            let position: Position = self.tokens[self.current_index].position;

            if token_type == TokenType::NewLine {
                self.advance();
                proof {
                    assert(toks.skip(j).drop_first() =~= toks.skip(j + 1));
                }
                continue;
            }

            let is_label: bool = token_type == TokenType::Identifier && match self
                .relative_read_token(1) {
                Ok(t) => t.token_type == TokenType::Colon,
                Err(_) => false,
            };

            let result: Result<AstNode, ParseError> = if is_label {
                let r = self.parse_label();
                proof {
                    assert(toks.skip(j).skip(2) =~= toks.skip(j + 2));
                }
                r
            } else if token_type == TokenType::Identifier {
                self.parse_identifier()
            } else if token_type == TokenType::Directive {
                self.parse_directive()
            } else {
                proof {
                    assert(spec_parse(toks.skip(j)) == Err::<Seq<NodeView>, ParseErrView>(
                        ParseErrView::UnexpectedToken {
                            kind: toks[j].kind,
                            line: toks[j].line,
                            col: toks[j].col,
                        },
                    ));
                }
                return Err(ParseError::UnexpectedToken { token_type, position });
            };

            match result {
                Ok(node) => {
                    proof {
                        assert(spec_parse(toks.skip(j)) == parse_join(
                            seq![node@],
                            spec_parse(toks.skip(self.cursor())),
                        ));
                        lemma_parse_join_push(
                            children0,
                            node@,
                            spec_parse(toks.skip(self.cursor())),
                        );
                    }
                    root_node.add_child(node);
                },
                Err(err) => {
                    return Err(err);
                },
            }
        }
        proof {
            assert(toks.skip(self.cursor()).len() == 0);
            assert(spec_parse(toks.skip(self.cursor())) == Ok::<Seq<NodeView>, ParseErrView>(
                Seq::empty(),
            ));
            assert(root_node@.children + Seq::<NodeView>::empty() =~= root_node@.children);
        }
        Ok(root_node)
    }
}

} // verus!
