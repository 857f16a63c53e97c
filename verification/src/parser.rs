//! Converts source text into an ordered sequence of instructions.
//!
//! The source is split into whitespace-delimited tokens, consumed strictly
//! front to back: each keyword determines a fixed operand arity, and any
//! single failure aborts the whole parse with no partial result.

use std::collections::VecDeque;

use vstd::prelude::*;

use crate::instruction::{instructions_view, Instruction, InstructionModel};
use crate::strings_view;

verus! {

/// A failure while converting source text into instructions.
#[derive(Clone, Debug, PartialEq, Eq)]
pub enum ParserError {
    /// The offending token was not a recognized keyword.
    InvalidInstruction(String),
    /// A keyword was recognized but its trailing operand tokens ran out.
    MissingParameter,
}

/// The mathematical model of a parse failure.
pub enum ParserErrorModel {
    InvalidInstruction(Seq<char>),
    MissingParameter,
}

impl View for ParserError {
    type V = ParserErrorModel;

    open spec fn view(&self) -> ParserErrorModel {
        match self {
            ParserError::InvalidInstruction(token) => ParserErrorModel::InvalidInstruction(token@),
            ParserError::MissingParameter => ParserErrorModel::MissingParameter,
        }
    }
}

/// The characters that separate tokens: exactly the Unicode white-space
/// characters, the set `char::is_whitespace` holds of.
pub open spec fn is_token_separator(c: char) -> bool {
    ||| c == '\u{9}'
    ||| c == '\u{a}'
    ||| c == '\u{b}'
    ||| c == '\u{c}'
    ||| c == '\u{d}'
    ||| c == ' '
    ||| c == '\u{85}'
    ||| c == '\u{a0}'
    ||| c == '\u{1680}'
    ||| c == '\u{2000}'
    ||| c == '\u{2001}'
    ||| c == '\u{2002}'
    ||| c == '\u{2003}'
    ||| c == '\u{2004}'
    ||| c == '\u{2005}'
    ||| c == '\u{2006}'
    ||| c == '\u{2007}'
    ||| c == '\u{2008}'
    ||| c == '\u{2009}'
    ||| c == '\u{200a}'
    ||| c == '\u{2028}'
    ||| c == '\u{2029}'
    ||| c == '\u{202f}'
    ||| c == '\u{205f}'
    ||| c == '\u{3000}'
}

/// The length of the maximal separator-free prefix of `s`.
pub open spec fn first_token_len(s: Seq<char>) -> nat
    decreases s.len(),
{
    if s.len() == 0 || is_token_separator(s[0]) {
        0
    } else {
        1 + first_token_len(s.skip(1))
    }
}

/// The whitespace-delimited tokens of `s`, in order.
pub open spec fn spec_tokens(s: Seq<char>) -> Seq<Seq<char>>
    decreases s.len(),
    via spec_tokens_decreases
{
    if s.len() == 0 {
        Seq::empty()
    } else if is_token_separator(s[0]) {
        spec_tokens(s.skip(1))
    } else {
        seq![s.take(first_token_len(s) as int)] + spec_tokens(s.skip(first_token_len(s) as int))
    }
}

#[via_fn]
proof fn spec_tokens_decreases(s: Seq<char>) {
    if s.len() != 0 && !is_token_separator(s[0]) {
        lemma_first_token_len_bound(s);
    }
}

proof fn lemma_first_token_len_bound(s: Seq<char>)
    ensures
        first_token_len(s) <= s.len(),
    decreases s.len(),
{
    if s.len() != 0 && !is_token_separator(s[0]) {
        lemma_first_token_len_bound(s.skip(1));
    }
}

proof fn lemma_first_token_len_exact(s: Seq<char>, len: int)
    requires
        0 <= len <= s.len(),
        forall|k: int| 0 <= k < len ==> !is_token_separator(s[k]),
        len == s.len() || is_token_separator(s[len]),
    ensures
        first_token_len(s) == len,
    decreases len,
{
    if len > 0 {
        assert(forall|k: int| 0 <= k < len - 1 ==> s.skip(1)[k] == s[k + 1]);
        lemma_first_token_len_exact(s.skip(1), len - 1);
    }
}

fn is_separator_char(c: char) -> (r: bool)
    ensures
        r == is_token_separator(c),
{
    c == '\u{9}' || c == '\u{a}' || c == '\u{b}' || c == '\u{c}' || c == '\u{d}' || c == ' '
        || c == '\u{85}' || c == '\u{a0}' || c == '\u{1680}' || c == '\u{2000}' || c == '\u{2001}'
        || c == '\u{2002}' || c == '\u{2003}' || c == '\u{2004}' || c == '\u{2005}'
        || c == '\u{2006}' || c == '\u{2007}' || c == '\u{2008}' || c == '\u{2009}'
        || c == '\u{200a}' || c == '\u{2028}' || c == '\u{2029}' || c == '\u{202f}'
        || c == '\u{205f}' || c == '\u{3000}'
}

/// What one keyword parses to, given the tokens that follow it: the parsed
/// instruction together with the tokens left over, or the parse failure.
pub open spec fn spec_parse_step(keyword: Seq<char>, rest: Seq<Seq<char>>) -> Result<
    (InstructionModel, Seq<Seq<char>>),
    ParserErrorModel,
> {
    if keyword == "stampa"@ {
        if rest.len() < 1 {
            Err(ParserErrorModel::MissingParameter)
        } else {
            Ok((InstructionModel::Print(rest[0]), rest.skip(1)))
        }
    } else if keyword == "crea_variabile"@ {
        if rest.len() < 2 {
            Err(ParserErrorModel::MissingParameter)
        } else {
            Ok((InstructionModel::CreateVariable(rest[0], rest[1]), rest.skip(2)))
        }
    } else if keyword == "stampa_variabile"@ {
        if rest.len() < 1 {
            Err(ParserErrorModel::MissingParameter)
        } else {
            Ok((InstructionModel::PrintVariable(rest[0]), rest.skip(1)))
        }
    } else {
        Err(ParserErrorModel::InvalidInstruction(keyword))
    }
}

/// The instructions denoted by a token stream, in order, or the first parse
/// failure; a failure discards every partially parsed instruction.
pub open spec fn spec_parse_tokens(tokens: Seq<Seq<char>>) -> Result<
    Seq<InstructionModel>,
    ParserErrorModel,
>
    decreases tokens.len(),
    via spec_parse_tokens_decreases
{
    if tokens.len() == 0 {
        Ok(Seq::empty())
    } else {
        match spec_parse_step(tokens[0], tokens.skip(1)) {
            Ok(step) => match spec_parse_tokens(step.1) {
                Ok(rest) => Ok(seq![step.0] + rest),
                Err(error) => Err(error),
            },
            Err(error) => Err(error),
        }
    }
}

#[via_fn]
proof fn spec_parse_tokens_decreases(tokens: Seq<Seq<char>>) {
    if tokens.len() > 0 {
        match spec_parse_step(tokens[0], tokens.skip(1)) {
            Ok(step) => {
                assert(step.1.len() < tokens.len());
            },
            Err(_) => {
            },
        }
    }
}

/// The parse of a whole source text.
pub open spec fn spec_parse(source: Seq<char>) -> Result<Seq<InstructionModel>, ParserErrorModel> {
    spec_parse_tokens(spec_tokens(source))
}

/// The model of an executable parse result.
pub open spec fn parse_result_view(result: Result<Vec<Instruction>, ParserError>) -> Result<
    Seq<InstructionModel>,
    ParserErrorModel,
> {
    match result {
        Ok(instructions) => Ok(instructions_view(instructions@)),
        Err(error) => Err(error@),
    }
}

/// Splits the source text into its whitespace-delimited tokens, in order.
pub fn parse_into_tokens(input: &str) -> (tokens: VecDeque<String>)
    ensures
        strings_view(tokens@) == spec_tokens(input@),
{
    let length = input.unicode_len();
    let mut tokens: VecDeque<String> = VecDeque::new();
    let mut i: usize = 0;
    proof {
        assert(strings_view(tokens@) =~= Seq::<Seq<char>>::empty());
        assert(input@.skip(0) =~= input@);
    }
    while i < length
        invariant
            length == input@.len(),
            i <= length,
            spec_tokens(input@) == strings_view(tokens@) + spec_tokens(input@.skip(i as int)),
        decreases length - i,
    {
        if is_separator_char(input.get_char(i)) {
            proof {
                assert(input@.skip(i as int).skip(1) =~= input@.skip(i as int + 1));
            }
            i = i + 1;
        } else {
            let start = i;
            let mut end: usize = i + 1;
            while end < length && !is_separator_char(input.get_char(end))
                invariant
                    length == input@.len(),
                    start < end <= length,
                    forall|k: int| start <= k < end ==> !is_token_separator(input@[k]),
                decreases length - end,
            {
                end = end + 1;
            }
            let token = input.substring_char(start, end).to_owned();
            let ghost previous_tokens = tokens@;
            tokens.push_back(token);
            proof {
                let remainder = input@.skip(start as int);
                assert(forall|k: int|
                    0 <= k < end - start ==> remainder[k] == input@[start + k]);
                lemma_first_token_len_exact(remainder, end - start);
                assert(remainder.take((end - start) as int) =~= input@.subrange(
                    start as int,
                    end as int,
                ));
                assert(remainder.skip((end - start) as int) =~= input@.skip(end as int));
                assert(strings_view(tokens@) =~~= strings_view(previous_tokens).push(token@));
                assert(strings_view(previous_tokens) + (seq![token@] + spec_tokens(
                    input@.skip(end as int),
                )) =~~= strings_view(previous_tokens).push(token@) + spec_tokens(
                    input@.skip(end as int),
                ));
            }
            i = end;
        }
    }
    proof {
        assert(input@.skip(length as int) =~= Seq::<char>::empty());
        assert(strings_view(tokens@) + Seq::<Seq<char>>::empty() =~~= strings_view(tokens@));
    }
    tokens
}

fn token_is(token: &String, keyword: &str) -> (r: bool)
    ensures
        r == (token@ == keyword@),
{
    *token == keyword.to_owned()
}

fn parse_print_instruction(token_list: &mut VecDeque<String>) -> (result: Result<
    Instruction,
    ParserError,
>)
    ensures
        match result {
            Ok(instruction) => old(token_list)@.len() >= 1 && instruction@
                == InstructionModel::Print(old(token_list)@[0]@) && final(token_list)@ == old(
                token_list,
            )@.skip(1),
            Err(error) => error@ == ParserErrorModel::MissingParameter && old(token_list)@.len()
                == 0 && final(token_list)@ == old(token_list)@,
        },
{
    match token_list.pop_front() {
        Some(to_print) => Ok(Instruction::Print(to_print)),
        None => Err(ParserError::MissingParameter),
    }
}

fn parse_print_variable_instruction(token_list: &mut VecDeque<String>) -> (result: Result<
    Instruction,
    ParserError,
>)
    ensures
        match result {
            Ok(instruction) => old(token_list)@.len() >= 1 && instruction@
                == InstructionModel::PrintVariable(old(token_list)@[0]@) && final(token_list)@
                == old(token_list)@.skip(1),
            Err(error) => error@ == ParserErrorModel::MissingParameter && old(token_list)@.len()
                == 0 && final(token_list)@ == old(token_list)@,
        },
{
    match token_list.pop_front() {
        Some(variable_name) => Ok(Instruction::PrintVariable(variable_name)),
        None => Err(ParserError::MissingParameter),
    }
}

fn parse_create_variable_instruction(token_list: &mut VecDeque<String>) -> (result: Result<
    Instruction,
    ParserError,
>)
    ensures
        match result {
            Ok(instruction) => old(token_list)@.len() >= 2 && instruction@
                == InstructionModel::CreateVariable(old(token_list)@[0]@, old(token_list)@[1]@)
                && final(token_list)@ == old(token_list)@.skip(2),
            Err(error) => error@ == ParserErrorModel::MissingParameter && old(token_list)@.len()
                < 2 && final(token_list)@ == Seq::<String>::empty(),
        },
{
    let variable_name = token_list.pop_front();
    let variable_value = token_list.pop_front();

    proof {
        if old(token_list)@.len() >= 2 {
            assert(token_list@ =~= old(token_list)@.skip(2));
        } else {
            assert(token_list@ =~= Seq::<String>::empty());
        }
    }
    match variable_name {
        Some(variable_name) => match variable_value {
            Some(variable_value) => Ok(
                Instruction::CreateVariable(variable_name, variable_value),
            ),
            None => Err(ParserError::MissingParameter),
        },
        None => Err(ParserError::MissingParameter),
    }
}

fn parse_instruction(token_list: &mut VecDeque<String>, token: &String) -> (result: Result<
    Instruction,
    ParserError,
>)
    ensures
        match spec_parse_step(token@, strings_view(old(token_list)@)) {
            Ok(step) => result matches Ok(instruction) && instruction@ == step.0 && strings_view(
                final(token_list)@,
            ) == step.1,
            Err(error_model) => result matches Err(error) && error@ == error_model && (match
            error_model {
                ParserErrorModel::InvalidInstruction(_) => final(token_list)@ == old(token_list)@,
                ParserErrorModel::MissingParameter => final(token_list)@
                    == Seq::<String>::empty(),
            }),
        },
{
    if token_is(token, "stampa") {
        let result = parse_print_instruction(token_list);
        proof {
            if result is Ok {
                assert(strings_view(token_list@) =~~= strings_view(old(token_list)@).skip(1));
            } else {
                assert(token_list@ =~= Seq::<String>::empty());
            }
        }
        result
    } else if token_is(token, "crea_variabile") {
        let result = parse_create_variable_instruction(token_list);
        proof {
            if result is Ok {
                assert(strings_view(token_list@) =~~= strings_view(old(token_list)@).skip(2));
            }
        }
        result
    } else if token_is(token, "stampa_variabile") {
        let result = parse_print_variable_instruction(token_list);
        proof {
            if result is Ok {
                assert(strings_view(token_list@) =~~= strings_view(old(token_list)@).skip(1));
            } else {
                assert(token_list@ =~= Seq::<String>::empty());
            }
        }
        result
    } else {
        Err(ParserError::InvalidInstruction(token.clone()))
    }
}

/// Consumes the token stream front to back, one keyword-determined
/// instruction at a time; the first failure aborts the whole parse and
/// discards every instruction parsed so far.
#[verifier::loop_isolation(false)]
pub fn parse_into_instructions(token_list: VecDeque<String>) -> (result: Result<
    Vec<Instruction>,
    ParserError,
>)
    ensures
        parse_result_view(result) == spec_parse_tokens(strings_view(token_list@)),
{
    let ghost all_tokens = strings_view(token_list@);
    let mut token_list = token_list;
    let mut output: Vec<Instruction> = Vec::new();

    while token_list.len() > 0
        invariant
            spec_parse_tokens(all_tokens) == (match spec_parse_tokens(
                strings_view(token_list@),
            ) {
                Ok(rest) => Ok::<Seq<InstructionModel>, ParserErrorModel>(
                    instructions_view(output@) + rest,
                ),
                Err(error) => Err::<Seq<InstructionModel>, ParserErrorModel>(error),
            }),
        decreases token_list@.len(),
    {
        let ghost tokens_before = strings_view(token_list@);
        let current_token = token_list.pop_front().unwrap();
        proof {
            assert(tokens_before[0] == current_token@);
            assert(strings_view(token_list@) =~~= tokens_before.skip(1));
        }
        let parsing_result = parse_instruction(&mut token_list, &current_token);

        match parsing_result {
            Ok(parsed_instruction) => {
                let ghost output_before = instructions_view(output@);
                let ghost step = spec_parse_step(tokens_before[0], tokens_before.skip(1))->Ok_0;
                output.push(parsed_instruction);
                proof {
                    assert(instructions_view(output@) =~~= output_before.push(step.0));
                    if spec_parse_tokens(step.1) is Ok {
                        let rest = spec_parse_tokens(step.1)->Ok_0;
                        assert(output_before + (seq![step.0] + rest) =~~= output_before.push(
                            step.0,
                        ) + rest);
                    }
                }
            },
            Err(parser_error) => {
                return Err(parser_error);
            },
        }
    }
    proof {
        assert(strings_view(token_list@) =~~= Seq::<Seq<char>>::empty());
        assert(instructions_view(output@) + Seq::<InstructionModel>::empty()
            =~~= instructions_view(output@));
    }
    Ok(output)
}

/// The token stream a parsed instruction came from: its keyword followed by
/// its operands.
pub open spec fn instruction_token_form(instruction: InstructionModel) -> Seq<Seq<char>> {
    match instruction {
        InstructionModel::Print(text) => seq!["stampa"@, text],
        InstructionModel::CreateVariable(name, value) => seq!["crea_variabile"@, name, value],
        InstructionModel::PrintVariable(name) => seq!["stampa_variabile"@, name],
    }
}

/// A successful parse consumes its whole token stream: the stream is exactly
/// the parsed instructions' token forms laid end to end. One keyword begins
/// each form, so the parse returns one instruction per keyword of the source,
/// in source order.
pub proof fn lemma_parse_tokens_complete(
    tokens: Seq<Seq<char>>,
    instructions: Seq<InstructionModel>,
)
    requires
        spec_parse_tokens(tokens) == Ok::<Seq<InstructionModel>, ParserErrorModel>(instructions),
    ensures
        tokens == instructions.map_values(
            |instruction: InstructionModel| instruction_token_form(instruction),
        ).flatten(),
        instructions.len() <= tokens.len(),
    decreases tokens.len(),
{
    let form = |instruction: InstructionModel| instruction_token_form(instruction);
    if tokens.len() == 0 {
        assert(instructions =~= Seq::<InstructionModel>::empty());
        assert(instructions.map_values(form).len() == 0);
        assert(tokens =~~= instructions.map_values(form).flatten());
    } else {
        let step = spec_parse_step(tokens[0], tokens.skip(1))->Ok_0;
        let rest_instructions = spec_parse_tokens(step.1)->Ok_0;
        assert(step.1.len() < tokens.len());
        lemma_parse_tokens_complete(step.1, rest_instructions);
        assert(instructions == seq![step.0] + rest_instructions);
        let mapped = instructions.map_values(form);
        assert(mapped =~= seq![form(step.0)] + rest_instructions.map_values(form));
        assert(mapped.flatten() == form(step.0) + rest_instructions.map_values(form).flatten())
            by {
            assert(mapped.first() == form(step.0));
            assert(mapped.drop_first() =~= rest_instructions.map_values(form));
        };
        if tokens[0] == "stampa"@ {
            assert(step.1 =~= tokens.skip(2));
            assert(tokens =~~= form(step.0) + step.1);
        } else if tokens[0] == "crea_variabile"@ {
            assert(step.1 =~= tokens.skip(3));
            assert(tokens =~~= form(step.0) + step.1);
        } else {
            assert(step.1 =~= tokens.skip(2));
            assert(tokens =~~= form(step.0) + step.1);
        }
    }
}

/// For a source made only of well-formed instructions, the parse succeeds
/// and returns one instruction per keyword of the source, in source order:
/// the source's tokens are exactly the instructions' token forms laid end to
/// end.
pub proof fn lemma_parse_source_complete(source: Seq<char>, instructions: Seq<InstructionModel>)
    requires
        spec_parse(source) == Ok::<Seq<InstructionModel>, ParserErrorModel>(instructions),
    ensures
        spec_tokens(source) == instructions.map_values(
            |instruction: InstructionModel| instruction_token_form(instruction),
        ).flatten(),
        instructions.len() <= spec_tokens(source).len(),
{
    lemma_parse_tokens_complete(spec_tokens(source), instructions);
}

/// Parsing is a pure function of the source text: two parses of equal
/// sources yield structurally identical results.
pub proof fn lemma_parse_deterministic(
    source: Seq<char>,
    first: Result<Seq<InstructionModel>, ParserErrorModel>,
    second: Result<Seq<InstructionModel>, ParserErrorModel>,
)
    requires
        first == spec_parse(source),
        second == spec_parse(source),
    ensures
        first == second,
{
}

/// Converts source text into the ordered instruction sequence it denotes, or
/// reports the first parse failure; the result is a function of the source
/// text alone.
pub fn parse(input: &String) -> (result: Result<Vec<Instruction>, ParserError>)
    ensures
        parse_result_view(result) == spec_parse(input@),
{
    parse_into_instructions(parse_into_tokens(input.as_str()))
}

} // verus!
