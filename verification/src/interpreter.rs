//! Executes an instruction sequence against a run-scoped variable store.
//!
//! A fresh, empty store is created at the start of each run. Instructions
//! execute strictly in order; the first failure halts the run, and the
//! failing instruction's effect is never applied. Output lines go to a
//! caller-supplied sink, one line per executed print instruction.

use vstd::prelude::*;

use crate::instruction::{instructions_view, Instruction, InstructionModel};
use crate::strings_view;

verus! {

/// A failure while executing an instruction.
#[derive(Clone, Debug, PartialEq, Eq)]
pub enum InterpreterError {
    /// A second binding of an already bound name was attempted.
    RedefinedVariable(String),
    /// An unbound name was looked up.
    VariableDoesNotExist(String),
}

/// The mathematical model of an execution failure.
pub enum InterpreterErrorModel {
    RedefinedVariable(Seq<char>),
    VariableDoesNotExist(Seq<char>),
}

impl View for InterpreterError {
    type V = InterpreterErrorModel;

    open spec fn view(&self) -> InterpreterErrorModel {
        match self {
            InterpreterError::RedefinedVariable(name) => InterpreterErrorModel::RedefinedVariable(
                name@,
            ),
            InterpreterError::VariableDoesNotExist(
                name,
            ) => InterpreterErrorModel::VariableDoesNotExist(name@),
        }
    }
}

/// What one instruction does to a variable store: the store afterwards, the
/// lines it emits, and the failure, if any. A failing instruction leaves the
/// store untouched and emits nothing.
pub struct StepOutcome {
    pub context: Map<Seq<char>, Seq<char>>,
    pub emitted: Seq<Seq<char>>,
    pub error: Option<InterpreterErrorModel>,
}

/// The effect of executing a single instruction on a variable store.
pub open spec fn spec_step(
    context: Map<Seq<char>, Seq<char>>,
    instruction: InstructionModel,
) -> StepOutcome {
    match instruction {
        InstructionModel::Print(text) => StepOutcome {
            context: context,
            emitted: seq![text],
            error: None,
        },
        InstructionModel::CreateVariable(name, value) => if context.contains_key(name) {
            StepOutcome {
                context: context,
                emitted: Seq::empty(),
                error: Some(InterpreterErrorModel::RedefinedVariable(name)),
            }
        } else {
            StepOutcome { context: context.insert(name, value), emitted: Seq::empty(), error: None }
        },
        InstructionModel::PrintVariable(name) => if context.contains_key(name) {
            StepOutcome { context: context, emitted: seq![context[name]], error: None }
        } else {
            StepOutcome {
                context: context,
                emitted: Seq::empty(),
                error: Some(InterpreterErrorModel::VariableDoesNotExist(name)),
            }
        },
    }
}

/// The outcome of one run: the final variable store, every output line in
/// order of emission, and the error that halted the run, if any.
pub struct RunOutcome {
    pub context: Map<Seq<char>, Seq<char>>,
    pub output: Seq<Seq<char>>,
    pub error: Option<InterpreterErrorModel>,
}

/// Runs the instructions in order, starting from the given store. Execution
/// halts at the first failing instruction: nothing at or after the failure
/// contributes any effect.
pub open spec fn spec_run_from(
    instructions: Seq<InstructionModel>,
    context: Map<Seq<char>, Seq<char>>,
) -> RunOutcome
    decreases instructions.len(),
{
    if instructions.len() == 0 {
        RunOutcome { context: context, output: Seq::empty(), error: None }
    } else {
        let step = spec_step(context, instructions[0]);
        if step.error is Some {
            RunOutcome { context: context, output: Seq::empty(), error: step.error }
        } else {
            let rest = spec_run_from(instructions.skip(1), step.context);
            RunOutcome {
                context: rest.context,
                output: step.emitted + rest.output,
                error: rest.error,
            }
        }
    }
}

/// The outcome of running the instructions against a fresh, empty store.
pub open spec fn spec_run(instructions: Seq<InstructionModel>) -> RunOutcome {
    spec_run_from(instructions, Map::empty())
}

proof fn lemma_run_prefix_shift(
    instructions: Seq<InstructionModel>,
    context: Map<Seq<char>, Seq<char>>,
    i: int,
)
    requires
        1 <= i <= instructions.len(),
        spec_step(context, instructions[0]).error is None,
    ensures
        spec_run_from(instructions.take(i), context).context == spec_run_from(
            instructions.skip(1).take(i - 1),
            spec_step(context, instructions[0]).context,
        ).context,
        spec_run_from(instructions.take(i), context).error == spec_run_from(
            instructions.skip(1).take(i - 1),
            spec_step(context, instructions[0]).context,
        ).error,
{
    let prefix = instructions.take(i);
    assert(prefix[0] == instructions[0]);
    assert(prefix.skip(1) =~= instructions.skip(1).take(i - 1));
}

/// In a run that never fails, the instruction at index `i` succeeds when
/// executed in the store its predecessors built.
proof fn lemma_run_step_at(
    instructions: Seq<InstructionModel>,
    context: Map<Seq<char>, Seq<char>>,
    i: int,
)
    requires
        0 <= i < instructions.len(),
        spec_run_from(instructions, context).error is None,
    ensures
        spec_step(
            spec_run_from(instructions.take(i), context).context,
            instructions[i],
        ).error is None,
    decreases i,
{
    let step = spec_step(context, instructions[0]);
    assert(step.error is None);
    if i == 0 {
        assert(instructions.take(0) =~= Seq::<InstructionModel>::empty());
    } else {
        lemma_run_step_at(instructions.skip(1), step.context, i - 1);
        lemma_run_prefix_shift(instructions, context, i);
        assert(instructions.skip(1)[i - 1] == instructions[i]);
    }
}

/// A run succeeds exactly when every instruction, executed in the store its
/// predecessors built, succeeds: no instruction re-creates an existing name
/// or reads an unbound one.
pub proof fn lemma_run_success_iff(
    instructions: Seq<InstructionModel>,
    context: Map<Seq<char>, Seq<char>>,
)
    ensures
        spec_run_from(instructions, context).error is None <==> forall|i: int|
            0 <= i < instructions.len() ==> (#[trigger] spec_step(
                spec_run_from(instructions.take(i), context).context,
                instructions[i],
            )).error is None,
{
    if spec_run_from(instructions, context).error is None {
        assert forall|i: int| 0 <= i < instructions.len() implies (#[trigger] spec_step(
            spec_run_from(instructions.take(i), context).context,
            instructions[i],
        )).error is None by {
            lemma_run_step_at(instructions, context, i);
        }
    } else {
        let witness = lemma_run_from_failure(instructions, context);
        assert(spec_step(
            spec_run_from(instructions.take(witness), context).context,
            instructions[witness],
        ).error is Some);
    }
}

/// A successful run's output is the instructions' emissions laid end to
/// end, in order: instruction `i` contributes exactly its `spec_step`
/// emission in the store its predecessors built — one line holding the
/// literal for `Print`, one line holding the value the store binds for
/// `PrintVariable`, and nothing for `CreateVariable`.
pub proof fn lemma_run_output_per_instruction(
    instructions: Seq<InstructionModel>,
    context: Map<Seq<char>, Seq<char>>,
)
    requires
        spec_run_from(instructions, context).error is None,
    ensures
        spec_run_from(instructions, context).output == Seq::new(
            instructions.len(),
            |i: int| spec_step(
                spec_run_from(instructions.take(i), context).context,
                instructions[i],
            ).emitted,
        ).flatten(),
    decreases instructions.len(),
{
    let whole = Seq::new(
        instructions.len(),
        |i: int| spec_step(
            spec_run_from(instructions.take(i), context).context,
            instructions[i],
        ).emitted,
    );
    if instructions.len() == 0 {
        assert(whole =~= Seq::<Seq<Seq<char>>>::empty());
    } else {
        let step = spec_step(context, instructions[0]);
        assert(step.error is None);
        lemma_run_output_per_instruction(instructions.skip(1), step.context);
        let shifted = Seq::new(
            instructions.skip(1).len(),
            |j: int| spec_step(
                spec_run_from(instructions.skip(1).take(j), step.context).context,
                instructions.skip(1)[j],
            ).emitted,
        );
        assert forall|j: int| 0 <= j < instructions.len() - 1 implies whole.drop_first()[j]
            == shifted[j] by {
            lemma_run_prefix_shift(instructions, context, j + 1);
            assert(instructions.skip(1)[j] == instructions[j + 1]);
        }
        assert(whole.drop_first() =~~= shifted);
        assert(instructions.take(0) =~= Seq::<InstructionModel>::empty());
        assert(whole.first() == step.emitted);
        assert(whole.flatten() == whole.first() + whole.drop_first().flatten());
    }
}

/// The store a successful run builds, name by name: a `CreateVariable` only
/// ever binds a fresh name, no two of them carry one name (the second would
/// have failed the run), each binds its name to its own value in the final
/// store, names bound before the run keep their values, and the final store
/// holds nothing else. So the line a `PrintVariable` emits carries the value
/// of the unique earlier binding of its name.
pub proof fn lemma_run_final_store(
    instructions: Seq<InstructionModel>,
    context: Map<Seq<char>, Seq<char>>,
)
    requires
        spec_run_from(instructions, context).error is None,
    ensures
        forall|j: int|
            0 <= j < instructions.len() && (#[trigger] instructions[j]) is CreateVariable
                ==> !context.contains_key(instructions[j]->CreateVariable_0),
        forall|j: int|
            0 <= j < instructions.len() && (#[trigger] instructions[j]) is CreateVariable
                ==> spec_run_from(instructions, context).context.contains_key(
                instructions[j]->CreateVariable_0,
            ) && spec_run_from(instructions, context).context[instructions[j]->CreateVariable_0]
                == instructions[j]->CreateVariable_1,
        forall|j: int, k: int|
            0 <= j < k < instructions.len() && (#[trigger] instructions[j]) is CreateVariable && (
            #[trigger] instructions[k]) is CreateVariable
                ==> instructions[j]->CreateVariable_0 != instructions[k]->CreateVariable_0,
        forall|name: Seq<char>| #[trigger]
            context.contains_key(name) ==> spec_run_from(instructions, context).context.contains_key(
                name,
            ) && spec_run_from(instructions, context).context[name] == context[name],
        forall|name: Seq<char>| #[trigger]
            spec_run_from(instructions, context).context.contains_key(name)
                ==> context.contains_key(name) || exists|j: int|
                0 <= j < instructions.len() && (#[trigger] instructions[j]) is CreateVariable
                    && instructions[j]->CreateVariable_0 == name,
    decreases instructions.len(),
{
    if instructions.len() > 0 {
        let step = spec_step(context, instructions[0]);
        assert(step.error is None);
        lemma_run_final_store(instructions.skip(1), step.context);
        let built = spec_run_from(instructions, context).context;
        assert(built == spec_run_from(instructions.skip(1), step.context).context);
        assert forall|name: Seq<char>| #[trigger]
            context.contains_key(name) implies built.contains_key(name) && built[name]
            == context[name] by {
            assert(step.context.contains_key(name) && step.context[name] == context[name]);
        }
        assert forall|name: Seq<char>| #[trigger]
            built.contains_key(name) implies context.contains_key(name) || exists|j: int|
            0 <= j < instructions.len() && (#[trigger] instructions[j]) is CreateVariable
                && instructions[j]->CreateVariable_0 == name by {
            if !context.contains_key(name) {
                if step.context.contains_key(name) {
                    assert(instructions[0] is CreateVariable
                        && instructions[0]->CreateVariable_0 == name);
                } else {
                    let j = choose|j: int|
                        0 <= j < instructions.skip(1).len() && (#[trigger] instructions.skip(
                            1,
                        )[j]) is CreateVariable && instructions.skip(1)[j]->CreateVariable_0
                            == name;
                    assert(instructions[j + 1] is CreateVariable && instructions[j
                        + 1]->CreateVariable_0 == name);
                }
            }
        }
        assert forall|j: int|
            0 <= j < instructions.len() && (#[trigger] instructions[j]) is CreateVariable implies
            !context.contains_key(instructions[j]->CreateVariable_0) && built.contains_key(
                instructions[j]->CreateVariable_0,
            ) && built[instructions[j]->CreateVariable_0]
                == instructions[j]->CreateVariable_1 by {
            if j == 0 {
                assert(step.context.contains_key(instructions[0]->CreateVariable_0));
            } else {
                assert(instructions.skip(1)[j - 1] == instructions[j]);
            }
        }
        assert forall|j: int, k: int|
            0 <= j < k < instructions.len() && (#[trigger] instructions[j]) is CreateVariable && (
            #[trigger] instructions[k]) is CreateVariable implies
            instructions[j]->CreateVariable_0 != instructions[k]->CreateVariable_0 by {
            assert(instructions.skip(1)[k - 1] == instructions[k]);
            if j == 0 {
                assert(step.context.contains_key(instructions[0]->CreateVariable_0));
            } else {
                assert(instructions.skip(1)[j - 1] == instructions[j]);
            }
        }
    }
}

/// Names are write-once: creating a variable whose name is already bound
/// halts the run with `RedefinedVariable`, emits nothing, and leaves the
/// store untouched — in particular the name keeps its existing value, so the
/// second value is never written.
pub proof fn lemma_redefinition_rejected(
    context: Map<Seq<char>, Seq<char>>,
    name: Seq<char>,
    value: Seq<char>,
)
    requires
        context.contains_key(name),
    ensures
        ({
            let step = spec_step(context, InstructionModel::CreateVariable(name, value));
            &&& step.error == Some(InterpreterErrorModel::RedefinedVariable(name))
            &&& step.context == context
            &&& step.context[name] == context[name]
            &&& step.emitted == Seq::<Seq<char>>::empty()
        }),
{
}

/// Ordering, generalized over the starting store: a run that fails does so
/// at a single instruction, at index `i`: every instruction before `i`
/// executed exactly once and in order — the failing run's output is exactly
/// the output of the successful run of the prefix before `i` — and nothing
/// at or after `i` had any effect.
pub proof fn lemma_run_from_failure(
    instructions: Seq<InstructionModel>,
    context: Map<Seq<char>, Seq<char>>,
) -> (i: int)
    requires
        spec_run_from(instructions, context).error is Some,
    ensures
        0 <= i < instructions.len(),
        spec_run_from(instructions.take(i), context).error is None,
        spec_step(
            spec_run_from(instructions.take(i), context).context,
            instructions[i],
        ).error == spec_run_from(instructions, context).error,
        spec_run_from(instructions, context).output == spec_run_from(
            instructions.take(i),
            context,
        ).output,
    decreases instructions.len(),
{
    assert(instructions.len() > 0);
    let step = spec_step(context, instructions[0]);
    if step.error is Some {
        assert(instructions.take(0) =~= Seq::<InstructionModel>::empty());
        0
    } else {
        let j = lemma_run_from_failure(instructions.skip(1), step.context);
        let i = j + 1;
        let prefix = instructions.take(i);
        assert(prefix[0] == instructions[0]);
        assert(prefix.skip(1) =~= instructions.skip(1).take(j));
        assert(instructions[i] == instructions.skip(1)[j]);
        i
    }
}

/// Ordering of a whole run: if running the instructions fails, it fails at
/// one instruction index, all side effects from instructions before that
/// index have occurred exactly once and in order, and no instruction at or
/// after it produced any effect.
pub proof fn lemma_run_failure_ordering(instructions: Seq<InstructionModel>) -> (i: int)
    requires
        spec_run(instructions).error is Some,
    ensures
        0 <= i < instructions.len(),
        spec_run(instructions.take(i)).error is None,
        spec_step(spec_run(instructions.take(i)).context, instructions[i]).error == spec_run(
            instructions,
        ).error,
        spec_run(instructions).output == spec_run(instructions.take(i)).output,
{
    lemma_run_from_failure(instructions, Map::empty())
}

/// The mapping denoted by an association list: every entry inserted in
/// order, so a later entry would win; well-formed stores never hold two
/// entries with one name.
spec fn entries_map(entries: Seq<(String, String)>) -> Map<Seq<char>, Seq<char>>
    decreases entries.len(),
{
    if entries.len() == 0 {
        Map::empty()
    } else {
        entries_map(entries.drop_last()).insert(entries.last().0@, entries.last().1@)
    }
}

proof fn lemma_entries_map_domain(entries: Seq<(String, String)>, name: Seq<char>)
    ensures
        entries_map(entries).contains_key(name) <==> exists|i: int|
            0 <= i < entries.len() && entries[i].0@ == name,
    decreases entries.len(),
{
    if entries.len() > 0 {
        let prefix = entries.drop_last();
        lemma_entries_map_domain(prefix, name);
        assert(forall|i: int| 0 <= i < prefix.len() ==> prefix[i] == entries[i]);
        if entries.last().0@ == name {
            assert(entries[entries.len() - 1].0@ == name);
        } else if exists|i: int| 0 <= i < entries.len() && entries[i].0@ == name {
            let i = choose|i: int| 0 <= i < entries.len() && entries[i].0@ == name;
            assert(prefix[i].0@ == name);
        }
    }
}

proof fn lemma_entries_map_get(entries: Seq<(String, String)>, i: int)
    requires
        0 <= i < entries.len(),
        forall|j: int, k: int| 0 <= j < k < entries.len() ==> entries[j].0@ != entries[k].0@,
    ensures
        entries_map(entries).contains_key(entries[i].0@),
        entries_map(entries)[entries[i].0@] == entries[i].1@,
    decreases entries.len(),
{
    let prefix = entries.drop_last();
    assert(forall|j: int| 0 <= j < prefix.len() ==> prefix[j] == entries[j]);
    if i < entries.len() - 1 {
        lemma_entries_map_get(prefix, i);
        assert(entries[i].0@ != entries[entries.len() - 1].0@);
    }
}

/// The run-scoped variable store: a write-once mapping from variable name to
/// variable value.
struct InterpreterContext {
    variables: Vec<(String, String)>,
}

impl View for InterpreterContext {
    type V = Map<Seq<char>, Seq<char>>;

    closed spec fn view(&self) -> Map<Seq<char>, Seq<char>> {
        entries_map(self.variables@)
    }
}

impl InterpreterContext {
    /// Well-formedness: bound names are pairwise distinct, so every name has
    /// exactly one binding.
    spec fn wf(&self) -> bool {
        forall|j: int, k: int|
            0 <= j < k < self.variables@.len() ==> self.variables@[j].0@ != self.variables@[k].0@
    }

    /// The fresh, empty store a run starts from.
    fn new() -> (context: InterpreterContext)
        ensures
            context.wf(),
            context@ == Map::<Seq<char>, Seq<char>>::empty(),
    {
        InterpreterContext { variables: Vec::new() }
    }

    /// Whether `name` is already bound.
    #[verifier::loop_isolation(false)]
    fn contains_name(&self, name: &String) -> (present: bool)
        ensures
            present == self@.contains_key(name@),
    {
        let mut index: usize = 0;
        while index < self.variables.len()
            invariant
                index <= self.variables@.len(),
                forall|k: int| 0 <= k < index ==> self.variables@[k].0@ != name@,
            decreases self.variables@.len() - index,
        {
            let entry = &self.variables[index];
            if entry.0 == *name {
                proof {
                    lemma_entries_map_domain(self.variables@, name@);
                }
                return true;
            }
            index += 1;
        }
        proof {
            lemma_entries_map_domain(self.variables@, name@);
        }
        false
    }

    /// The value bound to `name`, if any.
    #[verifier::loop_isolation(false)]
    fn get_value<'a>(&'a self, name: &String) -> (value: Option<&'a String>)
        requires
            self.wf(),
        ensures
            match value {
                Some(bound) => self@.contains_key(name@) && bound@ == self@[name@],
                None => !self@.contains_key(name@),
            },
    {
        let mut index: usize = 0;
        while index < self.variables.len()
            invariant
                index <= self.variables@.len(),
                forall|k: int| 0 <= k < index ==> self.variables@[k].0@ != name@,
            decreases self.variables@.len() - index,
        {
            let entry = &self.variables[index];
            if entry.0 == *name {
                proof {
                    lemma_entries_map_get(self.variables@, index as int);
                }
                return Some(&entry.1);
            }
            index += 1;
        }
        proof {
            lemma_entries_map_domain(self.variables@, name@);
        }
        None
    }

    /// Binds `name` to `value`; the caller has checked that `name` is free.
    fn bind(&mut self, variable_name: &String, variable_value: &String)
        requires
            old(self).wf(),
            !old(self)@.contains_key(variable_name@),
        ensures
            final(self).wf(),
            final(self)@ == old(self)@.insert(variable_name@, variable_value@),
    {
        proof {
            lemma_entries_map_domain(self.variables@, variable_name@);
        }
        self.variables.push((variable_name.clone(), variable_value.clone()));
        proof {
            assert(self.variables@.drop_last() =~= old(self).variables@);
            assert forall|j: int, k: int|
                0 <= j < k < self.variables@.len() implies self.variables@[j].0@
                != self.variables@[k].0@ by {
                if k == self.variables@.len() - 1 {
                    assert(self.variables@[j] == old(self).variables@[j]);
                }
            }
        }
    }
}

/// Binds a new variable; names are write-once, so an existing binding fails
/// the run and leaves the store untouched.
fn create_variable(
    context: &mut InterpreterContext,
    variable_name: &String,
    variable_value: &String,
) -> (result: Result<(), InterpreterError>)
    requires
        old(context).wf(),
    ensures
        final(context).wf(),
        match result {
            Ok(_) => !old(context)@.contains_key(variable_name@) && final(context)@ == old(
                context,
            )@.insert(variable_name@, variable_value@),
            Err(error) => old(context)@.contains_key(variable_name@) && error@
                == InterpreterErrorModel::RedefinedVariable(variable_name@) && final(context)@
                == old(context)@,
        },
{
    if context.contains_name(variable_name) {
        return Err(InterpreterError::RedefinedVariable(variable_name.clone()));
    }
    context.bind(variable_name, variable_value);
    Ok(())
}

/// Emits the value bound to a name, or fails the run if the name is unbound.
fn print_variable(
    context: &mut InterpreterContext,
    variable_name: &String,
    output: &mut Vec<String>,
) -> (result: Result<(), InterpreterError>)
    requires
        old(context).wf(),
    ensures
        final(context).wf(),
        final(context)@ == old(context)@,
        match result {
            Ok(_) => old(context)@.contains_key(variable_name@) && strings_view(final(output)@)
                == strings_view(old(output)@).push(old(context)@[variable_name@]),
            Err(error) => !old(context)@.contains_key(variable_name@) && error@
                == InterpreterErrorModel::VariableDoesNotExist(variable_name@) && final(output)@
                == old(output)@,
        },
{
    let variable_value = context.get_value(variable_name);
    match variable_value {
        Some(value) => {
            let line = value.clone();
            output.push(line);
            proof {
                assert(strings_view(output@) =~~= strings_view(old(output)@).push(
                    old(context)@[variable_name@],
                ));
            }
            Ok(())
        },
        None => Err(InterpreterError::VariableDoesNotExist(variable_name.clone())),
    }
}

/// Executes one instruction: its effect on the store and the output sink is
/// exactly one `spec_step`.
fn execute_instruction(
    context: &mut InterpreterContext,
    instruction: &Instruction,
    output: &mut Vec<String>,
) -> (result: Result<(), InterpreterError>)
    requires
        old(context).wf(),
    ensures
        final(context).wf(),
        ({
            let step = spec_step(old(context)@, instruction@);
            &&& final(context)@ == step.context
            &&& strings_view(final(output)@) == strings_view(old(output)@) + step.emitted
            &&& match result {
                Ok(_) => step.error is None,
                Err(error) => step.error == Some(error@),
            }
        }),
{
    match instruction {
        Instruction::Print(to_print) => {
            output.push(to_print.clone());
            proof {
                assert(strings_view(output@) =~~= strings_view(old(output)@) + seq![to_print@]);
            }
            Ok(())
        },
        Instruction::CreateVariable(variable_name, variable_value) => {
            let result = create_variable(context, variable_name, variable_value);
            proof {
                assert(strings_view(output@) =~~= strings_view(old(output)@) + Seq::<
                    Seq<char>,
                >::empty());
            }
            result
        },
        Instruction::PrintVariable(variable_name) => {
            let result = print_variable(context, variable_name, output);
            proof {
                if result is Ok {
                    assert(strings_view(old(output)@).push(old(context)@[variable_name@])
                        =~~= strings_view(old(output)@) + seq![old(context)@[variable_name@]]);
                } else {
                    assert(strings_view(output@) =~~= strings_view(old(output)@) + Seq::<
                        Seq<char>,
                    >::empty());
                }
            }
            result
        },
    }
}

/// Executes the instructions in order against a fresh, empty store,
/// appending one line to `output` for every executed print instruction.
/// The run halts at the first failing instruction: everything emitted before
/// the failure stays in `output`, in order, and nothing at or after the
/// failure has any effect.
#[verifier::loop_isolation(false)]
pub fn run_interpreter(instructions: &Vec<Instruction>, output: &mut Vec<String>) -> (result:
    Result<(), InterpreterError>)
    ensures
        ({
            let outcome = spec_run(instructions_view(instructions@));
            &&& strings_view(final(output)@) == strings_view(old(output)@) + outcome.output
            &&& match result {
                Ok(_) => outcome.error is None,
                Err(error) => outcome.error == Some(error@),
            }
        }),
{
    let ghost program = instructions_view(instructions@);
    let ghost base = strings_view(old(output)@);
    let mut context = InterpreterContext::new();
    let mut index: usize = 0;
    proof {
        assert(program.skip(0) =~= program);
    }
    while index < instructions.len()
        invariant
            index <= instructions@.len(),
            context.wf(),
            ({
                let outcome = spec_run(program);
                let remainder = spec_run_from(program.skip(index as int), context@);
                &&& outcome.error == remainder.error
                &&& base + outcome.output == strings_view(output@) + remainder.output
            }),
        decreases instructions@.len() - index,
    {
        let instruction = &instructions[index];
        let ghost context_before = context@;
        let ghost output_before = strings_view(output@);
        proof {
            assert(program.skip(index as int)[0] == instruction@);
            assert(program.skip(index as int).skip(1) =~= program.skip(index as int + 1));
        }
        let result = execute_instruction(&mut context, instruction, output);
        if let Err(error) = result {
            proof {
                let step = spec_step(context_before, instruction@);
                assert(spec_run(program).error == Some(error@));
                assert(output_before + Seq::<Seq<char>>::empty() =~~= output_before);
                assert(strings_view(output@) =~~= output_before);
                assert(base + spec_run(program).output =~~= strings_view(output@));
            }
            return Err(error);
        }
        proof {
            let step = spec_step(context_before, instruction@);
            let rest = spec_run_from(program.skip(index as int + 1), step.context);
            assert(base + spec_run(program).output =~~= (output_before + step.emitted)
                + rest.output);
        }
        index += 1;
    }
    proof {
        assert(program.skip(instructions@.len() as int) =~= Seq::<InstructionModel>::empty());
        assert(strings_view(output@) + Seq::<Seq<char>>::empty() =~~= strings_view(output@));
        assert(base + spec_run(program).output =~~= strings_view(output@));
    }
    Ok(())
}

} // verus!
