//! Prompts: the API combination to exercise, the current task, and recent
//! successful programs to show the generator; and how often each API has
//! been prompted.
use vstd::prelude::*;

use crate::config::{
    chat_template, for_project, get_raw_project_rules, get_user_chat_template, get_user_cot_code_template,
    get_user_cot_plan_template, get_user_gen_template, user_template, with_rules, GenerationModeP,
    LibConfig, RunConfig, ERROR_REPAIR_TEMPLATE, RAW_RULE, USER_API_COT_CODE_TEMPLATE,
    USER_API_COT_PLAN_TEMPLATE,
};
use crate::text::{replace_all, replace_str, views};

verus! {

/// An API function of the library: its name and its C signature.
pub struct FuncGadget {
    pub name: String,
    pub signature: String,
}

impl FuncGadget {
    /// The function's name.
    pub fn get_func_name(&self) -> (r: &str)
        ensures
            r@ == self.name@,
    {
        self.name.as_str()
    }

    /// The function's signature.
    pub fn gen_signature(&self) -> (r: String)
        ensures
            r@ == self.signature@,
    {
        self.signature.clone()
    }
}

/// How a program failed validation.
pub enum ProgramError {
    Syntax(String),
    Link(String),
    Execute(String),
    Hang(String),
}

/// What the generator is asked to do next.
pub enum ProgramTask {
    Generate,
    /// Chain of thought, first phase: write an execution plan.
    CotPlan,
    /// Chain of thought, second phase: write the code of a plan.
    CotCode { execution_plan: String },
    /// Repair a program that failed validation.
    Repair { failed_code: String, error: ProgramError },
}

/// Most successful examples a prompt carries.
pub const MAX_EXAMPLES: usize = 2;

/// A prompt for the generator.
pub struct Prompt {
    pub gadgets: Vec<FuncGadget>,
    /// The most recent successful programs, oldest first.
    pub successful_examples: Vec<String>,
    pub task: ProgramTask,
}

impl Prompt {
    /// A prompt over `gadgets`; it starts with a plan when chain of thought is
    /// on in API-combination mode, else with plain generation.
    pub fn new(gadgets: Vec<FuncGadget>, cot_enabled: bool, mode: GenerationModeP) -> (r: Prompt)
        ensures
            r.gadgets == gadgets,
            r.successful_examples@.len() == 0,
            (cot_enabled && mode == GenerationModeP::ApiCombination) ==> r.task is CotPlan,
            !(cot_enabled && mode == GenerationModeP::ApiCombination) ==> r.task is Generate,
    {
        let is_api = match mode {
            GenerationModeP::ApiCombination => true,
            GenerationModeP::FuzzDriver => false,
        };
        let task = if cot_enabled && is_api {
            ProgramTask::CotPlan
        } else {
            ProgramTask::Generate
        };
        Prompt { gadgets, successful_examples: Vec::new(), task }
    }

    /// Asks for a repair of `failed_code`, which failed with `error`.
    pub fn set_repair_task(&mut self, failed_code: String, error: ProgramError)
        ensures
            final(self).task == (ProgramTask::Repair { failed_code, error }),
            final(self).gadgets == old(self).gadgets,
            final(self).successful_examples == old(self).successful_examples,
    {
        self.task = ProgramTask::Repair { failed_code, error };
    }

    /// Asks for plain generation.
    pub fn set_generate_task(&mut self)
        ensures
            final(self).task is Generate,
            final(self).gadgets == old(self).gadgets,
            final(self).successful_examples == old(self).successful_examples,
    {
        self.task = ProgramTask::Generate;
    }

    /// Asks for an execution plan.
    pub fn set_cot_plan_task(&mut self)
        ensures
            final(self).task is CotPlan,
            final(self).gadgets == old(self).gadgets,
            final(self).successful_examples == old(self).successful_examples,
    {
        self.task = ProgramTask::CotPlan;
    }

    /// Asks for the code of `execution_plan`.
    pub fn set_cot_code_task(&mut self, execution_plan: String)
        ensures
            final(self).task == (ProgramTask::CotCode { execution_plan }),
            final(self).gadgets == old(self).gadgets,
            final(self).successful_examples == old(self).successful_examples,
    {
        self.task = ProgramTask::CotCode { execution_plan };
    }

    /// A prompt over `combination`, counted once more for each of its APIs.
    pub fn from_combination(
        combination: Vec<FuncGadget>,
        cot_enabled: bool,
        mode: GenerationModeP,
        counter: &mut PromptCounter,
    ) -> (r: Prompt)
        requires
            old(counter).well_formed(),
        ensures
            final(counter).well_formed(),
            forall|k: Seq<char>| #[trigger] counter_lookup(final(counter).counts@, k) == counted(
                old(counter).counts@,
                signatures_names(combination@),
                k,
            ),
            r.gadgets == combination,
            r.successful_examples@.len() == 0,
            (cot_enabled && mode == GenerationModeP::ApiCombination) ==> r.task is CotPlan,
            !(cot_enabled && mode == GenerationModeP::ApiCombination) ==> r.task is Generate,
    {
        update_prompt_counter(counter, &combination);
        Prompt::new(combination, cot_enabled, mode)
    }

    /// Replaces the API combination, counting it once more for each of its
    /// APIs.
    pub fn set_combination(&mut self, combination: Vec<FuncGadget>, counter: &mut PromptCounter)
        requires
            old(counter).well_formed(),
        ensures
            final(counter).well_formed(),
            forall|k: Seq<char>| #[trigger] counter_lookup(final(counter).counts@, k) == counted(
                old(counter).counts@,
                signatures_names(combination@),
                k,
            ),
            final(self).gadgets == combination,
            final(self).task == old(self).task,
            final(self).successful_examples == old(self).successful_examples,
    {
        update_prompt_counter(counter, &combination);
        self.gadgets = combination;
    }

    /// Remembers a successful program, dropping the oldest when
    /// `MAX_EXAMPLES` are kept already.
    pub fn add_successful_example(&mut self, example_code: String)
        ensures
            old(self).successful_examples@.len() >= MAX_EXAMPLES ==> views(final(self).successful_examples@)
                == views(old(self).successful_examples@).drop_first().push(example_code@),
            old(self).successful_examples@.len() < MAX_EXAMPLES ==> views(final(self).successful_examples@)
                == views(old(self).successful_examples@).push(example_code@),
            final(self).gadgets == old(self).gadgets,
            final(self).task == old(self).task,
    {
        let ghost before = views(self.successful_examples@);
        let ghost code = example_code@;
        if self.successful_examples.len() >= MAX_EXAMPLES {
            self.successful_examples.remove(0);
            assert(views(self.successful_examples@) =~= before.drop_first());
        }
        let ghost mid = views(self.successful_examples@);
        self.successful_examples.push(example_code);
        assert(views(self.successful_examples@) =~= mid.push(code));
    }

    /// The API combination.
    pub fn get_combination(&self) -> (r: &Vec<FuncGadget>)
        ensures
            *r == self.gadgets,
    {
        &self.gadgets
    }

    /// The API combination, to change in place.
    pub fn get_combination_mut(&mut self) -> (r: &mut Vec<FuncGadget>)
        ensures
            *r == old(self).gadgets,
            *final(r) == final(self).gadgets,
            final(self).task == old(self).task,
            final(self).successful_examples == old(self).successful_examples,
    {
        &mut self.gadgets
    }

    /// The prompt written as its combination.
    pub fn serialize(&self) -> (r: String)
        ensures
            r@ == join_with(signatures(self.gadgets@), ",\n    "@),
    {
        combination_to_str(&self.gadgets)
    }
}

/// The signatures of a combination.
pub open spec fn signatures(c: Seq<FuncGadget>) -> Seq<Seq<char>> {
    c.map_values(|g: FuncGadget| g.signature@)
}

/// The parts joined with `sep` between them.
pub open spec fn join_with(parts: Seq<Seq<char>>, sep: Seq<char>) -> Seq<char>
    decreases parts.len(),
{
    if parts.len() == 0 {
        seq![]
    } else if parts.len() == 1 {
        parts[0]
    } else {
        join_with(parts.drop_last(), sep) + sep + parts.last()
    }
}

/// The signatures of the combination, separated by `,` and a new indented
/// line.
pub fn combination_to_str(combination: &Vec<FuncGadget>) -> (r: String)
    ensures
        r@ == join_with(signatures(combination@), ",\n    "@),
{
    let mut r = String::new();
    let mut i: usize = 0;
    let ghost sep = ",\n    "@;
    while i < combination.len()
        invariant
            i <= combination@.len(),
            sep == ",\n    "@,
            r@ == join_with(signatures(combination@).subrange(0, i as int), sep),
        decreases combination@.len() - i,
    {
        let ghost before = r@;
        if i > 0 {
            r.append(",\n    ");
        }
        let sig = combination[i].gen_signature();
        r.append(sig.as_str());
        proof {
            let w = signatures(combination@).subrange(0, i + 1);
            assert(w.drop_last() =~= signatures(combination@).subrange(0, i as int));
            if i == 0 {
                assert(r@ =~= w[0]);
            } else {
                assert(r@ =~= before + sep + w.last());
            }
        }
        i += 1;
    }
    assert(signatures(combination@).subrange(0, combination@.len() as int) =~= signatures(combination@));
    r
}

/// How often each API has been prompted.
pub struct PromptCounter {
    pub counts: Vec<(String, u32)>,
}

/// The count recorded for `key`: the first entry with that name.
pub open spec fn counter_lookup(c: Seq<(String, u32)>, key: Seq<char>) -> Option<u32>
    decreases c.len(),
{
    if c.len() == 0 {
        None
    } else if c[0].0@ == key {
        Some(c[0].1)
    } else {
        counter_lookup(c.drop_first(), key)
    }
}

impl PromptCounter {
    /// Each API has at most one entry.
    pub open spec fn well_formed(&self) -> bool {
        forall|i: int, j: int| 0 <= i < j < self.counts@.len() ==> (#[trigger] self.counts@[i]).0@ != (#[trigger] self.counts@[j]).0@
    }

    /// An empty counter.
    pub fn new() -> (r: PromptCounter)
        ensures
            r.well_formed(),
            r.counts@.len() == 0,
    {
        PromptCounter { counts: Vec::new() }
    }

    /// Index of the entry for `key`.
    fn index_of(&self, key: &str) -> (r: Option<usize>)
        ensures
            r matches Some(i) ==> i < self.counts@.len() && counter_lookup(self.counts@, key@) == Some(self.counts@[i as int].1)
                && self.counts@[i as int].0@ == key@ && forall|j: int| 0 <= j < i ==> (#[trigger] self.counts@[j]).0@ != key@,
            r is None ==> counter_lookup(self.counts@, key@) is None,
    {
        let k = key.to_string();
        let mut i: usize = 0;
        assert(self.counts@.subrange(0, self.counts@.len() as int) =~= self.counts@);
        while i < self.counts.len()
            invariant
                k@ == key@,
                i <= self.counts@.len(),
                forall|j: int| 0 <= j < i ==> (#[trigger] self.counts@[j]).0@ != key@,
                counter_lookup(self.counts@, key@) == counter_lookup(self.counts@.subrange(i as int, self.counts@.len() as int), key@),
            decreases self.counts@.len() - i,
        {
            let ghost rest = self.counts@.subrange(i as int, self.counts@.len() as int);
            if self.counts[i].0 == k {
                assert(rest[0] == self.counts@[i as int]);
                return Some(i);
            }
            assert(rest.drop_first() =~= self.counts@.subrange(i + 1, self.counts@.len() as int));
            i += 1;
        }
        assert(self.counts@.subrange(i as int, self.counts@.len() as int) =~= Seq::<(String, u32)>::empty());
        None
    }
}

/// The number of times `key` has been prompted, if it has been.
pub fn get_prompt_counter_value(counter: &PromptCounter, key: &str) -> (r: Option<u32>)
    ensures
        r == counter_lookup(counter.counts@, key@),
{
    match counter.index_of(key) {
        Some(i) => Some(counter.counts[i].1),
        None => None,
    }
}

proof fn lemma_lookup_update(c: Seq<(String, u32)>, i: int, key: Seq<char>, v: u32, other: Seq<char>, s: String)
    requires
        0 <= i < c.len(),
        c[i].0@ == key,
        forall|j: int| 0 <= j < i ==> (#[trigger] c[j]).0@ != key,
        s@ == key,
    ensures
        counter_lookup(c.update(i, (s, v)), other) == if other == key { Some(v) } else { counter_lookup(c, other) },
    decreases c.len(),
{
    let u = c.update(i, (s, v));
    if i == 0 {
        assert(u.drop_first() =~= c.drop_first());
    } else {
        assert(c[0].0@ != key);
        assert(u[0] == c[0]);
        assert(u.drop_first() =~= c.drop_first().update(i - 1, (s, v)));
        if c[0].0@ != other {
            assert forall|j: int| 0 <= j < i - 1 implies (#[trigger] c.drop_first()[j]).0@ != key by {
                assert(c[j + 1].0@ != key);
            }
            lemma_lookup_update(c.drop_first(), i - 1, key, v, other, s);
        }
    }
}

proof fn lemma_lookup_push(c: Seq<(String, u32)>, e: (String, u32), other: Seq<char>)
    requires
        counter_lookup(c, e.0@) is None,
    ensures
        counter_lookup(c.push(e), other) == if other == e.0@ { Some(e.1) } else { counter_lookup(c, other) },
    decreases c.len(),
{
    if c.len() > 0 {
        assert(c.push(e).drop_first() =~= c.drop_first().push(e));
        assert(c.push(e)[0] == c[0]);
        assert(c[0].0@ != e.0@);
        if c[0].0@ != other {
            assert(counter_lookup(c, e.0@) == counter_lookup(c.drop_first(), e.0@));
            lemma_lookup_push(c.drop_first(), e, other);
            assert(counter_lookup(c.push(e), other) == counter_lookup(c.push(e).drop_first(), other));
            assert(counter_lookup(c, other) == counter_lookup(c.drop_first(), other));
        } else {
            assert(counter_lookup(c.push(e), other) == Some(c[0].1));
            assert(counter_lookup(c, other) == Some(c[0].1));
        }
    } else {
        assert(c.push(e).drop_first() =~= Seq::<(String, u32)>::empty());
        assert(c.push(e)[0] == e);
        assert(counter_lookup(c, other) is None);
        if other != e.0@ {
            assert(counter_lookup(c.push(e), other) == counter_lookup(c.push(e).drop_first(), other));
        }
    }
}

proof fn lemma_lookup_none(c: Seq<(String, u32)>, key: Seq<char>, i: int)
    requires
        counter_lookup(c, key) is None,
        0 <= i < c.len(),
    ensures
        c[i].0@ != key,
    decreases c.len(),
{
    if i > 0 && c[0].0@ != key {
        assert(c.drop_first()[i - 1] == c[i]);
        lemma_lookup_none(c.drop_first(), key, i - 1);
    }
}

/// Records that `key` has been prompted `value` times.
pub fn set_prompt_counter_value(counter: &mut PromptCounter, key: String, value: u32)
    requires
        old(counter).well_formed(),
    ensures
        final(counter).well_formed(),
        forall|k: Seq<char>| #[trigger] counter_lookup(final(counter).counts@, k) == if k == key@ {
            Some(value)
        } else {
            counter_lookup(old(counter).counts@, k)
        },
{
    let ghost c0 = counter.counts@;
    match counter.index_of(key.as_str()) {
        Some(i) => {
            let ghost kv = key@;
            let ghost e = (key, value);
            counter.counts.set(i, (key, value));
            proof {
                assert forall|a: int, b: int| 0 <= a < b < counter.counts@.len() implies (#[trigger] counter.counts@[a]).0@ != (#[trigger] counter.counts@[b]).0@ by {
                    assert(c0[a].0@ != c0[b].0@);
                }
                assert forall|k: Seq<char>| #[trigger] counter_lookup(counter.counts@, k) == if k == kv { Some(value) } else { counter_lookup(c0, k) } by {
                    lemma_lookup_update(c0, i as int, kv, value, k, e.0);
                    assert(counter.counts@ == c0.update(i as int, (e.0, value)));
                }
            }
        },
        None => {
            let ghost kv = key@;
            let ghost e = (key, value);
            counter.counts.push((key, value));
            proof {
                assert forall|a: int, b: int| 0 <= a < b < counter.counts@.len() implies (#[trigger] counter.counts@[a]).0@ != (#[trigger] counter.counts@[b]).0@ by {
                    if b == c0.len() {
                        lemma_lookup_none(c0, kv, a);
                        assert(counter.counts@[a] == c0[a]);
                    } else {
                        assert(c0[a].0@ != c0[b].0@);
                    }
                }
                assert forall|k: Seq<char>| #[trigger] counter_lookup(counter.counts@, k) == if k == kv { Some(value) } else { counter_lookup(c0, k) } by {
                    lemma_lookup_push(c0, e, k);
                    assert(counter.counts@ == c0.push(e));
                }
            }
        },
    }
}

/// How often `k` occurs in `names`.
pub open spec fn occurrences_of(names: Seq<Seq<char>>, k: Seq<char>) -> nat
    decreases names.len(),
{
    if names.len() == 0 {
        0
    } else {
        occurrences_of(names.drop_last(), k) + if names.last() == k { 1nat } else { 0nat }
    }
}

/// A count raised by `m` from `old` (0 when absent), stopping at the
/// largest value.
pub open spec fn raised(old: Option<u32>, m: nat) -> u32 {
    let base = match old {
        Some(v) => v as int,
        None => 0,
    };
    if base + m > u32::MAX { u32::MAX } else { (base + m) as u32 }
}

/// The count of `k` after counting the names `names` from counts `c`.
pub open spec fn counted(c: Seq<(String, u32)>, names: Seq<Seq<char>>, k: Seq<char>) -> Option<u32> {
    if occurrences_of(names, k) > 0 {
        Some(raised(counter_lookup(c, k), occurrences_of(names, k)))
    } else {
        counter_lookup(c, k)
    }
}

/// Counts one more prompt of each API of the combination: an API that
/// occurs `m` times gains `m` (a count stays at its largest value), and the
/// counts of other APIs are unchanged.
pub fn update_prompt_counter(counter: &mut PromptCounter, combination: &Vec<FuncGadget>)
    requires
        old(counter).well_formed(),
    ensures
        final(counter).well_formed(),
        forall|k: Seq<char>| #[trigger] counter_lookup(final(counter).counts@, k) == counted(
            old(counter).counts@,
            signatures_names(combination@),
            k,
        ),
{
    let ghost c0 = counter.counts@;
    let ghost names = signatures_names(combination@);
    let mut i: usize = 0;
    assert(names.subrange(0, 0) =~= Seq::<Seq<char>>::empty());
    while i < combination.len()
        invariant
            i <= combination@.len(),
            names == signatures_names(combination@),
            counter.well_formed(),
            forall|k: Seq<char>| #[trigger] counter_lookup(counter.counts@, k) == counted(c0, names.subrange(0, i as int), k),
        decreases combination@.len() - i,
    {
        let name = combination[i].get_func_name();
        let count = match get_prompt_counter_value(counter, name) {
            Some(c) => c,
            None => 0,
        };
        let next = if count < u32::MAX { count + 1 } else { count };
        set_prompt_counter_value(counter, name.to_string(), next);
        proof {
            let pre = names.subrange(0, i as int);
            let post = names.subrange(0, i + 1);
            assert(post.drop_last() =~= pre);
            assert(post.last() == name@);
            assert forall|k: Seq<char>| #[trigger] counter_lookup(counter.counts@, k) == counted(c0, post, k) by {
                assert(occurrences_of(post, k) == occurrences_of(pre, k) + if name@ == k { 1nat } else { 0nat });
            }
        }
        i += 1;
    }
    assert(names.subrange(0, combination@.len() as int) =~= names);
}

/// The function names of a combination.
pub open spec fn signatures_names(c: Seq<FuncGadget>) -> Seq<Seq<char>> {
    c.map_values(|g: FuncGadget| g.name@)
}


/// The block of successful examples shown to the generator, empty when
/// there are none.
pub open spec fn examples_block(ex: Seq<Seq<char>>) -> Seq<char> {
    if ex.len() == 0 {
        seq![]
    } else {
        "Here are some successful examples:\n```cpp\n"@ + join_with(ex, "\n\n---\n\n"@) + "\n```"@
    }
}

/// The kind and the details of a validation failure, as the repair prompt
/// names them.
pub open spec fn error_parts(e: ProgramError) -> (Seq<char>, Seq<char>) {
    match e {
        ProgramError::Syntax(d) => ("Syntax Error"@, d@),
        ProgramError::Link(d) => ("Link Error"@, d@),
        ProgramError::Execute(d) => ("Execution Error"@, d@),
        ProgramError::Hang(d) => ("Execution Hang"@, d@),
    }
}

/// `s` with `slot` filled by `v`.
pub open spec fn fill(s: Seq<char>, slot: Seq<char>, v: Seq<char>) -> Seq<char> {
    replace_all(s, slot, v)
}

/// The user message of a prompt.
pub open spec fn user_message_of(p: Prompt, config: &RunConfig, lib: &LibConfig, landmark: &Option<String>) -> Seq<char> {
    let combos = join_with(signatures(p.gadgets@), ",\n    "@);
    let ex = examples_block(views(p.successful_examples@));
    if config.generation_mode == GenerationModeP::FuzzDriver {
        fill(chat_template(config, lib, landmark), "{combinations}"@, combos)
    } else {
        match p.task {
            ProgramTask::Generate => fill(fill(user_template(config), "{combinations}"@, combos), "{successful_examples}"@, ex),
            ProgramTask::CotPlan => fill(for_project(USER_API_COT_PLAN_TEMPLATE@, config.target@), "{combinations}"@, combos),
            ProgramTask::CotCode { execution_plan } => fill(
                fill(
                    fill(for_project(USER_API_COT_CODE_TEMPLATE@, config.target@), "{execution_plan}"@, execution_plan@),
                    "{project_rules}"@,
                    with_rules(RAW_RULE@, config.target@, false),
                ),
                "{successful_examples}"@,
                ex,
            ),
            ProgramTask::Repair { failed_code, error } => fill(
                fill(fill(ERROR_REPAIR_TEMPLATE@, "{error_code}"@, failed_code@), "{error_type}"@, error_parts(error).0),
                "{error_details}"@,
                error_parts(error).1,
            ),
        }
    }
}

/// The strings joined with `sep` between them.
fn join_strs(parts: &Vec<String>, sep: &str) -> (r: String)
    ensures
        r@ == join_with(views(parts@), sep@),
{
    let mut r = String::new();
    let mut i: usize = 0;
    while i < parts.len()
        invariant
            i <= parts@.len(),
            r@ == join_with(views(parts@).subrange(0, i as int), sep@),
        decreases parts@.len() - i,
    {
        let ghost before = r@;
        if i > 0 {
            r.append(sep);
        }
        r.append(parts[i].as_str());
        proof {
            let w = views(parts@).subrange(0, i + 1);
            assert(w.drop_last() =~= views(parts@).subrange(0, i as int));
            if i == 0 {
                assert(r@ =~= w[0]);
            } else {
                assert(r@ =~= before + sep@ + w.last());
            }
        }
        i += 1;
    }
    assert(views(parts@).subrange(0, parts@.len() as int) =~= views(parts@));
    r
}

/// The examples block of `ex`.
fn examples_text(ex: &Vec<String>) -> (r: String)
    ensures
        r@ == examples_block(views(ex@)),
{
    if ex.len() == 0 {
        return String::new();
    }
    let mut r = String::new();
    r.append("Here are some successful examples:\n```cpp\n");
    let body = join_strs(ex, "\n\n---\n\n");
    r.append(body.as_str());
    r.append("\n```");
    r
}

impl Prompt {
    /// The message the user sends the generator for this prompt: the
    /// template of the mode and task, with the combination, the examples,
    /// the plan, the rules or the failure filled in.
    pub fn user_message(&self, config: &RunConfig, lib: &LibConfig, landmark: &Option<String>) -> (r: String)
        ensures
            r@ == user_message_of(*self, config, lib, landmark),
    {
        proof {
            reveal_strlit("{combinations}");
            reveal_strlit("{successful_examples}");
            reveal_strlit("{execution_plan}");
            reveal_strlit("{project_rules}");
            reveal_strlit("{error_code}");
            reveal_strlit("{error_type}");
            reveal_strlit("{error_details}");
        }
        let combos = combination_to_str(&self.gadgets);
        let is_driver = match config.generation_mode {
            GenerationModeP::FuzzDriver => true,
            GenerationModeP::ApiCombination => false,
        };
        if is_driver {
            let t = get_user_chat_template(config, lib, landmark);
            return replace_str(t.as_str(), "{combinations}", combos.as_str());
        }
        match &self.task {
            ProgramTask::Generate => {
                let ex = examples_text(&self.successful_examples);
                let t = get_user_gen_template(config);
                let t = replace_str(t.as_str(), "{combinations}", combos.as_str());
                replace_str(t.as_str(), "{successful_examples}", ex.as_str())
            },
            ProgramTask::CotPlan => {
                let t = get_user_cot_plan_template(config);
                replace_str(t.as_str(), "{combinations}", combos.as_str())
            },
            ProgramTask::CotCode { execution_plan } => {
                let ex = examples_text(&self.successful_examples);
                let rules = get_raw_project_rules(config.target.as_str());
                let t = get_user_cot_code_template(config);
                let t = replace_str(t.as_str(), "{execution_plan}", execution_plan.as_str());
                let t = replace_str(t.as_str(), "{project_rules}", rules.as_str());
                replace_str(t.as_str(), "{successful_examples}", ex.as_str())
            },
            ProgramTask::Repair { failed_code, error } => {
                let (kind, details) = match error {
                    ProgramError::Syntax(d) => ("Syntax Error", d),
                    ProgramError::Link(d) => ("Link Error", d),
                    ProgramError::Execute(d) => ("Execution Error", d),
                    ProgramError::Hang(d) => ("Execution Hang", d),
                };
                let t = replace_str(ERROR_REPAIR_TEMPLATE, "{error_code}", failed_code.as_str());
                let t = replace_str(t.as_str(), "{error_type}", kind);
                replace_str(t.as_str(), "{error_details}", details.as_str())
            },
        }
    }
}
} // verus!
