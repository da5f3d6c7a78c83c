use vstd::prelude::*;
use itertools::Itertools;
use crate::statement::model::match_sequence;
use crate::statement::statement::{Statement, Atom, seq_model};
use crate::statement::collection::{Collection, Sequence};
use crate::statement::frame::{Frame, frames_view, all_wf};

verus! {

/// A program: its goals, grouped by name in the order they were written.
#[derive(Debug)]
pub struct Program {
    goals: Vec<(String, Vec<Goal>)>,
}

/// What a rule does when its conditions hold.
#[derive(Debug, PartialEq, Eq, Structural)]
pub struct Action;

/// What a rule tests.
#[derive(Debug, PartialEq, Eq, Structural)]
pub struct Condition;

/// A rule of a goal: conditions, then actions.
#[derive(Debug)]
pub struct Rule {
    conditions: Vec<Condition>,
    actions: Vec<Action>,
}

/// The head of a goal: its name and its parameters.
#[derive(Debug)]
pub struct Head {
    name: Atom,
    arguments: Sequence,
}

/// A goal: a head and the rules of its body.
#[derive(Debug)]
pub struct Goal {
    head: Head,
    body: Vec<Rule>,
}

/// The concatenation of the goals of each group, in order.
pub open spec fn grouped_goals(groups: Seq<(String, Vec<Goal>)>) -> Seq<Goal>
    decreases groups.len(),
{
    if groups.len() == 0 {
        Seq::empty()
    } else {
        grouped_goals(groups.drop_last()) + groups.last().1@
    }
}

/// `goals` split into runs of consecutive goals of one name: every group is
/// nonempty, names its goals' name, and differs in name from the group before it;
/// together the groups hold the goals in order.
pub open spec fn groups_by_name(groups: Seq<(String, Vec<Goal>)>, goals: Seq<Goal>) -> bool {
    &&& grouped_goals(groups) == goals
    &&& forall|i: int| 0 <= i < groups.len() ==> (#[trigger] groups[i]).1@.len() > 0
    &&& forall|i: int, j: int| 0 <= i < groups.len() && 0 <= j < groups[i].1@.len() ==> (#[trigger] groups[i].1@[j]).head().name().0@ == groups[i].0@
    &&& forall|i: int| 0 < i < groups.len() ==> (#[trigger] groups[i]).0@ != groups[i - 1].0@
}

/// Splits `goals` into runs of consecutive goals of one name with
/// `Itertools::group_by`, keyed by each goal's name. The crate's documentation
/// promises that consecutive elements with equal keys fall in one group; this
/// contract states that, and that each group's key is its goals' name.
#[verifier::external_body]
fn group_goals(goals: Vec<Goal>) -> (r: Vec<(String, Vec<Goal>)>)
    ensures
        groups_by_name(r@, goals@),
{
    goals.into_iter().group_by(|goal| goal.get_name()).into_iter().map(|(name, group)| (name, group.collect())).collect()
}

impl Head {
    /// A head named `name` with parameters `arguments`.
    pub fn new(name: Atom, arguments: Vec<Statement>) -> (r: Head)
        ensures
            r.name() == name,
            r.arguments() == arguments@,
    {
        Head { name, arguments: Collection::new(arguments) }
    }

    /// The head's name.
    pub closed spec fn name(&self) -> Atom {
        self.name
    }

    /// The head's parameters.
    pub closed spec fn arguments(&self) -> Seq<Statement> {
        self.arguments.items@
    }

    /// The number of parameters.
    pub fn len(&self) -> (r: usize)
        ensures
            r == self.arguments().len(),
    {
        self.arguments.len()
    }
}

impl Default for Head {
    fn default() -> (r: Head)
        ensures
            r.name().0@ == Seq::<char>::empty(),
            r.arguments() == Seq::<Statement>::empty(),
    {
        Head { name: Atom::default(), arguments: Collection::default() }
    }
}

impl Default for Goal {
    fn default() -> (r: Goal)
        ensures
            r.head().name().0@ == Seq::<char>::empty(),
            r.head().arguments() == Seq::<Statement>::empty(),
            r.body() == Seq::<Rule>::empty(),
    {
        Goal { head: Head::default(), body: Vec::new() }
    }
}

/// Heads are equal when their names are.
impl PartialEq for Head {
    fn eq(&self, other: &Head) -> (r: bool) {
        self.name.0 == other.name.0
    }
}

impl vstd::std_specs::cmp::PartialEqSpecImpl for Head {
    open spec fn obeys_eq_spec() -> bool {
        true
    }

    open spec fn eq_spec(&self, other: &Head) -> bool {
        self.name().0@ == other.name().0@
    }
}

/// Rules are equal when they have as many conditions and as many actions; conditions
/// are all alike, and so are actions.
impl PartialEq for Rule {
    fn eq(&self, other: &Rule) -> (r: bool) {
        let r = self.conditions.len() == other.conditions.len() && self.actions.len() == other.actions.len();
        proof {
            if r {
                assert(self.conditions@ =~= other.conditions@);
                assert(self.actions@ =~= other.actions@);
            }
        }
        r
    }
}

impl vstd::std_specs::cmp::PartialEqSpecImpl for Rule {
    open spec fn obeys_eq_spec() -> bool {
        true
    }

    open spec fn eq_spec(&self, other: &Rule) -> bool {
        self.conditions() == other.conditions() && self.actions() == other.actions()
    }
}

/// Goals are equal when their heads are (by name) and their bodies hold equal rules,
/// position by position.
impl PartialEq for Goal {
    fn eq(&self, other: &Goal) -> (r: bool) {
        if !(self.head == other.head) || self.body.len() != other.body.len() {
            return false;
        }
        let mut i: usize = 0;
        while i < self.body.len()
            invariant
                i <= self.body@.len(),
                self.body@.len() == other.body@.len(),
                forall|j: int| 0 <= j < i ==> (#[trigger] self.body@[j]).conditions() == other.body@[j].conditions()
                    && self.body@[j].actions() == other.body@[j].actions(),
            decreases self.body@.len() - i,
        {
            if !(self.body[i] == other.body[i]) {
                return false;
            }
            i = i + 1;
        }
        true
    }
}

impl vstd::std_specs::cmp::PartialEqSpecImpl for Goal {
    open spec fn obeys_eq_spec() -> bool {
        true
    }

    open spec fn eq_spec(&self, other: &Goal) -> bool {
        &&& self.head().name().0@ == other.head().name().0@
        &&& self.body().len() == other.body().len()
        &&& forall|j: int| 0 <= j < self.body().len() ==> (#[trigger] self.body()[j]).conditions() == other.body()[j].conditions()
            && self.body()[j].actions() == other.body()[j].actions()
    }
}

impl Rule {
    /// A rule with these conditions and actions.
    pub fn new(conditions: Vec<Condition>, actions: Vec<Action>) -> (r: Rule)
        ensures
            r.conditions() == conditions@,
            r.actions() == actions@,
    {
        Rule { conditions, actions }
    }

    /// The rule's conditions.
    pub closed spec fn conditions(&self) -> Seq<Condition> {
        self.conditions@
    }

    /// The rule's actions.
    pub closed spec fn actions(&self) -> Seq<Action> {
        self.actions@
    }
}

impl Goal {
    /// A goal with this head and body.
    pub fn new(head: Head, body: Vec<Rule>) -> (r: Goal)
        ensures
            r.head() == head,
            r.body() == body@,
    {
        Goal { head, body }
    }

    /// The goal's head.
    pub closed spec fn head(&self) -> Head {
        self.head
    }

    /// The rules of the goal's body.
    pub closed spec fn body(&self) -> Seq<Rule> {
        self.body@
    }

    /// The goal's name, the name of its head.
    pub fn get_name(&self) -> (r: String)
        ensures
            r@ == self.head().name().0@,
    {
        self.head.name.0.clone()
    }

    /// The frames in which the goal's parameters match `input`, starting from no bindings.
    pub fn match_head(&self, input: &Sequence) -> (r: Vec<Frame>)
        requires
            match_sequence(seq_model(self.head().arguments()), seq_model(input.items@), Map::empty()) is Some,
        ensures
            all_wf(r@),
            frames_view(r@) == match_sequence(seq_model(self.head().arguments()), seq_model(input.items@), Map::empty()).unwrap(),
    {
        let frame = Frame::new();
        Frame::evaluate_sequence(&self.head.arguments.as_ref(), &input.as_ref(), &frame)
    }

    /// Whether the goal's parameters can be matched against `input`, so that
    /// `match_head` and `evaluate` may be called with it.
    pub fn can_match(&self, input: &Sequence) -> (r: bool)
        ensures
            r == match_sequence(seq_model(self.head().arguments()), seq_model(input.items@), Map::empty()) is Some,
    {
        let frame = Frame::new();
        Frame::can_match_sequences(&self.head.arguments.as_ref(), &input.as_ref(), &frame)
    }

    /// Evaluates the goal against `input`: its parameters are matched against the
    /// input, and no action is chosen.
    pub fn evaluate(&self, input: &Sequence) -> (r: Option<Action>)
        requires
            match_sequence(seq_model(self.head().arguments()), seq_model(input.items@), Map::empty()) is Some,
        ensures
            r is None,
    {
        let _frames = self.match_head(input);
        None
    }
}

impl Program {
    /// A program of `goals`, grouped into runs of consecutive goals of one name.
    pub fn new(goals: Vec<Goal>) -> (r: Program)
        ensures
            groups_by_name(r.goals(), goals@),
    {
        Program { goals: group_goals(goals) }
    }

    /// The groups of goals, in order, each with its name.
    pub closed spec fn goals(&self) -> Seq<(String, Vec<Goal>)> {
        self.goals@
    }

    /// The one observation given, or an error when there are more or none.
    pub fn interpret_observation(observation: Vec<Sequence>) -> (r: Result<Sequence, &'static str>)
        ensures
            observation@.len() == 1 ==> r == Ok::<Sequence, &'static str>(observation@[0]),
            observation@.len() > 1 ==> (r matches Err(e) && e@ == "Received more than one observation to parse."@),
            observation@.len() == 0 ==> (r matches Err(e) && e@ == "Received no observations to parse."@),
    {
        let mut observation = observation;
        if observation.len() > 1 {
            return Err("Received more than one observation to parse.");
        }
        match observation.pop() {
            Some(seq) => Ok(seq),
            None => Err("Received no observations to parse."),
        }
    }

    /// Whether the program can be evaluated against `input`: it has a group of goals,
    /// and each goal of the first group can be matched against the input.
    pub fn can_evaluate(&self, input: &Sequence) -> (r: bool)
        ensures
            r == (self.goals().len() > 0 && forall|j: int| 0 <= j < self.goals()[0].1@.len() ==> match_sequence(
                seq_model((#[trigger] self.goals()[0].1@[j]).head().arguments()),
                seq_model(input.items@),
                Map::empty(),
            ) is Some),
    {
        if self.goals.len() == 0 {
            return false;
        }
        let top_goals = &self.goals[0].1;
        let mut i: usize = 0;
        while i < top_goals.len()
            invariant
                i <= top_goals@.len(),
                self.goals().len() > 0,
                top_goals@ == self.goals()[0].1@,
                forall|j: int| 0 <= j < i ==> match_sequence(
                    seq_model((#[trigger] top_goals@[j]).head().arguments()),
                    seq_model(input.items@),
                    Map::empty(),
                ) is Some,
            decreases top_goals@.len() - i,
        {
            if !top_goals[i].can_match(input) {
                return false;
            }
            i = i + 1;
        }
        true
    }

    /// The frames in which each goal of the first group matches `input`, goal by goal:
    /// what evaluating the program goes through before it chooses an action.
    pub fn head_matches(&self, input: &Sequence) -> (r: Vec<Vec<Frame>>)
        requires
            self.goals().len() > 0,
            forall|j: int| 0 <= j < self.goals()[0].1@.len() ==> match_sequence(
                seq_model((#[trigger] self.goals()[0].1@[j]).head().arguments()),
                seq_model(input.items@),
                Map::empty(),
            ) is Some,
        ensures
            r@.len() == self.goals()[0].1@.len(),
            forall|j: int| 0 <= j < r@.len() ==> all_wf(#[trigger] r@[j]@) && frames_view(r@[j]@) == match_sequence(
                seq_model(self.goals()[0].1@[j].head().arguments()),
                seq_model(input.items@),
                Map::empty(),
            ).unwrap(),
    {
        let top_goals = &self.goals[0].1;
        let mut result: Vec<Vec<Frame>> = Vec::new();
        let mut i: usize = 0;
        while i < top_goals.len()
            invariant
                i <= top_goals@.len(),
                top_goals@ == self.goals()[0].1@,
                result@.len() == i,
                forall|j: int| 0 <= j < top_goals@.len() ==> match_sequence(
                    seq_model((#[trigger] top_goals@[j]).head().arguments()),
                    seq_model(input.items@),
                    Map::empty(),
                ) is Some,
                forall|j: int| 0 <= j < i ==> all_wf(#[trigger] result@[j]@) && frames_view(result@[j]@) == match_sequence(
                    seq_model(top_goals@[j].head().arguments()),
                    seq_model(input.items@),
                    Map::empty(),
                ).unwrap(),
            decreases top_goals@.len() - i,
        {
            let frames = top_goals[i].match_head(input);
            result.push(frames);
            i = i + 1;
        }
        result
    }

    /// Evaluates the first group of goals against `input`: each goal in turn is
    /// matched, and as none chooses an action, the evaluation fails.
    pub fn evaluate(&self, input: Sequence) -> (r: Result<Action, &'static str>)
        requires
            self.goals().len() > 0,
            forall|j: int| 0 <= j < self.goals()[0].1@.len() ==> match_sequence(
                seq_model((#[trigger] self.goals()[0].1@[j]).head().arguments()),
                seq_model(input.items@),
                Map::empty(),
            ) is Some,
        ensures
            r matches Err(e) && e@ == "Failed to obtain an action, did you forget to use the default rule?"@,
    {
        let top_goals = &self.goals[0].1;
        let mut i: usize = 0;
        while i < top_goals.len()
            invariant
                i <= top_goals@.len(),
                top_goals@ == self.goals()[0].1@,
                forall|j: int| 0 <= j < top_goals@.len() ==> match_sequence(
                    seq_model((#[trigger] top_goals@[j]).head().arguments()),
                    seq_model(input.items@),
                    Map::empty(),
                ) is Some,
            decreases top_goals@.len() - i,
        {
            if let Some(action) = top_goals[i].evaluate(&input) {
                return Ok(action);
            }
            i = i + 1;
        }
        Err("Failed to obtain an action, did you forget to use the default rule?")
    }
}

} // verus!
