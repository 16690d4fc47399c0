//! What every solver shares: the messages it reports with, and the loop over
//! the materials of a problem.

pub mod grouping;
pub mod naive_solver;

use crate::modeling::{
    countable_by_pattern, distinct_materials, lemma_countable, CutListView, Material, MaterialMap,
    Problem, Solution, SubProblem, SubSolution,
};
use crate::solvers::grouping::{
    group, grouped, lemma_grouped_countable, lemma_grouped_indices_in_range,
};
use async_channel::Sender;
use vstd::prelude::*;

verus! {

/// The sending side of a channel of the `async_channel` crate.
#[verifier::external_type_specification]
#[verifier::external_body]
#[verifier::reject_recursive_types(T)]
pub struct ExSender<T>(Sender<T>);

/// How far a run has come: `completed` of `total` steps, never more than
/// all of them.
#[derive(Clone, Copy, Debug, PartialEq, Eq)]
pub struct Progress {
    completed: u128,
    total: u128,
}

impl Progress {
    #[verifier::type_invariant]
    spec fn well_formed(&self) -> bool {
        self.completed <= self.total
    }

    /// The number of steps taken.
    pub closed spec fn spec_completed(&self) -> u128 {
        self.completed
    }

    /// The number of steps to take.
    pub closed spec fn spec_total(&self) -> u128 {
        self.total
    }

    /// `completed` of `total` steps.
    pub fn new(completed: u128, total: u128) -> (r: Option<Progress>)
        ensures
            r is Some <==> completed <= total,
            r matches Some(p) ==> p.spec_completed() == completed && p.spec_total() == total,
    {
        if completed <= total {
            Some(Progress { completed, total })
        } else {
            None
        }
    }

    /// All steps taken.
    pub fn finished() -> (r: Progress)
        ensures
            r.spec_completed() == 1,
            r.spec_total() == 1,
    {
        Progress { completed: 1, total: 1 }
    }

    /// The number of steps taken, which is at most `total()`.
    pub fn completed(&self) -> (r: u128)
        ensures
            r == self.spec_completed(),
            r <= self.spec_total(),
    {
        proof {
            use_type_invariant(self);
        }
        self.completed
    }

    /// The number of steps to take.
    pub fn total(&self) -> (r: u128)
        ensures
            r == self.spec_total(),
    {
        self.total
    }
}

/// Why a sub-problem was not solved.
#[derive(Clone, Copy, Debug, PartialEq, Eq, Structural)]
pub enum SubProblemError {
    /// No supply that is long enough has a piece left for some part.
    InsufficientSize,
    /// A length in the plan is not a fraction of two 64-bit integers.
    Unrepresentable,
    /// The receiving side of the channel is gone.
    ChannelClosed,
}

impl SubProblemError {
    /// The reason in words.
    pub open spec fn text(&self) -> Seq<char> {
        match *self {
            SubProblemError::InsufficientSize => "No materials available with sufficient size"@,
            SubProblemError::Unrepresentable => "A length is too fine or too large to compute with"@,
            SubProblemError::ChannelClosed => "Channel closed"@,
        }
    }

    /// The reason in words.
    pub fn description(&self) -> (r: &'static str)
        ensures
            r@ == self.text(),
    {
        match *self {
            SubProblemError::InsufficientSize => "No materials available with sufficient size",
            SubProblemError::Unrepresentable => "A length is too fine or too large to compute with",
            SubProblemError::ChannelClosed => "Channel closed",
        }
    }
}

/// Why a problem was not solved.
#[derive(Debug, PartialEq, Eq)]
pub enum SolveError {
    /// The sub-problem of the material with this name failed.
    Material { name: String, reason: SubProblemError },
    /// The receiving side of the channel is gone.
    ChannelClosed,
}

impl SolveError {
    /// The failure in words, with the name of the material where there is
    /// one.
    pub fn message(&self) -> (r: String)
        ensures
            r@ == match *self {
                SolveError::Material { name, reason } => "Error for material \""@ + name@ + "\": "@
                    + reason.text(),
                SolveError::ChannelClosed => "Channel closed"@,
            },
    {
        match self {
            SolveError::Material { name, reason } => {
                let mut text = String::from_str("Error for material \"");
                text.append(name.as_str());
                text.append("\": ");
                text.append(reason.description());
                text
            },
            SolveError::ChannelClosed => String::from_str("Channel closed"),
        }
    }
}

impl Clone for SolveError {
    fn clone(&self) -> (r: Self)
        ensures
            r == *self,
    {
        match self {
            SolveError::Material { name, reason } => SolveError::Material {
                name: name.clone(),
                reason: *reason,
            },
            SolveError::ChannelClosed => SolveError::ChannelClosed,
        }
    }
}

/// What a solver tells the other side of the channel.
#[derive(Debug)]
pub enum Message {
    /// How many of the materials are done.
    Progress(Progress),
    /// How many of the units of the material at hand are placed.
    SubProgress(Progress),
    /// The outcome; the last message of a run.
    Results(Result<Solution, SolveError>),
}

/// Sends `message` and waits until the channel has taken it.
///
/// Trusted: calls `async_channel::Sender::send_blocking` and tells whether
/// it returned `Ok`. Whether it does depends on the other side of the
/// channel, so nothing is claimed of the result.
#[verifier::external_body]
fn send_blocking(sender: &Sender<Message>, message: Message) -> (delivered: bool) {
    sender.send_blocking(message).is_ok()
}

/// Where a solver reports to: a channel or nobody, with a record of the
/// messages that were taken, in their order.
pub struct Reporter {
    sender: Option<Sender<Message>>,
    sent: Ghost<Seq<Message>>,
    refused: Ghost<Seq<Message>>,
}

impl Reporter {
    /// The messages handed over so far: to the channel where there is one,
    /// which took them; else to nobody.
    pub closed spec fn sent(&self) -> Seq<Message> {
        self.sent@
    }

    /// The messages that the channel did not take because it was closed,
    /// in their order.
    pub closed spec fn refused(&self) -> Seq<Message> {
        self.refused@
    }

    /// Whether there is a channel.
    pub closed spec fn has_sender(&self) -> bool {
        self.sender is Some
    }

    /// A reporter to the given channel, or to nobody.
    pub fn new(sender: Option<Sender<Message>>) -> (r: Reporter)
        ensures
            r.sent() == Seq::<Message>::empty(),
            r.refused() == Seq::<Message>::empty(),
            r.has_sender() == (sender is Some),
    {
        Reporter { sender, sent: Ghost(Seq::empty()), refused: Ghost(Seq::empty()) }
    }

    /// Whether there is a channel.
    pub fn is_connected(&self) -> (r: bool)
        ensures
            r == self.has_sender(),
    {
        self.sender.is_some()
    }

    /// Hands `message` to the channel and waits until the channel has taken
    /// it. Tells whether it has: a closed channel takes nothing. Without a
    /// channel the message goes to nobody, which does not fail.
    pub fn send(&mut self, message: Message) -> (delivered: bool)
        ensures
            taken_or_refused(*old(self), *final(self), message, delivered),
    {
        let ghost handed = message;
        let delivered = match &self.sender {
            Some(channel) => send_blocking(channel, message),
            None => true,
        };
        proof {
            if delivered {
                self.sent@ = self.sent@.push(handed);
            } else {
                self.refused@ = self.refused@.push(handed);
            }
        }
        delivered
    }
}

/// What handing over a message does to a reporter: the message is behind
/// those taken, or, only where there is a channel, behind those refused.
pub open spec fn taken_or_refused(
    before: Reporter,
    after: Reporter,
    message: Message,
    delivered: bool,
) -> bool {
    &&& after.has_sender() == before.has_sender()
    &&& !before.has_sender() ==> delivered
    &&& after.sent() == if delivered {
        before.sent().push(message)
    } else {
        before.sent()
    }
    &&& after.refused() == if delivered {
        before.refused()
    } else {
        before.refused().push(message)
    }
}

/// Whether `after` is `before` with one more message, which is `message`.
pub open spec fn one_more(before: Seq<Message>, after: Seq<Message>, message: Message) -> bool {
    after.len() == before.len() + 1 && after.drop_last() == before && after.last() == message
}

/// Whether `message` is the progress within a material that `report` gives:
/// so many units placed, of so many, and no more than all of them.
pub open spec fn is_report(message: Message, report: (nat, nat)) -> bool {
    &&& message matches Message::SubProgress(progress)
    &&& progress.spec_completed() == report.0
    &&& progress.spec_total() == report.1
    &&& report.0 <= report.1
}

/// Whether `after` is `before` with some of `reports` behind it: the first
/// ones, in their order, and nothing else.
pub open spec fn sub_reported(
    before: Seq<Message>,
    after: Seq<Message>,
    reports: Seq<(nat, nat)>,
) -> bool {
    &&& before.len() <= after.len() <= before.len() + reports.len()
    &&& after.take(before.len() as int) == before
    &&& forall|i: int|
        before.len() <= i < after.len() ==> is_report(#[trigger] after[i], reports[i - before.len()])
}

/// The reports of the first `n` sub-problems, one sub-problem after the
/// other, where `reports_of` gives the reports of each.
pub open spec fn reports_of_first(
    reports_of: spec_fn(SubProblem) -> Seq<(nat, nat)>,
    problem: Seq<(Material, SubProblem)>,
    n: int,
) -> Seq<(nat, nat)>
    decreases n,
{
    if n <= 0 {
        Seq::empty()
    } else {
        reports_of_first(reports_of, problem, n - 1) + reports_of(problem[n - 1].1)
    }
}

/// The reports of the first sub-problems are the first of the reports of
/// more of them.
pub proof fn lemma_reports_of_first(
    reports_of: spec_fn(SubProblem) -> Seq<(nat, nat)>,
    problem: Seq<(Material, SubProblem)>,
    n: int,
    m: int,
)
    requires
        n <= m,
    ensures
        reports_of_first(reports_of, problem, n).len() <= reports_of_first(
            reports_of,
            problem,
            m,
        ).len(),
        forall|i: int|
            0 <= i < reports_of_first(reports_of, problem, n).len() ==> reports_of_first(
                reports_of,
                problem,
                m,
            )[i] == reports_of_first(reports_of, problem, n)[i],
    decreases m - n,
{
    if n < m {
        lemma_reports_of_first(reports_of, problem, n, m - 1);
    }
}

/// Whether `sent` is a copy of the solution `kept`: the same materials in
/// the same order, each with the same cut lists, supplies and parts.
pub open spec fn copy_of(sent: Solution, kept: Solution) -> bool {
    &&& sent@.len() == kept@.len()
    &&& forall|i: int|
        0 <= i < kept@.len() ==> (#[trigger] sent@[i]).0 == kept@[i].0 && sent@[i].1.same_as(
            kept@[i].1,
        )
}

/// Whether `message` says that all materials are done.
pub open spec fn is_all_done(message: Message) -> bool {
    message matches Message::Progress(progress) && progress.spec_completed()
        == progress.spec_total()
}

/// The index of the first of the first `n` sub-problems that fails by
/// `plan`.
pub open spec fn first_failure(
    plan: spec_fn(SubProblem) -> Result<Seq<CutListView>, SubProblemError>,
    problem: Seq<(Material, SubProblem)>,
    n: int,
) -> Option<int>
    decreases n,
{
    if n <= 0 {
        None
    } else {
        match first_failure(plan, problem, n - 1) {
            Some(i) => Some(i),
            None => if plan(problem[n - 1].1) is Err {
                Some(n - 1)
            } else {
                None
            },
        }
    }
}

/// A failure among the first sub-problems is the first failure among more
/// of them.
pub proof fn lemma_first_failure(
    plan: spec_fn(SubProblem) -> Result<Seq<CutListView>, SubProblemError>,
    problem: Seq<(Material, SubProblem)>,
    n: int,
    m: int,
)
    requires
        n <= m,
        first_failure(plan, problem, n) is Some,
    ensures
        first_failure(plan, problem, m) == first_failure(plan, problem, n),
    decreases m - n,
{
    if n < m {
        lemma_first_failure(plan, problem, n, m - 1);
    }
}

/// A failure among more sub-problems that is none among the first is behind
/// the first.
pub proof fn lemma_failure_later(
    plan: spec_fn(SubProblem) -> Result<Seq<CutListView>, SubProblemError>,
    problem: Seq<(Material, SubProblem)>,
    n: int,
    m: int,
)
    requires
        n <= m,
        first_failure(plan, problem, n) is None,
        first_failure(plan, problem, m) is Some,
    ensures
        n <= first_failure(plan, problem, m)->Some_0 < m,
    decreases m - n,
{
    if n < m {
        if first_failure(plan, problem, m - 1) is Some {
            lemma_failure_later(plan, problem, n, m - 1);
        }
    }
}

/// The reports of a run on `problem`: those of the sub-problems in order, up
/// to the first that fails.
pub open spec fn reports_of_run(
    plan: spec_fn(SubProblem) -> Result<Seq<CutListView>, SubProblemError>,
    reports_of: spec_fn(SubProblem) -> Seq<(nat, nat)>,
    problem: Seq<(Material, SubProblem)>,
) -> Seq<(nat, nat)> {
    match first_failure(plan, problem, problem.len() as int) {
        Some(i) => reports_of_first(reports_of, problem, i + 1),
        None => reports_of_first(reports_of, problem, problem.len() as int),
    }
}

/// Whether a run on `problem` that ends with `r` has done to the reporter
/// what is owed by a solver that plans as `plan` and reports as `reports_of`
/// say. The messages of a run are the reports of the run, then for a failure
/// the outcome, and for a solution the message that all materials are done
/// and the outcome. All of them are taken and none is refused, unless the
/// run ends because the channel is closed: then the channel has refused the
/// message that was next, and those before it are taken.
pub open spec fn reported(
    plan: spec_fn(SubProblem) -> Result<Seq<CutListView>, SubProblemError>,
    reports_of: spec_fn(SubProblem) -> Seq<(nat, nat)>,
    problem: Seq<(Material, SubProblem)>,
    before: Reporter,
    after: Reporter,
    r: Result<Solution, SolveError>,
) -> bool {
    let reports = reports_of_run(plan, reports_of, problem);
    let failure = first_failure(plan, problem, problem.len() as int);
    let first = before.sent().len() as int;
    let sent = after.sent();
    let told = sent.len() - first;
    &&& after.has_sender() == before.has_sender()
    &&& first <= sent.len()
    &&& sent.take(first) == before.sent()
    &&& match r {
        Ok(solution) => {
            &&& failure is None
            &&& told == reports.len() + 2
            &&& sub_reported(before.sent(), sent.take(sent.len() - 2), reports)
            &&& is_all_done(sent[sent.len() - 2])
            &&& sent[sent.len() - 1] matches Message::Results(Ok(copy)) && copy_of(copy, solution)
            &&& after.refused() == before.refused()
        },
        Err(SolveError::Material { .. }) => {
            &&& failure is Some
            &&& told == reports.len() + 1
            &&& sub_reported(before.sent(), sent.take(sent.len() - 1), reports)
            &&& sent[sent.len() - 1] matches Message::Results(Err(error)) && error == r->Err_0
            &&& after.refused() == before.refused()
        },
        Err(SolveError::ChannelClosed) => {
            &&& before.has_sender()
            &&& after.refused().len() == before.refused().len() + 1
            &&& after.refused().drop_last() == before.refused()
            &&& if told < reports.len() {
                &&& sub_reported(before.sent(), sent, reports)
                &&& is_report(after.refused().last(), reports[told])
            } else if told == reports.len() {
                &&& sub_reported(before.sent(), sent, reports)
                &&& match failure {
                    Some(_) => after.refused().last() matches Message::Results(
                        Err(SolveError::Material { .. }),
                    ),
                    None => is_all_done(after.refused().last()),
                }
            } else {
                &&& failure is None
                &&& told == reports.len() + 1
                &&& sub_reported(before.sent(), sent.take(sent.len() - 1), reports)
                &&& is_all_done(sent[sent.len() - 1])
                &&& after.refused().last() matches Message::Results(Ok(_))
            }
        },
    }
}

/// Whether `r` is what a solver owes for a sub-problem that it plans as
/// `plan`: the planned cut lists with the supplies and parts of the
/// sub-problem, or the planned failure.
pub open spec fn answers(
    plan: Result<Seq<CutListView>, SubProblemError>,
    sub_problem: SubProblem,
    r: Result<SubSolution, SubProblemError>,
) -> bool {
    match r {
        Ok(solution) => {
            &&& plan matches Ok(cut_lists)
            &&& solution.patterns() == cut_lists
            &&& solution.supplies == sub_problem.supplies
            &&& solution.parts == sub_problem.parts
            &&& solution.consistent()
        },
        Err(reason) => plan matches Err(planned) && planned == reason,
    }
}

/// Whether a call that ends with `r` is what a solver owes for a sub-problem
/// that it plans as `plan` and for which it reports as `reports`.
/// Either the result is what `plan` says, all reports are taken and none is
/// refused. Or the channel refused the report that was next, the reports
/// before it are taken, and the call fails because the channel is closed.
pub open spec fn sub_solved(
    plan: Result<Seq<CutListView>, SubProblemError>,
    reports: Seq<(nat, nat)>,
    sub_problem: SubProblem,
    r: Result<SubSolution, SubProblemError>,
    before: Reporter,
    after: Reporter,
) -> bool {
    let told = after.sent().len() - before.sent().len();
    &&& after.has_sender() == before.has_sender()
    &&& sub_reported(before.sent(), after.sent(), reports)
    &&& if r == Err::<SubSolution, SubProblemError>(SubProblemError::ChannelClosed) {
        &&& before.has_sender()
        &&& told < reports.len()
        &&& after.refused().len() == before.refused().len() + 1
        &&& after.refused().drop_last() == before.refused()
        &&& is_report(after.refused().last(), reports[told])
    } else {
        &&& answers(plan, sub_problem, r)
        &&& told == reports.len()
        &&& after.refused() == before.refused()
    }
}

/// Whether `given` is what is owed for the sub-problem `asked` of one
/// material by a solver that plans as `plan` says: under the same material,
/// with the same supplies and parts, the planned cut lists, grouped.
pub open spec fn solves_entry(
    plan: spec_fn(SubProblem) -> Result<Seq<CutListView>, SubProblemError>,
    asked: (Material, SubProblem),
    given: (Material, SubSolution),
) -> bool {
    &&& given.0 == asked.0
    &&& given.1.supplies == asked.1.supplies
    &&& given.1.parts == asked.1.parts
    &&& plan(asked.1) matches Ok(cut_lists) && given.1.patterns() == grouped(cut_lists)
    &&& given.1.consistent()
}

/// Whether `solution` is what is owed for `problem` by a solver that plans
/// as `plan` says: for each material, in the order of the problem, what is
/// owed for its sub-problem.
pub open spec fn solves(
    plan: spec_fn(SubProblem) -> Result<Seq<CutListView>, SubProblemError>,
    problem: Seq<(Material, SubProblem)>,
    solution: Seq<(Material, SubSolution)>,
) -> bool {
    &&& solution.len() == problem.len()
    &&& forall|i: int|
        #![trigger problem[i]]
        #![trigger solution[i]]
        0 <= i < problem.len() ==> solves_entry(plan, problem[i], solution[i])
}

/// Whether the sub-problem at index `i` is the first that fails by `plan`,
/// and fails for `reason`.
pub open spec fn fails_at(
    plan: spec_fn(SubProblem) -> Result<Seq<CutListView>, SubProblemError>,
    problem: Seq<(Material, SubProblem)>,
    i: int,
    reason: SubProblemError,
) -> bool {
    &&& 0 <= i < problem.len()
    &&& plan(problem[i].1) matches Err(planned) && planned == reason
    &&& forall|k: int| 0 <= k < i ==> plan((#[trigger] problem[k]).1) is Ok
}

/// Whether `r` is what is owed for `problem` by a solver that plans as `plan`
/// says: the solution where every plan succeeds, else the name of the first
/// material whose plan fails, and the reason.
pub open spec fn solved(
    plan: spec_fn(SubProblem) -> Result<Seq<CutListView>, SubProblemError>,
    problem: Seq<(Material, SubProblem)>,
    r: Result<Solution, SolveError>,
) -> bool {
    match r {
        Ok(solution) => solves(plan, problem, solution@) && distinct_materials(solution@),
        Err(SolveError::Material { name, reason }) => exists|i: int|
            fails_at(plan, problem, i, reason) && name@ == (#[trigger] problem[i]).0.name@,
        Err(SolveError::ChannelClosed) => false,
    }
}

/// Whether two outcomes of a run are the same: failures for the same reason
/// at a material of the same name, or solutions with the same materials,
/// supplies, parts and cut lists in the same order.
pub open spec fn same_outcome(
    a: Result<Solution, SolveError>,
    b: Result<Solution, SolveError>,
) -> bool {
    match (a, b) {
        (Ok(x), Ok(y)) => {
            &&& x@.len() == y@.len()
            &&& forall|i: int|
                0 <= i < x@.len() ==> {
                    &&& (#[trigger] x@[i]).0 == y@[i].0
                    &&& x@[i].1.supplies == y@[i].1.supplies
                    &&& x@[i].1.parts == y@[i].1.parts
                    &&& x@[i].1.patterns() == y@[i].1.patterns()
                }
        },
        (
            Err(SolveError::Material { name: name_a, reason: reason_a }),
            Err(SolveError::Material { name: name_b, reason: reason_b }),
        ) => name_a@ == name_b@ && reason_a == reason_b,
        (Err(SolveError::ChannelClosed), Err(SolveError::ChannelClosed)) => true,
        _ => false,
    }
}

/// A solver that plans the same for the same sub-problem has one outcome
/// for a problem: two runs that the channel does not cut short end the same.
pub proof fn lemma_solve_deterministic(
    plan: spec_fn(SubProblem) -> Result<Seq<CutListView>, SubProblemError>,
    problem: Seq<(Material, SubProblem)>,
    a: Result<Solution, SolveError>,
    b: Result<Solution, SolveError>,
)
    requires
        solved(plan, problem, a),
        solved(plan, problem, b),
    ensures
        same_outcome(a, b),
{
    match (a, b) {
        (Ok(x), Ok(y)) => {
            assert forall|i: int| 0 <= i < x@.len() implies {
                &&& (#[trigger] x@[i]).0 == y@[i].0
                &&& x@[i].1.supplies == y@[i].1.supplies
                &&& x@[i].1.parts == y@[i].1.parts
                &&& x@[i].1.patterns() == y@[i].1.patterns()
            } by {
                assert(solves_entry(plan, problem[i], x@[i]));
                assert(solves_entry(plan, problem[i], y@[i]));
            }
        },
        (Ok(x), Err(SolveError::Material { name, reason })) => {
            let i = choose|i: int|
                fails_at(plan, problem, i, reason) && name@ == (#[trigger] problem[i]).0.name@;
            assert(solves_entry(plan, problem[i], x@[i]));
        },
        (Err(SolveError::Material { name, reason }), Ok(y)) => {
            let i = choose|i: int|
                fails_at(plan, problem, i, reason) && name@ == (#[trigger] problem[i]).0.name@;
            assert(solves_entry(plan, problem[i], y@[i]));
        },
        (
            Err(SolveError::Material { name: name_a, reason: reason_a }),
            Err(SolveError::Material { name: name_b, reason: reason_b }),
        ) => {
            let i = choose|i: int|
                fails_at(plan, problem, i, reason_a) && name_a@ == (#[trigger] problem[i]).0.name@;
            let j = choose|j: int|
                fails_at(plan, problem, j, reason_b) && name_b@ == (#[trigger] problem[j]).0.name@;
            if i < j {
                assert(plan(problem[i].1) is Ok);
            } else if j < i {
                assert(plan(problem[j].1) is Ok);
            }
        },
        _ => {},
    }
}

/// A cutting-stock algorithm.
pub trait Solver {
    /// What the algorithm makes of a sub-problem: the cut lists, ungrouped,
    /// or why there are none.
    spec fn plan(&self, sub_problem: SubProblem) -> Result<Seq<CutListView>, SubProblemError>;

    /// The progress that the algorithm reports while it is at a sub-problem:
    /// for each report, how many units are placed, and of how many.
    spec fn reports(&self, sub_problem: SubProblem) -> Seq<(nat, nat)>;

    /// Solves the sub-problem of one material as `plan` says, and reports
    /// the progress as `reports` says. Only where a report goes to a channel
    /// and the channel is closed, the call fails for that reason instead,
    /// with the reports before that one taken.
    fn solve_sub_problem(&self, sub_problem: SubProblem, reporter: &mut Reporter) -> (r: Result<
        SubSolution,
        SubProblemError,
    >)
        ensures
            sub_solved(
                self.plan(sub_problem),
                self.reports(sub_problem),
                sub_problem,
                r,
                *old(reporter),
                *final(reporter),
            ),
    ;

    /// Merges the cut lists that share a pattern: one cut list for each
    /// pattern, in the order in which the patterns first occur, with the
    /// pieces of all cut lists of that pattern.
    fn group_cut_lists(&self, sub_solution: SubSolution) -> (r: SubSolution)
        requires
            countable_by_pattern(sub_solution.patterns()),
        ensures
            r.patterns() == grouped(sub_solution.patterns()),
            r.supplies == sub_solution.supplies,
            r.parts == sub_solution.parts,
            sub_solution.consistent() ==> r.consistent(),
    {
        proof {
            if sub_solution.consistent() {
                lemma_grouped_countable(sub_solution.patterns(), sub_solution.supplies@.len());
                lemma_grouped_indices_in_range(
                    sub_solution.patterns(),
                    sub_solution.supplies@.len(),
                    sub_solution.parts@.len(),
                );
            }
        }
        let cut_lists = group(&sub_solution.cut_lists);
        SubSolution { cut_lists, supplies: sub_solution.supplies, parts: sub_solution.parts }
    }

    /// Solves the sub-problems in the order of the problem and groups the
    /// cut lists of each. Stops at the first sub-problem that fails, and
    /// names its material. Reports the outcome before returning it, and
    /// before a solution that all materials are done. Only where the channel
    /// refuses a message because it is closed, the call fails for that
    /// reason instead.
    fn solve(&self, problem: Problem, reporter: &mut Reporter) -> (r: Result<Solution, SolveError>)
        ensures
            solved(|sub_problem: SubProblem| self.plan(sub_problem), problem@, r) || r matches Err(
                SolveError::ChannelClosed,
            ),
            reported(
                |sub_problem: SubProblem| self.plan(sub_problem),
                |sub_problem: SubProblem| self.reports(sub_problem),
                problem@,
                *old(reporter),
                *final(reporter),
                r,
            ),
    {
        let ghost asked = problem@;
        let ghost plan = |sub_problem: SubProblem| self.plan(sub_problem);
        let ghost reports_of = |sub_problem: SubProblem| self.reports(sub_problem);
        let ghost before = reporter.sent();
        let mut entries = problem.into_entries();
        let mut solution: Solution = MaterialMap::new();
        assert(before.take(before.len() as int) =~= before);
        while entries.len() > 0
            invariant
                asked == problem@,
                distinct_materials(asked),
                distinct_materials(solution@),
                solution@.len() <= asked.len(),
                entries@ == asked.skip(solution@.len() as int),
                forall|i: int|
                    0 <= i < solution@.len() ==> solves_entry(plan, #[trigger] asked[i], solution@[i]),
                first_failure(plan, asked, solution@.len() as int) is None,
                plan == (|sub_problem: SubProblem| self.plan(sub_problem)),
                reports_of == (|sub_problem: SubProblem| self.reports(sub_problem)),
                before == old(reporter).sent(),
                reporter.has_sender() == old(reporter).has_sender(),
                reporter.refused() == old(reporter).refused(),
                reporter.sent().len() == before.len() + reports_of_first(
                    reports_of,
                    asked,
                    solution@.len() as int,
                ).len(),
                sub_reported(
                    before,
                    reporter.sent(),
                    reports_of_first(reports_of, asked, solution@.len() as int),
                ),
            decreases entries@.len(),
        {
            let ghost done = solution@;
            let ghost n = done.len() as int;
            let ghost so_far = reporter.sent();
            let (material, sub_problem) = entries.remove(0);
            assert(entries@ =~= asked.skip(n + 1));
            assert(asked[n] == (material, sub_problem));
            let outcome = self.solve_sub_problem(sub_problem, reporter);
            proof {
                let told = reports_of_first(reports_of, asked, n);
                let next = reports_of_first(reports_of, asked, n + 1);
                assert(next == told + reports_of(asked[n].1));
                assert(reporter.sent().take(before.len() as int) =~= so_far.take(
                    before.len() as int,
                ));
                assert forall|i: int| before.len() <= i < reporter.sent().len() implies is_report(
                    #[trigger] reporter.sent()[i],
                    next[i - before.len()],
                ) by {
                    if i < so_far.len() {
                        assert(reporter.sent().take(so_far.len() as int)[i] == reporter.sent()[i]);
                        assert(is_report(so_far[i], told[i - before.len()]));
                    } else {
                        assert(is_report(
                            reporter.sent()[i],
                            reports_of(asked[n].1)[i - so_far.len()],
                        ));
                    }
                }
                assert(sub_reported(before, reporter.sent(), next));
                lemma_reports_of_first(reports_of, asked, n + 1, asked.len() as int);
                if plan(asked[n].1) is Err {
                    lemma_first_failure(plan, asked, n + 1, asked.len() as int);
                } else if first_failure(plan, asked, asked.len() as int) is Some {
                    lemma_failure_later(plan, asked, n + 1, asked.len() as int);
                    lemma_reports_of_first(
                        reports_of,
                        asked,
                        n + 1,
                        first_failure(plan, asked, asked.len() as int)->Some_0 + 1,
                    );
                }
                let run = reports_of_run(plan, reports_of, asked);
                assert(next.len() <= run.len());
                assert(forall|k: int| 0 <= k < next.len() ==> run[k] == next[k]);
                assert(sub_reported(before, reporter.sent(), run));
                if outcome == Err::<SubSolution, SubProblemError>(SubProblemError::ChannelClosed) {
                    assert(reporter.refused().drop_last() =~= old(reporter).refused());
                    let told = reporter.sent().len() - before.len();
                    assert(run[told] == reports_of(asked[n].1)[reporter.sent().len() - so_far.len()]);
                }
            }
            match outcome {
                Ok(sub_solution) => {
                    proof {
                        lemma_countable(sub_solution.patterns(), sub_solution.supplies@.len());
                    }
                    let grouped_solution = self.group_cut_lists(sub_solution);
                    proof {
                        assert forall|i: int| 0 <= i < done.len() implies (#[trigger] done[i]).0.key()
                            != material.key() by {
                            assert(solves_entry(plan, asked[i], done[i]));
                        }
                    }
                    solution.insert(material, grouped_solution);
                    assert(solution@[n] == (material, grouped_solution));
                },
                Err(reason) => {
                    if reason == SubProblemError::ChannelClosed {
                        return Err(SolveError::ChannelClosed);
                    }
                    assert(asked[n].0.name@ == material.name@);
                    let error = SolveError::Material { name: material.name, reason };
                    let ghost behind = reporter.sent();
                    proof {
                        assert(fails_at(plan, asked, n, reason)) by {
                            assert forall|k: int| 0 <= k < n implies plan(
                                (#[trigger] asked[k]).1,
                            ) is Ok by {
                                assert(solves_entry(plan, asked[k], done[k]));
                            }
                        }
                    }
                    if !self.send_result(reporter, Err(error.clone())) {
                        proof {
                            assert(reporter.refused().drop_last() =~= old(reporter).refused());
                        }
                        return Err(SolveError::ChannelClosed);
                    }
                    proof {
                        assert(reporter.sent().take(reporter.sent().len() - 1) =~= behind);
                        assert(reporter.sent().take(before.len() as int) =~= behind.take(
                            before.len() as int,
                        ));
                    }
                    return Err(error);
                },
            }
        }
        let ghost behind = reporter.sent();
        assert(solution@.len() == asked.len());
        if !self.send_progress(reporter, Progress::finished()) {
            proof {
                assert(reporter.refused().drop_last() =~= old(reporter).refused());
            }
            return Err(SolveError::ChannelClosed);
        }
        if !self.send_result(reporter, Ok(solution.clone())) {
            proof {
                assert(reporter.refused().drop_last() =~= old(reporter).refused());
                assert(reporter.sent().take(reporter.sent().len() - 1) =~= behind);
                assert(reporter.sent().take(before.len() as int) =~= behind.take(
                    before.len() as int,
                ));
            }
            return Err(SolveError::ChannelClosed);
        }
        proof {
            assert(reporter.sent().take(reporter.sent().len() - 2) =~= behind);
            assert(reporter.sent().take(before.len() as int) =~= behind.take(before.len() as int));
        }
        Ok(solution)
    }

    /// Reports `message`. Tells whether it was taken: a closed channel takes
    /// nothing.
    fn send_message(&self, reporter: &mut Reporter, message: Message) -> (delivered: bool)
        ensures
            taken_or_refused(*old(reporter), *final(reporter), message, delivered),
    {
        reporter.send(message)
    }

    /// Reports how many of the materials are done.
    fn send_progress(&self, reporter: &mut Reporter, progress: Progress) -> (delivered: bool)
        ensures
            taken_or_refused(*old(reporter), *final(reporter), Message::Progress(progress), delivered),
    {
        self.send_message(reporter, Message::Progress(progress))
    }

    /// Reports the outcome of a run.
    fn send_result(&self, reporter: &mut Reporter, result: Result<Solution, SolveError>) -> (delivered:
        bool)
        ensures
            taken_or_refused(*old(reporter), *final(reporter), Message::Results(result), delivered),
    {
        self.send_message(reporter, Message::Results(result))
    }

    /// Reports how many of the units of the material at hand are placed.
    fn send_sub_progress(&self, reporter: &mut Reporter, sub_progress: Progress) -> (delivered:
        bool)
        ensures
            taken_or_refused(*old(reporter), *final(reporter), Message::SubProgress(sub_progress), delivered),
    {
        self.send_message(reporter, Message::SubProgress(sub_progress))
    }
}

} // verus!
