use chop_chop::modeling::{Dimension, Material, Part, Problem, SubProblem, Supply};
use chop_chop::rational::Rational;
use chop_chop::solvers::naive_solver::NaiveSolver;
use chop_chop::solvers::{Message, Progress, Reporter, SolveError, Solver, SubProblemError};

fn whole(value: u64) -> Rational {
    Rational::from_integer(value)
}

fn problem_of(lengths: Vec<(u64, i64)>) -> Problem {
    let mut parts = Vec::new();
    for (length, quantity) in lengths {
        parts.push(Part {
            name: String::new(),
            length: whole(length),
            quantity,
        });
    }
    let mut problem = Problem::new();
    problem.insert(
        Material {
            name: String::from("Oak"),
            dimension: Dimension::OneD,
        },
        SubProblem {
            supplies: vec![Supply {
                name: String::new(),
                length: whole(10),
                price: whole(2),
                max_quantity: -1,
            }],
            parts,
            blade_width: whole(0),
        },
    );
    problem
}

fn drain(receiver: &async_channel::Receiver<Message>) -> Vec<Message> {
    let mut messages = Vec::new();
    while let Ok(message) = receiver.try_recv() {
        messages.push(message);
    }
    messages
}

#[test]
fn progress_is_reported_unit_by_unit_and_the_result_comes_last() {
    let (sender, receiver) = async_channel::unbounded();
    let mut reporter = Reporter::new(Some(sender));
    let result = NaiveSolver {}.solve(problem_of(vec![(4, 2), (3, 1)]), &mut reporter);
    assert!(reporter.is_connected());
    let solution = result.unwrap();
    let messages = drain(&receiver);
    assert_eq!(messages.len(), 5);
    let mut last = 0;
    for (k, message) in messages.iter().take(3).enumerate() {
        match message {
            Message::SubProgress(progress) => {
                assert_eq!(progress.completed(), k as u128 + 1);
                assert_eq!(progress.total(), 3);
                assert!(progress.completed() >= last);
                last = progress.completed();
            }
            _ => panic!("expected the progress within the material"),
        }
    }
    match &messages[3] {
        Message::Progress(progress) => {
            assert_eq!(progress.completed(), progress.total());
        }
        _ => panic!("expected the progress over the materials"),
    }
    match &messages[4] {
        Message::Results(Ok(sent)) => {
            assert_eq!(sent.len(), 1);
            assert_eq!(sent.entries()[0].0, solution.entries()[0].0);
            assert_eq!(sent.entries()[0].1.cut_lists, solution.entries()[0].1.cut_lists);
        }
        _ => panic!("expected the solution"),
    }
}

#[test]
fn failure_is_reported_as_the_last_message() {
    let (sender, receiver) = async_channel::unbounded();
    let result = NaiveSolver {}.solve(
        problem_of(vec![(4, 1), (30, 1)]),
        &mut Reporter::new(Some(sender)),
    );
    let error = result.unwrap_err();
    let messages = drain(&receiver);
    assert_eq!(messages.len(), 2);
    assert!(matches!(messages[0], Message::SubProgress(_)));
    match &messages[1] {
        Message::Results(Err(sent)) => {
            assert_eq!(*sent, error);
            assert_eq!(
                *sent,
                SolveError::Material {
                    name: String::from("Oak"),
                    reason: SubProblemError::InsufficientSize,
                }
            );
        }
        _ => panic!("expected the failure"),
    }
}

#[test]
fn closed_channel_ends_the_run() {
    let (sender, receiver) = async_channel::unbounded();
    drop(receiver);
    let result = NaiveSolver {}.solve(problem_of(vec![(4, 2)]), &mut Reporter::new(Some(sender)));
    assert_eq!(result.unwrap_err(), SolveError::ChannelClosed);
    assert_eq!(SolveError::ChannelClosed.message(), "Channel closed");
}

#[test]
fn closed_channel_is_noticed_without_any_unit() {
    let (sender, receiver) = async_channel::unbounded();
    drop(receiver);
    let result = NaiveSolver {}.solve(problem_of(vec![]), &mut Reporter::new(Some(sender)));
    assert_eq!(result.unwrap_err(), SolveError::ChannelClosed);
}

#[test]
fn closed_channel_ends_the_sub_problem() {
    let (sender, receiver) = async_channel::unbounded::<Message>();
    drop(receiver);
    let sub_problem = SubProblem {
        supplies: vec![Supply {
            name: String::new(),
            length: whole(10),
            price: whole(2),
            max_quantity: -1,
        }],
        parts: vec![Part {
            name: String::new(),
            length: whole(4),
            quantity: 1,
        }],
        blade_width: whole(0),
    };
    let result = NaiveSolver {}.solve_sub_problem(sub_problem, &mut Reporter::new(Some(sender)));
    assert_eq!(result.unwrap_err(), SubProblemError::ChannelClosed);
}

#[test]
fn messages_go_to_the_channel_where_there_is_one() {
    let solver = NaiveSolver {};
    let mut nobody = Reporter::new(None);
    assert!(!nobody.is_connected());
    assert!(solver.send_progress(&mut nobody, Progress::finished()));
    assert!(solver.send_sub_progress(&mut nobody, Progress::new(1, 2).unwrap()));
    assert!(solver.send_result(&mut nobody, Err(SolveError::ChannelClosed)));
    assert!(solver.send_message(&mut nobody, Message::Progress(Progress::finished())));
    assert!(nobody.send(Message::Progress(Progress::finished())));
    let (sender, receiver) = async_channel::unbounded();
    let mut reporter = Reporter::new(Some(sender));
    assert!(reporter.is_connected());
    assert!(solver.send_progress(&mut reporter, Progress::finished()));
    assert!(solver.send_sub_progress(&mut reporter, Progress::new(1, 2).unwrap()));
    assert!(solver.send_result(&mut reporter, Err(SolveError::ChannelClosed)));
    assert!(reporter.send(Message::SubProgress(Progress::new(2, 2).unwrap())));
    let messages = drain(&receiver);
    assert_eq!(messages.len(), 4);
    assert!(matches!(messages[0], Message::Progress(_)));
    assert!(matches!(messages[1], Message::SubProgress(_)));
    assert!(matches!(messages[2], Message::Results(Err(SolveError::ChannelClosed))));
    match &messages[3] {
        Message::SubProgress(progress) => {
            assert_eq!(progress.completed(), 2);
            assert_eq!(progress.total(), 2);
        }
        _ => panic!("expected the progress within the material"),
    }
    drop(receiver);
    assert!(!solver.send_progress(&mut reporter, Progress::finished()));
    assert!(!reporter.send(Message::Progress(Progress::finished())));
}

#[test]
fn progress_is_never_more_than_all() {
    assert!(Progress::new(3, 2).is_none());
    let progress = Progress::new(2, 3).unwrap();
    assert_eq!(progress.completed(), 2);
    assert_eq!(progress.total(), 3);
    assert_eq!(Progress::finished().completed(), 1);
    assert_eq!(Progress::finished().total(), 1);
    assert!(Progress::new(0, 0).is_some());
}

fn sub_problem_of(length: u64, quantity: i64) -> SubProblem {
    SubProblem {
        supplies: vec![Supply {
            name: String::new(),
            length: whole(10),
            price: whole(2),
            max_quantity: -1,
        }],
        parts: vec![Part {
            name: String::new(),
            length: whole(length),
            quantity,
        }],
        blade_width: whole(0),
    }
}

#[test]
fn closed_channel_does_not_matter_where_nothing_is_reported() {
    let (sender, receiver) = async_channel::unbounded::<Message>();
    drop(receiver);
    let mut reporter = Reporter::new(Some(sender));
    let solver = NaiveSolver {};
    let empty = solver
        .solve_sub_problem(sub_problem_of(4, 0), &mut reporter)
        .unwrap();
    assert!(empty.cut_lists.is_empty());
    assert_eq!(
        solver
            .solve_sub_problem(sub_problem_of(40, 3), &mut reporter)
            .unwrap_err(),
        SubProblemError::InsufficientSize
    );
    assert_eq!(
        solver
            .solve_sub_problem(sub_problem_of(4, 3), &mut reporter)
            .unwrap_err(),
        SubProblemError::ChannelClosed
    );
}

#[test]
fn each_material_reports_its_own_units() {
    let (sender, receiver) = async_channel::unbounded();
    let mut problem = problem_of(vec![(4, 2)]);
    problem.insert(
        Material {
            name: String::from("Pine"),
            dimension: Dimension::OneD,
        },
        sub_problem_of(3, 3),
    );
    NaiveSolver {}
        .solve(problem, &mut Reporter::new(Some(sender)))
        .unwrap();
    let messages = drain(&receiver);
    let mut seen = Vec::new();
    for message in messages.iter() {
        match message {
            Message::SubProgress(progress) => {
                assert!(progress.completed() <= progress.total());
                seen.push((progress.completed(), progress.total()));
            }
            Message::Progress(progress) => {
                assert_eq!(progress.completed(), progress.total());
                seen.push((0, 0));
            }
            Message::Results(result) => {
                assert!(result.is_ok());
                seen.push((9, 9));
            }
        }
    }
    assert_eq!(
        seen,
        vec![(1, 2), (2, 2), (1, 3), (2, 3), (3, 3), (0, 0), (9, 9)]
    );
}
