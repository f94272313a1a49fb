use l_system_rs::turtle::{command_for, commands, TurtleCommand};

fn drawn(s: &str) -> usize {
    commands(s).iter().filter(|c| **c == TurtleCommand::Draw).count()
}

#[test]
fn koch_string_draws_four_segments() {
    assert_eq!(drawn("F+F--F+F"), 4);
}

#[test]
fn branching_string_draws_five_segments() {
    assert_eq!(drawn("F[+F]F[-F]F"), 5);
}

#[test]
fn unknown_symbols_draw_nothing() {
    assert_eq!(drawn("FxF"), 2);
    assert_eq!(command_for('x'), TurtleCommand::Ignore);
}

#[test]
fn command_alphabet() {
    assert_eq!(command_for('F'), TurtleCommand::Draw);
    assert_eq!(command_for('G'), TurtleCommand::Draw);
    assert_eq!(command_for('f'), TurtleCommand::Move);
    assert_eq!(command_for('+'), TurtleCommand::TurnLeft);
    assert_eq!(command_for('-'), TurtleCommand::TurnRight);
    assert_eq!(command_for('['), TurtleCommand::Push);
    assert_eq!(command_for(']'), TurtleCommand::Pop);
    assert_eq!(
        commands("Ff[]"),
        vec![TurtleCommand::Draw, TurtleCommand::Move, TurtleCommand::Push, TurtleCommand::Pop]
    );
}
