//! The command alphabet of turtle interpretation.
//!
//! - `F`, `G`: move forward while drawing
//! - `f`: move forward without drawing
//! - `+`: turn left by the current angle
//! - `-`: turn right by the current angle
//! - `[`: push the turtle's state onto its stack
//! - `]`: pop the turtle's state from its stack
//! - any other symbol: nothing
//!
//! Positions and headings are floating point; this module decides what each
//! symbol of a string asks of the turtle.
use vstd::prelude::*;
use crate::expr::count_of;
use crate::text::chars_of;

verus! {

/// What a symbol asks of the turtle.
#[derive(Debug, Clone, Copy, PartialEq, Eq, Structural)]
pub enum TurtleCommand {
    /// Move forward by the step length, drawing a segment.
    Draw,
    /// Move forward by the step length without drawing.
    Move,
    /// Turn left by the turn angle.
    TurnLeft,
    /// Turn right by the turn angle.
    TurnRight,
    /// Save position and heading.
    Push,
    /// Restore the last saved position and heading, if any.
    Pop,
    /// Do nothing.
    Ignore,
}

/// The command of `symbol`.
pub open spec fn command_of(symbol: char) -> TurtleCommand {
    if symbol == 'F' || symbol == 'G' {
        TurtleCommand::Draw
    } else if symbol == 'f' {
        TurtleCommand::Move
    } else if symbol == '+' {
        TurtleCommand::TurnLeft
    } else if symbol == '-' {
        TurtleCommand::TurnRight
    } else if symbol == '[' {
        TurtleCommand::Push
    } else if symbol == ']' {
        TurtleCommand::Pop
    } else {
        TurtleCommand::Ignore
    }
}

/// The command of `symbol`.
pub fn command_for(symbol: char) -> (c: TurtleCommand)
    ensures
        c == command_of(symbol),
{
    match symbol {
        'F' | 'G' => TurtleCommand::Draw,
        'f' => TurtleCommand::Move,
        '+' => TurtleCommand::TurnLeft,
        '-' => TurtleCommand::TurnRight,
        '[' => TurtleCommand::Push,
        ']' => TurtleCommand::Pop,
        _ => TurtleCommand::Ignore,
    }
}

/// The commands of the symbols of `lstring`, in order.
pub fn commands(lstring: &str) -> (cmds: Vec<TurtleCommand>)
    ensures
        cmds@ == lstring@.map_values(|c: char| command_of(c)),
{
    let chars = chars_of(lstring);
    let mut cmds: Vec<TurtleCommand> = Vec::new();
    let mut i: usize = 0;
    while i < chars.len()
        invariant
            i <= chars@.len(),
            chars@ == lstring@,
            cmds@ == chars@.take(i as int).map_values(|c: char| command_of(c)),
        decreases chars@.len() - i,
    {
        let c = command_for(chars[i]);
        cmds.push(c);
        assert(chars@.take(i + 1).map_values(|c: char| command_of(c))
            =~= chars@.take(i as int).map_values(|c: char| command_of(c)).push(c));
        i += 1;
    }
    assert(chars@.take(chars@.len() as int) == chars@);
    cmds
}

/// Number of drawing commands in `cmds`.
pub open spec fn draw_count(cmds: Seq<TurtleCommand>) -> nat
    decreases cmds.len(),
{
    if cmds.len() == 0 {
        0
    } else {
        draw_count(cmds.drop_last()) + if cmds.last() == TurtleCommand::Draw { 1nat } else { 0nat }
    }
}

/// Interpreting a string draws one segment per `F` and per `G` in it, and
/// none for any other symbol.
pub proof fn law_draw_count(s: Seq<char>)
    ensures
        draw_count(s.map_values(|c: char| command_of(c))) == count_of(s, 'F') + count_of(s, 'G'),
    decreases s.len(),
{
    if s.len() > 0 {
        law_draw_count(s.drop_last());
        assert(s.map_values(|c: char| command_of(c)).drop_last()
            =~= s.drop_last().map_values(|c: char| command_of(c)));
    }
}

/// The command alphabet: `F` and `G` draw, `f` moves without drawing, `+`
/// and `-` turn left and right, `[` and `]` push and pop, and every other
/// symbol is ignored.
pub proof fn law_command_alphabet(c: char)
    ensures
        (command_of(c) == TurtleCommand::Draw) <==> (c == 'F' || c == 'G'),
        (command_of(c) == TurtleCommand::Move) <==> c == 'f',
        (command_of(c) == TurtleCommand::TurnLeft) <==> c == '+',
        (command_of(c) == TurtleCommand::TurnRight) <==> c == '-',
        (command_of(c) == TurtleCommand::Push) <==> c == '[',
        (command_of(c) == TurtleCommand::Pop) <==> c == ']',
        (command_of(c) == TurtleCommand::Ignore) <==> !(c == 'F' || c == 'G' || c == 'f' || c == '+'
            || c == '-' || c == '[' || c == ']'),
{
}
} // verus!
