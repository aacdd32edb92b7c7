//! The decisions of a line forwarder that copies its input, line by line, to
//! a fixed set of outputs.
use vstd::prelude::*;

verus! {

/// What the forwarder learns next.
pub enum ForwardEvent {
    /// A line of input, without its newline.
    Line(String),
    /// The input is exhausted, or reading it failed.
    InputEnded,
    /// A write to one of the outputs failed.
    WriteFailed,
    /// A write to one of the outputs completed.
    WriteDone,
}

/// What the forwarder does next.
pub enum ForwardAction {
    /// Write this text to every output.
    WriteToAll(String),
    /// Stop forwarding.
    Stop,
    /// Go on.
    Continue,
}

/// The forwarder's decision on an event: a line is written to all outputs
/// with its newline; the end of the input stops it; a failed write stops it
/// only when it quits on output failures.
pub fn forward_step(quit_on_output_failures: bool, event: ForwardEvent) -> (a: ForwardAction)
    ensures
        match event {
            ForwardEvent::Line(line) => a matches ForwardAction::WriteToAll(text) && text@
                == line@.push('\n'),
            ForwardEvent::InputEnded => a is Stop,
            ForwardEvent::WriteFailed => if quit_on_output_failures {
                a is Stop
            } else {
                a is Continue
            },
            ForwardEvent::WriteDone => a is Continue,
        },
{
    match event {
        ForwardEvent::Line(line) => {
            let mut text = line;
            let ghost before = text@;
            text.append("\n");
            proof {
                reveal_strlit("\n");
                assert(text@ =~= before.push('\n'));
            }
            ForwardAction::WriteToAll(text)
        },
        ForwardEvent::InputEnded => ForwardAction::Stop,
        ForwardEvent::WriteFailed => if quit_on_output_failures {
            ForwardAction::Stop
        } else {
            ForwardAction::Continue
        },
        ForwardEvent::WriteDone => ForwardAction::Continue,
    }
}

} // verus!
