use vstd::prelude::*;

pub mod text;
pub mod explainshell;
pub mod pane;
pub mod display;
pub mod tui;
pub mod launch;
pub mod exchange;
pub mod highlight;
pub mod readback;
pub mod watch;
pub mod tidy;

verus! {

} // verus!
