//! The live preview: what is shown and done at each stage of a render.

use crate::viewer::{cancels, is_running, status_of, tiles_of, Stage, Status};
use vstd::prelude::*;

verus! {

/// A render is shown as what it is: being read, under way, ended, aborted or failed.
pub proof fn stages_are_shown(tiles: usize, cancelled: bool)
    ensures
        status_of(Stage::Loading) == Status::Loading,
        status_of(Stage::Rendering { tiles }) == Status::Rendering,
        status_of(Stage::Finished { tiles, cancelled: true }) == Status::Aborted,
        status_of(Stage::Finished { tiles, cancelled: false }) == Status::Done,
        status_of(Stage::Failed) == Status::Failed,
        is_running(Stage::Loading) && is_running(Stage::Rendering { tiles }),
        !is_running(Stage::Finished { tiles, cancelled }) && !is_running(Stage::Failed),
        tiles_of(Stage::Rendering { tiles }) == Some(tiles),
        tiles_of(Stage::Finished { tiles, cancelled }) == Some(tiles),
        tiles_of(Stage::Loading) is None && tiles_of(Stage::Failed) is None,
{
}

/// A render is aborted once there are as many tiles as were asked for, and no earlier; only one that
/// is under way can be.
pub proof fn renders_are_aborted_in_time(n: usize, tiles: usize, s: Stage)
    ensures
        tiles >= n ==> cancels(Some(n), Stage::Rendering { tiles }),
        tiles < n ==> !cancels(Some(n), Stage::Rendering { tiles }),
        !cancels(None, s),
        !(s is Rendering) ==> !cancels(Some(n), s),
{
}

} // verus!
