//! The rules of the live preview: what a frame does, given how far the render is.

use vstd::prelude::*;

verus! {

/// How far a render is.
#[derive(Clone, Copy, Debug, PartialEq, Eq, Structural)]
pub enum Stage {
    /// The scene is being read.
    Loading,
    /// This many tiles are there.
    Rendering { tiles: usize },
    /// The render ended with this many tiles, because it was aborted or not.
    Finished { tiles: usize, cancelled: bool },
    /// The scene could not be read or rendered.
    Failed,
}

/// What is said of a render.
#[derive(Clone, Copy, Debug, PartialEq, Eq, Structural)]
pub enum Status {
    Loading,
    Rendering,
    Aborted,
    Done,
    Failed,
}

/// What the preview remembers between frames.
pub struct Preview {
    /// The number of tiles in the picture that is shown.
    pub shown_tiles: Option<usize>,
    /// Where to save the picture once the render ends, which is done once.
    pub autosave: Option<String>,
    /// The number of tiles at which to abort, which is done once.
    pub cancel_at_tiles: Option<usize>,
}

/// What a frame does.
pub struct Frame {
    pub status: Status,
    /// Whether the render can be aborted.
    pub running: bool,
    /// Whether there is a picture to save.
    pub can_save: bool,
    /// Whether the render is aborted now.
    pub cancel: bool,
    /// Where the picture is saved now.
    pub save_to: Option<String>,
    /// Whether the picture is drawn anew.
    pub redraw: bool,
    /// Whether another frame follows by itself.
    pub repaint: bool,
}

pub open spec fn status_of(s: Stage) -> Status {
    match s {
        Stage::Loading => Status::Loading,
        Stage::Rendering { .. } => Status::Rendering,
        Stage::Finished { cancelled, .. } => if cancelled {
            Status::Aborted
        } else {
            Status::Done
        },
        Stage::Failed => Status::Failed,
    }
}

/// The number of tiles that there are to show.
pub open spec fn tiles_of(s: Stage) -> Option<usize> {
    match s {
        Stage::Rendering { tiles } => Some(tiles),
        Stage::Finished { tiles, .. } => Some(tiles),
        _ => None,
    }
}

pub open spec fn is_running(s: Stage) -> bool {
    s is Loading || s is Rendering
}

/// Whether a render is aborted now: once the tiles are there at which it should be.
pub open spec fn cancels(at: Option<usize>, s: Stage) -> bool {
    match (at, s) {
        (Some(n), Stage::Rendering { tiles }) => tiles >= n,
        _ => false,
    }
}

impl Preview {
    /// What a frame does.
    pub fn update(&mut self, stage: Stage) -> (r: Frame)
        ensures
            r.status == status_of(stage),
            r.running == is_running(stage),
            r.can_save == (tiles_of(stage) is Some),
            r.cancel == cancels(old(self).cancel_at_tiles, stage),
            final(self).cancel_at_tiles == (if r.cancel {
                None
            } else {
                old(self).cancel_at_tiles
            }),
            stage is Finished ==> r.save_to == old(self).autosave && final(self).autosave is None,
            !(stage is Finished) ==> r.save_to is None && final(self).autosave
                == old(self).autosave,
            r.redraw == (tiles_of(stage) is Some && tiles_of(stage) != old(self).shown_tiles),
            final(self).shown_tiles == (if tiles_of(stage) is Some {
                tiles_of(stage)
            } else {
                old(self).shown_tiles
            }),
            r.repaint == (is_running(stage) || final(self).autosave is Some),
    {
        let mut cancel: bool = false;
        let mut save_to: Option<String> = None;
        let mut redraw: bool = false;
        let mut live: Option<usize> = None;
        let status: Status;
        let mut running: bool = false;
        match stage {
            Stage::Loading => {
                status = Status::Loading;
                running = true;
            },
            Stage::Rendering { tiles } => {
                status = Status::Rendering;
                running = true;
                live = Some(tiles);
                if let Some(n) = self.cancel_at_tiles {
                    if tiles >= n {
                        cancel = true;
                        self.cancel_at_tiles = None;
                    }
                }
            },
            Stage::Finished { tiles, cancelled } => {
                status = if cancelled {
                    Status::Aborted
                } else {
                    Status::Done
                };
                live = Some(tiles);
                save_to = self.autosave.take();
            },
            Stage::Failed => {
                status = Status::Failed;
            },
        }
        if let Some(tiles) = live {
            match self.shown_tiles {
                Some(n) => {
                    redraw = n != tiles;
                },
                None => {
                    redraw = true;
                },
            }
            self.shown_tiles = Some(tiles);
        }
        let repaint: bool = running || self.autosave.is_some();
        Frame { status, running, can_save: live.is_some(), cancel, save_to, redraw, repaint }
    }

    /// Starts over with another render: no picture is shown.
    pub fn reload(&mut self)
        ensures
            final(self).shown_tiles is None,
            final(self).autosave == old(self).autosave,
            final(self).cancel_at_tiles == old(self).cancel_at_tiles,
    {
        self.shown_tiles = None;
    }
}

} // verus!
