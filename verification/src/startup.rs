//! What the program does once, before the poll loop starts.

use crate::archive::ZoomLevel;
use vstd::prelude::*;

verus! {

/// One step of the first run.
#[derive(Clone, Copy, Debug, PartialEq, Eq, Structural)]
pub enum InitStep {
    /// Make the archive's root directory; that it exists already is no
    /// failure.
    CreateRoot,
    /// Make the level's directory and fetch its two reference images.
    Background(ZoomLevel),
    /// Run one sync pass; its failure does not stop the first run.
    InitialSync,
    /// Make every file in the level's directory new.
    MarkNew(ZoomLevel),
}

/// The steps of the first run, in order: the root, then each level's
/// directory and reference images, then one sync pass, and only then the
/// marking of every file as new, level by level, so that the files which
/// were there before the pass are new as well.
pub open spec fn init_steps() -> Seq<InitStep> {
    seq![
        InitStep::CreateRoot,
        InitStep::Background(ZoomLevel::Low),
        InitStep::Background(ZoomLevel::Mid),
        InitStep::Background(ZoomLevel::High),
        InitStep::InitialSync,
        InitStep::MarkNew(ZoomLevel::Low),
        InitStep::MarkNew(ZoomLevel::Mid),
        InitStep::MarkNew(ZoomLevel::High),
    ]
}

/// The steps of the first run, in the order in which they are taken.
pub fn init() -> (steps: Vec<InitStep>)
    ensures
        steps@ == init_steps(),
{
    let mut steps: Vec<InitStep> = Vec::new();
    steps.push(InitStep::CreateRoot);
    steps.push(InitStep::Background(ZoomLevel::Low));
    steps.push(InitStep::Background(ZoomLevel::Mid));
    steps.push(InitStep::Background(ZoomLevel::High));
    steps.push(InitStep::InitialSync);
    steps.push(InitStep::MarkNew(ZoomLevel::Low));
    steps.push(InitStep::MarkNew(ZoomLevel::Mid));
    steps.push(InitStep::MarkNew(ZoomLevel::High));
    assert(steps@ =~= init_steps());
    steps
}

/// Every level's directory is marked after the first pass, never before
/// it, and prepared before it.
pub proof fn lemma_marking_follows_sync(level: ZoomLevel)
    ensures
        init_steps().index_of(InitStep::Background(level)) < init_steps().index_of(
            InitStep::InitialSync,
        ),
        init_steps().index_of(InitStep::InitialSync) < init_steps().index_of(
            InitStep::MarkNew(level),
        ),
        init_steps().contains(InitStep::Background(level)),
        init_steps().contains(InitStep::MarkNew(level)),
{
    let s = init_steps();
    assert(s[4] == InitStep::InitialSync);
    assert(s[1] == InitStep::Background(ZoomLevel::Low));
    assert(s[2] == InitStep::Background(ZoomLevel::Mid));
    assert(s[3] == InitStep::Background(ZoomLevel::High));
    assert(s[5] == InitStep::MarkNew(ZoomLevel::Low));
    assert(s[6] == InitStep::MarkNew(ZoomLevel::Mid));
    assert(s[7] == InitStep::MarkNew(ZoomLevel::High));
    let b = s.index_of(InitStep::Background(level));
    let y = s.index_of(InitStep::InitialSync);
    let m = s.index_of(InitStep::MarkNew(level));
    assert(0 <= b < 8 && s[b] == InitStep::Background(level));
    assert(0 <= y < 8 && s[y] == InitStep::InitialSync);
    assert(0 <= m < 8 && s[m] == InitStep::MarkNew(level));
}

} // verus!
