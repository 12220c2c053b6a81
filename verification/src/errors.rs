use vstd::prelude::*;

verus! {

/// Failures surfaced by the tree and revision operations.
///
/// `WouldCreateCycle`, `PositionOutOfRange` and `EmptyTitle` reject invalid
/// requests before any mutation; `ChapterNotFound` and `VersionNotFound`
/// report absent identifiers; `BrokenChain` reports a version chain whose
/// links are dangling, cyclic, or inconsistent with its stored payloads, a
/// data-integrity fault that is never masked by partial content.
#[derive(Debug, Clone, Copy, PartialEq, Eq, Structural)]
pub enum EngineError {
    WouldCreateCycle,
    PositionOutOfRange,
    EmptyTitle,
    ChapterNotFound,
    VersionNotFound,
    BrokenChain,
}

impl EngineError {
    /// A short description of the failure.
    pub fn message(&self) -> (r: &str)
        ensures
            self is WouldCreateCycle ==> r@ == "moving the chapter would create a cycle"@,
            self is PositionOutOfRange ==> r@ == "position is out of range"@,
            self is EmptyTitle ==> r@ == "title must not be empty"@,
            self is ChapterNotFound ==> r@ == "chapter not found"@,
            self is VersionNotFound ==> r@ == "version not found"@,
            self is BrokenChain ==> r@ == "version chain is broken"@,
    {
        match self {
            Self::WouldCreateCycle => "moving the chapter would create a cycle",
            Self::PositionOutOfRange => "position is out of range",
            Self::EmptyTitle => "title must not be empty",
            Self::ChapterNotFound => "chapter not found",
            Self::VersionNotFound => "version not found",
            Self::BrokenChain => "version chain is broken",
        }
    }
}

} // verus!
