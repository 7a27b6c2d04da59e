//! The engine itself: directories, size units and the orchestration of reads,
//! writes, rollover, flush and recovery.

pub mod compactor;
pub mod guarantees;
pub mod recovery;
pub mod storage;
