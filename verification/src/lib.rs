pub mod observer;
pub mod poller;
pub mod reactor;

pub use observer::{EventObserver, LoopError, ObserverResult};
pub use poller::{ReadyEntry, WaitOutcome};
pub use reactor::{EventLoop, EventLoopRegistrar};
