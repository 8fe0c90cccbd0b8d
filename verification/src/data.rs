//! The data model of the engine and the operations on it.

pub mod contest;
pub mod driver;
pub mod intake;
pub mod lexical;
pub mod problem;
pub mod ranking;
pub mod reveal_state;
pub mod revelation;
pub mod run;
pub mod runs_file;
pub mod runs_queue;
pub mod score;
pub mod standings;
pub mod string_map;
pub mod team;
pub mod timer;

pub use self::contest::{ContestError, ContestFile, ContestView};
pub use self::driver::{update, Effect, Fault, Msg};
pub use self::intake::Intake;
pub use self::lexical::Side;
pub use self::problem::{Answer, Problem, ProblemView};
pub use self::reveal_state::RevealState;
pub use self::revelation::Revelation;
pub use self::run::{RunTuple, RunView, RunsPanelItem};
pub use self::runs_file::RunsFile;
pub use self::runs_queue::RunsQueue;
pub use self::score::{Score, ScoreView};
pub use self::standings::{ProblemStatus, Standing};
pub use self::string_map::StringMap;
pub use self::team::{Team, TeamView};
pub use self::timer::{TimeFile, TimerData};
