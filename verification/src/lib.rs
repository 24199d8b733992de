use vstd::prelude::*;

pub mod text;
pub mod error;
pub mod models;
pub mod sgp;
pub mod stats;
pub mod live;
pub mod premade;
pub mod client_groups;
pub mod update;
pub mod search;
pub mod ranked;
pub mod lcu;
pub mod discovery;
pub mod loading;
pub mod cancel;
pub mod stats_load;
pub mod bounds;
