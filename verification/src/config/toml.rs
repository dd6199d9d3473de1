//! The options of the config file, as plain values (the file format is read by the program).
use vstd::prelude::*;

verus! {

/// `[log]` section.
pub struct TomlLog {
    pub show: Option<String>,
    pub starttime: Option<bool>,
}

/// `[predict]` section.
pub struct TomlPred {
    pub show: Option<String>,
    pub avg: Option<String>,
    pub limit: Option<i64>,
    pub unknownb: Option<i64>,
    pub unknownc: Option<i64>,
    pub tmpdir: Option<Vec<String>>,
    pub pwidth: Option<i64>,
    pub pdepth: Option<i64>,
    pub mtimedbfile: Option<String>,
}

/// `[stats]` section.
pub struct TomlStats {
    pub show: Option<String>,
    pub avg: Option<String>,
    pub limit: Option<i64>,
    pub group: Option<String>,
}

/// `[accuracy]` section.
pub struct TomlAccuracy {
    pub show: Option<String>,
    pub avg: Option<String>,
    pub limit: Option<i64>,
}

/// The whole config file.
pub struct Toml {
    pub logfile: Option<String>,
    pub date: Option<String>,
    pub duration: Option<String>,
    pub header: Option<bool>,
    pub showskip: Option<bool>,
    pub utc: Option<bool>,
    pub color: Option<String>,
    pub output: Option<String>,
    pub theme: Option<String>,
    pub log: Option<TomlLog>,
    pub predict: Option<TomlPred>,
    pub stats: Option<TomlStats>,
    pub accuracy: Option<TomlAccuracy>,
}

impl Toml {
    /// A file that sets nothing.
    pub fn empty() -> (r: Self)
        ensures
            r.logfile is None && r.date is None && r.duration is None && r.header is None
                && r.showskip is None && r.utc is None && r.color is None && r.output is None
                && r.theme is None && r.log is None && r.predict is None && r.stats is None
                && r.accuracy is None,
    {
        Toml {
            logfile: None,
            date: None,
            duration: None,
            header: None,
            showskip: None,
            utc: None,
            color: None,
            output: None,
            theme: None,
            log: None,
            predict: None,
            stats: None,
            accuracy: None,
        }
    }
}

} // verus!
