//! The settings a `bscc.toml` file can pin. Reading and parsing the file
//! happen outside the verified library.
use vstd::prelude::*;

verus! {

/// Complexity thresholds above which a function is flagged.
pub struct Thresholds {
    pub cyclomatic_max: u32,
    pub longest_function_lines: u32,
}

/// Git integration settings.
pub struct GitConfig {
    pub window_days: u32,
}

/// A `bscc.toml` file: thresholds and git settings.
pub struct Config {
    pub thresholds: Thresholds,
    pub git: GitConfig,
}

/// Default cyclomatic-complexity threshold.
pub fn default_cyclo() -> (n: u32)
    ensures
        n == 10,
{
    10
}

/// Default function-length threshold, in lines.
pub fn default_len() -> (n: u32)
    ensures
        n == 100,
{
    100
}

/// Default `git log` window, in days.
pub fn default_window() -> (n: u32)
    ensures
        n == 90,
{
    90
}

impl Default for Thresholds {
    fn default() -> (t: Self)
        ensures
            t.cyclomatic_max == 10,
            t.longest_function_lines == 100,
    {
        Thresholds { cyclomatic_max: default_cyclo(), longest_function_lines: default_len() }
    }
}

impl Default for GitConfig {
    fn default() -> (g: Self)
        ensures
            g.window_days == 90,
    {
        GitConfig { window_days: default_window() }
    }
}

impl Default for Config {
    fn default() -> (c: Self)
        ensures
            c.thresholds.cyclomatic_max == 10,
            c.thresholds.longest_function_lines == 100,
            c.git.window_days == 90,
    {
        Config { thresholds: Thresholds::default(), git: GitConfig::default() }
    }
}

} // verus!
