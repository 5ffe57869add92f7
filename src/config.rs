use vstd::prelude::*;

verus! {

/// Settings of the service around the automaton engine.
pub struct Config {
    pub bind_host: String,
    pub bind_port: u16,
    pub dot_executable: String,
    pub log_level: String,
    pub max_len: i32,
    pub max_count_sametime: usize,
    pub render_timeout: u64,
}

impl Default for Config {
    fn default() -> (r: Self)
        ensures
            r.bind_host@ == "127.0.0.1"@,
            r.bind_port == 90,
            r.dot_executable@ == "dot"@,
            r.log_level@ == "info"@,
            r.max_len == 50,
            r.max_count_sametime == 2,
            r.render_timeout == 5000,
    {
        Config {
            bind_host: String::from_str("127.0.0.1"),
            bind_port: 90,
            dot_executable: String::from_str("dot"),
            log_level: String::from_str("info"),
            max_len: 50,
            max_count_sametime: 2,
            render_timeout: 5000,
        }
    }
}

} // verus!
