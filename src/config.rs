use vstd::prelude::*;

use crate::text::{number_within, parse_number};

verus! {

/// When the output is coloured.
#[derive(Clone, Copy, Debug, PartialEq, Eq, Structural)]
pub enum ColorChoice {
    Auto,
    On,
    Off,
}

/// How a run is set up: where to connect, how to print and how many queries
/// may run at once.
#[derive(Debug)]
pub struct Config {
    pub host: String,
    pub color: ColorChoice,
    pub parallelism: usize,
    pub pretty: bool,
}

/// Number of queries that run at once unless a valid number is given.
pub const DEFAULT_PARALLELISM: usize = 5;

pub open spec fn default_host() -> Seq<char> {
    seq!['l', 'o', 'c', 'a', 'l', 'h', 'o', 's', 't', ':', '9', '0', '4', '2']
}

pub open spec fn default_port_suffix() -> Seq<char> {
    seq![':', '9', '0', '4', '2']
}

/// The address to connect to: the given host, or `localhost`, with port
/// 9042 added when it names none.
pub open spec fn host_address(host: Option<Seq<char>>) -> Seq<char> {
    match host {
        None => default_host(),
        Some(h) => if h.contains(':') {
            h
        } else {
            h + default_port_suffix()
        },
    }
}

pub open spec fn parallelism_of(text: Option<Seq<char>>) -> nat {
    match text {
        Some(t) => match number_within(t, usize::MAX as int) {
            Some(v) => if v >= 1 {
                v as nat
            } else {
                DEFAULT_PARALLELISM as nat
            },
            None => DEFAULT_PARALLELISM as nat,
        },
        None => DEFAULT_PARALLELISM as nat,
    }
}

pub open spec fn color_of(text: Option<Seq<char>>) -> ColorChoice {
    match text {
        Some(t) => if t == seq!['o', 'f', 'f'] {
            ColorChoice::Off
        } else if t == seq!['o', 'n'] {
            ColorChoice::On
        } else {
            ColorChoice::Auto
        },
        None => ColorChoice::Auto,
    }
}

fn has_colon(s: &str) -> (r: bool)
    ensures
        r == s@.contains(':'),
{
    let n = s.unicode_len();
    let mut i: usize = 0;
    while i < n
        invariant
            n == s@.len(),
            0 <= i <= n,
            forall|j: int| 0 <= j < i ==> s@[j] != ':',
        decreases n - i,
    {
        if s.get_char(i) == ':' {
            return true;
        }
        i = i + 1;
    }
    false
}

fn is_text(s: &str, word: &str) -> (r: bool)
    ensures
        r == (s@ == word@),
{
    let n = s.unicode_len();
    if n != word.unicode_len() {
        return false;
    }
    let mut i: usize = 0;
    while i < n
        invariant
            n == s@.len(),
            n == word@.len(),
            0 <= i <= n,
            forall|j: int| 0 <= j < i ==> s@[j] == word@[j],
        decreases n - i,
    {
        if s.get_char(i) != word.get_char(i) {
            return false;
        }
        i = i + 1;
    }
    assert(s@ =~= word@);
    true
}

pub open spec fn opt_text(s: Option<&str>) -> Option<Seq<char>> {
    match s {
        Some(x) => Some(x@),
        None => None,
    }
}

impl Config {
    /// The set-up from the options as given: the host, the colour choice
    /// (`on`, `off`, anything else meaning automatic), the parallelism (the
    /// default when absent, not a number or zero) and whether to pretty-print.
    pub fn from_options(host: Option<&str>, color: Option<&str>, parallelism: Option<&str>, pretty: bool) -> (r: Config)
        ensures
            r.host@ == host_address(opt_text(host)),
            r.color == color_of(opt_text(color)),
            r.parallelism as nat == parallelism_of(opt_text(parallelism)),
            r.parallelism >= 1,
            r.pretty == pretty,
    {
        proof {
            reveal_strlit("localhost:9042");
            reveal_strlit(":9042");
            reveal_strlit("on");
            reveal_strlit("off");
            assert("localhost:9042"@ =~= default_host());
            assert(":9042"@ =~= default_port_suffix());
            assert("on"@ =~= seq!['o', 'n']);
            assert("off"@ =~= seq!['o', 'f', 'f']);
        }
        let address = match host {
            None => "localhost:9042".to_owned(),
            Some(h) => if has_colon(h) {
                h.to_owned()
            } else {
                h.to_owned().concat(":9042")
            },
        };
        let choice = match color {
            Some(c) => if is_text(c, "off") {
                ColorChoice::Off
            } else if is_text(c, "on") {
                ColorChoice::On
            } else {
                ColorChoice::Auto
            },
            None => ColorChoice::Auto,
        };
        let workers = match parallelism {
            Some(p) => match parse_number(p, usize::MAX as u64) {
                Some(v) => if v >= 1 {
                    v as usize
                } else {
                    DEFAULT_PARALLELISM
                },
                None => DEFAULT_PARALLELISM,
            },
            None => DEFAULT_PARALLELISM,
        };
        Config { host: address, color: choice, parallelism: workers, pretty }
    }
}

} // verus!
