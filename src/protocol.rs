//! The control channel's text: requests as the daemon decodes them, the
//! replies it sends, and the client-side checks around the daemon.

use crate::site_url::{text_eq, SiteUrl};
use crate::supervisor::StartError;
use vstd::prelude::*;

verus! {

/// Names what `String::from_utf8_lossy` makes of a byte string.
pub uninterp spec fn utf8_lossy_of(b: Seq<u8>) -> Seq<char>;

/// Names what `str::trim` makes of a string.
pub uninterp spec fn trim_of(s: Seq<char>) -> Seq<char>;

/// A request on the control channel.
#[derive(Debug, PartialEq, Eq)]
pub enum Request {
    Start(String),
    Stop(String),
    List,
    Unknown,
}

/// What the liveness check makes of the PID file and the process it names.
#[derive(Debug, Clone, Copy, PartialEq, Eq)]
pub enum Liveness {
    /// The PID file is there and its process can be signalled.
    Running,
    /// Neither is there.
    Stopped,
    /// One of the two without the other.
    Inconsistent,
}

/// Relies on `String::from_utf8_lossy`: the bytes decoded, invalid
/// sequences replaced.
#[verifier::external_body]
fn decode_lossy(b: &[u8]) -> (r: String)
    ensures
        r@ == utf8_lossy_of(b@),
{
    String::from_utf8_lossy(b).into_owned()
}

/// Relies on `str::trim`: the string without leading and trailing white
/// space.
#[verifier::external_body]
fn trimmed(s: &str) -> (r: &str)
    ensures
        r@ == trim_of(s@),
{
    s.trim()
}

/// The index of the first space in `t`, if any.
pub open spec fn first_space(t: Seq<char>) -> Option<int> {
    if exists|i: int| 0 <= i < t.len() && t[i] == ' ' {
        Some(choose|i: int| 0 <= i < t.len() && t[i] == ' ' && forall|j: int| 0 <= j < i ==> t[j] != ' ')
    } else {
        None
    }
}

/// The word before the first space, and what follows that space (empty
/// where there is none).
pub open spec fn split_command(t: Seq<char>) -> (Seq<char>, Seq<char>) {
    match first_space(t) {
        Some(i) => (t.subrange(0, i), t.subrange(i + 1, t.len() as int)),
        None => (t, Seq::empty()),
    }
}


pub open spec fn request_matches(r: Request, t: Seq<char>) -> bool {
    let (cmd, arg) = split_command(t);
    if cmd == "start"@ {
        r is Start && r->Start_0@ == arg
    } else if cmd == "stop"@ {
        r is Stop && r->Stop_0@ == arg
    } else if cmd == "list"@ {
        r is List
    } else {
        r is Unknown
    }
}

/// Reads a line that is already trimmed: the command is the word before
/// the first space, the argument all that follows it.
pub fn parse_command(line: &str) -> (r: Request)
    ensures
        request_matches(r, line@),
{
    let n = line.unicode_len();
    let mut i: usize = 0;
    while i < n && line.get_char(i) != ' '
        invariant
            i <= n,
            n == line@.len(),
            forall|j: int| 0 <= j < i ==> line@[j] != ' ',
        decreases n - i,
    {
        i = i + 1;
    }
    let (cmd, arg) = if i < n {
        proof {
            assert(line@[i as int] == ' ');
            let k = choose|k: int|
                0 <= k < line@.len() && line@[k] == ' ' && forall|j: int| 0 <= j < k ==> line@[j] != ' ';
            assert(k == i) by {
                if k < i {
                } else if k > i {
                }
            }
        }
        (line.substring_char(0, i), line.substring_char(i + 1, n))
    } else {
        proof {
            assert(first_space(line@) is None);
        }
        (line, "")
    };
    proof {
        reveal_strlit("");
    }
    assert(arg@ == split_command(line@).1);
    if text_eq(cmd, "start") {
        Request::Start(String::from_str(arg))
    } else if text_eq(cmd, "stop") {
        Request::Stop(String::from_str(arg))
    } else if text_eq(cmd, "list") {
        Request::List
    } else {
        Request::Unknown
    }
}

/// Decodes the bytes of one request: read as UTF-8 (invalid sequences
/// replaced), trimmed, then split into command and argument.
pub fn decode_request(bytes: &[u8]) -> (r: Request)
    ensures
        request_matches(r, trim_of(utf8_lossy_of(bytes@))),
{
    let text = decode_lossy(bytes);
    parse_command(trimmed(text.as_str()))
}

/// The request a client sends: the command, and the site after a space
/// where there is one.
pub fn request_text(command: &str, website: Option<&str>) -> (r: String)
    ensures
        r@ == match website {
            Some(w) => command@ + " "@ + w@,
            None => command@,
        },
{
    let mut r = String::from_str(command);
    if let Some(w) = website {
        r.append(" ");
        r.append(w);
    }
    r
}

/// The reply to `start`.
pub fn start_reply(key: &str, outcome: &Result<SiteUrl, StartError>) -> (r: String)
    ensures
        r@ == match outcome {
            Ok(_) => "Started scraping "@ + key@,
            Err(StartError::AlreadyActive) => "Already scraping or scraped "@ + key@,
            Err(StartError::InvalidUrl) => "Failed to get valid URL"@,
        },
{
    match outcome {
        Ok(_) => String::from_str("Started scraping ").concat(key),
        Err(StartError::AlreadyActive) => String::from_str("Already scraping or scraped ").concat(key),
        Err(StartError::InvalidUrl) => String::from_str("Failed to get valid URL"),
    }
}

/// The reply to `stop`, by whether the job was running.
pub fn stop_reply(key: &str, stopped: bool) -> (r: String)
    ensures
        r@ == if stopped {
            "Stopped scraping "@ + key@
        } else {
            "The daemon is not scraping "@ + key@
        },
{
    if stopped {
        String::from_str("Stopped scraping ").concat(key)
    } else {
        String::from_str("The daemon is not scraping ").concat(key)
    }
}

/// The reply to a command the daemon does not know.
pub fn unknown_reply() -> (r: String)
    ensures
        r@ == "Unknown command"@,
{
    String::from_str("Unknown command")
}

/// The daemon counts as running when its PID file is there and the process
/// it names can be signalled; one without the other is an inconsistency.
pub fn liveness(pid_file: bool, signalable: bool) -> (r: Liveness)
    ensures
        r == if pid_file && signalable {
            Liveness::Running
        } else if pid_file || signalable {
            Liveness::Inconsistent
        } else {
            Liveness::Stopped
        },
{
    if pid_file && signalable {
        Liveness::Running
    } else if pid_file || signalable {
        Liveness::Inconsistent
    } else {
        Liveness::Stopped
    }
}

/// Whether `s` occurs in `t` at `i`.
pub open spec fn occurs_at(t: Seq<char>, s: Seq<char>, i: int) -> bool {
    0 <= i && i + s.len() <= t.len() && t.subrange(i, i + s.len()) == s
}

/// Whether a file name in the shared temporary directory belongs to the
/// crawler: its name contains `crawl`.
pub fn is_crawl_file(name: &str) -> (r: bool)
    ensures
        r == exists|i: int| occurs_at(name@, "crawl"@, i),
{
    proof {
        reveal_strlit("crawl");
    }
    let word = "crawl";
    let n = name.unicode_len();
    if n < 5 {
        assert forall|i: int| !occurs_at(name@, "crawl"@, i) by {}
        return false;
    }
    let mut i: usize = 0;
    while i <= n - 5
        invariant
            n == name@.len(),
            n >= 5,
            i <= n - 4,
            word@ == "crawl"@,
            word@.len() == 5,
            forall|j: int| 0 <= j < i ==> !occurs_at(name@, "crawl"@, j),
        decreases n - i,
    {
        let part = name.substring_char(i, i + 5);
        if text_eq(part, word) {
            assert(occurs_at(name@, "crawl"@, i as int));
            return true;
        }
        i = i + 1;
    }
    assert forall|j: int| !occurs_at(name@, "crawl"@, j) by {
        if 0 <= j < i {
        }
    }
    false
}

} // verus!
