//! The decisions of writing a pane's input to its PTY: which write results
//! count, which are retried, and what is reported. Only bytes the writer
//! accepted are counted; a partial failure is reported and never retried.
use vstd::prelude::*;

verus! {

broadcast use vstd::string::group_string_axioms;

/// What one write to the PTY came to.
#[derive(Clone, Debug, PartialEq, Eq)]
pub enum WriteOutcome {
    /// The writer took this many bytes.
    Wrote(usize),
    /// The write was interrupted before anything was written.
    Interrupted,
    /// The write failed, with the error's text.
    Failed(String),
}

/// What to do after a write.
#[derive(Clone, Debug, PartialEq, Eq)]
pub enum Delivery {
    /// Write again from this many bytes in, if any are left.
    Continue(usize),
    /// Stop, with this many bytes written and the error to report.
    Stop(usize, String),
}

/// The first 256 characters of an error's text.
pub open spec fn report_text(message: Seq<char>) -> Seq<char> {
    if message.len() <= 256 {
        message
    } else {
        message.take(256)
    }
}

/// What a write's outcome means, `written` of `total` bytes having been
/// written before it: whether to stop, how many bytes are written, and the
/// error to report on stopping.
pub open spec fn delivery_after(written: usize, total: usize, outcome: WriteOutcome) -> (bool, int, Seq<
    char,
>) {
    match outcome {
        WriteOutcome::Wrote(count) => if count == 0 {
            (true, written as int, "PTY input write returned zero"@)
        } else if count <= total - written {
            (false, written + count, Seq::empty())
        } else {
            (true, written as int, "invalid PTY write count"@)
        },
        WriteOutcome::Interrupted => (false, written as int, Seq::empty()),
        WriteOutcome::Failed(m) => (true, written as int, report_text(m@)),
    }
}

/// The first 256 characters of an error's text.
pub fn report(message: &str) -> (s: String)
    ensures
        s@ == report_text(message@),
{
    let cs = crate::text::chars_of(message);
    let mut s = String::new();
    let mut i: usize = 0;
    while i < cs.len() && i < 256
        invariant
            i <= cs@.len(),
            i <= 256,
            cs@ == message@,
            s@ == cs@.take(i as int),
        decreases cs.len() - i,
    {
        crate::text::push_char(&mut s, cs[i]);
        assert(cs@.take(i + 1) =~= cs@.take(i as int).push(cs@[i as int]));
        i += 1;
    }
    assert(s@ =~= report_text(message@));
    s
}

/// What a write's outcome means, `written` of `total` bytes having been
/// written before it: a count within what was left is added, an interrupted
/// write is retried, and a zero count, a count past what was left, or an
/// error stops with what was written so far.
pub fn after_write(written: usize, total: usize, outcome: WriteOutcome) -> (d: Delivery)
    requires
        written < total,
    ensures
        match d {
            Delivery::Continue(n) => !delivery_after(written, total, outcome).0 && n == delivery_after(
                written,
                total,
                outcome,
            ).1,
            Delivery::Stop(n, message) => delivery_after(written, total, outcome).0 && n
                == delivery_after(written, total, outcome).1 && message@ == delivery_after(
                written,
                total,
                outcome,
            ).2,
        },
{
    match outcome {
        WriteOutcome::Wrote(count) => {
            if count == 0 {
                Delivery::Stop(written, crate::text::string_of("PTY input write returned zero"))
            } else if count <= total - written {
                Delivery::Continue(written + count)
            } else {
                Delivery::Stop(written, crate::text::string_of("invalid PTY write count"))
            }
        },
        WriteOutcome::Interrupted => Delivery::Continue(written),
        WriteOutcome::Failed(m) => Delivery::Stop(written, report(m.as_str())),
    }
}

/// What is reported once every byte was written and the writer flushed:
/// the flush's error, cut to 256 characters, if it failed.
pub fn after_flush(flush_error: Option<String>) -> (r: Option<String>)
    ensures
        match r {
            Some(s) => flush_error matches Some(e) && s@ == report_text(e@),
            None => flush_error is None,
        },
{
    match flush_error {
        Some(e) => Some(report(e.as_str())),
        None => None,
    }
}


/// Where a tracked input operation stands.
#[derive(Clone, Copy, Debug, PartialEq, Eq, Structural)]
pub enum InputState {
    /// Reserved; no bytes submitted yet.
    Reserved,
    /// Submitted and handed to the writer.
    Queued,
    /// Every byte was written and flushed.
    Delivered,
    /// Some bytes were not written, or the writer reported an error.
    Failed,
}

/// How a tracked write ended, as its receipt records it.
#[derive(Clone, Debug, PartialEq, Eq)]
pub struct Completion {
    pub bytes_written: usize,
    pub state: InputState,
    pub error: Option<String>,
}

/// How a write of `length` bytes ended when the writer reports
/// `bytes_written` and perhaps an error: no more than `length` bytes count
/// as written; it is delivered when all were written without an error, and
/// failed otherwise, with the error (or `incomplete PTY write`) cut to 256
/// characters.
pub fn completion(length: usize, bytes_written: usize, error: Option<String>) -> (c: Completion)
    ensures
        c.bytes_written == (if bytes_written <= length {
            bytes_written
        } else {
            length
        }),
        c.state == (if error is None && bytes_written == length {
            InputState::Delivered
        } else {
            InputState::Failed
        }),
        c.state == InputState::Delivered ==> c.error is None,
        c.state == InputState::Failed ==> (c.error matches Some(e) && e@ == report_text(
            match error {
                Some(m) => m@,
                None => "incomplete PTY write"@,
            },
        )),
{
    let written = if bytes_written <= length {
        bytes_written
    } else {
        length
    };
    let delivered = error.is_none() && bytes_written == length;
    if delivered {
        Completion { bytes_written: written, state: InputState::Delivered, error: None }
    } else {
        let text = match error {
            Some(m) => report(m.as_str()),
            None => report("incomplete PTY write"),
        };
        Completion { bytes_written: written, state: InputState::Failed, error: Some(text) }
    }
}

/// Input bytes that may wait for the writer thread at once.
pub const MAX_PENDING_INPUT_BYTES: usize = 4194304;

/// The pending count once `bytes` more are queued, if that stays within the
/// budget; the application stopped reading otherwise.
pub fn input_budget_after(pending: usize, bytes: usize) -> (r: Option<usize>)
    ensures
        r == (if pending + bytes <= MAX_PENDING_INPUT_BYTES {
            Some((pending + bytes) as usize)
        } else {
            None
        }),
{
    match pending.checked_add(bytes) {
        Some(sum) => if sum <= MAX_PENDING_INPUT_BYTES {
            Some(sum)
        } else {
            None
        },
        None => None,
    }
}

/// An environment variable of fux's own or of its session layer, which a
/// pane's process does not inherit: `FUX_` and `KOH_` names.
pub open spec fn private_key(key: Seq<char>) -> bool {
    key.len() >= 4 && (key.take(4) == "FUX_"@ || key.take(4) == "KOH_"@)
}

/// Whether an environment variable is kept from panes' processes.
pub fn is_private_env_key(key: &str) -> (r: bool)
    ensures
        r == private_key(key@),
{
    proof {
        reveal_strlit("FUX_");
        reveal_strlit("KOH_");
    }
    let cs = crate::text::chars_of(key);
    if cs.len() < 4 {
        return false;
    }
    let fux = cs[0] == 'F' && cs[1] == 'U' && cs[2] == 'X' && cs[3] == '_';
    let koh = cs[0] == 'K' && cs[1] == 'O' && cs[2] == 'H' && cs[3] == '_';
    assert(fux == (cs@.take(4) == "FUX_"@)) by {
        if cs@.take(4) == "FUX_"@ {
            assert(cs@.take(4)[0] == 'F' && cs@.take(4)[1] == 'U' && cs@.take(4)[2] == 'X' && cs@.take(4)[3] == '_');
        }
        if fux {
            assert(cs@.take(4) =~= "FUX_"@);
        }
    }
    assert(koh == (cs@.take(4) == "KOH_"@)) by {
        if cs@.take(4) == "KOH_"@ {
            assert(cs@.take(4)[0] == 'K' && cs@.take(4)[1] == 'O' && cs@.take(4)[2] == 'H' && cs@.take(4)[3] == '_');
        }
        if koh {
            assert(cs@.take(4) =~= "KOH_"@);
        }
    }
    fux || koh
}

}
