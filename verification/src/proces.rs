//! Running processes: the summary line of a process, and the process tree of an emerge run.
use crate::text::{dec_int, push_i64, push_str, str_slice};
use vstd::prelude::*;
use vstd::string::*;
use vstd::utf8::*;

verus! {

broadcast use vstd::utf8::group_utf8_lib;

/// Command line, start time and pid of a process.
pub struct Info {
    pub cmdline: String,
    pub start: i64,
    pub pid: i32,
}

/// `Pid <pid>: `
pub open spec fn pid_label(pid: i32) -> Seq<char> {
    "Pid "@ + dec_int(pid as int) + ": "@
}

/// The room left for the command line within `precision` bytes (100 by default).
pub open spec fn cmd_capacity(pid: i32, precision: Option<usize>) -> int {
    let p = match precision {
        Some(p) => p as int,
        None => 100,
    };
    let l = encode_utf8(pid_label(pid)).len() as int;
    if p > l {
        p - l
    } else {
        0
    }
}

/// Where the shown tail of a long command line starts, in bytes.
pub open spec fn tail_start(cmd: Seq<char>, pid: i32, precision: Option<usize>) -> int {
    encode_utf8(cmd).len() - cmd_capacity(pid, precision) + 3
}

/// How a process is summed up: the whole command line when it fits (or is shorter than 4 bytes),
/// else an ellipsis and its tail, else only an ellipsis.
pub open spec fn info_text(cmd: Seq<char>, pid: i32, precision: Option<usize>) -> Seq<char> {
    let cap = cmd_capacity(pid, precision);
    let len = encode_utf8(cmd).len();
    if cap >= len || len < 4 {
        pid_label(pid) + cmd
    } else if cap > 3 {
        pid_label(pid) + "..."@ + decode_utf8(encode_utf8(cmd).skip(tail_start(cmd, pid, precision)))
    } else {
        pid_label(pid) + "..."@
    }
}

/// The shown tail of a long command line starts on a character.
pub open spec fn info_ok(cmd: Seq<char>, pid: i32, precision: Option<usize>) -> bool {
    let cap = cmd_capacity(pid, precision);
    let len = encode_utf8(cmd).len();
    !(cap >= len || len < 4) && cap > 3 ==> is_char_boundary(
        encode_utf8(cmd),
        tail_start(cmd, pid, precision),
    )
}

impl Info {
    /// The summary of the process within `precision` bytes, as its `Display` gives it.
    pub fn to_string_prec(&self, precision: Option<usize>) -> (r: String)
        requires
            info_ok(self.cmdline@, self.pid, precision),
        ensures
            r@ == info_text(self.cmdline@, self.pid, precision),
    {
        let mut out = String::new();
        push_str(&mut out, "Pid ");
        push_i64(&mut out, self.pid as i64);
        push_str(&mut out, ": ");
        proof {
            reveal_strlit("Pid ");
            reveal_strlit(": ");
            reveal_strlit("...");
        }
        assert(out@ =~= pid_label(self.pid));
        let l = out.as_str().as_bytes().len();
        let p = match precision {
            Some(p) => p,
            None => 100,
        };
        let cap = if p > l {
            p - l
        } else {
            0
        };
        let cmd = self.cmdline.as_str();
        let n = cmd.as_bytes().len();
        if cap >= n || n < 4 {
            push_str(&mut out, cmd);
        } else if cap > 3 {
            push_str(&mut out, "...");
            proof {
                is_char_boundary_start_end_of_seq(cmd.spec_bytes());
            }
            let tail = str_slice(cmd, n - cap + 3, n);
            assert(cmd.spec_bytes().subrange((n - cap + 3) as int, n as int) =~= cmd.spec_bytes().skip(
                (n - cap + 3) as int,
            ));
            push_str(&mut out, tail);
        } else {
            push_str(&mut out, "...");
        }
        out
    }
}

} // verus!
