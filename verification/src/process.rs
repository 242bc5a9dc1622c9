//! Which process to look at.
use vstd::prelude::*;

use crate::text;

verus! {

/// The process id on the first line of a text, white space around the text aside.
pub open spec fn pid_in_text(s: Seq<char>) -> Option<int> {
    let lines = text::lines(text::trim(s));
    if lines.len() > 0 {
        text::parsed(lines[0], 10, u32::MAX as int)
    } else {
        None
    }
}

/// The id of the first of the processes whose name contains `name`.
pub open spec fn pid_by_name(name: Seq<char>, processes: Seq<(u32, String)>) -> Option<u32>
    decreases processes.len(),
{
    if processes.len() == 0 {
        None
    } else if text::occurs(processes[0].1@, name) {
        Some(processes[0].0)
    } else {
        pid_by_name(name, processes.skip(1))
    }
}

pub const NOT_FOUND_HEAD: &'static str = "Process '";

pub const NOT_FOUND_TAIL: &'static str = "' not found";

/// Reads the process id on the first line of a text.
pub fn pid_in(s: &str) -> (res: Option<u32>)
    ensures
        match res {
            Some(pid) => pid_in_text(s@) == Some(pid as int),
            None => pid_in_text(s@) is None,
        },
{
    let lines: Vec<Vec<char>> = text::split_lines(&text::trimmed(&text::chars_of(s)));
    assert(lines@.len() == text::texts(lines@).len());
    if lines.len() == 0 {
        return None;
    }
    assert(text::texts(lines@)[0] == lines@[0]@);
    match text::parse(&lines[0], 10, u32::MAX as u64) {
        Some(pid) => Some(pid as u32),
        None => None,
    }
}

/// The process id that `pgrep` printed first; `None` where it could not be run
/// or printed none.
pub fn pid_from_pgrep(stdout: Option<&Vec<u8>>) -> (res: Option<u32>)
    ensures
        match (stdout, res) {
            (Some(bytes), Some(pid)) => pid_in_text(text::lossy_text(bytes@)) == Some(pid as int),
            (Some(bytes), None) => pid_in_text(text::lossy_text(bytes@)) is None,
            (None, _) => res is None,
        },
        stdout matches Some(bytes) ==> vstd::utf8::valid_utf8(bytes@) ==> text::lossy_text(bytes@)
            == vstd::utf8::decode_utf8(bytes@),
{
    match stdout {
        Some(bytes) => {
            let s: String = text::text_of(bytes);
            pid_in(s.as_str())
        },
        None => None,
    }
}

/// Looks for a process by its name, in a list of all processes.
pub fn pid_from_processes(process_name: &str, processes: &Vec<(u32, String)>) -> (res: Result<
    u32,
    String,
>)
    ensures
        match res {
            Ok(pid) => pid_by_name(process_name@, processes@) == Some(pid),
            Err(message) => {
                &&& pid_by_name(process_name@, processes@) is None
                &&& message@ == NOT_FOUND_HEAD@ + process_name@ + NOT_FOUND_TAIL@
                &&& message@ == "Process '"@ + process_name@ + "' not found"@
            },
        },
{
    let needle: Vec<char> = text::chars_of(process_name);
    let mut i: usize = 0;
    assert(processes@.skip(0) =~= processes@);
    while i < processes.len()
        invariant
            i <= processes.len(),
            needle@ == process_name@,
            pid_by_name(process_name@, processes@.skip(i as int)) == pid_by_name(
                process_name@,
                processes@,
            ),
        decreases processes.len() - i,
    {
        let ghost rest = processes@.skip(i as int);
        assert(rest[0] == processes@[i as int]);
        if text::contains(&text::chars_of(processes[i].1.as_str()), &needle) {
            return Ok(processes[i].0);
        }
        assert(rest.skip(1) =~= processes@.skip(i + 1));
        i = i + 1;
    }
    assert(processes@.skip(i as int).len() == 0);
    Err(NOT_FOUND_HEAD.to_owned().concat(process_name).concat(NOT_FOUND_TAIL))
}

/// The process id stands on the first line of the text, white space before and
/// behind the text aside: decimal digits of a number of at most 32 bits, and
/// nothing else.
pub proof fn law_pid_is_on_the_first_line(
    before: Seq<char>,
    line: Seq<char>,
    rest: Seq<char>,
    behind: Seq<char>,
)
    requires
        forall|i: int| 0 <= i < before.len() ==> text::is_space()(#[trigger] before[i]),
        forall|i: int| 0 <= i < behind.len() ==> text::is_space()(#[trigger] behind[i]),
        line.len() > 0 && !line.contains('\n') && !text::is_space()(line[0]),
        rest.len() == 0 ==> !text::is_space()(line.last()),
        rest.len() > 0 ==> {
            &&& (rest[0] == '\n' && line.last() != '\r') || (rest.len() > 1 && rest[0] == '\r'
                && rest[1] == '\n')
            &&& !text::is_space()(rest.last())
        },
    ensures
        pid_in_text(before + (line + rest) + behind) == text::parsed(line, 10, 0xFFFF_FFFF),
        pid_in_text(before) is None,
{
    let core = line + rest;
    assert(core[0] == line[0]);
    if rest.len() > 0 {
        assert(core.last() == rest.last());
    } else {
        assert(core =~= line);
    }
    text::law_trim_takes_white_space_away(before, core, behind);
    let none = Seq::<char>::empty();
    text::law_trim_takes_white_space_away(before, none, none);
    assert(before + none + none =~= before);
    if rest.len() > 0 {
        let skipped: int = if rest[0] == '\n' {
            1
        } else {
            2
        };
        let others = rest.skip(skipped);
        if rest[0] == '\n' {
            assert(core =~= line + seq!['\n'] + others);
        } else {
            assert(core =~= line + seq!['\r', '\n'] + others);
        }
        text::law_lines_are_cut_at_line_feeds(line, others);
        assert((seq![line] + text::lines(others))[0] == line);
    } else {
        text::law_lines_are_cut_at_line_feeds(line, none);
    }
}

/// A process is found by its name: the first one in the list whose name contains
/// the wanted one; none only where no name does.
pub proof fn law_pid_is_of_the_first_match(name: Seq<char>, processes: Seq<(u32, String)>)
    ensures
        match pid_by_name(name, processes) {
            Some(pid) => exists|k: int|
                {
                    &&& 0 <= k < processes.len()
                    &&& (#[trigger] processes[k]).0 == pid
                    &&& text::occurs(processes[k].1@, name)
                    &&& forall|j: int|
                        0 <= j < k ==> !text::occurs((#[trigger] processes[j]).1@, name)
                },
            None => forall|j: int|
                0 <= j < processes.len() ==> !text::occurs((#[trigger] processes[j]).1@, name),
        },
    decreases processes.len(),
{
    if processes.len() > 0 && !text::occurs(processes[0].1@, name) {
        let rest = processes.skip(1);
        law_pid_is_of_the_first_match(name, rest);
        match pid_by_name(name, rest) {
            Some(pid) => {
                let k = choose|k: int|
                    {
                        &&& 0 <= k < rest.len()
                        &&& (#[trigger] rest[k]).0 == pid
                        &&& text::occurs(rest[k].1@, name)
                        &&& forall|j: int|
                            0 <= j < k ==> !text::occurs((#[trigger] rest[j]).1@, name)
                    };
                assert(processes[k + 1] == rest[k]);
                assert forall|j: int| 0 <= j < k + 1 implies !text::occurs(
                    (#[trigger] processes[j]).1@,
                    name,
                ) by {
                    if j > 0 {
                        assert(rest[j - 1] == processes[j]);
                    }
                }
            },
            None => {
                assert forall|j: int| 0 <= j < processes.len() implies !text::occurs(
                    (#[trigger] processes[j]).1@,
                    name,
                ) by {
                    if j > 0 {
                        assert(rest[j - 1] == processes[j]);
                    }
                }
            },
        }
    }
}

} // verus!
